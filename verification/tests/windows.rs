use h41::windows::{
    all, detect_home_prefix, executable_paths_of, normalize_address, parse_netstat_output,
    process_info, process_info_from_wmic, WindowsProbe,
};
use regex::Regex;

#[test]
fn addresses_are_normalized() {
    assert_eq!("localhost:8080", normalize_address("[::1]:8080"));
    assert_eq!("*:8080", normalize_address("[::]:8080"));
    assert_eq!("localhost:80", normalize_address("127.0.0.1:80"));
    assert_eq!("*:445", normalize_address("0.0.0.0:445"));
    assert_eq!("10.0.0.1:22", normalize_address("10.0.0.1:22"));
    assert_eq!("*.0.0:1", normalize_address("0.0.0.0.0.0:1"));
}

#[test]
fn netstat_listening_lines_are_grouped_by_pid() {
    let out = "\r\nActive Connections\r\n\r\n  Proto  Local Address          Foreign Address        State           PID\r\n  TCP    0.0.0.0:135            0.0.0.0:0              LISTENING       1234\r\n  TCP    [::]:135               [::]:0                 LISTENING       1234\r\n  TCP    127.0.0.1:5000         0.0.0.0:0              LISTENING       77\r\n  TCP    10.0.0.5:50000         1.2.3.4:443            ESTABLISHED     77\r\n  tcp    [::1]:9000             [::]:0                 listening       0\r\n";
    let groups = parse_netstat_output(out);
    assert_eq!(2, groups.len());
    assert_eq!(1234, groups[0].pid);
    assert_eq!(vec!["*:135".to_string(), "*:135".to_string()], groups[0].addresses);
    assert_eq!(77, groups[1].pid);
    assert_eq!(vec!["localhost:5000".to_string()], groups[1].addresses);

    let probes = vec![WindowsProbe {
        pid: 1234,
        wmic_output: Some("\r\nCommandLine=svchost.exe -k RPCSS\r\nExecutablePath=\r\nName=svchost.exe\r\n".to_string()),
    }];
    let entries = all(out, &probes);
    assert_eq!(2, entries.len());
    assert_eq!(vec!["*:135".to_string()], entries[0].listen);
    assert_eq!("svchost.exe", entries[0].name);
    assert_eq!(Some("svchost.exe -k RPCSS".to_string()), entries[0].args);
    assert_eq!(None, entries[0].cwd);
    assert_eq!("PID 77", entries[1].name);
    assert_eq!(None, entries[1].args);
}

#[test]
fn wmic_fields_are_read() {
    let out = "Name=\r\nName=app.exe\r\n  CommandLine=app --serve  \r\nExecutablePath=C:\\Apps\\app.exe\r\n";
    assert_eq!(vec!["C:\\Apps\\app.exe".to_string()], executable_paths_of(Some(out)));
    let info = process_info(9, Some(out), &vec![Some("C:\\Apps".to_string()), None]);
    assert_eq!("app.exe", info.name);
    assert_eq!(Some("app --serve".to_string()), info.args);
    assert_eq!(Some("C:\\Apps".to_string()), info.cwd);
    let bare = process_info_from_wmic(9, None);
    assert_eq!("PID 9", bare.name);
    assert_eq!(None, bare.cwd);
}

#[test]
fn windows_home_prefix() {
    let cwds = vec![
        "C:\\Users\\ann\\src".to_string(),
        "c:\\USERS\\bob".to_string(),
        "c:\\USERS\\bob\\x".to_string(),
        "C:\\Windows".to_string(),
    ];
    assert_eq!(Some("c:\\USERS\\bob".to_string()), detect_home_prefix(cwds));
    assert_eq!(None, detect_home_prefix(vec!["C:\\Users\\".to_string()]));
    assert_eq!(
        Some("C:\\Users\\ann".to_string()),
        detect_home_prefix(vec!["/home/x".to_string(), "C:\\Users\\ann".to_string()])
    );
}

#[test]
fn should_detect_no_windows_home_prefix_in_unix_paths() {
    let cwds = vec![
        "/Users/cgatay/projects/foo".to_string(),
        "/Users/cgatay/projects/bar".to_string(),
        "/usr/local/bin".to_string(),
    ];
    assert_eq!(None, detect_home_prefix(cwds));
}

#[test]
fn netstat_pid_is_the_whole_run_of_decimal_digits() {
    // A run of digits with one outside ASCII does not read as a number.
    let arabic = "  TCP    0.0.0.0:1      0.0.0.0:0      LISTENING       12\u{663}\r\n";
    assert_eq!(0, parse_netstat_output(arabic).len());
    // The run stops at the first character that is no digit.
    let trailing = "  TCP    0.0.0.0:2      0.0.0.0:0      LISTENING       12x\r\n";
    let groups = parse_netstat_output(trailing);
    assert_eq!(1, groups.len());
    assert_eq!(12, groups[0].pid);
    assert_eq!(vec!["*:2".to_string()], groups[0].addresses);
    // Too large for an i64, or zero: left out.
    assert_eq!(0, parse_netstat_output("TCP a:1 b:0 LISTENING 99999999999999999999").len());
    assert_eq!(0, parse_netstat_output("TCP a:1 b:0 LISTENING 000").len());
}

#[test]
fn netstat_lines_agree_with_the_line_pattern() {
    let re = Regex::new(r"(?i)^\s*TCP\s+(\S+)\s+\S+\s+LISTENING\s+(\d+)").unwrap();
    let lines = [
        "  TCP    0.0.0.0:135            0.0.0.0:0              LISTENING       1234",
        "  tcp    [::1]:9000             [::]:0                 listening       88",
        "TCP\t127.0.0.1:5000\t0.0.0.0:0\tLiStEnInG\t77 extra words",
        "  TCP    10.0.0.5:50000         1.2.3.4:443            ESTABLISHED     77",
        "  UDP    0.0.0.0:5353           *:*                                    99",
        "  TCP    0.0.0.0:7              0.0.0.0:0              LI\u{17F}TENING       7",
        "\u{a0}TCP\u{3000}0.0.0.0:8\u{2003}0.0.0.0:0\u{a0}LISTENING\u{85}8",
        "  TCP    0.0.0.0:9              0.0.0.0:0              LISTENING",
        "  TCP    0.0.0.0:10             0.0.0.0:0              LISTENING       \u{663}\u{664}",
        "  TCP    0.0.0.0:11             0.0.0.0:0              LISTENING       0",
        "  TCPX   0.0.0.0:12             0.0.0.0:0              LISTENING       12",
        "  TCP    0.0.0.0:13             0.0.0.0:0              LISTENINGS      13",
        "  TCP    0.0.0.0:14             LISTENING       14",
        "",
    ];
    for line in lines {
        let expected = re.captures(line).and_then(|caps| {
            let pid: i64 = caps[2].parse().unwrap_or(0);
            if pid == 0 {
                None
            } else {
                Some((pid, vec![normalize_address(&caps[1])]))
            }
        });
        let groups = parse_netstat_output(line);
        let got = match groups.len() {
            0 => None,
            1 => Some((groups[0].pid, groups[0].addresses.clone())),
            n => panic!("{} groups from one line", n),
        };
        assert_eq!(expected, got, "line {:?}", line);
    }
}

#[test]
fn working_directory_is_the_parent_of_the_last_executable_path() {
    let out = "Name=server\r\nExecutablePath=/opt/app/bin/server\r\n";
    let info = process_info_from_wmic(5, Some(out));
    assert_eq!("server", info.name);
    assert_eq!(Some("/opt/app/bin".to_string()), info.cwd);

    let two = "ExecutablePath=/opt/old/tool\r\nExecutablePath=/srv/new/tool\r\n";
    let info = process_info_from_wmic(6, Some(two));
    assert_eq!("PID 6", info.name);
    assert_eq!(Some("/srv/new".to_string()), info.cwd);

    let none = "Name=x.exe\r\nExecutablePath=\r\n";
    assert_eq!(None, process_info_from_wmic(7, Some(none)).cwd);
}
