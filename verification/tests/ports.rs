use h41::home::{detect_home_prefix, home_of_path, most_frequent};
use h41::lsof::{cwd_output_is_readable, lsof_output_is_parsable, parse_lsof_output, read_cwd_from_lsof_output};
use h41::ports::{all, args_from_ps_output, ProcessProbe};

#[test]
fn should_parse_lsof_output() {
    let sample_output = "p35985\n\
        cShimo-Setapp\n\
        f52\n\
        n*:61600\n\
        p42166\n\
        cBetterTouchTool\n\
        f16\n\
        n*:57411\n\
        f17\n\
        n*:57411\n\
        p47915\n\
        cidea\n\
        f7\n\
        nlocalhost:10001\n\
        f226\n\
        nlocalhost:6942\n\
        f718\n\
        nlocalhost:17434\n\
        f737\n\
        nlocalhost:63342\n\
        f761\n\
        nlocalhost:9123";

    let parsed = parse_lsof_output(sample_output);
    assert_eq!(3, parsed.len());

    let first = &parsed[0];
    assert_eq!(35985, first.pid);
    assert_eq!("Shimo-Setapp", first.name);
    assert_eq!(1, first.listen.len());
    assert_eq!("*:61600", &first.listen[0]);

    let last = &parsed[2];
    assert_eq!(47915, last.pid);
    assert_eq!("idea", last.name);
    assert_eq!(5, last.listen.len());
    assert_eq!("localhost:10001", &last.listen[0]);
    assert_eq!("localhost:9123", &last.listen[4]);
}

#[test]
fn should_parse_cwd_from_lsof() {
    let sample_output = "p47915\n\
        fcwd\n\
        n/Users/cgatay/Library/Application Support/JetBrains/Toolbox/apps/IDEA-U/ch-0/181.4445.4/IntelliJ IDEA 2018.1 EAP.app/Contents/bin\n\
        ftxt\n\
        n/Users/cgatay/Library/Application Support/JetBrains/Toolbox/apps/IDEA-U/ch-0/181.4445.4/IntelliJ IDEA 2018.1 EAP.app/Contents/MacOS/idea\n\
        ftxt\n\
        n/usr/share/icu/icudt59l.dat\n\
        ftxt\n\
        n/Users/cgatay/Library/Application Support/JetBrains/Toolbox/apps/IDEA-U/ch-0/181.4445.4/IntelliJ IDEA 2018.1 EAP.app/Contents/jdk/Contents/Home/jre/lib/jli/libjli.dylib\n";

    let maybe_cwd = read_cwd_from_lsof_output(Some(sample_output));
    assert!(maybe_cwd.is_some());
    assert_eq!(
        "/Users/cgatay/Library/Application Support/JetBrains/Toolbox/apps/IDEA-U/ch-0/181.4445.4/IntelliJ IDEA 2018.1 EAP.app/Contents/bin",
        maybe_cwd.unwrap()
    );
}

#[test]
fn should_detect_unix_home_prefix() {
    let cwds = vec![
        "/Users/cgatay/projects/foo".to_string(),
        "/Users/cgatay/projects/bar".to_string(),
        "/usr/local/bin".to_string(),
    ];
    let result = detect_home_prefix(cwds);
    assert_eq!(result, Some("/Users/cgatay".to_string()));
}

#[test]
fn parse_drops_records_without_pid_and_short_records() {
    // A record of two lines is too short; a record whose pid reads as 0 is dropped.
    let out = "p12\ncshort\np0\ncnull\nn*:1\np7\ncok\nn*:2";
    let parsed = parse_lsof_output(out);
    assert_eq!(1, parsed.len());
    assert_eq!(7, parsed[0].pid);
    assert_eq!("ok", parsed[0].name);
    assert_eq!(vec!["*:2".to_string()], parsed[0].listen);
    assert!(parsed[0].args.is_none());
    assert!(parsed[0].cwd.is_none());
}

#[test]
fn parse_of_empty_output_is_empty() {
    assert_eq!(0, parse_lsof_output("").len());
}

#[test]
fn parse_reads_pid_without_p_and_rejects_garbage() {
    // Every `p` of the first line is removed before it is read; a pid that does
    // not read as a number counts as 0 and the record is dropped.
    let out = "p1p2\ncx\nn*:1\npabc\ncy\nn*:2";
    let parsed = parse_lsof_output(out);
    assert_eq!(1, parsed.len());
    assert_eq!(12, parsed[0].pid);
}

#[test]
fn parse_keeps_first_occurrence_of_each_address_and_skips_empty_lines() {
    let out = "p5\ncsrv\nn[::1]:80\n\nnlocalhost:80\nn[::1]:80\nf3\nn*:443";
    let parsed = parse_lsof_output(out);
    assert_eq!(1, parsed.len());
    assert_eq!(
        vec!["[::1]:80".to_string(), "localhost:80".to_string(), "*:443".to_string()],
        parsed[0].listen
    );
}

#[test]
fn parse_takes_negative_and_signed_pids() {
    let out = "p-3\nca\nn*:1\np+4\ncb\nn*:2\np99999999999999999999\ncc\nn*:3";
    let parsed = parse_lsof_output(out);
    assert_eq!(2, parsed.len());
    assert_eq!(-3, parsed[0].pid);
    assert_eq!(4, parsed[1].pid);
}

#[test]
fn parsability_check() {
    assert!(lsof_output_is_parsable("p1\ncx\nn*:1"));
    assert!(!lsof_output_is_parsable("p1\n\nn*:1"));
    assert!(!lsof_output_is_parsable("p1\ncx\néa"));
    assert!(lsof_output_is_parsable("p1\ncx"));
}

#[test]
fn cwd_is_none_without_marker_or_with_empty_line() {
    assert_eq!(None, read_cwd_from_lsof_output(None));
    assert_eq!(None, read_cwd_from_lsof_output(Some("p1\nftxt\nn/usr/bin")));
    assert_eq!(None, read_cwd_from_lsof_output(Some("p1\nfcwd\n\nn/tmp")));
    assert_eq!(None, read_cwd_from_lsof_output(Some("p1\nfcwd")));
    assert_eq!(Some("/a".to_string()), read_cwd_from_lsof_output(Some("fcwdx\nn/a\nfcwd\nn/b")));
    assert!(cwd_output_is_readable("fcwd\nn/a"));
    assert!(!cwd_output_is_readable("fcwd\né/a"));
}

#[test]
fn args_are_trimmed_and_empty_ones_dropped() {
    assert_eq!(Some("node server.js".to_string()), args_from_ps_output(Some("  node server.js \n")));
    assert_eq!(None, args_from_ps_output(Some(" \n\t ")));
    assert_eq!(None, args_from_ps_output(None));
    assert_eq!(Some("x".to_string()), args_from_ps_output(Some("\u{3000}x\u{a0}")));
}

#[test]
fn all_fills_in_args_and_cwd_from_the_probe_of_each_pid() {
    let out = "p10\nca\nn*:1\np20\ncb\nn*:2";
    let probes = vec![
        ProcessProbe { pid: 20, ps_output: Some("b --flag\n".to_string()), lsof_output: Some("p20\nfcwd\nn/home/u/b".to_string()) },
        ProcessProbe { pid: 20, ps_output: Some("ignored".to_string()), lsof_output: None },
    ];
    let entries = all(out, &probes);
    assert_eq!(2, entries.len());
    assert_eq!(None, entries[0].args);
    assert_eq!(None, entries[0].cwd);
    assert_eq!(Some("b --flag".to_string()), entries[1].args);
    assert_eq!(Some("/home/u/b".to_string()), entries[1].cwd);
}

#[test]
fn home_prefix_needs_a_name_after_the_base() {
    assert_eq!(None, home_of_path(&"/Users/".to_string()));
    assert_eq!(None, home_of_path(&"/Users//x".to_string()));
    assert_eq!(Some("/home/al".to_string()), home_of_path(&"/home/al".to_string()));
    assert_eq!(Some("/home/al".to_string()), home_of_path(&"/home/al/src".to_string()));
    assert_eq!(None, home_of_path(&"/usr/home/al".to_string()));
    assert_eq!(None, home_of_path(&"/users/al".to_string()));
}

#[test]
fn home_prefix_is_the_most_frequent_one() {
    let cwds = vec![
        "/home/a/x".to_string(),
        "/home/b/y".to_string(),
        "/home/b".to_string(),
        "/tmp".to_string(),
    ];
    assert_eq!(Some("/home/b".to_string()), detect_home_prefix(cwds));
    assert_eq!(None, detect_home_prefix(vec!["/tmp".to_string(), "/".to_string()]));
    assert_eq!(None, detect_home_prefix(Vec::new()));
}

#[test]
fn most_frequent_prefers_the_first_seen_on_ties() {
    let items = vec!["b".to_string(), "a".to_string(), "a".to_string(), "b".to_string()];
    assert_eq!(Some("b".to_string()), most_frequent(items));
    assert_eq!(None, most_frequent(Vec::new()));
}
