//! The Windows side of the discovery: the output of `netstat -ano -p TCP`,
//! the process details that `wmic process ... /FORMAT:LIST` prints, and
//! home directories of the form `C:\Users\<name>`.
use vstd::prelude::*;
use crate::home::{most_frequent, most_frequent_of};
use crate::ports::PortEntry;
use crate::text::{
    append_chars, chars_of, code_point, copy_strings, decimal_digit, decimal_text, dedup, has_prefix, i64_text,
    is_decimal_digit, is_white_space, lines_of, opt_text, parse_decimal_i64, parse_i64, replace_all, replace_text,
    starts_with, string_from, string_from_range, string_views, text_lines, trim, trimmed,
    unique_strings, views, white_space,
};

verus! {

/// The address as the listing shows it: `[::1]` and `127.0.0.1` become
/// `localhost`, `[::]` and `0.0.0.0` become `*`, in that order.
pub open spec fn normalized(addr: Seq<char>) -> Seq<char> {
    let a = replace_text(addr, "[::1]"@, "localhost"@);
    let b = replace_text(a, "[::]"@, "*"@);
    let c = replace_text(b, "127.0.0.1"@, "localhost"@);
    replace_text(c, "0.0.0.0"@, "*"@)
}

/// The address as the listing shows it.
pub fn normalize_address(addr: &str) -> (r: String)
    ensures
        r@ == normalized(addr@),
{
    proof {
        reveal_strlit("[::1]");
        reveal_strlit("[::]");
        reveal_strlit("127.0.0.1");
        reveal_strlit("0.0.0.0");
    }
    let localhost = chars_of("localhost");
    let star = chars_of("*");
    let a = replace_all(&chars_of(addr), &chars_of("[::1]"), &localhost);
    let b = replace_all(&a, &chars_of("[::]"), &star);
    let c = replace_all(&b, &chars_of("127.0.0.1"), &localhost);
    let d = replace_all(&c, &chars_of("0.0.0.0"), &star);
    string_from(&d)
}

/// `c` matches the ASCII lowercase letter `lower` under the simple case
/// folding of Unicode: the letter, its capital, and for `s` and `k` also
/// `ſ` (U+017F) and the Kelvin sign (U+212A).
pub open spec fn folds_to(c: char, lower: char) -> bool {
    ||| c == lower
    ||| (c as int) + 32 == (lower as int)
    ||| lower == 's' && (c as int) == 0x17F
    ||| lower == 'k' && (c as int) == 0x212A
}

/// `tok` spells `word` (ASCII lowercase letters) in any case.
pub open spec fn same_word(tok: Seq<char>, word: Seq<char>) -> bool {
    &&& tok.len() == word.len()
    &&& forall|i: int| 0 <= i < tok.len() ==> folds_to(#[trigger] tok[i], word[i])
}

fn folds(c: char, lower: char) -> (b: bool)
    ensures
        b == folds_to(c, lower),
{
    let u = c as u32;
    let l = lower as u32;
    c == lower || u + 32 == l || (lower == 's' && u == 0x17F) || (lower == 'k' && u == 0x212A)
}

fn same_word_at(s: &Vec<char>, from: usize, to: usize, word: &Vec<char>) -> (b: bool)
    requires
        from <= to <= s.len(),
    ensures
        b == same_word(s@.subrange(from as int, to as int), word@),
{
    if to - from != word.len() {
        return false;
    }
    let mut k: usize = 0;
    while k < word.len()
        invariant
            from <= to <= s.len(),
            to - from == word.len(),
            k <= word.len(),
            forall|j: int| 0 <= j < k ==> folds_to(s@[from + j], word@[j]),
        decreases word.len() - k,
    {
        if !folds(s[from + k], word[k]) {
            assert(s@.subrange(from as int, to as int)[k as int] == s@[from + k]);
            return false;
        }
        k = k + 1;
    }
    assert forall|j: int| 0 <= j < word@.len() implies folds_to(
        #[trigger] s@.subrange(from as int, to as int)[j],
        word@[j],
    ) by {
        assert(s@.subrange(from as int, to as int)[j] == s@[from + j]);
    }
    true
}

/// How many characters other than `sep` follow one another in `s` from `k` on.
pub open spec fn run_without(s: Seq<char>, k: int, sep: char) -> nat
    decreases s.len() - k,
{
    if 0 <= k < s.len() && s[k] != sep {
        1 + run_without(s, k + 1, sep)
    } else {
        0
    }
}

/// A drive letter, matched without regard to case under Unicode simple case
/// folding: the ASCII letters, `ſ` (which folds to `s`) and the Kelvin sign
/// (which folds to `k`).
pub open spec fn is_drive_letter(c: char) -> bool {
    ||| 'a' <= c && c <= 'z'
    ||| 'A' <= c && c <= 'Z'
    ||| (c as int) == 0x17F
    ||| (c as int) == 0x212A
}

/// The home directory that a Windows path lies in: a drive letter, `:\`,
/// `Users` in any case, `\` and at least one character other than `\`,
/// taken as far as the next `\`, at the very start of the path.
pub open spec fn windows_home_of(p: Seq<char>) -> Option<Seq<char>> {
    if p.len() >= 9 && is_drive_letter(p[0]) && p[1] == ':' && p[2] == '\\' && same_word(
        p.subrange(3, 8),
        "users"@,
    ) && p[8] == '\\' && run_without(p, 9, '\\') > 0 {
        Some(p.take(9int + run_without(p, 9, '\\')))
    } else {
        None
    }
}

/// The home directories of the paths that lie in one, in their order.
pub open spec fn windows_homes_of(cwds: Seq<Seq<char>>) -> Seq<Seq<char>>
    decreases cwds.len(),
{
    if cwds.len() == 0 {
        Seq::empty()
    } else {
        match windows_home_of(cwds.last()) {
            Some(h) => windows_homes_of(cwds.drop_last()).push(h),
            None => windows_homes_of(cwds.drop_last()),
        }
    }
}

/// The Windows home directory that `detect_home_prefix` settles on.
pub open spec fn windows_home_prefix(cwds: Seq<Seq<char>>) -> Option<Seq<char>> {
    most_frequent_of(windows_homes_of(cwds))
}

/// The home directory of one Windows path, if it lies in one.
pub fn windows_home_of_path(cwd: &String) -> (r: Option<String>)
    ensures
        opt_text(r) == windows_home_of(cwd@),
{
    proof {
        reveal_strlit("users");
    }
    let cs = chars_of(cwd.as_str());
    if cs.len() < 9 {
        return None;
    }
    let d = cs[0];
    let u = code_point(d);
    let letter = ('a' <= d && d <= 'z') || ('A' <= d && d <= 'Z') || u == 0x17F || u == 0x212A;
    assert(letter == is_drive_letter(cs@[0]));
    let users = chars_of("users");
    assert(users@ == "users"@);
    if !letter || cs[1] != ':' || cs[2] != '\\' || !same_word_at(&cs, 3, 8, &users)
        || cs[8] != '\\' {
        assert(windows_home_of(cwd@) is None);
        return None;
    }
    let mut j: usize = 9;
    while j < cs.len() && cs[j] != '\\'
        invariant
            9 <= j <= cs.len(),
            cs@ == cwd@,
            run_without(cs@, 9, '\\') == (j - 9) + run_without(cs@, j as int, '\\'),
        decreases cs.len() - j,
    {
        j = j + 1;
    }
    if j == 9 {
        assert(windows_home_of(cwd@) is None);
        return None;
    }
    assert(run_without(cs@, 9, '\\') == j - 9);
    assert(cs@.subrange(0, j as int) =~= cs@.take(j as int));
    Some(string_from_range(&cs, 0, j))
}

/// The Windows home directory that most of the given working directories
/// lie in, the first seen among equally frequent ones.
pub fn detect_home_prefix(cwds: Vec<String>) -> (r: Option<String>)
    ensures
        opt_text(r) == windows_home_prefix(string_views(cwds@)),
{
    let ghost sv = string_views(cwds@);
    let mut homes: Vec<String> = Vec::new();
    let mut i: usize = 0;
    while i < cwds.len()
        invariant
            i <= cwds.len(),
            sv == string_views(cwds@),
            string_views(homes@) == windows_homes_of(sv.take(i as int)),
        decreases cwds.len() - i,
    {
        assert(sv.take(i + 1).drop_last() =~= sv.take(i as int));
        assert(sv.take(i + 1).last() == cwds@[i as int]@);
        let ghost before = string_views(homes@);
        match windows_home_of_path(&cwds[i]) {
            Some(h) => {
                homes.push(h);
                assert(string_views(homes@) =~= before.push(windows_home_of(cwds@[i as int]@)->0));
            },
            None => {},
        }
        i = i + 1;
    }
    assert(sv.take(i as int) =~= sv);
    most_frequent(homes)
}

/// The first position at or after `i` that is not white space.
pub open spec fn skip_ws(l: Seq<char>, i: int) -> int
    decreases l.len() - i,
{
    if 0 <= i < l.len() && is_white_space(l[i]) {
        skip_ws(l, i + 1)
    } else {
        i
    }
}

/// The first position at or after `i` that is white space, or the end.
pub open spec fn token_end(l: Seq<char>, i: int) -> int
    decreases l.len() - i,
{
    if 0 <= i < l.len() && !is_white_space(l[i]) {
        token_end(l, i + 1)
    } else {
        i
    }
}

/// The first position at or after `i` that is not a decimal digit of any
/// script.
pub open spec fn digits_end(l: Seq<char>, i: int) -> int
    decreases l.len() - i,
{
    if 0 <= i < l.len() && is_decimal_digit(l[i]) {
        digits_end(l, i + 1)
    } else {
        i
    }
}

/// A listening socket in a line of `netstat -ano`: after optional white
/// space, the words `TCP`, the local address, the foreign address,
/// `LISTENING` (both in any case) and the process id, separated by white
/// space; the process id is the run of decimal digits (of any script) that
/// begins the last word. That run must read as a number other than 0, so a
/// run with a digit outside ASCII leaves the line out.
pub open spec fn netstat_listener(l: Seq<char>) -> Option<(i64, Seq<char>)> {
    let a = skip_ws(l, 0);
    let b = token_end(l, a);
    let c = skip_ws(l, b);
    let d = token_end(l, c);
    let e = skip_ws(l, d);
    let f = token_end(l, e);
    let g = skip_ws(l, f);
    let h = token_end(l, g);
    let i = skip_ws(l, h);
    let j = digits_end(l, i);
    if same_word(l.subrange(a, b), "tcp"@) && b < l.len() && c < d && d < l.len() && e < f && f
        < l.len() && same_word(l.subrange(g, h), "listening"@) && h < l.len() && i < j {
        let pid = match parse_i64(l.subrange(i, j)) {
            Some(v) => v,
            None => 0,
        };
        if pid != 0 {
            Some((pid, l.subrange(c, d)))
        } else {
            None
        }
    } else {
        None
    }
}

fn skip_ws_exec(l: &Vec<char>, i: usize) -> (r: usize)
    requires
        i <= l.len(),
    ensures
        r == skip_ws(l@, i as int),
        i <= r <= l.len(),
{
    let mut k = i;
    while k < l.len() && white_space(l[k])
        invariant
            i <= k <= l.len(),
            skip_ws(l@, i as int) == skip_ws(l@, k as int),
        decreases l.len() - k,
    {
        k = k + 1;
    }
    k
}

fn token_end_exec(l: &Vec<char>, i: usize) -> (r: usize)
    requires
        i <= l.len(),
    ensures
        r == token_end(l@, i as int),
        i <= r <= l.len(),
{
    let mut k = i;
    while k < l.len() && !white_space(l[k])
        invariant
            i <= k <= l.len(),
            token_end(l@, i as int) == token_end(l@, k as int),
        decreases l.len() - k,
    {
        k = k + 1;
    }
    k
}

fn digits_end_exec(l: &Vec<char>, i: usize) -> (r: usize)
    requires
        i <= l.len(),
    ensures
        r == digits_end(l@, i as int),
        i <= r <= l.len(),
{
    let mut k = i;
    while k < l.len() && decimal_digit(l[k])
        invariant
            i <= k <= l.len(),
            digits_end(l@, i as int) == digits_end(l@, k as int),
        decreases l.len() - k,
    {
        k = k + 1;
    }
    k
}

fn netstat_listener_exec(l: &Vec<char>) -> (r: Option<(i64, Vec<char>)>)
    ensures
        match r {
            Some((pid, addr)) => netstat_listener(l@) == Some((pid, addr@)),
            None => netstat_listener(l@) is None,
        },
{
    proof {
        reveal_strlit("tcp");
        reveal_strlit("listening");
    }
    let a = skip_ws_exec(l, 0);
    let b = token_end_exec(l, a);
    let c = skip_ws_exec(l, b);
    let d = token_end_exec(l, c);
    let e = skip_ws_exec(l, d);
    let f = token_end_exec(l, e);
    let g = skip_ws_exec(l, f);
    let h = token_end_exec(l, g);
    let i = skip_ws_exec(l, h);
    let j = digits_end_exec(l, i);
    if same_word_at(l, a, b, &chars_of("tcp")) && b < l.len() && c < d && d < l.len() && e < f
        && f < l.len() && same_word_at(l, g, h, &chars_of("listening")) && h < l.len() && i < j {
        let digits = copy_range(l, i, j);
        let pid = match parse_decimal_i64(&digits) {
            Some(v) => v,
            None => 0,
        };
        if pid != 0 {
            Some((pid, copy_range(l, c, d)))
        } else {
            None
        }
    } else {
        None
    }
}

fn copy_range(v: &Vec<char>, from: usize, to: usize) -> (r: Vec<char>)
    requires
        from <= to <= v.len(),
    ensures
        r@ == v@.subrange(from as int, to as int),
{
    let mut r: Vec<char> = Vec::new();
    let mut i: usize = from;
    while i < to
        invariant
            from <= i <= to <= v.len(),
            r@ == v@.subrange(from as int, i as int),
        decreases to - i,
    {
        r.push(v[i]);
        i = i + 1;
        assert(r@ =~= v@.subrange(from as int, i as int));
    }
    r
}

/// The index of the group of `pid`, looking from `from` on.
pub open spec fn group_index(gs: Seq<(i64, Seq<Seq<char>>)>, pid: i64, from: int) -> Option<int>
    decreases gs.len() - from,
{
    if from < 0 || from >= gs.len() {
        None
    } else if gs[from].0 == pid {
        Some(from)
    } else {
        group_index(gs, pid, from + 1)
    }
}

/// The groups with `addr` added to the addresses of `pid`, which gets a
/// group of its own at the end if it has none yet.
pub open spec fn add_listener(gs: Seq<(i64, Seq<Seq<char>>)>, pid: i64, addr: Seq<char>) -> Seq<
    (i64, Seq<Seq<char>>),
> {
    match group_index(gs, pid, 0) {
        Some(k) => gs.update(k, (pid, gs[k].1.push(addr))),
        None => gs.push((pid, seq![addr])),
    }
}

/// The groups of process ids and addresses that the lines give.
pub open spec fn listener_groups(lines: Seq<Seq<char>>) -> Seq<(i64, Seq<Seq<char>>)>
    decreases lines.len(),
{
    if lines.len() == 0 {
        Seq::empty()
    } else {
        let gs = listener_groups(lines.drop_last());
        match netstat_listener(lines.last()) {
            Some((pid, raw)) => add_listener(gs, pid, normalized(raw)),
            None => gs,
        }
    }
}

/// The processes that `netstat -ano` shows listening, each with the
/// addresses (normalized) it listens on, in the order the process ids first
/// appear.
pub open spec fn netstat_groups(s: Seq<char>) -> Seq<(i64, Seq<Seq<char>>)> {
    listener_groups(text_lines(s))
}

/// A process id and its addresses.
#[derive(Debug)]
pub struct Listener {
    pub pid: i64,
    pub addresses: Vec<String>,
}

/// The views of a list of listeners.
pub open spec fn listener_views(v: Seq<Listener>) -> Seq<(i64, Seq<Seq<char>>)> {
    Seq::new(v.len(), |i: int| (v[i].pid, string_views(v[i].addresses@)))
}

fn group_index_exec(gs: &Vec<Listener>, pid: i64) -> (r: Option<usize>)
    ensures
        match r {
            Some(k) => k < gs.len() && group_index(listener_views(gs@), pid, 0) == Some(k as int),
            None => group_index(listener_views(gs@), pid, 0) is None,
        },
{
    let ghost gv = listener_views(gs@);
    let mut k: usize = 0;
    while k < gs.len()
        invariant
            k <= gs.len(),
            gv == listener_views(gs@),
            group_index(gv, pid, 0) == group_index(gv, pid, k as int),
        decreases gs.len() - k,
    {
        if gs[k].pid == pid {
            return Some(k);
        }
        k = k + 1;
    }
    None
}

/// The listening processes in the output of `netstat -ano -p TCP`, each with
/// the normalized addresses of its lines, in the order the process ids first
/// appear; lines that are not listening TCP sockets, or whose process id
/// reads as 0 or not at all, are left out.
pub fn parse_netstat_output(output: &str) -> (r: Vec<Listener>)
    ensures
        listener_views(r@) == netstat_groups(output@),
{
    let lines = lines_of(output);
    let ghost lv = views(lines@);
    let mut gs: Vec<Listener> = Vec::new();
    let mut i: usize = 0;
    while i < lines.len()
        invariant
            i <= lines.len(),
            lv == views(lines@),
            lv == text_lines(output@),
            listener_views(gs@) == listener_groups(lv.take(i as int)),
        decreases lines.len() - i,
    {
        assert(lv.take(i + 1).drop_last() =~= lv.take(i as int));
        assert(lv.take(i + 1).last() == lines@[i as int]@);
        let ghost before = listener_views(gs@);
        match netstat_listener_exec(&lines[i]) {
            Some((pid, raw)) => {
                let addr = normalize_address(string_from(&raw).as_str());
                match group_index_exec(&gs, pid) {
                    Some(k) => {
                        let mut addrs = copy_strings(&gs[k].addresses);
                        let ghost old_addrs = string_views(addrs@);
                        addrs.push(addr);
                        assert(string_views(addrs@) =~= old_addrs.push(normalized(raw@)));
                        gs.set(k, Listener { pid, addresses: addrs });
                        assert(listener_views(gs@) =~= add_listener(before, pid, normalized(raw@)));
                    },
                    None => {
                        let mut addrs: Vec<String> = Vec::new();
                        addrs.push(addr);
                        assert(string_views(addrs@) =~= seq![normalized(raw@)]);
                        gs.push(Listener { pid, addresses: addrs });
                        assert(listener_views(gs@) =~= add_listener(before, pid, normalized(raw@)));
                    },
                }
            },
            None => {},
        }
        i = i + 1;
    }
    assert(lv.take(i as int) =~= lv);
    gs
}

/// The value of a `key=value` line of `wmic /FORMAT:LIST` output, the line
/// taken without white space at either end.
pub open spec fn field_value(line: Seq<char>, key: Seq<char>) -> Option<Seq<char>> {
    let t = trim(line);
    if starts_with(t, key) {
        Some(t.subrange(key.len() as int, t.len() as int))
    } else {
        None
    }
}

/// The last non-empty value of `key` among the lines.
pub open spec fn last_value(lines: Seq<Seq<char>>, key: Seq<char>) -> Option<Seq<char>>
    decreases lines.len(),
{
    if lines.len() == 0 {
        None
    } else {
        match field_value(lines.last(), key) {
            Some(v) => if v.len() > 0 {
                Some(v)
            } else {
                last_value(lines.drop_last(), key)
            },
            None => last_value(lines.drop_last(), key),
        }
    }
}

/// The non-empty values of `key` among the lines, in their order.
pub open spec fn all_values(lines: Seq<Seq<char>>, key: Seq<char>) -> Seq<Seq<char>>
    decreases lines.len(),
{
    if lines.len() == 0 {
        Seq::empty()
    } else {
        match field_value(lines.last(), key) {
            Some(v) => if v.len() > 0 {
                all_values(lines.drop_last(), key).push(v)
            } else {
                all_values(lines.drop_last(), key)
            },
            None => all_values(lines.drop_last(), key),
        }
    }
}

/// The name of a process: the last non-empty `Name=` value, or `PID <pid>`.
pub open spec fn wmic_name(pid: i64, out: Option<Seq<char>>) -> Seq<char> {
    match out {
        Some(o) => match last_value(text_lines(o), "Name="@) {
            Some(n) => n,
            None => "PID "@ + i64_text(pid as int),
        },
        None => "PID "@ + i64_text(pid as int),
    }
}

/// The command line of a process: the last non-empty `CommandLine=` value.
pub open spec fn wmic_args(out: Option<Seq<char>>) -> Option<Seq<char>> {
    match out {
        Some(o) => last_value(text_lines(o), "CommandLine="@),
        None => None,
    }
}

/// The non-empty `ExecutablePath=` values, in their order.
pub open spec fn executable_paths(out: Option<Seq<char>>) -> Seq<Seq<char>> {
    match out {
        Some(o) => all_values(text_lines(o), "ExecutablePath="@),
        None => Seq::empty(),
    }
}

/// The last of the values that are there.
pub open spec fn last_some(ps: Seq<Option<Seq<char>>>) -> Option<Seq<char>>
    decreases ps.len(),
{
    if ps.len() == 0 {
        None
    } else {
        match ps.last() {
            Some(p) => Some(p),
            None => last_some(ps.drop_last()),
        }
    }
}

/// The texts that a list of optional strings holds.
pub open spec fn opt_views(v: Seq<Option<String>>) -> Seq<Option<Seq<char>>> {
    Seq::new(v.len(), |i: int| opt_text(v[i]))
}

/// The name, command line and directory of a process.
#[derive(Debug)]
pub struct ProcessInfo {
    pub name: String,
    pub args: Option<String>,
    pub cwd: Option<String>,
}

fn field_value_exec(line: &Vec<char>, key: &Vec<char>) -> (r: Option<Vec<char>>)
    ensures
        match r {
            Some(v) => field_value(line@, key@) == Some(v@),
            None => field_value(line@, key@) is None,
        },
{
    let t = trimmed(line);
    if has_prefix(&t, key) {
        let n = t.len();
        Some(copy_range(&t, key.len(), n))
    } else {
        None
    }
}

fn last_value_exec(lines: &Vec<Vec<char>>, key: &Vec<char>) -> (r: Option<String>)
    ensures
        opt_text(r) == last_value(views(lines@), key@),
{
    let ghost lv = views(lines@);
    let mut cur: Option<String> = None;
    let mut i: usize = 0;
    while i < lines.len()
        invariant
            i <= lines.len(),
            lv == views(lines@),
            opt_text(cur) == last_value(lv.take(i as int), key@),
        decreases lines.len() - i,
    {
        assert(lv.take(i + 1).drop_last() =~= lv.take(i as int));
        assert(lv.take(i + 1).last() == lines@[i as int]@);
        match field_value_exec(&lines[i], key) {
            Some(v) => {
                if v.len() > 0 {
                    cur = Some(string_from(&v));
                }
            },
            None => {},
        }
        i = i + 1;
    }
    assert(lv.take(i as int) =~= lv);
    cur
}

fn all_values_exec(lines: &Vec<Vec<char>>, key: &Vec<char>) -> (r: Vec<String>)
    ensures
        string_views(r@) == all_values(views(lines@), key@),
{
    let ghost lv = views(lines@);
    let mut out: Vec<String> = Vec::new();
    let mut i: usize = 0;
    while i < lines.len()
        invariant
            i <= lines.len(),
            lv == views(lines@),
            string_views(out@) == all_values(lv.take(i as int), key@),
        decreases lines.len() - i,
    {
        assert(lv.take(i + 1).drop_last() =~= lv.take(i as int));
        assert(lv.take(i + 1).last() == lines@[i as int]@);
        let ghost before = string_views(out@);
        match field_value_exec(&lines[i], key) {
            Some(v) => {
                if v.len() > 0 {
                    out.push(string_from(&v));
                    assert(string_views(out@) =~= before.push(v@));
                }
            },
            None => {},
        }
        i = i + 1;
    }
    assert(lv.take(i as int) =~= lv);
    out
}

/// The non-empty `ExecutablePath=` values of `wmic` output, in their order.
pub fn executable_paths_of(wmic_output: Option<&str>) -> (r: Vec<String>)
    ensures
        string_views(r@) == executable_paths(
            match wmic_output {
                Some(o) => Some(o@),
                None => None,
            },
        ),
{
    match wmic_output {
        Some(o) => all_values_exec(&lines_of(o), &chars_of("ExecutablePath=")),
        None => Vec::new(),
    }
}

/// The details of a process from `wmic` output, given the parent directory
/// of each of its executable paths: the name (or `PID <pid>`), the command
/// line, and the last of the parent directories that there is.
pub fn process_info(pid: i64, wmic_output: Option<&str>, parents: &Vec<Option<String>>) -> (r:
    ProcessInfo)
    ensures
        ({
            let out = match wmic_output {
                Some(o) => Some(o@),
                None => None,
            };
            &&& r.name@ == wmic_name(pid, out)
            &&& opt_text(r.args) == wmic_args(out)
            &&& opt_text(r.cwd) == last_some(opt_views(parents@))
        }),
{
    let (found_name, args) = match wmic_output {
        Some(o) => {
            let lines = lines_of(o);
            (
                last_value_exec(&lines, &chars_of("Name=")),
                last_value_exec(&lines, &chars_of("CommandLine=")),
            )
        },
        None => (None, None),
    };
    let name = match found_name {
        Some(n) => n,
        None => {
            let mut msg = chars_of("PID ");
            append_chars(&mut msg, &decimal_text(pid));
            string_from(&msg)
        },
    };
    let ghost pv = opt_views(parents@);
    let mut cwd: Option<String> = None;
    let mut i: usize = 0;
    while i < parents.len()
        invariant
            i <= parents.len(),
            pv == opt_views(parents@),
            opt_text(cwd) == last_some(pv.take(i as int)),
        decreases parents.len() - i,
    {
        assert(pv.take(i + 1).drop_last() =~= pv.take(i as int));
        assert(pv.take(i + 1).last() == opt_text(parents@[i as int]));
        match &parents[i] {
            Some(p) => {
                cwd = Some(p.clone());
            },
            None => {},
        }
        i = i + 1;
    }
    assert(pv.take(i as int) =~= pv);
    ProcessInfo { name, args, cwd }
}

/// `p` is a strict beginning of `s`: what is left of `s` once something is
/// cut from its end.
pub open spec fn proper_prefix(p: Seq<char>, s: Seq<char>) -> bool {
    p.len() < s.len() && s.take(p.len() as int) == p
}

/// Calls `Path::parent` on the path. Its documentation gives the parent as
/// the path without its final component, so a parent that is there is a
/// strict beginning of the path; that is all that is claimed. Which prefix
/// it is, and when there is none, depends on the platform's path rules
/// (`\\` and drive prefixes on Windows) and is left unsaid.
#[verifier::external_body]
fn path_parent(path: &str) -> (r: Option<String>)
    ensures
        opt_text(r) matches Some(p) ==> proper_prefix(p, path@),
{
    match std::path::Path::new(path).parent() {
        Some(p) => Some(p.to_string_lossy().to_string()),
        None => None,
    }
}

/// The details of a process from `wmic` output, the working directory taken
/// as the directory of its executable; there is no directory where the
/// output names no executable.
pub fn process_info_from_wmic(pid: i64, wmic_output: Option<&str>) -> (r: ProcessInfo)
    ensures
        ({
            let out = match wmic_output {
                Some(o) => Some(o@),
                None => None,
            };
            &&& r.name@ == wmic_name(pid, out)
            &&& opt_text(r.args) == wmic_args(out)
            &&& executable_paths(out).len() == 0 ==> r.cwd is None
        }),
        r.cwd is Some ==> exists|k: int|
            0 <= k < executable_paths(wmic_text(wmic_output)).len() && proper_prefix(
                r.cwd->0@,
                #[trigger] executable_paths(wmic_text(wmic_output))[k],
            ),
{
    let paths = executable_paths_of(wmic_output);
    let ghost pv = string_views(paths@);
    let mut parents: Vec<Option<String>> = Vec::new();
    let mut i: usize = 0;
    while i < paths.len()
        invariant
            i <= paths.len(),
            parents.len() == i,
            pv == string_views(paths@),
            forall|k: int|
                0 <= k < i && (#[trigger] parents@[k]) is Some ==> proper_prefix(
                    parents@[k]->0@,
                    pv[k],
                ),
        decreases paths.len() - i,
    {
        parents.push(path_parent(paths[i].as_str()));
        i = i + 1;
    }
    let r = process_info(pid, wmic_output, &parents);
    proof {
        if paths.len() == 0 {
            assert(opt_views(parents@) =~= Seq::<Option<Seq<char>>>::empty());
        }
        let out = wmic_text(wmic_output);
        assert(pv == executable_paths(out));
        lemma_last_some_occurs(opt_views(parents@));
        if r.cwd is Some {
            let c = r.cwd->0@;
            let k = choose|k: int|
                0 <= k < opt_views(parents@).len() && opt_views(parents@)[k] == last_some(
                    opt_views(parents@),
                );
            assert(opt_views(parents@)[k] == opt_text(parents@[k]));
            assert(parents@[k] is Some);
            assert(proper_prefix(c, executable_paths(out)[k]));
        }
    }
    r
}

/// The text that an optional string slice holds.
pub open spec fn wmic_text(o: Option<&str>) -> Option<Seq<char>> {
    match o {
        Some(t) => Some(t@),
        None => None,
    }
}

/// The value that `last_some` gives is one of the values of the sequence.
proof fn lemma_last_some_occurs(ps: Seq<Option<Seq<char>>>)
    ensures
        last_some(ps) is Some ==> exists|k: int| 0 <= k < ps.len() && ps[k] == last_some(ps),
    decreases ps.len(),
{
    if ps.len() > 0 {
        if ps.last() is None {
            lemma_last_some_occurs(ps.drop_last());
            if last_some(ps.drop_last()) is Some {
                let k = choose|k: int|
                    0 <= k < ps.drop_last().len() && ps.drop_last()[k] == last_some(ps.drop_last());
                assert(ps[k] == last_some(ps));
            }
        } else {
            assert(ps[ps.len() - 1] == ps.last());
        }
    }
}

/// What `wmic` printed about one process; `None` where it could not be run.
#[derive(Debug)]
pub struct WindowsProbe {
    pub pid: i64,
    pub wmic_output: Option<String>,
}

/// The `wmic` output of the first probe from position `i` on that was made for `pid`.
pub open spec fn windows_probe_from(probes: Seq<WindowsProbe>, pid: i64, i: int) -> Option<Seq<char>>
    decreases probes.len() - i,
{
    if i < 0 || i >= probes.len() {
        None
    } else if probes[i].pid == pid {
        opt_text(probes[i].wmic_output)
    } else {
        windows_probe_from(probes, pid, i + 1)
    }
}

fn find_windows_probe(probes: &Vec<WindowsProbe>, pid: i64) -> (r: Option<&str>)
    ensures
        match r {
            Some(o) => windows_probe_from(probes@, pid, 0) == Some(o@),
            None => windows_probe_from(probes@, pid, 0) is None,
        },
{
    let mut i: usize = 0;
    while i < probes.len()
        invariant
            i <= probes.len(),
            windows_probe_from(probes@, pid, 0) == windows_probe_from(probes@, pid, i as int),
        decreases probes.len() - i,
    {
        if probes[i].pid == pid {
            return match &probes[i].wmic_output {
                Some(o) => Some(o.as_str()),
                None => None,
            };
        }
        i = i + 1;
    }
    None
}

/// The processes that `netstat -ano -p TCP` shows listening, in the order
/// their process ids first appear, each with its distinct addresses and the
/// details that the first probe made for it gives (`PID <pid>` and nothing
/// more where there is none).
pub fn all(netstat_output: &str, probes: &Vec<WindowsProbe>) -> (r: Vec<PortEntry>)
    ensures
        r.len() == netstat_groups(netstat_output@).len(),
        forall|i: int|
            0 <= i < r.len() ==> {
                let g = #[trigger] netstat_groups(netstat_output@)[i];
                let out = windows_probe_from(probes@, g.0, 0);
                &&& r@[i]@.pid == g.0
                &&& r@[i]@.listen == dedup(g.1)
                &&& r@[i]@.name == wmic_name(g.0, out)
                &&& r@[i]@.args == wmic_args(out)
                &&& executable_paths(out).len() == 0 ==> r@[i]@.cwd is None
                &&& r@[i]@.cwd is Some ==> exists|k: int|
                    0 <= k < executable_paths(out).len() && proper_prefix(
                        r@[i]@.cwd->0,
                        #[trigger] executable_paths(out)[k],
                    )
            },
{
    let groups = parse_netstat_output(netstat_output);
    let ghost gv = netstat_groups(netstat_output@);
    let mut out: Vec<PortEntry> = Vec::new();
    let mut k: usize = 0;
    while k < groups.len()
        invariant
            k <= groups.len(),
            gv == listener_views(groups@),
            out.len() == k,
            forall|i: int|
                0 <= i < k ==> {
                    let g = #[trigger] gv[i];
                    let o = windows_probe_from(probes@, g.0, 0);
                    &&& out@[i]@.pid == g.0
                    &&& out@[i]@.listen == dedup(g.1)
                    &&& out@[i]@.name == wmic_name(g.0, o)
                    &&& out@[i]@.args == wmic_args(o)
                    &&& executable_paths(o).len() == 0 ==> out@[i]@.cwd is None
                    &&& out@[i]@.cwd is Some ==> exists|k: int|
                        0 <= k < executable_paths(o).len() && proper_prefix(
                            out@[i]@.cwd->0,
                            #[trigger] executable_paths(o)[k],
                        )
                },
        decreases groups.len() - k,
    {
        let g = &groups[k];
        let probe = find_windows_probe(probes, g.pid);
        let info = process_info_from_wmic(g.pid, probe);
        let entry = PortEntry {
            pid: g.pid,
            name: info.name,
            args: info.args,
            listen: unique_strings(&g.addresses),
            cwd: info.cwd,
        };
        out.push(entry);
        k = k + 1;
    }
    out
}

proof fn lemma_group_index(gs: Seq<(i64, Seq<Seq<char>>)>, pid: i64, from: int)
    requires
        0 <= from,
    ensures
        match group_index(gs, pid, from) {
            Some(k) => from <= k < gs.len() && gs[k].0 == pid,
            None => forall|j: int| from <= j < gs.len() ==> gs[j].0 != pid,
        },
    decreases gs.len() - from,
{
    if from < gs.len() && gs[from].0 != pid {
        lemma_group_index(gs, pid, from + 1);
    }
}

/// The groups of a listing: one per process id, none of them without an
/// address, no process id 0.
pub open spec fn groups_wellformed(gs: Seq<(i64, Seq<Seq<char>>)>) -> bool {
    &&& forall|i: int, j: int| 0 <= i < j < gs.len() ==> gs[i].0 != gs[j].0
    &&& forall|i: int| 0 <= i < gs.len() ==> #[trigger] gs[i].1.len() > 0 && gs[i].0 != 0
}

proof fn lemma_listener_groups(lines: Seq<Seq<char>>)
    ensures
        groups_wellformed(listener_groups(lines)),
    decreases lines.len(),
{
    if lines.len() > 0 {
        let gs = listener_groups(lines.drop_last());
        lemma_listener_groups(lines.drop_last());
        if let Some((pid, raw)) = netstat_listener(lines.last()) {
            lemma_group_index(gs, pid, 0);
            let r = listener_groups(lines);
            assert(r == add_listener(gs, pid, normalized(raw)));
            assert forall|i: int| 0 <= i < r.len() implies #[trigger] r[i].1.len() > 0 && r[i].0 != 0 by {
                if i < gs.len() {
                    assert(gs[i].1.len() > 0);
                }
            }
        }
    }
}

/// `netstat` output gives each listening process once, with at least one
/// address, and never process id 0.
pub proof fn lemma_netstat_groups_wellformed(s: Seq<char>)
    ensures
        groups_wellformed(netstat_groups(s)),
{
    lemma_listener_groups(text_lines(s));
}

} // verus!
