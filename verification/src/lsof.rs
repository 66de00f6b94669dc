//! The field output of `lsof -iTCP -sTCP:LISTEN -P -Fcn` and `lsof -p <pid> -Ffn`:
//! one line per field, the first character naming the field (`p` process id,
//! `c` command, `f` file descriptor, `n` name).
use vstd::prelude::*;
use crate::ports::{opt_entry, EntryView, PortEntry};
use crate::text::{
    after_first, all_digits, ascii_char, chars_of, copy_chars, dedup, has_prefix, i64_text,
    is_ascii_char, is_ascii_digit, lemma_dedup, lemma_i64_text_chars, lemma_parse_i64_text,
    lemma_replace_char_absent, lemma_replace_char_concat, lemma_split_char_concat,
    lemma_split_char_single, opt_text, parse_decimal_i64, parse_i64, replace_char,
    replace_chars, split_char, split_on, starts_with, string_from_range, string_views,
    unique_strings, views,
};

verus! {

/// The pieces of the output between the occurrences of `"\np"`, as
/// `str::split("\np")` yields them: one piece per process record.
pub open spec fn split_records(s: Seq<char>) -> Seq<Seq<char>>
    decreases s.len(),
{
    if s.len() == 0 {
        seq![Seq::<char>::empty()]
    } else if s.len() >= 2 && s[s.len() - 2] == '\n' && s.last() == 'p' {
        split_records(s.take(s.len() - 2)).push(Seq::<char>::empty())
    } else {
        let r = split_records(s.drop_last());
        r.update(r.len() - 1, r.last().push(s.last()))
    }
}

/// There is always at least one record.
pub proof fn lemma_split_records_nonempty(s: Seq<char>)
    ensures
        split_records(s).len() >= 1,
    decreases s.len(),
{
    if s.len() >= 2 && s[s.len() - 2] == '\n' && s.last() == 'p' {
        lemma_split_records_nonempty(s.take(s.len() - 2));
    } else if s.len() > 0 {
        lemma_split_records_nonempty(s.drop_last());
    }
}

/// A text in which no newline is followed by `p` is one record.
pub proof fn lemma_split_records_single(s: Seq<char>)
    requires
        forall|k: int| 0 <= k < s.len() - 1 ==> !(#[trigger] s[k] == '\n' && s[k + 1] == 'p'),
    ensures
        split_records(s) == seq![s],
    decreases s.len(),
{
    if s.len() == 0 {
        assert(s =~= Seq::<char>::empty());
    } else {
        let p = s.drop_last();
        assert forall|k: int| 0 <= k < p.len() - 1 implies !(#[trigger] p[k] == '\n' && p[k + 1]
            == 'p') by {
            assert(p[k] == s[k] && p[k + 1] == s[k + 1]);
        }
        lemma_split_records_single(p);
        if s.len() >= 2 {
            assert(!(s[s.len() - 2] == '\n' && s[s.len() - 1] == 'p'));
        }
        assert(p.push(s.last()) =~= s);
        let r = split_records(p);
        assert(r.len() == 1 && r.last() == p);
        assert(r.update(0, p.push(s.last())) =~= seq![s]);
    }
}

/// A process id other than 0, a command and one listening address, written
/// as `lsof -Fcn` writes them (`p<pid>`, `c<command>`, `n<address>`, one
/// per line), make a listing that the parser takes apart into exactly one
/// entry: that process id, that command, that one address. Every `i64`
/// other than 0 is kept as it is, however large.
pub proof fn lemma_one_record_one_entry(n: i64, c: Seq<char>, a: Seq<char>)
    requires
        n != 0,
        forall|k: int| 0 <= k < c.len() ==> #[trigger] c[k] != '\n',
        forall|k: int| 0 <= k < a.len() ==> #[trigger] a[k] != '\n',
    ensures
        ({
            let t = seq!['p'] + i64_text(n as int) + seq!['\n', 'c'] + c + seq!['\n', 'n'] + a;
            &&& lsof_output_parsable(t)
            &&& lsof_entries(t) == seq![
                EntryView { pid: n, name: c, args: None, listen: seq![a], cwd: None },
            ]
        }),
{
    let d = i64_text(n as int);
    let pl = seq!['p'] + d;
    let cl = seq!['c'] + c;
    let nl = seq!['n'] + a;
    let t = seq!['p'] + d + seq!['\n', 'c'] + c + seq!['\n', 'n'] + a;
    lemma_i64_text_chars(n as int);
    assert(t =~= (pl + seq!['\n'] + cl) + seq!['\n'] + nl);
    // Three lines, none with a newline inside.
    assert forall|k: int| 0 <= k < pl.len() implies #[trigger] pl[k] != '\n' by {
        if k > 0 {
            assert(pl[k] == d[k - 1]);
        }
    }
    assert forall|k: int| 0 <= k < cl.len() implies #[trigger] cl[k] != '\n' by {
        if k > 0 {
            assert(cl[k] == c[k - 1]);
        }
    }
    assert forall|k: int| 0 <= k < nl.len() implies #[trigger] nl[k] != '\n' by {
        if k > 0 {
            assert(nl[k] == a[k - 1]);
        }
    }
    // One record: a newline is followed by `c` or by `n`.
    let tt = (pl + seq!['\n'] + cl) + seq!['\n'] + nl;
    assert forall|k: int| 0 <= k < tt.len() - 1 implies !(#[trigger] tt[k] == '\n' && tt[k + 1]
        == 'p') by {
        if k < pl.len() {
            assert(tt[k] == pl[k]);
        } else if k == pl.len() {
            assert(tt[k + 1] == cl[0]);
        } else if k < pl.len() + 1 + cl.len() {
            assert(tt[k] == cl[k - pl.len() - 1]);
        } else if k == pl.len() + 1 + cl.len() {
            assert(tt[k + 1] == nl[0]);
        } else {
            assert(tt[k] == nl[k - pl.len() - cl.len() - 2]);
        }
    }
    lemma_split_records_single(t);
    lemma_split_char_concat(pl + seq!['\n'] + cl, nl, '\n');
    lemma_split_char_concat(pl, cl, '\n');
    lemma_split_char_single(pl, '\n');
    lemma_split_char_single(cl, '\n');
    lemma_split_char_single(nl, '\n');
    let lines = seq![pl, cl, nl];
    assert(split_char(t, '\n') =~= lines);
    // None of them is a file descriptor line.
    assert(!is_fd_line(pl) && !is_fd_line(cl) && !is_fd_line(nl));
    let l1 = lines.drop_last().drop_last();
    assert(l1 =~= seq![pl]);
    assert(l1.drop_last() =~= Seq::<Seq<char>>::empty());
    assert(kept_lines(l1.drop_last()) =~= Seq::<Seq<char>>::empty());
    assert(l1.last() == pl);
    assert(kept_lines(l1) =~= seq![pl]);
    assert(kept_lines(lines.drop_last()) =~= seq![pl, cl]);
    assert(kept_lines(lines) =~= lines);
    assert(record_lines(t) == lines);
    // The process id.
    assert forall|k: int| 0 <= k < d.len() implies #[trigger] d[k] != 'p' by {}
    lemma_replace_char_concat(seq!['p'], d, 'p', Seq::<char>::empty());
    lemma_replace_char_absent(d, 'p', Seq::<char>::empty());
    assert(replace_char(seq!['p'], 'p', Seq::<char>::empty()) =~= Seq::<char>::empty()) by {
        let one = seq!['p'];
        assert(one.drop_last() =~= Seq::<char>::empty());
        assert(replace_char(one.drop_last(), 'p', Seq::<char>::empty()) =~= Seq::<char>::empty());
        assert(one.last() == 'p');
    }
    assert(replace_char(pl, 'p', Seq::<char>::empty()) =~= d);
    lemma_parse_i64_text(n);
    assert(pid_of(pl) == n);
    // The command and the address.
    assert(after_first(cl) =~= c);
    assert(after_first(nl) =~= a);
    let rest = lines.subrange(2, 3);
    assert(rest =~= seq![nl]);
    assert(rest.drop_last() =~= Seq::<Seq<char>>::empty());
    assert(address_lines(rest.drop_last()) =~= Seq::<Seq<char>>::empty());
    assert(rest.last() == nl && nl.len() > 0);
    assert(address_lines(rest) =~= seq![a]);
    let al = seq![a];
    assert(al.drop_last() =~= Seq::<Seq<char>>::empty());
    assert(dedup(al.drop_last()) =~= Seq::<Seq<char>>::empty());
    assert(!Seq::<Seq<char>>::empty().contains(a));
    assert(dedup(al) =~= al);
    assert(record_addresses(lines) == seq![a]);
    let e = EntryView { pid: n, name: c, args: None, listen: seq![a], cwd: None };
    assert(record_entry(t) == Some(e));
    let rs = seq![t];
    assert(rs.drop_last() =~= Seq::<Seq<char>>::empty());
    assert(entries_of_records(rs.drop_last()) =~= Seq::<EntryView>::empty());
    assert(rs.last() == t);
    assert(entries_of_records(rs) =~= seq![e]);
    // The listing can be taken apart.
    assert(record_parsable(t));
    assert forall|k: int| 0 <= k < split_records(t).len() implies record_parsable(
        #[trigger] split_records(t)[k],
    ) by {}
}

/// A file descriptor line: `f` followed by nothing but ASCII digits (the
/// lines that `^f[0-9]*$` matches).
pub open spec fn is_fd_line(l: Seq<char>) -> bool {
    l.len() >= 1 && l[0] == 'f' && all_digits(after_first(l))
}

/// The lines that are not file descriptor lines, in their order.
pub open spec fn kept_lines(ls: Seq<Seq<char>>) -> Seq<Seq<char>>
    decreases ls.len(),
{
    if ls.len() == 0 {
        ls
    } else if is_fd_line(ls.last()) {
        kept_lines(ls.drop_last())
    } else {
        kept_lines(ls.drop_last()).push(ls.last())
    }
}

/// The lines of one process record that the parser looks at.
pub open spec fn record_lines(record: Seq<char>) -> Seq<Seq<char>> {
    kept_lines(split_char(record, '\n'))
}

/// The process id that a record's first line gives: the line without its
/// `p` characters, read as an `i64`, or 0 where that fails.
pub open spec fn pid_of(line: Seq<char>) -> i64 {
    match parse_i64(replace_char(line, 'p', Seq::<char>::empty())) {
        Some(v) => v,
        None => 0,
    }
}

/// The address lines: every non-empty line without its field letter.
pub open spec fn address_lines(ls: Seq<Seq<char>>) -> Seq<Seq<char>>
    decreases ls.len(),
{
    if ls.len() == 0 {
        Seq::empty()
    } else if ls.last().len() > 0 {
        address_lines(ls.drop_last()).push(after_first(ls.last()))
    } else {
        address_lines(ls.drop_last())
    }
}

/// The listening addresses of a record: its lines after the first two,
/// without their field letter, each address once, in first-seen order.
pub open spec fn record_addresses(lines: Seq<Seq<char>>) -> Seq<Seq<char>> {
    dedup(address_lines(lines.subrange(2, lines.len() as int)))
}

/// The entry that a record stands for: a record of more than two lines
/// whose process id is not 0. `args` and `cwd` are filled in later.
pub open spec fn record_entry(record: Seq<char>) -> Option<EntryView> {
    let lines = record_lines(record);
    if lines.len() > 2 && pid_of(lines[0]) != 0 {
        Some(
            EntryView {
                pid: pid_of(lines[0]),
                name: after_first(lines[1]),
                args: None,
                listen: record_addresses(lines),
                cwd: None,
            },
        )
    } else {
        None
    }
}

/// The entries of the records that stand for one, in their order.
pub open spec fn entries_of_records(records: Seq<Seq<char>>) -> Seq<EntryView>
    decreases records.len(),
{
    if records.len() == 0 {
        Seq::empty()
    } else {
        match record_entry(records.last()) {
            Some(e) => entries_of_records(records.drop_last()).push(e),
            None => entries_of_records(records.drop_last()),
        }
    }
}

/// The entries that the `lsof` listing describes, in the order of its records.
pub open spec fn lsof_entries(s: Seq<char>) -> Seq<EntryView> {
    entries_of_records(split_records(s))
}

/// A record that the parser can take apart: where it has more than two
/// lines, the command line is not empty, and the command line and every
/// non-empty address line begin with a one-byte character, so that removing
/// the field letter leaves valid text.
pub open spec fn record_parsable(record: Seq<char>) -> bool {
    let lines = record_lines(record);
    lines.len() > 2 ==> {
        &&& lines[1].len() > 0
        &&& is_ascii_char(lines[1][0])
        &&& forall|j: int|
            2 <= j < lines.len() && lines[j].len() > 0 ==> is_ascii_char(#[trigger] lines[j][0])
    }
}

/// Every record of the listing can be taken apart.
pub open spec fn lsof_output_parsable(s: Seq<char>) -> bool {
    forall|k: int|
        0 <= k < split_records(s).len() ==> record_parsable(#[trigger] split_records(s)[k])
}

fn split_records_exec(cs: &Vec<char>) -> (r: Vec<Vec<char>>)
    ensures
        views(r@) == split_records(cs@),
{
    let mut pieces: Vec<Vec<char>> = Vec::new();
    let mut cur: Vec<char> = Vec::new();
    let mut i: usize = 0;
    while i < cs.len()
        invariant
            i <= cs.len(),
            views(pieces@).push(cur@) == split_records(cs@.take(i as int)),
            0 < i < cs.len() ==> !(cs@[i - 1] == '\n' && cs@[i as int] == 'p'),
        decreases cs.len() - i,
    {
        let ghost before = cs@.take(i as int);
        let ghost done_view = views(pieces@);
        proof {
            lemma_split_records_nonempty(before);
        }
        if cs[i] == '\n' && i + 1 < cs.len() && cs[i + 1] == 'p' {
            let done = cur;
            pieces.push(done);
            cur = Vec::new();
            assert(cs@.take(i + 2).take(i as int) =~= before);
            assert(views(pieces@).push(cur@) =~= split_records(cs@.take(i + 2)));
            i = i + 2;
        } else {
            assert(cs@.take(i + 1).drop_last() =~= before);
            let ghost cur_before = cur@;
            cur.push(cs[i]);
            assert(views(pieces@) =~= done_view);
            assert(views(pieces@).push(cur@) =~= split_records(before).update(
                done_view.len() as int,
                cur_before.push(cs@[i as int]),
            ));
            i = i + 1;
        }
    }
    assert(cs@.take(i as int) =~= cs@);
    let ghost done_view = views(pieces@);
    let ghost cur_view = cur@;
    pieces.push(cur);
    assert(views(pieces@) =~= done_view.push(cur_view));
    pieces
}

fn fd_line(l: &Vec<char>) -> (b: bool)
    ensures
        b == is_fd_line(l@),
{
    if l.len() == 0 || l[0] != 'f' {
        return false;
    }
    let mut k: usize = 1;
    while k < l.len()
        invariant
            1 <= k <= l.len(),
            forall|j: int| 1 <= j < k ==> is_ascii_digit(l@[j]),
        decreases l.len() - k,
    {
        if !('0' <= l[k] && l[k] <= '9') {
            assert(after_first(l@)[k - 1] == l@[k as int]);
            return false;
        }
        k = k + 1;
    }
    assert forall|j: int| 0 <= j < after_first(l@).len() implies is_ascii_digit(
        #[trigger] after_first(l@)[j],
    ) by {
        assert(after_first(l@)[j] == l@[j + 1]);
    }
    true
}

fn kept_lines_exec(ls: &Vec<Vec<char>>) -> (r: Vec<Vec<char>>)
    ensures
        views(r@) == kept_lines(views(ls@)),
{
    let mut r: Vec<Vec<char>> = Vec::new();
    let mut j: usize = 0;
    while j < ls.len()
        invariant
            j <= ls.len(),
            views(r@) == kept_lines(views(ls@).take(j as int)),
        decreases ls.len() - j,
    {
        let ghost lv = views(ls@);
        assert(lv.take(j + 1).drop_last() =~= lv.take(j as int));
        assert(lv.take(j + 1).last() == ls@[j as int]@);
        if !fd_line(&ls[j]) {
            let ghost before = views(r@);
            let line = copy_chars(&ls[j]);
            r.push(line);
            assert(views(r@) =~= before.push(ls@[j as int]@));
        }
        j = j + 1;
    }
    assert(views(ls@).take(j as int) =~= views(ls@));
    r
}

fn record_lines_exec(record: &Vec<char>) -> (r: Vec<Vec<char>>)
    ensures
        views(r@) == record_lines(record@),
{
    let all = split_on(record, '\n');
    kept_lines_exec(&all)
}

fn addresses_exec(lines: &Vec<Vec<char>>) -> (r: Vec<String>)
    requires
        lines.len() >= 2,
    ensures
        string_views(r@) == record_addresses(views(lines@)),
{
    let ghost lv = views(lines@);
    let ghost tail = lv.subrange(2, lv.len() as int);
    let mut raw: Vec<String> = Vec::new();
    let mut j: usize = 2;
    while j < lines.len()
        invariant
            2 <= j <= lines.len(),
            lv == views(lines@),
            tail == lv.subrange(2, lv.len() as int),
            string_views(raw@) == address_lines(tail.take(j - 2)),
        decreases lines.len() - j,
    {
        assert(tail.take(j - 1).drop_last() =~= tail.take(j - 2));
        assert(tail.take(j - 1).last() == lines@[j as int]@);
        let n = lines[j].len();
        if n > 0 {
            let ghost before = string_views(raw@);
            let a = string_from_range(&lines[j], 1, n);
            raw.push(a);
            assert(string_views(raw@) =~= before.push(after_first(lines@[j as int]@)));
        }
        j = j + 1;
    }
    assert(tail.take(j - 2) =~= tail);
    unique_strings(&raw)
}

fn record_entry_exec(record: &Vec<char>) -> (r: Option<PortEntry>)
    requires
        record_parsable(record@),
    ensures
        opt_entry(r) == record_entry(record@),
{
    let lines = record_lines_exec(record);
    if lines.len() <= 2 {
        return None;
    }
    let no_p = replace_chars(&lines[0], 'p', &Vec::new());
    let pid = match parse_decimal_i64(&no_p) {
        Some(v) => v,
        None => 0,
    };
    assert(pid == pid_of(views(lines@)[0]));
    if pid == 0 {
        return None;
    }
    let name_len = lines[1].len();
    assert(views(lines@)[1] == lines@[1]@);
    let name = string_from_range(&lines[1], 1, name_len);
    let listen = addresses_exec(&lines);
    let e = PortEntry { pid, name, args: None, listen, cwd: None };
    assert(e@ == record_entry(record@)->0);
    Some(e)
}

fn record_parsable_exec(record: &Vec<char>) -> (b: bool)
    ensures
        b == record_parsable(record@),
{
    let lines = record_lines_exec(record);
    let ghost lv = views(lines@);
    if lines.len() <= 2 {
        return true;
    }
    assert(lv[1] == lines@[1]@);
    if lines[1].len() == 0 || !ascii_char(lines[1][0]) {
        return false;
    }
    let mut j: usize = 2;
    while j < lines.len()
        invariant
            2 <= j <= lines.len(),
            lv == views(lines@),
            lv == record_lines(record@),
            forall|k: int| 2 <= k < j && lv[k].len() > 0 ==> is_ascii_char(#[trigger] lv[k][0]),
        decreases lines.len() - j,
    {
        assert(lv[j as int] == lines@[j as int]@);
        if lines[j].len() > 0 && !ascii_char(lines[j][0]) {
            return false;
        }
        j = j + 1;
    }
    true
}

/// Whether `parse_lsof_output` can take the listing apart.
pub fn lsof_output_is_parsable(lsof_output: &str) -> (b: bool)
    ensures
        b == lsof_output_parsable(lsof_output@),
{
    let cs = chars_of(lsof_output);
    let records = split_records_exec(&cs);
    let mut k: usize = 0;
    while k < records.len()
        invariant
            k <= records.len(),
            views(records@) == split_records(lsof_output@),
            forall|j: int| 0 <= j < k ==> record_parsable(#[trigger] split_records(lsof_output@)[j]),
        decreases records.len() - k,
    {
        assert(views(records@)[k as int] == records@[k as int]@);
        if !record_parsable_exec(&records[k]) {
            return false;
        }
        k = k + 1;
    }
    true
}

/// The processes that the `lsof` listing shows listening, with their process
/// id, command name and distinct addresses; `args` and `cwd` are left empty.
pub fn parse_lsof_output(lsof_output: &str) -> (r: Vec<PortEntry>)
    requires
        lsof_output_parsable(lsof_output@),
    ensures
        crate::ports::entry_views(r@) == lsof_entries(lsof_output@),
{
    let cs = chars_of(lsof_output);
    let records = split_records_exec(&cs);
    let mut out: Vec<PortEntry> = Vec::new();
    let mut k: usize = 0;
    while k < records.len()
        invariant
            k <= records.len(),
            views(records@) == split_records(lsof_output@),
            lsof_output_parsable(lsof_output@),
            crate::ports::entry_views(out@) == entries_of_records(views(records@).take(k as int)),
        decreases records.len() - k,
    {
        let ghost rv = views(records@);
        assert(rv.take(k + 1).drop_last() =~= rv.take(k as int));
        assert(rv.take(k + 1).last() == records@[k as int]@);
        assert(rv[k as int] == records@[k as int]@);
        let ghost before = crate::ports::entry_views(out@);
        match record_entry_exec(&records[k]) {
            Some(e) => {
                out.push(e);
                assert(crate::ports::entry_views(out@) =~= before.push(
                    record_entry(records@[k as int]@)->0,
                ));
            },
            None => {},
        }
        k = k + 1;
    }
    assert(views(records@).take(k as int) =~= views(records@));
    out
}

/// The marker line of the working directory in `lsof -Ffn` output.
pub open spec fn is_cwd_marker(l: Seq<char>) -> bool {
    starts_with(l, seq!['f', 'c', 'w', 'd'])
}

/// The index of the first marker line at or after `from`.
pub open spec fn marker_index(lines: Seq<Seq<char>>, from: int) -> Option<int>
    decreases lines.len() - from,
{
    if from < 0 || from >= lines.len() {
        None
    } else if is_cwd_marker(lines[from]) {
        Some(from)
    } else {
        marker_index(lines, from + 1)
    }
}

/// The line after the first marker line, where there is one and it is not
/// empty.
pub open spec fn cwd_line(s: Seq<char>) -> Option<Seq<char>> {
    let lines = split_char(s, '\n');
    match marker_index(lines, 0) {
        Some(i) => if i + 1 < lines.len() && lines[i + 1].len() > 0 {
            Some(lines[i + 1])
        } else {
            None
        },
        None => None,
    }
}

/// The working directory that `lsof -p <pid> -Ffn` output gives: the line
/// after the first `fcwd` line, without its field letter.
pub open spec fn cwd_from_text(s: Seq<char>) -> Option<Seq<char>> {
    match cwd_line(s) {
        Some(l) => Some(after_first(l)),
        None => None,
    }
}

/// The working directory that the output of `lsof -p`, if any, gives.
pub open spec fn cwd_from_lsof(o: Option<Seq<char>>) -> Option<Seq<char>> {
    match o {
        Some(s) => cwd_from_text(s),
        None => None,
    }
}

/// Removing the field letter of the line that holds the working directory
/// leaves valid text.
pub open spec fn cwd_text_readable(s: Seq<char>) -> bool {
    match cwd_line(s) {
        Some(l) => is_ascii_char(l[0]),
        None => true,
    }
}

fn cwd_line_index(lines: &Vec<Vec<char>>) -> (r: Option<usize>)
    ensures
        match r {
            Some(i) => marker_index(views(lines@), 0) == Some(i as int) && i < lines.len(),
            None => marker_index(views(lines@), 0) is None,
        },
{
    let ghost lv = views(lines@);
    let marker = vec!['f', 'c', 'w', 'd'];
    let mut i: usize = 0;
    while i < lines.len()
        invariant
            i <= lines.len(),
            lv == views(lines@),
            marker@ == seq!['f', 'c', 'w', 'd'],
            marker_index(lv, 0) == marker_index(lv, i as int),
        decreases lines.len() - i,
    {
        assert(lv[i as int] == lines@[i as int]@);
        if has_prefix(&lines[i], &marker) {
            return Some(i);
        }
        i = i + 1;
    }
    None
}

fn cwd_line_exec(s: &str) -> (r: Option<Vec<char>>)
    ensures
        match r {
            Some(l) => cwd_line(s@) == Some(l@),
            None => cwd_line(s@) is None,
        },
{
    let cs = chars_of(s);
    let lines = split_on(&cs, '\n');
    assert(views(lines@) == split_char(s@, '\n'));
    match cwd_line_index(&lines) {
        Some(i) => {
            if i + 1 < lines.len() && lines[i + 1].len() > 0 {
                assert(views(lines@)[i + 1] == lines@[i + 1]@);
                Some(copy_chars(&lines[i + 1]))
            } else {
                assert(i + 1 < lines.len() ==> views(lines@)[i + 1] == lines@[i + 1]@);
                None
            }
        },
        None => None,
    }
}

/// Whether `read_cwd_from_lsof_output` can take this output apart.
pub fn cwd_output_is_readable(s: &str) -> (b: bool)
    ensures
        b == cwd_text_readable(s@),
{
    match cwd_line_exec(s) {
        Some(l) => ascii_char(l[0]),
        None => true,
    }
}

/// The working directory in the output of `lsof -p <pid> -Ffn`: the line
/// that follows the first line starting with `fcwd`, without its field
/// letter; `None` where there is no output, no such line, or it is empty.
pub fn read_cwd_from_lsof_output(process_info: Option<&str>) -> (r: Option<String>)
    requires
        process_info matches Some(s) ==> cwd_text_readable(s@),
    ensures
        opt_text(r) == cwd_from_lsof(
            match process_info {
                Some(s) => Some(s@),
                None => None,
            },
        ),
{
    match process_info {
        Some(s) => match cwd_line_exec(s) {
            Some(l) => {
                let n = l.len();
                Some(string_from_range(&l, 1, n))
            },
            None => None,
        },
        None => None,
    }
}

/// An entry as the listing gives it, before the probes.
pub open spec fn entry_wellformed(e: EntryView) -> bool {
    &&& e.pid != 0
    &&& e.listen.no_duplicates()
    &&& e.args is None
    &&& e.cwd is None
}

proof fn lemma_entries_of_records(records: Seq<Seq<char>>)
    ensures
        forall|i: int|
            0 <= i < entries_of_records(records).len() ==> entry_wellformed(
                #[trigger] entries_of_records(records)[i],
            ),
    decreases records.len(),
{
    if records.len() > 0 {
        let p = records.drop_last();
        lemma_entries_of_records(p);
        let r = entries_of_records(records);
        let rp = entries_of_records(p);
        if let Some(e) = record_entry(records.last()) {
            let lines = record_lines(records.last());
            lemma_dedup(address_lines(lines.subrange(2, lines.len() as int)));
            assert forall|i: int| 0 <= i < r.len() implies entry_wellformed(#[trigger] r[i]) by {
                if i < rp.len() {
                    assert(r[i] == rp[i]);
                }
            }
        }
    }
}

/// Every entry read from a listing has a process id other than 0 and no
/// address twice; the command line and working directory are left to the
/// probes.
pub proof fn lemma_lsof_entries_wellformed(s: Seq<char>)
    ensures
        forall|i: int|
            0 <= i < lsof_entries(s).len() ==> entry_wellformed(#[trigger] lsof_entries(s)[i]),
{
    lemma_entries_of_records(split_records(s));
}

} // verus!
