//! Character-level text handling shared by the parsers: the strings are
//! modelled as `Seq<char>`, the view that vstd gives `str` and `String`.
use vstd::prelude::*;

verus! {

broadcast use vstd::string::group_string_axioms;

/// `String::push` appends one character at the end of the string.
pub assume_specification[ String::push ](s: &mut String, ch: char)
    ensures
        final(s)@ == old(s)@.push(ch),
;

/// `String::pop` removes the last character and hands it back, or hands back
/// `None` and leaves the string as it is when it is empty.
pub assume_specification[ String::pop ](s: &mut String) -> (r: Option<char>)
    ensures
        old(s)@.len() == 0 ==> r is None && final(s)@ == old(s)@,
        old(s)@.len() > 0 ==> r == Some(old(s)@.last()) && final(s)@ == old(s)@.drop_last(),
;

/// A digit `0` to `9`.
pub open spec fn is_ascii_digit(c: char) -> bool {
    '0' <= c && c <= '9'
}

/// A character that UTF-8 encodes in one byte.
pub open spec fn is_ascii_char(c: char) -> bool {
    (c as int) < 128
}

/// The characters with the Unicode `White_Space` property, which is what
/// `char::is_whitespace` and `str::trim` go by.
pub open spec fn is_white_space(c: char) -> bool {
    let u = c as int;
    ||| 0x09 <= u <= 0x0D
    ||| u == 0x20
    ||| u == 0x85
    ||| u == 0xA0
    ||| u == 0x1680
    ||| 0x2000 <= u <= 0x200A
    ||| u == 0x2028
    ||| u == 0x2029
    ||| u == 0x202F
    ||| u == 0x205F
    ||| u == 0x3000
}

/// Whether `c` is white space.
pub fn white_space(c: char) -> (b: bool)
    ensures
        b == is_white_space(c),
{
    let u = c as u32;
    (0x09 <= u && u <= 0x0D) || u == 0x20 || u == 0x85 || u == 0xA0 || u == 0x1680 || (0x2000
        <= u && u <= 0x200A) || u == 0x2028 || u == 0x2029 || u == 0x202F || u == 0x205F || u
        == 0x3000
}

/// The characters of the Unicode general category `Nd` (decimal digits), as
/// of Unicode 16.0: the digits of every script, in runs of ten.
pub open spec fn is_decimal_digit(c: char) -> bool {
    let u = c as int;
    ||| 0x30 <= u <= 0x39
    ||| 0x660 <= u <= 0x669
    ||| 0x6F0 <= u <= 0x6F9
    ||| 0x7C0 <= u <= 0x7C9
    ||| 0x966 <= u <= 0x96F
    ||| 0x9E6 <= u <= 0x9EF
    ||| 0xA66 <= u <= 0xA6F
    ||| 0xAE6 <= u <= 0xAEF
    ||| 0xB66 <= u <= 0xB6F
    ||| 0xBE6 <= u <= 0xBEF
    ||| 0xC66 <= u <= 0xC6F
    ||| 0xCE6 <= u <= 0xCEF
    ||| 0xD66 <= u <= 0xD6F
    ||| 0xDE6 <= u <= 0xDEF
    ||| 0xE50 <= u <= 0xE59
    ||| 0xED0 <= u <= 0xED9
    ||| 0xF20 <= u <= 0xF29
    ||| 0x1040 <= u <= 0x1049
    ||| 0x1090 <= u <= 0x1099
    ||| 0x17E0 <= u <= 0x17E9
    ||| 0x1810 <= u <= 0x1819
    ||| 0x1946 <= u <= 0x194F
    ||| 0x19D0 <= u <= 0x19D9
    ||| 0x1A80 <= u <= 0x1A89
    ||| 0x1A90 <= u <= 0x1A99
    ||| 0x1B50 <= u <= 0x1B59
    ||| 0x1BB0 <= u <= 0x1BB9
    ||| 0x1C40 <= u <= 0x1C49
    ||| 0x1C50 <= u <= 0x1C59
    ||| 0xA620 <= u <= 0xA629
    ||| 0xA8D0 <= u <= 0xA8D9
    ||| 0xA900 <= u <= 0xA909
    ||| 0xA9D0 <= u <= 0xA9D9
    ||| 0xA9F0 <= u <= 0xA9F9
    ||| 0xAA50 <= u <= 0xAA59
    ||| 0xABF0 <= u <= 0xABF9
    ||| 0xFF10 <= u <= 0xFF19
    ||| 0x104A0 <= u <= 0x104A9
    ||| 0x10D30 <= u <= 0x10D39
    ||| 0x10D40 <= u <= 0x10D49
    ||| 0x11066 <= u <= 0x1106F
    ||| 0x110F0 <= u <= 0x110F9
    ||| 0x11136 <= u <= 0x1113F
    ||| 0x111D0 <= u <= 0x111D9
    ||| 0x112F0 <= u <= 0x112F9
    ||| 0x11450 <= u <= 0x11459
    ||| 0x114D0 <= u <= 0x114D9
    ||| 0x11650 <= u <= 0x11659
    ||| 0x116C0 <= u <= 0x116C9
    ||| 0x116D0 <= u <= 0x116E3
    ||| 0x11730 <= u <= 0x11739
    ||| 0x118E0 <= u <= 0x118E9
    ||| 0x11950 <= u <= 0x11959
    ||| 0x11BF0 <= u <= 0x11BF9
    ||| 0x11C50 <= u <= 0x11C59
    ||| 0x11D50 <= u <= 0x11D59
    ||| 0x11DA0 <= u <= 0x11DA9
    ||| 0x11F50 <= u <= 0x11F59
    ||| 0x16130 <= u <= 0x16139
    ||| 0x16A60 <= u <= 0x16A69
    ||| 0x16AC0 <= u <= 0x16AC9
    ||| 0x16B50 <= u <= 0x16B59
    ||| 0x16D70 <= u <= 0x16D79
    ||| 0x1CCF0 <= u <= 0x1CCF9
    ||| 0x1D7CE <= u <= 0x1D7FF
    ||| 0x1E140 <= u <= 0x1E149
    ||| 0x1E2F0 <= u <= 0x1E2F9
    ||| 0x1E4F0 <= u <= 0x1E4F9
    ||| 0x1E5F1 <= u <= 0x1E5FA
    ||| 0x1E950 <= u <= 0x1E959
    ||| 0x1FBF0 <= u <= 0x1FBF9
}

/// Whether `c` is a decimal digit of any script.
pub fn decimal_digit(c: char) -> (b: bool)
    ensures
        b == is_decimal_digit(c),
{
    let u = c as u32;
    (0x30 <= u && u <= 0x39) || (0x660 <= u && u <= 0x669) || (0x6F0 <= u && u <= 0x6F9)
        || (0x7C0 <= u && u <= 0x7C9) || (0x966 <= u && u <= 0x96F) || (0x9E6 <= u && u <= 0x9EF)
        || (0xA66 <= u && u <= 0xA6F) || (0xAE6 <= u && u <= 0xAEF) || (0xB66 <= u && u <= 0xB6F)
        || (0xBE6 <= u && u <= 0xBEF) || (0xC66 <= u && u <= 0xC6F) || (0xCE6 <= u && u <= 0xCEF)
        || (0xD66 <= u && u <= 0xD6F) || (0xDE6 <= u && u <= 0xDEF) || (0xE50 <= u && u <= 0xE59)
        || (0xED0 <= u && u <= 0xED9) || (0xF20 <= u && u <= 0xF29) || (0x1040 <= u && u <= 0x1049)
        || (0x1090 <= u && u <= 0x1099) || (0x17E0 <= u && u <= 0x17E9)
        || (0x1810 <= u && u <= 0x1819) || (0x1946 <= u && u <= 0x194F)
        || (0x19D0 <= u && u <= 0x19D9) || (0x1A80 <= u && u <= 0x1A89)
        || (0x1A90 <= u && u <= 0x1A99) || (0x1B50 <= u && u <= 0x1B59)
        || (0x1BB0 <= u && u <= 0x1BB9) || (0x1C40 <= u && u <= 0x1C49)
        || (0x1C50 <= u && u <= 0x1C59) || (0xA620 <= u && u <= 0xA629)
        || (0xA8D0 <= u && u <= 0xA8D9) || (0xA900 <= u && u <= 0xA909)
        || (0xA9D0 <= u && u <= 0xA9D9) || (0xA9F0 <= u && u <= 0xA9F9)
        || (0xAA50 <= u && u <= 0xAA59) || (0xABF0 <= u && u <= 0xABF9)
        || (0xFF10 <= u && u <= 0xFF19) || (0x104A0 <= u && u <= 0x104A9)
        || (0x10D30 <= u && u <= 0x10D39) || (0x10D40 <= u && u <= 0x10D49)
        || (0x11066 <= u && u <= 0x1106F) || (0x110F0 <= u && u <= 0x110F9)
        || (0x11136 <= u && u <= 0x1113F) || (0x111D0 <= u && u <= 0x111D9)
        || (0x112F0 <= u && u <= 0x112F9) || (0x11450 <= u && u <= 0x11459)
        || (0x114D0 <= u && u <= 0x114D9) || (0x11650 <= u && u <= 0x11659)
        || (0x116C0 <= u && u <= 0x116C9) || (0x116D0 <= u && u <= 0x116E3)
        || (0x11730 <= u && u <= 0x11739) || (0x118E0 <= u && u <= 0x118E9)
        || (0x11950 <= u && u <= 0x11959) || (0x11BF0 <= u && u <= 0x11BF9)
        || (0x11C50 <= u && u <= 0x11C59) || (0x11D50 <= u && u <= 0x11D59)
        || (0x11DA0 <= u && u <= 0x11DA9) || (0x11F50 <= u && u <= 0x11F59)
        || (0x16130 <= u && u <= 0x16139) || (0x16A60 <= u && u <= 0x16A69)
        || (0x16AC0 <= u && u <= 0x16AC9) || (0x16B50 <= u && u <= 0x16B59)
        || (0x16D70 <= u && u <= 0x16D79) || (0x1CCF0 <= u && u <= 0x1CCF9)
        || (0x1D7CE <= u && u <= 0x1D7FF) || (0x1E140 <= u && u <= 0x1E149)
        || (0x1E2F0 <= u && u <= 0x1E2F9) || (0x1E4F0 <= u && u <= 0x1E4F9)
        || (0x1E5F1 <= u && u <= 0x1E5FA) || (0x1E950 <= u && u <= 0x1E959)
        || (0x1FBF0 <= u && u <= 0x1FBF9)
}

/// The code point of a character.
pub fn code_point(c: char) -> (u: u32)
    ensures
        u as int == c as int,
{
    c as u32
}

/// Whether `c` encodes in one byte.
pub fn ascii_char(c: char) -> (b: bool)
    ensures
        b == is_ascii_char(c),
{
    (c as u32) < 128
}

/// The characters of `s`.
pub fn chars_of(s: &str) -> (r: Vec<char>)
    ensures
        r@ == s@,
{
    let mut r: Vec<char> = Vec::new();
    for c in it: s.chars()
        invariant
            r@ == it.seq().take(it.index() as int),
            it.seq() == s@,
    {
        r.push(c);
    }
    r
}

/// A string made of the characters `cs[from..to]`.
pub fn string_from_range(cs: &Vec<char>, from: usize, to: usize) -> (r: String)
    requires
        from <= to <= cs.len(),
    ensures
        r@ == cs@.subrange(from as int, to as int),
{
    let mut r = String::new();
    let mut i: usize = from;
    while i < to
        invariant
            from <= i <= to <= cs.len(),
            r@ == cs@.subrange(from as int, i as int),
        decreases to - i,
    {
        r.push(cs[i]);
        i = i + 1;
        assert(r@ =~= cs@.subrange(from as int, i as int));
    }
    r
}

/// A string made of the characters.
pub fn string_from(cs: &Vec<char>) -> (r: String)
    ensures
        r@ == cs@,
{
    let r = string_from_range(cs, 0, cs.len());
    assert(cs@.subrange(0, cs@.len() as int) =~= cs@);
    r
}

/// The character sequences that a list of character vectors holds.
pub open spec fn views(v: Seq<Vec<char>>) -> Seq<Seq<char>> {
    Seq::new(v.len(), |i: int| v[i]@)
}

/// `s` without its first character (of a non-empty `s`).
pub open spec fn after_first(s: Seq<char>) -> Seq<char> {
    s.subrange(1, s.len() as int)
}

/// The pieces of `s` between the occurrences of `sep`, as `str::split` with a
/// character pattern yields them: there is always one piece more than there
/// are separators.
pub open spec fn split_char(s: Seq<char>, sep: char) -> Seq<Seq<char>>
    decreases s.len(),
{
    if s.len() == 0 {
        seq![Seq::<char>::empty()]
    } else {
        let r = split_char(s.drop_last(), sep);
        if s.last() == sep {
            r.push(Seq::<char>::empty())
        } else {
            r.update(r.len() - 1, r.last().push(s.last()))
        }
    }
}

/// There is always at least one piece.
pub proof fn lemma_split_char_nonempty(s: Seq<char>, sep: char)
    ensures
        split_char(s, sep).len() >= 1,
    decreases s.len(),
{
    if s.len() > 0 {
        lemma_split_char_nonempty(s.drop_last(), sep);
    }
}

/// The pieces of `cs` between the occurrences of `sep`.
pub fn split_on(cs: &Vec<char>, sep: char) -> (r: Vec<Vec<char>>)
    ensures
        views(r@) == split_char(cs@, sep),
{
    let mut pieces: Vec<Vec<char>> = Vec::new();
    let mut cur: Vec<char> = Vec::new();
    let mut i: usize = 0;
    while i < cs.len()
        invariant
            i <= cs.len(),
            views(pieces@).push(cur@) == split_char(cs@.take(i as int), sep),
        decreases cs.len() - i,
    {
        let ghost before = cs@.take(i as int);
        proof {
            lemma_split_char_nonempty(before, sep);
        }
        assert(cs@.take(i + 1).drop_last() =~= before);
        assert(cs@.take(i + 1).last() == cs@[i as int]);
        let ghost done_view = views(pieces@);
        if cs[i] == sep {
            let done = cur;
            pieces.push(done);
            cur = Vec::new();
            assert(views(pieces@).push(cur@) =~= split_char(cs@.take(i + 1), sep));
        } else {
            let ghost cur_before = cur@;
            cur.push(cs[i]);
            assert(views(pieces@) =~= done_view);
            assert(done_view.push(cur_before) == split_char(before, sep));
            assert(views(pieces@).push(cur@) =~= split_char(before, sep).update(
                done_view.len() as int,
                cur_before.push(cs@[i as int]),
            ));
        }
        i = i + 1;
    }
    assert(cs@.take(i as int) =~= cs@);
    let ghost done_view = views(pieces@);
    let ghost cur_view = cur@;
    pieces.push(cur);
    assert(views(pieces@) =~= done_view.push(cur_view));
    pieces
}

/// Whether `p` is a prefix of `s`.
pub open spec fn starts_with(s: Seq<char>, p: Seq<char>) -> bool {
    p.len() <= s.len() && s.subrange(0, p.len() as int) == p
}

/// Whether `p` is a prefix of `s`.
pub fn has_prefix(s: &Vec<char>, p: &Vec<char>) -> (b: bool)
    ensures
        b == starts_with(s@, p@),
{
    if p.len() > s.len() {
        return false;
    }
    let mut i: usize = 0;
    while i < p.len()
        invariant
            p.len() <= s.len(),
            i <= p.len(),
            forall|k: int| 0 <= k < i ==> s@[k] == p@[k],
        decreases p.len() - i,
    {
        if s[i] != p[i] {
            assert(s@.subrange(0, p@.len() as int)[i as int] != p@[i as int]);
            return false;
        }
        i = i + 1;
    }
    assert(s@.subrange(0, p@.len() as int) =~= p@);
    true
}

/// `q` occurs in `h` starting at position `i`.
pub open spec fn occurs_at(h: Seq<char>, q: Seq<char>, i: int) -> bool {
    0 <= i && i + q.len() <= h.len() && h.subrange(i, i + q.len()) == q
}

/// Whether `q` occurs somewhere in `h`, as `str::contains` decides it.
pub open spec fn contains_text(h: Seq<char>, q: Seq<char>) -> bool {
    exists|i: int| occurs_at(h, q, i)
}

fn matches_at(h: &Vec<char>, q: &Vec<char>, at: usize) -> (b: bool)
    requires
        at + q.len() <= h.len(),
    ensures
        b == occurs_at(h@, q@, at as int),
{
    let mut k: usize = 0;
    while k < q.len()
        invariant
            at + q.len() <= h.len(),
            k <= q.len(),
            forall|j: int| 0 <= j < k ==> h@[at + j] == q@[j],
        decreases q.len() - k,
    {
        if h[at + k] != q[k] {
            assert(h@.subrange(at as int, at + q@.len())[k as int] != q@[k as int]);
            return false;
        }
        k = k + 1;
    }
    assert(h@.subrange(at as int, at + q@.len()) =~= q@);
    true
}

/// Whether `q` occurs in `h`.
pub fn contains_chars(h: &Vec<char>, q: &Vec<char>) -> (b: bool)
    ensures
        b == contains_text(h@, q@),
{
    if q.len() > h.len() {
        assert forall|i: int| !occurs_at(h@, q@, i) by {}
        return false;
    }
    let last = h.len() - q.len();
    let mut i: usize = 0;
    while i < last
        invariant
            last + q.len() == h.len(),
            i <= last,
            forall|j: int| 0 <= j < i ==> !occurs_at(h@, q@, j),
        decreases last - i,
    {
        if matches_at(h, q, i) {
            return true;
        }
        i = i + 1;
    }
    if matches_at(h, q, last) {
        return true;
    }
    assert forall|j: int| !occurs_at(h@, q@, j) by {
        if 0 <= j < last {
        }
    }
    false
}

/// `s` with every occurrence of the character `c` replaced by `by`, as
/// `str::replace` with a character pattern produces it.
pub open spec fn replace_char(s: Seq<char>, c: char, by: Seq<char>) -> Seq<char>
    decreases s.len(),
{
    if s.len() == 0 {
        s
    } else {
        replace_char(s.drop_last(), c, by) + if s.last() == c {
            by
        } else {
            seq![s.last()]
        }
    }
}

/// `s` with every `c` replaced by `by`.
pub fn replace_chars(s: &Vec<char>, c: char, by: &Vec<char>) -> (r: Vec<char>)
    ensures
        r@ == replace_char(s@, c, by@),
{
    let mut r: Vec<char> = Vec::new();
    let mut i: usize = 0;
    while i < s.len()
        invariant
            i <= s.len(),
            r@ == replace_char(s@.take(i as int), c, by@),
        decreases s.len() - i,
    {
        assert(s@.take(i + 1).drop_last() =~= s@.take(i as int));
        if s[i] == c {
            let mut k: usize = 0;
            let ghost start = r@;
            while k < by.len()
                invariant
                    k <= by.len(),
                    r@ == start + by@.take(k as int),
                decreases by.len() - k,
            {
                r.push(by[k]);
                k = k + 1;
                assert(r@ =~= start + by@.take(k as int));
            }
            assert(by@.take(k as int) =~= by@);
        } else {
            r.push(s[i]);
        }
        i = i + 1;
        assert(r@ =~= replace_char(s@.take(i as int), c, by@));
    }
    assert(s@.take(i as int) =~= s@);
    r
}

/// `s` without the white space at either end, as `str::trim` gives it.
pub open spec fn trim_start(s: Seq<char>) -> Seq<char>
    decreases s.len(),
{
    if s.len() > 0 && is_white_space(s[0]) {
        trim_start(s.drop_first())
    } else {
        s
    }
}

/// `s` without the white space at its end.
pub open spec fn trim_end(s: Seq<char>) -> Seq<char>
    decreases s.len(),
{
    if s.len() > 0 && is_white_space(s.last()) {
        trim_end(s.drop_last())
    } else {
        s
    }
}

/// `s` without the white space at either end.
pub open spec fn trim(s: Seq<char>) -> Seq<char> {
    trim_end(trim_start(s))
}

/// `s` without white space at either end.
pub fn trimmed(s: &Vec<char>) -> (r: Vec<char>)
    ensures
        r@ == trim(s@),
{
    let mut i: usize = 0;
    assert(s@.subrange(0, s@.len() as int) =~= s@);
    while i < s.len() && white_space(s[i])
        invariant
            i <= s.len(),
            trim_start(s@) == trim_start(s@.subrange(i as int, s@.len() as int)),
        decreases s.len() - i,
    {
        assert(s@.subrange(i as int, s@.len() as int).drop_first() =~= s@.subrange(
            i + 1,
            s@.len() as int,
        ));
        i = i + 1;
    }
    let mut j: usize = s.len();
    while j > i && white_space(s[j - 1])
        invariant
            i <= j <= s.len(),
            trim_start(s@) == s@.subrange(i as int, s@.len() as int),
            trim(s@) == trim_end(s@.subrange(i as int, j as int)),
        decreases j - i,
    {
        assert(s@.subrange(i as int, j as int).drop_last() =~= s@.subrange(i as int, j - 1));
        j = j - 1;
    }
    let mut r: Vec<char> = Vec::new();
    let mut k: usize = i;
    while k < j
        invariant
            i <= k <= j <= s.len(),
            r@ == s@.subrange(i as int, k as int),
        decreases j - k,
    {
        r.push(s[k]);
        k = k + 1;
        assert(r@ =~= s@.subrange(i as int, k as int));
    }
    r
}

/// The value of a string of decimal digits.
pub open spec fn decimal_value(ds: Seq<char>) -> int
    decreases ds.len(),
{
    if ds.len() == 0 {
        0
    } else {
        decimal_value(ds.drop_last()) * 10 + (ds.last() as int - '0' as int)
    }
}

/// Every character is a digit.
pub open spec fn all_digits(ds: Seq<char>) -> bool {
    forall|k: int| 0 <= k < ds.len() ==> is_ascii_digit(#[trigger] ds[k])
}

/// What `str::parse::<i64>` gives back: an optional `+` or `-` sign, then at
/// least one ASCII digit and nothing else, of a value that fits in `i64`.
pub open spec fn parse_i64(s: Seq<char>) -> Option<i64> {
    let negative = s.len() > 0 && s[0] == '-';
    let signed = s.len() > 0 && (s[0] == '-' || s[0] == '+');
    let ds = if signed {
        s.drop_first()
    } else {
        s
    };
    let v = if negative {
        -decimal_value(ds)
    } else {
        decimal_value(ds)
    };
    if ds.len() > 0 && all_digits(ds) && i64::MIN <= v <= i64::MAX {
        Some(v as i64)
    } else {
        None
    }
}

proof fn lemma_decimal_value_nonneg(ds: Seq<char>)
    requires
        all_digits(ds),
    ensures
        decimal_value(ds) >= 0,
    decreases ds.len(),
{
    if ds.len() > 0 {
        assert(is_ascii_digit(ds[ds.len() - 1]));
        lemma_decimal_value_nonneg(ds.drop_last());
    }
}

proof fn lemma_decimal_value_grows(ds: Seq<char>, i: int)
    requires
        all_digits(ds),
        0 <= i <= ds.len(),
    ensures
        decimal_value(ds.take(i)) <= decimal_value(ds),
    decreases ds.len() - i,
{
    if i < ds.len() {
        lemma_decimal_value_grows(ds, i + 1);
        assert(ds.take(i + 1).drop_last() =~= ds.take(i));
        assert(is_ascii_digit(ds[i]));
        assert(all_digits(ds.take(i))) by {
            assert forall|k: int| 0 <= k < ds.take(i).len() implies is_ascii_digit(
                #[trigger] ds.take(i)[k],
            ) by {
                assert(ds.take(i)[k] == ds[k]);
            }
        }
        lemma_decimal_value_nonneg(ds.take(i));
    } else {
        assert(ds.take(i) =~= ds);
    }
}

/// Parses `s` as `str::parse::<i64>` does.
pub fn parse_decimal_i64(s: &Vec<char>) -> (r: Option<i64>)
    ensures
        r == parse_i64(s@),
{
    let n = s.len();
    let negative = n > 0 && s[0] == '-';
    let signed = n > 0 && (s[0] == '-' || s[0] == '+');
    let start: usize = if signed {
        1
    } else {
        0
    };
    let ghost ds = if signed {
        s@.drop_first()
    } else {
        s@
    };
    assert(ds =~= s@.subrange(start as int, n as int));
    if start == n {
        return None;
    }
    let limit: i128 = if negative {
        9223372036854775808
    } else {
        9223372036854775807
    };
    let mut acc: i128 = 0;
    let mut i: usize = start;
    while i < n
        invariant
            start <= i <= n == s.len(),
            negative == (s@.len() > 0 && s@[0] == '-'),
            signed == (s@.len() > 0 && (s@[0] == '-' || s@[0] == '+')),
            ds == (if signed {
                s@.drop_first()
            } else {
                s@
            }),
            start == (if signed {
                1usize
            } else {
                0usize
            }),
            ds == s@.subrange(start as int, n as int),
            limit == (if negative {
                9223372036854775808int
            } else {
                9223372036854775807int
            }),
            0 <= acc <= limit,
            acc == decimal_value(ds.take(i - start)),
            all_digits(ds.take(i - start)),
        decreases n - i,
    {
        let c = s[i];
        let ghost pre = ds.take(i - start);
        assert(ds.take(i - start + 1).drop_last() =~= pre);
        assert(ds.take(i - start + 1).last() == c);
        if !('0' <= c && c <= '9') {
            assert(!all_digits(ds)) by {
                assert(ds[i - start] == c);
            }
            return None;
        }
        let d = (c as u32 - '0' as u32) as i128;
        acc = acc * 10 + d;
        assert(all_digits(ds.take(i - start + 1))) by {
            assert forall|k: int| 0 <= k < ds.take(i - start + 1).len() implies is_ascii_digit(
                #[trigger] ds.take(i - start + 1)[k],
            ) by {
                if k < i - start {
                    assert(ds.take(i - start + 1)[k] == pre[k]);
                }
            }
        }
        i = i + 1;
        assert(acc == decimal_value(ds.take(i - start)));
        if acc > limit {
            proof {
                assert(all_digits(ds) ==> decimal_value(ds) > limit) by {
                    if all_digits(ds) {
                        lemma_decimal_value_grows(ds, i - start);
                    }
                }
            }
            return None;
        }
    }
    assert(ds.take(n - start) =~= ds);
    if negative {
        Some((-acc) as i64)
    } else {
        Some(acc as i64)
    }
}

/// The decimal digits of `n`, most significant first, without sign.
pub open spec fn digits_text(n: nat) -> Seq<char>
    decreases n,
{
    if n < 10 {
        seq![((n + 48) as char)]
    } else {
        digits_text(n / 10).push(((n % 10 + 48) as char))
    }
}

/// `n` written in decimal, as `i64::to_string` writes it.
pub open spec fn i64_text(n: int) -> Seq<char> {
    if n < 0 {
        seq!['-'] + digits_text((-n) as nat)
    } else {
        digits_text(n as nat)
    }
}

fn digit_char(d: u64) -> (c: char)
    requires
        d < 10,
    ensures
        c == ((d + 48) as char),
{
    match d {
        0 => '0',
        1 => '1',
        2 => '2',
        3 => '3',
        4 => '4',
        5 => '5',
        6 => '6',
        7 => '7',
        8 => '8',
        _ => '9',
    }
}

fn push_digits(m: u64, out: &mut Vec<char>)
    ensures
        final(out)@ == old(out)@ + digits_text(m as nat),
    decreases m,
{
    if m >= 10 {
        push_digits(m / 10, out);
    }
    out.push(digit_char(m % 10));
    assert(out@ =~= old(out)@ + digits_text(m as nat));
}

/// `n` written in decimal.
pub fn decimal_text(n: i64) -> (r: Vec<char>)
    ensures
        r@ == i64_text(n as int),
{
    let mut out: Vec<char> = Vec::new();
    if n < 0 {
        out.push('-');
        let m: u64 = (-(n as i128)) as u64;
        push_digits(m, &mut out);
        assert(out@ =~= seq!['-'] + digits_text((-n) as nat));
    } else {
        push_digits(n as u64, &mut out);
        assert(out@ =~= digits_text(n as nat));
    }
    out
}

/// The decimal digits of `m` are ASCII digits, at least one, and they read
/// back as `m`.
pub proof fn lemma_digits_text(m: nat)
    ensures
        digits_text(m).len() > 0,
        all_digits(digits_text(m)),
        decimal_value(digits_text(m)) == m,
    decreases m,
{
    let d = digits_text(m);
    assert(('0' as int) == 48);
    if m < 10 {
        assert(d.drop_last() =~= Seq::<char>::empty());
        assert(d.last() as int == m + 48);
        assert(decimal_value(d) == decimal_value(d.drop_last()) * 10 + (d.last() as int - '0' as int));
    } else {
        lemma_digits_text(m / 10);
        let p = digits_text(m / 10);
        assert(d.drop_last() =~= p);
        assert(d.last() as int == m % 10 + 48);
        assert forall|k: int| 0 <= k < d.len() implies is_ascii_digit(#[trigger] d[k]) by {
            if k < p.len() {
                assert(d[k] == p[k]);
            }
        }
        assert(m == (m / 10) * 10 + m % 10);
        assert(decimal_value(d) == decimal_value(p) * 10 + (d.last() as int - '0' as int));
    }
}

/// Reading back what is written: `str::parse::<i64>` gives `n` back from
/// the decimal text of `n`, for every `i64`.
pub proof fn lemma_parse_i64_text(n: i64)
    ensures
        parse_i64(i64_text(n as int)) == Some(n),
{
    let t = i64_text(n as int);
    if n < 0 {
        let m = (-(n as int)) as nat;
        lemma_digits_text(m);
        assert(t.drop_first() =~= digits_text(m));
    } else {
        lemma_digits_text(n as nat);
        assert(is_ascii_digit(t[0]));
    }
}

/// The decimal text of a number holds only ASCII digits and `-`.
pub proof fn lemma_i64_text_chars(n: int)
    ensures
        forall|k: int|
            0 <= k < i64_text(n).len() ==> is_ascii_digit(#[trigger] i64_text(n)[k]) || i64_text(
                n,
            )[k] == '-',
{
    let t = i64_text(n);
    if n < 0 {
        lemma_digits_text((-n) as nat);
        assert forall|k: int| 0 <= k < t.len() implies is_ascii_digit(#[trigger] t[k]) || t[k]
            == '-' by {
            if k > 0 {
                assert(t[k] == digits_text((-n) as nat)[k - 1]);
            }
        }
    } else {
        lemma_digits_text(n as nat);
    }
}

/// Replacing a character works piece by piece.
pub proof fn lemma_replace_char_concat(a: Seq<char>, b: Seq<char>, c: char, by: Seq<char>)
    ensures
        replace_char(a + b, c, by) == replace_char(a, c, by) + replace_char(b, c, by),
    decreases b.len(),
{
    if b.len() == 0 {
        assert(a + b =~= a);
        assert(replace_char(a, c, by) + replace_char(b, c, by) =~= replace_char(a, c, by));
    } else {
        lemma_replace_char_concat(a, b.drop_last(), c, by);
        assert((a + b).drop_last() =~= a + b.drop_last());
        assert((a + b).last() == b.last());
        let tail = if b.last() == c {
            by
        } else {
            seq![b.last()]
        };
        assert(replace_char(a, c, by) + replace_char(b.drop_last(), c, by) + tail =~= replace_char(
            a,
            c,
            by,
        ) + (replace_char(b.drop_last(), c, by) + tail));
    }
}

/// Replacing a character that does not occur changes nothing.
pub proof fn lemma_replace_char_absent(s: Seq<char>, c: char, by: Seq<char>)
    requires
        forall|k: int| 0 <= k < s.len() ==> #[trigger] s[k] != c,
    ensures
        replace_char(s, c, by) == s,
    decreases s.len(),
{
    if s.len() > 0 {
        assert forall|k: int| 0 <= k < s.drop_last().len() implies #[trigger] s.drop_last()[k] != c by {
            assert(s.drop_last()[k] == s[k]);
        }
        lemma_replace_char_absent(s.drop_last(), c, by);
        assert(s[s.len() - 1] != c);
        assert(s.drop_last() + seq![s.last()] =~= s);
    }
}

/// A text without the separator is one piece.
pub proof fn lemma_split_char_single(s: Seq<char>, sep: char)
    requires
        forall|k: int| 0 <= k < s.len() ==> #[trigger] s[k] != sep,
    ensures
        split_char(s, sep) == seq![s],
    decreases s.len(),
{
    if s.len() > 0 {
        assert forall|k: int| 0 <= k < s.drop_last().len() implies #[trigger] s.drop_last()[k] != sep by {
            assert(s.drop_last()[k] == s[k]);
        }
        lemma_split_char_single(s.drop_last(), sep);
        assert(s[s.len() - 1] != sep);
        assert(s.drop_last().push(s.last()) =~= s);
        let r = split_char(s.drop_last(), sep);
        assert(r.len() == 1 && r.last() == s.drop_last());
        assert(r.update(0, s.drop_last().push(s.last())) =~= seq![s]);
    } else {
        assert(s =~= Seq::<char>::empty());
    }
}

/// A separator between two texts splits them apart: the pieces of the whole
/// are the pieces of the first followed by those of the second.
pub proof fn lemma_split_char_concat(x: Seq<char>, y: Seq<char>, sep: char)
    ensures
        split_char(x + seq![sep] + y, sep) == split_char(x, sep) + split_char(y, sep),
    decreases y.len(),
{
    let z = x + seq![sep] + y;
    lemma_split_char_nonempty(x, sep);
    if y.len() == 0 {
        assert(z.drop_last() =~= x);
        assert(split_char(x, sep).push(Seq::<char>::empty()) =~= split_char(x, sep) + split_char(
            y,
            sep,
        ));
    } else {
        lemma_split_char_concat(x, y.drop_last(), sep);
        lemma_split_char_nonempty(y.drop_last(), sep);
        assert(z.drop_last() =~= x + seq![sep] + y.drop_last());
        assert(z.last() == y.last());
        let a = split_char(x, sep);
        let b = split_char(y.drop_last(), sep);
        if y.last() == sep {
            assert((a + b).push(Seq::<char>::empty()) =~= a + b.push(Seq::<char>::empty()));
        } else {
            assert((a + b).update((a + b).len() - 1, (a + b).last().push(y.last())) =~= a + b.update(
                b.len() - 1,
                b.last().push(y.last()),
            ));
        }
    }
}

/// The pieces joined with `sep` between each two, as `slice::join` puts them.
pub open spec fn join(parts: Seq<Seq<char>>, sep: Seq<char>) -> Seq<char>
    decreases parts.len(),
{
    if parts.len() == 0 {
        Seq::empty()
    } else if parts.len() == 1 {
        parts[0]
    } else {
        join(parts.drop_last(), sep) + sep + parts.last()
    }
}

/// Appends the characters of `more`.
pub fn append_chars(out: &mut Vec<char>, more: &Vec<char>)
    ensures
        final(out)@ == old(out)@ + more@,
{
    let mut k: usize = 0;
    while k < more.len()
        invariant
            k <= more.len(),
            out@ == old(out)@ + more@.take(k as int),
        decreases more.len() - k,
    {
        out.push(more[k]);
        k = k + 1;
        assert(out@ =~= old(out)@ + more@.take(k as int));
    }
    assert(more@.take(k as int) =~= more@);
}

/// The pieces joined with `sep` between each two.
pub fn join_chars(parts: &Vec<Vec<char>>, sep: &Vec<char>) -> (r: Vec<char>)
    ensures
        r@ == join(views(parts@), sep@),
{
    let mut r: Vec<char> = Vec::new();
    let mut i: usize = 0;
    while i < parts.len()
        invariant
            i <= parts.len(),
            r@ == join(views(parts@).take(i as int), sep@),
        decreases parts.len() - i,
    {
        let ghost pv = views(parts@);
        assert(pv.take(i + 1).drop_last() =~= pv.take(i as int));
        if i > 0 {
            append_chars(&mut r, sep);
        }
        append_chars(&mut r, &parts[i]);
        i = i + 1;
        assert(r@ =~= join(pv.take(i as int), sep@));
    }
    assert(views(parts@).take(i as int) =~= views(parts@));
    r
}


/// The character sequences that a list of strings holds.
pub open spec fn string_views(v: Seq<String>) -> Seq<Seq<char>> {
    Seq::new(v.len(), |i: int| v[i]@)
}

/// The text that an optional string holds.
pub open spec fn opt_text(o: Option<String>) -> Option<Seq<char>> {
    match o {
        Some(s) => Some(s@),
        None => None,
    }
}

/// The items of `s` in their order, each kept at its first occurrence only.
pub open spec fn dedup<A>(s: Seq<A>) -> Seq<A>
    decreases s.len(),
{
    if s.len() == 0 {
        s
    } else {
        let r = dedup(s.drop_last());
        if r.contains(s.last()) {
            r
        } else {
            r.push(s.last())
        }
    }
}

proof fn lemma_push_contains<A>(s: Seq<A>, a: A, x: A)
    ensures
        s.push(a).contains(x) <==> (s.contains(x) || x == a),
{
    if s.contains(x) {
        let k = choose|k: int| 0 <= k < s.len() && s[k] == x;
        assert(s.push(a)[k] == x);
    }
    if x == a {
        assert(s.push(a)[s.len() as int] == x);
    }
    if s.push(a).contains(x) {
        let k = choose|k: int| 0 <= k < s.push(a).len() && s.push(a)[k] == x;
        if k < s.len() {
            assert(s[k] == x);
        }
    }
}

/// What `dedup` keeps is exactly what the sequence holds, and nothing twice.
pub proof fn lemma_dedup<A>(s: Seq<A>)
    ensures
        forall|x: A| #[trigger] dedup(s).contains(x) <==> s.contains(x),
        dedup(s).no_duplicates(),
        dedup(s).len() <= s.len(),
    decreases s.len(),
{
    if s.len() > 0 {
        let p = s.drop_last();
        let a = s.last();
        let r = dedup(p);
        lemma_dedup(p);
        assert(s =~= p.push(a));
        assert forall|x: A| #[trigger] dedup(s).contains(x) <==> s.contains(x) by {
            lemma_push_contains(p, a, x);
            lemma_push_contains(r, a, x);
        }
        if !r.contains(a) {
            assert forall|i: int, j: int|
                0 <= i < r.push(a).len() && 0 <= j < r.push(a).len() && i != j implies r.push(a)[i]
                != r.push(a)[j] by {
                if i < r.len() && j < r.len() {
                    assert(r[i] != r[j]);
                } else if i < r.len() {
                    assert(r.contains(r[i]));
                } else if j < r.len() {
                    assert(r.contains(r[j]));
                }
            }
        }
    }
}

/// The strings of `v` without repeats, first occurrences first.
pub fn unique_strings(v: &Vec<String>) -> (r: Vec<String>)
    ensures
        string_views(r@) == dedup(string_views(v@)),
{
    let mut r: Vec<String> = Vec::new();
    let mut i: usize = 0;
    while i < v.len()
        invariant
            i <= v.len(),
            string_views(r@) == dedup(string_views(v@).take(i as int)),
        decreases v.len() - i,
    {
        let ghost sv = string_views(v@);
        assert(sv.take(i + 1).drop_last() =~= sv.take(i as int));
        assert(sv.take(i + 1).last() == v@[i as int]@);
        let mut seen = false;
        let mut k: usize = 0;
        while k < r.len()
            invariant
                i < v.len(),
                k <= r.len(),
                seen == (exists|j: int| 0 <= j < k && r@[j]@ == v@[i as int]@),
            decreases r.len() - k,
        {
            if r[k] == v[i] {
                seen = true;
            }
            k = k + 1;
        }
        assert(seen == string_views(r@).contains(v@[i as int]@)) by {
            if seen {
                let j = choose|j: int| 0 <= j < k && r@[j]@ == v@[i as int]@;
                assert(string_views(r@)[j] == v@[i as int]@);
            }
            if string_views(r@).contains(v@[i as int]@) {
                let j = choose|j: int|
                    0 <= j < string_views(r@).len() && string_views(r@)[j] == v@[i as int]@;
                assert(r@[j]@ == v@[i as int]@);
            }
        }
        if !seen {
            let ghost before = string_views(r@);
            r.push(v[i].clone());
            assert(string_views(r@) =~= before.push(v@[i as int]@));
        }
        i = i + 1;
    }
    assert(string_views(v@).take(i as int) =~= string_views(v@));
    r
}


/// A fresh vector with the same characters.
pub fn copy_chars(v: &Vec<char>) -> (r: Vec<char>)
    ensures
        r@ == v@,
{
    let mut r: Vec<char> = Vec::new();
    let mut i: usize = 0;
    while i < v.len()
        invariant
            i <= v.len(),
            r@ == v@.take(i as int),
        decreases v.len() - i,
    {
        r.push(v[i]);
        i = i + 1;
        assert(r@ =~= v@.take(i as int));
    }
    assert(v@.take(i as int) =~= v@);
    r
}

/// A fresh list with the same strings.
pub fn copy_strings(v: &Vec<String>) -> (r: Vec<String>)
    ensures
        string_views(r@) == string_views(v@),
{
    let mut r: Vec<String> = Vec::new();
    let mut i: usize = 0;
    while i < v.len()
        invariant
            i <= v.len(),
            string_views(r@) == string_views(v@).take(i as int),
        decreases v.len() - i,
    {
        let ghost before = string_views(r@);
        r.push(v[i].clone());
        assert(string_views(r@) =~= before.push(v@[i as int]@));
        i = i + 1;
        assert(string_views(r@) =~= string_views(v@).take(i as int));
    }
    assert(string_views(v@).take(i as int) =~= string_views(v@));
    r
}

/// A fresh copy of an optional string.
pub fn copy_opt_string(o: &Option<String>) -> (r: Option<String>)
    ensures
        opt_text(r) == opt_text(*o),
{
    match o {
        Some(s) => Some(s.clone()),
        None => None,
    }
}


/// A line without the carriage return that ends it, if one does.
pub open spec fn strip_cr(l: Seq<char>) -> Seq<char> {
    if l.len() > 0 && l.last() == '\r' {
        l.drop_last()
    } else {
        l
    }
}

/// The lines of `s`, as `str::lines` yields them: split at `\n`, a `\r`
/// before a `\n` removed, no empty line after a final `\n`.
pub open spec fn text_lines(s: Seq<char>) -> Seq<Seq<char>> {
    let ps = split_char(s, '\n');
    let ended = ps.drop_last();
    let body = Seq::new(ended.len(), |i: int| strip_cr(ended[i]));
    if ps.last().len() == 0 {
        body
    } else {
        body.push(ps.last())
    }
}

/// The lines of `s`.
pub fn lines_of(s: &str) -> (r: Vec<Vec<char>>)
    ensures
        views(r@) == text_lines(s@),
{
    let cs = chars_of(s);
    let ps = split_on(&cs, '\n');
    proof {
        lemma_split_char_nonempty(s@, '\n');
    }
    let ghost pv = views(ps@);
    let ghost ended = pv.drop_last();
    let n = ps.len() - 1;
    let mut r: Vec<Vec<char>> = Vec::new();
    let mut i: usize = 0;
    while i < n
        invariant
            n + 1 == ps.len(),
            i <= n,
            pv == views(ps@),
            ended == pv.drop_last(),
            views(r@) == Seq::new(i as nat, |k: int| strip_cr(ended[k])),
        decreases n - i,
    {
        let l = &ps[i];
        assert(ended[i as int] == l@);
        let ghost before = views(r@);
        let m = l.len();
        if m > 0 && l[m - 1] == '\r' {
            let c = copy_prefix(l, m - 1);
            assert(c@ =~= strip_cr(l@));
            r.push(c);
        } else {
            let c = copy_chars(l);
            assert(c@ == strip_cr(l@));
            r.push(c);
        }
        assert(views(r@) =~= before.push(strip_cr(ended[i as int])));
        i = i + 1;
        assert(views(r@) =~= Seq::new(i as nat, |k: int| strip_cr(ended[k])));
    }
    let last = &ps[n];
    assert(pv.last() == last@);
    if last.len() > 0 {
        let ghost before = views(r@);
        r.push(copy_chars(last));
        assert(views(r@) =~= before.push(last@));
    }
    assert(Seq::new(n as nat, |k: int| strip_cr(ended[k])) =~= Seq::new(ended.len(), |k: int| strip_cr(ended[k])));
    r
}

/// The first `k` characters, copied.
pub fn copy_prefix(v: &Vec<char>, k: usize) -> (r: Vec<char>)
    requires
        k <= v.len(),
    ensures
        r@ == v@.take(k as int),
{
    let mut r: Vec<char> = Vec::new();
    let mut i: usize = 0;
    while i < k
        invariant
            k <= v.len(),
            i <= k,
            r@ == v@.take(i as int),
        decreases k - i,
    {
        r.push(v[i]);
        i = i + 1;
        assert(r@ =~= v@.take(i as int));
    }
    r
}

/// `s` with every occurrence of `pat` replaced by `by`, the occurrences
/// taken from the left without overlap, as `str::replace` with a string
/// pattern produces it.
pub open spec fn replace_text(s: Seq<char>, pat: Seq<char>, by: Seq<char>) -> Seq<char>
    decreases s.len(),
{
    if s.len() == 0 || pat.len() == 0 {
        s
    } else if starts_with(s, pat) {
        by + replace_text(s.subrange(pat.len() as int, s.len() as int), pat, by)
    } else {
        seq![s[0]] + replace_text(s.drop_first(), pat, by)
    }
}

/// `s` with every occurrence of `pat` replaced by `by`.
pub fn replace_all(s: &Vec<char>, pat: &Vec<char>, by: &Vec<char>) -> (r: Vec<char>)
    requires
        pat.len() > 0,
    ensures
        r@ == replace_text(s@, pat@, by@),
{
    let mut r: Vec<char> = Vec::new();
    let mut i: usize = 0;
    assert(s@.subrange(0, s@.len() as int) =~= s@);
    assert(r@ + replace_text(s@, pat@, by@) =~= replace_text(s@, pat@, by@));
    while i < s.len()
        invariant
            pat.len() > 0,
            i <= s.len(),
            replace_text(s@, pat@, by@) == r@ + replace_text(
                s@.subrange(i as int, s@.len() as int),
                pat@,
                by@,
            ),
        decreases s.len() - i,
    {
        let ghost rest = s@.subrange(i as int, s@.len() as int);
        let ghost before = r@;
        let fits = pat.len() <= s.len() - i;
        if fits && matches_at(s, pat, i) {
            assert(starts_with(rest, pat@)) by {
                assert(rest.subrange(0, pat@.len() as int) =~= s@.subrange(i as int, i + pat@.len()));
            }
            assert(rest.subrange(pat@.len() as int, rest.len() as int) =~= s@.subrange(
                i + pat@.len(),
                s@.len() as int,
            ));
            append_chars(&mut r, by);
            i = i + pat.len();
        } else {
            assert(!starts_with(rest, pat@)) by {
                if starts_with(rest, pat@) {
                    assert(rest.subrange(0, pat@.len() as int) =~= s@.subrange(i as int, i + pat@.len()));
                }
            }
            assert(rest.drop_first() =~= s@.subrange(i + 1, s@.len() as int));
            assert(rest[0] == s@[i as int]);
            r.push(s[i]);
            i = i + 1;
        }
        assert(before + (r@.subrange(before.len() as int, r@.len() as int)) =~= r@);
    }
    assert(s@.subrange(i as int, s@.len() as int) =~= Seq::<char>::empty());
    assert(r@ + Seq::<char>::empty() =~= r@);
    r
}

} // verus!
