//! The home directory of the user, told from the working directories of the
//! processes: the `/Users/<name>` or `/home/<name>` that most of them are in.
use vstd::prelude::*;
use crate::text::{chars_of, has_prefix, opt_text, starts_with, string_from_range, string_views};

verus! {

/// The base of home directories on macOS.
pub open spec fn users_dir() -> Seq<char> {
    seq!['/', 'U', 's', 'e', 'r', 's', '/']
}

/// The base of home directories on Linux.
pub open spec fn home_dir() -> Seq<char> {
    seq!['/', 'h', 'o', 'm', 'e', '/']
}

/// How many characters other than `/` follow one another in `s` from `k` on.
pub open spec fn non_slash_run(s: Seq<char>, k: int) -> nat
    decreases s.len() - k,
{
    if 0 <= k < s.len() && s[k] != '/' {
        1 + non_slash_run(s, k + 1)
    } else {
        0
    }
}

proof fn lemma_non_slash_run_bound(s: Seq<char>, k: int)
    requires
        0 <= k <= s.len(),
    ensures
        k + non_slash_run(s, k) <= s.len(),
        forall|j: int| k <= j < k + non_slash_run(s, k) ==> s[j] != '/',
    decreases s.len() - k,
{
    if k < s.len() && s[k] != '/' {
        lemma_non_slash_run_bound(s, k + 1);
    }
}

/// The length of the directory prefix that a home path begins with.
pub open spec fn home_base_len(cwd: Seq<char>) -> int {
    if starts_with(cwd, users_dir()) {
        7
    } else if starts_with(cwd, home_dir()) {
        6
    } else {
        -1
    }
}

/// The home directory that `cwd` lies in: `/Users/` or `/home/` followed by
/// at least one character other than `/`, taken as far as the next `/`, at
/// the very start of the path.
pub open spec fn home_of(cwd: Seq<char>) -> Option<Seq<char>> {
    let k = home_base_len(cwd);
    if k >= 0 && non_slash_run(cwd, k) > 0 {
        Some(cwd.take(k + non_slash_run(cwd, k)))
    } else {
        None
    }
}

/// The home directories of the paths that lie in one, in their order.
pub open spec fn homes_of(cwds: Seq<Seq<char>>) -> Seq<Seq<char>>
    decreases cwds.len(),
{
    if cwds.len() == 0 {
        Seq::empty()
    } else {
        match home_of(cwds.last()) {
            Some(h) => homes_of(cwds.drop_last()).push(h),
            None => homes_of(cwds.drop_last()),
        }
    }
}

/// How often `x` occurs in `items`.
pub open spec fn count_in(items: Seq<Seq<char>>, x: Seq<char>) -> nat
    decreases items.len(),
{
    if items.len() == 0 {
        0
    } else {
        count_in(items.drop_last(), x) + if items.last() == x {
            1nat
        } else {
            0nat
        }
    }
}

/// `items[i]` occurs at least as often as any item, and more often than
/// every item before position `i`.
pub open spec fn is_first_most_frequent(items: Seq<Seq<char>>, i: int) -> bool {
    &&& 0 <= i < items.len()
    &&& forall|j: int|
        0 <= j < items.len() ==> count_in(items, #[trigger] items[j]) <= count_in(items, items[i])
    &&& forall|j: int| 0 <= j < i ==> count_in(items, #[trigger] items[j]) < count_in(items, items[i])
}

/// The item that occurs most often; among items that occur equally often,
/// the one seen first.
pub open spec fn most_frequent_of(items: Seq<Seq<char>>) -> Option<Seq<char>> {
    if items.len() == 0 {
        None
    } else {
        Some(items[choose|i: int| is_first_most_frequent(items, i)])
    }
}

/// The home directory that `detect_home_prefix` settles on.
pub open spec fn home_prefix(cwds: Seq<Seq<char>>) -> Option<Seq<char>> {
    most_frequent_of(homes_of(cwds))
}

proof fn lemma_first_most_frequent_unique(items: Seq<Seq<char>>, i: int, k: int)
    requires
        is_first_most_frequent(items, i),
        is_first_most_frequent(items, k),
    ensures
        i == k,
{
    if k < i {
        assert(count_in(items, items[k]) < count_in(items, items[i]));
        assert(count_in(items, items[i]) <= count_in(items, items[k]));
    } else if i < k {
        assert(count_in(items, items[i]) < count_in(items, items[k]));
        assert(count_in(items, items[k]) <= count_in(items, items[i]));
    }
}

fn count_exec(items: &Vec<String>, x: &String) -> (c: usize)
    ensures
        c == count_in(string_views(items@), x@),
{
    let ghost sv = string_views(items@);
    let mut c: usize = 0;
    let mut k: usize = 0;
    while k < items.len()
        invariant
            k <= items.len(),
            sv == string_views(items@),
            c == count_in(sv.take(k as int), x@),
            c <= k,
        decreases items.len() - k,
    {
        assert(sv.take(k + 1).drop_last() =~= sv.take(k as int));
        assert(sv.take(k + 1).last() == items@[k as int]@);
        if items[k] == *x {
            c = c + 1;
        }
        k = k + 1;
    }
    assert(sv.take(k as int) =~= sv);
    c
}

/// The item that occurs most often, the first seen among equally frequent
/// ones; `None` for no items.
pub fn most_frequent(items: Vec<String>) -> (r: Option<String>)
    ensures
        opt_text(r) == most_frequent_of(string_views(items@)),
        r is None <==> items.len() == 0,
{
    let ghost sv = string_views(items@);
    if items.len() == 0 {
        return None;
    }
    let mut best: usize = 0;
    let mut best_count = count_exec(&items, &items[0]);
    let mut i: usize = 1;
    while i < items.len()
        invariant
            1 <= i <= items.len(),
            sv == string_views(items@),
            best < i,
            best_count == count_in(sv, sv[best as int]),
            forall|j: int| 0 <= j < i ==> count_in(sv, #[trigger] sv[j]) <= best_count,
            forall|j: int| 0 <= j < best ==> count_in(sv, #[trigger] sv[j]) < best_count,
        decreases items.len() - i,
    {
        let c = count_exec(&items, &items[i]);
        assert(sv[i as int] == items@[i as int]@);
        if c > best_count {
            best = i;
            best_count = c;
        }
        i = i + 1;
    }
    assert(is_first_most_frequent(sv, best as int));
    proof {
        let k = choose|k: int| is_first_most_frequent(sv, k);
        lemma_first_most_frequent_unique(sv, best as int, k);
    }
    assert(sv[best as int] == items@[best as int]@);
    Some(items[best].clone())
}

/// The home directory of one path, if it lies in one.
pub fn home_of_path(cwd: &String) -> (r: Option<String>)
    ensures
        opt_text(r) == home_of(cwd@),
{
    let cs = chars_of(cwd.as_str());
    let users = vec!['/', 'U', 's', 'e', 'r', 's', '/'];
    let home = vec!['/', 'h', 'o', 'm', 'e', '/'];
    assert(users@ == users_dir());
    assert(home@ == home_dir());
    let k: usize = if has_prefix(&cs, &users) {
        7
    } else if has_prefix(&cs, &home) {
        6
    } else {
        return None;
    };
    assert(k as int == home_base_len(cwd@));
    let mut j: usize = k;
    while j < cs.len() && cs[j] != '/'
        invariant
            k <= j <= cs.len(),
            cs@ == cwd@,
            non_slash_run(cs@, k as int) == (j - k) + non_slash_run(cs@, j as int),
        decreases cs.len() - j,
    {
        j = j + 1;
    }
    if j == k {
        return None;
    }
    assert(cs@.subrange(0, j as int) =~= cs@.take(j as int));
    Some(string_from_range(&cs, 0, j))
}

/// The home directory that most of the given working directories lie in
/// (`/Users/<name>` or `/home/<name>`), the first seen among equally frequent
/// ones; `None` where none lies in one.
pub fn detect_home_prefix(cwds: Vec<String>) -> (r: Option<String>)
    ensures
        opt_text(r) == home_prefix(string_views(cwds@)),
{
    let ghost sv = string_views(cwds@);
    let mut homes: Vec<String> = Vec::new();
    let mut i: usize = 0;
    while i < cwds.len()
        invariant
            i <= cwds.len(),
            sv == string_views(cwds@),
            string_views(homes@) == homes_of(sv.take(i as int)),
        decreases cwds.len() - i,
    {
        assert(sv.take(i + 1).drop_last() =~= sv.take(i as int));
        assert(sv.take(i + 1).last() == cwds@[i as int]@);
        let ghost before = string_views(homes@);
        match home_of_path(&cwds[i]) {
            Some(h) => {
                homes.push(h);
                assert(string_views(homes@) =~= before.push(home_of(cwds@[i as int]@)->0));
            },
            None => {},
        }
        i = i + 1;
    }
    assert(sv.take(i as int) =~= sv);
    most_frequent(homes)
}

/// A home directory is where the path it was read from begins, and it lies
/// under `/Users/` or `/home/`.
pub proof fn lemma_home_of_is_prefix(cwd: Seq<char>)
    ensures
        home_of(cwd) matches Some(h) ==> {
            &&& starts_with(cwd, h)
            &&& starts_with(h, users_dir()) || starts_with(h, home_dir())
        },
{
    if let Some(h) = home_of(cwd) {
        let k = home_base_len(cwd);
        lemma_non_slash_run_bound(cwd, k);
        assert(cwd.subrange(0, h.len() as int) =~= h);
        if k == 7 {
            assert(h.subrange(0, 7) =~= cwd.subrange(0, 7));
        } else {
            assert(h.subrange(0, 6) =~= cwd.subrange(0, 6));
        }
    }
}

proof fn lemma_homes_come_from_cwds(cwds: Seq<Seq<char>>, h: Seq<char>)
    requires
        homes_of(cwds).contains(h),
    ensures
        exists|i: int| 0 <= i < cwds.len() && home_of(#[trigger] cwds[i]) == Some(h),
    decreases cwds.len(),
{
    let p = cwds.drop_last();
    match home_of(cwds.last()) {
        Some(x) => {
            if x == h {
                assert(home_of(cwds[cwds.len() - 1]) == Some(h));
            } else {
                let k = choose|k: int| 0 <= k < homes_of(cwds).len() && homes_of(cwds)[k] == h;
                assert(homes_of(p)[k] == h);
                lemma_homes_come_from_cwds(p, h);
                let i = choose|i: int| 0 <= i < p.len() && home_of(#[trigger] p[i]) == Some(h);
                assert(cwds[i] == p[i]);
            }
        },
        None => {
            lemma_homes_come_from_cwds(p, h);
            let i = choose|i: int| 0 <= i < p.len() && home_of(#[trigger] p[i]) == Some(h);
            assert(cwds[i] == p[i]);
        },
    }
}

proof fn lemma_count_positive(items: Seq<Seq<char>>, g: Seq<char>)
    requires
        count_in(items, g) > 0,
    ensures
        items.contains(g),
    decreases items.len(),
{
    let p = items.drop_last();
    if items.last() == g {
        assert(items[items.len() - 1] == g);
    } else {
        lemma_count_positive(p, g);
        let k = choose|k: int| 0 <= k < p.len() && p[k] == g;
        assert(items[k] == g);
    }
}

/// The index that a scan from the front keeps as the most frequent so far.
spec fn best_upto(items: Seq<Seq<char>>, n: int) -> int
    decreases n,
{
    if n <= 1 {
        0
    } else {
        let b = best_upto(items, n - 1);
        if count_in(items, items[n - 1]) > count_in(items, items[b]) {
            n - 1
        } else {
            b
        }
    }
}

proof fn lemma_best_upto(items: Seq<Seq<char>>, n: int)
    requires
        1 <= n <= items.len(),
    ensures
        0 <= best_upto(items, n) < n,
        forall|j: int|
            0 <= j < n ==> count_in(items, #[trigger] items[j]) <= count_in(
                items,
                items[best_upto(items, n)],
            ),
        forall|j: int|
            0 <= j < best_upto(items, n) ==> count_in(items, #[trigger] items[j]) < count_in(
                items,
                items[best_upto(items, n)],
            ),
    decreases n,
{
    if n > 1 {
        lemma_best_upto(items, n - 1);
    }
}

proof fn lemma_first_most_frequent_exists(items: Seq<Seq<char>>)
    requires
        items.len() > 0,
    ensures
        is_first_most_frequent(items, choose|i: int| is_first_most_frequent(items, i)),
{
    lemma_best_upto(items, items.len() as int);
    assert(is_first_most_frequent(items, best_upto(items, items.len() as int)));
}

proof fn lemma_homes_empty(cwds: Seq<Seq<char>>)
    ensures
        homes_of(cwds).len() == 0 <==> forall|i: int|
            0 <= i < cwds.len() ==> home_of(#[trigger] cwds[i]) is None,
    decreases cwds.len(),
{
    if cwds.len() > 0 {
        let p = cwds.drop_last();
        lemma_homes_empty(p);
        if homes_of(cwds).len() == 0 {
            assert forall|i: int| 0 <= i < cwds.len() implies home_of(#[trigger] cwds[i]) is None by {
                if i < p.len() {
                    assert(cwds[i] == p[i]);
                }
            }
        } else {
            if home_of(cwds.last()) is None {
                let i = choose|i: int| 0 <= i < p.len() && home_of(#[trigger] p[i]) is Some;
                assert(cwds[i] == p[i]);
            } else {
                assert(home_of(cwds[cwds.len() - 1]) is Some);
            }
        }
    }
}

/// The detected home directory is where one of the working directories
/// begins, it lies under `/Users/` or `/home/`, and no home directory is
/// shared by more of the working directories; there is none exactly when no
/// working directory lies in a home directory.
pub proof fn lemma_detected_home(cwds: Seq<Seq<char>>)
    ensures
        home_prefix(cwds) matches Some(h) ==> {
            &&& exists|i: int| 0 <= i < cwds.len() && starts_with(#[trigger] cwds[i], h)
            &&& starts_with(h, users_dir()) || starts_with(h, home_dir())
            &&& forall|g: Seq<char>|
                #[trigger] count_in(homes_of(cwds), g) <= count_in(homes_of(cwds), h)
        },
        home_prefix(cwds) is None <==> forall|i: int|
            0 <= i < cwds.len() ==> home_of(#[trigger] cwds[i]) is None,
{
    let hs = homes_of(cwds);
    lemma_homes_empty(cwds);
    if hs.len() > 0 {
        lemma_first_most_frequent_exists(hs);
        let c = choose|i: int| is_first_most_frequent(hs, i);
        let h = hs[c];
        lemma_homes_come_from_cwds(cwds, h);
        let i = choose|i: int| 0 <= i < cwds.len() && home_of(#[trigger] cwds[i]) == Some(h);
        lemma_home_of_is_prefix(cwds[i]);
        assert(starts_with(cwds[i], h));
        assert forall|g: Seq<char>| #[trigger] count_in(hs, g) <= count_in(hs, h) by {
            if count_in(hs, g) > 0 {
                lemma_count_positive(hs, g);
                let j = choose|j: int| 0 <= j < hs.len() && hs[j] == g;
                assert(count_in(hs, hs[j]) <= count_in(hs, h));
            }
        }
    }
}

} // verus!
