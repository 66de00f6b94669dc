//! The rules of the terminal view: which entries it shows, how the keys
//! move the selection, filter the listing and ask for a process to be
//! killed. The terminal, the threads and the clock stay with the caller,
//! which performs the `Effect` that a key asks for and reports back.
use vstd::prelude::*;
use crate::home::{detect_home_prefix, home_prefix};
use crate::ports::{entry_views, opt_entry, EntryView, PortEntry};
use crate::text::{
    append_chars, chars_of, contains_chars, contains_text, decimal_text, has_prefix, i64_text, join,
    join_chars, occurs_at, opt_text, replace_char, replace_chars, starts_with, string_from, string_views, views,
};
use crate::windows::windows_home_prefix;

verus! {

/// `str::to_lowercase`: the Unicode lowercase mapping of the text.
pub uninterp spec fn lowercase(s: Seq<char>) -> Seq<char>;

/// Whether every character of the text is ASCII.
pub open spec fn is_ascii_text(s: Seq<char>) -> bool {
    forall|i: int| 0 <= i < s.len() ==> (#[trigger] s[i] as int) < 128
}

/// `A` to `Z` become `a` to `z`; every other character stays.
pub open spec fn ascii_lower_char(c: char) -> char {
    if 65 <= (c as int) <= 90 {
        ((c as int) + 32) as char
    } else {
        c
    }
}

/// The text with each ASCII capital letter made small.
pub open spec fn ascii_lower(s: Seq<char>) -> Seq<char> {
    Seq::new(s.len(), |i: int| ascii_lower_char(s[i]))
}

/// The lowercase of a text as `str::to_lowercase` gives it, with the ASCII
/// case written out: there each capital letter becomes its small letter and
/// nothing else changes.
pub open spec fn lower_text(s: Seq<char>) -> Seq<char> {
    if is_ascii_text(s) {
        ascii_lower(s)
    } else {
        lowercase(s)
    }
}

/// Calls `str::to_lowercase`; what it gives back is named `lowercase`. On
/// ASCII text the Unicode lowercase mapping takes `A` to `Z` to `a` to `z`
/// and leaves every other character as it is, which the second clause says;
/// beyond ASCII nothing more than the name is claimed.
#[verifier::external_body]
fn to_lowercase(s: &str) -> (r: String)
    ensures
        r@ == lowercase(s@),
        is_ascii_text(s@) ==> r@ == ascii_lower(s@),
{
    s.to_lowercase()
}

/// A key as the view reads it.
#[derive(Debug, Clone, Copy)]
pub enum Key {
    Char(char),
    Esc,
    Enter,
    Backspace,
    Up,
    Down,
    Other,
}

/// A key press, with whether the control key was held.
#[derive(Debug, Clone, Copy)]
pub struct KeyPress {
    pub key: Key,
    pub ctrl: bool,
}

/// What the caller is to do after a key.
#[derive(Debug)]
pub enum Effect {
    /// Leave the view.
    Quit,
    /// Nothing beyond the new state.
    Continue,
    /// Start scanning the ports in the background, then call
    /// `finish_refresh` with what it found.
    StartRefresh,
    /// Kill this process, then call `finish_kill` with whether that worked.
    Kill(i64),
    /// Open this URL in the browser, then call `finish_open`.
    Open(String),
}

/// An `Effect` as the contracts see it.
pub enum EffectView {
    Quit,
    Continue,
    StartRefresh,
    Kill(i64),
    Open(Seq<char>),
}

impl View for Effect {
    type V = EffectView;

    open spec fn view(&self) -> EffectView {
        match self {
            Effect::Quit => EffectView::Quit,
            Effect::Continue => EffectView::Continue,
            Effect::StartRefresh => EffectView::StartRefresh,
            Effect::Kill(p) => EffectView::Kill(*p),
            Effect::Open(u) => EffectView::Open(u@),
        }
    }
}

/// The state of the terminal view.
pub struct AppState {
    /// The listing from the last scan.
    pub entries: Vec<PortEntry>,
    /// The selected row among the shown entries.
    pub selected: Option<usize>,
    /// The filter text.
    pub filter: String,
    /// Whether keys go to the filter text.
    pub filtering: bool,
    /// Whether processes outside the user's home directory are shown too.
    pub show_all: bool,
    /// The entry whose kill waits for a yes.
    pub confirm_kill: Option<PortEntry>,
    /// The last status message.
    pub status_message: Option<String>,
    /// Counts the status messages set, so that the caller can time each one.
    pub status_serial: u64,
    /// Whether a scan runs in the background.
    pub refreshing: bool,
    /// Whether the running scan should say "Refreshed" when it ends.
    pub show_refreshed_status: bool,
    /// Whether home directories have the Windows form `C:\Users\<name>`
    /// rather than `/Users/<name>` or `/home/<name>`.
    pub windows_paths: bool,
}

/// An `AppState` as the contracts see it.
pub struct AppView {
    pub entries: Seq<EntryView>,
    pub selected: Option<usize>,
    pub filter: Seq<char>,
    pub filtering: bool,
    pub show_all: bool,
    pub confirm_kill: Option<EntryView>,
    pub status: Option<Seq<char>>,
    pub status_serial: u64,
    pub refreshing: bool,
    pub show_refreshed_status: bool,
    pub windows_paths: bool,
}

impl View for AppState {
    type V = AppView;

    open spec fn view(&self) -> AppView {
        AppView {
            entries: entry_views(self.entries@),
            selected: self.selected,
            filter: self.filter@,
            filtering: self.filtering,
            show_all: self.show_all,
            confirm_kill: opt_entry(self.confirm_kill),
            status: opt_text(self.status_message),
            status_serial: self.status_serial,
            refreshing: self.refreshing,
            show_refreshed_status: self.show_refreshed_status,
            windows_paths: self.windows_paths,
        }
    }
}

/// The text, or nothing.
pub open spec fn or_empty(o: Option<Seq<char>>) -> Seq<char> {
    match o {
        Some(s) => s,
        None => Seq::empty(),
    }
}

/// The text that the filter is matched against: working directory, name,
/// command line and addresses, separated by spaces.
pub open spec fn haystack(e: EntryView) -> Seq<char> {
    or_empty(e.cwd) + seq![' '] + e.name + seq![' '] + or_empty(e.args) + seq![' '] + join(
        e.listen,
        seq![' '],
    )
}

/// The working directories of the entries that have one.
pub open spec fn cwds_of(es: Seq<EntryView>) -> Seq<Seq<char>>
    decreases es.len(),
{
    if es.len() == 0 {
        Seq::empty()
    } else {
        match es.last().cwd {
            Some(c) => cwds_of(es.drop_last()).push(c),
            None => cwds_of(es.drop_last()),
        }
    }
}

/// The home directory told from the listing.
pub open spec fn listing_home(es: Seq<EntryView>, windows_paths: bool) -> Option<Seq<char>> {
    if windows_paths {
        windows_home_prefix(cwds_of(es))
    } else {
        home_prefix(cwds_of(es))
    }
}

/// Whether an entry is shown: unless everything is shown, an entry must lie
/// in the home directory (where one was found), and its text must contain
/// the filter, both taken in lowercase.
pub open spec fn is_shown(
    e: EntryView,
    home: Option<Seq<char>>,
    show_all: bool,
    filter: Seq<char>,
) -> bool {
    &&& (show_all || home is None || (e.cwd matches Some(c) && starts_with(c, home->0)))
    &&& (filter.len() == 0 || contains_text(lower_text(haystack(e)), lower_text(filter)))
}

/// The entries of `es` that are shown, in their order.
pub open spec fn shown_among(
    es: Seq<EntryView>,
    home: Option<Seq<char>>,
    show_all: bool,
    filter: Seq<char>,
) -> Seq<EntryView>
    decreases es.len(),
{
    if es.len() == 0 {
        Seq::empty()
    } else if is_shown(es.last(), home, show_all, filter) {
        shown_among(es.drop_last(), home, show_all, filter).push(es.last())
    } else {
        shown_among(es.drop_last(), home, show_all, filter)
    }
}

/// The entries that the view shows, in the order of the listing.
pub open spec fn visible(s: AppView) -> Seq<EntryView> {
    shown_among(s.entries, listing_home(s.entries, s.windows_paths), s.show_all, s.filter)
}

/// The entry in the selected row, if a row within the shown entries is
/// selected.
pub open spec fn selected_of(s: AppView) -> Option<EntryView> {
    match s.selected {
        Some(i) => if i < visible(s).len() {
            Some(visible(s)[i as int])
        } else {
            None
        },
        None => None,
    }
}

/// The next count of status messages, wrapping around.
pub open spec fn next_serial(n: u64) -> u64 {
    if n == u64::MAX {
        0
    } else {
        (n + 1) as u64
    }
}

/// The state with a new status message.
pub open spec fn with_status(s: AppView, msg: Seq<char>) -> AppView {
    AppView { status: Some(msg), status_serial: next_serial(s.status_serial), ..s }
}

/// The key is the character `c`.
pub open spec fn is_char(k: KeyPress, c: char) -> bool {
    k.key matches Key::Char(x) && x == c
}

/// The selection one row down, kept within the shown entries; nothing
/// changes while no entry is shown.
pub open spec fn moved_down(s: AppView) -> AppView {
    let n = visible(s).len();
    if n > 0 {
        AppView {
            selected: Some(
                match s.selected {
                    Some(i) => if i + 1 <= n - 1 {
                        (i + 1) as usize
                    } else {
                        (n - 1) as usize
                    },
                    None => 0,
                },
            ),
            ..s
        }
    } else {
        s
    }
}

/// The selection one row up, stopping at the first row.
pub open spec fn moved_up(s: AppView) -> AppView {
    AppView {
        selected: Some(
            match s.selected {
                Some(i) => if i > 0 {
                    (i - 1) as usize
                } else {
                    0
                },
                None => 0,
            },
        ),
        ..s
    }
}

/// The state after asking for a scan, and whether a scan is to start: none
/// starts while one runs.
pub open spec fn refresh_started(s: AppView, announce: bool) -> (AppView, bool) {
    if s.refreshing {
        (s, false)
    } else {
        (AppView { refreshing: true, show_refreshed_status: announce, ..s }, true)
    }
}

/// The URL that an address is opened at: `*` stands for `localhost`.
pub open spec fn url_of(addr: Seq<char>) -> Seq<char> {
    "http://"@ + replace_char(addr, '*', "localhost"@)
}

/// The question asked before a kill.
pub open spec fn kill_prompt(e: EntryView) -> Seq<char> {
    "Kill "@ + e.name + " (PID "@ + i64_text(e.pid as int) + ")? y/N"@
}

/// A key while a kill waits for confirmation: `y` or `Y` asks for the kill,
/// any other key cancels it.
pub open spec fn confirm_step(s: AppView, k: KeyPress) -> (AppView, EffectView) {
    let cleared = AppView { confirm_kill: None, ..s };
    if is_char(k, 'y') || is_char(k, 'Y') {
        (cleared, EffectView::Kill(s.confirm_kill->0.pid))
    } else {
        (with_status(cleared, "Kill cancelled"@), EffectView::Continue)
    }
}

/// A key while the filter is edited: Esc or Enter close the filter,
/// Backspace removes its last character, a character is appended.
pub open spec fn filter_step(s: AppView, k: KeyPress) -> AppView {
    match k.key {
        Key::Esc => AppView { filtering: false, ..s },
        Key::Enter => AppView { filtering: false, ..s },
        Key::Backspace => if s.filter.len() > 0 {
            AppView { filter: s.filter.drop_last(), ..s }
        } else {
            s
        },
        Key::Char(c) => AppView { filter: s.filter.push(c), ..s },
        _ => s,
    }
}

/// A key in the listing itself.
pub open spec fn normal_step(s: AppView, k: KeyPress) -> (AppView, EffectView) {
    if is_char(k, 'q') || k.key is Esc || (is_char(k, 'c') && k.ctrl) {
        (s, EffectView::Quit)
    } else if is_char(k, 'j') || k.key is Down {
        (moved_down(s), EffectView::Continue)
    } else if is_char(k, 'k') || k.key is Up {
        (moved_up(s), EffectView::Continue)
    } else if is_char(k, 'r') {
        let (t, started) = refresh_started(s, true);
        (
            t,
            if started {
                EffectView::StartRefresh
            } else {
                EffectView::Continue
            },
        )
    } else if is_char(k, '/') {
        (AppView { filtering: true, ..s }, EffectView::Continue)
    } else if is_char(k, 'a') {
        let t = AppView { show_all: !s.show_all, ..s };
        (
            with_status(
                t,
                if t.show_all {
                    "Showing all processes"@
                } else {
                    "Showing user processes only"@
                },
            ),
            EffectView::Continue,
        )
    } else if is_char(k, 'o') || k.key is Enter {
        match selected_of(s) {
            Some(e) => if e.listen.len() > 0 {
                (s, EffectView::Open(url_of(e.listen[0])))
            } else {
                (s, EffectView::Continue)
            },
            None => (s, EffectView::Continue),
        }
    } else if is_char(k, 'x') {
        match selected_of(s) {
            Some(e) => (
                AppView { confirm_kill: Some(e), ..with_status(s, kill_prompt(e)) },
                EffectView::Continue,
            ),
            None => (s, EffectView::Continue),
        }
    } else {
        (s, EffectView::Continue)
    }
}

/// The key bindings: what a key does to the state, and what it asks the
/// caller to do.
pub open spec fn key_step(s: AppView, k: KeyPress) -> (AppView, EffectView) {
    if s.confirm_kill is Some {
        confirm_step(s, k)
    } else if s.filtering {
        (filter_step(s, k), EffectView::Continue)
    } else {
        normal_step(s, k)
    }
}

/// The selection after a new listing: a selection past the shown entries
/// moves to the last of them.
pub open spec fn clamped(s: AppView) -> AppView {
    let n = visible(s).len();
    match s.selected {
        Some(i) => if i >= n && n > 0 {
            AppView { selected: Some((n - 1) as usize), ..s }
        } else {
            s
        },
        None => s,
    }
}

/// The state when a background scan has ended with `found` (`None` where
/// the scan failed).
pub open spec fn refresh_finished(s: AppView, found: Option<Seq<EntryView>>) -> AppView {
    if !s.refreshing {
        s
    } else {
        let t = match found {
            Some(es) => AppView { entries: es, ..s },
            None => with_status(s, "Refresh failed"@),
        };
        let u = AppView { refreshing: false, show_refreshed_status: false, ..t };
        let v = if s.show_refreshed_status {
            with_status(u, "Refreshed"@)
        } else {
            u
        };
        clamped(v)
    }
}

/// The selection that the table is drawn with: none when nothing is shown,
/// the first row when something is shown and nothing selected.
pub open spec fn synced(s: AppView) -> AppView {
    let n = visible(s).len();
    if n == 0 && s.selected is Some {
        AppView { selected: None, ..s }
    } else if n > 0 && s.selected is None {
        AppView { selected: Some(0), ..s }
    } else {
        s
    }
}

/// The views of a list of entry references.
pub open spec fn ref_views(s: Seq<&PortEntry>) -> Seq<EntryView> {
    Seq::new(s.len(), |i: int| s[i]@)
}

fn opt_chars(o: &Option<String>) -> (r: Vec<char>)
    ensures
        r@ == or_empty(opt_text(*o)),
{
    match o {
        Some(s) => chars_of(s.as_str()),
        None => Vec::new(),
    }
}

fn haystack_of(e: &PortEntry) -> (r: Vec<char>)
    ensures
        r@ == haystack(e@),
{
    let mut out = opt_chars(&e.cwd);
    out.push(' ');
    assert(out@ =~= or_empty(e@.cwd) + seq![' ']);
    append_chars(&mut out, &chars_of(e.name.as_str()));
    out.push(' ');
    assert(out@ =~= or_empty(e@.cwd) + seq![' '] + e@.name + seq![' ']);
    append_chars(&mut out, &opt_chars(&e.args));
    out.push(' ');
    assert(out@ =~= or_empty(e@.cwd) + seq![' '] + e@.name + seq![' '] + or_empty(e@.args) + seq![' ']);
    let mut parts: Vec<Vec<char>> = Vec::new();
    let mut i: usize = 0;
    while i < e.listen.len()
        invariant
            i <= e.listen.len(),
            views(parts@) == string_views(e.listen@).take(i as int),
        decreases e.listen.len() - i,
    {
        let ghost before = views(parts@);
        parts.push(chars_of(e.listen[i].as_str()));
        assert(views(parts@) =~= before.push(e.listen@[i as int]@));
        i = i + 1;
        assert(views(parts@) =~= string_views(e.listen@).take(i as int));
    }
    assert(string_views(e.listen@).take(i as int) =~= string_views(e.listen@));
    let sep = vec![' '];
    assert(sep@ =~= seq![' ']);
    let joined = join_chars(&parts, &sep);
    assert(views(parts@) == e@.listen);
    assert(joined@ == join(e@.listen, seq![' ']));
    let ghost mid = out@;
    assert(mid == or_empty(e@.cwd) + seq![' '] + e@.name + seq![' '] + or_empty(e@.args) + seq![' ']);
    append_chars(&mut out, &joined);
    assert(out@ =~= haystack(e@));
    out
}

impl AppState {
    /// The state before the first scan; `windows_paths` tells the form of
    /// home directories.
    pub fn new(windows_paths: bool) -> (r: AppState)
        ensures
            r@ == (AppView {
                entries: Seq::empty(),
                selected: None,
                filter: Seq::empty(),
                filtering: false,
                show_all: false,
                confirm_kill: None,
                status: None,
                status_serial: 0,
                refreshing: false,
                show_refreshed_status: false,
                windows_paths,
            }),
    {
        let r = AppState {
            entries: Vec::new(),
            selected: None,
            filter: String::new(),
            filtering: false,
            show_all: false,
            confirm_kill: None,
            status_message: None,
            status_serial: 0,
            refreshing: false,
            show_refreshed_status: false,
            windows_paths,
        };
        assert(r@.entries =~= Seq::<EntryView>::empty());
        r
    }

    /// Whether a scan runs in the background.
    pub fn is_refreshing(&self) -> (r: bool)
        ensures
            r == self.refreshing,
    {
        self.refreshing
    }

    /// Sets the status message.
    pub fn set_status(&mut self, msg: String)
        ensures
            final(self)@ == with_status(old(self)@, msg@),
    {
        self.status_message = Some(msg);
        self.status_serial = if self.status_serial == u64::MAX {
            0
        } else {
            self.status_serial + 1
        };
    }

    /// Asks for a background scan; gives back whether the caller is to start
    /// one (not while one runs).
    pub fn start_refresh(&mut self, show_refreshed_status: bool) -> (started: bool)
        ensures
            (final(self)@, started) == refresh_started(old(self)@, show_refreshed_status),
    {
        if self.refreshing {
            return false;
        }
        self.refreshing = true;
        self.show_refreshed_status = show_refreshed_status;
        true
    }

    /// The home directory told from the working directories of the listing.
    pub fn detect_home(&self) -> (r: Option<String>)
        ensures
            opt_text(r) == listing_home(self@.entries, self.windows_paths),
    {
        let ghost es = self@.entries;
        let mut cwds: Vec<String> = Vec::new();
        let mut i: usize = 0;
        while i < self.entries.len()
            invariant
                i <= self.entries.len(),
                es == entry_views(self.entries@),
                string_views(cwds@) == cwds_of(es.take(i as int)),
            decreases self.entries.len() - i,
        {
            assert(es.take(i + 1).drop_last() =~= es.take(i as int));
            assert(es.take(i + 1).last() == self.entries@[i as int]@);
            let ghost before = string_views(cwds@);
            match &self.entries[i].cwd {
                Some(c) => {
                    cwds.push(c.clone());
                    assert(string_views(cwds@) =~= before.push(c@));
                },
                None => {},
            }
            i = i + 1;
        }
        assert(es.take(i as int) =~= es);
        if self.windows_paths {
            crate::windows::detect_home_prefix(cwds)
        } else {
            detect_home_prefix(cwds)
        }
    }

    /// The entries that the view shows, in the order of the listing.
    pub fn filtered_entries(&self) -> (r: Vec<&PortEntry>)
        ensures
            ref_views(r@) == visible(self@),
    {
        let ghost es = self@.entries;
        let home = self.detect_home();
        let home_chars: Option<Vec<char>> = match &home {
            Some(h) => Some(chars_of(h.as_str())),
            None => None,
        };
        let filter_chars = chars_of(self.filter.as_str());
        let query = to_lowercase(self.filter.as_str());
        let query_chars = chars_of(query.as_str());
        let mut r: Vec<&PortEntry> = Vec::new();
        let mut i: usize = 0;
        while i < self.entries.len()
            invariant
                i <= self.entries.len(),
                es == entry_views(self.entries@),
                opt_text(home) == listing_home(es, self.windows_paths),
                match home_chars {
                    Some(h) => opt_text(home) == Some(h@),
                    None => home is None,
                },
                filter_chars@ == self.filter@,
                query_chars@ == lower_text(self.filter@),
                ref_views(r@) == shown_among(es.take(i as int), listing_home(es, self.windows_paths), self.show_all, self.filter@),
            decreases self.entries.len() - i,
        {
            let e = &self.entries[i];
            assert(es.take(i + 1).drop_last() =~= es.take(i as int));
            assert(es.take(i + 1).last() == e@);
            let in_home = if self.show_all {
                true
            } else {
                match &home_chars {
                    Some(h) => match &e.cwd {
                        Some(c) => has_prefix(&chars_of(c.as_str()), h),
                        None => false,
                    },
                    None => true,
                }
            };
            let keep = if !in_home {
                false
            } else if filter_chars.len() == 0 {
                true
            } else {
                let hay = haystack_of(e);
                let lower = to_lowercase(string_from(&hay).as_str());
                contains_chars(&chars_of(lower.as_str()), &query_chars)
            };
            assert(keep == is_shown(e@, listing_home(es, self.windows_paths), self.show_all, self.filter@));
            if keep {
                let ghost before = ref_views(r@);
                r.push(e);
                assert(ref_views(r@) =~= before.push(e@));
            }
            i = i + 1;
        }
        assert(es.take(i as int) =~= es);
        r
    }

    /// The entry in the selected row, if a row within the shown entries is
    /// selected.
    pub fn selected_entry(&self) -> (r: Option<&PortEntry>)
        ensures
            match r {
                Some(e) => selected_of(self@) == Some(e@),
                None => selected_of(self@) is None,
            },
    {
        let filtered = self.filtered_entries();
        match self.selected {
            Some(i) => if i < filtered.len() {
                assert(ref_views(filtered@)[i as int] == filtered@[i as int]@);
                Some(filtered[i])
            } else {
                None
            },
            None => None,
        }
    }

    /// Handles one key, as `key_step` lays down.
    pub fn handle_key(&mut self, key: KeyPress) -> (r: Effect)
        ensures
            (final(self)@, r@) == key_step(old(self)@, key),
    {
        let ghost s = self@;
        if self.confirm_kill.is_some() {
            let pid = match &self.confirm_kill {
                Some(e) => e.pid,
                None => 0,
            };
            self.confirm_kill = None;
            let yes = match key.key {
                Key::Char(c) => c == 'y' || c == 'Y',
                _ => false,
            };
            if yes {
                return Effect::Kill(pid);
            } else {
                self.set_status(String::from_str("Kill cancelled"));
                return Effect::Continue;
            }
        }
        if self.filtering {
            match key.key {
                Key::Esc | Key::Enter => {
                    self.filtering = false;
                },
                Key::Backspace => {
                    self.filter.pop();
                },
                Key::Char(c) => {
                    self.filter.push(c);
                },
                _ => {},
            }
            return Effect::Continue;
        }
        match key.key {
            Key::Char('q') | Key::Esc => Effect::Quit,
            Key::Char('c') if key.ctrl => Effect::Quit,
            Key::Char('j') | Key::Down => {
                let len = self.filtered_entries().len();
                if len > 0 {
                    let i = match self.selected {
                        Some(i) => if i < len - 1 {
                            i + 1
                        } else {
                            len - 1
                        },
                        None => 0,
                    };
                    self.selected = Some(i);
                }
                Effect::Continue
            },
            Key::Char('k') | Key::Up => {
                let i = match self.selected {
                    Some(i) => if i > 0 {
                        i - 1
                    } else {
                        0
                    },
                    None => 0,
                };
                self.selected = Some(i);
                Effect::Continue
            },
            Key::Char('r') => {
                if self.start_refresh(true) {
                    Effect::StartRefresh
                } else {
                    Effect::Continue
                }
            },
            Key::Char('/') => {
                self.filtering = true;
                Effect::Continue
            },
            Key::Char('a') => {
                self.show_all = !self.show_all;
                if self.show_all {
                    self.set_status(String::from_str("Showing all processes"));
                } else {
                    self.set_status(String::from_str("Showing user processes only"));
                }
                Effect::Continue
            },
            Key::Char('o') | Key::Enter => {
                let url = match self.selected_entry() {
                    Some(e) => if e.listen.len() > 0 {
                        Some(url_for(&e.listen[0]))
                    } else {
                        None
                    },
                    None => None,
                };
                match url {
                    Some(u) => Effect::Open(u),
                    None => Effect::Continue,
                }
            },
            Key::Char('x') => {
                let chosen = match self.selected_entry() {
                    Some(e) => Some(e.duplicate()),
                    None => None,
                };
                match chosen {
                    Some(e) => {
                        self.set_status(kill_prompt_text(&e));
                        self.confirm_kill = Some(e);
                    },
                    None => {},
                }
                Effect::Continue
            },
            _ => Effect::Continue,
        }
    }

    /// Records how the kill that a confirmed `Effect::Kill` asked for went;
    /// gives back whether the caller is to start a scan.
    pub fn finish_kill(&mut self, pid: i64, killed: bool) -> (started: bool)
        ensures
            killed ==> (final(self)@, started) == refresh_started(
                with_status(old(self)@, "Killed PID "@ + i64_text(pid as int)),
                false,
            ),
            !killed ==> final(self)@ == with_status(
                old(self)@,
                "Failed to kill PID "@ + i64_text(pid as int),
            ) && !started,
    {
        let digits = decimal_text(pid);
        if killed {
            let mut msg = chars_of("Killed PID ");
            append_chars(&mut msg, &digits);
            self.set_status(string_from(&msg));
            self.start_refresh(false)
        } else {
            let mut msg = chars_of("Failed to kill PID ");
            append_chars(&mut msg, &digits);
            self.set_status(string_from(&msg));
            false
        }
    }

    /// Records whether the browser opened the URL that an `Effect::Open`
    /// asked for.
    pub fn finish_open(&mut self, url: &str, opened: bool)
        ensures
            opened ==> final(self)@ == with_status(old(self)@, "Opened "@ + url@),
            !opened ==> final(self)@ == with_status(old(self)@, "Failed to open browser"@),
    {
        if opened {
            let mut msg = chars_of("Opened ");
            append_chars(&mut msg, &chars_of(url));
            self.set_status(string_from(&msg));
        } else {
            self.set_status(String::from_str("Failed to open browser"));
        }
    }

    /// Takes in what a background scan found (`None` where it failed).
    pub fn finish_refresh(&mut self, found: Option<Vec<PortEntry>>)
        ensures
            final(self)@ == refresh_finished(
                old(self)@,
                match found {
                    Some(es) => Some(entry_views(es@)),
                    None => None,
                },
            ),
    {
        if !self.refreshing {
            return;
        }
        match found {
            Some(es) => {
                self.entries = es;
            },
            None => {
                self.set_status(String::from_str("Refresh failed"));
            },
        }
        let show_refreshed_status = self.show_refreshed_status;
        self.refreshing = false;
        self.show_refreshed_status = false;
        if show_refreshed_status {
            self.set_status(String::from_str("Refreshed"));
        }
        let filtered_len = self.filtered_entries().len();
        match self.selected {
            Some(selected) => {
                if selected >= filtered_len && filtered_len > 0 {
                    self.selected = Some(filtered_len - 1);
                }
            },
            None => {},
        }
    }

    /// Settles the selection that the table is drawn with.
    pub fn sync_selection(&mut self)
        ensures
            final(self)@ == synced(old(self)@),
    {
        let n = self.filtered_entries().len();
        if n == 0 && self.selected.is_some() {
            self.selected = None;
        } else if n > 0 && self.selected.is_none() {
            self.selected = Some(0);
        }
    }
}

/// The URL that an address is opened at: `*` stands for `localhost`.
pub fn url_for(addr: &String) -> (r: String)
    ensures
        r@ == url_of(addr@),
{
    let mut out = chars_of("http://");
    let with = chars_of("localhost");
    let replaced = replace_chars(&chars_of(addr.as_str()), '*', &with);
    append_chars(&mut out, &replaced);
    string_from(&out)
}

fn kill_prompt_text(e: &PortEntry) -> (r: String)
    ensures
        r@ == kill_prompt(e@),
{
    let mut out = chars_of("Kill ");
    append_chars(&mut out, &chars_of(e.name.as_str()));
    append_chars(&mut out, &chars_of(" (PID "));
    append_chars(&mut out, &decimal_text(e.pid));
    append_chars(&mut out, &chars_of(")? y/N"));
    string_from(&out)
}

proof fn lemma_shown_among(
    es: Seq<EntryView>,
    home: Option<Seq<char>>,
    show_all: bool,
    filter: Seq<char>,
)
    ensures
        forall|i: int|
            0 <= i < shown_among(es, home, show_all, filter).len() ==> {
                &&& is_shown(#[trigger] shown_among(es, home, show_all, filter)[i], home, show_all, filter)
                &&& es.contains(shown_among(es, home, show_all, filter)[i])
            },
        shown_among(es, home, show_all, filter).len() <= es.len(),
        (forall|i: int| 0 <= i < es.len() ==> is_shown(#[trigger] es[i], home, show_all, filter))
            ==> shown_among(es, home, show_all, filter) == es,
    decreases es.len(),
{
    if es.len() > 0 {
        let p = es.drop_last();
        lemma_shown_among(p, home, show_all, filter);
        let r = shown_among(es, home, show_all, filter);
        let rp = shown_among(p, home, show_all, filter);
        assert forall|i: int| 0 <= i < r.len() implies {
            &&& is_shown(#[trigger] r[i], home, show_all, filter)
            &&& es.contains(r[i])
        } by {
            if i < rp.len() {
                assert(r[i] == rp[i]);
                let k = choose|k: int| 0 <= k < p.len() && p[k] == rp[i];
                assert(es[k] == p[k]);
            } else {
                assert(r[i] == es.last());
                assert(es[es.len() - 1] == r[i]);
            }
        }
        if forall|i: int| 0 <= i < es.len() ==> is_shown(#[trigger] es[i], home, show_all, filter) {
            assert forall|i: int| 0 <= i < p.len() implies is_shown(#[trigger] p[i], home, show_all, filter) by {
                assert(p[i] == es[i]);
            }
            assert(is_shown(es[es.len() - 1], home, show_all, filter));
            assert(rp == p);
            assert(r =~= es);
        }
    }
}

/// With every process shown and no filter text, the view shows the whole
/// listing, in its order; in any case it shows only entries of the listing.
pub proof fn lemma_visible_is_part_of_listing(s: AppView)
    ensures
        forall|i: int| 0 <= i < visible(s).len() ==> s.entries.contains(#[trigger] visible(s)[i]),
        visible(s).len() <= s.entries.len(),
        s.show_all && s.filter.len() == 0 ==> visible(s) == s.entries,
{
    lemma_shown_among(s.entries, listing_home(s.entries, s.windows_paths), s.show_all, s.filter);
}

/// Unless every process is shown, each shown entry lies in the home
/// directory that the listing gives, where there is one; and each shown
/// entry's text contains the filter, in lowercase.
pub proof fn lemma_visible_entries_match(s: AppView)
    ensures
        forall|i: int|
            0 <= i < visible(s).len() ==> {
                &&& (!s.show_all && listing_home(s.entries, s.windows_paths) is Some) ==> ((#[trigger] visible(s)[i]).cwd
                    matches Some(c) && starts_with(c, listing_home(s.entries, s.windows_paths)->0))
                &&& s.filter.len() > 0 ==> contains_text(
                    lower_text(haystack(visible(s)[i])),
                    lower_text(s.filter),
                )
            },
{
    lemma_shown_among(s.entries, listing_home(s.entries, s.windows_paths), s.show_all, s.filter);
}

/// An entry of the listing that passes the test is among those shown.
proof fn lemma_shown_among_keeps(
    es: Seq<EntryView>,
    home: Option<Seq<char>>,
    show_all: bool,
    filter: Seq<char>,
    i: int,
)
    requires
        0 <= i < es.len(),
        is_shown(es[i], home, show_all, filter),
    ensures
        shown_among(es, home, show_all, filter).contains(es[i]),
    decreases es.len(),
{
    let p = es.drop_last();
    let r = shown_among(p, home, show_all, filter);
    if i == es.len() - 1 {
        assert(es.last() == es[i]);
        assert(r.push(es.last())[r.len() as int] == es[i]);
    } else {
        assert(p[i] == es[i]);
        lemma_shown_among_keeps(p, home, show_all, filter, i);
        let k = choose|k: int| 0 <= k < r.len() && r[k] == es[i];
        if is_shown(es.last(), home, show_all, filter) {
            assert(r.push(es.last())[k] == es[i]);
        }
    }
}

/// Text made of ASCII pieces is ASCII.
proof fn lemma_ascii_concat(a: Seq<char>, b: Seq<char>)
    requires
        is_ascii_text(a),
        is_ascii_text(b),
    ensures
        is_ascii_text(a + b),
{
    assert forall|k: int| 0 <= k < (a + b).len() implies (#[trigger] (a + b)[k] as int) < 128 by {
        if k < a.len() {
            assert((a + b)[k] == a[k]);
        } else {
            assert((a + b)[k] == b[k - a.len()]);
        }
    }
}

/// ASCII pieces joined by an ASCII separator give ASCII text.
proof fn lemma_ascii_join(parts: Seq<Seq<char>>, sep: Seq<char>)
    requires
        forall|j: int| 0 <= j < parts.len() ==> is_ascii_text(#[trigger] parts[j]),
        is_ascii_text(sep),
    ensures
        is_ascii_text(join(parts, sep)),
    decreases parts.len(),
{
    if parts.len() == 0 {
    } else if parts.len() == 1 {
        assert(is_ascii_text(parts[0]));
    } else {
        let p = parts.drop_last();
        assert forall|j: int| 0 <= j < p.len() implies is_ascii_text(#[trigger] p[j]) by {
            assert(p[j] == parts[j]);
        }
        lemma_ascii_join(p, sep);
        assert(is_ascii_text(parts[parts.len() - 1]));
        lemma_ascii_concat(join(p, sep), sep);
        lemma_ascii_concat(join(p, sep) + sep, parts.last());
    }
}

/// Each piece stands whole somewhere in the joined text.
proof fn lemma_join_holds_part(parts: Seq<Seq<char>>, sep: Seq<char>, j: int)
    requires
        0 <= j < parts.len(),
    ensures
        exists|x: Seq<char>, z: Seq<char>| join(parts, sep) == x + parts[j] + z,
    decreases parts.len(),
{
    let e = Seq::<char>::empty();
    if parts.len() == 1 {
        assert(join(parts, sep) =~= e + parts[j] + e);
    } else if j == parts.len() - 1 {
        assert(join(parts, sep) =~= (join(parts.drop_last(), sep) + sep) + parts[j] + e);
    } else {
        let p = parts.drop_last();
        lemma_join_holds_part(p, sep, j);
        let (x, z) = choose|x: Seq<char>, z: Seq<char>| join(p, sep) == x + p[j] + z;
        assert(p[j] == parts[j]);
        assert(join(parts, sep) =~= x + parts[j] + (z + sep + parts.last()));
    }
}

/// On ASCII text, what the lowercase of a piece contains, the lowercase of
/// the whole contains.
proof fn lemma_contains_within(x: Seq<char>, y: Seq<char>, z: Seq<char>, q: Seq<char>)
    requires
        is_ascii_text(x + y + z),
        contains_text(lower_text(y), q),
    ensures
        contains_text(lower_text(x + y + z), q),
{
    let w = x + y + z;
    assert forall|k: int| 0 <= k < y.len() implies (#[trigger] y[k] as int) < 128 by {
        assert(w[x.len() + k] == y[k]);
    }
    let ly = ascii_lower(y);
    let lw = ascii_lower(w);
    let i = choose|i: int| occurs_at(ly, q, i);
    assert(ly.subrange(i, i + q.len()) == q);
    assert forall|k: int| 0 <= k < q.len() implies #[trigger] lw.subrange(
        x.len() + i,
        x.len() + i + q.len(),
    )[k] == q[k] by {
        assert(ly.subrange(i, i + q.len())[k] == ly[i + k]);
        assert(w[x.len() + i + k] == y[i + k]);
    }
    assert(lw.subrange(x.len() + i, x.len() + i + q.len()) =~= q);
    assert(occurs_at(lw, q, x.len() + i));
}

/// Showing every process, or a listing with no home directory, or an entry
/// whose working directory begins with the home directory (the home
/// directory itself included): with no filter text, such an entry of the
/// listing is shown.
pub proof fn lemma_home_entries_are_shown(s: AppView, i: int)
    requires
        0 <= i < s.entries.len(),
        s.filter.len() == 0,
        s.show_all || listing_home(s.entries, s.windows_paths) is None || (s.entries[i].cwd is Some
            && starts_with(s.entries[i].cwd->0, listing_home(s.entries, s.windows_paths)->0)),
    ensures
        visible(s).contains(s.entries[i]),
{
    lemma_shown_among_keeps(
        s.entries,
        listing_home(s.entries, s.windows_paths),
        s.show_all,
        s.filter,
        i,
    );
}

/// The filter finds an entry by any of its fields: an entry of the listing
/// that passes the home test and whose working directory, name, command
/// line or one of whose addresses contains the filter, both in lowercase,
/// is shown. Stated for entries whose text is ASCII, where the lowercase of
/// a field is the matching part of the lowercase of the whole text.
#[verifier::rlimit(30)]
pub proof fn lemma_matching_entries_are_shown(s: AppView, i: int)
    requires
        0 <= i < s.entries.len(),
        s.show_all || listing_home(s.entries, s.windows_paths) is None || (s.entries[i].cwd is Some
            && starts_with(s.entries[i].cwd->0, listing_home(s.entries, s.windows_paths)->0)),
        s.entries[i].cwd is Some ==> is_ascii_text(s.entries[i].cwd->0),
        is_ascii_text(s.entries[i].name),
        s.entries[i].args is Some ==> is_ascii_text(s.entries[i].args->0),
        forall|j: int| 0 <= j < s.entries[i].listen.len() ==> is_ascii_text(#[trigger] s.entries[i].listen[j]),
        ({
            ||| s.entries[i].cwd is Some && contains_text(
                lower_text(s.entries[i].cwd->0),
                lower_text(s.filter),
            )
            ||| contains_text(lower_text(s.entries[i].name), lower_text(s.filter))
            ||| s.entries[i].args is Some && contains_text(
                lower_text(s.entries[i].args->0),
                lower_text(s.filter),
            )
            ||| exists|j: int|
                0 <= j < s.entries[i].listen.len() && contains_text(
                    lower_text(#[trigger] s.entries[i].listen[j]),
                    lower_text(s.filter),
                )
        }),
    ensures
        visible(s).contains(s.entries[i]),
{
    let e = s.entries[i];
    let q = lower_text(s.filter);
    let sp = seq![' '];
    let c = or_empty(e.cwd);
    let a = or_empty(e.args);
    let l = join(e.listen, sp);
    assert(is_ascii_text(sp));
    assert(is_ascii_text(c));
    assert(is_ascii_text(a));
    lemma_ascii_join(e.listen, sp);
    lemma_ascii_concat(c, sp);
    lemma_ascii_concat(c + sp, e.name);
    lemma_ascii_concat(c + sp + e.name, sp);
    lemma_ascii_concat(c + sp + e.name + sp, a);
    lemma_ascii_concat(c + sp + e.name + sp + a, sp);
    lemma_ascii_concat(c + sp + e.name + sp + a + sp, l);
    let h = haystack(e);
    assert(h == c + sp + e.name + sp + a + sp + l);
    let none = Seq::<char>::empty();
    if e.cwd is Some && contains_text(lower_text(c), q) {
        assert(h =~= none + c + (sp + e.name + sp + a + sp + l));
        lemma_contains_within(none, c, sp + e.name + sp + a + sp + l, q);
    } else if contains_text(lower_text(e.name), q) {
        assert(h =~= (c + sp) + e.name + (sp + a + sp + l));
        lemma_contains_within(c + sp, e.name, sp + a + sp + l, q);
    } else if e.args is Some && contains_text(lower_text(a), q) {
        assert(h =~= (c + sp + e.name + sp) + a + (sp + l));
        lemma_contains_within(c + sp + e.name + sp, a, sp + l, q);
    } else {
        let j = choose|j: int|
            0 <= j < e.listen.len() && contains_text(lower_text(#[trigger] e.listen[j]), q);
        lemma_join_holds_part(e.listen, sp, j);
        let (x, z) = choose|x: Seq<char>, z: Seq<char>| l == x + e.listen[j] + z;
        assert(h =~= (c + sp + e.name + sp + a + sp + x) + e.listen[j] + z);
        lemma_contains_within(c + sp + e.name + sp + a + sp + x, e.listen[j], z, q);
    }
    assert(is_shown(e, listing_home(s.entries, s.windows_paths), s.show_all, s.filter));
    lemma_shown_among_keeps(
        s.entries,
        listing_home(s.entries, s.windows_paths),
        s.show_all,
        s.filter,
        i,
    );
}

/// While a kill waits for confirmation, `y` and `Y` (with or without the
/// control key) both ask for that process to be killed and end the wait.
pub proof fn lemma_yes_confirms_the_kill(s: AppView, ctrl: bool)
    requires
        s.confirm_kill is Some,
    ensures
        key_step(s, KeyPress { key: Key::Char('y'), ctrl }).1 == EffectView::Kill(
            s.confirm_kill->0.pid,
        ),
        key_step(s, KeyPress { key: Key::Char('Y'), ctrl }).1 == EffectView::Kill(
            s.confirm_kill->0.pid,
        ),
        key_step(s, KeyPress { key: Key::Char('y'), ctrl }).0 == (AppView { confirm_kill: None, ..s }),
        key_step(s, KeyPress { key: Key::Char('Y'), ctrl }).0 == (AppView { confirm_kill: None, ..s }),
{
}

/// In the listing, with a row selected whose entry has an address, `o` and
/// Enter (with or without the control key) both ask to open
/// `http://` followed by the first address, `*` read as `localhost`, and
/// change nothing else.
pub proof fn lemma_o_and_enter_open_the_first_address(s: AppView, ctrl: bool)
    requires
        s.confirm_kill is None,
        !s.filtering,
        s.selected is Some,
        s.selected->0 < visible(s).len(),
        visible(s)[s.selected->0 as int].listen.len() > 0,
    ensures
        ({
            let url = "http://"@ + replace_char(
                visible(s)[s.selected->0 as int].listen[0],
                '*',
                "localhost"@,
            );
            &&& key_step(s, KeyPress { key: Key::Char('o'), ctrl }) == (s, EffectView::Open(url))
            &&& key_step(s, KeyPress { key: Key::Enter, ctrl }) == (s, EffectView::Open(url))
        }),
{
}

/// An entry that passes a test passes every looser one: where the first
/// test shows everything only if the second does, and the first filter is
/// ASCII text that goes on from the second.
proof fn lemma_looser_test(
    e: EntryView,
    home: Option<Seq<char>>,
    show_all1: bool,
    f1: Seq<char>,
    show_all2: bool,
    f2: Seq<char>,
    t: Seq<char>,
)
    requires
        show_all1 ==> show_all2,
        f1 == f2 + t,
        is_ascii_text(f1),
        is_shown(e, home, show_all1, f1),
    ensures
        is_shown(e, home, show_all2, f2),
{
    if f2.len() > 0 {
        let h = lower_text(haystack(e));
        let q1 = lower_text(f1);
        let q2 = lower_text(f2);
        assert forall|k: int| 0 <= k < f2.len() implies (#[trigger] f2[k] as int) < 128 by {
            assert(f1[k] == f2[k]);
        }
        assert(q1 == ascii_lower(f1));
        assert(q2 == ascii_lower(f2));
        let i = choose|i: int| occurs_at(h, q1, i);
        assert(h.subrange(i, i + q1.len()) == q1);
        assert forall|k: int| 0 <= k < q2.len() implies #[trigger] h.subrange(i, i + q2.len())[k]
            == q2[k] by {
            assert(h.subrange(i, i + q1.len())[k] == q1[k]);
            assert(f1[k] == f2[k]);
        }
        assert(h.subrange(i, i + q2.len()) =~= q2);
        assert(occurs_at(h, q2, i));
    }
}

/// Filtering by a test that is at least as strict as another gives the same
/// rows whether it runs on the whole listing or on what the looser test kept.
proof fn lemma_shown_among_narrows(
    es: Seq<EntryView>,
    home: Option<Seq<char>>,
    show_all1: bool,
    f1: Seq<char>,
    show_all2: bool,
    f2: Seq<char>,
    t: Seq<char>,
)
    requires
        show_all1 ==> show_all2,
        f1 == f2 + t,
        is_ascii_text(f1),
    ensures
        shown_among(es, home, show_all1, f1) == shown_among(
            shown_among(es, home, show_all2, f2),
            home,
            show_all1,
            f1,
        ),
    decreases es.len(),
{
    if es.len() > 0 {
        let p = es.drop_last();
        let last = es.last();
        lemma_shown_among_narrows(p, home, show_all1, f1, show_all2, f2, t);
        let kept = shown_among(p, home, show_all2, f2);
        if is_shown(last, home, show_all2, f2) {
            assert(kept.push(last).drop_last() =~= kept);
            assert(kept.push(last).last() == last);
        } else if is_shown(last, home, show_all1, f1) {
            lemma_looser_test(last, home, show_all1, f1, show_all2, f2, t);
        }
    }
}

/// Typing more of the filter, or hiding the processes outside the home
/// directory, never adds a row. Of two views of the same listing, where the
/// first shows every process only if the second does and the first's filter
/// (ASCII text) goes on from the second's, the first shows exactly those
/// rows of the second that pass its own test, in the same order; so no more
/// rows than the second, and each of them one that the second shows.
pub proof fn lemma_narrower_view_shows_fewer(s1: AppView, s2: AppView, t: Seq<char>)
    requires
        s1.entries == s2.entries,
        s1.windows_paths == s2.windows_paths,
        s1.show_all ==> s2.show_all,
        s1.filter == s2.filter + t,
        is_ascii_text(s1.filter),
    ensures
        visible(s1) == shown_among(
            visible(s2),
            listing_home(s1.entries, s1.windows_paths),
            s1.show_all,
            s1.filter,
        ),
        visible(s1).len() <= visible(s2).len(),
        forall|i: int| 0 <= i < visible(s1).len() ==> visible(s2).contains(#[trigger] visible(s1)[i]),
{
    let home = listing_home(s1.entries, s1.windows_paths);
    lemma_shown_among_narrows(s1.entries, home, s1.show_all, s1.filter, s2.show_all, s2.filter, t);
    lemma_shown_among(visible(s2), home, s1.show_all, s1.filter);
}

/// Typing a character into the filter and erasing it with Backspace leaves
/// the view as it was.
pub proof fn lemma_type_then_erase(s: AppView, c: char, ctrl: bool)
    requires
        s.confirm_kill is None,
        s.filtering,
    ensures
        key_step(key_step(s, KeyPress { key: Key::Char(c), ctrl }).0, KeyPress { key: Key::Backspace, ctrl }).0
            == s,
{
    let t = key_step(s, KeyPress { key: Key::Char(c), ctrl }).0;
    assert(t.filter == s.filter.push(c));
    assert(t.filter.drop_last() =~= s.filter);
}

/// Pressing `a` twice shows what was shown before: only the status message
/// differs.
pub proof fn lemma_toggle_twice(s: AppView, ctrl: bool)
    requires
        s.confirm_kill is None,
        !s.filtering,
    ensures
        ({
            let k = KeyPress { key: Key::Char('a'), ctrl };
            let t = key_step(key_step(s, k).0, k).0;
            &&& t.show_all == s.show_all
            &&& t.entries == s.entries
            &&& t.selected == s.selected
            &&& t.filter == s.filter
            &&& visible(t) == visible(s)
            &&& key_step(s, k).1 is Continue
        }),
{
}

/// A process is killed only on `y` or `Y` while a kill waits for
/// confirmation, and it is the process of the entry that waits; the
/// confirmation is over after any key.
pub proof fn lemma_kill_needs_confirmation(s: AppView, k: KeyPress)
    ensures
        key_step(s, k).1 matches EffectView::Kill(pid) ==> {
            &&& s.confirm_kill matches Some(e) && e.pid == pid
            &&& is_char(k, 'y') || is_char(k, 'Y')
        },
        s.confirm_kill is Some ==> key_step(s, k).0.confirm_kill is None,
{
}

/// `x` puts the selected entry up for confirmation, and nothing else.
pub proof fn lemma_x_asks_about_the_selected_entry(s: AppView, ctrl: bool)
    requires
        s.confirm_kill is None,
        !s.filtering,
    ensures
        key_step(s, KeyPress { key: Key::Char('x'), ctrl }).0.confirm_kill == selected_of(s),
        key_step(s, KeyPress { key: Key::Char('x'), ctrl }).1 is Continue,
{
}

/// Moving down keeps the selection on a shown entry whenever one is shown.
pub proof fn lemma_down_stays_in_view(s: AppView)
    requires
        visible(s).len() > 0,
    ensures
        selected_of(moved_down(s)) is Some,
        visible(moved_down(s)) == visible(s),
{
    let t = moved_down(s);
    assert(t.entries == s.entries && t.show_all == s.show_all && t.filter == s.filter);
}

/// After a scan ends none runs, and the selection is on a shown entry
/// wherever it was set and something is shown.
pub proof fn lemma_refresh_finished(s: AppView, found: Option<Seq<EntryView>>)
    requires
        s.refreshing,
    ensures
        !refresh_finished(s, found).refreshing,
        !refresh_finished(s, found).show_refreshed_status,
        ({
            let t = refresh_finished(s, found);
            t.selected is Some && visible(t).len() > 0 ==> selected_of(t) is Some
        }),
{
}

/// How long a status message stays on screen, in nanoseconds.
pub const STATUS_LIFETIME_NANOS: u128 = 3_000_000_000;

/// How long a listing is kept before it is scanned again, in nanoseconds.
pub const REFRESH_INTERVAL_NANOS: u128 = 30_000_000_000;

/// The header line: the filter being edited, or the title.
pub open spec fn header_of(s: AppView) -> Seq<char> {
    if s.filtering {
        " Filter: "@ + s.filter + "▌"@
    } else {
        " h41 — Listening Ports"@
    }
}

/// The status line: the message while it is younger than three seconds.
pub open spec fn status_line_of(s: AppView, nanos_since_set: u128) -> Seq<char> {
    " "@ + match s.status {
        Some(m) => if nanos_since_set < STATUS_LIFETIME_NANOS {
            m
        } else {
            Seq::empty()
        },
        None => Seq::empty(),
    }
}

/// The addresses of an entry as the table shows them: `*` as `localhost`,
/// separated by commas.
pub open spec fn address_text(listen: Seq<Seq<char>>) -> Seq<char> {
    join(Seq::new(listen.len(), |i: int| replace_char(listen[i], '*', "localhost"@)), ", "@)
}

/// The frames of the spinner.
pub open spec fn spinner_glyph(i: int) -> Seq<char> {
    if i == 0 {
        "⠋"@
    } else if i == 1 {
        "⠙"@
    } else if i == 2 {
        "⠹"@
    } else if i == 3 {
        "⠸"@
    } else if i == 4 {
        "⠼"@
    } else if i == 5 {
        "⠴"@
    } else if i == 6 {
        "⠦"@
    } else if i == 7 {
        "⠧"@
    } else if i == 8 {
        "⠇"@
    } else {
        "⠏"@
    }
}

/// The frame of the spinner after `elapsed_millis`: a new one every tenth of
/// a second, ten in a cycle.
pub fn spinner_frame(elapsed_millis: u128) -> (r: &'static str)
    ensures
        r@ == spinner_glyph(((elapsed_millis / 100) as usize % 10) as int),
{
    let i = (elapsed_millis / 100) as usize % 10;
    if i == 0 {
        "⠋"
    } else if i == 1 {
        "⠙"
    } else if i == 2 {
        "⠹"
    } else if i == 3 {
        "⠸"
    } else if i == 4 {
        "⠼"
    } else if i == 5 {
        "⠴"
    } else if i == 6 {
        "⠦"
    } else if i == 7 {
        "⠧"
    } else if i == 8 {
        "⠇"
    } else {
        "⠏"
    }
}

/// The label of the `a` key in the help line: what pressing it would show.
pub fn help_toggle_label(show_all: bool) -> (r: &'static str)
    ensures
        r@ == (if show_all {
            "user-only"@
        } else {
            "show-all"@
        }),
{
    if show_all {
        "user-only"
    } else {
        "show-all"
    }
}

/// The process id as the table shows it.
pub fn pid_cell(e: &PortEntry) -> (r: String)
    ensures
        r@ == i64_text(e.pid as int),
{
    string_from(&decimal_text(e.pid))
}

/// The working directory as the table shows it, empty where unknown.
pub fn cwd_cell(e: &PortEntry) -> (r: String)
    ensures
        r@ == or_empty(e@.cwd),
{
    match &e.cwd {
        Some(c) => c.clone(),
        None => String::new(),
    }
}

/// The addresses as the table shows them.
pub fn address_cell(e: &PortEntry) -> (r: String)
    ensures
        r@ == address_text(e@.listen),
{
    let ghost shown = Seq::new(e@.listen.len(), |i: int| replace_char(e@.listen[i], '*', "localhost"@));
    let with = chars_of("localhost");
    let mut parts: Vec<Vec<char>> = Vec::new();
    let mut i: usize = 0;
    while i < e.listen.len()
        invariant
            i <= e.listen.len(),
            with@ == "localhost"@,
            shown == Seq::new(e@.listen.len(), |i: int| replace_char(e@.listen[i], '*', "localhost"@)),
            views(parts@) == shown.take(i as int),
        decreases e.listen.len() - i,
    {
        let ghost before = views(parts@);
        parts.push(replace_chars(&chars_of(e.listen[i].as_str()), '*', &with));
        assert(views(parts@) =~= before.push(shown[i as int]));
        i = i + 1;
        assert(views(parts@) =~= shown.take(i as int));
    }
    assert(shown.take(i as int) =~= shown);
    let sep = chars_of(", ");
    string_from(&join_chars(&parts, &sep))
}

impl AppState {
    /// The header line.
    pub fn header_text(&self) -> (r: String)
        ensures
            r@ == header_of(self@),
    {
        if self.filtering {
            let mut out = chars_of(" Filter: ");
            append_chars(&mut out, &chars_of(self.filter.as_str()));
            append_chars(&mut out, &chars_of("▌"));
            string_from(&out)
        } else {
            String::from_str(" h41 — Listening Ports")
        }
    }

    /// The status line, `nanos_since_set` after the message was set.
    pub fn status_text(&self, nanos_since_set: u128) -> (r: String)
        ensures
            r@ == status_line_of(self@, nanos_since_set),
    {
        let mut out = chars_of(" ");
        match &self.status_message {
            Some(m) => {
                if nanos_since_set < STATUS_LIFETIME_NANOS {
                    append_chars(&mut out, &chars_of(m.as_str()));
                }
            },
            None => {},
        }
        assert(out@ =~= status_line_of(self@, nanos_since_set));
        string_from(&out)
    }

    /// Whether a new scan is due, `nanos_since_last` after the last one
    /// ended: after thirty seconds, unless one runs.
    pub fn should_auto_refresh(&self, nanos_since_last: u128) -> (r: bool)
        ensures
            r == (!self.refreshing && nanos_since_last > REFRESH_INTERVAL_NANOS),
    {
        !self.refreshing && nanos_since_last > REFRESH_INTERVAL_NANOS
    }

    /// Whether the table gives way to the "scanning ports" loader: nothing
    /// listed yet and a scan running.
    pub fn shows_loader(&self) -> (r: bool)
        ensures
            r == (self.entries.len() == 0 && self.refreshing),
    {
        self.entries.len() == 0 && self.refreshing
    }

    /// Whether the header shows that a scan runs over a listing.
    pub fn shows_refresh_badge(&self) -> (r: bool)
        ensures
            r == (self.refreshing && self.entries.len() > 0),
    {
        self.refreshing && self.entries.len() > 0
    }
}

} // verus!
