//! The entries of the port listing and how a listing is put together from
//! the outputs of `lsof` and `ps`.
use vstd::prelude::*;
use crate::lsof::{
    cwd_from_lsof, cwd_text_readable, lsof_entries, lsof_output_parsable, parse_lsof_output,
    read_cwd_from_lsof_output,
};
use crate::text::{
    chars_of, copy_opt_string, copy_strings, opt_text, string_from, string_views, trim, trimmed,
};

verus! {

/// A process that listens on TCP ports.
#[derive(Debug, Clone)]
pub struct PortEntry {
    pub pid: i64,
    pub name: String,
    pub args: Option<String>,
    pub listen: Vec<String>,
    pub cwd: Option<String>,
}

/// A `PortEntry` as the contracts see it.
pub struct EntryView {
    pub pid: i64,
    pub name: Seq<char>,
    pub args: Option<Seq<char>>,
    pub listen: Seq<Seq<char>>,
    pub cwd: Option<Seq<char>>,
}

impl View for PortEntry {
    type V = EntryView;

    open spec fn view(&self) -> EntryView {
        EntryView {
            pid: self.pid,
            name: self.name@,
            args: opt_text(self.args),
            listen: string_views(self.listen@),
            cwd: opt_text(self.cwd),
        }
    }
}

/// The views of a list of entries.
pub open spec fn entry_views(s: Seq<PortEntry>) -> Seq<EntryView> {
    Seq::new(s.len(), |i: int| s[i]@)
}

/// The view of an optional entry.
pub open spec fn opt_entry(o: Option<PortEntry>) -> Option<EntryView> {
    match o {
        Some(e) => Some(e@),
        None => None,
    }
}

impl PortEntry {
    /// A copy of the entry.
    pub fn duplicate(&self) -> (r: PortEntry)
        ensures
            r@ == self@,
    {
        PortEntry {
            pid: self.pid,
            name: self.name.clone(),
            args: copy_opt_string(&self.args),
            listen: copy_strings(&self.listen),
            cwd: copy_opt_string(&self.cwd),
        }
    }
}

/// What was printed for one process by `ps -p <pid> -o args=` and by
/// `lsof -p <pid> -Ffn`; `None` where the command could not be run.
#[derive(Debug)]
pub struct ProcessProbe {
    pub pid: i64,
    pub ps_output: Option<String>,
    pub lsof_output: Option<String>,
}

/// The command line that `ps` printed: its output without white space at
/// either end, where anything is left.
pub open spec fn args_from_ps(out: Option<Seq<char>>) -> Option<Seq<char>> {
    match out {
        Some(o) => if trim(o).len() > 0 {
            Some(trim(o))
        } else {
            None
        },
        None => None,
    }
}

/// The command line that the output of `ps -o args=`, if any, gives.
pub fn args_from_ps_output(ps_output: Option<&str>) -> (r: Option<String>)
    ensures
        opt_text(r) == args_from_ps(
            match ps_output {
                Some(s) => Some(s@),
                None => None,
            },
        ),
{
    match ps_output {
        Some(s) => {
            let cs = chars_of(s);
            let t = trimmed(&cs);
            if t.len() > 0 {
                Some(string_from(&t))
            } else {
                None
            }
        },
        None => None,
    }
}

/// The first probe from position `i` on that was made for `pid`.
pub open spec fn probe_from(probes: Seq<ProcessProbe>, pid: i64, i: int) -> Option<ProcessProbe>
    decreases probes.len() - i,
{
    if i < 0 || i >= probes.len() {
        None
    } else if probes[i].pid == pid {
        Some(probes[i])
    } else {
        probe_from(probes, pid, i + 1)
    }
}

/// The first probe made for `pid`.
pub open spec fn probe_for(probes: Seq<ProcessProbe>, pid: i64) -> Option<ProcessProbe> {
    probe_from(probes, pid, 0)
}

/// An entry of the listing with the command line and working directory that
/// its probe gives.
pub open spec fn with_probe(e: EntryView, probe: Option<ProcessProbe>) -> EntryView {
    EntryView {
        args: match probe {
            Some(p) => args_from_ps(opt_text(p.ps_output)),
            None => None,
        },
        cwd: match probe {
            Some(p) => cwd_from_lsof(opt_text(p.lsof_output)),
            None => None,
        },
        ..e
    }
}

/// The listing that `all` gives for a `lsof` listing and the probes of its
/// processes.
pub open spec fn all_entries(lsof_output: Seq<char>, probes: Seq<ProcessProbe>) -> Seq<EntryView> {
    let es = lsof_entries(lsof_output);
    Seq::new(es.len(), |i: int| with_probe(es[i], probe_for(probes, es[i].pid)))
}

/// The working directory of every probe can be read.
pub open spec fn probes_readable(probes: Seq<ProcessProbe>) -> bool {
    forall|i: int|
        0 <= i < probes.len() ==> match #[trigger] probes[i].lsof_output {
            Some(o) => cwd_text_readable(o@),
            None => true,
        }
}

fn find_probe(probes: &Vec<ProcessProbe>, pid: i64) -> (r: Option<usize>)
    ensures
        match r {
            Some(i) => i < probes.len() && probe_for(probes@, pid) == Some(probes@[i as int]),
            None => probe_for(probes@, pid) is None,
        },
{
    let mut i: usize = 0;
    while i < probes.len()
        invariant
            i <= probes.len(),
            probe_for(probes@, pid) == probe_from(probes@, pid, i as int),
        decreases probes.len() - i,
    {
        if probes[i].pid == pid {
            return Some(i);
        }
        i = i + 1;
    }
    None
}

/// The processes that listen on TCP ports: the entries of the `lsof`
/// listing, each with the command line and working directory read from the
/// first probe made for its process id (none where there is no such probe).
pub fn all(lsof_output: &str, probes: &Vec<ProcessProbe>) -> (r: Vec<PortEntry>)
    requires
        lsof_output_parsable(lsof_output@),
        probes_readable(probes@),
    ensures
        entry_views(r@) == all_entries(lsof_output@, probes@),
{
    let parsed = parse_lsof_output(lsof_output);
    let ghost es = lsof_entries(lsof_output@);
    let mut out: Vec<PortEntry> = Vec::new();
    let mut k: usize = 0;
    while k < parsed.len()
        invariant
            k <= parsed.len(),
            es == entry_views(parsed@),
            es == lsof_entries(lsof_output@),
            probes_readable(probes@),
            entry_views(out@) == all_entries(lsof_output@, probes@).take(k as int),
        decreases parsed.len() - k,
    {
        let e = &parsed[k];
        assert(es[k as int] == e@);
        let ghost want = with_probe(es[k as int], probe_for(probes@, e.pid));
        let (args, cwd) = match find_probe(probes, e.pid) {
            Some(i) => {
                let p = &probes[i];
                let ps = match &p.ps_output {
                    Some(o) => Some(o.as_str()),
                    None => None,
                };
                let ls = match &p.lsof_output {
                    Some(o) => Some(o.as_str()),
                    None => None,
                };
                assert(probes_readable(probes@) ==> match probes@[i as int].lsof_output {
                    Some(o) => cwd_text_readable(o@),
                    None => true,
                });
                let a = args_from_ps_output(ps);
                let c = read_cwd_from_lsof_output(ls);
                assert(opt_text(a) == want.args);
                assert(opt_text(c) == want.cwd);
                (a, c)
            },
            None => (None, None),
        };
        let entry = PortEntry {
            pid: e.pid,
            name: e.name.clone(),
            args,
            listen: copy_strings(&e.listen),
            cwd,
        };
        assert(entry@ == want);
        let ghost before = entry_views(out@);
        out.push(entry);
        assert(entry_views(out@) =~= before.push(entry@));
        k = k + 1;
        assert(entry_views(out@) =~= all_entries(lsof_output@, probes@).take(k as int));
    }
    assert(all_entries(lsof_output@, probes@).take(k as int) =~= all_entries(lsof_output@, probes@));
    out
}

} // verus!
