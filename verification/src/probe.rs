//! The process probe: a point-in-time snapshot of the OS process table
//! (pid, parent pid, executable basename) with a verified query surface.
//! Reading and killing go through the `sysinfo` crate.

use vstd::prelude::*;

use crate::text::{eq_ignore_case, str_eq_ignore_case};

verus! {

#[verifier::external_type_specification]
#[verifier::external_body]
pub struct ExSystem(sysinfo::System);

/// One process of the snapshot: its pid, its parent's pid when the OS
/// reports one, its executable's file name, and whether the OS reports
/// it as a zombie (terminated but not yet reaped).
pub struct ProcEntry {
    pub pid: u32,
    pub parent: Option<u32>,
    pub name: String,
    pub zombie: bool,
}

/// Relies on sysinfo::System::new: a process table holder that has not
/// refreshed anything yet.
#[verifier::external_body]
fn system_new() -> sysinfo::System {
    sysinfo::System::new()
}

/// Relies on sysinfo::System::refresh_processes and System::processes: the
/// returned entries list, for each process the OS reported at the refresh,
/// its pid, its parent pid, its executable file name, and whether its
/// status is Zombie or Dead (Process::status).
#[verifier::external_body]
fn refresh_snapshot(sys: &mut sysinfo::System) -> (r: Vec<ProcEntry>) {
    sys.refresh_processes(sysinfo::ProcessesToUpdate::All, true);
    let mut out: Vec<ProcEntry> = Vec::new();
    for (pid, p) in sys.processes().iter() {
        let gone = matches!(p.status(), sysinfo::ProcessStatus::Zombie | sysinfo::ProcessStatus::Dead);
        let name = p.name().to_string_lossy().into_owned();
        out.push(ProcEntry { pid: pid.as_u32(), parent: p.parent().map(|q| q.as_u32()), name, zombie: gone });
    }
    out
}

/// Relies on sysinfo::System::process and Process::kill: sends the kill
/// signal to the process with that pid; true when the signal was sent.
#[verifier::external_body]
fn kill_in_table(sys: &sysinfo::System, pid: u32) -> (r: bool) {
    match sys.process(sysinfo::Pid::from_u32(pid)) {
        Some(p) => p.kill(),
        None => false,
    }
}

/// A refreshable snapshot of the OS process table. Queries are
/// deterministic given the last refresh; only `refresh` and `kill` touch
/// the OS. A ghost history keeps every snapshot a refresh produced, so
/// that callers can state which snapshot a liveness verdict rested on.
pub struct Probe {
    sys: sysinfo::System,
    snapshot: Vec<ProcEntry>,
    past: Ghost<Seq<Seq<ProcEntry>>>,
}

/// Whether a process name matches a target basename: equal up to ASCII
/// case, directly or with the conventional `.exe` suffix appended to the
/// target.
pub open spec fn name_matches(name: Seq<char>, target: Seq<char>) -> bool {
    eq_ignore_case(name, target) || eq_ignore_case(name, target + seq!['.', 'e', 'x', 'e'])
}

fn name_matches_exec(name: &str, target: &str) -> (r: bool)
    ensures
        r == name_matches(name@, target@),
{
    if str_eq_ignore_case(name, target) {
        return true;
    }
    proof {
        reveal_strlit(".exe");
    }
    let mut suffixed = String::from_str(target);
    suffixed.append(".exe");
    proof {
        assert(suffixed@ =~= target@ + seq!['.', 'e', 'x', 'e']);
    }
    str_eq_ignore_case(name, suffixed.as_str())
}

impl View for Probe {
    type V = Seq<ProcEntry>;

    closed spec fn view(&self) -> Seq<ProcEntry> {
        self.snapshot@
    }
}

impl Probe {
    /// Every snapshot a refresh has produced, oldest first.
    pub closed spec fn past_snapshots(&self) -> Seq<Seq<ProcEntry>> {
        self.past@
    }
}

/// The pids of the snapshot entries whose parent is `pid`, in snapshot
/// order.
pub open spec fn children_spec(s: Seq<ProcEntry>, pid: u32) -> Seq<u32>
    decreases s.len(),
{
    if s.len() == 0 {
        Seq::empty()
    } else {
        let rest = children_spec(s.drop_last(), pid);
        if s.last().parent == Some(pid) {
            rest.push(s.last().pid)
        } else {
            rest
        }
    }
}

/// The pids of the snapshot entries whose name matches the target
/// basename, in snapshot order.
pub open spec fn matching_pids_spec(s: Seq<ProcEntry>, target: Seq<char>) -> Seq<u32>
    decreases s.len(),
{
    if s.len() == 0 {
        Seq::empty()
    } else {
        let rest = matching_pids_spec(s.drop_last(), target);
        if name_matches(s.last().name@, target) {
            rest.push(s.last().pid)
        } else {
            rest
        }
    }
}

/// Whether the snapshot holds an entry with this pid.
pub open spec fn alive_spec(s: Seq<ProcEntry>, pid: u32) -> bool {
    exists|i: int| 0 <= i < s.len() && s[i].pid == pid
}

impl Probe {
    /// A probe that has not read the process table yet: its snapshot and
    /// its history are empty until the first refresh.
    pub fn new() -> (r: Probe)
        ensures
            r@.len() == 0,
            r.past_snapshots().len() == 0,
    {
        Probe { sys: system_new(), snapshot: Vec::new(), past: Ghost(Seq::empty()) }
    }

    /// Re-reads the OS process table. The new snapshot reflects whatever
    /// the OS reported at this instant and is appended to the history;
    /// nothing else is promised of its content. Entries reported as
    /// zombies are left out: a terminated process nobody has reaped yet
    /// is not alive, cannot be killed again, and must not be adopted.
    pub fn refresh(&mut self)
        ensures
            final(self).past_snapshots() == old(self).past_snapshots().push(final(self)@),
    {
        let mut raw = refresh_snapshot(&mut self.sys);
        let mut live: Vec<ProcEntry> = Vec::new();
        while raw.len() > 0
            decreases raw@.len(),
        {
            let entry = raw.remove(0);
            if !entry.zombie {
                live.push(entry);
            }
        }
        self.snapshot = live;
        self.past = Ghost(self.past@.push(self.snapshot@));
    }

    /// Whether the last refresh saw a process with this pid.
    pub fn is_alive(&self, pid: u32) -> (r: bool)
        ensures
            r == alive_spec(self@, pid),
    {
        let n = self.snapshot.len();
        let mut i: usize = 0;
        while i < n
            invariant
                n == self@.len(),
                i <= n,
                forall|j: int| 0 <= j < i ==> self@[j].pid != pid,
            decreases n - i,
        {
            if self.snapshot[i].pid == pid {
                return true;
            }
            i = i + 1;
        }
        false
    }

    /// All snapshot entries whose recorded parent pid equals `pid`.
    pub fn children_of(&self, pid: u32) -> (r: Vec<u32>)
        ensures
            r@ == children_spec(self@, pid),
    {
        let n = self.snapshot.len();
        let mut out: Vec<u32> = Vec::new();
        let mut i: usize = 0;
        while i < n
            invariant
                n == self@.len(),
                i <= n,
                out@ == children_spec(self@.take(i as int), pid),
            decreases n - i,
        {
            let ghost pre = self@.take(i as int);
            proof {
                assert(self@.take(i + 1).drop_last() =~= pre);
                assert(self@.take(i + 1).last() == self@[i as int]);
            }
            let e = &self.snapshot[i];
            let hit = match e.parent {
                Some(p) => p == pid,
                None => false,
            };
            if hit {
                out.push(e.pid);
            }
            i = i + 1;
        }
        proof {
            assert(self@.take(n as int) =~= self@);
        }
        out
    }

    /// The pid of some snapshot entry whose name matches the basename
    /// case-insensitively (with or without an `.exe` suffix), or `None`
    /// when no entry matches.
    pub fn find_by_name(&self, target: &str) -> (r: Option<u32>)
        ensures
            match r {
                Some(pid) => exists|i: int|
                    0 <= i < self@.len() && name_matches(#[trigger] self@[i].name@, target@)
                        && self@[i].pid == pid,
                None => forall|i: int|
                    0 <= i < self@.len() ==> !name_matches(#[trigger] self@[i].name@, target@),
            },
    {
        let n = self.snapshot.len();
        let mut i: usize = 0;
        while i < n
            invariant
                n == self@.len(),
                i <= n,
                forall|j: int| 0 <= j < i ==> !name_matches(#[trigger] self@[j].name@, target@),
            decreases n - i,
        {
            if name_matches_exec(self.snapshot[i].name.as_str(), target) {
                return Some(self.snapshot[i].pid);
            }
            i = i + 1;
        }
        None
    }

    /// All pids whose snapshot entry matches the basename, for the
    /// unconditional fallback sweep.
    pub fn pids_by_name(&self, target: &str) -> (r: Vec<u32>)
        ensures
            r@ == matching_pids_spec(self@, target@),
    {
        let n = self.snapshot.len();
        let mut out: Vec<u32> = Vec::new();
        let mut i: usize = 0;
        while i < n
            invariant
                n == self@.len(),
                i <= n,
                out@ == matching_pids_spec(self@.take(i as int), target@),
            decreases n - i,
        {
            let ghost pre = self@.take(i as int);
            proof {
                assert(self@.take(i + 1).drop_last() =~= pre);
                assert(self@.take(i + 1).last() == self@[i as int]);
            }
            if name_matches_exec(self.snapshot[i].name.as_str(), target) {
                out.push(self.snapshot[i].pid);
            }
            i = i + 1;
        }
        proof {
            assert(self@.take(n as int) =~= self@);
        }
        out
    }

    /// Sends the kill signal to the process with this pid; true when the
    /// snapshot knew the pid and the signal was sent. Best effort: the
    /// outcome on the OS is not modelled.
    pub fn kill(&self, pid: u32) -> (r: bool) {
        kill_in_table(&self.sys, pid)
    }
}

} // verus!
