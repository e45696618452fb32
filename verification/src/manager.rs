//! The lifecycle controller: the service registry, liveness decisions,
//! launch planning, termination, and reconciliation of autorun services.

use vstd::prelude::*;

use crate::probe::{alive_spec, children_spec, matching_pids_spec, name_matches, ProcEntry, Probe};
use crate::service::{
    basename_spec, build_args, clone_opt_string, clone_string_vec, exec_file_name, join_path,
    order_contains, order_view, resolve_exec_path, subst_env, ConfigView, ServiceConfig,
    ServicesFile,
};
use crate::text::str_eq;

verus! {

broadcast use vstd::seq_lib::group_seq_properties;

#[verifier::external_type_specification]
#[verifier::external_body]
pub struct ExChild(tokio::process::Child);

/// Relies on tokio::process::Child::id: the OS-assigned pid of the child,
/// or `None` once the handle has been polled to completion.
pub assume_specification[ tokio::process::Child::id ](c: &tokio::process::Child) -> (r: Option<
    u32,
>);

/// Relies on tokio::process::Child::try_wait: `Ok(None)` means the child
/// has not exited; an exit status or an error means the handle is spent.
#[verifier::external_body]
fn child_running(c: &mut tokio::process::Child) -> (r: bool) {
    matches!(c.try_wait(), Ok(None))
}

/// Relies on tokio::process::Child::start_kill: delivers the kill signal
/// without waiting; the runtime reaps the child once the handle is
/// dropped.
#[verifier::external_body]
fn child_kill_signal(c: &mut tokio::process::Child) -> (r: bool) {
    c.start_kill().is_ok()
}

/// Why a controller operation was refused.
#[derive(Clone, Copy, PartialEq, Eq, Structural, Debug)]
pub enum ServiceError {
    /// The operation referenced an id absent from the registry.
    UnknownService,
}

impl ServiceError {
    /// The error's text, as surfaced to callers.
    pub fn message(&self) -> (r: &'static str)
        ensures
            r@ == "Service id not found"@,
    {
        "Service id not found"
    }
}

/// One line of the status report `list` produces: the definition, the
/// recomputed liveness, and the last-known pid.
pub struct ServiceStatusSnapshot {
    pub config: ServiceConfig,
    pub running: bool,
    pub pid: Option<u32>,
}

/// One managed service: its definition, the handle of a process this
/// controller spawned and still holds, and the last pid believed to
/// belong to it.
pub struct ManagedService {
    pub config: ServiceConfig,
    pub process: Option<tokio::process::Child>,
    pub last_known_pid: Option<u32>,
}

impl ManagedService {
    /// A freshly registered service: no owned handle, no known pid.
    pub fn new(config: ServiceConfig) -> (r: Self)
        ensures
            r.config == config,
            r.process is None,
            r.last_known_pid is None,
    {
        ManagedService { config, process: None, last_known_pid: None }
    }
}

/// The ids of a service sequence, in order.
pub open spec fn ids_of(s: Seq<ManagedService>) -> Seq<Seq<char>> {
    s.map_values(|m: ManagedService| m.config@.id)
}

/// The definition of the first entry carrying this id.
pub open spec fn config_of(s: Seq<ManagedService>, id: Seq<char>) -> ConfigView
    decreases s.len(),
{
    if s.len() == 0 {
        arbitrary()
    } else if s[0].config@.id == id {
        s[0].config@
    } else {
        config_of(s.skip(1), id)
    }
}

/// The last-known pid of the first entry carrying this id.
pub open spec fn pid_of(s: Seq<ManagedService>, id: Seq<char>) -> Option<u32>
    decreases s.len(),
{
    if s.len() == 0 {
        arbitrary()
    } else if s[0].config@.id == id {
        s[0].last_known_pid
    } else {
        pid_of(s.skip(1), id)
    }
}

/// The owned handle of the first entry carrying this id.
pub open spec fn process_of(s: Seq<ManagedService>, id: Seq<char>) -> Option<
    tokio::process::Child,
>
    decreases s.len(),
{
    if s.len() == 0 {
        arbitrary()
    } else if s[0].config@.id == id {
        s[0].process
    } else {
        process_of(s.skip(1), id)
    }
}

/// When ids are unique, looking a service up by its id finds exactly the
/// entry standing at that id's index.
proof fn lemma_lookup_at(s: Seq<ManagedService>, i: int)
    requires
        ids_of(s).no_duplicates(),
        0 <= i < s.len(),
    ensures
        config_of(s, s[i].config@.id) == s[i].config@,
        pid_of(s, s[i].config@.id) == s[i].last_known_pid,
        process_of(s, s[i].config@.id) == s[i].process,
    decreases s.len(),
{
    if i == 0 {
    } else {
        assert(ids_of(s)[0] == s[0].config@.id);
        assert(ids_of(s)[i] == s[i].config@.id);
        assert(s[0].config@.id != s[i].config@.id);
        assert(ids_of(s.skip(1)) =~= ids_of(s).skip(1));
        assert(ids_of(s).skip(1).no_duplicates());
        lemma_lookup_at(s.skip(1), i - 1);
        assert(s.skip(1)[i - 1] == s[i]);
    }
}

proof fn lemma_prefix_self(s: Seq<Seq<ProcEntry>>)
    ensures
        s.is_prefix_of(s),
{
    assert(s =~= s.subrange(0, s.len() as int));
}

proof fn lemma_prefix_push(s: Seq<Seq<ProcEntry>>, x: Seq<ProcEntry>)
    ensures
        s.is_prefix_of(s.push(x)),
{
    assert(s =~= s.push(x).subrange(0, s.len() as int));
}

proof fn lemma_prefix_trans(a: Seq<Seq<ProcEntry>>, b: Seq<Seq<ProcEntry>>, c: Seq<Seq<ProcEntry>>)
    requires
        a.is_prefix_of(b),
        b.is_prefix_of(c),
    ensures
        a.is_prefix_of(c),
{
    assert forall|i: int| 0 <= i < a.len() implies c.subrange(0, a.len() as int)[i] == a[i] by {
        assert(b.subrange(0, a.len() as int)[i] == a[i]);
        assert(c.subrange(0, b.len() as int)[i] == b[i]);
    }
    assert(a =~= c.subrange(0, a.len() as int));
}

/// Evidence in one snapshot that a service is running: its last-known pid
/// is alive there, or some entry's name matches its executable basename.
pub open spec fn liveness_evidence_in(
    snap: Seq<ProcEntry>,
    cfg: ConfigView,
    pid: Option<u32>,
) -> bool {
    ||| (match pid {
        Some(p) => alive_spec(snap, p),
        None => false,
    })
    ||| exists|j: int|
        0 <= j < snap.len() && name_matches(
            (#[trigger] snap[j]).name@,
            basename_spec(cfg.exec_path),
        )
}

/// One verdict of `is_running` or `list` is supported by the state left
/// behind: a positive verdict by a retained handle or by evidence in a
/// snapshot the call refreshed (history positions from `lo` on), a
/// negative one by a cleared handle and a refreshed snapshot without
/// evidence.
pub open spec fn running_flag_supported(
    before: ServiceManager,
    after: ServiceManager,
    id: Seq<char>,
    flag: bool,
    lo: int,
) -> bool {
    if flag {
        ||| (exists|x: int|
            0 <= x < after.services@.len() && (#[trigger] after.services@[x]).config@.id == id
                && after.services@[x].process is Some)
        ||| (exists|s: int|
            lo <= s < after.probe.past_snapshots().len() && liveness_evidence_in(
                #[trigger] after.probe.past_snapshots()[s],
                before.config_view_of(id),
                before.pid_view_of(id),
            ))
    } else {
        &&& (forall|x: int|
            0 <= x < after.services@.len() && (#[trigger] after.services@[x]).config@.id == id
                ==> after.services@[x].process is None)
        &&& (exists|s: int|
            lo <= s < after.probe.past_snapshots().len() && !liveness_evidence_in(
                #[trigger] after.probe.past_snapshots()[s],
                before.config_view_of(id),
                before.pid_view_of(id),
            ))
    }
}

/// A supported verdict stays supported while later liveness checks run,
/// as long as they query other ids and only extend the snapshot history.
proof fn lemma_flag_support_stable(
    base: ServiceManager,
    prev: ServiceManager,
    cur: ServiceManager,
    id: Seq<char>,
    queried: Seq<char>,
    flag: bool,
    lo: int,
)
    requires
        0 <= lo,
        running_flag_supported(base, prev, id, flag, lo),
        id != queried,
        defs_preserved(prev.services@, cur.services@),
        forall|k: int|
            0 <= k < prev.services@.len() && prev.services@[k].config@.id != queried ==> (
            #[trigger] cur.services@[k]).process == prev.services@[k].process,
        prev.probe.past_snapshots().is_prefix_of(cur.probe.past_snapshots()),
    ensures
        running_flag_supported(base, cur, id, flag, lo),
{
    let plen = prev.probe.past_snapshots().len() as int;
    assert(prev.probe.past_snapshots() == cur.probe.past_snapshots().subrange(0, plen));
    assert(forall|s: int|
        0 <= s < plen ==> #[trigger] prev.probe.past_snapshots()[s]
            == cur.probe.past_snapshots().subrange(0, plen)[s]);
    if flag {
        if exists|x: int|
            0 <= x < prev.services@.len() && (#[trigger] prev.services@[x]).config@.id == id
                && prev.services@[x].process is Some {
            let x = choose|x: int|
                0 <= x < prev.services@.len() && (#[trigger] prev.services@[x]).config@.id == id
                    && prev.services@[x].process is Some;
            assert(cur.services@[x].config@.id == id);
            assert(cur.services@[x].process is Some);
        } else {
            let s = choose|s: int|
                lo <= s < prev.probe.past_snapshots().len() && liveness_evidence_in(
                    #[trigger] prev.probe.past_snapshots()[s],
                    base.config_view_of(id),
                    base.pid_view_of(id),
                );
            assert(cur.probe.past_snapshots()[s] == prev.probe.past_snapshots()[s]);
        }
    } else {
        assert forall|x: int|
            0 <= x < cur.services@.len() && (#[trigger] cur.services@[x]).config@.id
                == id implies cur.services@[x].process is None by {
            assert(prev.services@[x].config@.id == id);
        }
        let s = choose|s: int|
            lo <= s < prev.probe.past_snapshots().len() && !liveness_evidence_in(
                #[trigger] prev.probe.past_snapshots()[s],
                base.config_view_of(id),
                base.pid_view_of(id),
            );
        assert(cur.probe.past_snapshots()[s] == prev.probe.past_snapshots()[s]);
    }
}

/// The signals one `stop` issues, with its witnesses: the snapshot the
/// children were read from, the resolved target pid, and the handle's
/// reported pid.
pub open spec fn signals_of(
    before: ServiceManager,
    after: ServiceManager,
    id: Seq<char>,
    snap: Seq<ProcEntry>,
    target: Option<u32>,
    hp: u32,
) -> bool {
    let pid0 = pid_of(before.services@, id);
    let has_handle = process_of(before.services@, id) is Some;
    &&& (match pid0 {
        Some(p) => target == Some(p),
        None => if has_handle {
            target is Some
        } else {
            target is None
        },
    })
    &&& after.kill_log() == before.kill_log() + (match target {
        Some(p) => if p > 0 {
            children_spec(snap, p)
        } else {
            Seq::<u32>::empty()
        },
        None => Seq::<u32>::empty(),
    }) + (if has_handle {
        seq![hp]
    } else {
        match target {
            Some(p) => seq![p],
            None => Seq::<u32>::empty(),
        }
    }) + matching_pids_spec(after.probe@, basename_spec(config_of(before.services@, id).exec_path))
}

/// What a `stop` of this id appends to the kill log: first the children
/// of the resolved target pid, as one refreshed snapshot listed them;
/// then the main process — through the owned handle when one is held,
/// else by the target pid; then, unconditionally, every process of the
/// final snapshot whose name matches the executable basename (the
/// sweep, which may hit an unrelated process of the same name — an
/// accepted limitation). The target resolves to the last-known pid when
/// recorded, else to the held handle's pid.
pub open spec fn termination_signals_logged(
    before: ServiceManager,
    after: ServiceManager,
    id: Seq<char>,
) -> bool {
    exists|snap: Seq<ProcEntry>, target: Option<u32>, hp: u32|
        signals_of(before, after, id, snap, target, hp)
}

/// The supervisor's registry and global settings: services keyed by their
/// unique id, a separate display/persistence order, and the process
/// probe. Every operation is meant to run under one exclusive lock held
/// by the embedding program.
pub struct ServiceManager {
    pub services: Vec<ManagedService>,
    pub service_order: Vec<String>,
    pub probe: Probe,
    pub config_listen: Option<String>,
    pub keep_alive_interval: u64,
    pub kills: Ghost<Seq<u32>>,
}

impl ServiceManager {
    /// The registry's ids, in storage order.
    pub open spec fn svc_ids(&self) -> Seq<Seq<char>> {
        ids_of(self.services@)
    }

    /// Every pid this controller has issued a termination signal to, in
    /// order of issue — the ghost record `stop` extends.
    pub open spec fn kill_log(&self) -> Seq<u32> {
        self.kills@
    }

    /// The display/persistence order, as id character sequences.
    pub open spec fn order_ids(&self) -> Seq<Seq<char>> {
        order_view(self.service_order@)
    }

    /// The registry invariant: no id occurs twice, and the order list is
    /// a permutation of the registry's id set.
    pub open spec fn wf(&self) -> bool {
        &&& self.svc_ids().no_duplicates()
        &&& self.order_ids().no_duplicates()
        &&& self.order_ids().to_set() == self.svc_ids().to_set()
    }

    /// Whether the registry holds a service with this id.
    pub open spec fn has_id(&self, id: Seq<char>) -> bool {
        self.svc_ids().contains(id)
    }

    /// The definition stored under this id.
    pub open spec fn config_view_of(&self, id: Seq<char>) -> ConfigView {
        config_of(self.services@, id)
    }

    /// The last-known pid stored under this id.
    pub open spec fn pid_view_of(&self, id: Seq<char>) -> Option<u32> {
        pid_of(self.services@, id)
    }

    /// The global settings and the probe are those of `other`.
    pub open spec fn same_settings(&self, other: &ServiceManager) -> bool {
        &&& self.config_listen == other.config_listen
        &&& self.keep_alive_interval == other.keep_alive_interval
    }

    fn find_index(&self, id: &str) -> (r: Option<usize>)
        ensures
            match r {
                Some(i) => i < self.services@.len() && self.services@[i as int].config@.id == id@,
                None => !self.has_id(id@),
            },
    {
        let n = self.services.len();
        let mut i: usize = 0;
        while i < n
            invariant
                n == self.services@.len(),
                i <= n,
                forall|j: int| 0 <= j < i ==> self.services@[j].config@.id != id@,
            decreases n - i,
        {
            if str_eq(self.services[i].config.id.as_str(), id) {
                return Some(i);
            }
            i = i + 1;
        }
        proof {
            assert forall|j: int| 0 <= j < self.svc_ids().len() implies self.svc_ids()[j]
                != id@ by {
                assert(self.svc_ids()[j] == self.services@[j].config@.id);
            }
        }
        None
    }

    /// Whether a service with this id is registered.
    pub fn has_service(&self, id: &str) -> (r: bool)
        ensures
            r == self.has_id(id@),
    {
        match self.find_index(id) {
            Some(i) => {
                proof {
                    assert(self.svc_ids()[i as int] == id@);
                }
                true
            },
            None => false,
        }
    }

    /// Whether the service is running now, checked in three tiers and
    /// short-circuiting on the first positive: a live owned handle, the
    /// last-known pid found in a fresh process snapshot, or a process
    /// whose name matches the configured executable. A handle whose
    /// process has exited is cleared on the way. Definitions, pids and
    /// the order are never changed, and no handle is created.
    pub fn is_running(&mut self, id: &str) -> (r: bool)
        requires
            old(self).wf(),
        ensures
            final(self).wf(),
            final(self).same_settings(old(self)),
            final(self).kill_log() == old(self).kill_log(),
            final(self).service_order@ == old(self).service_order@,
            defs_preserved(old(self).services@, final(self).services@),
            no_new_handles(old(self).services@, final(self).services@),
            forall|k: int|
                0 <= k < old(self).services@.len() && old(self).services@[k].config@.id != id@
                    ==> (#[trigger] final(self).services@[k]).process == old(
                    self,
                ).services@[k].process,
            old(self).probe.past_snapshots().is_prefix_of(final(self).probe.past_snapshots()),
            !old(self).has_id(id@) ==> r == false && *final(self) == *old(self),
            r ==> old(self).has_id(id@),
            r ==> {
                ||| (exists|k: int|
                    0 <= k < final(self).services@.len() && (#[trigger] final(self).services@[k]).config@.id
                        == id@ && final(self).services@[k].process is Some)
                ||| ({
                    &&& final(self).probe.past_snapshots().len() > old(
                        self,
                    ).probe.past_snapshots().len()
                    &&& final(self).probe@ == final(self).probe.past_snapshots().last()
                    &&& liveness_evidence_in(
                        final(self).probe@,
                        final(self).config_view_of(id@),
                        final(self).pid_view_of(id@),
                    )
                })
            },
            old(self).has_id(id@) && !r ==> {
                &&& (forall|k: int|
                    0 <= k < old(self).services@.len() && (#[trigger] old(
                        self,
                    ).services@[k]).config@.id == id@ ==> final(self).services@[k].process is None)
                &&& final(self).probe.past_snapshots().len() > old(
                    self,
                ).probe.past_snapshots().len()
                &&& final(self).probe@ == final(self).probe.past_snapshots().last()
                &&& !liveness_evidence_in(
                    final(self).probe@,
                    final(self).config_view_of(id@),
                    final(self).pid_view_of(id@),
                )
            },
    {
        let idx = self.find_index(id);
        let i = match idx {
            Some(i) => i,
            None => {
                proof {
                    lemma_prefix_self(self.probe.past_snapshots());
                }
                return false;
            },
        };
        proof {
            assert(old(self).svc_ids()[i as int] == id@);
        }
        let ghost before = self.services@;
        let still = {
            let slot = &mut self.services[i];
            let alive = match &mut slot.process {
                Some(c) => child_running(c),
                None => false,
            };
            if !alive {
                slot.process = None;
            }
            alive
        };
        proof {
            assert(defs_preserved(before, self.services@));
            assert(ids_of(self.services@) =~= ids_of(before));
            assert forall|k: int|
                0 <= k < before.len() && before[k].config@.id == id@ implies k == i as int by {
                assert(ids_of(before)[k] == before[k].config@.id);
                assert(ids_of(before)[i as int] == before[i as int].config@.id);
            }
        }
        if still {
            proof {
                lemma_prefix_self(self.probe.past_snapshots());
            }
            return true;
        }
        self.probe.refresh();
        let pid_opt = self.services[i].last_known_pid;
        proof {
            lemma_prefix_push(old(self).probe.past_snapshots(), self.probe@);
            lemma_lookup_at(self.services@, i as int);
            lemma_lookup_congruence(old(self).services@, self.services@, id@);
        }
        if let Some(p) = pid_opt {
            if self.probe.is_alive(p) {
                return true;
            }
        }
        let name = exec_file_name(self.services[i].config.exec_path.as_str());
        let found = self.probe.find_by_name(name);
        found.is_some()
    }

    /// The ordered status report: every service's definition, whether it
    /// is running now (recomputed live, never cached), and its last-known
    /// pid.
    pub fn list(&mut self) -> (r: Vec<ServiceStatusSnapshot>)
        requires
            old(self).wf(),
        ensures
            final(self).wf(),
            final(self).same_settings(old(self)),
            final(self).kill_log() == old(self).kill_log(),
            final(self).service_order@ == old(self).service_order@,
            defs_preserved(old(self).services@, final(self).services@),
            no_new_handles(old(self).services@, final(self).services@),
            r@.len() == old(self).order_ids().len(),
            forall|k: int|
                0 <= k < r@.len() ==> (#[trigger] r@[k]).config@ == old(self).config_view_of(
                    old(self).order_ids()[k],
                ) && r@[k].pid == old(self).pid_view_of(old(self).order_ids()[k]),
            old(self).probe.past_snapshots().is_prefix_of(final(self).probe.past_snapshots()),
            forall|k: int|
                0 <= k < r@.len() ==> running_flag_supported(
                    *old(self),
                    *final(self),
                    old(self).order_ids()[k],
                    (#[trigger] r@[k]).running,
                    old(self).probe.past_snapshots().len() as int,
                ),
    {
        let ghost lo = old(self).probe.past_snapshots().len() as int;
        let order = clone_string_vec(&self.service_order);
        let mut results: Vec<ServiceStatusSnapshot> = Vec::new();
        let n = order.len();
        let mut k: usize = 0;
        proof {
            lemma_prefix_self(self.probe.past_snapshots());
        }
        while k < n
            invariant
                old(self).wf(),
                self.wf(),
                n == order@.len(),
                k <= n,
                lo == old(self).probe.past_snapshots().len() as int,
                order@ == old(self).service_order@,
                self.service_order@ == old(self).service_order@,
                self.same_settings(old(self)),
                self.kill_log() == old(self).kill_log(),
                defs_preserved(old(self).services@, self.services@),
                no_new_handles(old(self).services@, self.services@),
                old(self).probe.past_snapshots().is_prefix_of(self.probe.past_snapshots()),
                results@.len() == k,
                forall|j: int|
                    0 <= j < k ==> (#[trigger] results@[j]).config@ == old(self).config_view_of(
                        old(self).order_ids()[j],
                    ) && results@[j].pid == old(self).pid_view_of(old(self).order_ids()[j]),
                forall|j: int|
                    0 <= j < k ==> running_flag_supported(
                        *old(self),
                        *self,
                        old(self).order_ids()[j],
                        (#[trigger] results@[j]).running,
                        lo,
                    ),
            decreases n - k,
        {
            proof {
                lemma_order_permutes_ids(self);
                assert(self.order_ids()[k as int] == order@[k as int]@);
                assert(self.order_ids().contains(self.order_ids()[k as int]));
            }
            let ghost prev_m = *self;
            let running = self.is_running(order[k].as_str());
            let at = self.find_index(order[k].as_str());
            match at {
                Some(i) => {
                    proof {
                        lemma_lookup_at(self.services@, i as int);
                        lemma_lookup_congruence(old(self).services@, self.services@, order@[
                            k as int
                        ]@);
                    }
                    let snap = ServiceStatusSnapshot {
                        config: self.services[i].config.clone(),
                        running,
                        pid: self.services[i].last_known_pid,
                    };
                    results.push(snap);
                    proof {
                        lemma_prefix_trans(
                            old(self).probe.past_snapshots(),
                            prev_m.probe.past_snapshots(),
                            self.probe.past_snapshots(),
                        );
                        let ghost idk = old(self).order_ids()[k as int];
                        assert forall|j: int| 0 <= j < k + 1 implies running_flag_supported(
                            *old(self),
                            *self,
                            old(self).order_ids()[j],
                            (#[trigger] results@[j]).running,
                            lo,
                        ) by {
                            if j == k {
                                if running {
                                    if !(exists|x: int|
                                        0 <= x < self.services@.len() && (
                                        #[trigger] self.services@[x]).config@.id == idk
                                            && self.services@[x].process is Some) {
                                        let s = self.probe.past_snapshots().len() - 1;
                                        assert(prev_m.probe.past_snapshots().len() >= lo);
                                        assert(lo <= s < self.probe.past_snapshots().len());
                                        assert(liveness_evidence_in(
                                            self.probe.past_snapshots()[s as int],
                                            old(self).config_view_of(idk),
                                            old(self).pid_view_of(idk),
                                        ));
                                    }
                                } else {
                                    assert forall|x: int|
                                        0 <= x < self.services@.len() && (
                                        #[trigger] self.services@[x]).config@.id
                                            == idk implies self.services@[x].process is None by {
                                        assert(prev_m.services@[x].config@.id == idk);
                                    }
                                    let s = self.probe.past_snapshots().len() - 1;
                                    assert(prev_m.probe.past_snapshots().len() >= lo);
                                    assert(lo <= s < self.probe.past_snapshots().len());
                                    assert(!liveness_evidence_in(
                                        self.probe.past_snapshots()[s as int],
                                        old(self).config_view_of(idk),
                                        old(self).pid_view_of(idk),
                                    ));
                                }
                            } else {
                                assert(old(self).order_ids()[j] != idk);
                                lemma_flag_support_stable(
                                    *old(self),
                                    prev_m,
                                    *self,
                                    old(self).order_ids()[j],
                                    idk,
                                    results@[j].running,
                                    lo,
                                );
                            }
                        }
                    }
                },
                None => {
                    proof {
                        lemma_lookup_congruence(prev_m.services@, self.services@, order@[
                            k as int
                        ]@);
                        assert(false);
                    }
                },
            }
            k = k + 1;
        }
        results
    }

    /// Inserts a new definition at the end of the order, or replaces an
    /// existing id's definition in place, leaving its runtime handle and
    /// pid untouched.
    pub fn upsert_service(&mut self, config: ServiceConfig)
        requires
            old(self).wf(),
        ensures
            final(self).wf(),
            final(self).same_settings(old(self)),
            final(self).probe == old(self).probe,
            final(self).kill_log() == old(self).kill_log(),
            old(self).has_id(config@.id) ==> {
                &&& final(self).service_order@ == old(self).service_order@
                &&& final(self).services@.len() == old(self).services@.len()
                &&& forall|k: int|
                    0 <= k < old(self).services@.len() ==> if old(
                        self,
                    ).services@[k].config@.id == config@.id {
                        &&& (#[trigger] final(self).services@[k]).config@ == config@
                        &&& final(self).services@[k].process == old(self).services@[k].process
                        &&& final(self).services@[k].last_known_pid == old(
                            self,
                        ).services@[k].last_known_pid
                    } else {
                        final(self).services@[k] == old(self).services@[k]
                    }
            },
            !old(self).has_id(config@.id) ==> {
                &&& final(self).service_order@ == old(self).service_order@.push(config.id)
                &&& final(self).services@.len() == old(self).services@.len() + 1
                &&& forall|k: int|
                    0 <= k < old(self).services@.len() ==> final(self).services@[k] == old(
                        self,
                    ).services@[k]
                &&& final(self).services@.last().config@ == config@
                &&& final(self).services@.last().process is None
                &&& final(self).services@.last().last_known_pid is None
            },
    {
        proof {
            lemma_order_permutes_ids(old(self));
        }
        if !order_contains(&self.service_order, config.id.as_str()) {
            self.service_order.push(config.id.clone());
        }
        let at = self.find_index(config.id.as_str());
        match at {
            Some(i) => {
                proof {
                    assert(old(self).svc_ids()[i as int] == config@.id);
                    assert(old(self).has_id(config@.id));
                }
                let ghost before = self.services@;
                let slot = &mut self.services[i];
                slot.config = config;
                proof {
                    assert(self.services@[i as int].config == config);
                    assert(self.services@[i as int].process == before[i as int].process);
                    assert(self.services@[i as int].last_known_pid == before[
                        i as int
                    ].last_known_pid);
                    assert(forall|k: int|
                        0 <= k < before.len() && k != i ==> self.services@[k] == before[k]);
                    assert(ids_of(self.services@) =~= ids_of(before));
                    assert forall|k: int|
                        0 <= k < before.len() && before[k].config@.id == config@.id implies k
                        == i as int by {
                        assert(ids_of(before)[k] == before[k].config@.id);
                        assert(ids_of(before)[i as int] == before[i as int].config@.id);
                    }
                }
            },
            None => {
                self.services.push(ManagedService::new(config));
                proof {
                    let f = |m: ManagedService| m.config@.id;
                    old(self).services@.lemma_push_map_commute(f, self.services@.last());
                    assert(ids_of(self.services@) =~= ids_of(old(self).services@).push(
                        config@.id,
                    ));
                    assert(self.order_ids() =~= old(self).order_ids().push(config@.id));
                    ids_of(old(self).services@).lemma_push_to_set_commute(config@.id);
                    old(self).order_ids().lemma_push_to_set_commute(config@.id);
                }
            },
        }
    }

    /// Projects a requested order onto the known ids and makes it the new
    /// display order: unknown ids are dropped, duplicates collapse to
    /// their first occurrence, and known ids missing from the request are
    /// appended in their prior relative order.
    pub fn reorder_services(&mut self, new_order: Vec<String>)
        requires
            old(self).wf(),
        ensures
            final(self).wf(),
            final(self).same_settings(old(self)),
            final(self).probe == old(self).probe,
            final(self).kill_log() == old(self).kill_log(),
            final(self).services@ == old(self).services@,
            final(self).order_ids() == project_order(
                order_view(new_order@),
                old(self).order_ids(),
            ),
    {
        let ghost req = order_view(new_order@);
        let ghost known = old(self).order_ids();
        let mut unique: Vec<String> = Vec::new();
        let mut i: usize = 0;
        while i < new_order.len()
            invariant
                old(self).wf(),
                *self == *old(self),
                i <= new_order@.len(),
                req == order_view(new_order@),
                known == old(self).order_ids(),
                order_view(unique@) == dedup_known(req.take(i as int), known),
            decreases new_order@.len() - i,
        {
            let ghost pre = req.take(i as int);
            proof {
                assert(req.take(i + 1).drop_last() =~= pre);
                assert(req.take(i + 1).last() == req[i as int]);
                assert(req[i as int] == new_order@[i as int]@);
            }
            let known_id = self.has_service(new_order[i].as_str());
            proof {
                lemma_order_permutes_ids(old(self));
                assert(old(self).has_id(req[i as int]) == known.contains(req[i as int]));
            }
            if known_id && !order_contains(&unique, new_order[i].as_str()) {
                let ghost uvs = unique@;
                unique.push(new_order[i].clone());
                proof {
                    assert(order_view(unique@) =~= order_view(uvs).push(req[i as int]));
                }
            }
            i = i + 1;
        }
        proof {
            assert(req.take(req.len() as int) =~= req);
        }
        let n = self.service_order.len();
        let mut j: usize = 0;
        while j < n
            invariant
                old(self).wf(),
                *self == *old(self),
                n == old(self).service_order@.len(),
                j <= n,
                req == order_view(new_order@),
                known == old(self).order_ids(),
                order_view(unique@) == dedup_known(req, known) + missing_ids(
                    known.take(j as int),
                    req,
                ),
            decreases n - j,
        {
            let ghost pre = known.take(j as int);
            proof {
                assert(known.take(j + 1).drop_last() =~= pre);
                assert(known.take(j + 1).last() == known[j as int]);
                assert(known[j as int] == old(self).service_order@[j as int]@);
            }
            if !order_contains(&new_order, self.service_order[j].as_str()) {
                let ghost uvs = unique@;
                unique.push(self.service_order[j].clone());
                proof {
                    assert(order_view(unique@) =~= order_view(uvs).push(known[j as int]));
                }
            }
            j = j + 1;
        }
        proof {
            assert(known.take(known.len() as int) =~= known);
        }
        self.service_order = unique;
        proof {
            lemma_project_order(req, known);
            assert(final(self).order_ids().to_set() =~= old(self).order_ids().to_set());
        }
    }

    /// What a `start` of this service does, given the liveness verdict
    /// already computed: nothing when it is running (starting twice is a
    /// success, not an error, and spawns nothing), a refusal when the id
    /// is unknown, and otherwise the fully materialized launch plan.
    pub fn prepare_start_resolved(&self, id: &str, running: bool) -> (r: Result<
        Option<LaunchPlan>,
        ServiceError,
    >)
        requires
            self.wf(),
        ensures
            running ==> r == Ok::<Option<LaunchPlan>, ServiceError>(None),
            !running ==> match r {
                Ok(Some(plan)) => self.has_id(id@) && plan_matches(plan, self.config_view_of(id@)),
                Ok(None) => false,
                Err(e) => e == ServiceError::UnknownService && !self.has_id(id@),
            },
    {
        if running {
            return Ok(None);
        }
        let at = self.find_index(id);
        match at {
            None => Err(ServiceError::UnknownService),
            Some(i) => {
                proof {
                    assert(self.svc_ids()[i as int] == id@);
                    lemma_lookup_at(self.services@, i as int);
                }
                let cfg = &self.services[i].config;
                let args = build_args(&cfg.args, &cfg.env);
                let path = resolve_exec_path(&cfg.working_dir, cfg.exec_path.as_str());
                let flags: u32 = match &cfg.windows {
                    Some(w) => match w.creation_flags {
                        Some(f) => f,
                        None => DEFAULT_CREATION_FLAGS,
                    },
                    None => DEFAULT_CREATION_FLAGS,
                };
                let plan = LaunchPlan {
                    exec_path: path,
                    args,
                    working_dir: clone_opt_string(&cfg.working_dir),
                    creation_flags: flags,
                };
                Ok(Some(plan))
            },
        }
    }

    /// Decides a `start`: recomputes liveness, then resolves the launch
    /// plan. `Ok(None)` means the service already runs and nothing is to
    /// be spawned; `Ok(Some(plan))` hands the caller what to spawn; the
    /// spawn outcome is recorded with [`ServiceManager::record_spawn`].
    pub fn prepare_start(&mut self, id: &str) -> (r: Result<Option<LaunchPlan>, ServiceError>)
        requires
            old(self).wf(),
        ensures
            final(self).wf(),
            final(self).same_settings(old(self)),
            final(self).kill_log() == old(self).kill_log(),
            final(self).service_order@ == old(self).service_order@,
            defs_preserved(old(self).services@, final(self).services@),
            no_new_handles(old(self).services@, final(self).services@),
            forall|k: int|
                0 <= k < old(self).services@.len() && old(self).services@[k].config@.id != id@
                    ==> (#[trigger] final(self).services@[k]).process == old(
                    self,
                ).services@[k].process,
            r matches Err(e) ==> e == ServiceError::UnknownService && !old(self).has_id(id@),
            !old(self).has_id(id@) ==> r == Err::<Option<LaunchPlan>, ServiceError>(
                ServiceError::UnknownService,
            ),
            r matches Ok(Some(plan)) ==> old(self).has_id(id@) && plan_matches(
                plan,
                old(self).config_view_of(id@),
            ),
            old(self).probe.past_snapshots().is_prefix_of(final(self).probe.past_snapshots()),
            r == Ok::<Option<LaunchPlan>, ServiceError>(None) ==> {
                ||| (exists|k: int|
                    0 <= k < final(self).services@.len() && (#[trigger] final(self).services@[k]).config@.id
                        == id@ && final(self).services@[k].process is Some)
                ||| ({
                    &&& final(self).probe.past_snapshots().len() > old(
                        self,
                    ).probe.past_snapshots().len()
                    &&& final(self).probe@ == final(self).probe.past_snapshots().last()
                    &&& liveness_evidence_in(
                        final(self).probe@,
                        final(self).config_view_of(id@),
                        final(self).pid_view_of(id@),
                    )
                })
            },
            r matches Ok(Some(_)) ==> {
                &&& (forall|k: int|
                    0 <= k < old(self).services@.len() && (#[trigger] old(
                        self,
                    ).services@[k]).config@.id == id@ ==> final(self).services@[k].process is None)
                &&& final(self).probe.past_snapshots().len() > old(
                    self,
                ).probe.past_snapshots().len()
                &&& final(self).probe@ == final(self).probe.past_snapshots().last()
                &&& !liveness_evidence_in(
                    final(self).probe@,
                    final(self).config_view_of(id@),
                    final(self).pid_view_of(id@),
                )
            },
    {
        let running = self.is_running(id);
        proof {
            lemma_lookup_congruence(old(self).services@, self.services@, id@);
        }
        self.prepare_start_resolved(id, running)
    }

    /// Records a successful spawn: the service owns the new handle and
    /// its pid becomes the last-known pid. Everything else is untouched.
    pub fn record_spawn(&mut self, id: &str, child: tokio::process::Child, pid: u32)
        requires
            old(self).wf(),
            old(self).has_id(id@),
        ensures
            final(self).wf(),
            final(self).same_settings(old(self)),
            final(self).probe == old(self).probe,
            final(self).kill_log() == old(self).kill_log(),
            final(self).service_order@ == old(self).service_order@,
            final(self).services@.len() == old(self).services@.len(),
            forall|k: int|
                0 <= k < old(self).services@.len() ==> if old(self).services@[k].config@.id
                    == id@ {
                    &&& (#[trigger] final(self).services@[k]).config == old(
                        self,
                    ).services@[k].config
                    &&& final(self).services@[k].process == Some(child)
                    &&& final(self).services@[k].last_known_pid == Some(pid)
                } else {
                    final(self).services@[k] == old(self).services@[k]
                },
    {
        let at = self.find_index(id);
        match at {
            Some(i) => {
                let ghost before = self.services@;
                proof {
                    assert(ids_of(before)[i as int] == before[i as int].config@.id);
                }
                let slot = &mut self.services[i];
                slot.process = Some(child);
                slot.last_known_pid = Some(pid);
                proof {
                    assert(ids_of(self.services@) =~= ids_of(before));
                    assert forall|k: int|
                        0 <= k < before.len() && before[k].config@.id == id@ implies k
                        == i as int by {
                        assert(ids_of(before)[k] == before[k].config@.id);
                    }
                }
            },
            None => {
                proof {
                    assert(false);
                }
            },
        }
    }

    /// Terminates a service, best effort: detected children of the
    /// target pid first, then the main process through the owned handle
    /// or by pid, then an unconditional sweep killing every process left
    /// whose name matches the executable. The pid-based part cannot
    /// guarantee every instance of a multiply-launched executable is
    /// gone, hence the sweep; the sweep in turn can hit an unrelated
    /// process that happens to share the executable name. The last-known
    /// pid and the handle are cleared unconditionally; kill failures are
    /// absorbed, so the call only fails on an unknown id.
    pub fn stop(&mut self, id: &str) -> (r: Result<(), ServiceError>)
        requires
            old(self).wf(),
        ensures
            final(self).wf(),
            final(self).same_settings(old(self)),
            final(self).service_order@ == old(self).service_order@,
            r matches Err(e) ==> e == ServiceError::UnknownService,
            r is Err <==> !old(self).has_id(id@),
            !old(self).has_id(id@) ==> *final(self) == *old(self),
            old(self).has_id(id@) ==> {
                &&& final(self).services@.len() == old(self).services@.len()
                &&& forall|k: int|
                    0 <= k < old(self).services@.len() ==> if old(self).services@[k].config@.id
                        == id@ {
                        &&& (#[trigger] final(self).services@[k]).config == old(
                            self,
                        ).services@[k].config
                        &&& final(self).services@[k].process is None
                        &&& final(self).services@[k].last_known_pid is None
                    } else {
                        final(self).services@[k] == old(self).services@[k]
                    }
                &&& termination_signals_logged(*old(self), *final(self), id@)
            },
    {
        let at = self.find_index(id);
        let i = match at {
            Some(i) => i,
            None => {
                return Err(ServiceError::UnknownService);
            },
        };
        let ghost before = self.services@;
        let ghost log0 = self.kills@;
        proof {
            assert(ids_of(before)[i as int] == before[i as int].config@.id);
            assert forall|k: int|
                0 <= k < before.len() && before[k].config@.id == id@ implies k == i as int by {
                assert(ids_of(before)[k] == before[k].config@.id);
            }
            lemma_lookup_at(before, i as int);
        }
        let target: Option<u32> = match self.services[i].last_known_pid {
            Some(p) => Some(p),
            None => match &self.services[i].process {
                Some(c) => Some(c.id().unwrap_or(0)),
                None => None,
            },
        };
        let ghost mut snap_w: Seq<ProcEntry> = Seq::empty();
        let ghost mut child_part: Seq<u32> = Seq::empty();
        if let Some(pv) = target {
            if pv > 0 {
                self.probe.refresh();
                proof {
                    snap_w = self.probe@;
                }
                let kids = self.probe.children_of(pv);
                proof {
                    child_part = kids@;
                }
                let ghost at_loop = *self;
                let mut ci: usize = 0;
                while ci < kids.len()
                    invariant
                        ci <= kids@.len(),
                        self.services@ == at_loop.services@,
                        self.service_order@ == at_loop.service_order@,
                        self.probe == at_loop.probe,
                        self.config_listen == at_loop.config_listen,
                        self.keep_alive_interval == at_loop.keep_alive_interval,
                        self.kills@ == at_loop.kills@ + kids@.take(ci as int),
                    decreases kids@.len() - ci,
                {
                    self.kills = Ghost(self.kills@.push(kids@[ci as int]));
                    let _sent = self.probe.kill(kids[ci]);
                    proof {
                        assert(self.kills@ =~= at_loop.kills@ + kids@.take(ci + 1));
                    }
                    ci = ci + 1;
                }
                proof {
                    assert(kids@.take(kids@.len() as int) =~= kids@);
                }
            }
        }
        proof {
            assert(self.kills@ =~= log0 + child_part);
        }
        let ghost log1 = self.kills@;
        let handle = {
            let slot = &mut self.services[i];
            slot.process.take()
        };
        proof {
            assert(defs_preserved(before, self.services@));
            assert(ids_of(self.services@) =~= ids_of(before));
        }
        let ghost mut main_part: Seq<u32> = Seq::empty();
        let ghost mut hp_w: u32 = 0;
        match handle {
            Some(mut c) => {
                let hp = c.id().unwrap_or(0);
                self.kills = Ghost(self.kills@.push(hp));
                proof {
                    main_part = seq![hp];
                    hp_w = hp;
                }
                let _sent = child_kill_signal(&mut c);
            },
            None => {
                if let Some(pv) = target {
                    self.kills = Ghost(self.kills@.push(pv));
                    proof {
                        main_part = seq![pv];
                    }
                    let _sent = self.probe.kill(pv);
                }
            },
        }
        proof {
            assert(self.kills@ =~= log1 + main_part);
        }
        self.probe.refresh();
        let stray = {
            let name = exec_file_name(self.services[i].config.exec_path.as_str());
            self.probe.pids_by_name(name)
        };
        let ghost at_sweep = *self;
        let mut si: usize = 0;
        while si < stray.len()
            invariant
                si <= stray@.len(),
                self.services@ == at_sweep.services@,
                self.service_order@ == at_sweep.service_order@,
                self.probe == at_sweep.probe,
                self.config_listen == at_sweep.config_listen,
                self.keep_alive_interval == at_sweep.keep_alive_interval,
                self.kills@ == at_sweep.kills@ + stray@.take(si as int),
            decreases stray@.len() - si,
        {
            self.kills = Ghost(self.kills@.push(stray@[si as int]));
            let _sent = self.probe.kill(stray[si]);
            proof {
                assert(self.kills@ =~= at_sweep.kills@ + stray@.take(si + 1));
            }
            si = si + 1;
        }
        proof {
            assert(stray@.take(stray@.len() as int) =~= stray@);
        }
        let slot = &mut self.services[i];
        slot.last_known_pid = None;
        proof {
            assert(ids_of(self.services@) =~= ids_of(before));
            assert(self.kills@ =~= log0 + child_part + main_part + stray@);
            assert(config_of(old(self).services@, id@) == before[i as int].config@);
            assert(self.services@[i as int].config == before[i as int].config);
            assert(stray@ == matching_pids_spec(
                self.probe@,
                basename_spec(config_of(old(self).services@, id@).exec_path),
            ));
            assert(signals_of(*old(self), *self, id@, snap_w, target, hp_w));
            assert(termination_signals_logged(*old(self), *self, id@));
        }
        Ok(())
    }

    /// Stops the service best effort, then deletes it from the registry
    /// and the order. Fails only when the id is unknown.
    pub fn remove_service(&mut self, id: &str) -> (r: Result<(), ServiceError>)
        requires
            old(self).wf(),
        ensures
            final(self).wf(),
            final(self).same_settings(old(self)),
            r matches Err(e) ==> e == ServiceError::UnknownService,
            r is Err <==> !old(self).has_id(id@),
            !old(self).has_id(id@) ==> *final(self) == *old(self),
            old(self).has_id(id@) ==> {
                &&& final(self).order_ids() == remove_id(old(self).order_ids(), id@)
                &&& exists|i: int|
                    0 <= i < old(self).services@.len() && old(self).services@[i].config@.id == id@
                        && final(self).services@ =~= old(self).services@.remove(i)
                &&& !final(self).has_id(id@)
                &&& termination_signals_logged(*old(self), *final(self), id@)
            },
    {
        let _best_effort = self.stop(id);
        let ghost stopped_state = *self;
        let at = self.find_index(id);
        let i = match at {
            Some(i) => i,
            None => {
                proof {
                    if old(self).has_id(id@) {
                        assert(ids_of(self.services@) =~= ids_of(old(self).services@));
                        assert(false);
                    }
                }
                return Err(ServiceError::UnknownService);
            },
        };
        let ghost mid = self.services@;
        proof {
            if !old(self).has_id(id@) {
                assert(*self == *old(self));
                assert(old(self).svc_ids()[i as int] == id@);
                assert(false);
            }
            assert(ids_of(mid) =~= ids_of(old(self).services@));
            assert(ids_of(mid)[i as int] == mid[i as int].config@.id);
            assert forall|k: int|
                0 <= k < mid.len() && mid[k].config@.id == id@ implies k == i as int by {
                assert(ids_of(mid)[k] == mid[k].config@.id);
            }
            assert forall|k: int| 0 <= k < mid.len() && k != i implies mid[k] == old(
                self,
            ).services@[k] by {
                assert(ids_of(mid)[k] == ids_of(old(self).services@)[k]);
                assert(old(self).services@[k].config@.id == mid[k].config@.id);
            }
        }
        let _gone = self.services.remove(i);
        proof {
            assert(ids_of(self.services@) =~= ids_of(mid).remove(i as int));
            lemma_remove_entry(ids_of(mid), i as int);
            assert(self.services@ =~= old(self).services@.remove(i as int)) by {
                assert(forall|k: int|
                    0 <= k < mid.len() && k != i ==> mid[k] == old(self).services@[k]);
            }
        }
        let mut kept: Vec<String> = Vec::new();
        let n = self.service_order.len();
        let mut j: usize = 0;
        while j < n
            invariant
                n == self.service_order@.len(),
                j <= n,
                self.service_order@ == old(self).service_order@,
                order_view(kept@) == remove_id(self.order_ids().take(j as int), id@),
            decreases n - j,
        {
            let ghost pre = self.order_ids().take(j as int);
            proof {
                assert(self.order_ids().take(j + 1).drop_last() =~= pre);
                assert(self.order_ids().take(j + 1).last() == self.order_ids()[j as int]);
                assert(self.order_ids()[j as int] == self.service_order@[j as int]@);
            }
            if !str_eq(self.service_order[j].as_str(), id) {
                let ghost kpre = kept@;
                kept.push(self.service_order[j].clone());
                proof {
                    assert(order_view(kept@) =~= order_view(kpre).push(self.order_ids()[j as int]));
                }
            }
            j = j + 1;
        }
        proof {
            assert(self.order_ids().take(n as int) =~= self.order_ids());
        }
        self.service_order = kept;
        proof {
            lemma_remove_id(old(self).order_ids(), id@);
            lemma_order_permutes_ids(old(self));
            assert(self.order_ids().to_set() =~= ids_of(self.services@).to_set());
            let (snap, target, hp) = choose|snap: Seq<ProcEntry>, target: Option<u32>, hp: u32|
                signals_of(*old(self), stopped_state, id@, snap, target, hp);
            assert(signals_of(*old(self), *self, id@, snap, target, hp));
        }
        Ok(())
    }

    /// The ids of the services marked autorun, in display order: the
    /// services the supervisor starts at boot and keeps alive.
    pub fn autorun_ids(&self) -> (r: Vec<String>)
        requires
            self.wf(),
        ensures
            order_view(r@) == autorun_project(self.order_ids(), self.services@),
    {
        let mut out: Vec<String> = Vec::new();
        let n = self.service_order.len();
        let mut k: usize = 0;
        while k < n
            invariant
                self.wf(),
                n == self.service_order@.len(),
                k <= n,
                order_view(out@) == autorun_project(self.order_ids().take(k as int), self.services@),
            decreases n - k,
        {
            let ghost pre = self.order_ids().take(k as int);
            proof {
                lemma_order_permutes_ids(self);
                assert(self.order_ids().take(k + 1).drop_last() =~= pre);
                assert(self.order_ids().take(k + 1).last() == self.order_ids()[k as int]);
                assert(self.order_ids()[k as int] == self.service_order@[k as int]@);
                assert(self.order_ids().contains(self.order_ids()[k as int]));
            }
            let at = self.find_index(self.service_order[k].as_str());
            match at {
                Some(i) => {
                    proof {
                        lemma_lookup_at(self.services@, i as int);
                    }
                    let autorun = match self.services[i].config.autorun {
                        Some(b) => b,
                        None => false,
                    };
                    if autorun {
                        let ghost opre = out@;
                        out.push(self.service_order[k].clone());
                        proof {
                            assert(order_view(out@) =~= order_view(opre).push(self.order_ids()[
                                k as int
                            ]));
                        }
                    }
                },
                None => {
                    proof {
                        assert(false);
                    }
                },
            }
            k = k + 1;
        }
        proof {
            assert(self.order_ids().take(n as int) =~= self.order_ids());
        }
        out
    }

    /// One reconciliation pass of the health monitor: recomputes liveness
    /// for every service in display order and returns the autorun ids
    /// found not running — the ones a keep-alive tick should start.
    pub fn keep_alive_candidates(&mut self) -> (r: Vec<String>)
        requires
            old(self).wf(),
        ensures
            final(self).wf(),
            final(self).same_settings(old(self)),
            final(self).kill_log() == old(self).kill_log(),
            final(self).service_order@ == old(self).service_order@,
            defs_preserved(old(self).services@, final(self).services@),
            no_new_handles(old(self).services@, final(self).services@),
            order_view(r@).no_duplicates(),
            forall|k: int|
                0 <= k < r@.len() ==> old(self).has_id((#[trigger] r@[k])@) && is_autorun(
                    old(self).config_view_of(r@[k]@),
                ),
            old(self).probe.past_snapshots().is_prefix_of(final(self).probe.past_snapshots()),
            forall|k: int|
                0 <= k < old(self).order_ids().len() && is_autorun(
                    old(self).config_view_of(#[trigger] old(self).order_ids()[k]),
                ) ==> {
                    ||| order_view(r@).contains(old(self).order_ids()[k])
                    ||| running_flag_supported(
                        *old(self),
                        *final(self),
                        old(self).order_ids()[k],
                        true,
                        old(self).probe.past_snapshots().len() as int,
                    )
                },
    {
        let ghost lo = old(self).probe.past_snapshots().len() as int;
        proof {
            lemma_prefix_self(self.probe.past_snapshots());
        }
        let order = clone_string_vec(&self.service_order);
        let mut out: Vec<String> = Vec::new();
        let n = order.len();
        let mut k: usize = 0;
        while k < n
            invariant
                old(self).wf(),
                self.wf(),
                n == order@.len(),
                k <= n,
                order@ == old(self).service_order@,
                self.service_order@ == old(self).service_order@,
                self.same_settings(old(self)),
                self.kill_log() == old(self).kill_log(),
                defs_preserved(old(self).services@, self.services@),
                no_new_handles(old(self).services@, self.services@),
                order_view(out@).no_duplicates(),
                lo == old(self).probe.past_snapshots().len() as int,
                old(self).probe.past_snapshots().is_prefix_of(self.probe.past_snapshots()),
                forall|x: Seq<char>|
                    #[trigger] order_view(out@).contains(x) ==> old(self).order_ids().take(
                        k as int,
                    ).contains(x),
                forall|j: int|
                    0 <= j < out@.len() ==> old(self).has_id((#[trigger] out@[j])@) && is_autorun(
                        old(self).config_view_of(out@[j]@),
                    ),
                forall|j: int|
                    0 <= j < k && is_autorun(
                        old(self).config_view_of(#[trigger] old(self).order_ids()[j]),
                    ) ==> {
                        ||| order_view(out@).contains(old(self).order_ids()[j])
                        ||| running_flag_supported(
                            *old(self),
                            *self,
                            old(self).order_ids()[j],
                            true,
                            lo,
                        )
                    },
            decreases n - k,
        {
            proof {
                lemma_order_permutes_ids(self);
                assert(self.order_ids()[k as int] == order@[k as int]@);
                assert(self.order_ids().contains(self.order_ids()[k as int]));
            }
            let ghost out_head = out@;
            let ghost prev_m = *self;
            let running = self.is_running(order[k].as_str());
            let at = self.find_index(order[k].as_str());
            match at {
                Some(i) => {
                    proof {
                        lemma_lookup_at(self.services@, i as int);
                        lemma_lookup_congruence(old(self).services@, self.services@, order@[
                            k as int
                        ]@);
                        assert(ids_of(self.services@)[i as int] == order@[k as int]@);
                        assert(self.has_id(order@[k as int]@));
                        assert(old(self).has_id(order@[k as int]@));
                        assert(old(self).config_view_of(order@[k as int]@)
                            == self.services@[i as int].config@);
                    }
                    let autorun = match self.services[i].config.autorun {
                        Some(b) => b,
                        None => false,
                    };
                    if autorun && !running {
                        let ghost opre = out@;
                        proof {
                            assert(!order_view(opre).contains(old(self).order_ids()[k as int]))
                                by {
                                if order_view(opre).contains(old(self).order_ids()[k as int]) {
                                    let t = old(self).order_ids().take(k as int);
                                    assert(t.contains(old(self).order_ids()[k as int]));
                                    let j = choose|j: int|
                                        0 <= j < t.len() && t[j] == old(self).order_ids()[k as int];
                                    assert(old(self).order_ids()[j] == old(self).order_ids()[
                                        k as int
                                    ]);
                                }
                            }
                        }
                        out.push(order[k].clone());
                        proof {
                            assert(order_view(out@) =~= order_view(opre).push(old(self).order_ids()[
                                k as int
                            ]));
                            assert forall|x: Seq<char>|
                                #[trigger] order_view(out@).contains(x) implies old(
                                self,
                            ).order_ids().take(k + 1).contains(x) by {
                                let j = choose|j: int|
                                    0 <= j < order_view(out@).len() && order_view(out@)[j] == x;
                                if j < order_view(opre).len() {
                                    assert(order_view(opre)[j] == x);
                                    assert(order_view(opre).contains(x));
                                    let t = old(self).order_ids().take(k as int);
                                    let m = choose|m: int| 0 <= m < t.len() && t[m] == x;
                                    assert(old(self).order_ids().take(k + 1)[m] == x);
                                } else {
                                    assert(old(self).order_ids().take(k + 1)[k as int] == x);
                                }
                            }
                        }
                    } else {
                        proof {
                            assert forall|x: Seq<char>|
                                #[trigger] order_view(out@).contains(x) implies old(
                                self,
                            ).order_ids().take(k + 1).contains(x) by {
                                let t = old(self).order_ids().take(k as int);
                                let m = choose|m: int| 0 <= m < t.len() && t[m] == x;
                                assert(old(self).order_ids().take(k + 1)[m] == x);
                            }
                        }
                    }
                    proof {
                        lemma_prefix_trans(
                            old(self).probe.past_snapshots(),
                            prev_m.probe.past_snapshots(),
                            self.probe.past_snapshots(),
                        );
                        let ghost idk = old(self).order_ids()[k as int];
                        if autorun && !running {
                            assert(order_view(out@).contains(idk)) by {
                                assert(order_view(out@).last() == idk);
                                assert(order_view(out@)[order_view(out@).len() - 1] == idk);
                            }
                        }
                        assert forall|j: int|
                            0 <= j < k + 1 && is_autorun(
                                old(self).config_view_of(#[trigger] old(self).order_ids()[j]),
                            ) implies {
                            ||| order_view(out@).contains(old(self).order_ids()[j])
                            ||| running_flag_supported(
                                *old(self),
                                *self,
                                old(self).order_ids()[j],
                                true,
                                lo,
                            )
                        } by {
                            if j == k {
                                if running {
                                    if !(exists|x: int|
                                        0 <= x < self.services@.len() && (
                                        #[trigger] self.services@[x]).config@.id == idk
                                            && self.services@[x].process is Some) {
                                        let s = self.probe.past_snapshots().len() - 1;
                                        assert(prev_m.probe.past_snapshots().len() >= lo);
                                        assert(lo <= s < self.probe.past_snapshots().len());
                                        assert(liveness_evidence_in(
                                            self.probe.past_snapshots()[s as int],
                                            old(self).config_view_of(idk),
                                            old(self).pid_view_of(idk),
                                        ));
                                    }
                                }
                            } else {
                                assert(old(self).order_ids()[j] != idk);
                                if order_view(out_head).contains(old(self).order_ids()[j]) {
                                    let m = choose|m: int|
                                        0 <= m < order_view(out_head).len() && order_view(
                                            out_head,
                                        )[m] == old(self).order_ids()[j];
                                    assert(order_view(out@)[m] == old(self).order_ids()[j]);
                                } else {
                                    lemma_flag_support_stable(
                                        *old(self),
                                        prev_m,
                                        *self,
                                        old(self).order_ids()[j],
                                        idk,
                                        true,
                                        lo,
                                    );
                                }
                            }
                        }
                    }
                },
                None => {
                    proof {
                        lemma_order_permutes_ids(self);
                        assert(self.order_ids()[k as int] == order@[k as int]@);
                        assert(self.order_ids().contains(self.order_ids()[k as int]));
                        assert(false);
                    }
                },
            }
            k = k + 1;
        }
        out
    }

    /// Builds the registry from a loaded file: definitions are taken in
    /// file order, later duplicates of an id are dropped (the first
    /// wins), and each kept service is matched against a fresh process
    /// snapshot to adopt an already-running process by executable name.
    pub fn new(file: ServicesFile) -> (r: ServiceManager)
        ensures
            r.wf(),
            r.kill_log().len() == 0,
            r.config_listen == file.listen,
            r.keep_alive_interval == (match file.keep_alive {
                Some(k) => k,
                None => 0u64,
            }),
            r.order_ids() == dedup_first(file_ids(file.services@)),
            ids_of(r.services@) == r.order_ids(),
            forall|k: int|
                0 <= k < r.services@.len() ==> (#[trigger] r.services@[k]).config@ == first_config(
                    file.services@,
                    ids_of(r.services@)[k],
                ),
            forall|k: int| 0 <= k < r.services@.len() ==> (#[trigger] r.services@[k]).process is None,
            forall|k: int|
                0 <= k < r.services@.len() ==> match (#[trigger] r.services@[k]).last_known_pid {
                    Some(p) => exists|j: int|
                        0 <= j < r.probe@.len() && name_matches(
                            (#[trigger] r.probe@[j]).name@,
                            basename_spec(r.services@[k].config@.exec_path),
                        ) && r.probe@[j].pid == p,
                    None => forall|j: int|
                        0 <= j < r.probe@.len() ==> !name_matches(
                            (#[trigger] r.probe@[j]).name@,
                            basename_spec(r.services@[k].config@.exec_path),
                        ),
                },
    {
        let keep_alive: u64 = match file.keep_alive {
            Some(k) => k,
            None => 0,
        };
        let mut m = ServiceManager {
            services: Vec::new(),
            service_order: Vec::new(),
            probe: Probe::new(),
            config_listen: file.listen,
            keep_alive_interval: keep_alive,
            kills: Ghost(Seq::empty()),
        };
        m.probe.refresh();
        proof {
            assert(m.order_ids() =~= Seq::<Seq<char>>::empty());
            assert(ids_of(m.services@) =~= Seq::<Seq<char>>::empty());
            assert(file.services@.take(0) =~= Seq::<ServiceConfig>::empty());
            assert(file_ids(file.services@.take(0)) =~= Seq::<Seq<char>>::empty());
            assert(m.order_ids().to_set() =~= ids_of(m.services@).to_set());
        }
        let n = file.services.len();
        let mut idx: usize = 0;
        while idx < n
            invariant
                n == file.services@.len(),
                idx <= n,
                m.config_listen == file.listen,
                m.keep_alive_interval == keep_alive,
                m.kill_log().len() == 0,
                m.wf(),
                m.order_ids() == dedup_first(file_ids(file.services@.take(idx as int))),
                ids_of(m.services@) == m.order_ids(),
                forall|k: int|
                    0 <= k < m.services@.len() ==> (#[trigger] m.services@[k]).config@
                        == first_config(file.services@, ids_of(m.services@)[k]),
                forall|k: int|
                    0 <= k < m.services@.len() ==> (#[trigger] m.services@[k]).process is None,
                forall|k: int|
                    0 <= k < m.services@.len() ==> match (#[trigger] m.services@[k]).last_known_pid {
                        Some(p) => exists|j: int|
                            0 <= j < m.probe@.len() && name_matches(
                                (#[trigger] m.probe@[j]).name@,
                                basename_spec(m.services@[k].config@.exec_path),
                            ) && m.probe@[j].pid == p,
                        None => forall|j: int|
                            0 <= j < m.probe@.len() ==> !name_matches(
                                (#[trigger] m.probe@[j]).name@,
                                basename_spec(m.services@[k].config@.exec_path),
                            ),
                    },
            decreases n - idx,
        {
            let ghost pref = file_ids(file.services@.take(idx as int));
            proof {
                assert(file_ids(file.services@.take(idx + 1)).drop_last() =~= pref);
                assert(file_ids(file.services@.take(idx + 1)).last() == file.services@[
                    idx as int
                ]@.id);
            }
            let cfg = file.services[idx].clone();
            if !order_contains(&m.service_order, cfg.id.as_str()) {
                proof {
                    assert(!dedup_first(pref).contains(cfg@.id));
                }
                let found = {
                    let base = exec_file_name(cfg.exec_path.as_str());
                    m.probe.find_by_name(base)
                };
                let ghost spre = m.services@;
                let ghost opre = m.order_ids();
                proof {
                    lemma_dedup_first(pref);
                    assert(!pref.contains(cfg@.id));
                    assert(cfg@.id == file.services@[idx as int]@.id);
                    assert forall|j: int| 0 <= j < idx implies file.services@[j]@.id
                        != file.services@[idx as int]@.id by {
                        assert(pref[j] == file.services@[j]@.id);
                    }
                    lemma_first_config_at(file.services@, idx as int);
                }
                m.service_order.push(cfg.id.clone());
                m.services.push(
                    ManagedService { config: cfg, process: None, last_known_pid: found },
                );
                proof {
                    assert(ids_of(m.services@) =~= ids_of(spre).push(
                        m.services@.last().config@.id,
                    ));
                    assert(m.order_ids() =~= opre.push(m.services@.last().config@.id));
                    ids_of(spre).lemma_push_to_set_commute(m.services@.last().config@.id);
                    opre.lemma_push_to_set_commute(m.services@.last().config@.id);
                }
            } else {
                proof {
                    assert(dedup_first(pref).contains(cfg@.id));
                }
            }
            idx = idx + 1;
        }
        proof {
            assert(file.services@.take(n as int) =~= file.services@);
        }
        m
    }

    /// Sets the keep-alive interval, leaving everything else untouched.
    pub fn set_global_config(&mut self, keep_alive: u64)
        requires
            old(self).wf(),
        ensures
            final(self).wf(),
            final(self).keep_alive_interval == keep_alive,
            final(self).config_listen == old(self).config_listen,
            final(self).services@ == old(self).services@,
            final(self).service_order@ == old(self).service_order@,
            final(self).probe == old(self).probe,
            final(self).kill_log() == old(self).kill_log(),
    {
        self.keep_alive_interval = keep_alive;
    }

    /// The full supervisor state as one persistable value: the
    /// definitions in display order plus the global settings. A zero
    /// keep-alive interval persists as an absent field.
    pub fn persist_state(&self) -> (r: ServicesFile)
        requires
            self.wf(),
        ensures
            r.services@.len() == self.order_ids().len(),
            forall|k: int|
                0 <= k < r.services@.len() ==> (#[trigger] r.services@[k])@ == self.config_view_of(
                    self.order_ids()[k],
                ),
            r.listen == self.config_listen,
            r.keep_alive == if self.keep_alive_interval > 0 {
                Some(self.keep_alive_interval)
            } else {
                None::<u64>
            },
    {
        let mut configs: Vec<ServiceConfig> = Vec::new();
        let n = self.service_order.len();
        let mut k: usize = 0;
        while k < n
            invariant
                self.wf(),
                n == self.service_order@.len(),
                k <= n,
                configs@.len() == k,
                forall|j: int|
                    0 <= j < k ==> (#[trigger] configs@[j])@ == self.config_view_of(
                        self.order_ids()[j],
                    ),
            decreases n - k,
        {
            proof {
                lemma_order_permutes_ids(self);
                assert(self.order_ids()[k as int] == self.service_order@[k as int]@);
                assert(self.order_ids().contains(self.order_ids()[k as int]));
                assert(self.svc_ids().contains(self.order_ids()[k as int]));
            }
            let at = self.find_index(self.service_order[k].as_str());
            match at {
                Some(i) => {
                    proof {
                        lemma_lookup_at(self.services@, i as int);
                    }
                    configs.push(self.services[i].config.clone());
                },
                None => {
                    proof {
                        assert(false);
                    }
                },
            }
            k = k + 1;
        }
        ServicesFile {
            listen: clone_opt_string(&self.config_listen),
            keep_alive: if self.keep_alive_interval > 0 {
                Some(self.keep_alive_interval)
            } else {
                None
            },
            services: configs,
        }
    }
}

/// The default creation-flag bitmask applied when a definition configures
/// none: detach the child so console signals do not propagate to it.
pub const DEFAULT_CREATION_FLAGS: u32 = 0x00000008;

/// Everything a launch needs, fully materialized: the resolved executable
/// path, the substituted arguments, the working directory, and the
/// platform creation flags.
pub struct LaunchPlan {
    pub exec_path: String,
    pub args: Vec<String>,
    pub working_dir: Option<String>,
    pub creation_flags: u32,
}

/// A definition's environment entries, as the substitution sees them.
pub open spec fn env_of(cfg: ConfigView) -> Seq<(Seq<char>, Seq<char>)> {
    match cfg.env {
        Some(e) => e,
        None => Seq::empty(),
    }
}

/// The creation flags a launch of this definition uses: the configured
/// bitmask, or the safe default when none is configured.
pub open spec fn launch_flags(cfg: ConfigView) -> u32 {
    match cfg.windows {
        Some(w) => match w.creation_flags {
            Some(f) => f,
            None => DEFAULT_CREATION_FLAGS,
        },
        None => DEFAULT_CREATION_FLAGS,
    }
}

/// The plan is exactly what the definition dictates: executable joined to
/// the working directory, every placeholder substituted, flags resolved.
pub open spec fn plan_matches(plan: LaunchPlan, cfg: ConfigView) -> bool {
    &&& plan.exec_path@ == (match cfg.working_dir {
        Some(d) => join_path(d, cfg.exec_path),
        None => cfg.exec_path,
    })
    &&& plan.args@.len() == cfg.args.len()
    &&& (forall|k: int|
        0 <= k < cfg.args.len() ==> (#[trigger] plan.args@[k])@ == subst_env(
            cfg.args[k],
            env_of(cfg),
        ))
    &&& (match (plan.working_dir, cfg.working_dir) {
        (Some(a), Some(b)) => a@ == b,
        (None, None) => true,
        _ => false,
    })
    &&& plan.creation_flags == launch_flags(cfg)
}

/// Whether a definition asks to be kept alive.
pub open spec fn is_autorun(cfg: ConfigView) -> bool {
    cfg.autorun == Some(true)
}

/// The order ids whose definition asks for autorun, in display order.
pub open spec fn autorun_project(order: Seq<Seq<char>>, s: Seq<ManagedService>) -> Seq<Seq<char>>
    decreases order.len(),
{
    if order.len() == 0 {
        Seq::empty()
    } else {
        let rest = autorun_project(order.drop_last(), s);
        if is_autorun(config_of(s, order.last())) {
            rest.push(order.last())
        } else {
            rest
        }
    }
}

/// An order list with every occurrence of one id taken out.
pub open spec fn remove_id(order: Seq<Seq<char>>, id: Seq<char>) -> Seq<Seq<char>>
    decreases order.len(),
{
    if order.len() == 0 {
        Seq::empty()
    } else {
        let rest = remove_id(order.drop_last(), id);
        if order.last() == id {
            rest
        } else {
            rest.push(order.last())
        }
    }
}

proof fn lemma_remove_id(order: Seq<Seq<char>>, id: Seq<char>)
    requires
        order.no_duplicates(),
    ensures
        remove_id(order, id).no_duplicates(),
        forall|x: Seq<char>|
            #[trigger] remove_id(order, id).contains(x) <==> order.contains(x) && x != id,
    decreases order.len(),
{
    if order.len() == 0 {
    } else {
        assert(order.drop_last().no_duplicates());
        lemma_remove_id(order.drop_last(), id);
        assert forall|x: Seq<char>| #[trigger] order.contains(x) implies order.drop_last().contains(
            x,
        ) || x == order.last() by {
            let i = choose|i: int| 0 <= i < order.len() && order[i] == x;
            if i < order.len() - 1 {
                assert(order.drop_last()[i] == x);
            }
        }
        assert forall|x: Seq<char>| #[trigger] order.drop_last().contains(x) implies order.contains(
            x,
        ) by {
            let i = choose|i: int| 0 <= i < order.len() - 1 && order.drop_last()[i] == x;
            assert(order[i] == x);
        }
        assert(order[order.len() - 1] == order.last());
        if order.last() != id {
            assert(!order.drop_last().contains(order.last())) by {
                if order.drop_last().contains(order.last()) {
                    let i = choose|i: int|
                        0 <= i < order.len() - 1 && order.drop_last()[i] == order.last();
                    assert(order[i] == order[order.len() - 1]);
                }
            }
            assert(!remove_id(order.drop_last(), id).contains(order.last()));
        }
    }
}

proof fn lemma_remove_entry(ids: Seq<Seq<char>>, i: int)
    requires
        ids.no_duplicates(),
        0 <= i < ids.len(),
    ensures
        ids.remove(i).no_duplicates(),
        forall|x: Seq<char>| #[trigger] ids.remove(i).contains(x) <==> ids.contains(x) && x
            != ids[i],
{
    let r = ids.remove(i);
    assert(forall|k: int| 0 <= k < i ==> r[k] == ids[k]);
    assert(forall|k: int| i <= k < r.len() ==> r[k] == ids[k + 1]);
    assert forall|x: Seq<char>| #[trigger] r.contains(x) implies ids.contains(x) && x
        != ids[i] by {
        let k = choose|k: int| 0 <= k < r.len() && r[k] == x;
        if k < i {
            assert(ids[k] == x);
        } else {
            assert(ids[k + 1] == x);
        }
    }
    assert forall|x: Seq<char>| ids.contains(x) && x != ids[i] implies #[trigger] r.contains(
        x,
    ) by {
        let k = choose|k: int| 0 <= k < ids.len() && ids[k] == x;
        if k < i {
            assert(r[k] == x);
        } else {
            assert(r[k - 1] == x);
        }
    }
    assert forall|a: int, b: int| 0 <= a < b < r.len() implies r[a] != r[b] by {
        let a2: int = if a < i {
            a
        } else {
            a + 1
        };
        let b2: int = if b < i {
            b
        } else {
            b + 1
        };
        assert(r[a] == ids[a2]);
        assert(r[b] == ids[b2]);
    }
}

/// The ids of a persisted file's definitions, in file order.
pub open spec fn file_ids(s: Seq<ServiceConfig>) -> Seq<Seq<char>> {
    s.map_values(|c: ServiceConfig| c@.id)
}

/// The ids with later duplicates dropped: each id's first occurrence
/// stands, in its original position.
pub open spec fn dedup_first(s: Seq<Seq<char>>) -> Seq<Seq<char>>
    decreases s.len(),
{
    if s.len() == 0 {
        Seq::empty()
    } else {
        let rest = dedup_first(s.drop_last());
        if rest.contains(s.last()) {
            rest
        } else {
            rest.push(s.last())
        }
    }
}

/// The first definition of a file carrying this id.
pub open spec fn first_config(s: Seq<ServiceConfig>, id: Seq<char>) -> ConfigView
    decreases s.len(),
{
    if s.len() == 0 {
        arbitrary()
    } else if s[0]@.id == id {
        s[0]@
    } else {
        first_config(s.skip(1), id)
    }
}

/// At an id's first occurrence, the first-wins lookup yields exactly the
/// definition standing there.
proof fn lemma_first_config_at(s: Seq<ServiceConfig>, i: int)
    requires
        0 <= i < s.len(),
        forall|j: int| 0 <= j < i ==> s[j]@.id != s[i]@.id,
    ensures
        first_config(s, s[i]@.id) == s[i]@,
    decreases i,
{
    if i == 0 {
    } else {
        assert(s[0]@.id != s[i]@.id);
        assert(forall|j: int| 0 <= j < i - 1 ==> s.skip(1)[j] == s[j + 1]);
        assert(s.skip(1)[i - 1] == s[i]);
        lemma_first_config_at(s.skip(1), i - 1);
    }
}

/// Deduplication keeps exactly one occurrence of every id that occurs:
/// the load of a file with a repeated id yields one entry for it.
pub proof fn lemma_dedup_first(s: Seq<Seq<char>>)
    ensures
        dedup_first(s).no_duplicates(),
        forall|x: Seq<char>| #[trigger] dedup_first(s).contains(x) <==> s.contains(x),
    decreases s.len(),
{
    if s.len() == 0 {
    } else {
        lemma_dedup_first(s.drop_last());
        assert forall|x: Seq<char>| #[trigger] s.contains(x) implies s.drop_last().contains(x) || x
            == s.last() by {
            let i = choose|i: int| 0 <= i < s.len() && s[i] == x;
            if i < s.len() - 1 {
                assert(s.drop_last()[i] == x);
            }
        }
        assert forall|x: Seq<char>| #[trigger] s.drop_last().contains(x) implies s.contains(x) by {
            let i = choose|i: int| 0 <= i < s.len() - 1 && s.drop_last()[i] == x;
            assert(s[i] == x);
        }
        assert(s[s.len() - 1] == s.last());
    }
}

/// The ids a load drops: every occurrence of an id after its first, in
/// file order.
pub open spec fn dropped_ids_spec(ids: Seq<Seq<char>>) -> Seq<Seq<char>>
    decreases ids.len(),
{
    if ids.len() == 0 {
        Seq::empty()
    } else {
        let rest = dropped_ids_spec(ids.drop_last());
        if ids.drop_last().contains(ids.last()) {
            rest.push(ids.last())
        } else {
            rest
        }
    }
}

/// The duplicate ids a load of this file drops, first occurrences
/// winning: one entry per dropped definition, in file order — what a
/// loader warns about.
pub fn dropped_duplicate_ids(file: &ServicesFile) -> (r: Vec<String>)
    ensures
        order_view(r@) == dropped_ids_spec(file_ids(file.services@)),
{
    let mut seen: Vec<String> = Vec::new();
    let mut dropped: Vec<String> = Vec::new();
    let n = file.services.len();
    let mut idx: usize = 0;
    while idx < n
        invariant
            n == file.services@.len(),
            idx <= n,
            order_view(seen@) == file_ids(file.services@.take(idx as int)),
            order_view(dropped@) == dropped_ids_spec(file_ids(file.services@.take(idx as int))),
        decreases n - idx,
    {
        proof {
            assert(file_ids(file.services@.take(idx + 1)).drop_last() =~= file_ids(
                file.services@.take(idx as int),
            ));
            assert(file_ids(file.services@.take(idx + 1)).last() == file.services@[
                idx as int
            ]@.id);
        }
        if order_contains(&seen, file.services[idx].id.as_str()) {
            let ghost dpre = dropped@;
            dropped.push(file.services[idx].id.clone());
            proof {
                assert(order_view(dropped@) =~= order_view(dpre).push(file.services@[
                    idx as int
                ]@.id));
            }
        }
        let ghost spre = seen@;
        seen.push(file.services[idx].id.clone());
        proof {
            assert(order_view(seen@) =~= order_view(spre).push(file.services@[idx as int]@.id));
        }
        idx = idx + 1;
    }
    proof {
        assert(file.services@.take(n as int) =~= file.services@);
    }
    dropped
}

/// The requested ids that are known, first occurrences only, in request
/// order.
pub open spec fn dedup_known(req: Seq<Seq<char>>, known: Seq<Seq<char>>) -> Seq<Seq<char>>
    decreases req.len(),
{
    if req.len() == 0 {
        Seq::empty()
    } else {
        let rest = dedup_known(req.drop_last(), known);
        if known.contains(req.last()) && !rest.contains(req.last()) {
            rest.push(req.last())
        } else {
            rest
        }
    }
}

/// The known ids that the request does not mention, in their prior
/// relative order.
pub open spec fn missing_ids(known: Seq<Seq<char>>, req: Seq<Seq<char>>) -> Seq<Seq<char>>
    decreases known.len(),
{
    if known.len() == 0 {
        Seq::empty()
    } else {
        let rest = missing_ids(known.drop_last(), req);
        if !req.contains(known.last()) {
            rest.push(known.last())
        } else {
            rest
        }
    }
}

/// What `reorder` makes of a request: the known requested ids first, then
/// every known id the request omitted.
pub open spec fn project_order(req: Seq<Seq<char>>, known: Seq<Seq<char>>) -> Seq<Seq<char>> {
    dedup_known(req, known) + missing_ids(known, req)
}

proof fn lemma_dedup_known(req: Seq<Seq<char>>, known: Seq<Seq<char>>)
    ensures
        dedup_known(req, known).no_duplicates(),
        forall|x: Seq<char>|
            #[trigger] dedup_known(req, known).contains(x) <==> known.contains(x) && req.contains(
                x,
            ),
    decreases req.len(),
{
    if req.len() == 0 {
    } else {
        lemma_dedup_known(req.drop_last(), known);
        let rest = dedup_known(req.drop_last(), known);
        assert forall|x: Seq<char>| #[trigger] req.contains(x) implies req.drop_last().contains(x)
            || x == req.last() by {
            let i = choose|i: int| 0 <= i < req.len() && req[i] == x;
            if i < req.len() - 1 {
                assert(req.drop_last()[i] == x);
            }
        }
        assert forall|x: Seq<char>| #[trigger] req.drop_last().contains(x) implies req.contains(
            x,
        ) by {
            let i = choose|i: int| 0 <= i < req.len() - 1 && req.drop_last()[i] == x;
            assert(req[i] == x);
        }
        assert(req.drop_last().contains(req.last()) || req.contains(req.last())) by {
            assert(req[req.len() - 1] == req.last());
        }
    }
}

proof fn lemma_missing_ids(known: Seq<Seq<char>>, req: Seq<Seq<char>>)
    requires
        known.no_duplicates(),
    ensures
        missing_ids(known, req).no_duplicates(),
        forall|x: Seq<char>|
            #[trigger] missing_ids(known, req).contains(x) <==> known.contains(x)
                && !req.contains(x),
    decreases known.len(),
{
    if known.len() == 0 {
    } else {
        assert(known.drop_last().no_duplicates());
        lemma_missing_ids(known.drop_last(), req);
        let rest = missing_ids(known.drop_last(), req);
        assert forall|x: Seq<char>| #[trigger] known.contains(x) implies known.drop_last().contains(
            x,
        ) || x == known.last() by {
            let i = choose|i: int| 0 <= i < known.len() && known[i] == x;
            if i < known.len() - 1 {
                assert(known.drop_last()[i] == x);
            }
        }
        assert forall|x: Seq<char>| #[trigger] known.drop_last().contains(x) implies known.contains(
            x,
        ) by {
            let i = choose|i: int| 0 <= i < known.len() - 1 && known.drop_last()[i] == x;
            assert(known[i] == x);
        }
        if !req.contains(known.last()) {
            assert(!known.drop_last().contains(known.last())) by {
                if known.drop_last().contains(known.last()) {
                    let i = choose|i: int|
                        0 <= i < known.len() - 1 && known.drop_last()[i] == known.last();
                    assert(known[i] == known[known.len() - 1]);
                }
            }
            assert(!rest.contains(known.last()));
        }
        assert(known.contains(known.last())) by {
            assert(known[known.len() - 1] == known.last());
        }
    }
}

/// The projected order is a permutation of the known id set: nothing
/// unknown enters it, nothing known leaves it, and no id appears twice.
pub proof fn lemma_project_order(req: Seq<Seq<char>>, known: Seq<Seq<char>>)
    requires
        known.no_duplicates(),
    ensures
        project_order(req, known).no_duplicates(),
        forall|x: Seq<char>| #[trigger] project_order(req, known).contains(x) <==> known.contains(
            x,
        ),
        forall|x: Seq<char>|
            known.contains(x) && !req.contains(x) ==> missing_ids(known, req).contains(x),
{
    lemma_dedup_known(req, known);
    lemma_missing_ids(known, req);
    let d = dedup_known(req, known);
    let m = missing_ids(known, req);
    let p = project_order(req, known);
    assert forall|x: Seq<char>| #[trigger] p.contains(x) implies known.contains(x) by {
        let i = choose|i: int| 0 <= i < p.len() && p[i] == x;
        if i < d.len() {
            assert(d[i] == x);
            assert(d.contains(x));
        } else {
            assert(m[i - d.len()] == x);
            assert(m.contains(x));
        }
    }
    assert forall|x: Seq<char>| known.contains(x) implies #[trigger] p.contains(x) by {
        if req.contains(x) {
            assert(d.contains(x));
            let i = choose|i: int| 0 <= i < d.len() && d[i] == x;
            assert(p[i] == x);
        } else {
            assert(m.contains(x));
            let i = choose|i: int| 0 <= i < m.len() && m[i] == x;
            assert(p[d.len() + i] == x);
        }
    }
    assert forall|i: int, j: int| 0 <= i < j < p.len() implies p[i] != p[j] by {
        if i < d.len() && j < d.len() {
        } else if i >= d.len() && j >= d.len() {
            assert(m[i - d.len()] == p[i]);
            assert(m[j - d.len()] == p[j]);
        } else {
            assert(d[i] == p[i]);
            assert(m[j - d.len()] == p[j]);
            assert(d.contains(d[i]));
            assert(m.contains(m[j - d.len()]));
            if p[i] == p[j] {
                assert(req.contains(p[i]) && !req.contains(p[j]));
            }
        }
    }
}

/// Every service keeps its definition and its last-known pid: only
/// runtime handles may differ between the two states.
pub open spec fn defs_preserved(a: Seq<ManagedService>, b: Seq<ManagedService>) -> bool {
    &&& b.len() == a.len()
    &&& forall|k: int|
        0 <= k < a.len() ==> (#[trigger] b[k]).config == a[k].config && b[k].last_known_pid
            == a[k].last_known_pid
}

/// No runtime handle appears out of nowhere: an entry holding a handle in
/// `b` already held one in `a`.
pub open spec fn no_new_handles(a: Seq<ManagedService>, b: Seq<ManagedService>) -> bool {
    forall|k: int|
        0 <= k < a.len() ==> ((#[trigger] b[k]).process is Some ==> a[k].process is Some)
}

/// Definitions and pids agree pointwise, so lookups by id agree too.
proof fn lemma_lookup_congruence(a: Seq<ManagedService>, b: Seq<ManagedService>, id: Seq<char>)
    requires
        defs_preserved(a, b),
    ensures
        ids_of(a) == ids_of(b),
        config_of(a, id) == config_of(b, id),
        pid_of(a, id) == pid_of(b, id),
    decreases a.len(),
{
    assert(ids_of(a) =~= ids_of(b));
    if a.len() > 0 {
        assert(defs_preserved(a.skip(1), b.skip(1))) by {
            assert(forall|k: int| 0 <= k < a.skip(1).len() ==> a.skip(1)[k] == a[k + 1]);
            assert(forall|k: int| 0 <= k < b.skip(1).len() ==> b.skip(1)[k] == b[k + 1]);
        }
        lemma_lookup_congruence(a.skip(1), b.skip(1), id);
    }
}

/// Inserting a definition under a fresh id puts it at the end of the
/// display order, and the report `list` builds from the registry then
/// shows exactly that definition, with no known pid, at that position:
/// `m2` is the registry `upsert_service` leaves behind, and
/// `config_view_of` / `pid_view_of` are what `list` promises to put into
/// the snapshot at each order position.
pub proof fn lemma_new_definition_listed_last(
    m1: &ServiceManager,
    m2: &ServiceManager,
    c: ConfigView,
)
    requires
        m1.wf(),
        !m1.has_id(c.id),
        m2.services@.len() == m1.services@.len() + 1,
        forall|k: int| 0 <= k < m1.services@.len() ==> m2.services@[k] == m1.services@[k],
        m2.services@.last().config@ == c,
        m2.services@.last().last_known_pid is None,
        m2.order_ids() == m1.order_ids().push(c.id),
    ensures
        m2.order_ids().len() == m1.order_ids().len() + 1,
        m2.order_ids().last() == c.id,
        m2.config_view_of(c.id) == c,
        m2.pid_view_of(c.id) is None,
{
    let n = m2.services@.len() as int;
    assert(ids_of(m2.services@) =~= ids_of(m1.services@).push(c.id));
    assert(ids_of(m2.services@).no_duplicates()) by {
        assert(forall|k: int|
            0 <= k < n - 1 ==> ids_of(m2.services@)[k] == ids_of(m1.services@)[k]);
        assert(forall|k: int| 0 <= k < n - 1 ==> ids_of(m1.services@)[k] != c.id) by {
            assert(forall|k: int|
                0 <= k < n - 1 ==> ids_of(m1.services@).contains(ids_of(m1.services@)[k]));
        }
    }
    assert(m2.services@[n - 1].config@.id == c.id);
    lemma_lookup_at(m2.services@, n - 1);
}

/// A well-formed registry's order list is a duplicate-free permutation of
/// its id set: the guarantee every mutation of the registry preserves.
pub proof fn lemma_order_permutes_ids(m: &ServiceManager)
    requires
        m.wf(),
    ensures
        m.order_ids().no_duplicates(),
        m.svc_ids().no_duplicates(),
        forall|x: Seq<char>| #[trigger] m.order_ids().contains(x) <==> m.svc_ids().contains(x),
{
    assert forall|x: Seq<char>| #[trigger] m.order_ids().contains(x) <==> m.svc_ids().contains(
        x,
    ) by {
        assert(m.order_ids().to_set().contains(x) == m.order_ids().contains(x));
        assert(m.svc_ids().to_set().contains(x) == m.svc_ids().contains(x));
    }
}

} // verus!
