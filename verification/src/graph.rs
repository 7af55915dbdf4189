//! The causal graph: processes, their lineage, and every file they touched.
//!
//! Pids recycle, so a bare pid is not an identity: `(pid, start_ts)` is. A
//! file event comes with a bare pid only. It is bound to the incarnation of
//! that pid whose lifetime contained the event.
use crate::calendar::{now_ts, snapshot_name, valid_time, CivilTime};
use crate::text::{lex_le, lex_lt, lex_total, lex_transitive, opt_text, same_text, text_le, text_lt};
use vstd::prelude::*;

verus! {

// ---------------------------------------------------------------------
// Rows
// ---------------------------------------------------------------------
/// One write to a file, with the process it is attributed to.
#[derive(Debug, Clone)]
pub struct FileEvent {
    pub ts: String,
    pub path: String,
    pub op: String,
    pub pid: i32,
    pub comm: String,
    pub exe: String,
    pub cmdline: String,
    /// Which incarnation of `pid` wrote this. A bare pid is ambiguous once
    /// pids recycle. `None` means that the writer was never identified.
    pub proc_start: Option<String>,
    /// The other end of a rename that arrived as one event.
    pub other_path: Option<String>,
}

/// The plain values of a [`FileEvent`].
#[verifier::ext_equal]
pub struct FileEventModel {
    pub ts: Seq<char>,
    pub path: Seq<char>,
    pub op: Seq<char>,
    pub pid: i32,
    pub comm: Seq<char>,
    pub exe: Seq<char>,
    pub cmdline: Seq<char>,
    pub proc_start: Option<Seq<char>>,
    pub other_path: Option<Seq<char>>,
}

impl View for FileEvent {
    type V = FileEventModel;

    open spec fn view(&self) -> FileEventModel {
        FileEventModel {
            ts: self.ts@,
            path: self.path@,
            op: self.op@,
            pid: self.pid,
            comm: self.comm@,
            exe: self.exe@,
            cmdline: self.cmdline@,
            proc_start: opt_text(self.proc_start),
            other_path: opt_text(self.other_path),
        }
    }
}

/// The plain values of a list of events.
pub open spec fn event_models(list: Seq<FileEvent>) -> Seq<FileEventModel> {
    Seq::new(list.len(), |i: int| list[i]@)
}

/// What a process was running. Grouped, so that the three adjacent texts
/// cannot be handed over in the wrong order.
#[derive(Debug, Clone, Copy)]
pub struct Identity<'a> {
    pub exe: &'a str,
    pub comm: &'a str,
    pub cmdline: &'a str,
    pub uid: u32,
}

/// The plain values of an [`Identity`].
#[verifier::ext_equal]
pub struct IdentityModel {
    pub exe: Seq<char>,
    pub comm: Seq<char>,
    pub cmdline: Seq<char>,
    pub uid: u32,
}

impl<'a> View for Identity<'a> {
    type V = IdentityModel;

    open spec fn view(&self) -> IdentityModel {
        IdentityModel {
            exe: self.exe@,
            comm: self.comm@,
            cmdline: self.cmdline@,
            uid: self.uid,
        }
    }
}

/// One process of a lineage.
#[derive(Debug, Clone)]
pub struct ProcRow {
    pub pid: i32,
    pub start_ts: String,
    pub ppid: Option<i32>,
    pub comm: String,
    pub exe: String,
    pub cmdline: String,
}

/// The plain values of a [`ProcRow`].
#[verifier::ext_equal]
pub struct ProcRowModel {
    pub pid: i32,
    pub start_ts: Seq<char>,
    pub ppid: Option<i32>,
    pub comm: Seq<char>,
    pub exe: Seq<char>,
    pub cmdline: Seq<char>,
}

impl View for ProcRow {
    type V = ProcRowModel;

    open spec fn view(&self) -> ProcRowModel {
        ProcRowModel {
            pid: self.pid,
            start_ts: self.start_ts@,
            ppid: self.ppid,
            comm: self.comm@,
            exe: self.exe@,
            cmdline: self.cmdline@,
        }
    }
}

/// The plain values of a list of rows.
pub open spec fn row_models(list: Seq<ProcRow>) -> Seq<ProcRowModel> {
    Seq::new(list.len(), |i: int| list[i]@)
}

/// One process as the graph stores it. Its key is `(pid, start_ts)`.
#[derive(Debug, Clone)]
pub struct Process {
    pub pid: i32,
    pub start_ts: String,
    pub ppid: Option<i32>,
    pub exe: String,
    pub comm: String,
    pub cmdline: String,
    /// -1 while the process is known by its fork only.
    pub uid: i64,
    pub exit_ts: Option<String>,
}

/// The plain values of a [`Process`].
#[verifier::ext_equal]
pub struct ProcessModel {
    pub pid: i32,
    pub start_ts: Seq<char>,
    pub ppid: Option<i32>,
    pub exe: Seq<char>,
    pub comm: Seq<char>,
    pub cmdline: Seq<char>,
    pub uid: i64,
    pub exit_ts: Option<Seq<char>>,
}

impl View for Process {
    type V = ProcessModel;

    open spec fn view(&self) -> ProcessModel {
        ProcessModel {
            pid: self.pid,
            start_ts: self.start_ts@,
            ppid: self.ppid,
            exe: self.exe@,
            comm: self.comm@,
            cmdline: self.cmdline@,
            uid: self.uid,
            exit_ts: opt_text(self.exit_ts),
        }
    }
}

/// The plain values of a list of processes.
pub open spec fn process_models(list: Seq<Process>) -> Seq<ProcessModel> {
    Seq::new(list.len(), |i: int| list[i]@)
}

/// One file event as the graph stores it.
#[derive(Debug, Clone)]
pub struct Event {
    pub ts: String,
    pub path: String,
    pub op: String,
    pub pid: i32,
    pub proc_start: Option<String>,
}

/// The plain values of an [`Event`].
#[verifier::ext_equal]
pub struct EventModel {
    pub ts: Seq<char>,
    pub path: Seq<char>,
    pub op: Seq<char>,
    pub pid: i32,
    pub proc_start: Option<Seq<char>>,
}

impl View for Event {
    type V = EventModel;

    open spec fn view(&self) -> EventModel {
        EventModel {
            ts: self.ts@,
            path: self.path@,
            op: self.op@,
            pid: self.pid,
            proc_start: opt_text(self.proc_start),
        }
    }
}

/// The plain values of a list of stored events.
pub open spec fn stored_events(list: Seq<Event>) -> Seq<EventModel> {
    Seq::new(list.len(), |i: int| list[i]@)
}

// ---------------------------------------------------------------------
// The graph
// ---------------------------------------------------------------------
/// Processes and events, each in the order in which they were recorded.
#[derive(Debug)]
pub struct Graph {
    pub processes: Vec<Process>,
    pub events: Vec<Event>,
}

/// The plain values of a [`Graph`].
#[verifier::ext_equal]
pub struct GraphModel {
    pub processes: Seq<ProcessModel>,
    pub events: Seq<EventModel>,
}

impl View for Graph {
    type V = GraphModel;

    open spec fn view(&self) -> GraphModel {
        GraphModel {
            processes: process_models(self.processes@),
            events: stored_events(self.events@),
        }
    }
}

/// Is `p` the incarnation `(pid, start_ts)`?
pub open spec fn is_incarnation(p: ProcessModel, pid: i32, start_ts: Seq<char>) -> bool {
    p.pid == pid && p.start_ts == start_ts
}

/// Is the incarnation `(pid, start_ts)` recorded?
pub open spec fn is_recorded(list: Seq<ProcessModel>, pid: i32, start_ts: Seq<char>) -> bool {
    exists|i: int| 0 <= i < list.len() && is_incarnation(#[trigger] list[i], pid, start_ts)
}

/// No incarnation is recorded twice.
pub open spec fn has_unique_keys(list: Seq<ProcessModel>) -> bool {
    forall|i: int, j: int|
        0 <= i < j < list.len() ==> !is_incarnation(
            #[trigger] list[i],
            (#[trigger] list[j]).pid,
            list[j].start_ts,
        )
}

impl Graph {
    /// The graph's invariant: no incarnation is recorded twice.
    pub open spec fn wf(&self) -> bool {
        has_unique_keys(self@.processes)
    }
}

/// `list` with `row` appended, unless its incarnation is recorded already.
pub open spec fn inserted(list: Seq<ProcessModel>, row: ProcessModel) -> Seq<ProcessModel> {
    if is_recorded(list, row.pid, row.start_ts) {
        list
    } else {
        list.push(row)
    }
}

/// Is this a time in the form of a snapshot's name?
pub open spec fn is_event_time(ts: Seq<char>) -> bool {
    exists|c: CivilTime| valid_time(c) && c.nanos < 1_000_000_000 && ts == #[trigger] snapshot_name(c)
}

/// Is `p` an incarnation of `pid` that has not exited?
pub open spec fn is_live(p: ProcessModel, pid: i32) -> bool {
    p.pid == pid && p.exit_ts is None
}

/// Is an incarnation of `pid` alive?
pub open spec fn has_live(list: Seq<ProcessModel>, pid: i32) -> bool {
    exists|i: int| 0 <= i < list.len() && is_live(#[trigger] list[i], pid)
}

/// What a fork alone tells of the child.
pub open spec fn forked_row(parent_pid: i32, child_pid: i32, ts: Seq<char>) -> ProcessModel {
    ProcessModel {
        pid: child_pid,
        start_ts: ts,
        ppid: Some(parent_pid),
        exe: ""@,
        comm: ""@,
        cmdline: ""@,
        uid: -1i64,
        exit_ts: None,
    }
}

/// A running process with a known identity.
pub open spec fn identified_row(
    pid: i32,
    ppid: Option<i32>,
    id: IdentityModel,
    ts: Seq<char>,
) -> ProcessModel {
    ProcessModel {
        pid,
        start_ts: ts,
        ppid,
        exe: id.exe,
        comm: id.comm,
        cmdline: id.cmdline,
        uid: id.uid as i64,
        exit_ts: None,
    }
}

/// `p` after an exec of `pid`: a live incarnation runs another image, and is
/// still the same process with the same parent.
pub open spec fn execed_row(p: ProcessModel, pid: i32, id: IdentityModel) -> ProcessModel {
    if is_live(p, pid) {
        ProcessModel {
            exe: id.exe,
            comm: id.comm,
            cmdline: id.cmdline,
            uid: id.uid as i64,
            ..p
        }
    } else {
        p
    }
}

/// `p` after the exit of `pid`.
pub open spec fn exited_row(p: ProcessModel, pid: i32, ts: Seq<char>) -> ProcessModel {
    if is_live(p, pid) {
        ProcessModel { exit_ts: Some(ts), ..p }
    } else {
        p
    }
}

/// `p` after the exit of one incarnation.
pub open spec fn closed_row(
    p: ProcessModel,
    pid: i32,
    start_ts: Seq<char>,
    exit_ts: Seq<char>,
) -> ProcessModel {
    if is_incarnation(p, pid, start_ts) {
        ProcessModel { exit_ts: Some(exit_ts), ..p }
    } else {
        p
    }
}

/// The graph after a fork.
pub open spec fn forked(g: GraphModel, parent_pid: i32, child_pid: i32, ts: Seq<char>) -> GraphModel {
    GraphModel {
        processes: inserted(g.processes, forked_row(parent_pid, child_pid, ts)),
        ..g
    }
}

/// The graph after an exec: the live incarnation of `pid` gets the identity.
/// Where none is known, the process is recorded with an unknown parent.
pub open spec fn execed(g: GraphModel, pid: i32, id: IdentityModel, ts: Seq<char>) -> GraphModel {
    GraphModel {
        processes: if has_live(g.processes, pid) {
            g.processes.map_values(|p: ProcessModel| execed_row(p, pid, id))
        } else {
            inserted(g.processes, identified_row(pid, None, id, ts))
        },
        ..g
    }
}

/// The graph after the live incarnation of `pid` has exited.
pub open spec fn exited(g: GraphModel, pid: i32, ts: Seq<char>) -> GraphModel {
    GraphModel {
        processes: g.processes.map_values(|p: ProcessModel| exited_row(p, pid, ts)),
        ..g
    }
}

/// The graph after one incarnation has exited.
pub open spec fn closed_out(
    g: GraphModel,
    pid: i32,
    start_ts: Seq<char>,
    exit_ts: Seq<char>,
) -> GraphModel {
    GraphModel {
        processes: g.processes.map_values(
            |p: ProcessModel| closed_row(p, pid, start_ts, exit_ts),
        ),
        ..g
    }
}

// ---------------------------------------------------------------------
// From a bare pid to an incarnation
// ---------------------------------------------------------------------
/// Which incarnations of a pid a lookup considers.
#[derive(Debug, Clone, Copy)]
pub enum Which<'a> {
    /// All of them, alive or not.
    Any,
    /// Those that have not exited.
    Live,
    /// Those that had started at the given time.
    StartedBy(&'a str),
    /// Those whose lifetime contains the given time.
    During(&'a str),
}

/// The plain values of a [`Which`].
pub enum WhichModel {
    Any,
    Live,
    StartedBy(Seq<char>),
    During(Seq<char>),
}

impl<'a> View for Which<'a> {
    type V = WhichModel;

    open spec fn view(&self) -> WhichModel {
        match *self {
            Which::Any => WhichModel::Any,
            Which::Live => WhichModel::Live,
            Which::StartedBy(ts) => WhichModel::StartedBy(ts@),
            Which::During(ts) => WhichModel::During(ts@),
        }
    }
}

/// Does the lifetime of `p` contain `ts`?
pub open spec fn lived_at(p: ProcessModel, ts: Seq<char>) -> bool {
    lex_le(p.start_ts, ts) && match p.exit_ts {
        Some(exit) => lex_le(ts, exit),
        None => true,
    }
}

/// Did an incarnation of `pid` live at `ts`?
pub open spec fn someone_lived_at(list: Seq<ProcessModel>, pid: i32, ts: Seq<char>) -> bool {
    exists|i: int| 0 <= i < list.len() && (#[trigger] list[i]).pid == pid && lived_at(list[i], ts)
}

/// Is `p` an incarnation of `pid` that the lookup considers?
pub open spec fn is_candidate(p: ProcessModel, pid: i32, which: WhichModel) -> bool {
    p.pid == pid && match which {
        WhichModel::Any => true,
        WhichModel::Live => p.exit_ts is None,
        WhichModel::StartedBy(ts) => lex_le(p.start_ts, ts),
        WhichModel::During(ts) => lived_at(p, ts),
    }
}

/// The latest start among the candidates.
pub open spec fn latest_start(list: Seq<ProcessModel>, pid: i32, which: WhichModel) -> Option<
    Seq<char>,
>
    decreases list.len(),
{
    if list.len() == 0 {
        None
    } else {
        let best = latest_start(list.drop_last(), pid, which);
        let p = list.last();
        if is_candidate(p, pid, which) && (best is None || lex_lt(best->0, p.start_ts)) {
            Some(p.start_ts)
        } else {
            best
        }
    }
}

/// What [`latest_start`] finds is the start of a candidate, no candidate
/// started later, and it finds nothing only where there is no candidate.
pub proof fn latest_start_is_the_latest(list: Seq<ProcessModel>, pid: i32, which: WhichModel)
    ensures
        match latest_start(list, pid, which) {
            Some(start) => {
                &&& exists|i: int|
                    0 <= i < list.len() && is_candidate(#[trigger] list[i], pid, which)
                        && list[i].start_ts == start
                &&& forall|i: int|
                    0 <= i < list.len() && is_candidate(#[trigger] list[i], pid, which) ==> lex_le(
                        list[i].start_ts,
                        start,
                    )
            },
            None => forall|i: int| 0 <= i < list.len() ==> !is_candidate(#[trigger] list[i], pid, which),
        },
    decreases list.len(),
{
    if list.len() > 0 {
        let front = list.drop_last();
        let n = front.len() as int;
        latest_start_is_the_latest(front, pid, which);
        let best = latest_start(front, pid, which);
        assert forall|i: int| 0 <= i < n implies #[trigger] list[i] == front[i] by {}
        match best {
            Some(start) => {
                lex_total(start, list[n].start_ts);
                let k = choose|i: int|
                    0 <= i < front.len() && is_candidate(#[trigger] front[i], pid, which)
                        && front[i].start_ts == start;
                assert(list[k] == front[k]);
                if is_candidate(list[n], pid, which) && lex_lt(start, list[n].start_ts) {
                    assert forall|i: int|
                        0 <= i < list.len() && is_candidate(#[trigger] list[i], pid, which) implies lex_le(
                        list[i].start_ts,
                        list[n].start_ts,
                    ) by {
                        if i < n && list[i].start_ts != start {
                            lex_transitive(list[i].start_ts, start, list[n].start_ts);
                        }
                    }
                }
            },
            None => {},
        }
    }
}

/// The incarnation that an event is bound to when it is recorded: the latest
/// one whose lifetime contains the event. An event is stamped when it is
/// processed, which can be just after the recorded exit, so where no lifetime
/// contains it, the latest incarnation that had started.
pub open spec fn bound_start(list: Seq<ProcessModel>, pid: i32, ts: Seq<char>) -> Option<Seq<char>> {
    match latest_start(list, pid, WhichModel::During(ts)) {
        Some(start) => Some(start),
        None => latest_start(list, pid, WhichModel::StartedBy(ts)),
    }
}

/// The graph after a file event.
pub open spec fn written(
    g: GraphModel,
    path: Seq<char>,
    op: Seq<char>,
    pid: i32,
    ts: Seq<char>,
) -> GraphModel {
    GraphModel {
        events: g.events.push(
            EventModel { ts, path, op, pid, proc_start: bound_start(g.processes, pid, ts) },
        ),
        ..g
    }
}

/// The characters of an optional string, copied.
pub(crate) fn copy_opt(s: &Option<String>) -> (r: Option<String>)
    ensures
        opt_text(r) == opt_text(*s),
{
    match s {
        Some(t) => Some(t.clone()),
        None => None,
    }
}

/// Does the lookup consider `p`?
pub(crate) fn considers(p: &Process, pid: i32, which: Which<'_>) -> (r: bool)
    ensures
        r == is_candidate(p@, pid, which@),
{
    if p.pid != pid {
        return false;
    }
    match which {
        Which::Any => true,
        Which::Live => p.exit_ts.is_none(),
        Which::StartedBy(ts) => text_le(p.start_ts.as_str(), ts),
        Which::During(ts) => text_le(p.start_ts.as_str(), ts) && match &p.exit_ts {
            Some(exit) => text_le(ts, exit.as_str()),
            None => true,
        },
    }
}

impl Graph {
    /// A graph that has recorded nothing.
    pub fn new() -> (g: Graph)
        ensures
            g.wf(),
            g@ == (GraphModel { processes: Seq::empty(), events: Seq::empty() }),
    {
        Graph { processes: Vec::new(), events: Vec::new() }
    }

    /// Appends a row, unless its incarnation is recorded already.
    fn insert_or_ignore(&mut self, row: Process)
        requires
            old(self).wf(),
        ensures
            final(self).wf(),
            final(self)@.processes == inserted(old(self)@.processes, row@),
            final(self)@.events == old(self)@.events,
    {
        let ghost before = self@.processes;
        let mut i: usize = 0;
        while i < self.processes.len()
            invariant
                i <= self.processes@.len(),
                *self == *old(self),
                old(self).wf(),
                before == self@.processes,
                forall|j: int|
                    0 <= j < i ==> !is_incarnation(#[trigger] before[j], row.pid, row.start_ts@),
            decreases self.processes@.len() - i,
        {
            let ghost p = before[i as int];
            if self.processes[i].pid == row.pid && same_text(
                self.processes[i].start_ts.as_str(),
                row.start_ts.as_str(),
            ) {
                assert(is_incarnation(p, row.pid, row.start_ts@));
                return ;
            }
            i += 1;
        }
        self.processes.push(row);
        assert(self@.processes =~= before.push(row@));
    }

    /// Records a fork at `ts`. It gives the one edge that nothing else can:
    /// parent to child.
    pub fn record_fork_at(&mut self, parent_pid: i32, child_pid: i32, ts: &str)
        requires
            old(self).wf(),
        ensures
            final(self).wf(),
            final(self)@ == forked(old(self)@, parent_pid, child_pid, ts@),
    {
        self.insert_or_ignore(
            Process {
                pid: child_pid,
                start_ts: ts.to_string(),
                ppid: Some(parent_pid),
                exe: "".to_string(),
                comm: "".to_string(),
                cmdline: "".to_string(),
                uid: -1,
                exit_ts: None,
            },
        );
    }

    /// Records a fork now.
    pub fn record_fork(&mut self, parent_pid: i32, child_pid: i32)
        requires
            old(self).wf(),
        ensures
            final(self).wf(),
            exists|ts: Seq<char>| #[trigger]
                is_event_time(ts) && final(self)@ == forked(
                    old(self)@,
                    parent_pid,
                    child_pid,
                    ts,
                ),
    {
        let ts = now_ts();
        assert(is_event_time(ts@));
        self.record_fork_at(parent_pid, child_pid, ts.as_str());
    }

    /// Records an exec now.
    pub fn record_exec(&mut self, pid: i32, exe: &str, comm: &str, cmdline: &str, uid: u32)
        requires
            old(self).wf(),
        ensures
            final(self).wf(),
            exists|ts: Seq<char>| #[trigger]
                is_event_time(ts) && final(self)@ == execed(
                    old(self)@,
                    pid,
                    (IdentityModel { exe: exe@, comm: comm@, cmdline: cmdline@, uid }),
                    ts,
                ),
    {
        let ts = now_ts();
        assert(is_event_time(ts@));
        self.record_exec_at(pid, exe, comm, cmdline, uid, ts.as_str());
    }

    /// Records now that the live incarnation of `pid` has exited.
    pub fn record_exit(&mut self, pid: i32)
        requires
            old(self).wf(),
        ensures
            final(self).wf(),
            exists|ts: Seq<char>| #[trigger]
                is_event_time(ts) && final(self)@ == exited(old(self)@, pid, ts),
    {
        let ts = now_ts();
        assert(is_event_time(ts@));
        self.record_exit_of(pid, ts.as_str());
    }

    /// Records a file event now.
    pub fn record_event(&mut self, path: &str, op: &str, pid: i32)
        requires
            old(self).wf(),
        ensures
            final(self).wf(),
            exists|ts: Seq<char>| #[trigger]
                is_event_time(ts) && final(self)@ == written(old(self)@, path@, op@, pid, ts),
    {
        let ts = now_ts();
        assert(is_event_time(ts@));
        self.record_event_at(path, op, pid, ts.as_str());
    }

    /// Records an exec at `ts`. Exec replaces the image of a process, not the
    /// process, so the live row is updated and keeps its parent.
    pub fn record_exec_at(
        &mut self,
        pid: i32,
        exe: &str,
        comm: &str,
        cmdline: &str,
        uid: u32,
        ts: &str,
    )
        requires
            old(self).wf(),
        ensures
            final(self).wf(),
            final(self)@ == execed(
                old(self)@,
                pid,
                (IdentityModel { exe: exe@, comm: comm@, cmdline: cmdline@, uid }),
                ts@,
            ),
    {
        let ghost before = self@.processes;
        let ghost id = IdentityModel { exe: exe@, comm: comm@, cmdline: cmdline@, uid };
        let mut updated = false;
        let mut i: usize = 0;
        let n = self.processes.len();
        while i < n
            invariant
                i <= n,
                n == before.len(),
                id == (IdentityModel { exe: exe@, comm: comm@, cmdline: cmdline@, uid }),
                self.processes@.len() == n,
                self.events == old(self).events,
                forall|j: int|
                    0 <= j < n ==> #[trigger] self.processes@[j]@ == if j < i {
                        execed_row(before[j], pid, id)
                    } else {
                        before[j]
                    },
                updated == exists|j: int| 0 <= j < i && is_live(#[trigger] before[j], pid),
            decreases n - i,
        {
            assert(self.processes@[i as int]@ == before[i as int]);
            if self.processes[i].pid == pid && self.processes[i].exit_ts.is_none() {
                assert(is_live(before[i as int], pid));
                let row = &mut self.processes[i];
                row.exe = exe.to_string();
                row.comm = comm.to_string();
                row.cmdline = cmdline.to_string();
                row.uid = uid as i64;
                updated = true;
            }
            i += 1;
        }
        let ghost mapped = before.map_values(|p: ProcessModel| execed_row(p, pid, id));
        assert(self@.processes =~= mapped);
        if !updated {
            assert(mapped =~= before) by {
                assert forall|j: int| 0 <= j < n implies mapped[j] == before[j] by {
                    assert(!is_live(before[j], pid));
                }
            }
            self.insert_or_ignore(
                Process {
                    pid,
                    start_ts: ts.to_string(),
                    ppid: None,
                    exe: exe.to_string(),
                    comm: comm.to_string(),
                    cmdline: cmdline.to_string(),
                    uid: uid as i64,
                    exit_ts: None,
                },
            );
        }
        proof {
            assert(updated == has_live(before, pid));
            if updated {
                keys_survive_a_row_update(before, mapped);
            }
        }
    }

    /// Records a process that was running already when recording began at
    /// `start_ts`. Its true birth is unknown; that it existed then is all
    /// that is claimed.
    pub fn record_existing(&mut self, pid: i32, ppid: Option<i32>, id: Identity<'_>, start_ts: &str)
        requires
            old(self).wf(),
        ensures
            final(self).wf(),
            final(self)@ == (GraphModel {
                processes: inserted(
                    old(self)@.processes,
                    identified_row(pid, ppid, id@, start_ts@),
                ),
                ..old(self)@
            }),
    {
        self.insert_or_ignore(
            Process {
                pid,
                start_ts: start_ts.to_string(),
                ppid,
                exe: id.exe.to_string(),
                comm: id.comm.to_string(),
                cmdline: id.cmdline.to_string(),
                uid: id.uid as i64,
                exit_ts: None,
            },
        );
    }

    /// Records at `ts` that the live incarnation of `pid` has exited.
    pub fn record_exit_of(&mut self, pid: i32, ts: &str)
        requires
            old(self).wf(),
        ensures
            final(self).wf(),
            final(self)@ == exited(old(self)@, pid, ts@),
    {
        let ghost before = self@.processes;
        let mut i: usize = 0;
        let n = self.processes.len();
        while i < n
            invariant
                i <= n,
                n == before.len(),
                self.processes@.len() == n,
                self.events == old(self).events,
                forall|j: int|
                    0 <= j < n ==> #[trigger] self.processes@[j]@ == if j < i {
                        exited_row(before[j], pid, ts@)
                    } else {
                        before[j]
                    },
            decreases n - i,
        {
            assert(self.processes@[i as int]@ == before[i as int]);
            if self.processes[i].pid == pid && self.processes[i].exit_ts.is_none() {
                let row = &mut self.processes[i];
                row.exit_ts = Some(ts.to_string());
            }
            i += 1;
        }
        proof {
            let mapped = before.map_values(|p: ProcessModel| exited_row(p, pid, ts@));
            assert(self@.processes =~= mapped);
            keys_survive_a_row_update(before, mapped);
        }
    }

    /// Records the exit of one specific incarnation, which may have exited
    /// long before it is recorded.
    pub fn record_exit_at(&mut self, pid: i32, start_ts: &str, exit_ts: &str)
        requires
            old(self).wf(),
        ensures
            final(self).wf(),
            final(self)@ == closed_out(old(self)@, pid, start_ts@, exit_ts@),
    {
        let ghost before = self@.processes;
        let mut i: usize = 0;
        let n = self.processes.len();
        while i < n
            invariant
                i <= n,
                n == before.len(),
                self.processes@.len() == n,
                self.events == old(self).events,
                forall|j: int|
                    0 <= j < n ==> #[trigger] self.processes@[j]@ == if j < i {
                        closed_row(before[j], pid, start_ts@, exit_ts@)
                    } else {
                        before[j]
                    },
            decreases n - i,
        {
            assert(self.processes@[i as int]@ == before[i as int]);
            if self.processes[i].pid == pid && same_text(
                self.processes[i].start_ts.as_str(),
                start_ts,
            ) {
                let row = &mut self.processes[i];
                row.exit_ts = Some(exit_ts.to_string());
            }
            i += 1;
        }
        proof {
            let mapped = before.map_values(
                |p: ProcessModel| closed_row(p, pid, start_ts@, exit_ts@),
            );
            assert(self@.processes =~= mapped);
            keys_survive_a_row_update(before, mapped);
        }
    }

    /// The latest start among the incarnations of `pid` that the lookup
    /// considers.
    pub fn find_start(&self, pid: i32, which: Which<'_>) -> (r: Option<String>)
        ensures
            opt_text(r) == latest_start(self@.processes, pid, which@),
    {
        let mut best: Option<String> = None;
        let mut i: usize = 0;
        let ghost list = self@.processes;
        assert(list.take(0) =~= Seq::empty());
        while i < self.processes.len()
            invariant
                i <= self.processes@.len(),
                list == self@.processes,
                opt_text(best) == latest_start(list.take(i as int), pid, which@),
            decreases self.processes@.len() - i,
        {
            let p = &self.processes[i];
            assert(list.take(i + 1).drop_last() =~= list.take(i as int));
            assert(list.take(i + 1).last() == p@);
            if considers(p, pid, which) {
                let later = match &best {
                    Some(start) => text_lt(start.as_str(), p.start_ts.as_str()),
                    None => true,
                };
                if later {
                    best = Some(p.start_ts.clone());
                }
            }
            i += 1;
        }
        assert(list.take(list.len() as int) =~= list);
        best
    }

    /// The most recent incarnation of `pid`, alive or not: what a question
    /// about a command that has finished is about.
    pub fn latest_start_ts(&self, pid: i32) -> (r: Option<String>)
        ensures
            opt_text(r) == latest_start(self@.processes, pid, WhichModel::Any),
    {
        self.find_start(pid, Which::Any)
    }

    /// The live incarnation of `pid`.
    pub fn live_start_ts(&self, pid: i32) -> (r: Option<String>)
        ensures
            opt_text(r) == latest_start(self@.processes, pid, WhichModel::Live),
    {
        self.find_start(pid, Which::Live)
    }

    /// Records a file event at `ts`. A write by a process that was never seen
    /// is recorded without an incarnation: a hole in the graph, not a guess.
    pub fn record_event_at(&mut self, path: &str, op: &str, pid: i32, ts: &str)
        requires
            old(self).wf(),
        ensures
            final(self).wf(),
            final(self)@ == written(old(self)@, path@, op@, pid, ts@),
    {
        let proc_start = match self.find_start(pid, Which::During(ts)) {
            Some(start) => Some(start),
            None => self.find_start(pid, Which::StartedBy(ts)),
        };
        let ghost before = self@;
        let event = Event {
            ts: ts.to_string(),
            path: path.to_string(),
            op: op.to_string(),
            pid,
            proc_start,
        };
        self.events.push(event);
        assert(self@.events =~= before.events.push(event@));
    }

    /// How many processes and how many events are recorded.
    pub fn counts(&self) -> (r: (usize, usize))
        ensures
            r.0 == self@.processes.len(),
            r.1 == self@.events.len(),
    {
        (self.processes.len(), self.events.len())
    }
}

/// An update that keeps the key of every row keeps the keys unique.
proof fn keys_survive_a_row_update(before: Seq<ProcessModel>, after: Seq<ProcessModel>)
    requires
        has_unique_keys(before),
        before.len() == after.len(),
        forall|i: int|
            0 <= i < before.len() ==> is_incarnation(
                #[trigger] after[i],
                before[i].pid,
                before[i].start_ts,
            ),
    ensures
        has_unique_keys(after),
{
    assert forall|i: int, j: int| 0 <= i < j < after.len() implies !is_incarnation(
        #[trigger] after[i],
        (#[trigger] after[j]).pid,
        after[j].start_ts,
    ) by {
        assert(!is_incarnation(before[i], before[j].pid, before[j].start_ts));
    }
}

} // verus!
