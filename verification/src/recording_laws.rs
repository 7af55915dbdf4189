//! What holds of recording and pruning, told field by field.
use crate::daemon::{graph_identity, with_node};
use crate::graph::{
    bound_start, closed_out, execed, exited, forked, has_live, identified_row, inserted,
    is_candidate, is_incarnation, is_live, is_recorded, latest_start, latest_start_is_the_latest,
    written, EventModel, GraphModel, IdentityModel, ProcessModel, WhichModel,
};
use crate::proctree::NodeModel;
use crate::retention::{is_old, is_pinned, is_spent, old_events, pruned, spent};
use crate::text::{lex_le, lex_lt, lex_total};
use vstd::prelude::*;

verus! {

/// Is an incarnation of the pid with this start recorded?
pub open spec fn knows(list: Seq<ProcessModel>, pid: i32, start_ts: Seq<char>) -> bool {
    exists|i: int|
        0 <= i < list.len() && (#[trigger] list[i]).pid == pid && list[i].start_ts == start_ts
}

proof fn lemma_knows(list: Seq<ProcessModel>, pid: i32, start_ts: Seq<char>)
    ensures
        knows(list, pid, start_ts) <==> is_recorded(list, pid, start_ts),
{
    if knows(list, pid, start_ts) {
        let i = choose|i: int|
            0 <= i < list.len() && (#[trigger] list[i]).pid == pid && list[i].start_ts == start_ts;
        assert(is_incarnation(list[i], pid, start_ts));
    }
    if is_recorded(list, pid, start_ts) {
        let i = choose|i: int| 0 <= i < list.len() && is_incarnation(#[trigger] list[i], pid, start_ts);
        assert(list[i].pid == pid && list[i].start_ts == start_ts);
    }
}

/// A fork records the child behind what is recorded already: with its pid, its
/// parent and its birth, alive, and with nothing known of what it runs. A
/// child that is recorded already is not recorded again. No event changes.
pub proof fn a_fork_records_the_child(g: GraphModel, parent: i32, child: i32, ts: Seq<char>)
    ensures
        ({
            let after = forked(g, parent, child, ts);
            &&& after.events == g.events
            &&& knows(g.processes, child, ts) ==> after.processes == g.processes
            &&& !knows(g.processes, child, ts) ==> {
                let row = after.processes.last();
                &&& after.processes.len() == g.processes.len() + 1
                &&& after.processes.drop_last() == g.processes
                &&& row.pid == child
                &&& row.ppid == Some(parent)
                &&& row.start_ts == ts
                &&& row.exit_ts is None
                &&& row.exe.len() == 0 && row.comm.len() == 0 && row.cmdline.len() == 0
                &&& row.uid == -1
            }
        }),
{
    lemma_knows(g.processes, child, ts);
    reveal_strlit("");
    let after = forked(g, parent, child, ts);
    if !knows(g.processes, child, ts) {
        assert(after.processes.drop_last() =~= g.processes);
    }
}

/// Does the row tell what the process runs: the program, the name, the command
/// line and the user?
pub open spec fn runs(p: ProcessModel, id: IdentityModel) -> bool {
    p.exe == id.exe && p.comm == id.comm && p.cmdline == id.cmdline && p.uid == id.uid
}

/// A process that is recorded with what it runs is recorded behind the others,
/// alive, with its pid, its parent and its start; one that is recorded already
/// stays as it is.
pub proof fn a_running_process_is_recorded_whole(
    list: Seq<ProcessModel>,
    pid: i32,
    ppid: Option<i32>,
    id: IdentityModel,
    ts: Seq<char>,
)
    ensures
        ({
            let after = inserted(list, identified_row(pid, ppid, id, ts));
            &&& knows(list, pid, ts) ==> after == list
            &&& !knows(list, pid, ts) ==> {
                let row = after.last();
                &&& after.len() == list.len() + 1
                &&& after.drop_last() == list
                &&& row.pid == pid
                &&& row.ppid == ppid
                &&& row.start_ts == ts
                &&& row.exit_ts is None
                &&& runs(row, id)
            }
        }),
{
    lemma_knows(list, pid, ts);
    let after = inserted(list, identified_row(pid, ppid, id, ts));
    if !knows(list, pid, ts) {
        assert(after.drop_last() =~= list);
    }
}

/// An exec changes what the live process of the pid runs, and nothing else of
/// it nor anything of another. Where none is alive, the process is recorded as
/// one whose parent is not known.
pub proof fn an_exec_changes_what_runs(g: GraphModel, pid: i32, id: IdentityModel, ts: Seq<char>)
    ensures
        ({
            let after = execed(g, pid, id, ts);
            let alive = exists|i: int|
                0 <= i < g.processes.len() && (#[trigger] g.processes[i]).pid == pid
                    && g.processes[i].exit_ts is None;
            &&& after.events == g.events
            &&& alive ==> after.processes.len() == g.processes.len() && forall|i: int|
                0 <= i < g.processes.len() ==> {
                    let old = #[trigger] g.processes[i];
                    let new = after.processes[i];
                    if old.pid == pid && old.exit_ts is None {
                        &&& runs(new, id)
                        &&& new.pid == old.pid
                        &&& new.ppid == old.ppid
                        &&& new.start_ts == old.start_ts
                        &&& new.exit_ts == old.exit_ts
                    } else {
                        new == old
                    }
                }
            &&& !alive && !knows(g.processes, pid, ts) ==> {
                let row = after.processes.last();
                &&& after.processes.drop_last() == g.processes
                &&& row.pid == pid
                &&& row.ppid is None
                &&& row.start_ts == ts
                &&& row.exit_ts is None
                &&& runs(row, id)
            }
            &&& !alive && knows(g.processes, pid, ts) ==> after.processes == g.processes
        }),
{
    let alive = exists|i: int|
        0 <= i < g.processes.len() && (#[trigger] g.processes[i]).pid == pid
            && g.processes[i].exit_ts is None;
    if alive {
        let i = choose|i: int|
            0 <= i < g.processes.len() && (#[trigger] g.processes[i]).pid == pid
                && g.processes[i].exit_ts is None;
        assert(is_live(g.processes[i], pid));
    }
    if has_live(g.processes, pid) {
        let i = choose|i: int| 0 <= i < g.processes.len() && is_live(#[trigger] g.processes[i], pid);
        assert(g.processes[i].pid == pid && g.processes[i].exit_ts is None);
    } else {
        a_running_process_is_recorded_whole(g.processes, pid, None, id, ts);
    }
}

/// An exit gives the live process of the pid the time of its exit, and changes
/// nothing else.
pub proof fn an_exit_ends_one_life(g: GraphModel, pid: i32, ts: Seq<char>, i: int)
    requires
        0 <= i < g.processes.len(),
    ensures
        exited(g, pid, ts).events == g.events,
        exited(g, pid, ts).processes.len() == g.processes.len(),
        ({
            let old = g.processes[i];
            let new = exited(g, pid, ts).processes[i];
            if old.pid == pid && old.exit_ts is None {
                new == (ProcessModel { exit_ts: Some(ts), ..old })
            } else {
                new == old
            }
        }),
{
}

/// The exit of one incarnation is recorded for that one only.
pub proof fn an_exit_of_one_incarnation_is_its_own(
    g: GraphModel,
    pid: i32,
    start_ts: Seq<char>,
    exit_ts: Seq<char>,
    i: int,
)
    requires
        0 <= i < g.processes.len(),
    ensures
        closed_out(g, pid, start_ts, exit_ts).events == g.events,
        closed_out(g, pid, start_ts, exit_ts).processes.len() == g.processes.len(),
        ({
            let old = g.processes[i];
            let new = closed_out(g, pid, start_ts, exit_ts).processes[i];
            if old.pid == pid && old.start_ts == start_ts {
                new == (ProcessModel { exit_ts: Some(exit_ts), ..old })
            } else {
                new == old
            }
        }),
{
}

/// A file event is recorded behind the others as it was seen, and changes no
/// process.
pub proof fn a_write_is_recorded_as_seen(
    g: GraphModel,
    path: Seq<char>,
    op: Seq<char>,
    pid: i32,
    ts: Seq<char>,
)
    ensures
        ({
            let after = written(g, path, op, pid, ts);
            let e = after.events.last();
            &&& after.processes == g.processes
            &&& after.events.len() == g.events.len() + 1
            &&& after.events.drop_last() == g.events
            &&& e.path == path
            &&& e.op == op
            &&& e.pid == pid
            &&& e.ts == ts
        }),
{
    assert(written(g, path, op, pid, ts).events.drop_last() =~= g.events);
}

/// Had an incarnation of the pid started by `ts`?
pub open spec fn had_started(p: ProcessModel, pid: i32, ts: Seq<char>) -> bool {
    p.pid == pid && lex_le(p.start_ts, ts)
}

/// A write just behind the recorded exit of its writer is still bound to the
/// latest incarnation that had started, and one that nobody can have made is
/// bound to nothing.
pub proof fn a_write_is_bound_to_one_that_had_started(
    list: Seq<ProcessModel>,
    pid: i32,
    ts: Seq<char>,
)
    ensures
        match bound_start(list, pid, ts) {
            Some(start) => exists|i: int|
                0 <= i < list.len() && had_started(#[trigger] list[i], pid, ts) && list[i].start_ts
                    == start,
            None => forall|i: int| 0 <= i < list.len() ==> !had_started(#[trigger] list[i], pid, ts),
        },
        (forall|i: int| 0 <= i < list.len() ==> !is_candidate(#[trigger] list[i], pid, WhichModel::During(ts)))
            ==> (bound_start(list, pid, ts) matches Some(start) ==> forall|i: int|
            0 <= i < list.len() && had_started(#[trigger] list[i], pid, ts) ==> lex_le(
                list[i].start_ts,
                start,
            )),
{
    latest_start_is_the_latest(list, pid, WhichModel::During(ts));
    latest_start_is_the_latest(list, pid, WhichModel::StartedBy(ts));
    match latest_start(list, pid, WhichModel::During(ts)) {
        Some(start) => {
            let i = choose|i: int|
                0 <= i < list.len() && is_candidate(#[trigger] list[i], pid, WhichModel::During(ts))
                    && list[i].start_ts == start;
            assert(had_started(list[i], pid, ts));
        },
        None => {
            match latest_start(list, pid, WhichModel::StartedBy(ts)) {
                Some(start) => {
                    let i = choose|i: int|
                        0 <= i < list.len() && is_candidate(
                            #[trigger] list[i],
                            pid,
                            WhichModel::StartedBy(ts),
                        ) && list[i].start_ts == start;
                    assert(had_started(list[i], pid, ts));
                    assert forall|i: int|
                        0 <= i < list.len() && had_started(#[trigger] list[i], pid, ts) implies lex_le(
                        list[i].start_ts,
                        start,
                    ) by {
                        assert(is_candidate(list[i], pid, WhichModel::StartedBy(ts)));
                    }
                },
                None => {
                    assert forall|i: int| 0 <= i < list.len() implies !had_started(
                        #[trigger] list[i],
                        pid,
                        ts,
                    ) by {
                        assert(!is_candidate(list[i], pid, WhichModel::StartedBy(ts)));
                    }
                },
            }
        },
    }
}

/// The latest incarnation of a pid, alive or not, started last of all that are
/// recorded; the live one has not exited, and started last of those.
pub proof fn the_latest_incarnation_started_last(list: Seq<ProcessModel>, pid: i32)
    ensures
        match latest_start(list, pid, WhichModel::Any) {
            Some(start) => knows(list, pid, start) && forall|i: int|
                0 <= i < list.len() && (#[trigger] list[i]).pid == pid ==> lex_le(
                    list[i].start_ts,
                    start,
                ),
            None => forall|i: int| 0 <= i < list.len() ==> (#[trigger] list[i]).pid != pid,
        },
        match latest_start(list, pid, WhichModel::Live) {
            Some(start) => {
                &&& exists|i: int|
                    0 <= i < list.len() && (#[trigger] list[i]).pid == pid && list[i].start_ts
                        == start && list[i].exit_ts is None
                &&& forall|i: int|
                    0 <= i < list.len() && (#[trigger] list[i]).pid == pid && list[i].exit_ts is None
                        ==> lex_le(list[i].start_ts, start)
            },
            None => forall|i: int|
                0 <= i < list.len() && (#[trigger] list[i]).pid == pid ==> list[i].exit_ts is Some,
        },
{
    latest_start_is_the_latest(list, pid, WhichModel::Any);
    latest_start_is_the_latest(list, pid, WhichModel::Live);
    match latest_start(list, pid, WhichModel::Any) {
        Some(start) => {
            let i = choose|i: int|
                0 <= i < list.len() && is_candidate(#[trigger] list[i], pid, WhichModel::Any)
                    && list[i].start_ts == start;
            assert(list[i].pid == pid);
            assert forall|i: int| 0 <= i < list.len() && (#[trigger] list[i]).pid == pid implies lex_le(
                list[i].start_ts,
                start,
            ) by {
                assert(is_candidate(list[i], pid, WhichModel::Any));
            }
        },
        None => {
            assert forall|i: int| 0 <= i < list.len() implies (#[trigger] list[i]).pid != pid by {
                assert(!is_candidate(list[i], pid, WhichModel::Any));
            }
        },
    }
    match latest_start(list, pid, WhichModel::Live) {
        Some(start) => {
            let i = choose|i: int|
                0 <= i < list.len() && is_candidate(#[trigger] list[i], pid, WhichModel::Live)
                    && list[i].start_ts == start;
            assert(list[i].pid == pid);
            assert forall|i: int|
                0 <= i < list.len() && (#[trigger] list[i]).pid == pid && list[i].exit_ts is None
                implies lex_le(list[i].start_ts, start) by {
                assert(is_candidate(list[i], pid, WhichModel::Live));
            }
        },
        None => {
            assert forall|i: int|
                0 <= i < list.len() && (#[trigger] list[i]).pid == pid implies list[i].exit_ts is Some by {
                assert(!is_candidate(list[i], pid, WhichModel::Live));
            }
        },
    }
}

// ---------------------------------------------------------------------
// Storing a process of the tree
// ---------------------------------------------------------------------
/// A process of the tree is stored with all that the tree knows of it: its
/// parent, its start, what it runs, and its exit if it has exited.
pub proof fn a_process_is_stored_whole(g: GraphModel, pid: i32, n: NodeModel)
    requires
        !knows(g.processes, pid, n.start_ts),
    ensures
        ({
            let after = with_node(g, pid, n);
            let row = after.processes.last();
            &&& after.events == g.events
            &&& after.processes.len() == g.processes.len() + 1
            &&& after.processes.drop_last() == g.processes
            &&& row.pid == pid
            &&& row.ppid == n.ppid
            &&& row.start_ts == n.start_ts
            &&& row.exit_ts == n.exited
            &&& row.exe == n.info.exe
            &&& row.comm == n.info.comm
            &&& row.cmdline == n.info.cmdline
            &&& row.uid == n.info.uid
        }),
{
    let id = graph_identity(n.info);
    let list = inserted(g.processes, identified_row(pid, n.ppid, id, n.start_ts));
    a_running_process_is_recorded_whole(g.processes, pid, n.ppid, id, n.start_ts);
    lemma_knows(g.processes, pid, n.start_ts);
    let after = with_node(g, pid, n);
    match n.exited {
        Some(exit) => {
            let known = GraphModel { processes: list, ..g };
            assert forall|i: int| 0 <= i < g.processes.len() implies after.processes[i]
                == g.processes[i] by {
                assert(list[i] == list.drop_last()[i]);
                an_exit_of_one_incarnation_is_its_own(known, pid, n.start_ts, exit, i);
                assert(!(g.processes[i].pid == pid && g.processes[i].start_ts == n.start_ts));
            }
            an_exit_of_one_incarnation_is_its_own(known, pid, n.start_ts, exit, g.processes.len() as int);
            assert(after.processes.drop_last() =~= g.processes);
        },
        None => {},
    }
}

// ---------------------------------------------------------------------
// Pruning
// ---------------------------------------------------------------------
/// Is there an event at or after the cutoff by this pid?
pub open spec fn has_kept_event(events: Seq<EventModel>, pid: i32, cutoff: Seq<char>) -> bool {
    exists|k: int|
        0 <= k < events.len() && (#[trigger] events[k]).pid == pid && !lex_lt(events[k].ts, cutoff)
}

/// A prune drops exactly the events before the cutoff, and exactly the
/// processes that exited before it and made no event that is kept.
pub proof fn a_prune_drops_what_is_past(
    g: GraphModel,
    cutoff: Seq<char>,
    p: ProcessModel,
    e: EventModel,
)
    requires
        g.processes.contains(p),
        g.events.contains(e),
    ensures
        pruned(g, cutoff).events.contains(e) <==> !lex_lt(e.ts, cutoff),
        pruned(g, cutoff).processes.contains(p) <==> !(p.exit_ts is Some && lex_lt(
            p.exit_ts->0,
            cutoff,
        ) && !has_kept_event(g.events, p.pid, cutoff)),
{
    let keep_e = |e: EventModel| !is_old(e, cutoff);
    let keep_p = |p: ProcessModel| !is_spent(p, g.events, cutoff);
    lemma_filtered(g.events, keep_e, e);
    lemma_filtered(g.processes, keep_p, p);
    if is_pinned(g.events, p.pid, cutoff) {
        let i = choose|i: int|
            0 <= i < g.events.len() && (#[trigger] g.events[i]).pid == p.pid && lex_le(
                cutoff,
                g.events[i].ts,
            );
        lex_total(cutoff, g.events[i].ts);
        assert(g.events[i].pid == p.pid && !lex_lt(g.events[i].ts, cutoff));
    }
    if has_kept_event(g.events, p.pid, cutoff) {
        let k = choose|k: int|
            0 <= k < g.events.len() && (#[trigger] g.events[k]).pid == p.pid && !lex_lt(
                g.events[k].ts,
                cutoff,
            );
        lex_total(cutoff, g.events[k].ts);
        assert(g.events[k].pid == p.pid && lex_le(cutoff, g.events[k].ts));
    }
}

proof fn lemma_filtered<A>(list: Seq<A>, keep: spec_fn(A) -> bool, x: A)
    requires
        list.contains(x),
    ensures
        list.filter(keep).contains(x) <==> keep(x),
{
    if keep(x) {
        let k = choose|k: int| 0 <= k < list.len() && list[k] == x;
        list.lemma_filter_contains(keep, k);
    }
    if list.filter(keep).contains(x) {
        let k = choose|k: int| 0 <= k < list.filter(keep).len() && list.filter(keep)[k] == x;
        broadcast use Seq::lemma_filter_pred;

        assert(keep(list.filter(keep)[k]));
    }
}

/// What a prune counts as dropped is what is missing afterwards.
pub proof fn a_prune_counts_what_is_missing(g: GraphModel, cutoff: Seq<char>)
    ensures
        spent(g, cutoff).len() + pruned(g, cutoff).processes.len() == g.processes.len(),
        old_events(g, cutoff).len() + pruned(g, cutoff).events.len() == g.events.len(),
{
    lemma_two_parts(g.processes, |p: ProcessModel| is_spent(p, g.events, cutoff), |p: ProcessModel| !is_spent(p, g.events, cutoff));
    lemma_two_parts(g.events, |e: EventModel| is_old(e, cutoff), |e: EventModel| !is_old(e, cutoff));
}

proof fn lemma_two_parts<A>(list: Seq<A>, f: spec_fn(A) -> bool, h: spec_fn(A) -> bool)
    requires
        forall|x: A| #[trigger] f(x) == !h(x),
    ensures
        list.filter(f).len() + list.filter(h).len() == list.len(),
    decreases list.len(),
{
    reveal(Seq::filter);
    if list.len() > 0 {
        lemma_two_parts(list.drop_last(), f, h);
        assert(f(list.last()) == !h(list.last()));
    }
}

} // verus!
