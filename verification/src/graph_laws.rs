//! What holds of the causal graph as a whole.
use crate::graph::{
    bound_start, closed_out, execed, execed_row, exited, forked, forked_row, has_live,
    has_unique_keys, identified_row, inserted, is_candidate, is_incarnation, is_live, is_recorded,
    latest_start, latest_start_is_the_latest, lived_at, someone_lived_at, written, EventModel,
    FileEventModel, GraphModel, IdentityModel, ProcessModel, WhichModel,
};
use crate::history::{
    attributed, events_of_path, history, in_time_order, is_about, resolved_start, row_at, times,
};
use crate::lineage::{
    ancestors, is_child_of, is_next, is_parent_of, manifest, next_level, nexts, origin, process_tree,
    walk, wrote, writes_of, Toward, MAX_ANCESTRY, MAX_TREE,
};
use crate::order::{is_text_order, text_order_exists};
use crate::retention::{is_old, is_pinned, is_spent, pruned};
use crate::text::{lex_le, lex_lt, lex_total};
use vstd::prelude::*;

verus! {

// ---------------------------------------------------------------------
// Recording
// ---------------------------------------------------------------------
/// Fork then exec makes one process row, which keeps the parent edge that the
/// fork recorded.
pub proof fn fork_then_exec_keeps_one_row_and_the_parent(
    g: GraphModel,
    parent_pid: i32,
    pid: i32,
    fork_ts: Seq<char>,
    id: IdentityModel,
    exec_ts: Seq<char>,
)
    requires
        !is_recorded(g.processes, pid, fork_ts),
    ensures
        ({
            let after = execed(forked(g, parent_pid, pid, fork_ts), pid, id, exec_ts);
            &&& after.processes.len() == g.processes.len() + 1
            &&& after.processes.last() == identified_row(pid, Some(parent_pid), id, fork_ts)
            &&& after.events == g.events
        }),
{
    let mid = forked(g, parent_pid, pid, fork_ts);
    let n = g.processes.len() as int;
    assert(mid.processes[n] == forked_row(parent_pid, pid, fork_ts));
    assert(is_live(mid.processes[n], pid));
    assert(has_live(mid.processes, pid));
}

/// Exec never changes which processes are known, nor their parents, where an
/// incarnation of the pid is alive.
pub proof fn exec_replaces_the_image_not_the_process(
    g: GraphModel,
    pid: i32,
    id: IdentityModel,
    ts: Seq<char>,
    i: int,
)
    requires
        has_live(g.processes, pid),
        0 <= i < g.processes.len(),
    ensures
        execed(g, pid, id, ts).processes.len() == g.processes.len(),
        ({
            let before = g.processes[i];
            let after = execed(g, pid, id, ts).processes[i];
            &&& is_incarnation(after, before.pid, before.start_ts)
            &&& after.ppid == before.ppid
            &&& after.exit_ts == before.exit_ts
        }),
{
}

/// Recording a process that is recorded already changes nothing: starting
/// over adds no second row for the same incarnation.
pub proof fn seeding_twice_adds_nothing(list: Seq<ProcessModel>, row: ProcessModel)
    ensures
        inserted(inserted(list, row), row) == inserted(list, row),
{
    let once = inserted(list, row);
    if !is_recorded(list, row.pid, row.start_ts) {
        assert(is_incarnation(once[list.len() as int], row.pid, row.start_ts));
    }
}

/// After an exit no incarnation of the pid is alive.
pub proof fn an_exit_leaves_nothing_alive(g: GraphModel, pid: i32, ts: Seq<char>)
    ensures
        !has_live(exited(g, pid, ts).processes, pid),
        latest_start(exited(g, pid, ts).processes, pid, WhichModel::Live) is None,
{
    let after = exited(g, pid, ts).processes;
    assert forall|i: int| 0 <= i < after.len() implies !is_live(#[trigger] after[i], pid) by {
        assert(after[i] == crate::graph::exited_row(g.processes[i], pid, ts));
    }
    latest_start_is_the_latest(after, pid, WhichModel::Live);
    if latest_start(after, pid, WhichModel::Live) is Some {
        let i = choose|i: int|
            0 <= i < after.len() && is_candidate(#[trigger] after[i], pid, WhichModel::Live)
                && after[i].start_ts == latest_start(after, pid, WhichModel::Live)->0;
        assert(is_live(after[i], pid));
    }
}

/// A finished process is still found by the lookup that does not ask for
/// liveness: an exit changes no start.
pub proof fn an_exit_hides_no_process(g: GraphModel, pid: i32, ts: Seq<char>, other: i32)
    ensures
        latest_start(exited(g, pid, ts).processes, other, WhichModel::Any) == latest_start(
            g.processes,
            other,
            WhichModel::Any,
        ),
    decreases g.processes.len(),
{
    let list = g.processes;
    let after = exited(g, pid, ts).processes;
    if list.len() > 0 {
        let front = GraphModel { processes: list.drop_last(), ..g };
        an_exit_hides_no_process(front, pid, ts, other);
        assert(after.drop_last() =~= exited(front, pid, ts).processes);
    }
}

/// Is `start` the start of an incarnation of `pid` that lived at `ts`, with
/// none that started later?
pub open spec fn is_incarnation_at(
    list: Seq<ProcessModel>,
    pid: i32,
    ts: Seq<char>,
    start: Seq<char>,
) -> bool {
    &&& exists|i: int|
        0 <= i < list.len() && is_incarnation(#[trigger] list[i], pid, start) && lived_at(list[i], ts)
    &&& forall|i: int|
        0 <= i < list.len() && (#[trigger] list[i]).pid == pid && lived_at(list[i], ts) ==> lex_le(
            list[i].start_ts,
            start,
        )
}

/// A recycled pid never inherits a dead identity: where an incarnation of the
/// pid lived at the time of the event, the event is bound to one that did,
/// the latest of them.
pub proof fn a_recycled_pid_inherits_nothing(list: Seq<ProcessModel>, pid: i32, ts: Seq<char>)
    requires
        someone_lived_at(list, pid, ts),
    ensures
        bound_start(list, pid, ts) is Some,
        is_incarnation_at(list, pid, ts, bound_start(list, pid, ts)->0),
{
    lemma_during(list, pid, ts);
}

/// What a lookup by lifetime finds.
proof fn lemma_during(list: Seq<ProcessModel>, pid: i32, ts: Seq<char>)
    ensures
        latest_start(list, pid, WhichModel::During(ts)) is Some <==> someone_lived_at(list, pid, ts),
        latest_start(list, pid, WhichModel::During(ts)) matches Some(start) ==> is_incarnation_at(
            list,
            pid,
            ts,
            start,
        ),
{
    let which = WhichModel::During(ts);
    latest_start_is_the_latest(list, pid, which);
    match latest_start(list, pid, which) {
        Some(start) => {
            let i = choose|i: int|
                0 <= i < list.len() && is_candidate(#[trigger] list[i], pid, which)
                    && list[i].start_ts == start;
            assert(list[i].pid == pid && lived_at(list[i], ts));
            assert(is_incarnation(list[i], pid, start));
            assert forall|k: int|
                0 <= k < list.len() && (#[trigger] list[k]).pid == pid && lived_at(
                    list[k],
                    ts,
                ) implies lex_le(list[k].start_ts, start) by {
                assert(is_candidate(list[k], pid, which));
            }
        },
        None => {
            if someone_lived_at(list, pid, ts) {
                let i = choose|i: int|
                    0 <= i < list.len() && (#[trigger] list[i]).pid == pid && lived_at(list[i], ts);
                assert(is_candidate(list[i], pid, which));
            }
        },
    }
}

/// An event that was processed before its writer was known is attributed as
/// soon as an incarnation that lived at its time is recorded, and then to one
/// that did, the latest of them.
pub proof fn a_late_writer_is_still_found(list: Seq<ProcessModel>, e: EventModel)
    requires
        e.proc_start is None,
    ensures
        resolved_start(list, e) is Some <==> someone_lived_at(list, e.pid, e.ts),
        resolved_start(list, e) matches Some(start) ==> is_incarnation_at(list, e.pid, e.ts, start),
{
    lemma_during(list, e.pid, e.ts);
}

/// A write by a process that nobody knows is recorded, without a writer.
pub proof fn an_unattributed_write_is_recorded(
    g: GraphModel,
    path: Seq<char>,
    op: Seq<char>,
    pid: i32,
    ts: Seq<char>,
)
    requires
        forall|i: int| 0 <= i < g.processes.len() ==> (#[trigger] g.processes[i]).pid != pid,
    ensures
        ({
            let after = written(g, path, op, pid, ts);
            let shown = FileEventModel {
                ts,
                path,
                op,
                pid,
                comm: ""@,
                exe: ""@,
                cmdline: ""@,
                proc_start: None,
                other_path: None,
            };
            &&& after.processes == g.processes
            &&& history(after, path).len() == history(g, path).len() + 1
            &&& history(after, path).contains(shown)
        }),
{
    let after = written(g, path, op, pid, ts);
    let e = after.events.last();
    latest_start_is_the_latest(g.processes, pid, WhichModel::During(ts));
    latest_start_is_the_latest(g.processes, pid, WhichModel::StartedBy(ts));
    assert(bound_start(g.processes, pid, ts) is None);
    a_write_is_in_the_history(g, path, op, pid, ts);
}

/// A recorded write is one more entry in the history of its path, with the
/// writer that it was bound to.
pub proof fn a_write_is_in_the_history(
    g: GraphModel,
    path: Seq<char>,
    op: Seq<char>,
    pid: i32,
    ts: Seq<char>,
)
    ensures
        ({
            let after = written(g, path, op, pid, ts);
            &&& history(after, path).len() == history(g, path).len() + 1
            &&& history(after, path).contains(attributed(g.processes, after.events.last()))
        }),
{
    let after = written(g, path, op, pid, ts);
    let e = after.events.last();
    let about = |x: EventModel| is_about(x, path);
    let show = |x: EventModel| attributed(g.processes, x);
    assert(after.events.drop_last() =~= g.events);
    assert(events_of_path(after, path) =~= events_of_path(g, path).push(attributed(g.processes, e)))
        by {
        reveal(Seq::filter);
    }
    lemma_time_order(events_of_path(g, path));
    lemma_time_order(events_of_path(after, path));
    let n = events_of_path(g, path).len() as int;
    assert(events_of_path(after, path)[n] == attributed(g.processes, e));
    assert(events_of_path(after, path).contains(attributed(g.processes, e)));
}

// ---------------------------------------------------------------------
// Histories
// ---------------------------------------------------------------------
/// Putting events in time order keeps every event and adds none.
proof fn lemma_time_order(list: Seq<FileEventModel>)
    ensures
        in_time_order(list).len() == list.len(),
        forall|e: FileEventModel| in_time_order(list).contains(e) <==> #[trigger] list.contains(e),
        forall|i: int, j: int|
            0 <= i < j < list.len() ==> lex_le(
                (#[trigger] in_time_order(list)[i]).ts,
                (#[trigger] in_time_order(list)[j]).ts,
            ),
{
    text_order_exists(times(list));
    let p = choose|p: Seq<int>| is_text_order(times(list), p);
    let out = in_time_order(list);
    assert forall|e: FileEventModel| out.contains(e) <==> #[trigger] list.contains(e) by {
        if list.contains(e) {
            let k = choose|k: int| 0 <= k < list.len() && list[k] == e;
            assert(p.contains(k));
            let i = choose|i: int| 0 <= i < p.len() && p[i] == k;
            assert(out[i] == e);
        }
        if out.contains(e) {
            let i = choose|i: int| 0 <= i < out.len() && out[i] == e;
            assert(list[p[i]] == e);
        }
    }
    assert forall|i: int, j: int| 0 <= i < j < list.len() implies lex_le(
        (#[trigger] out[i]).ts,
        (#[trigger] out[j]).ts,
    ) by {
        assert(crate::order::text_before(times(list), p[i], p[j]));
    }
}

/// The history of a path has its events in time order.
pub proof fn a_history_is_in_time_order(g: GraphModel, path: Seq<char>, i: int, j: int)
    requires
        0 <= i < j < history(g, path).len(),
    ensures
        lex_le(history(g, path)[i].ts, history(g, path)[j].ts),
{
    lemma_time_order(events_of_path(g, path));
}

/// Is `x` the stored event `e` with its writer, and is `e` about `path`?
pub open spec fn is_entry(g: GraphModel, path: Seq<char>, e: EventModel, x: FileEventModel) -> bool {
    g.events.contains(e) && is_about(e, path) && x == attributed(g.processes, e)
}

/// The history of a path holds every stored event about it and nothing else.
pub proof fn a_history_is_complete(g: GraphModel, path: Seq<char>, x: FileEventModel)
    ensures
        history(g, path).contains(x) <==> exists|e: EventModel| is_entry(g, path, e, x),
{
    let about = |e: EventModel| is_about(e, path);
    let kept = g.events.filter(about);
    let shown = events_of_path(g, path);
    lemma_time_order(shown);
    if shown.contains(x) {
        let k = choose|k: int| 0 <= k < shown.len() && shown[k] == x;
        assert(kept.contains(kept[k]));
        g.events.lemma_filter_contains_rev(about, kept[k]);
        broadcast use Seq::lemma_filter_pred;

        assert(about(kept[k]));
        assert(is_entry(g, path, kept[k], x));
    }
    if exists|e: EventModel| is_entry(g, path, e, x) {
        let e = choose|e: EventModel| is_entry(g, path, e, x);
        let i = choose|i: int| 0 <= i < g.events.len() && g.events[i] == e;
        g.events.lemma_filter_contains(about, i);
        let k = choose|k: int| 0 <= k < kept.len() && kept[k] == e;
        assert(shown[k] == x);
    }
}

// ---------------------------------------------------------------------
// Lineages
// ---------------------------------------------------------------------
/// A chain of recorded processes, each next to the one before it.
pub open spec fn is_chain(list: Seq<ProcessModel>, chain: Seq<ProcessModel>, toward: Toward) -> bool {
    &&& chain.len() > 0
    &&& forall|i: int| 0 <= i < chain.len() ==> list.contains(#[trigger] chain[i])
    &&& forall|i: int|
        #![trigger chain[i]]
        0 < i < chain.len() ==> is_next(list, chain[i], chain[i - 1], toward)
}

/// Is there a chain of at most `steps` edges from a process of `level` to `p`?
pub open spec fn is_reached(
    list: Seq<ProcessModel>,
    level: Seq<ProcessModel>,
    toward: Toward,
    steps: nat,
    p: ProcessModel,
) -> bool {
    exists|chain: Seq<ProcessModel>|
        {
            &&& #[trigger] is_chain(list, chain, toward)
            &&& chain.len() <= steps + 1
            &&& level.contains(chain[0])
            &&& chain.last() == p
        }
}

/// What stands in the next level.
proof fn lemma_next_level(
    list: Seq<ProcessModel>,
    level: Seq<ProcessModel>,
    toward: Toward,
    p: ProcessModel,
)
    ensures
        next_level(list, level, toward).contains(p) <==> list.contains(p) && exists|i: int|
            0 <= i < level.len() && is_next(list, p, #[trigger] level[i], toward),
    decreases level.len(),
{
    let out = next_level(list, level, toward);
    if level.len() > 0 {
        let front = level.drop_last();
        let c = level.last();
        let link = |x: ProcessModel| is_next(list, x, c, toward);
        let a = next_level(list, front, toward);
        let b = nexts(list, c, toward);
        lemma_next_level(list, front, toward, p);
        if out.contains(p) {
            let k = choose|k: int| 0 <= k < out.len() && out[k] == p;
            if k < a.len() {
                assert(a[k] == p);
                assert(a.contains(p));
                let i = choose|i: int| 0 <= i < front.len() && is_next(list, p, #[trigger] front[i], toward);
                assert(level[i] == front[i]);
            } else {
                assert(b[k - a.len()] == p);
                assert(b.contains(p));
                list.lemma_filter_contains_rev(link, p);
                broadcast use Seq::lemma_filter_pred;

                assert(link(b[k - a.len()]));
                assert(level[level.len() - 1] == c);
            }
        }
        if list.contains(p) && exists|i: int|
            0 <= i < level.len() && is_next(list, p, #[trigger] level[i], toward) {
            let i = choose|i: int| 0 <= i < level.len() && is_next(list, p, #[trigger] level[i], toward);
            if i < front.len() {
                assert(front[i] == level[i]);
                let k = choose|k: int| 0 <= k < a.len() && a[k] == p;
                assert(out[k] == p);
            } else {
                let m = choose|m: int| 0 <= m < list.len() && list[m] == p;
                list.lemma_filter_contains(link, m);
                let k = choose|k: int| 0 <= k < b.len() && b[k] == p;
                assert(out[a.len() + k] == p);
            }
        }
    }
}

/// A walk visits exactly the processes that a chain of edges reaches.
pub proof fn a_walk_visits_what_chains_reach(
    list: Seq<ProcessModel>,
    level: Seq<ProcessModel>,
    toward: Toward,
    steps: nat,
    p: ProcessModel,
)
    requires
        forall|i: int| 0 <= i < level.len() ==> list.contains(#[trigger] level[i]),
    ensures
        walk(list, level, toward, steps).contains(p) <==> is_reached(list, level, toward, steps, p),
    decreases steps,
{
    let out = walk(list, level, toward, steps);
    if level.contains(p) {
        let k = choose|k: int| 0 <= k < level.len() && level[k] == p;
        let chain = seq![p];
        assert(chain[0] == p && list.contains(chain[0]));
        assert(is_chain(list, chain, toward));
        assert(out[k] == p);
    }
    if steps > 0 {
        let next = next_level(list, level, toward);
        let rest = walk(list, next, toward, (steps - 1) as nat);
        assert forall|i: int| 0 <= i < next.len() implies list.contains(#[trigger] next[i]) by {
            assert(next.contains(next[i]));
            lemma_next_level(list, level, toward, next[i]);
        }
        a_walk_visits_what_chains_reach(list, next, toward, (steps - 1) as nat, p);
        if out.contains(p) && !level.contains(p) {
            let k = choose|k: int| 0 <= k < out.len() && out[k] == p;
            assert(k >= level.len());
            assert(rest[k - level.len()] == p);
            assert(rest.contains(p));
            let tail = choose|chain: Seq<ProcessModel>|
                {
                    &&& #[trigger] is_chain(list, chain, toward)
                    &&& chain.len() <= steps
                    &&& next.contains(chain[0])
                    &&& chain.last() == p
                };
            lemma_next_level(list, level, toward, tail[0]);
            let i = choose|i: int|
                0 <= i < level.len() && is_next(list, tail[0], #[trigger] level[i], toward);
            let chain = seq![level[i]] + tail;
            assert(chain[0] == level[i]);
            assert forall|j: int| 0 <= j < chain.len() implies list.contains(#[trigger] chain[j]) by {
                if j > 0 {
                    assert(chain[j] == tail[j - 1]);
                }
            }
            assert forall|j: int|
                #![trigger chain[j]]
                0 < j < chain.len() implies is_next(list, chain[j], chain[j - 1], toward) by {
                assert(chain[j] == tail[j - 1]);
                if j > 1 {
                    assert(chain[j - 1] == tail[j - 2]);
                }
            }
            assert(is_chain(list, chain, toward));
            assert(chain.last() == p);
        }
        if is_reached(list, level, toward, steps, p) && !level.contains(p) {
            let chain = choose|chain: Seq<ProcessModel>|
                {
                    &&& #[trigger] is_chain(list, chain, toward)
                    &&& chain.len() <= steps + 1
                    &&& level.contains(chain[0])
                    &&& chain.last() == p
                };
            assert(chain.len() > 1);
            let tail = chain.skip(1);
            assert forall|j: int| 0 <= j < tail.len() implies list.contains(#[trigger] tail[j]) by {
                assert(tail[j] == chain[j + 1]);
            }
            assert forall|j: int|
                #![trigger tail[j]]
                0 < j < tail.len() implies is_next(list, tail[j], tail[j - 1], toward) by {
                assert(tail[j] == chain[j + 1]);
                assert(tail[j - 1] == chain[j]);
            }
            assert(is_chain(list, tail, toward));
            assert(is_next(list, chain[1], chain[0], toward));
            let i = choose|i: int| 0 <= i < level.len() && level[i] == chain[0];
            assert(is_next(list, chain[1], level[i], toward));
            lemma_next_level(list, level, toward, chain[1]);
            assert(tail[0] == chain[1]);
            assert(tail.last() == p);
            assert(is_reached(list, next, toward, (steps - 1) as nat, p));
            let k = choose|k: int| 0 <= k < rest.len() && rest[k] == p;
            assert(out[level.len() + k] == p);
        }
    } else {
        if is_reached(list, level, toward, steps, p) {
            let chain = choose|chain: Seq<ProcessModel>|
                {
                    &&& #[trigger] is_chain(list, chain, toward)
                    &&& chain.len() <= steps + 1
                    &&& level.contains(chain[0])
                    &&& chain.last() == p
                };
            assert(chain.len() == 1);
        }
    }
}

/// What a walk starts at.
proof fn lemma_origin(list: Seq<ProcessModel>, pid: i32, start_ts: Seq<char>)
    ensures
        forall|i: int|
            0 <= i < origin(list, pid, start_ts).len() ==> list.contains(
                #[trigger] origin(list, pid, start_ts)[i],
            ) && is_incarnation(origin(list, pid, start_ts)[i], pid, start_ts),
        forall|p: ProcessModel|
            list.contains(p) && is_incarnation(p, pid, start_ts) ==> #[trigger] origin(
                list,
                pid,
                start_ts,
            ).contains(p),
{
    let here = |p: ProcessModel| is_incarnation(p, pid, start_ts);
    let out = origin(list, pid, start_ts);
    assert forall|i: int| 0 <= i < out.len() implies list.contains(#[trigger] out[i])
        && is_incarnation(out[i], pid, start_ts) by {
        assert(out.contains(out[i]));
        list.lemma_filter_contains_rev(here, out[i]);
        broadcast use Seq::lemma_filter_pred;

        assert(here(out[i]));
    }
    assert forall|p: ProcessModel|
        list.contains(p) && is_incarnation(p, pid, start_ts) implies #[trigger] out.contains(p) by {
        let m = choose|m: int| 0 <= m < list.len() && list[m] == p;
        list.lemma_filter_contains(here, m);
    }
}

/// An ancestry holds exactly the processes that explain this one: those that
/// a chain of parent edges reaches, each parent alive when its child was
/// born.
pub proof fn an_ancestry_is_the_chain_of_parents(
    list: Seq<ProcessModel>,
    pid: i32,
    start_ts: Seq<char>,
    p: ProcessModel,
)
    ensures
        ancestors(list, pid, start_ts).contains(p) <==> is_reached(
            list,
            origin(list, pid, start_ts),
            Toward::Parents,
            MAX_ANCESTRY as nat,
            p,
        ),
{
    lemma_origin(list, pid, start_ts);
    a_walk_visits_what_chains_reach(
        list,
        origin(list, pid, start_ts),
        Toward::Parents,
        MAX_ANCESTRY as nat,
        p,
    );
}

/// A tree holds exactly the processes that a chain of fork edges reaches.
pub proof fn a_tree_is_what_fork_edges_reach(
    list: Seq<ProcessModel>,
    pid: i32,
    start_ts: Seq<char>,
    p: ProcessModel,
)
    ensures
        process_tree(list, pid, start_ts).contains(p) <==> is_reached(
            list,
            origin(list, pid, start_ts),
            Toward::Children,
            MAX_TREE as nat,
            p,
        ),
{
    lemma_origin(list, pid, start_ts);
    a_walk_visits_what_chains_reach(
        list,
        origin(list, pid, start_ts),
        Toward::Children,
        MAX_TREE as nat,
        p,
    );
}

/// A recorded process comes first in its own ancestry and in its own tree.
pub proof fn a_lineage_starts_with_the_process(
    list: Seq<ProcessModel>,
    pid: i32,
    start_ts: Seq<char>,
)
    requires
        is_recorded(list, pid, start_ts),
    ensures
        ancestors(list, pid, start_ts).len() > 0,
        is_incarnation(ancestors(list, pid, start_ts)[0], pid, start_ts),
        process_tree(list, pid, start_ts).len() > 0,
        is_incarnation(process_tree(list, pid, start_ts)[0], pid, start_ts),
{
    lemma_origin(list, pid, start_ts);
    let i = choose|i: int| 0 <= i < list.len() && is_incarnation(#[trigger] list[i], pid, start_ts);
    assert(list.contains(list[i]));
    let first = origin(list, pid, start_ts);
    assert(first.contains(list[i]));
    assert(ancestors(list, pid, start_ts)[0] == first[0]);
    assert(process_tree(list, pid, start_ts)[0] == first[0]);
}

/// A chain of parents is a chain of children the other way round.
proof fn lemma_chain_turned(list: Seq<ProcessModel>, chain: Seq<ProcessModel>)
    requires
        is_chain(list, chain, Toward::Parents),
    ensures
        is_chain(list, chain.reverse(), Toward::Children),
        chain.reverse()[0] == chain.last(),
        chain.reverse().last() == chain[0],
{
    let back = chain.reverse();
    assert forall|i: int| 0 <= i < back.len() implies list.contains(#[trigger] back[i]) by {
        assert(back[i] == chain[chain.len() - 1 - i]);
    }
    assert forall|i: int|
        #![trigger back[i]]
        0 < i < back.len() implies is_next(list, back[i], back[i - 1], Toward::Children) by {
        let j = chain.len() - i;
        assert(back[i] == chain[j - 1]);
        assert(back[i - 1] == chain[j]);
        assert(is_next(list, chain[j], chain[j - 1], Toward::Parents));
    }
}

/// Every process descends from each of its ancestors: where `a` explains `p`,
/// the tree of `a` holds `p`.
pub proof fn a_process_descends_from_its_ancestors(
    list: Seq<ProcessModel>,
    p: ProcessModel,
    a: ProcessModel,
)
    requires
        has_unique_keys(list),
        list.contains(p),
        ancestors(list, p.pid, p.start_ts).contains(a),
    ensures
        process_tree(list, a.pid, a.start_ts).contains(p),
{
    let from = origin(list, p.pid, p.start_ts);
    an_ancestry_is_the_chain_of_parents(list, p.pid, p.start_ts, a);
    lemma_origin(list, p.pid, p.start_ts);
    let up = choose|chain: Seq<ProcessModel>|
        {
            &&& #[trigger] is_chain(list, chain, Toward::Parents)
            &&& chain.len() <= MAX_ANCESTRY + 1
            &&& from.contains(chain[0])
            &&& chain.last() == a
        };
    let k0 = choose|k: int| 0 <= k < from.len() && from[k] == up[0];
    assert(is_incarnation(from[k0], p.pid, p.start_ts));
    lemma_same_key(list, up[0], p);
    lemma_chain_turned(list, up);
    let down = up.reverse();
    lemma_origin(list, a.pid, a.start_ts);
    assert(list.contains(up[up.len() - 1]));
    assert(origin(list, a.pid, a.start_ts).contains(a));
    assert(is_chain(list, down, Toward::Children) && down.len() <= MAX_TREE + 1);
    a_tree_is_what_fork_edges_reach(list, a.pid, a.start_ts, p);
}

/// Is this a line of recorded processes, each a child of the one behind it?
pub open spec fn is_line(list: Seq<ProcessModel>, line: Seq<ProcessModel>) -> bool {
    &&& line.len() > 0
    &&& forall|i: int| 0 <= i < line.len() ==> list.contains(#[trigger] line[i])
    &&& forall|i: int|
        #![trigger line[i]]
        0 < i < line.len() ==> is_child_of(list, line[i - 1], line[i])
}

/// Does a line of parents lead from `p` up to the incarnation
/// `(pid, start_ts)`?
pub open spec fn descends_from(
    list: Seq<ProcessModel>,
    p: ProcessModel,
    pid: i32,
    start_ts: Seq<char>,
) -> bool {
    exists|line: Seq<ProcessModel>|
        {
            &&& #[trigger] is_line(list, line)
            &&& line.len() <= MAX_TREE + 1
            &&& line[0] == p
            &&& is_incarnation(line.last(), pid, start_ts)
        }
}

/// A tree holds exactly the processes that descend from its root: those whose
/// line of parents leads up to it.
pub proof fn a_tree_holds_its_descendants_only(
    list: Seq<ProcessModel>,
    pid: i32,
    start_ts: Seq<char>,
    p: ProcessModel,
)
    ensures
        process_tree(list, pid, start_ts).contains(p) <==> descends_from(list, p, pid, start_ts),
{
    let from = origin(list, pid, start_ts);
    let steps = MAX_TREE as nat;
    lemma_origin(list, pid, start_ts);
    a_tree_is_what_fork_edges_reach(list, pid, start_ts, p);
    if is_reached(list, from, Toward::Children, steps, p) {
        let down = choose|chain: Seq<ProcessModel>|
            {
                &&& #[trigger] is_chain(list, chain, Toward::Children)
                &&& chain.len() <= steps + 1
                &&& from.contains(chain[0])
                &&& chain.last() == p
            };
        let line = down.reverse();
        assert forall|i: int| 0 <= i < line.len() implies list.contains(#[trigger] line[i]) by {
            assert(line[i] == down[down.len() - 1 - i]);
        }
        assert forall|i: int|
            #![trigger line[i]]
            0 < i < line.len() implies is_child_of(list, line[i - 1], line[i]) by {
            let j = down.len() - i;
            assert(line[i - 1] == down[j]);
            assert(line[i] == down[j - 1]);
            assert(is_next(list, down[j], down[j - 1], Toward::Children));
        }
        let k = choose|k: int| 0 <= k < from.len() && from[k] == down[0];
        assert(is_incarnation(from[k], pid, start_ts));
        assert(line.last() == down[0]);
        assert(is_line(list, line));
    }
    if descends_from(list, p, pid, start_ts) {
        let line = choose|line: Seq<ProcessModel>|
            {
                &&& #[trigger] is_line(list, line)
                &&& line.len() <= MAX_TREE + 1
                &&& line[0] == p
                &&& is_incarnation(line.last(), pid, start_ts)
            };
        let down = line.reverse();
        assert forall|i: int| 0 <= i < down.len() implies list.contains(#[trigger] down[i]) by {
            assert(down[i] == line[line.len() - 1 - i]);
        }
        assert forall|i: int|
            #![trigger down[i]]
            0 < i < down.len() implies is_next(list, down[i], down[i - 1], Toward::Children) by {
            let j = line.len() - i;
            assert(down[i] == line[j - 1]);
            assert(down[i - 1] == line[j]);
        }
        assert(list.contains(line[line.len() - 1]));
        assert(from.contains(down[0]));
        assert(is_chain(list, down, Toward::Children));
        assert(down.last() == p);
        assert(is_reached(list, from, Toward::Children, steps, p));
    }
}

/// What stands among the children of a process.
proof fn lemma_children(list: Seq<ProcessModel>, c: ProcessModel, p: ProcessModel)
    ensures
        nexts(list, c, Toward::Children).contains(p) <==> list.contains(p) && is_child_of(list, p, c),
{
    let f = |x: ProcessModel| is_next(list, x, c, Toward::Children);
    let kids = nexts(list, c, Toward::Children);
    if kids.contains(p) {
        let k = choose|k: int| 0 <= k < kids.len() && kids[k] == p;
        list.lemma_filter_contains_rev(f, p);
        broadcast use Seq::lemma_filter_pred;

        assert(f(list.filter(f)[k]));
    }
    if list.contains(p) && is_child_of(list, p, c) {
        let m = choose|m: int| 0 <= m < list.len() && list[m] == p;
        list.lemma_filter_contains(f, m);
    }
}

/// Recycled pids are kept apart: where a recorded incarnation of the parent's
/// pid lived when a process was born, the process is a child of those that
/// did, and of no other.
pub proof fn a_child_belongs_to_the_parent_that_lived(
    list: Seq<ProcessModel>,
    c: ProcessModel,
    p: ProcessModel,
)
    requires
        list.contains(p),
        someone_lived_at(list, c.pid, p.start_ts),
    ensures
        nexts(list, c, Toward::Children).contains(p) <==> is_parent_of(c, p),
{
    lemma_children(list, c, p);
}

/// No child is lost: a recorded process is a child of some recorded
/// incarnation of the pid that it names as its parent, if there is one, also
/// where it was born before that was noticed.
pub proof fn a_child_is_never_lost(list: Seq<ProcessModel>, c: ProcessModel, p: ProcessModel)
    requires
        list.contains(p),
        list.contains(c),
        p.ppid == Some(c.pid),
    ensures
        !someone_lived_at(list, c.pid, p.start_ts) ==> nexts(list, c, Toward::Children).contains(p),
        exists|d: ProcessModel|
            list.contains(d) && d.pid == c.pid && #[trigger] nexts(
                list,
                d,
                Toward::Children,
            ).contains(p),
{
    lemma_children(list, c, p);
    if someone_lived_at(list, c.pid, p.start_ts) {
        let i = choose|i: int|
            0 <= i < list.len() && (#[trigger] list[i]).pid == c.pid && lived_at(list[i], p.start_ts);
        lemma_children(list, list[i], p);
        assert(list.contains(list[i]));
        assert(nexts(list, list[i], Toward::Children).contains(p));
    }
}

/// A process that was born after another had exited is no child of it, also
/// where it names that pid as its parent, once the pid is known to have been
/// recycled: where a recorded incarnation of it lived at that birth.
pub proof fn the_dead_have_no_children(list: Seq<ProcessModel>, c: ProcessModel, p: ProcessModel)
    requires
        c.exit_ts is Some,
        lex_lt(c.exit_ts->0, p.start_ts),
        someone_lived_at(list, c.pid, p.start_ts),
    ensures
        !nexts(list, c, Toward::Children).contains(p),
{
    lex_total(c.exit_ts->0, p.start_ts);
    lemma_children(list, c, p);
}

/// Two recorded processes of the same key are one.
proof fn lemma_same_key(list: Seq<ProcessModel>, p: ProcessModel, q: ProcessModel)
    requires
        has_unique_keys(list),
        list.contains(p),
        list.contains(q),
        is_incarnation(p, q.pid, q.start_ts),
    ensures
        p == q,
{
    let i = choose|i: int| 0 <= i < list.len() && list[i] == p;
    let j = choose|j: int| 0 <= j < list.len() && list[j] == q;
    if i < j {
        assert(!is_incarnation(list[i], list[j].pid, list[j].start_ts));
    } else if j < i {
        assert(!is_incarnation(list[j], list[i].pid, list[i].start_ts));
    }
}

/// Is `x` the stored event `e` with its writer, and did a process of `tree`
/// write `e`?
pub open spec fn is_write_of(
    g: GraphModel,
    tree: Seq<ProcessModel>,
    e: EventModel,
    x: FileEventModel,
) -> bool {
    &&& g.events.contains(e)
    &&& x == attributed(g.processes, e)
    &&& exists|i: int| 0 <= i < tree.len() && wrote(g.processes, #[trigger] tree[i], e)
}

/// The manifest of a command holds what its process tree wrote, and nothing
/// else.
pub proof fn a_manifest_is_scoped_by_the_tree(
    g: GraphModel,
    pid: i32,
    start_ts: Seq<char>,
    x: FileEventModel,
)
    ensures
        manifest(g, pid, start_ts).contains(x) <==> exists|e: EventModel|
            is_write_of(g, process_tree(g.processes, pid, start_ts), e, x),
{
    let tree = process_tree(g.processes, pid, start_ts);
    let out = writes_of(g.processes, tree, g.events);
    lemma_time_order(out);
    lemma_writes_of(g.processes, tree, g.events, x);
    if out.contains(x) {
        let i = choose|i: int|
            0 <= i < g.events.len() && is_written_by(g.processes, tree, #[trigger] g.events[i], x);
        assert(g.events.contains(g.events[i]));
        assert(is_write_of(g, tree, g.events[i], x));
    }
    if exists|e: EventModel| is_write_of(g, tree, e, x) {
        let e = choose|e: EventModel| is_write_of(g, tree, e, x);
        let i = choose|i: int| 0 <= i < g.events.len() && g.events[i] == e;
        assert(is_written_by(g.processes, tree, g.events[i], x));
    }
}

/// Is `x` the stored event `e` with its writer, and did a descendant of the
/// incarnation `(pid, start_ts)`, or that itself, write it?
pub open spec fn is_write_below(
    g: GraphModel,
    pid: i32,
    start_ts: Seq<char>,
    e: EventModel,
    x: FileEventModel,
    w: ProcessModel,
) -> bool {
    &&& g.events.contains(e)
    &&& x == attributed(g.processes, e)
    &&& wrote(g.processes, w, e)
    &&& descends_from(g.processes, w, pid, start_ts)
}

/// The manifest of a command holds the writes of the processes that descend
/// from it, and no write of any other process.
pub proof fn a_manifest_holds_no_other_writes(
    g: GraphModel,
    pid: i32,
    start_ts: Seq<char>,
    x: FileEventModel,
)
    ensures
        manifest(g, pid, start_ts).contains(x) <==> exists|e: EventModel, w: ProcessModel| #[trigger]
            is_write_below(g, pid, start_ts, e, x, w),
{
    let tree = process_tree(g.processes, pid, start_ts);
    a_manifest_is_scoped_by_the_tree(g, pid, start_ts, x);
    if manifest(g, pid, start_ts).contains(x) {
        let e = choose|e: EventModel| is_write_of(g, tree, e, x);
        let i = choose|i: int| 0 <= i < tree.len() && wrote(g.processes, #[trigger] tree[i], e);
        assert(tree.contains(tree[i]));
        a_tree_holds_its_descendants_only(g.processes, pid, start_ts, tree[i]);
        assert(is_write_below(g, pid, start_ts, e, x, tree[i]));
    }
    if exists|e: EventModel, w: ProcessModel| #[trigger] is_write_below(g, pid, start_ts, e, x, w) {
        let (e, w) = choose|e: EventModel, w: ProcessModel| #[trigger]
            is_write_below(g, pid, start_ts, e, x, w);
        a_tree_holds_its_descendants_only(g.processes, pid, start_ts, w);
        let i = choose|i: int| 0 <= i < tree.len() && tree[i] == w;
        assert(wrote(g.processes, tree[i], e));
        assert(is_write_of(g, tree, e, x));
    }
}

/// Is `x` the event `e` with its writer, and is that a process of `tree`?
pub open spec fn is_written_by(
    list: Seq<ProcessModel>,
    tree: Seq<ProcessModel>,
    e: EventModel,
    x: FileEventModel,
) -> bool {
    x == attributed(list, e) && exists|i: int| 0 <= i < tree.len() && wrote(list, #[trigger] tree[i], e)
}

proof fn lemma_writes_of(
    list: Seq<ProcessModel>,
    tree: Seq<ProcessModel>,
    events: Seq<EventModel>,
    x: FileEventModel,
)
    ensures
        writes_of(list, tree, events).contains(x) <==> exists|i: int|
            0 <= i < events.len() && is_written_by(list, tree, #[trigger] events[i], x),
    decreases events.len(),
{
    let out = writes_of(list, tree, events);
    if events.len() > 0 {
        let front = events.drop_last();
        let e = events.last();
        let n = front.len() as int;
        let did = |t: ProcessModel| wrote(list, t, e);
        let a = writes_of(list, tree, front);
        let kept = tree.filter(did);
        let b = kept.map_values(|t: ProcessModel| attributed(list, e));
        lemma_writes_of(list, tree, front, x);
        assert(out =~= a + b);
        if out.contains(x) {
            let k = choose|k: int| 0 <= k < out.len() && out[k] == x;
            if k < a.len() {
                assert(a[k] == x);
                assert(a.contains(x));
                let i = choose|i: int|
                    0 <= i < front.len() && is_written_by(list, tree, #[trigger] front[i], x);
                assert(events[i] == front[i]);
            } else {
                let t = kept[k - a.len()];
                assert(b[k - a.len()] == x);
                assert(kept.contains(t));
                tree.lemma_filter_contains_rev(did, t);
                broadcast use Seq::lemma_filter_pred;

                assert(did(t));
                let i = choose|i: int| 0 <= i < tree.len() && tree[i] == t;
                assert(wrote(list, tree[i], e));
                assert(events[n] == e);
                assert(is_written_by(list, tree, events[n], x));
            }
        }
        if exists|i: int| 0 <= i < events.len() && is_written_by(list, tree, #[trigger] events[i], x) {
            let i = choose|i: int|
                0 <= i < events.len() && is_written_by(list, tree, #[trigger] events[i], x);
            if i < n {
                assert(front[i] == events[i]);
                let k = choose|k: int| 0 <= k < a.len() && a[k] == x;
                assert(out[k] == x);
            } else {
                let m = choose|m: int| 0 <= m < tree.len() && wrote(list, #[trigger] tree[m], e);
                tree.lemma_filter_contains(did, m);
                let k = choose|k: int| 0 <= k < kept.len() && kept[k] == tree[m];
                assert(b[k] == x);
                assert(out[a.len() + k] == x);
            }
        }
    }
}

// ---------------------------------------------------------------------
// Pruning
// ---------------------------------------------------------------------
/// A prune keeps every process that could have written a retained event.
pub proof fn a_prune_keeps_what_retained_events_need(
    g: GraphModel,
    before_ts: Seq<char>,
    e: EventModel,
    p: ProcessModel,
)
    requires
        g.events.contains(e),
        !is_old(e, before_ts),
        g.processes.contains(p),
        p.pid == e.pid,
    ensures
        pruned(g, before_ts).processes.contains(p),
        pruned(g, before_ts).events.contains(e),
{
    let keep = |q: ProcessModel| !is_spent(q, g.events, before_ts);
    let keep_event = |x: EventModel| !is_old(x, before_ts);
    let k = choose|k: int| 0 <= k < g.events.len() && g.events[k] == e;
    let m = choose|m: int| 0 <= m < g.processes.len() && g.processes[m] == p;
    lex_total(e.ts, before_ts);
    assert(g.events[k].pid == p.pid && lex_le(before_ts, g.events[k].ts));
    assert(is_pinned(g.events, p.pid, before_ts));
    g.processes.lemma_filter_contains(keep, m);
    g.events.lemma_filter_contains(keep_event, k);
}

/// Every process that a prune drops had exited before the cutoff, and every
/// event that it drops is older.
pub proof fn a_prune_drops_only_the_past(
    g: GraphModel,
    before_ts: Seq<char>,
    p: ProcessModel,
    e: EventModel,
)
    requires
        g.processes.contains(p),
        g.events.contains(e),
    ensures
        !pruned(g, before_ts).processes.contains(p) ==> p.exit_ts is Some && lex_lt(
            p.exit_ts->0,
            before_ts,
        ),
        !pruned(g, before_ts).events.contains(e) ==> lex_lt(e.ts, before_ts),
{
    let keep = |q: ProcessModel| !is_spent(q, g.events, before_ts);
    let keep_event = |x: EventModel| !is_old(x, before_ts);
    let k = choose|k: int| 0 <= k < g.events.len() && g.events[k] == e;
    let m = choose|m: int| 0 <= m < g.processes.len() && g.processes[m] == p;
    if keep(p) {
        g.processes.lemma_filter_contains(keep, m);
    }
    if keep_event(e) {
        g.events.lemma_filter_contains(keep_event, k);
    }
}

/// A prune changes the writer of no retained event.
pub proof fn a_prune_keeps_attribution(g: GraphModel, before_ts: Seq<char>, e: EventModel)
    requires
        g.events.contains(e),
        !is_old(e, before_ts),
    ensures
        attributed(pruned(g, before_ts).processes, e) == attributed(g.processes, e),
{
    let keep = |q: ProcessModel| !is_spent(q, g.events, before_ts);
    let k = choose|k: int| 0 <= k < g.events.len() && g.events[k] == e;
    lex_total(e.ts, before_ts);
    assert(g.events[k].pid == e.pid && lex_le(before_ts, g.events[k].ts));
    assert(is_pinned(g.events, e.pid, before_ts));
    lemma_filter_keeps_lookups(g.processes, keep, e.pid, WhichModel::During(e.ts), Seq::empty());
    match resolved_start(g.processes, e) {
        Some(start) => {
            lemma_filter_keeps_lookups(g.processes, keep, e.pid, WhichModel::Any, start);
        },
        None => {},
    }
}

/// Lookups of a pid see only the rows of that pid.
proof fn lemma_filter_keeps_lookups(
    list: Seq<ProcessModel>,
    keep: spec_fn(ProcessModel) -> bool,
    pid: i32,
    which: WhichModel,
    start_ts: Seq<char>,
)
    requires
        forall|p: ProcessModel| p.pid == pid ==> #[trigger] keep(p),
    ensures
        latest_start(list.filter(keep), pid, which) == latest_start(list, pid, which),
        row_at(list.filter(keep), pid, start_ts) == row_at(list, pid, start_ts),
    decreases list.len(),
{
    reveal(Seq::filter);
    if list.len() > 0 {
        let front = list.drop_last();
        lemma_filter_keeps_lookups(front, keep, pid, which, start_ts);
        if keep(list.last()) {
            let kept = front.filter(keep).push(list.last());
            assert(kept.drop_last() =~= front.filter(keep));
        }
    }
}

/// The history of a path after a prune is its retained part, unchanged.
pub proof fn a_prune_keeps_the_retained_history(
    g: GraphModel,
    before_ts: Seq<char>,
    path: Seq<char>,
    x: FileEventModel,
)
    ensures
        history(pruned(g, before_ts), path).contains(x) <==> history(g, path).contains(x)
            && !lex_lt(x.ts, before_ts),
{
    let after = pruned(g, before_ts);
    let keep_event = |e: EventModel| !is_old(e, before_ts);
    a_history_is_complete(g, path, x);
    a_history_is_complete(after, path, x);
    if exists|e: EventModel| is_entry(after, path, e, x) {
        let e = choose|e: EventModel| is_entry(after, path, e, x);
        g.events.lemma_filter_contains_rev(keep_event, e);
        let k = choose|k: int| 0 <= k < after.events.len() && after.events[k] == e;
        broadcast use Seq::lemma_filter_pred;

        assert(keep_event(after.events[k]));
        a_prune_keeps_attribution(g, before_ts, e);
        assert(is_entry(g, path, e, x));
    }
    if !lex_lt(x.ts, before_ts) && exists|e: EventModel| is_entry(g, path, e, x) {
        let e = choose|e: EventModel| is_entry(g, path, e, x);
        let k = choose|k: int| 0 <= k < g.events.len() && g.events[k] == e;
        g.events.lemma_filter_contains(keep_event, k);
        a_prune_keeps_attribution(g, before_ts, e);
        assert(is_entry(after, path, e, x));
    }
}

// ---------------------------------------------------------------------
// Locality
// ---------------------------------------------------------------------
/// The part of a graph that is about some pids, without its events.
pub open spec fn part_of(g: GraphModel, pids: Set<i32>) -> GraphModel {
    GraphModel {
        processes: g.processes.filter(|p: ProcessModel| pids.contains(p.pid)),
        events: Seq::empty(),
    }
}

/// An update of rows that keeps their pids goes with leaving rows out.
proof fn lemma_map_then_filter(
    list: Seq<ProcessModel>,
    f: spec_fn(ProcessModel) -> ProcessModel,
    pids: Set<i32>,
)
    requires
        forall|p: ProcessModel| (#[trigger] f(p)).pid == p.pid,
    ensures
        list.map_values(f).filter(|p: ProcessModel| pids.contains(p.pid)) == list.filter(
            |p: ProcessModel| pids.contains(p.pid),
        ).map_values(f),
    decreases list.len(),
{
    reveal(Seq::filter);
    let keep = |p: ProcessModel| pids.contains(p.pid);
    if list.len() > 0 {
        let front = list.drop_last();
        lemma_map_then_filter(front, f, pids);
        assert(list.map_values(f).drop_last() =~= front.map_values(f));
        assert(list.map_values(f).last() == f(list.last()));
        assert(f(list.last()).pid == list.last().pid);
        if keep(list.last()) {
            assert(front.filter(keep).push(list.last()).map_values(f) =~= front.filter(
                keep,
            ).map_values(f).push(f(list.last())));
        }
    } else {
        assert(list.map_values(f).filter(keep) =~= list.filter(keep).map_values(f));
    }
}

/// Leaving out rows of other pids changes neither whether an incarnation is
/// recorded nor whether one is alive.
proof fn lemma_filter_keeps_pid(
    list: Seq<ProcessModel>,
    pids: Set<i32>,
    pid: i32,
    start_ts: Seq<char>,
)
    requires
        pids.contains(pid),
    ensures
        is_recorded(list.filter(|p: ProcessModel| pids.contains(p.pid)), pid, start_ts)
            == is_recorded(list, pid, start_ts),
        has_live(list.filter(|p: ProcessModel| pids.contains(p.pid)), pid) == has_live(list, pid),
{
    let keep = |p: ProcessModel| pids.contains(p.pid);
    let part = list.filter(keep);
    if is_recorded(list, pid, start_ts) {
        let i = choose|i: int|
            0 <= i < list.len() && is_incarnation(#[trigger] list[i], pid, start_ts);
        list.lemma_filter_contains(keep, i);
        let k = choose|k: int| 0 <= k < part.len() && part[k] == list[i];
        assert(is_incarnation(part[k], pid, start_ts));
    }
    if is_recorded(part, pid, start_ts) {
        let k = choose|k: int|
            0 <= k < part.len() && is_incarnation(#[trigger] part[k], pid, start_ts);
        assert(part.contains(part[k]));
        list.lemma_filter_contains_rev(keep, part[k]);
        let i = choose|i: int| 0 <= i < list.len() && list[i] == part[k];
        assert(is_incarnation(list[i], pid, start_ts));
    }
    if has_live(list, pid) {
        let i = choose|i: int| 0 <= i < list.len() && is_live(#[trigger] list[i], pid);
        list.lemma_filter_contains(keep, i);
        let k = choose|k: int| 0 <= k < part.len() && part[k] == list[i];
        assert(is_live(part[k], pid));
    }
    if has_live(part, pid) {
        let k = choose|k: int| 0 <= k < part.len() && is_live(#[trigger] part[k], pid);
        assert(part.contains(part[k]));
        list.lemma_filter_contains_rev(keep, part[k]);
        let i = choose|i: int| 0 <= i < list.len() && list[i] == part[k];
        assert(is_live(list[i], pid));
    }
}

proof fn lemma_insert_is_local(list: Seq<ProcessModel>, row: ProcessModel, pids: Set<i32>)
    ensures
        pids.contains(row.pid) ==> inserted(list, row).filter(
            |p: ProcessModel| pids.contains(p.pid),
        ) == inserted(list.filter(|p: ProcessModel| pids.contains(p.pid)), row),
        !pids.contains(row.pid) ==> inserted(list, row).filter(
            |p: ProcessModel| pids.contains(p.pid),
        ) == list.filter(|p: ProcessModel| pids.contains(p.pid)),
{
    reveal(Seq::filter);
    let keep = |p: ProcessModel| pids.contains(p.pid);
    if pids.contains(row.pid) {
        lemma_filter_keeps_pid(list, pids, row.pid, row.start_ts);
    }
    assert(list.push(row).drop_last() =~= list);
}

/// Recording needs only the rows of the pid that it is about: recording into
/// the part of a graph that is about some pids gives that part of the whole
/// graph after recording, and rows of other pids stay as they are.
pub proof fn recording_is_local(
    g: GraphModel,
    pids: Set<i32>,
    pid: i32,
    ppid: i32,
    id: IdentityModel,
    start_ts: Seq<char>,
    ts: Seq<char>,
)
    ensures
        pids.contains(pid) ==> part_of(forked(g, ppid, pid, ts), pids) == forked(
            part_of(g, pids),
            ppid,
            pid,
            ts,
        ),
        pids.contains(pid) ==> part_of(execed(g, pid, id, ts), pids) == execed(
            part_of(g, pids),
            pid,
            id,
            ts,
        ),
        pids.contains(pid) ==> part_of(exited(g, pid, ts), pids) == exited(
            part_of(g, pids),
            pid,
            ts,
        ),
        pids.contains(pid) ==> part_of(closed_out(g, pid, start_ts, ts), pids) == closed_out(
            part_of(g, pids),
            pid,
            start_ts,
            ts,
        ),
        pids.contains(pid) ==> bound_start(part_of(g, pids).processes, pid, ts) == bound_start(
            g.processes,
            pid,
            ts,
        ),
        !pids.contains(pid) ==> {
            &&& part_of(forked(g, ppid, pid, ts), pids) == part_of(g, pids)
            &&& part_of(execed(g, pid, id, ts), pids) == part_of(g, pids)
            &&& part_of(exited(g, pid, ts), pids) == part_of(g, pids)
            &&& part_of(closed_out(g, pid, start_ts, ts), pids) == part_of(g, pids)
        },
{
    let list = g.processes;
    let keep = |p: ProcessModel| pids.contains(p.pid);
    let part = list.filter(keep);
    let exec = |p: ProcessModel| execed_row(p, pid, id);
    let exit = |p: ProcessModel| crate::graph::exited_row(p, pid, ts);
    let close = |p: ProcessModel| crate::graph::closed_row(p, pid, start_ts, ts);
    lemma_insert_is_local(list, forked_row(ppid, pid, ts), pids);
    lemma_insert_is_local(list, identified_row(pid, None, id, ts), pids);
    lemma_map_then_filter(list, exec, pids);
    lemma_map_then_filter(list, exit, pids);
    lemma_map_then_filter(list, close, pids);
    if pids.contains(pid) {
        lemma_filter_keeps_pid(list, pids, pid, ts);
        lemma_filter_keeps_lookups(list, keep, pid, WhichModel::During(ts), ts);
        lemma_filter_keeps_lookups(list, keep, pid, WhichModel::StartedBy(ts), ts);
    } else {
        broadcast use Seq::lemma_filter_pred;

        assert forall|i: int| 0 <= i < part.len() implies (#[trigger] part[i]).pid != pid by {
            assert(keep(part[i]));
        }
        assert(part.map_values(exec) =~= part);
        assert(part.map_values(exit) =~= part);
        assert(part.map_values(close) =~= part);
    }
}

} // verus!
