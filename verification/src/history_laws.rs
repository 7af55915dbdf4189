//! What holds of the events of a history or a manifest, told in terms of what
//! was recorded.
use crate::graph::{
    has_unique_keys, is_incarnation, lived_at, written, EventModel, FileEventModel, GraphModel,
    ProcessModel,
};
use crate::graph_laws::{a_history_is_complete, a_manifest_is_scoped_by_the_tree, is_entry, is_write_of};
use crate::history::{attributed, events_of_path, history, in_time_order, is_about, row_at, times};
use crate::lineage::{
    ancestors, is_next, is_parent_of, lineage_rows, manifest, next_level, nexts, origin,
    process_tree, walk, writes_of, wrote, Toward,
};
use crate::order::{arranged, is_text_order, text_order_exists, text_order_is_unique};
use crate::text::{lex_le, lex_lt, lex_total};
use vstd::prelude::*;

verus! {

/// Is the process the one that the event names as its writer?
pub open spec fn is_named_writer(p: ProcessModel, x: FileEventModel) -> bool {
    p.pid == x.pid && x.proc_start == Some(p.start_ts)
}

/// Is the writer shown as it is recorded: with its name, its program and its
/// command line, and with nothing where no such process is recorded?
pub open spec fn shows_its_writer(list: Seq<ProcessModel>, x: FileEventModel) -> bool {
    &&& forall|i: int|
        0 <= i < list.len() && is_named_writer(#[trigger] list[i], x) ==> x.comm == list[i].comm
            && x.exe == list[i].exe && x.cmdline == list[i].cmdline
    &&& (forall|i: int| 0 <= i < list.len() ==> !is_named_writer(#[trigger] list[i], x))
        ==> x.comm.len() == 0 && x.exe.len() == 0 && x.cmdline.len() == 0
}

/// Does `x` tell what was stored as `e`: when, what, to which path and by
/// which pid? A writer that was bound when the event was stored stays bound.
pub open spec fn tells(x: FileEventModel, e: EventModel) -> bool {
    &&& x.ts == e.ts
    &&& x.path == e.path
    &&& x.op == e.op
    &&& x.pid == e.pid
    &&& e.proc_start is Some ==> x.proc_start == e.proc_start
    &&& x.other_path is None
}

/// The row of an incarnation is a recorded process of that key.
proof fn lemma_row(list: Seq<ProcessModel>, pid: i32, start: Seq<char>)
    ensures
        match row_at(list, pid, start) {
            Some(p) => list.contains(p) && p.pid == pid && p.start_ts == start,
            None => forall|i: int|
                0 <= i < list.len() ==> !((#[trigger] list[i]).pid == pid && list[i].start_ts == start),
        },
    decreases list.len(),
{
    if list.len() > 0 {
        let front = list.drop_last();
        lemma_row(front, pid, start);
        assert(list[list.len() - 1] == list.last());
        if !is_incarnation(list.last(), pid, start) {
            match row_at(front, pid, start) {
                Some(p) => {
                    let k = choose|k: int| 0 <= k < front.len() && front[k] == p;
                    assert(list[k] == p);
                },
                None => {
                    assert forall|i: int| 0 <= i < list.len() implies !((#[trigger] list[i]).pid
                        == pid && list[i].start_ts == start) by {
                        if i < front.len() {
                            assert(front[i] == list[i]);
                        }
                    }
                },
            }
        }
    }
}

/// An event with its writer shows the writer.
proof fn lemma_attributed(list: Seq<ProcessModel>, e: EventModel)
    requires
        has_unique_keys(list),
    ensures
        shows_its_writer(list, attributed(list, e)),
        tells(attributed(list, e), e),
{
    let x = attributed(list, e);
    reveal_strlit("");
    match x.proc_start {
        Some(start) => {
            lemma_row(list, e.pid, start);
            match row_at(list, e.pid, start) {
                Some(p) => {
                    let k = choose|k: int| 0 <= k < list.len() && list[k] == p;
                    assert(is_named_writer(list[k], x));
                    assert forall|i: int|
                        0 <= i < list.len() && is_named_writer(#[trigger] list[i], x) implies x.comm
                        == list[i].comm && x.exe == list[i].exe && x.cmdline == list[i].cmdline by {
                        if i < k {
                            assert(!is_incarnation(list[i], list[k].pid, list[k].start_ts));
                        } else if k < i {
                            assert(!is_incarnation(list[k], list[i].pid, list[i].start_ts));
                        }
                    }
                },
                None => {},
            }
        },
        None => {},
    }
}

/// Each event of a history tells a stored event about the path, and shows its
/// writer as that is recorded.
pub proof fn a_history_shows_its_writers(g: GraphModel, path: Seq<char>, x: FileEventModel)
    requires
        has_unique_keys(g.processes),
        history(g, path).contains(x),
    ensures
        shows_its_writer(g.processes, x),
        x.path == path,
        exists|k: int| 0 <= k < g.events.len() && tells(x, #[trigger] g.events[k]),
{
    a_history_is_complete(g, path, x);
    let e = choose|e: EventModel| is_entry(g, path, e, x);
    lemma_attributed(g.processes, e);
    let k = choose|k: int| 0 <= k < g.events.len() && g.events[k] == e;
    assert(tells(x, g.events[k]));
}

/// Each event of a manifest tells a stored event, and shows its writer as that
/// is recorded.
pub proof fn a_manifest_shows_its_writers(
    g: GraphModel,
    pid: i32,
    start_ts: Seq<char>,
    x: FileEventModel,
)
    requires
        has_unique_keys(g.processes),
        manifest(g, pid, start_ts).contains(x),
    ensures
        shows_its_writer(g.processes, x),
        exists|k: int| 0 <= k < g.events.len() && tells(x, #[trigger] g.events[k]),
{
    a_manifest_is_scoped_by_the_tree(g, pid, start_ts, x);
    let tree = process_tree(g.processes, pid, start_ts);
    let e = choose|e: EventModel| is_write_of(g, tree, e, x);
    lemma_attributed(g.processes, e);
    let k = choose|k: int| 0 <= k < g.events.len() && g.events[k] == e;
    assert(tells(x, g.events[k]));
}

/// No stored event about the path is missing from its history, and none is
/// there twice: there are as many as were stored.
pub proof fn a_history_misses_nothing(g: GraphModel, path: Seq<char>, k: int)
    requires
        has_unique_keys(g.processes),
        0 <= k < g.events.len(),
        g.events[k].path == path,
    ensures
        exists|i: int| 0 <= i < history(g, path).len() && tells(#[trigger] history(g, path)[i], g.events[k]),
        history(g, path).len() == g.events.filter(|e: EventModel| e.path == path).len(),
{
    let e = g.events[k];
    let x = attributed(g.processes, e);
    assert(is_about(e, path));
    assert(g.events.contains(e));
    assert(is_entry(g, path, e, x));
    a_history_is_complete(g, path, x);
    lemma_attributed(g.processes, e);
    let i = choose|i: int| 0 <= i < history(g, path).len() && history(g, path)[i] == x;
    assert(tells(history(g, path)[i], e));
    let list = events_of_path(g, path);
    text_order_exists(times(list));
    let f = |e: EventModel| is_about(e, path);
    let h = |e: EventModel| e.path == path;
    lemma_same_filter(g.events, f, h);
}

proof fn lemma_same_filter(
    list: Seq<EventModel>,
    f: spec_fn(EventModel) -> bool,
    h: spec_fn(EventModel) -> bool,
)
    requires
        forall|e: EventModel| #[trigger] f(e) == h(e),
    ensures
        list.filter(f) == list.filter(h),
    decreases list.len(),
{
    reveal(Seq::filter);
    if list.len() > 0 {
        lemma_same_filter(list.drop_last(), f, h);
        assert(f(list.last()) == h(list.last()));
    }
}

/// An item that no other is later than is the last in time order.
proof fn lemma_last_in_order(list: Seq<FileEventModel>, x: FileEventModel)
    requires
        forall|i: int| 0 <= i < list.len() ==> lex_le((#[trigger] list[i]).ts, x.ts),
    ensures
        in_time_order(list.push(x)) == in_time_order(list).push(x),
{
    let more = list.push(x);
    let n = list.len() as int;
    text_order_exists(times(list));
    text_order_exists(times(more));
    let p = choose|p: Seq<int>| is_text_order(times(list), p);
    let q = choose|q: Seq<int>| is_text_order(times(more), q);
    let r = p.push(n);
    let keys = times(more);
    assert forall|i: int, j: int| 0 <= i < j < r.len() implies crate::order::text_before(
        keys,
        #[trigger] r[i],
        #[trigger] r[j],
    ) by {
        assert(keys[r[i]] == times(list)[p[i]]);
        if j < n {
            assert(keys[r[j]] == times(list)[p[j]]);
            assert(crate::order::text_before(times(list), p[i], p[j]));
        } else {
            assert(keys[n] == x.ts);
            assert(lex_le(list[p[i]].ts, x.ts));
        }
    }
    assert forall|k: int| 0 <= k < keys.len() implies #[trigger] r.contains(k) by {
        if k < n {
            assert(p.contains(k));
            let i = choose|i: int| 0 <= i < p.len() && p[i] == k;
            assert(r[i] == k);
        } else {
            assert(r[n] == n);
        }
    }
    assert forall|i: int| 0 <= i < r.len() implies 0 <= #[trigger] r[i] < keys.len() by {
        if i < n {
            assert(0 <= p[i] < n);
        }
    }
    assert(is_text_order(keys, r));
    text_order_is_unique(keys, q, r);
    assert(arranged(more, r) =~= arranged(list, p).push(x));
}

/// The latest write is the one that is blamed: where no stored event about the
/// path is later, a write is the last of the history, which is else as it was.
pub proof fn the_latest_write_is_blamed(
    g: GraphModel,
    path: Seq<char>,
    op: Seq<char>,
    pid: i32,
    ts: Seq<char>,
)
    requires
        forall|k: int|
            0 <= k < g.events.len() && (#[trigger] g.events[k]).path == path ==> lex_le(
                g.events[k].ts,
                ts,
            ),
    ensures
        ({
            let after = history(written(g, path, op, pid, ts), path);
            &&& after.len() == history(g, path).len() + 1
            &&& after.drop_last() == history(g, path)
            &&& after.last().ts == ts
            &&& after.last().path == path
            &&& after.last().op == op
            &&& after.last().pid == pid
        }),
{
    let after = written(g, path, op, pid, ts);
    let e = after.events.last();
    let x = attributed(g.processes, e);
    let f = |e: EventModel| is_about(e, path);
    let list = events_of_path(g, path);
    reveal(Seq::filter);
    assert(after.events.drop_last() =~= g.events);
    assert(events_of_path(after, path) =~= list.push(x));
    assert forall|i: int| 0 <= i < list.len() implies lex_le((#[trigger] list[i]).ts, ts) by {
        let kept = g.events.filter(f);
        assert(kept.contains(kept[i]));
        g.events.lemma_filter_contains_rev(f, kept[i]);
        broadcast use Seq::lemma_filter_pred;

        assert(f(kept[i]));
        let k = choose|k: int| 0 <= k < g.events.len() && g.events[k] == kept[i];
        assert(g.events[k].path == path);
    }
    lemma_last_in_order(list, x);
    assert(history(after, path).drop_last() =~= history(g, path));
}

/// A write to one path leaves the history of every other as it is.
pub proof fn a_write_is_about_one_path(
    g: GraphModel,
    path: Seq<char>,
    other: Seq<char>,
    op: Seq<char>,
    pid: i32,
    ts: Seq<char>,
)
    requires
        path != other,
    ensures
        history(written(g, path, op, pid, ts), other) == history(g, other),
{
    let after = written(g, path, op, pid, ts);
    reveal(Seq::filter);
    assert(after.events.drop_last() =~= g.events);
    assert(events_of_path(after, other) =~= events_of_path(g, other));
}

// ---------------------------------------------------------------------
// Rows
// ---------------------------------------------------------------------
/// A lineage shows each process as it is recorded, in the order of the walk.
pub proof fn a_lineage_shows_its_processes(list: Seq<ProcessModel>, i: int)
    requires
        0 <= i < list.len(),
    ensures
        lineage_rows(list).len() == list.len(),
        ({
            let row = lineage_rows(list)[i];
            let p = list[i];
            &&& row.pid == p.pid
            &&& row.start_ts == p.start_ts
            &&& row.ppid == p.ppid
            &&& row.comm == p.comm
            &&& row.exe == p.exe
            &&& row.cmdline == p.cmdline
        }),
{
}

/// A lifetime begins with the start and ends with the exit, both included; a
/// process that has not exited lives on.
pub proof fn a_lifetime_includes_its_ends(p: ProcessModel, ts: Seq<char>)
    ensures
        lex_lt(ts, p.start_ts) ==> !lived_at(p, ts),
        p.exit_ts is None && !lex_lt(ts, p.start_ts) ==> lived_at(p, ts),
        p.exit_ts matches Some(exit) ==> {
            &&& lex_lt(exit, ts) ==> !lived_at(p, ts)
            &&& !lex_lt(ts, p.start_ts) && !lex_lt(exit, ts) ==> lived_at(p, ts)
        },
{
    lex_total(ts, p.start_ts);
    match p.exit_ts {
        Some(exit) => {
            lex_total(exit, ts);
        },
        None => {},
    }
}

/// A parent is known by the pid that its child names, and by having lived when
/// that was born.
pub proof fn a_parent_lived_at_the_birth(p: ProcessModel, c: ProcessModel)
    ensures
        is_parent_of(p, c) ==> c.ppid == Some(p.pid) && !lex_lt(c.start_ts, p.start_ts),
        is_parent_of(p, c) && p.exit_ts is Some ==> !lex_lt(p.exit_ts->0, c.start_ts),
        c.ppid == Some(p.pid) && p.start_ts == c.start_ts && p.exit_ts is None ==> is_parent_of(p, c),
        c.ppid == Some(p.pid) && !lex_lt(c.start_ts, p.start_ts) && p.exit_ts is None
            ==> is_parent_of(p, c),
{
    a_lifetime_includes_its_ends(p, c.start_ts);
}

// ---------------------------------------------------------------------
// Walks
// ---------------------------------------------------------------------
/// What a level leads to is next to something in it.
proof fn lemma_next_of_level(list: Seq<ProcessModel>, level: Seq<ProcessModel>, toward: Toward, k: int)
    requires
        0 <= k < next_level(list, level, toward).len(),
    ensures
        exists|j: int|
            0 <= j < level.len() && is_next(
                list,
                next_level(list, level, toward)[k],
                #[trigger] level[j],
                toward,
            ),
    decreases level.len(),
{
    let front = level.drop_last();
    let c = level.last();
    let a = next_level(list, front, toward);
    let x = next_level(list, level, toward)[k];
    if k < a.len() {
        lemma_next_of_level(list, front, toward, k);
        assert(a[k] == x);
        let j = choose|j: int| 0 <= j < front.len() && is_next(list, a[k], #[trigger] front[j], toward);
        assert(is_next(list, x, level[j], toward));
    } else {
        let f = |p: ProcessModel| is_next(list, p, c, toward);
        let b = nexts(list, c, toward);
        assert(x == b[k - a.len()]);
        broadcast use Seq::lemma_filter_pred;

        assert(f(list.filter(f)[k - a.len()]));
        assert(is_next(list, x, level[level.len() - 1], toward));
    }
}

/// A walk begins with the level that it starts from, and whatever comes behind
/// that is next to something that comes before it: nothing is reached before
/// what leads to it.
pub proof fn a_walk_goes_step_by_step(
    list: Seq<ProcessModel>,
    level: Seq<ProcessModel>,
    toward: Toward,
    steps: nat,
    k: int,
)
    requires
        0 <= k < walk(list, level, toward, steps).len(),
    ensures
        k < level.len() ==> walk(list, level, toward, steps)[k] == level[k],
        k >= level.len() ==> exists|j: int|
            0 <= j < k && is_next(
                list,
                walk(list, level, toward, steps)[k],
                #[trigger] walk(list, level, toward, steps)[j],
                toward,
            ),
    decreases steps,
{
    let all = walk(list, level, toward, steps);
    if k >= level.len() {
        let n = level.len() as int;
        let next = next_level(list, level, toward);
        let rest = walk(list, next, toward, (steps - 1) as nat);
        a_walk_goes_step_by_step(list, next, toward, (steps - 1) as nat, k - n);
        assert(all[k] == rest[k - n]);
        if k - n < next.len() {
            lemma_next_of_level(list, level, toward, k - n);
            let j = choose|j: int|
                0 <= j < level.len() && is_next(list, next[k - n], #[trigger] level[j], toward);
            assert(all[j] == level[j]);
            assert(is_next(list, all[k], all[j], toward));
        } else {
            let j = choose|j: int|
                0 <= j < k - n && is_next(list, rest[k - n], #[trigger] rest[j], toward);
            assert(all[j + n] == rest[j]);
            assert(is_next(list, all[k], all[j + n], toward));
        }
    }
}

/// An ancestry follows up to sixty-four edges, a tree up to two hundred and
/// fifty-six.
pub proof fn walks_have_their_bounds(list: Seq<ProcessModel>, pid: i32, start_ts: Seq<char>)
    ensures
        ancestors(list, pid, start_ts) == walk(
            list,
            origin(list, pid, start_ts),
            Toward::Parents,
            64,
        ),
        process_tree(list, pid, start_ts) == walk(
            list,
            origin(list, pid, start_ts),
            Toward::Children,
            256,
        ),
{
}

/// A manifest has its events in time order, each as the history of its path
/// has it.
pub proof fn a_manifest_is_in_time_order(g: GraphModel, pid: i32, start_ts: Seq<char>, i: int, j: int)
    requires
        0 <= i < j < manifest(g, pid, start_ts).len(),
    ensures
        lex_le(manifest(g, pid, start_ts)[i].ts, manifest(g, pid, start_ts)[j].ts),
        history(g, manifest(g, pid, start_ts)[i].path).contains(manifest(g, pid, start_ts)[i]),
{
    let tree = process_tree(g.processes, pid, start_ts);
    let list = writes_of(g.processes, tree, g.events);
    text_order_exists(times(list));
    let p = choose|p: Seq<int>| is_text_order(times(list), p);
    assert(crate::order::text_before(times(list), p[i], p[j]));
    let x = manifest(g, pid, start_ts)[i];
    assert(manifest(g, pid, start_ts).contains(x));
    a_manifest_is_scoped_by_the_tree(g, pid, start_ts, x);
    let e = choose|e: EventModel| is_write_of(g, tree, e, x);
    assert(is_entry(g, x.path, e, x));
    a_history_is_complete(g, x.path, x);
}

/// Events of one time stay in the order in which they were recorded: where a
/// stored event comes before another about the same path at the same time, it
/// comes before it in the history.
pub proof fn events_of_one_time_keep_their_order(g: GraphModel, path: Seq<char>, i: int, j: int)
    requires
        0 <= i < j < events_of_path(g, path).len(),
        events_of_path(g, path)[i].ts == events_of_path(g, path)[j].ts,
    ensures
        exists|a: int, b: int|
            #![trigger history(g, path)[a], history(g, path)[b]]
            0 <= a < b < history(g, path).len() && history(g, path)[a] == events_of_path(g, path)[i]
                && history(g, path)[b] == events_of_path(g, path)[j],
{
    let list = events_of_path(g, path);
    let keys = times(list);
    text_order_exists(keys);
    let p = choose|p: Seq<int>| is_text_order(keys, p);
    assert(p.contains(i) && p.contains(j));
    let a = choose|a: int| 0 <= a < p.len() && p[a] == i;
    let b = choose|b: int| 0 <= b < p.len() && p[b] == j;
    lex_total(keys[i], keys[j]);
    if b < a {
        assert(crate::order::text_before(keys, p[b], p[a]));
    }
    assert(history(g, path)[a] == list[i] && history(g, path)[b] == list[j]);
}

/// A manifest holds a stored event exactly if the event's writer is a process
/// of the tree: that very incarnation, and not another one of the same pid.
pub proof fn a_manifest_holds_what_its_processes_wrote(
    g: GraphModel,
    pid: i32,
    start_ts: Seq<char>,
    k: int,
)
    requires
        0 <= k < g.events.len(),
    ensures
        ({
            let x = attributed(g.processes, g.events[k]);
            let tree = process_tree(g.processes, pid, start_ts);
            manifest(g, pid, start_ts).contains(x) <==> exists|i: int|
                0 <= i < tree.len() && is_named_writer(#[trigger] tree[i], x)
        }),
{
    let e = g.events[k];
    let x = attributed(g.processes, e);
    let tree = process_tree(g.processes, pid, start_ts);
    a_manifest_is_scoped_by_the_tree(g, pid, start_ts, x);
    if manifest(g, pid, start_ts).contains(x) {
        let f = choose|f: EventModel| is_write_of(g, tree, f, x);
        let i = choose|i: int| 0 <= i < tree.len() && wrote(g.processes, #[trigger] tree[i], f);
        assert(is_named_writer(tree[i], x));
    }
    if exists|i: int| 0 <= i < tree.len() && is_named_writer(#[trigger] tree[i], x) {
        let i = choose|i: int| 0 <= i < tree.len() && is_named_writer(#[trigger] tree[i], x);
        assert(wrote(g.processes, tree[i], e));
        assert(g.events.contains(e));
        assert(is_write_of(g, tree, e, x));
    }
}

} // verus!
