//! What holds of the daemon's readings and of what it keeps of processes.
use crate::audit::line_event;
use crate::daemon::{
    an_observation_reads_back, command_text, entry_of, parent_in, parent_in_line, tree_after_exec,
    with_chain, with_node, without_breaks, without_indent, zero_pieces, EVICT_EVERY, GRACE,
};
use crate::fanotify::{entry_op, write_op, ObservationModel};
use crate::graph::{is_event_time, GraphModel, ProcessModel};
use crate::json::entry_line;
use crate::number::int_text;
use crate::proctree::{
    a_chain_is_root_first, a_short_chain_is_whole, chain_of, is_whole, new_node, unknown_info,
    InfoModel, NodeModel,
};
use crate::recording_laws::{a_process_is_stored_whole, knows};
use crate::text::{lossy_text, starts_with};
use crate::text_laws::{a_number_is_read_back, joining_separates_neighbours};
use vstd::prelude::*;

verus! {

// ---------------------------------------------------------------------
// Command lines
// ---------------------------------------------------------------------
/// Is this an argument: bytes without a zero among them, and not none?
pub open spec fn is_argument(b: Seq<u8>) -> bool {
    b.len() > 0 && forall|i: int| 0 <= i < b.len() ==> (#[trigger] b[i]) != 0
}

/// Bytes without a zero among them are one piece.
proof fn lemma_one_piece(b: Seq<u8>)
    requires
        is_argument(b),
    ensures
        zero_pieces(b) == seq![b],
    decreases b.len(),
{
    let front = b.drop_last();
    assert(b.last() == b[b.len() - 1]);
    if b.len() > 1 {
        assert forall|i: int| 0 <= i < front.len() implies (#[trigger] front[i]) != 0 by {
            assert(front[i] == b[i]);
        }
        lemma_one_piece(front);
        assert(b[b.len() - 2] != 0);
        assert(front.push(b.last()) =~= b);
        assert(zero_pieces(b) =~= seq![b]);
    } else {
        assert(zero_pieces(front) =~= Seq::empty());
        assert(seq![b.last()] =~= b);
        assert(zero_pieces(b) =~= seq![b]);
    }
}

/// A zero byte separates: the pieces on both sides of it are read apart, and
/// no piece is lost.
pub proof fn a_zero_byte_separates(a: Seq<u8>, b: Seq<u8>)
    ensures
        zero_pieces(a.push(0) + b) == zero_pieces(a) + zero_pieces(b),
    decreases b.len(),
{
    let all = a.push(0) + b;
    if b.len() == 0 {
        assert(all =~= a.push(0));
        assert(all.drop_last() =~= a);
        assert(zero_pieces(all) =~= zero_pieces(a) + zero_pieces(b));
    } else {
        let front = b.drop_last();
        assert(all.drop_last() =~= a.push(0) + front);
        a_zero_byte_separates(a, front);
        assert(all.last() == b.last());
        let (x, y) = (zero_pieces(a), zero_pieces(front));
        if b.len() > 1 {
            assert(all[all.len() - 2] == b[b.len() - 2]);
            if b[b.len() - 2] != 0 {
                lemma_has_piece(front);
                assert((x + y).last() == y.last());
                assert((x + y).drop_last() =~= x + y.drop_last());
            }
        } else {
            assert(all[all.len() - 2] == 0);
        }
        assert(zero_pieces(all) =~= x + zero_pieces(b));
    }
}

proof fn lemma_has_piece(b: Seq<u8>)
    requires
        b.len() > 0,
        b.last() != 0,
    ensures
        zero_pieces(b).len() > 0,
{
}

/// A command line is its arguments with a space between neighbours: one
/// argument stands for itself, and a further one is added behind a space.
pub proof fn a_command_line_is_its_arguments(a: Seq<u8>, b: Seq<u8>)
    requires
        is_argument(b),
    ensures
        command_text(Seq::empty()) == Seq::<char>::empty(),
        command_text(b) == lossy_text(b),
        command_text(b.push(0)) == lossy_text(b),
        zero_pieces(a).len() > 0 ==> command_text(a.push(0) + b) == command_text(a) + " "@
            + lossy_text(b),
{
    let f = |p: Seq<u8>| lossy_text(p);
    lemma_one_piece(b);
    a_zero_byte_separates(a, b);
    a_zero_byte_separates(b, Seq::empty());
    assert(b.push(0) + Seq::empty() =~= b.push(0));
    assert(zero_pieces(b) + zero_pieces(Seq::empty()) =~= seq![b]);
    assert(seq![b].map_values(f) =~= seq![lossy_text(b)]);
    assert(Seq::<Seq<u8>>::empty().map_values(f) =~= Seq::empty());
    let (x, y) = (zero_pieces(a).map_values(f), seq![lossy_text(b)]);
    assert((zero_pieces(a) + seq![b]).map_values(f) =~= x + y);
    joining_separates_neighbours(x, y, lossy_text(b), " "@);
}

// ---------------------------------------------------------------------
// Names and parents
// ---------------------------------------------------------------------
/// Only line breaks are taken off, and all of them that stand at the end.
pub proof fn only_breaks_are_taken_off(s: Seq<char>)
    ensures
        without_breaks(s.push('\n')) == without_breaks(s),
        s.len() > 0 && s.last() != '\n' ==> without_breaks(s) == s,
        without_breaks(Seq::empty()) == Seq::<char>::empty(),
{
    assert(s.push('\n').drop_last() =~= s);
}

/// Only tabs and spaces are taken off, and all of them that stand at the
/// beginning.
pub proof fn only_indentation_is_taken_off(s: Seq<char>)
    ensures
        without_indent(seq!['\t'] + s) == without_indent(s),
        without_indent(seq![' '] + s) == without_indent(s),
        s.len() > 0 && s[0] != '\t' && s[0] != ' ' ==> without_indent(s) == s,
{
    assert((seq!['\t'] + s).skip(1) =~= s);
    assert((seq![' '] + s).skip(1) =~= s);
}

/// A status tells the parent in the line that begins with its word; lines that
/// do not begin with it are passed over.
pub proof fn a_status_tells_the_parent(lines: Seq<Seq<char>>, ppid: i32, line: Seq<char>)
    ensures
        parent_in(seq!["PPid:"@ + seq!['\t'] + int_text(ppid as int)] + lines) == Some(ppid),
        !starts_with(line, "PPid:"@) ==> parent_in(seq![line] + lines) == parent_in(lines),
        parent_in(Seq::empty()) is None,
{
    reveal_strlit("PPid:");
    let n = int_text(ppid as int);
    let told = "PPid:"@ + seq!['\t'] + n;
    assert(told.subrange(0, 5) =~= "PPid:"@);
    assert(told.skip(5) =~= seq!['\t'] + n);
    only_indentation_is_taken_off(n);
    a_number_is_read_back(ppid as int);
    assert(n.len() > 0 && n[0] != '\t' && n[0] != ' ') by {
        crate::text_laws::a_number_is_written_in_digits(
            (if ppid < 0 {
                -(ppid as int)
            } else {
                ppid as int
            }) as nat,
        );
        if ppid >= 0 {
            assert(crate::number::is_digit(n[0]));
        }
    }
    let all = seq![told] + lines;
    assert(all[0] == told);
    assert(parent_in_line(told) == Some(ppid));
    let other = seq![line] + lines;
    assert(other[0] == line);
    assert(other.skip(1) =~= lines);
}

// ---------------------------------------------------------------------
// Observations and processes
// ---------------------------------------------------------------------
/// What was observed is what the log tells: the same path, the same operation,
/// the same process, and what that was running.
pub proof fn the_log_tells_what_was_observed(
    o: ObservationModel,
    mask: u64,
    info: InfoModel,
    ts: Seq<char>,
)
    requires
        o.op == entry_op(mask) || o.op == write_op(mask),
        is_event_time(ts),
    ensures
        ({
            let x = line_event(entry_line(entry_of(o, info, ts)));
            &&& x.ts == ts
            &&& x.path == o.path
            &&& x.op == o.op
            &&& x.pid == int_text(o.pid as int)
            &&& x.comm == info.comm
            &&& x.exe == info.exe
            &&& x.cmdline == info.cmdline
        }),
{
    an_observation_reads_back(o, mask, info, ts);
}

/// A process that has just been noticed is alive and not stored, with its
/// parent, its start and its identity as they were noticed; of one that was
/// only seen to be forked no identity is known.
pub proof fn a_process_is_noticed_as_it_is(ppid: Option<i32>, info: InfoModel, ts: Seq<char>)
    ensures
        new_node(ppid, info, ts).ppid == ppid,
        new_node(ppid, info, ts).start_ts == ts,
        new_node(ppid, info, ts).info == info,
        new_node(ppid, info, ts).exited is None,
        !new_node(ppid, info, ts).persisted,
        unknown_info().exe.len() == 0,
        unknown_info().comm.len() == 0,
        unknown_info().cmdline.len() == 0,
{
    reveal_strlit("");
}

/// An exec changes the identity of a known process and nothing else of it, nor
/// anything of another; a process that was not known is noticed by it.
pub proof fn an_exec_changes_the_identity(
    tree: Map<i32, NodeModel>,
    pid: i32,
    other: i32,
    info: InfoModel,
    ppid: Option<i32>,
    ts: Seq<char>,
)
    ensures
        ({
            let after = tree_after_exec(tree, pid, info, ppid, ts);
            &&& after.contains_key(pid)
            &&& after[pid].info == info
            &&& tree.contains_key(pid) ==> {
                &&& after[pid].ppid == tree[pid].ppid
                &&& after[pid].start_ts == tree[pid].start_ts
                &&& after[pid].exited == tree[pid].exited
                &&& after[pid].persisted == tree[pid].persisted
            }
            &&& !tree.contains_key(pid) ==> {
                &&& after[pid].ppid == ppid
                &&& after[pid].start_ts == ts
                &&& after[pid].exited is None
                &&& !after[pid].persisted
            }
            &&& other != pid ==> (after.contains_key(other) <==> tree.contains_key(other))
            &&& other != pid && tree.contains_key(other) ==> after[other] == tree[other]
        }),
{
}

/// A process that has exited is kept for half a minute, and looked for to be
/// forgotten once in a thousand pieces of news.
pub proof fn the_dead_are_kept_for_a_while()
    ensures
        2 * GRACE == 60,
        EVICT_EVERY == 1000,
{
}

/// A chain is cut off at sixty-four processes and not before: a shorter one
/// reaches as far as there is something to store.
pub proof fn a_chain_is_cut_off_late(tree: Map<i32, NodeModel>, pid: i32)
    ensures
        chain_of(tree, pid).len() <= 64,
        chain_of(tree, pid).len() < 64 ==> is_whole(tree, chain_of(tree, pid)),
{
    a_chain_is_root_first(tree, pid);
    if chain_of(tree, pid).len() < 64 {
        a_short_chain_is_whole(tree, pid);
    }
}

/// Is the process in the graph with all that the tree knows of it?
pub open spec fn is_stored_whole(list: Seq<ProcessModel>, pid: i32, n: NodeModel) -> bool {
    exists|i: int|
        0 <= i < list.len() && {
            let row = #[trigger] list[i];
            &&& row.pid == pid
            &&& row.ppid == n.ppid
            &&& row.start_ts == n.start_ts
            &&& row.exit_ts == n.exited
            &&& row.exe == n.info.exe
            &&& row.comm == n.info.comm
            &&& row.cmdline == n.info.cmdline
            &&& row.uid == n.info.uid
        }
}

/// Storing another process leaves the rows of a pid as they are.
proof fn lemma_other_is_stored(g: GraphModel, at: i32, m: NodeModel, pid: i32, n: NodeModel)
    requires
        at != pid,
    ensures
        is_stored_whole(g.processes, pid, n) ==> is_stored_whole(
            with_node(g, at, m).processes,
            pid,
            n,
        ),
        knows(with_node(g, at, m).processes, pid, n.start_ts) ==> knows(
            g.processes,
            pid,
            n.start_ts,
        ),
        with_node(g, at, m).events == g.events,
{
    let after = with_node(g, at, m).processes;
    let list = g.processes;
    if is_stored_whole(list, pid, n) {
        let i = choose|i: int|
            0 <= i < list.len() && {
                let row = #[trigger] list[i];
                &&& row.pid == pid
                &&& row.ppid == n.ppid
                &&& row.start_ts == n.start_ts
                &&& row.exit_ts == n.exited
                &&& row.exe == n.info.exe
                &&& row.comm == n.info.comm
                &&& row.cmdline == n.info.cmdline
                &&& row.uid == n.info.uid
            };
        assert(after[i] == list[i]);
    }
    if knows(after, pid, n.start_ts) {
        let i = choose|i: int|
            0 <= i < after.len() && (#[trigger] after[i]).pid == pid && after[i].start_ts
                == n.start_ts;
        assert(i < list.len());
        assert(after[i] == list[i]);
    }
}

/// Storing a chain stores each of its processes with all that the tree knows
/// of it, where the graph does not know it yet, and no event.
pub proof fn a_chain_is_stored_whole(g: GraphModel, chain: Seq<(i32, NodeModel)>, k: int)
    requires
        0 <= k < chain.len(),
        !knows(g.processes, chain[k].0, chain[k].1.start_ts),
        forall|i: int| 0 <= i < chain.len() && i != k ==> (#[trigger] chain[i]).0 != chain[k].0,
    ensures
        is_stored_whole(with_chain(g, chain).processes, chain[k].0, chain[k].1),
        with_chain(g, chain).events == g.events,
    decreases chain.len(),
{
    let front = chain.drop_last();
    let (pid, n) = chain[k];
    let before = with_chain(g, front);
    let last = chain.last();
    assert forall|i: int| 0 <= i < front.len() implies #[trigger] front[i] == chain[i] by {}
    if k < front.len() {
        a_chain_is_stored_whole(g, front, k);
        assert(chain[chain.len() - 1].0 != pid);
        lemma_other_is_stored(before, last.0, last.1, pid, n);
    } else {
        lemma_not_yet_known(g, front, pid, n);
        a_process_is_stored_whole(before, pid, n);
        let after = with_chain(g, chain).processes;
        assert(after[after.len() - 1] == after.last());
    }
}

/// A chain without a process does not make it known.
proof fn lemma_not_yet_known(g: GraphModel, chain: Seq<(i32, NodeModel)>, pid: i32, n: NodeModel)
    requires
        !knows(g.processes, pid, n.start_ts),
        forall|i: int| 0 <= i < chain.len() ==> (#[trigger] chain[i]).0 != pid,
    ensures
        !knows(with_chain(g, chain).processes, pid, n.start_ts),
        with_chain(g, chain).events == g.events,
    decreases chain.len(),
{
    if chain.len() > 0 {
        let front = chain.drop_last();
        assert forall|i: int| 0 <= i < front.len() implies (#[trigger] front[i]).0 != pid by {
            assert(front[i] == chain[i]);
        }
        lemma_not_yet_known(g, front, pid, n);
        assert(chain[chain.len() - 1].0 != pid);
        lemma_other_is_stored(with_chain(g, front), chain.last().0, chain.last().1, pid, n);
    }
}

} // verus!
