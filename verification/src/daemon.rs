//! The attribution daemon's decisions: who a process is, what is stored when
//! it writes, and what each piece of news changes.
use crate::audit::{every_entry_is_one_line, fits_a_line, line_event, log_text, told};
use crate::calendar::{
    clock_back, four_digits, local_now, name_of_time, shown_second, snapshot_name, turn_back,
    two_digits, valid_local, valid_time, year_text, CivilTime, LocalTime,
};
use crate::fanotify::{entry_op, write_op, Observation, ObservationModel};
use crate::graph::{
    closed_out, execed, identified_row, inserted, is_candidate, is_event_time, is_incarnation,
    is_recorded, latest_start_is_the_latest, written, Graph, GraphModel, Identity, IdentityModel,
    WhichModel,
};
use crate::json::{
    a_log_line_reads_back, entry_line, is_one_line, is_plain, lemma_nat_text, log_line, Entry,
    EntryModel,
};
use crate::number::{nat_text, parse_i32, text_i32};
use crate::proctree::{
    all_marked, chain_models, chain_of, evicted, new_node, InfoModel, NodeModel, ProcInfo, ProcNode,
    ProcTree,
};
use crate::text::{
    begins_with, chars_of, join_text, joined, lex_le, lines, lines_of, lossy, lossy_text,
    starts_with, string_of, texts,
};
use std::collections::HashSet;
use vstd::prelude::*;

verus! {

broadcast use vstd::std_specs::hash::group_hash_axioms;

// ---------------------------------------------------------------------
// What the process file system tells
// ---------------------------------------------------------------------
/// The pieces of `b` between zero bytes, without the empty ones.
pub open spec fn zero_pieces(b: Seq<u8>) -> Seq<Seq<u8>>
    decreases b.len(),
{
    if b.len() == 0 {
        Seq::empty()
    } else {
        let rest = zero_pieces(b.drop_last());
        if b.last() == 0 {
            rest
        } else if b.len() > 1 && b[b.len() - 2] != 0 {
            rest.drop_last().push(rest.last().push(b.last()))
        } else {
            rest.push(seq![b.last()])
        }
    }
}

/// A command line: its arguments, which zero bytes separate, with a space
/// between neighbours.
pub open spec fn command_text(b: Seq<u8>) -> Seq<char> {
    join_text(zero_pieces(b).map_values(|p: Seq<u8>| lossy_text(p)), " "@)
}

/// The command line of a process, from the bytes that the system gives.
pub fn cmdline_text(b: &Vec<u8>) -> (r: String)
    ensures
        r@ == command_text(b@),
{
    let mut pieces: Vec<String> = Vec::new();
    let mut open: Vec<u8> = Vec::new();
    let mut i: usize = 0;
    let ghost show = |p: Seq<u8>| lossy_text(p);
    let ghost zero: Seq<Seq<u8>> = Seq::empty();
    assert(texts(pieces@) =~= zero.map_values(show));
    assert(zero_pieces(b@.take(0)) =~= zero);
    while i < b.len()
        invariant
            i <= b@.len(),
            show == (|p: Seq<u8>| lossy_text(p)),
            open@.len() > 0 <==> i > 0 && b@[i - 1] != 0,
            ({
                let all = zero_pieces(b@.take(i as int));
                if open@.len() > 0 {
                    all.len() > 0 && all.last() == open@ && texts(pieces@)
                        == all.drop_last().map_values(show)
                } else {
                    texts(pieces@) == all.map_values(show)
                }
            }),
        decreases b@.len() - i,
    {
        let ghost before = zero_pieces(b@.take(i as int));
        let ghost now = b@.take(i + 1);
        let ghost had = open@;
        let ghost listed = pieces@;
        proof {
            assert(now.drop_last() =~= b@.take(i as int));
            assert(now.last() == b@[i as int]);
            if i > 0 {
                assert(now[now.len() - 2] == b@[i - 1]);
            }
        }
        let c = b[i];
        if c == 0 {
            if open.len() > 0 {
                let piece = lossy(&open);
                pieces.push(piece);
                open = Vec::new();
                proof {
                    assert(texts(pieces@) =~= texts(listed).push(piece@));
                    assert(before =~= before.drop_last().push(before.last()));
                    assert(before.map_values(show) =~= before.drop_last().map_values(show).push(
                        show(before.last()),
                    ));
                }
            }
        } else {
            open.push(c);
            proof {
                let after = zero_pieces(now);
                if had.len() > 0 {
                    assert(after.drop_last() =~= before.drop_last());
                    assert(after.last() =~= open@);
                } else {
                    assert(open@ =~= seq![c]);
                    assert(after.drop_last() =~= before);
                    assert(after.last() =~= open@);
                }
            }
        }
        i += 1;
    }
    let ghost all = zero_pieces(b@);
    assert(b@.take(b@.len() as int) =~= b@);
    if open.len() > 0 {
        let ghost listed = pieces@;
        let piece = lossy(&open);
        pieces.push(piece);
        proof {
            assert(texts(pieces@) =~= texts(listed).push(piece@));
            assert(all =~= all.drop_last().push(all.last()));
            assert(all.map_values(show) =~= all.drop_last().map_values(show).push(show(all.last())));
        }
    }
    joined(&pieces, " ")
}

/// A text without the line breaks at its end.
pub open spec fn without_breaks(s: Seq<char>) -> Seq<char>
    decreases s.len(),
{
    if s.len() > 0 && s.last() == '\n' {
        without_breaks(s.drop_last())
    } else {
        s
    }
}

/// A text without the line breaks at its end.
pub fn trim_breaks(s: &str) -> (r: String)
    ensures
        r@ == without_breaks(s@),
{
    let x = chars_of(s);
    let mut n: usize = x.len();
    assert(x@.take(n as int) =~= x@);
    while n > 0 && x[n - 1] == '\n'
        invariant
            n <= x@.len(),
            without_breaks(x@.take(n as int)) == without_breaks(x@),
        decreases n,
    {
        assert(x@.take(n as int).last() == x@[n - 1]);
        assert(x@.take(n as int).drop_last() =~= x@.take(n - 1));
        n -= 1;
    }
    assert(n > 0 ==> x@.take(n as int).last() == x@[n - 1]);
    let r = string_of(&x, 0, n);
    assert(r@ =~= x@.take(n as int));
    r
}

/// A text without the tabs and spaces at its beginning.
pub open spec fn without_indent(s: Seq<char>) -> Seq<char>
    decreases s.len(),
{
    if s.len() > 0 && (s[0] == '\t' || s[0] == ' ') {
        without_indent(s.skip(1))
    } else {
        s
    }
}

/// The parent that a line of a process's status tells of.
pub open spec fn parent_in_line(line: Seq<char>) -> Option<i32> {
    if starts_with(line, "PPid:"@) {
        text_i32(without_indent(line.skip(5)))
    } else {
        None
    }
}

/// The parent that the first line to tell of one gives.
pub open spec fn parent_in(lines: Seq<Seq<char>>) -> Option<i32>
    decreases lines.len(),
{
    if lines.len() == 0 {
        None
    } else if parent_in_line(lines[0]) is Some {
        parent_in_line(lines[0])
    } else {
        parent_in(lines.skip(1))
    }
}

fn read_parent_line(line: &str) -> (r: Option<i32>)
    ensures
        r == parent_in_line(line@),
{
    proof {
        reveal_strlit("PPid:");
    }
    if !begins_with(line, "PPid:") {
        return None;
    }
    let x = chars_of(line);
    let n = x.len();
    let mut i: usize = 5;
    while i < n && (x[i] == '\t' || x[i] == ' ')
        invariant
            n == x@.len(),
            5 <= i <= n,
            without_indent(x@.skip(5)) == without_indent(x@.skip(i as int)),
        decreases n - i,
    {
        assert(x@.skip(i as int)[0] == x@[i as int]);
        assert(x@.skip(i as int).skip(1) =~= x@.skip(i + 1));
        i += 1;
    }
    assert(i < n ==> x@.skip(i as int)[0] == x@[i as int]);
    let rest = string_of(&x, i, n);
    assert(rest@ =~= x@.skip(i as int));
    parse_i32(rest.as_str())
}

/// The parent of a process, from its status file.
pub fn parent_of_status(status: &str) -> (r: Option<i32>)
    ensures
        r == parent_in(lines_of(status@)),
{
    let list = lines(status);
    let ghost all = texts(list@);
    let mut i: usize = 0;
    assert(all.skip(0) =~= all);
    while i < list.len()
        invariant
            i <= list@.len(),
            all == texts(list@),
            all == lines_of(status@),
            parent_in(all) == parent_in(all.skip(i as int)),
        decreases list@.len() - i,
    {
        assert(all.skip(i as int)[0] == list@[i as int]@);
        assert(all.skip(i as int).skip(1) =~= all.skip(i + 1));
        let found = read_parent_line(list[i].as_str());
        if found.is_some() {
            return found;
        }
        i += 1;
    }
    None
}

// ---------------------------------------------------------------------
// Identities
// ---------------------------------------------------------------------
/// The processes that have been seen to exec, by pid: those whose identity was
/// captured when they were known to be alive.
pub struct Execs {
    pids: HashSet<i32>,
}

impl View for Execs {
    type V = Set<i32>;

    closed spec fn view(&self) -> Set<i32> {
        self.pids@
    }
}

impl Execs {
    /// No process has been seen to exec.
    pub fn new() -> (e: Self)
        ensures
            e@ == Set::<i32>::empty(),
    {
        Execs { pids: HashSet::new() }
    }

    fn note(&mut self, pid: i32)
        ensures
            final(self)@ == old(self)@.insert(pid),
    {
        self.pids.insert(pid);
    }

    fn forget(&mut self, pid: i32)
        ensures
            final(self)@ == old(self)@.remove(pid),
    {
        self.pids.remove(&pid);
    }

    /// Has the process been seen to exec?
    pub fn has(&self, pid: i32) -> (r: bool)
        ensures
            r == self@.contains(pid),
    {
        self.pids.contains(&pid)
    }
}

/// The identity captured at exec, whatever it holds. It is known even after
/// the process has gone. Nothing for a process that was never seen to exec:
/// such a one has to be looked up while it lives.
pub open spec fn captured(tree: Map<i32, NodeModel>, execs: Set<i32>, pid: i32) -> Option<
    InfoModel,
> {
    if execs.contains(pid) && tree.contains_key(pid) {
        Some(tree[pid].info)
    } else {
        None
    }
}

/// The identity captured at exec.
pub fn cached_identity(tree: &ProcTree, execs: &Execs, pid: i32) -> (r: Option<ProcInfo>)
    ensures
        match r {
            Some(info) => captured(tree@, execs@, pid) == Some(info@),
            None => captured(tree@, execs@, pid) is None,
        },
{
    if execs.has(pid) {
        tree.info(pid)
    } else {
        None
    }
}

/// The log entry of an observation by a process of this identity.
pub open spec fn entry_of(o: ObservationModel, info: InfoModel, ts: Seq<char>) -> EntryModel {
    EntryModel {
        ts,
        path: o.path,
        op: o.op,
        pid: o.pid as int,
        comm: info.comm,
        exe: info.exe,
        cmdline: info.cmdline,
        uid: info.uid as nat,
    }
}

/// The log line of an observation by a process of this identity.
pub fn observation_line(o: &Observation, info: &ProcInfo, ts: &str) -> (r: String)
    ensures
        r@ == entry_line(entry_of(o@, info@, ts@)).push('\n'),
{
    let e = Entry {
        ts: ts.to_string(),
        path: o.path.clone(),
        op: o.op.clone(),
        pid: o.pid,
        comm: info.comm.clone(),
        exe: info.exe.clone(),
        cmdline: info.cmdline.clone(),
        uid: info.uid,
    };
    log_line(&e)
}

// ---------------------------------------------------------------------
// Storing
// ---------------------------------------------------------------------
/// The identity as the graph takes it.
pub open spec fn graph_identity(info: InfoModel) -> IdentityModel {
    IdentityModel { exe: info.exe, comm: info.comm, cmdline: info.cmdline, uid: info.uid }
}

/// The graph with one process of the tree stored, with its exit if it has
/// exited already.
pub open spec fn with_node(g: GraphModel, pid: i32, n: NodeModel) -> GraphModel {
    let known = GraphModel {
        processes: inserted(
            g.processes,
            identified_row(pid, n.ppid, graph_identity(n.info), n.start_ts),
        ),
        ..g
    };
    match n.exited {
        Some(exit) => closed_out(known, pid, n.start_ts, exit),
        None => known,
    }
}

/// The graph with a chain stored, parents first.
pub open spec fn with_chain(g: GraphModel, chain: Seq<(i32, NodeModel)>) -> GraphModel
    decreases chain.len(),
{
    if chain.len() == 0 {
        g
    } else {
        with_node(with_chain(g, chain.drop_last()), chain.last().0, chain.last().1)
    }
}

fn store_node(graph: &mut Graph, pid: i32, n: &ProcNode)
    requires
        old(graph).wf(),
    ensures
        final(graph).wf(),
        final(graph)@ == with_node(old(graph)@, pid, n@),
{
    let id = Identity {
        exe: n.info.exe.as_str(),
        comm: n.info.comm.as_str(),
        cmdline: n.info.cmdline.as_str(),
        uid: n.info.uid,
    };
    graph.record_existing(pid, n.ppid, id, n.start_ts.as_str());
    match &n.exited {
        Some(exit) => {
            graph.record_exit_at(pid, n.start_ts.as_str(), exit.as_str());
        },
        None => {},
    }
}

/// Records an observation: first the chain of processes that explains the
/// writer, as far as it is not stored yet, then the event. What is stored is
/// marked in the tree.
pub fn record_observation(tree: &mut ProcTree, graph: &mut Graph, o: &Observation, ts: &str)
    requires
        old(graph).wf(),
    ensures
        final(graph).wf(),
        final(graph)@ == written(
            with_chain(old(graph)@, chain_of(old(tree)@, o.pid)),
            o.path@,
            o.op@,
            o.pid,
            ts@,
        ),
        final(tree)@ == all_marked(old(tree)@, chain_of(old(tree)@, o.pid)),
{
    let chain = tree.unpersisted_chain(o.pid);
    let ghost all = chain_models(chain@);
    let ghost g = graph@;
    let ghost t = tree@;
    let mut i: usize = 0;
    while i < chain.len()
        invariant
            i <= chain@.len(),
            all == chain_models(chain@),
            graph.wf(),
            graph@ == with_chain(g, all.take(i as int)),
            tree@ == all_marked(t, all.take(i as int)),
        decreases chain@.len() - i,
    {
        assert(all.take(i + 1).drop_last() =~= all.take(i as int));
        assert(all.take(i + 1).last() == (chain@[i as int].0, chain@[i as int].1@));
        store_node(graph, chain[i].0, &chain[i].1);
        tree.mark_persisted(chain[i].0);
        i += 1;
    }
    assert(all.take(all.len() as int) =~= all);
    graph.record_event_at(o.path.as_str(), o.op.as_str(), o.pid, ts);
}

/// The pids whose stored rows recording an observation can change: those of
/// the chain, and the writer's own.
pub fn pids_to_load(tree: &ProcTree, pid: i32) -> (r: Vec<i32>)
    ensures
        r@ == chain_of(tree@, pid).map_values(|c: (i32, NodeModel)| c.0).push(pid),
{
    let chain = tree.unpersisted_chain(pid);
    let mut out: Vec<i32> = Vec::new();
    let mut i: usize = 0;
    while i < chain.len()
        invariant
            i <= chain@.len(),
            out@.len() == i,
            forall|k: int| 0 <= k < i ==> out@[k] == chain@[k].0,
        decreases chain@.len() - i,
    {
        out.push(chain[i].0);
        i += 1;
    }
    assert(out@ =~= chain_models(chain@).map_values(|c: (i32, NodeModel)| c.0));
    out.push(pid);
    out
}

// ---------------------------------------------------------------------
// News of processes
// ---------------------------------------------------------------------
/// Notes a fork: in the tree only, since almost no process ever writes.
pub fn note_fork(tree: &mut ProcTree, execs: &mut Execs, parent: i32, child: i32, ts: &str)
    ensures
        final(execs)@ == old(execs)@.remove(child),
        final(tree)@ == old(tree)@.insert(
            child,
            new_node(Some(parent), crate::proctree::unknown_info(), ts@),
        ),
{
    tree.on_fork(parent, child, ts);
    execs.forget(child);
}

/// The tree after an exec.
pub open spec fn tree_after_exec(
    tree: Map<i32, NodeModel>,
    pid: i32,
    info: InfoModel,
    ppid_if_new: Option<i32>,
    ts: Seq<char>,
) -> Map<i32, NodeModel> {
    tree.insert(
        pid,
        if tree.contains_key(pid) {
            NodeModel { info, ..tree[pid] }
        } else {
            new_node(ppid_if_new, info, ts)
        },
    )
}

/// Is the process stored?
pub open spec fn is_stored(tree: Map<i32, NodeModel>, pid: i32) -> bool {
    tree.contains_key(pid) && tree[pid].persisted
}

/// Notes an exec, in the graph too where the process is stored already.
pub fn note_exec(
    tree: &mut ProcTree,
    execs: &mut Execs,
    graph: &mut Graph,
    pid: i32,
    info: ProcInfo,
    ppid_if_new: Option<i32>,
    ts: &str,
)
    requires
        old(graph).wf(),
    ensures
        final(graph).wf(),
        final(execs)@ == old(execs)@.insert(pid),
        final(tree)@ == tree_after_exec(old(tree)@, pid, info@, ppid_if_new, ts@),
        final(graph)@ == if is_stored(old(tree)@, pid) {
            execed(old(graph)@, pid, graph_identity(info@), ts@)
        } else {
            old(graph)@
        },
{
    let stored = match tree.get(pid) {
        Some(n) => n.persisted,
        None => false,
    };
    if stored {
        graph.record_exec_at(
            pid,
            info.exe.as_str(),
            info.comm.as_str(),
            info.cmdline.as_str(),
            info.uid,
            ts,
        );
    }
    tree.on_exec(pid, info, ppid_if_new, ts);
    execs.note(pid);
}

/// Notes an exit, in the graph too where the process is stored already.
pub fn note_exit(tree: &mut ProcTree, graph: &mut Graph, pid: i32, ts: &str)
    requires
        old(graph).wf(),
    ensures
        final(graph).wf(),
        final(tree)@ == if old(tree)@.contains_key(pid) {
            old(tree)@.insert(pid, NodeModel { exited: Some(ts@), ..old(tree)@[pid] })
        } else {
            old(tree)@
        },
        final(graph)@ == if is_stored(old(tree)@, pid) {
            closed_out(old(graph)@, pid, old(tree)@[pid].start_ts, ts@)
        } else {
            old(graph)@
        },
{
    match tree.on_exit(pid, ts) {
        Some(start) => {
            graph.record_exit_at(pid, start.as_str(), ts);
        },
        None => {},
    }
}

// ---------------------------------------------------------------------
// Forgetting
// ---------------------------------------------------------------------
/// How long a process that has exited stays known, in seconds: its writes may
/// still be waiting in a queue.
pub const GRACE: u32 = 30;

/// How many pieces of news go by between two looks for processes to forget.
pub const EVICT_EVERY: u32 = 1000;

/// Counts a piece of news, and forgets the processes whose grace is over once
/// there have been enough. `news` is how many there have been since the last
/// time, and so is what is given back.
pub fn housekeep_at(tree: &mut ProcTree, news: u32, now: &LocalTime) -> (r: u32)
    requires
        valid_local(*now),
    ensures
        news + 1 < EVICT_EVERY ==> r == news + 1 && final(tree)@ == old(tree)@,
        news + 1 >= EVICT_EVERY ==> r == 0 && final(tree)@ == evicted(
            old(tree)@,
            snapshot_name(clock_back(now.civil, GRACE as int)),
        ),
{
    if news < EVICT_EVERY - 1 {
        return news + 1;
    }
    let cutoff = name_of_time(turn_back(now.civil, GRACE));
    tree.evict_stale(cutoff.as_str());
    0
}

/// Counts a piece of news now.
pub fn housekeep(tree: &mut ProcTree, news: u32) -> (r: u32)
    ensures
        news + 1 < EVICT_EVERY ==> r == news + 1 && final(tree)@ == old(tree)@,
        news + 1 >= EVICT_EVERY ==> r == 0 && exists|now: LocalTime| #[trigger]
            valid_local(now) && final(tree)@ == evicted(
                old(tree)@,
                snapshot_name(clock_back(now.civil, GRACE as int)),
            ),
{
    let now = local_now();
    housekeep_at(tree, news, &now)
}

// ---------------------------------------------------------------------
// Laws
// ---------------------------------------------------------------------
/// Storing a process takes no other out of the graph.
proof fn lemma_node_adds(g: GraphModel, at: i32, n: NodeModel, pid: i32, start: Seq<char>)
    requires
        is_recorded(g.processes, pid, start) || at == pid && n.start_ts == start,
    ensures
        is_recorded(with_node(g, at, n).processes, pid, start),
{
    let row = identified_row(at, n.ppid, graph_identity(n.info), n.start_ts);
    let known = inserted(g.processes, row);
    assert(is_recorded(known, pid, start)) by {
        if is_recorded(g.processes, pid, start) {
            let i = choose|i: int|
                0 <= i < g.processes.len() && is_incarnation(
                    #[trigger] g.processes[i],
                    pid,
                    start,
                );
            assert(known[i] == g.processes[i]);
        } else {
            assert(is_incarnation(known[g.processes.len() as int], pid, start));
        }
    }
    let i = choose|i: int| 0 <= i < known.len() && is_incarnation(#[trigger] known[i], pid, start);
    let after = with_node(g, at, n).processes;
    assert(is_incarnation(after[i], pid, start));
}

/// A write by a process that the tree knows, and that is not stored yet, is
/// bound to an incarnation of it: the writer and the chain that explains it
/// are stored before the event is.
pub proof fn a_known_writer_is_attributed(
    tree: Map<i32, NodeModel>,
    g: GraphModel,
    o: ObservationModel,
    ts: Seq<char>,
)
    requires
        tree.contains_key(o.pid),
        !tree[o.pid].persisted,
        lex_le(tree[o.pid].start_ts, ts),
    ensures
        ({
            let stored = with_chain(g, chain_of(tree, o.pid));
            let after = written(stored, o.path, o.op, o.pid, ts);
            &&& is_recorded(stored.processes, o.pid, tree[o.pid].start_ts)
            &&& after.events.last().proc_start is Some
        }),
{
    let chain = chain_of(tree, o.pid);
    let start = tree[o.pid].start_ts;
    crate::proctree::a_chain_is_root_first(tree, o.pid);
    let before = with_chain(g, chain.drop_last());
    lemma_node_adds(before, chain.last().0, chain.last().1, o.pid, start);
    let stored = with_chain(g, chain).processes;
    latest_start_is_the_latest(stored, o.pid, WhichModel::StartedBy(ts));
    let i = choose|i: int|
        0 <= i < stored.len() && is_incarnation(#[trigger] stored[i], o.pid, start);
    assert(is_candidate(stored[i], o.pid, WhichModel::StartedBy(ts)));
}

/// Every process of the chain is stored with the event that it explains.
pub proof fn the_explanation_is_stored(
    tree: Map<i32, NodeModel>,
    g: GraphModel,
    pid: i32,
    k: int,
)
    requires
        0 <= k < chain_of(tree, pid).len(),
    ensures
        is_recorded(
            with_chain(g, chain_of(tree, pid)).processes,
            chain_of(tree, pid)[k].0,
            chain_of(tree, pid)[k].1.start_ts,
        ),
{
    lemma_chain_recorded(g, chain_of(tree, pid), k);
}

proof fn lemma_chain_recorded(g: GraphModel, chain: Seq<(i32, NodeModel)>, k: int)
    requires
        0 <= k < chain.len(),
    ensures
        is_recorded(with_chain(g, chain).processes, chain[k].0, chain[k].1.start_ts),
    decreases chain.len(),
{
    let front = chain.drop_last();
    if k < front.len() {
        lemma_chain_recorded(g, front, k);
        assert(front[k] == chain[k]);
    }
    lemma_node_adds(
        with_chain(g, front),
        chain.last().0,
        chain.last().1,
        chain[k].0,
        chain[k].1.start_ts,
    );
}

/// The identity captured at exec is what is known of the process from then on,
/// also after it has exited, until its pid stands for another process.
pub proof fn an_identity_outlives_its_process(
    tree: Map<i32, NodeModel>,
    execs: Set<i32>,
    pid: i32,
    info: InfoModel,
    ppid_if_new: Option<i32>,
    ts: Seq<char>,
    exit_ts: Seq<char>,
    parent: i32,
    again_ts: Seq<char>,
)
    ensures
        ({
            let ran = tree_after_exec(tree, pid, info, ppid_if_new, ts);
            let gone = ran.insert(pid, NodeModel { exited: Some(exit_ts), ..ran[pid] });
            let reborn = gone.insert(
                pid,
                new_node(Some(parent), crate::proctree::unknown_info(), again_ts),
            );
            let seen = execs.insert(pid);
            &&& captured(ran, seen, pid) == Some(info)
            &&& captured(gone, seen, pid) == Some(info)
            &&& captured(reborn, seen.remove(pid), pid) is None
        }),
{
}

/// Is every process that the tree marks as stored in the graph?
pub open spec fn marks_are_true(tree: Map<i32, NodeModel>, g: GraphModel) -> bool {
    forall|pid: i32| #[trigger]
        tree.contains_key(pid) && tree[pid].persisted ==> is_recorded(
            g.processes,
            pid,
            tree[pid].start_ts,
        )
}

/// Storing a chain takes no process out of the graph.
proof fn lemma_chain_adds(g: GraphModel, chain: Seq<(i32, NodeModel)>, pid: i32, start: Seq<char>)
    requires
        is_recorded(g.processes, pid, start),
    ensures
        is_recorded(with_chain(g, chain).processes, pid, start),
    decreases chain.len(),
{
    if chain.len() > 0 {
        lemma_chain_adds(g, chain.drop_last(), pid, start);
        lemma_node_adds(
            with_chain(g, chain.drop_last()),
            chain.last().0,
            chain.last().1,
            pid,
            start,
        );
    }
}

/// Recording an observation keeps tree and graph in step: what the tree marks
/// as stored is in the graph.
pub proof fn recording_keeps_marks_true(
    tree: Map<i32, NodeModel>,
    g: GraphModel,
    o: ObservationModel,
    ts: Seq<char>,
)
    requires
        marks_are_true(tree, g),
    ensures
        marks_are_true(
            all_marked(tree, chain_of(tree, o.pid)),
            written(with_chain(g, chain_of(tree, o.pid)), o.path, o.op, o.pid, ts),
        ),
{
    let chain = chain_of(tree, o.pid);
    let after = all_marked(tree, chain);
    let stored = with_chain(g, chain).processes;
    crate::proctree::a_chain_is_root_first(tree, o.pid);
    assert forall|pid: i32| #[trigger]
        after.contains_key(pid) && after[pid].persisted implies is_recorded(
        stored,
        pid,
        after[pid].start_ts,
    ) by {
        crate::proctree::marking_stores_the_chain(tree, chain, pid);
        assert(tree.contains_key(pid));
        if tree[pid].persisted {
            lemma_chain_adds(g, chain, pid, tree[pid].start_ts);
        } else {
            let k = choose|k: int| 0 <= k < chain.len() && (#[trigger] chain[k]).0 == pid;
            lemma_chain_recorded(g, chain, k);
        }
    }
}

/// News of an exec keeps tree and graph in step.
pub proof fn an_exec_keeps_marks_true(
    tree: Map<i32, NodeModel>,
    g: GraphModel,
    pid: i32,
    info: InfoModel,
    ppid_if_new: Option<i32>,
    ts: Seq<char>,
)
    requires
        marks_are_true(tree, g),
    ensures
        marks_are_true(
            tree_after_exec(tree, pid, info, ppid_if_new, ts),
            if is_stored(tree, pid) {
                execed(g, pid, graph_identity(info), ts)
            } else {
                g
            },
        ),
{
    let after = tree_after_exec(tree, pid, info, ppid_if_new, ts);
    let rows = execed(g, pid, graph_identity(info), ts).processes;
    assert forall|q: i32| #[trigger]
        after.contains_key(q) && after[q].persisted implies is_recorded(
        g.processes,
        q,
        after[q].start_ts,
    ) && is_recorded(rows, q, after[q].start_ts) by {
        assert(tree.contains_key(q) && tree[q].persisted);
        let start = tree[q].start_ts;
        let i = choose|i: int|
            0 <= i < g.processes.len() && is_incarnation(#[trigger] g.processes[i], q, start);
        assert(is_incarnation(rows[i], q, start));
    }
}

/// News of an exit keeps tree and graph in step.
pub proof fn an_exit_keeps_marks_true(
    tree: Map<i32, NodeModel>,
    g: GraphModel,
    pid: i32,
    ts: Seq<char>,
)
    requires
        marks_are_true(tree, g),
        tree.contains_key(pid),
    ensures
        marks_are_true(
            tree.insert(pid, NodeModel { exited: Some(ts), ..tree[pid] }),
            if is_stored(tree, pid) {
                closed_out(g, pid, tree[pid].start_ts, ts)
            } else {
                g
            },
        ),
{
    let after = tree.insert(pid, NodeModel { exited: Some(ts), ..tree[pid] });
    let rows = closed_out(g, pid, tree[pid].start_ts, ts).processes;
    assert forall|q: i32| #[trigger]
        after.contains_key(q) && after[q].persisted implies is_recorded(
        g.processes,
        q,
        after[q].start_ts,
    ) && is_recorded(rows, q, after[q].start_ts) by {
        assert(tree.contains_key(q) && tree[q].persisted);
        let start = tree[q].start_ts;
        let i = choose|i: int|
            0 <= i < g.processes.len() && is_incarnation(#[trigger] g.processes[i], q, start);
        assert(is_incarnation(rows[i], q, start));
    }
}

/// Does the text stand for itself in a log line: has it no quote, no backslash
/// and no line break?
pub open spec fn is_bare(s: Seq<char>) -> bool {
    is_plain(s) && is_one_line(s)
}

/// Texts that stand for themselves do so one after another.
proof fn lemma_plain_parts(a: Seq<char>, b: Seq<char>)
    requires
        is_bare(a),
        is_bare(b),
    ensures
        is_bare(a + b),
{
    assert forall|i: int| 0 <= i < (a + b).len() implies (#[trigger] (a + b)[i]) != '"' && (a
        + b)[i] != '\\' && (a + b)[i] != '\n' by {
        assert((a + b)[i] == if i < a.len() {
            a[i]
        } else {
            b[i - a.len()]
        });
    }
}

/// A separator and two digits stand for themselves.
proof fn lemma_plain_field(s: Seq<char>, sep: char, n: int)
    requires
        is_bare(s),
        sep == '-' || sep == 'T',
        0 <= n < 100,
    ensures
        is_bare(s + seq![sep] + two_digits(n)),
{
    assert(is_bare(two_digits(n)));
    lemma_plain_parts(s, seq![sep]);
    lemma_plain_parts(s + seq![sep], two_digits(n));
}

/// A year stands for itself.
proof fn lemma_plain_year(y: int)
    ensures
        is_bare(year_text(y)),
{
    let n = if y < 0 {
        (-y) as nat
    } else {
        y as nat
    };
    lemma_nat_text(n);
    assert(is_bare(nat_text(n)));
    if n <= 9999 {
        assert(is_bare(two_digits(n as int / 100)));
        assert(is_bare(two_digits(n as int % 100)));
        lemma_plain_parts(two_digits(n as int / 100), two_digits(n as int % 100));
        lemma_plain_parts(seq!['-'], four_digits(n as int));
    }
    lemma_plain_parts(seq!['+'], nat_text(n));
    lemma_plain_parts(seq!['-'], nat_text(n));
}

/// The time of an event stands for itself.
proof fn lemma_plain_time(c: CivilTime)
    requires
        valid_time(c),
    ensures
        is_bare(snapshot_name(c)),
{
    let y = year_text(c.date.year as int);
    lemma_plain_year(c.date.year as int);
    let m = y + seq!['-'] + two_digits(c.date.month as int);
    lemma_plain_field(y, '-', c.date.month as int);
    let d = m + seq!['-'] + two_digits(c.date.day as int);
    lemma_plain_field(m, '-', c.date.day as int);
    let h = d + seq!['T'] + two_digits(c.hour as int);
    lemma_plain_field(d, 'T', c.hour as int);
    let n = h + seq!['-'] + two_digits(c.minute as int);
    lemma_plain_field(h, '-', c.minute as int);
    lemma_plain_field(n, '-', shown_second(c));
}

/// What is said to have happened stands for itself.
proof fn lemma_plain_op(mask: u64)
    ensures
        is_bare(entry_op(mask)),
        is_bare(write_op(mask)),
{
    reveal_strlit("create");
    reveal_strlit("delete");
    reveal_strlit("moved_from");
    reveal_strlit("moved_to");
    reveal_strlit("attrib");
    reveal_strlit("fid_other");
    reveal_strlit("close_write");
    reveal_strlit("modify");
}

/// What is observed can be read back from the log: an observation stamped
/// with the time of an event makes one log line, of which every field is read
/// back, whatever the path and the writer's identity hold.
pub proof fn an_observation_reads_back(
    o: ObservationModel,
    mask: u64,
    info: InfoModel,
    ts: Seq<char>,
)
    requires
        o.op == entry_op(mask) || o.op == write_op(mask),
        is_event_time(ts),
    ensures
        ({
            let line = entry_line(entry_of(o, info, ts));
            &&& lines_of(line.push('\n')) == seq![line]
            &&& line_event(line) == told(entry_of(o, info, ts))
        }),
{
    let e = entry_of(o, info, ts);
    let c = choose|c: CivilTime|
        valid_time(c) && c.nanos < 1_000_000_000 && ts == #[trigger] snapshot_name(c);
    lemma_plain_time(c);
    lemma_plain_op(mask);
    a_log_line_reads_back(e);
    assert(fits_a_line(e));
    every_entry_is_one_line(seq![e]);
    let rest: Seq<EntryModel> = seq![e].skip(1);
    assert(rest =~= Seq::empty());
    assert(log_text(rest) =~= Seq::empty());
    assert(log_text(seq![e]) =~= entry_line(e).push('\n'));
    assert(seq![e].map_values(|x: EntryModel| entry_line(x)) =~= seq![entry_line(e)]);
}

} // verus!
