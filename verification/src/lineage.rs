//! Walks along the fork edges: the ancestry that explains a process, and the
//! tree of everything that descends from one.
use crate::graph::{
    event_models, is_incarnation, lived_at, row_models, someone_lived_at, EventModel, FileEvent,
    FileEventModel, Graph, GraphModel, ProcRow, ProcRowModel, Process, ProcessModel,
};
use crate::history::{attributed, by_time, copy_event, in_time_order, resolved_start};
use crate::text::{opt_text, same_text, text_le};
use vstd::prelude::*;

verus! {

/// How many edges an ancestry follows at most.
pub const MAX_ANCESTRY: usize = 64;

/// How many edges a process tree follows at most.
pub const MAX_TREE: usize = 256;

/// The direction of a walk.
#[derive(Debug, Clone, Copy, PartialEq, Eq, Structural)]
pub enum Toward {
    Parents,
    Children,
}

/// Is `p` the parent of `c`: the incarnation of the parent's pid whose
/// lifetime contained the birth of `c`?
pub open spec fn is_parent_of(p: ProcessModel, c: ProcessModel) -> bool {
    c.ppid == Some(p.pid) && lived_at(p, c.start_ts)
}

/// Is `p` a child of `c`: was it born to that incarnation, and not to another
/// one with the same pid?
///
/// A process may be noticed only after it has forked. So where no recorded
/// incarnation of the parent's pid lived when `p` was born, `p` counts as a
/// child of each of them, so that none is lost.
pub open spec fn is_child_of(
    list: Seq<ProcessModel>,
    p: ProcessModel,
    c: ProcessModel,
) -> bool {
    p.ppid == Some(c.pid) && (lived_at(c, p.start_ts) || !someone_lived_at(list, c.pid, p.start_ts))
}

/// Does the walk go from `c` to `p`?
pub open spec fn is_next(
    list: Seq<ProcessModel>,
    p: ProcessModel,
    c: ProcessModel,
    toward: Toward,
) -> bool {
    match toward {
        Toward::Parents => is_parent_of(p, c),
        Toward::Children => is_child_of(list, p, c),
    }
}

/// Where the walk goes from one process.
pub open spec fn nexts(list: Seq<ProcessModel>, c: ProcessModel, toward: Toward) -> Seq<ProcessModel> {
    list.filter(|p: ProcessModel| is_next(list, p, c, toward))
}

/// Where the walk goes from one level.
pub open spec fn next_level(
    list: Seq<ProcessModel>,
    level: Seq<ProcessModel>,
    toward: Toward,
) -> Seq<ProcessModel>
    decreases level.len(),
{
    if level.len() == 0 {
        Seq::empty()
    } else {
        next_level(list, level.drop_last(), toward) + nexts(list, level.last(), toward)
    }
}

/// A walk of at most `steps` edges from one level, level by level.
pub open spec fn walk(
    list: Seq<ProcessModel>,
    level: Seq<ProcessModel>,
    toward: Toward,
    steps: nat,
) -> Seq<ProcessModel>
    decreases steps,
{
    if steps == 0 {
        level
    } else {
        level + walk(list, next_level(list, level, toward), toward, (steps - 1) as nat)
    }
}

/// The recorded process that a walk starts at.
pub open spec fn origin(list: Seq<ProcessModel>, pid: i32, start_ts: Seq<char>) -> Seq<ProcessModel> {
    list.filter(|p: ProcessModel| is_incarnation(p, pid, start_ts))
}

/// The process and its ancestors, nearest first.
pub open spec fn ancestors(list: Seq<ProcessModel>, pid: i32, start_ts: Seq<char>) -> Seq<
    ProcessModel,
> {
    walk(list, origin(list, pid, start_ts), Toward::Parents, MAX_ANCESTRY as nat)
}

/// The process and its descendants, nearest first.
pub open spec fn process_tree(list: Seq<ProcessModel>, pid: i32, start_ts: Seq<char>) -> Seq<
    ProcessModel,
> {
    walk(list, origin(list, pid, start_ts), Toward::Children, MAX_TREE as nat)
}

/// A process as a lineage shows it.
pub open spec fn lineage_row(p: ProcessModel) -> ProcRowModel {
    ProcRowModel {
        pid: p.pid,
        start_ts: p.start_ts,
        ppid: p.ppid,
        comm: p.comm,
        exe: p.exe,
        cmdline: p.cmdline,
    }
}

/// Processes as a lineage shows them.
pub open spec fn lineage_rows(list: Seq<ProcessModel>) -> Seq<ProcRowModel> {
    list.map_values(|p: ProcessModel| lineage_row(p))
}

/// Did the incarnation `t` write the event?
pub open spec fn wrote(list: Seq<ProcessModel>, t: ProcessModel, e: EventModel) -> bool {
    t.pid == e.pid && resolved_start(list, e) == Some(t.start_ts)
}

/// The events that the processes of `tree` wrote, each with its writer.
pub open spec fn writes_of(
    list: Seq<ProcessModel>,
    tree: Seq<ProcessModel>,
    events: Seq<EventModel>,
) -> Seq<FileEventModel>
    decreases events.len(),
{
    if events.len() == 0 {
        Seq::empty()
    } else {
        writes_of(list, tree, events.drop_last()) + tree.filter(
            |t: ProcessModel| wrote(list, t, events.last()),
        ).map_values(|t: ProcessModel| attributed(list, events.last()))
    }
}

/// Everything that a process and its descendants wrote, oldest first.
pub open spec fn manifest(g: GraphModel, pid: i32, start_ts: Seq<char>) -> Seq<FileEventModel> {
    in_time_order(writes_of(g.processes, process_tree(g.processes, pid, start_ts), g.events))
}

/// The processes at the given positions.
pub open spec fn picked(list: Seq<ProcessModel>, at: Seq<usize>) -> Seq<ProcessModel> {
    Seq::new(at.len(), |i: int| list[at[i] as int])
}

/// Are all positions within a list of `n`?
pub open spec fn are_positions(at: Seq<usize>, n: int) -> bool {
    forall|i: int| 0 <= i < at.len() ==> (#[trigger] at[i]) < n
}

/// A walk from nowhere goes nowhere.
proof fn walk_from_nowhere(list: Seq<ProcessModel>, toward: Toward, steps: nat)
    ensures
        walk(list, Seq::empty(), toward, steps) == Seq::<ProcessModel>::empty(),
    decreases steps,
{
    if steps > 0 {
        walk_from_nowhere(list, toward, (steps - 1) as nat);
        assert(next_level(list, Seq::empty(), toward) =~= Seq::empty());
    }
}

impl Graph {
    /// Does the lifetime of `p` contain `ts`?
    fn lived(p: &Process, ts: &str) -> (r: bool)
        ensures
            r == lived_at(p@, ts@),
    {
        text_le(p.start_ts.as_str(), ts) && match &p.exit_ts {
            Some(exit) => text_le(ts, exit.as_str()),
            None => true,
        }
    }

    /// Did an incarnation of `pid` live at `ts`?
    fn anyone_lived(&self, pid: i32, ts: &str) -> (r: bool)
        ensures
            r == someone_lived_at(self@.processes, pid, ts@),
    {
        let ghost list = self@.processes;
        let mut i: usize = 0;
        while i < self.processes.len()
            invariant
                i <= self.processes@.len(),
                list == self@.processes,
                forall|k: int|
                    0 <= k < i ==> !((#[trigger] list[k]).pid == pid && lived_at(list[k], ts@)),
            decreases self.processes@.len() - i,
        {
            assert(list[i as int] == self.processes@[i as int]@);
            if self.processes[i].pid == pid && Graph::lived(&self.processes[i], ts) {
                return true;
            }
            i += 1;
        }
        false
    }

    /// Does `p` name `c` as its parent?
    fn names(p: &Process, c: &Process) -> (r: bool)
        ensures
            r == (p@.ppid == Some(c@.pid)),
    {
        match p.ppid {
            Some(ppid) => ppid == c.pid,
            None => false,
        }
    }

    /// Does the walk go from `c` to `p`?
    fn goes_to(&self, p: &Process, c: &Process, toward: Toward) -> (r: bool)
        ensures
            r == is_next(self@.processes, p@, c@, toward),
    {
        match toward {
            Toward::Parents => Graph::names(c, p) && Graph::lived(p, c.start_ts.as_str()),
            Toward::Children => Graph::names(p, c) && (Graph::lived(c, p.start_ts.as_str())
                || !self.anyone_lived(c.pid, p.start_ts.as_str())),
        }
    }

    /// Appends where the walk goes from the process at position `from`.
    fn push_nexts(&self, from: usize, toward: Toward, out: &mut Vec<usize>)
        requires
            from < self.processes@.len(),
            are_positions(old(out)@, self.processes@.len() as int),
        ensures
            are_positions(final(out)@, self.processes@.len() as int),
            picked(self@.processes, final(out)@) == picked(self@.processes, old(out)@) + nexts(
                self@.processes,
                self@.processes[from as int],
                toward,
            ),
    {
        let ghost list = self@.processes;
        let ghost c = list[from as int];
        let ghost link = |p: ProcessModel| is_next(list, p, c, toward);
        let ghost first = picked(list, out@);
        let mut i: usize = 0;
        proof {
            reveal(Seq::filter);
            assert(picked(list, out@) =~= first + list.take(0).filter(link));
        }
        while i < self.processes.len()
            invariant
                i <= self.processes@.len(),
                from < self.processes@.len(),
                list == self@.processes,
                c == list[from as int],
                link == (|p: ProcessModel| is_next(list, p, c, toward)),
                are_positions(out@, self.processes@.len() as int),
                picked(list, out@) == first + list.take(i as int).filter(link),
            decreases self.processes@.len() - i,
        {
            let ghost before = out@;
            proof {
                reveal(Seq::filter);
                assert(list.take(i + 1).drop_last() =~= list.take(i as int));
                assert(list.take(i + 1).last() == list[i as int]);
            }
            if self.goes_to(&self.processes[i], &self.processes[from], toward) {
                out.push(i);
                assert(picked(list, out@) =~= picked(list, before).push(list[i as int]));
            }
            assert(picked(list, out@) =~= first + list.take(i + 1).filter(link));
            i += 1;
        }
        assert(list.take(list.len() as int) =~= list);
    }

    /// The positions of the process `(pid, start_ts)`.
    fn find_origin(&self, pid: i32, start_ts: &str) -> (r: Vec<usize>)
        ensures
            are_positions(r@, self.processes@.len() as int),
            picked(self@.processes, r@) == origin(self@.processes, pid, start_ts@),
    {
        let ghost list = self@.processes;
        let ghost here = |p: ProcessModel| is_incarnation(p, pid, start_ts@);
        let mut out: Vec<usize> = Vec::new();
        let mut i: usize = 0;
        proof {
            reveal(Seq::filter);
            assert(picked(list, out@) =~= list.take(0).filter(here));
        }
        while i < self.processes.len()
            invariant
                i <= self.processes@.len(),
                list == self@.processes,
                here == (|p: ProcessModel| is_incarnation(p, pid, start_ts@)),
                are_positions(out@, self.processes@.len() as int),
                picked(list, out@) == list.take(i as int).filter(here),
            decreases self.processes@.len() - i,
        {
            let ghost before = out@;
            proof {
                reveal(Seq::filter);
                assert(list.take(i + 1).drop_last() =~= list.take(i as int));
                assert(list.take(i + 1).last() == list[i as int]);
            }
            if self.processes[i].pid == pid && same_text(
                self.processes[i].start_ts.as_str(),
                start_ts,
            ) {
                out.push(i);
                assert(picked(list, out@) =~= picked(list, before).push(list[i as int]));
            }
            i += 1;
        }
        assert(list.take(list.len() as int) =~= list);
        out
    }

    /// The positions that a walk visits, level by level.
    fn walk_from(&self, pid: i32, start_ts: &str, toward: Toward, steps: usize) -> (r: Vec<usize>)
        ensures
            are_positions(r@, self.processes@.len() as int),
            picked(self@.processes, r@) == walk(
                self@.processes,
                origin(self@.processes, pid, start_ts@),
                toward,
                steps as nat,
            ),
    {
        let ghost list = self@.processes;
        let mut level = self.find_origin(pid, start_ts);
        let ghost all = walk(list, picked(list, level@), toward, steps as nat);
        let mut done: Vec<usize> = Vec::new();
        let mut left: usize = steps;
        assert(picked(list, done@) + all =~= all);
        while left > 0 && level.len() > 0
            invariant
                list == self@.processes,
                are_positions(done@, self.processes@.len() as int),
                are_positions(level@, self.processes@.len() as int),
                picked(list, done@) + walk(list, picked(list, level@), toward, left as nat) == all,
            decreases left,
        {
            let mut next: Vec<usize> = Vec::new();
            let mut i: usize = 0;
            assert(picked(list, next@) =~= next_level(list, picked(list, level@).take(0), toward));
            while i < level.len()
                invariant
                    i <= level@.len(),
                    list == self@.processes,
                    are_positions(level@, self.processes@.len() as int),
                    are_positions(next@, self.processes@.len() as int),
                    picked(list, next@) == next_level(
                        list,
                        picked(list, level@).take(i as int),
                        toward,
                    ),
                decreases level@.len() - i,
            {
                let ghost here = picked(list, level@);
                self.push_nexts(level[i], toward, &mut next);
                assert(here.take(i + 1).drop_last() =~= here.take(i as int));
                i += 1;
            }
            let ghost was_done = done@;
            let ghost was_level = level@;
            assert(picked(list, level@).take(level@.len() as int) =~= picked(list, level@));
            done.append(&mut level);
            assert(picked(list, done@) =~= picked(list, was_done) + picked(list, was_level));
            level = next;
            left -= 1;
            assert(picked(list, done@) + walk(list, picked(list, level@), toward, left as nat)
                =~= all);
        }
        proof {
            if level@.len() == 0 {
                walk_from_nowhere(list, toward, left as nat);
                assert(picked(list, level@) =~= Seq::empty());
            }
            assert(picked(list, done@ + level@) =~= picked(list, done@) + picked(list, level@));
        }
        done.append(&mut level);
        done
    }

    /// The processes at the given positions, as a lineage shows them.
    fn rows_at(&self, at: &Vec<usize>) -> (r: Vec<ProcRow>)
        requires
            are_positions(at@, self.processes@.len() as int),
        ensures
            row_models(r@) == lineage_rows(picked(self@.processes, at@)),
    {
        let mut out: Vec<ProcRow> = Vec::new();
        let mut i: usize = 0;
        while i < at.len()
            invariant
                i <= at@.len(),
                are_positions(at@, self.processes@.len() as int),
                out@.len() == i,
                forall|j: int|
                    0 <= j < i ==> (#[trigger] out@[j])@ == lineage_row(
                        self@.processes[at@[j] as int],
                    ),
            decreases at@.len() - i,
        {
            let p = &self.processes[at[i]];
            out.push(
                ProcRow {
                    pid: p.pid,
                    start_ts: p.start_ts.clone(),
                    ppid: p.ppid,
                    comm: p.comm.clone(),
                    exe: p.exe.clone(),
                    cmdline: p.cmdline.clone(),
                },
            );
            i += 1;
        }
        assert(row_models(out@) =~= lineage_rows(picked(self@.processes, at@)));
        out
    }

    /// Walks the fork edges upward: the chain that explains why a process
    /// existed. The process itself comes first.
    pub fn ancestry(&self, pid: i32, start_ts: &str) -> (r: Vec<ProcRow>)
        ensures
            row_models(r@) == lineage_rows(ancestors(self@.processes, pid, start_ts@)),
    {
        let at = self.walk_from(pid, start_ts, Toward::Parents, MAX_ANCESTRY);
        self.rows_at(&at)
    }

    /// Walks the fork edges downward: every process descended from this one.
    /// The process itself comes first.
    pub fn descendants(&self, pid: i32, start_ts: &str) -> (r: Vec<ProcRow>)
        ensures
            row_models(r@) == lineage_rows(process_tree(self@.processes, pid, start_ts@)),
    {
        let at = self.walk_from(pid, start_ts, Toward::Children, MAX_TREE);
        self.rows_at(&at)
    }

    /// Everything written by a process tree: the manifest of what a command
    /// did to the machine.
    pub fn events_by_tree(&self, pid: i32, start_ts: &str) -> (r: Vec<FileEvent>)
        ensures
            event_models(r@) == manifest(self@, pid, start_ts@),
    {
        let at = self.walk_from(pid, start_ts, Toward::Children, MAX_TREE);
        let ghost list = self@.processes;
        let ghost tree = picked(list, at@);
        let ghost events = self@.events;
        let mut out: Vec<FileEvent> = Vec::new();
        let mut i: usize = 0;
        assert(event_models(out@) =~= writes_of(list, tree, events.take(0)));
        while i < self.events.len()
            invariant
                i <= self.events@.len(),
                list == self@.processes,
                events == self@.events,
                tree == picked(list, at@),
                are_positions(at@, self.processes@.len() as int),
                event_models(out@) == writes_of(list, tree, events.take(i as int)),
            decreases self.events@.len() - i,
        {
            let e = &self.events[i];
            let writer = self.resolve(e);
            let shown = self.attribute(e);
            let ghost first = event_models(out@);
            let ghost did = |t: ProcessModel| wrote(list, t, e@);
            let ghost show = |t: ProcessModel| attributed(list, e@);
            let mut k: usize = 0;
            proof {
                reveal(Seq::filter);
                assert(events.take(i + 1).drop_last() =~= events.take(i as int));
                assert(events.take(i + 1).last() == e@);
                assert(first =~= first + tree.take(0).filter(did).map_values(show));
            }
            while k < at.len()
                invariant
                    k <= at@.len(),
                    list == self@.processes,
                    tree == picked(list, at@),
                    are_positions(at@, self.processes@.len() as int),
                    opt_text(writer) == resolved_start(list, e@),
                    shown@ == attributed(list, e@),
                    did == (|t: ProcessModel| wrote(list, t, e@)),
                    show == (|t: ProcessModel| attributed(list, e@)),
                    event_models(out@) == first + tree.take(k as int).filter(did).map_values(show),
                decreases at@.len() - k,
            {
                let ghost before = out@;
                let t = &self.processes[at[k]];
                proof {
                    reveal(Seq::filter);
                    assert(tree.take(k + 1).drop_last() =~= tree.take(k as int));
                    assert(tree.take(k + 1).last() == t@);
                }
                let same = match &writer {
                    Some(start) => same_text(start.as_str(), t.start_ts.as_str()),
                    None => false,
                };
                if t.pid == e.pid && same {
                    let copy = copy_event(&shown);
                    out.push(copy);
                    assert(event_models(out@) =~= event_models(before).push(copy@));
                }
                assert(event_models(out@) =~= first + tree.take(k + 1).filter(did).map_values(show));
                k += 1;
            }
            assert(tree.take(tree.len() as int) =~= tree);
            i += 1;
        }
        assert(events.take(events.len() as int) =~= events);
        by_time(&out)
    }
}

} // verus!
