//! What holds of what the query tool says, told in terms of the graph, the
//! traced command and the plan.
use crate::graph::{FileEventModel, GraphModel, ProcRowModel, WhichModel};
use crate::graph::latest_start;
use crate::history::history;
use crate::lineage::{ancestors, lineage_rows, manifest, process_tree};
use crate::number::{int_text, nat_text, text_i32};
use crate::report::{
    asked_start, because_lines, blame_lines, count_outcome, count_removes, count_restores,
    count_skips, event_text, is_summarised, link_text, log_lines, manifest_lines, no_history_text,
    origin_in, outcome_of, painted, plan_lines, process_text, result_text, stat_lines, step_text,
    summaries, summary_with, touched_text, traced_text, tree_said, undo_of, who_text, Attempt,
    Outcome, PathSummaryModel, SaidModel, UndoModel, BOLD, CYAN, DIM, RESET, YELLOW,
};
use crate::report::snapshot_of;
use crate::revert::StepModel;
use crate::text::{has_part, join_text, pad_right};
use crate::text_laws::{joining_separates_neighbours, lemma_part, padding_adds_spaces_only};
use vstd::prelude::*;

verus! {

/// A part of a part is a part.
proof fn lemma_part_of_part(s: Seq<char>, mid: Seq<char>, part: Seq<char>)
    requires
        has_part(s, mid),
        has_part(mid, part),
    ensures
        has_part(s, part),
{
    let a = choose|at: int| crate::text::stands_at(s, mid, at);
    let b = choose|at: int| crate::text::stands_at(mid, part, at);
    assert(s.subrange(a + b, a + b + part.len()) =~= part) by {
        assert forall|i: int| 0 <= i < part.len() implies s[a + b + i] == part[i] by {
            assert(s.subrange(a, a + mid.len())[b + i] == mid[b + i]);
            assert(mid.subrange(b, b + part.len())[i] == part[i]);
        }
    }
    assert(crate::text::stands_at(s, part, a + b));
}

/// What is painted is still there.
proof fn lemma_painted(colour: Seq<char>, s: Seq<char>)
    ensures
        has_part(painted(colour, s), s),
{
    lemma_part(colour, s, RESET@);
}

/// A text with something before it and behind it.
proof fn lemma_in(s: Seq<char>, a: Seq<char>, mid: Seq<char>, b: Seq<char>, part: Seq<char>)
    requires
        s == a + mid + b,
        has_part(mid, part),
    ensures
        has_part(s, part),
{
    lemma_part(a, mid, b);
    lemma_part_of_part(s, mid, part);
}

proof fn lemma_self(s: Seq<char>)
    ensures
        has_part(s, s),
{
    lemma_part(Seq::empty(), s, Seq::empty());
    assert(Seq::empty() + s + Seq::empty() =~= s);
}

proof fn lemma_padded(s: Seq<char>, width: nat)
    ensures
        has_part(pad_right(s, width), s),
{
    padding_adds_spaces_only(s, width);
}

// ---------------------------------------------------------------------
// Events
// ---------------------------------------------------------------------
/// The writer is shown by its name, else by its program. A writer that has
/// neither is shown as one without a name if it is known, and as nobody if it
/// is not; the two look different.
pub proof fn a_writer_is_never_passed_over(e: FileEventModel, f: FileEventModel)
    ensures
        e.comm.len() > 0 ==> who_text(e) == e.comm,
        e.comm.len() == 0 && e.exe.len() > 0 ==> who_text(e) == e.exe,
        who_text(e).len() > 0,
        e.comm.len() == 0 && e.exe.len() == 0 && f.comm.len() == 0 && f.exe.len() == 0 ==> (
        who_text(e) == who_text(f) <==> (e.proc_start is Some <==> f.proc_start is Some)),
{
    reveal_strlit("<unnamed>");
    reveal_strlit("<unattributed>");
    let a = painted(YELLOW@, "<unnamed>"@);
    let b = painted(YELLOW@, "<unattributed>"@);
    assert(a.len() != b.len());
}

/// Does the line tell the event: when, what, who, by which pid, and how the
/// writer was invoked?
pub open spec fn tells_event(line: Seq<char>, e: FileEventModel) -> bool {
    &&& has_part(line, e.ts)
    &&& has_part(line, e.op)
    &&& has_part(line, who_text(e))
    &&& has_part(line, "pid "@ + int_text(e.pid as int))
    &&& e.cmdline.len() > 0 ==> has_part(line, e.cmdline)
}

/// The line of an event tells it.
#[verifier::spinoff_prover]
pub proof fn a_line_tells_its_event(e: FileEventModel)
    ensures
        tells_event(event_text(e), e),
{
    let t = event_text(e);
    let (s, one) = ("  "@, " "@);
    let pid = "pid "@ + int_text(e.pid as int);
    let (c, o, w, p) = (painted(CYAN@, e.ts), pad_right(e.op, 12), who_text(e), painted(DIM@, pid));
    let tail = if e.cmdline.len() == 0 {
        Seq::empty()
    } else {
        s + painted(DIM@, e.cmdline)
    };
    lemma_painted(CYAN@, e.ts);
    lemma_padded(e.op, 12);
    lemma_self(w);
    lemma_painted(DIM@, pid);
    lemma_painted(DIM@, e.cmdline);
    assert(t =~= s + c + (s + o + one + w + s + p + tail));
    lemma_in(t, s, c, s + o + one + w + s + p + tail, e.ts);
    assert(t =~= (s + c + s) + o + (one + w + s + p + tail));
    lemma_in(t, s + c + s, o, one + w + s + p + tail, e.op);
    assert(t =~= (s + c + s + o + one) + w + (s + p + tail));
    lemma_in(t, s + c + s + o + one, w, s + p + tail, w);
    assert(t =~= (s + c + s + o + one + w + s) + p + tail);
    lemma_in(t, s + c + s + o + one + w + s, p, tail, pid);
    if e.cmdline.len() > 0 {
        let cl = painted(DIM@, e.cmdline);
        assert(t =~= (s + c + s + o + one + w + s + p + s) + cl + Seq::empty());
        lemma_in(t, s + c + s + o + one + w + s + p + s, cl, Seq::empty(), e.cmdline);
    }
}

/// The history of a file is told whole: its name, then a line for each of its
/// events, oldest first. Of a file without a history that is said, by name.
pub proof fn a_log_tells_the_whole_history(g: GraphModel, path: Seq<char>, k: int)
    ensures
        has_part(log_lines(g, path)[0], path),
        history(g, path).len() == 0 ==> log_lines(g, path).len() == 1,
        history(g, path).len() > 0 ==> log_lines(g, path).len() == history(g, path).len() + 1,
        0 <= k < history(g, path).len() ==> tells_event(log_lines(g, path)[k + 1], history(g, path)[k]),
{
    let said = "no recorded history for "@;
    lemma_part(said, path, Seq::empty());
    assert(no_history_text(path) =~= said + path + Seq::empty());
    lemma_painted(BOLD@, path);
    if 0 <= k < history(g, path).len() {
        a_line_tells_its_event(history(g, path)[k]);
        let lines = log_lines(g, path);
        assert(lines[k + 1] == event_text(history(g, path)[k]));
    }
}

/// Blame tells of the last event of the history and of no other.
pub proof fn blame_tells_the_last_write(g: GraphModel, path: Seq<char>)
    ensures
        has_part(blame_lines(g, path)[0], path),
        history(g, path).len() == 0 ==> blame_lines(g, path).len() == 1,
        history(g, path).len() > 0 ==> blame_lines(g, path).len() >= 2 && tells_event(
            blame_lines(g, path)[1],
            history(g, path).last(),
        ),
        history(g, path).len() > 0 && history(g, path).last().proc_start is None ==> blame_lines(
            g,
            path,
        ).len() == 3,
{
    let said = "no recorded history for "@;
    lemma_part(said, path, Seq::empty());
    assert(no_history_text(path) =~= said + path + Seq::empty());
    lemma_painted(BOLD@, path);
    if history(g, path).len() > 0 {
        a_line_tells_its_event(history(g, path).last());
    }
}

// ---------------------------------------------------------------------
// Why
// ---------------------------------------------------------------------
/// A process of a chain is shown by its name, and by its pid where it has
/// none.
pub proof fn a_link_is_shown_by_name(p: ProcRowModel)
    ensures
        p.comm.len() > 0 ==> link_text(p) == p.comm,
        p.comm.len() == 0 ==> link_text(p) == "pid "@ + int_text(p.pid as int),
{
}

/// Is the process at `k` the nearest ancestor that knows how it was invoked?
pub open spec fn explains(chain: Seq<ProcRowModel>, k: int) -> bool {
    &&& 1 <= k < chain.len()
    &&& chain[k].cmdline.len() > 0
    &&& forall|j: int| 1 <= j < k ==> (#[trigger] chain[j]).cmdline.len() == 0
}

proof fn lemma_origin(chain: Seq<ProcRowModel>, from: int, k: int)
    requires
        1 <= from <= k,
        explains(chain, k),
    ensures
        origin_in(chain, from) == Some(chain[k].cmdline),
    decreases k - from,
{
    if from < k {
        assert(chain[from].cmdline.len() == 0);
        lemma_origin(chain, from + 1, k);
    }
}

proof fn lemma_no_origin(chain: Seq<ProcRowModel>, from: int)
    requires
        1 <= from,
        forall|j: int| from <= j < chain.len() ==> (#[trigger] chain[j]).cmdline.len() == 0,
    ensures
        origin_in(chain, from) is None,
    decreases chain.len() - from,
{
    if from < chain.len() {
        assert(chain[from].cmdline.len() == 0);
        lemma_no_origin(chain, from + 1);
    }
}

/// A chain tells why: it names each process and behind it the one that started
/// it, and then how the nearest ancestor that knows it was invoked. A process
/// alone is not explained.
pub proof fn a_chain_tells_why(chain: Seq<ProcRowModel>, i: int, k: int)
    ensures
        chain.len() <= 1 ==> because_lines(chain).len() == 0,
        chain.len() > 1 ==> because_lines(chain).len() >= 1,
        0 <= i < chain.len() - 1 ==> has_part(
            because_lines(chain)[0],
            link_text(chain[i]) + " ← "@ + link_text(chain[i + 1]),
        ),
        explains(chain, k) ==> because_lines(chain).len() == 2 && has_part(
            because_lines(chain)[1],
            chain[k].cmdline,
        ),
        (forall|j: int| 1 <= j < chain.len() ==> (#[trigger] chain[j]).cmdline.len() == 0)
            ==> because_lines(chain).len() <= 1,
{
    let names = chain.map_values(|p: ProcRowModel| link_text(p));
    let sep = " ← "@;
    if chain.len() > 1 {
        let front = "  "@ + painted(DIM@, "because:"@) + "    "@;
        let all = join_text(names, sep);
        lemma_part(front, all, Seq::empty());
        assert(because_lines(chain)[0] =~= front + all + Seq::empty());
        if 0 <= i < chain.len() - 1 {
            let pair = link_text(chain[i]) + sep + link_text(chain[i + 1]);
            lemma_neighbours(names, sep, i);
            lemma_part_of_part(because_lines(chain)[0], all, pair);
        }
    }
    if explains(chain, k) {
        lemma_origin(chain, 1, k);
        let cmdline = chain[k].cmdline;
        let front = "  "@ + painted(DIM@, "started by:"@) + " "@;
        lemma_part(front, cmdline, Seq::empty());
        assert(because_lines(chain)[1] =~= front + cmdline + Seq::empty());
    }
    if forall|j: int| 1 <= j < chain.len() ==> (#[trigger] chain[j]).cmdline.len() == 0 {
        lemma_no_origin(chain, 1);
    }
}

/// Neighbours stand next to each other in what is joined.
#[verifier::spinoff_prover]
proof fn lemma_neighbours(names: Seq<Seq<char>>, sep: Seq<char>, i: int)
    requires
        0 <= i < names.len() - 1,
    ensures
        has_part(join_text(names, sep), names[i] + sep + names[i + 1]),
{
    let pair = names[i] + sep + names[i + 1];
    let two = names.subrange(i, i + 2);
    let (a, b) = (names.take(i), names.skip(i + 2));
    assert(two =~= seq![names[i]] + seq![names[i + 1]]);
    joining_separates_neighbours(seq![names[i]], seq![names[i + 1]], names[i], sep);
    joining_separates_neighbours(seq![names[i]], seq![names[i + 1]], names[i + 1], sep);
    assert(join_text(two, sep) =~= pair);
    joining_separates_neighbours(two, b, names[i], sep);
    let tail = if b.len() > 0 {
        sep + join_text(b, sep)
    } else {
        Seq::empty()
    };
    assert(join_text(two + b, sep) =~= pair + tail) by {
        if b.len() == 0 {
            assert(two + b =~= two);
        }
    }
    joining_separates_neighbours(a, two + b, names[i], sep);
    let head = if a.len() > 0 {
        join_text(a, sep) + sep
    } else {
        Seq::empty()
    };
    assert(names =~= a + (two + b));
    assert(join_text(names, sep) =~= head + pair + tail) by {
        if a.len() == 0 {
            assert(a + (two + b) =~= two + b);
        }
    }
    lemma_part(head, pair, tail);
}

// ---------------------------------------------------------------------
// Trees
// ---------------------------------------------------------------------
/// A question about a pid is about its live process, if it has one, else about
/// the latest; it is about nothing only where the pid was never recorded.
pub proof fn a_question_is_about_the_living(g: GraphModel, pid: i32)
    ensures
        latest_start(g.processes, pid, WhichModel::Live) is Some ==> asked_start(g, pid)
            == latest_start(g.processes, pid, WhichModel::Live),
        latest_start(g.processes, pid, WhichModel::Live) is None ==> asked_start(g, pid)
            == latest_start(g.processes, pid, WhichModel::Any),
{
}

/// A tree is told whole: its root, then a line for each process with its pid,
/// its name and how it was invoked, nearest first. What is no pid is complained
/// about.
pub proof fn a_tree_is_told_whole(g: GraphModel, arg: Seq<char>, pid: i32, start: Seq<char>, k: int)
    ensures
        text_i32(arg) is None <==> tree_said(g, arg) is Complaint,
        text_i32(arg) == Some(pid) && asked_start(g, pid) is None ==> tree_said(g, arg)->Out_0.len()
            == 1,
        text_i32(arg) == Some(pid) && asked_start(g, pid) == Some(start) && process_tree(
            g.processes,
            pid,
            start,
        ).len() > 0 ==> {
            let lines = tree_said(g, arg)->Out_0;
            let tree = process_tree(g.processes, pid, start);
            &&& lines.len() == tree.len() + 1
            &&& has_part(lines[0], int_text(pid as int))
            &&& 0 <= k < tree.len() ==> has_part(lines[k + 1], int_text(tree[k].pid as int))
                && has_part(lines[k + 1], tree[k].comm) && has_part(lines[k + 1], tree[k].cmdline)
        },
{
    if text_i32(arg) == Some(pid) && asked_start(g, pid) == Some(start) {
        let tree = process_tree(g.processes, pid, start);
        let rows = lineage_rows(tree);
        let said = "process tree from pid "@;
        let title = said + int_text(pid as int);
        lemma_part(said, int_text(pid as int), Seq::empty());
        assert(title =~= said + int_text(pid as int) + Seq::empty());
        lemma_painted(BOLD@, title);
        lemma_part_of_part(painted(BOLD@, title), title, int_text(pid as int));
        if 0 <= k < tree.len() {
            lemma_process_line(rows[k]);
            assert(tree_said(g, arg)->Out_0[k + 1] == process_text(rows[k]));
        }
    }
}

#[verifier::spinoff_prover]
proof fn lemma_process_line(p: ProcRowModel)
    ensures
        has_part(process_text(p), int_text(p.pid as int)),
        has_part(process_text(p), p.comm),
        has_part(process_text(p), p.cmdline),
{
    let t = process_text(p);
    let s = "  "@;
    let pid = int_text(p.pid as int);
    let (a, b) = (painted(CYAN@, pid), painted(DIM@, p.cmdline));
    lemma_painted(CYAN@, pid);
    lemma_painted(DIM@, p.cmdline);
    lemma_self(p.comm);
    assert(t =~= s + a + (s + p.comm + s + b));
    lemma_in(t, s, a, s + p.comm + s + b, pid);
    assert(t =~= (s + a + s) + p.comm + (s + b));
    lemma_in(t, s + a + s, p.comm, s + b, p.comm);
    assert(t =~= (s + a + s + p.comm + s) + b + Seq::empty());
    lemma_in(t, s + a + s + p.comm + s, b, Seq::empty(), p.cmdline);
}

// ---------------------------------------------------------------------
// Traces
// ---------------------------------------------------------------------
/// Is the event at `i` the first about its path?
pub open spec fn is_first_about(events: Seq<FileEventModel>, i: int) -> bool {
    0 <= i < events.len() && forall|j: int| 0 <= j < i ==> (#[trigger] events[j]).path != events[i].path
}

/// Did something of this kind happen to the path?
pub open spec fn happened(events: Seq<FileEventModel>, path: Seq<char>, op: Seq<char>) -> bool {
    exists|i: int| 0 <= i < events.len() && (#[trigger] events[i]).path == path && events[i].op == op
}

/// Is the summary right: does it name each thing that happened to the path
/// once and nothing else, and who did the first?
pub open spec fn sums_up(s: PathSummaryModel, events: Seq<FileEventModel>) -> bool {
    &&& forall|op: Seq<char>| #[trigger] s.ops.contains(op) <==> happened(events, s.path, op)
    &&& s.ops.no_duplicates()
    &&& exists|i: int| #[trigger]
        is_first_about(events, i) && events[i].path == s.path && s.by == who_text(events[i])
            && s.ops.len() > 0 && s.ops[0] == events[i].op
}

/// Every summary sums up what happened to its path.
pub proof fn a_summary_sums_up_its_path(events: Seq<FileEventModel>, k: int)
    requires
        0 <= k < summaries(events).len(),
    ensures
        sums_up(summaries(events)[k], events),
    decreases events.len(),
{
    let front = events.drop_last();
    let e = events.last();
    let n = front.len() as int;
    let before = summaries(front);
    assert(events =~= front.push(e));
    assert forall|i: int| 0 <= i < n implies #[trigger] events[i] == front[i] by {}
    if is_summarised(before, e.path) {
        let s = before[k];
        a_summary_sums_up_its_path(front, k);
        assert(summaries(events)[k] == summary_with(s, e));
        lemma_summary_grows(s, front, e);
    } else if k < before.len() {
        let s = before[k];
        a_summary_sums_up_its_path(front, k);
        assert(summaries(events)[k] == s);
        assert(s.path != e.path);
        lemma_summary_grows(s, front, e);
    } else {
        let s = summaries(events)[k];
        crate::report::every_path_is_summarised_once(front);
        assert(s.path == e.path && s.ops == seq![e.op] && s.by == who_text(e));
        assert forall|j: int| 0 <= j < n implies (#[trigger] events[j]).path != e.path by {
            if events[j].path == e.path {
                assert(front[j].path == e.path);
                assert(is_summarised(before, e.path));
            }
        }
        assert(events[n] == e);
        assert(is_first_about(events, n));
        assert(s.ops[0] == e.op);
        assert forall|op: Seq<char>| #[trigger] s.ops.contains(op) <==> happened(events, s.path, op) by {
            if s.ops.contains(op) {
                assert(events[n].path == s.path && events[n].op == op);
            }
            if happened(events, s.path, op) {
                let i = choose|i: int|
                    0 <= i < events.len() && (#[trigger] events[i]).path == s.path && events[i].op
                        == op;
                if i < n {
                    assert(events[i].path != e.path);
                }
                assert(s.ops[0] == op);
            }
        }
    }
}

/// One more event is summed up, too.
proof fn lemma_summary_grows(s: PathSummaryModel, front: Seq<FileEventModel>, e: FileEventModel)
    requires
        sums_up(s, front),
    ensures
        sums_up(summary_with(s, e), front.push(e)),
{
    let events = front.push(e);
    let n = front.len() as int;
    let t = summary_with(s, e);
    assert(events[n] == e);
    let i = choose|i: int| #[trigger]
        is_first_about(front, i) && front[i].path == s.path && s.by == who_text(front[i])
            && s.ops.len() > 0 && s.ops[0] == front[i].op;
    assert forall|j: int| 0 <= j < i implies (#[trigger] events[j]).path != events[i].path by {
        assert(front[j].path != front[i].path);
    }
    assert(is_first_about(events, i));
    assert(t.ops[0] == s.ops[0]);
    assert forall|op: Seq<char>| #[trigger] t.ops.contains(op) <==> happened(events, t.path, op) by {
        assert(happened(events, t.path, op) <==> happened(front, s.path, op) || e.path == s.path && e.op
            == op) by {
            if happened(front, s.path, op) {
                let j = choose|j: int|
                    0 <= j < front.len() && (#[trigger] front[j]).path == s.path && front[j].op == op;
                assert(events[j].path == s.path && events[j].op == op);
            }
            if e.path == s.path && e.op == op {
                assert(events[n].path == s.path && events[n].op == op);
            }
            if happened(events, t.path, op) {
                let j = choose|j: int|
                    0 <= j < events.len() && (#[trigger] events[j]).path == t.path && events[j].op
                        == op;
                if j < n {
                    assert(front[j].path == s.path && front[j].op == op);
                }
            }
        }
        assert(s.ops.contains(op) <==> happened(front, s.path, op));
        if s.path == e.path && !s.ops.contains(e.op) {
            let more = s.ops.push(e.op);
            assert(more[s.ops.len() as int] == e.op);
            if s.ops.contains(op) {
                let m = choose|m: int| 0 <= m < s.ops.len() && s.ops[m] == op;
                assert(more[m] == op);
            }
            if more.contains(op) && op != e.op {
                let m = choose|m: int| 0 <= m < more.len() && more[m] == op;
                assert(s.ops[m] == op);
            }
        }
    }
    if s.path == e.path && !s.ops.contains(e.op) {
        assert(t.ops.no_duplicates()) by {
            assert forall|a: int, b: int| 0 <= a < b < t.ops.len() implies t.ops[a] != t.ops[b] by {
                if b == s.ops.len() {
                    assert(s.ops.contains(s.ops[a]));
                }
            }
        }
    }
    assert(is_first_about(events, i) && events[i].path == t.path && t.by == who_text(events[i])
        && t.ops.len() > 0 && t.ops[0] == events[i].op);
}

/// The line of a path tells the path, everything that happened to it, and who
/// did the first.
#[verifier::spinoff_prover]
pub proof fn a_touched_path_is_told(s: PathSummaryModel, i: int)
    ensures
        has_part(touched_text(s), s.path),
        has_part(touched_text(s), s.by),
        0 <= i < s.ops.len() ==> has_part(touched_text(s), s.ops[i]),
        0 <= i < s.ops.len() - 1 ==> has_part(touched_text(s), s.ops[i] + "+"@ + s.ops[i + 1]),
{
    let t = touched_text(s);
    let (two, one) = ("  "@, " "@);
    let all = join_text(s.ops, "+"@);
    let shown = pad_right(all, 22);
    let (a, b) = (painted(CYAN@, shown), painted(DIM@, s.by));
    lemma_painted(CYAN@, shown);
    lemma_painted(DIM@, s.by);
    lemma_padded(all, 22);
    lemma_self(s.path);
    assert(t =~= two + a + (one + s.path + two + b));
    lemma_in(t, two, a, one + s.path + two + b, shown);
    lemma_part_of_part(t, shown, all);
    assert(t =~= (two + a + one) + s.path + (two + b));
    lemma_in(t, two + a + one, s.path, two + b, s.path);
    assert(t =~= (two + a + one + s.path + two) + b + Seq::empty());
    lemma_in(t, two + a + one + s.path + two, b, Seq::empty(), s.by);
    if 0 <= i < s.ops.len() - 1 {
        lemma_neighbours(s.ops, "+"@, i);
        lemma_part_of_part(t, all, s.ops[i] + "+"@ + s.ops[i + 1]);
    }
    if 0 <= i < s.ops.len() {
        lemma_item(s.ops, "+"@, i);
        lemma_part_of_part(t, all, s.ops[i]);
    }
}

/// Every item stands in what is joined.
proof fn lemma_item(names: Seq<Seq<char>>, sep: Seq<char>, i: int)
    requires
        0 <= i < names.len(),
    ensures
        has_part(join_text(names, sep), names[i]),
{
    if i < names.len() - 1 {
        lemma_neighbours(names, sep, i);
        lemma_part(Seq::empty(), names[i], sep + names[i + 1]);
        assert(Seq::empty() + names[i] + (sep + names[i + 1]) =~= names[i] + sep + names[i + 1]);
        lemma_part_of_part(join_text(names, sep), names[i] + sep + names[i + 1], names[i]);
    } else if i > 0 {
        lemma_neighbours(names, sep, i - 1);
        lemma_part(names[i - 1] + sep, names[i], Seq::empty());
        assert(names[i - 1] + sep + names[i] + Seq::empty() =~= names[i - 1] + sep + names[i]);
        lemma_part_of_part(join_text(names, sep), names[i - 1] + sep + names[i], names[i]);
    } else {
        assert(names =~= seq![names[0]]);
        lemma_self(names[0]);
    }
}

/// The line about a traced command tells its words, its exit, how long it ran,
/// and its pid.
#[verifier::spinoff_prover]
pub proof fn a_trace_tells_the_command(
    argv: Seq<Seq<char>>,
    code: Seq<char>,
    elapsed: Seq<char>,
    pid: i32,
    i: int,
)
    ensures
        0 <= i < argv.len() ==> has_part(traced_text(argv, code, elapsed, pid), argv[i]),
        0 <= i < argv.len() - 1 ==> has_part(
            traced_text(argv, code, elapsed, pid),
            argv[i] + " "@ + argv[i + 1],
        ),
        has_part(traced_text(argv, code, elapsed, pid), "exit "@ + code),
        has_part(traced_text(argv, code, elapsed, pid), elapsed + "s"@),
        has_part(traced_text(argv, code, elapsed, pid), "pid "@ + int_text(pid as int)),
{
    let t = traced_text(argv, code, elapsed, pid);
    let all = join_text(argv, " "@);
    let front = "\n"@ + painted(BOLD@, "traced"@) + " "@;
    let p = int_text(pid as int);
    reveal_strlit("s, pid ");
    reveal_strlit("s");
    reveal_strlit("pid ");
    let detail = "exit "@ + code + ", "@ + elapsed + "s, pid "@ + p;
    let d = painted(DIM@, detail);
    lemma_painted(DIM@, detail);
    lemma_self(all);
    assert(t =~= front + all + ("  "@ + d));
    lemma_in(t, front, all, "  "@ + d, all);
    assert(t =~= (front + all + "  "@) + d + Seq::empty());
    lemma_in(t, front + all + "  "@, d, Seq::empty(), detail);
    lemma_part(Seq::empty(), "exit "@ + code, ", "@ + elapsed + "s, pid "@ + p);
    assert(detail =~= Seq::empty() + ("exit "@ + code) + (", "@ + elapsed + "s, pid "@ + p));
    lemma_part_of_part(t, detail, "exit "@ + code);
    assert("s, pid "@ =~= "s"@ + seq![',', ' '] + "pid "@);
    lemma_part("exit "@ + code + ", "@, elapsed + "s"@, seq![',', ' '] + "pid "@ + p);
    assert(detail =~= ("exit "@ + code + ", "@) + (elapsed + "s"@) + (seq![',', ' '] + "pid "@ + p));
    lemma_part_of_part(t, detail, elapsed + "s"@);
    lemma_part("exit "@ + code + ", "@ + elapsed + "s"@ + seq![',', ' '], "pid "@ + p, Seq::empty());
    assert(detail =~= ("exit "@ + code + ", "@ + elapsed + "s"@ + seq![',', ' ']) + ("pid "@ + p)
        + Seq::empty());
    lemma_part_of_part(t, detail, "pid "@ + p);
    if 0 <= i < argv.len() {
        lemma_item(argv, " "@, i);
        lemma_part_of_part(t, all, argv[i]);
    }
    if 0 <= i < argv.len() - 1 {
        lemma_neighbours(argv, " "@, i);
        lemma_part_of_part(t, all, argv[i] + " "@ + argv[i + 1]);
    }
}

/// What a command touched is told whole: how many paths by how many processes,
/// a line for each path, and how to undo it.
#[verifier::spinoff_prover]
pub proof fn a_manifest_is_told_whole(g: GraphModel, pid: i32, start: Seq<char>, k: int)
    ensures
        ({
            let lines = manifest_lines(g, pid, start);
            let events = manifest(g, pid, start);
            let paths = summaries(events);
            let procs = process_tree(g.processes, pid, start).len();
            &&& events.len() == 0 ==> lines.len() == 1 && has_part(
                lines[0],
                nat_text(procs) + " processes"@,
            )
            &&& events.len() > 0 ==> {
                &&& lines.len() == paths.len() + 2
                &&& has_part(lines[0], nat_text(paths.len()))
                &&& has_part(lines[0], nat_text(procs))
                &&& 0 <= k < paths.len() ==> lines[k + 1] == touched_text(paths[k])
                &&& has_part(lines.last(), "chronicle revert "@ + int_text(pid as int))
            }
        }),
{
    let lines = manifest_lines(g, pid, start);
    let events = manifest(g, pid, start);
    let paths = summaries(events);
    let procs = process_tree(g.processes, pid, start).len();
    if events.len() == 0 {
        reveal_strlit(" processes)");
        reveal_strlit(" processes");
        let inner = "("@ + nat_text(procs) + " processes)"@;
        let part = nat_text(procs) + " processes"@;
        assert(" processes)"@ =~= " processes"@ + seq![')']);
        lemma_part("("@, part, seq![')']);
        assert(inner =~= "("@ + part + seq![')']);
        lemma_painted(DIM@, inner);
        lemma_part_of_part(painted(DIM@, inner), inner, part);
        let front = "  "@ + painted(DIM@, "no recorded writes"@) + "  "@;
        assert(lines[0] =~= front + painted(DIM@, inner) + Seq::empty());
        lemma_in(lines[0], front, painted(DIM@, inner), Seq::empty(), part);
    } else {
        let (a, b) = (painted(BOLD@, nat_text(paths.len())), painted(BOLD@, nat_text(procs)));
        let (s, m, z) = ("  "@, " paths touched by "@, " processes\n"@);
        lemma_painted(BOLD@, nat_text(paths.len()));
        lemma_painted(BOLD@, nat_text(procs));
        assert(lines[0] =~= s + a + (m + b + z));
        lemma_in(lines[0], s, a, m + b + z, nat_text(paths.len()));
        assert(lines[0] =~= (s + a + m) + b + z);
        lemma_in(lines[0], s + a + m, b, z, nat_text(procs));
        reveal_strlit("undo:  chronicle revert ");
        reveal_strlit("undo:  ");
        reveal_strlit("chronicle revert ");
        let p = int_text(pid as int);
        let hint = "undo:  chronicle revert "@ + p + " --snap <dir> --live <dir>"@;
        let part = "chronicle revert "@ + p;
        assert("undo:  chronicle revert "@ =~= "undo:  "@ + "chronicle revert "@);
        lemma_part("undo:  "@, part, " --snap <dir> --live <dir>"@);
        assert(hint =~= "undo:  "@ + part + " --snap <dir> --live <dir>"@);
        lemma_painted(DIM@, hint);
        lemma_part_of_part(painted(DIM@, hint), hint, part);
        assert(lines.last() =~= "\n  "@ + painted(DIM@, hint) + Seq::empty());
        lemma_in(lines.last(), "\n  "@, painted(DIM@, hint), Seq::empty(), part);
    }
}

// ---------------------------------------------------------------------
// Undoing
// ---------------------------------------------------------------------
/// What is undone is what the latest process of the pid and its descendants
/// wrote, all of it. There is nothing to undo exactly if the argument is no
/// pid, if the pid was never recorded, or if it wrote nothing.
pub proof fn an_undo_is_of_the_whole_manifest(g: GraphModel, arg: Seq<char>)
    ensures
        undo_of(g, arg) matches UndoModel::Go { pid, events } ==> {
            &&& text_i32(arg) == Some(pid)
            &&& events.len() > 0
            &&& latest_start(g.processes, pid, WhichModel::Any) is Some
            &&& events == manifest(g, pid, latest_start(g.processes, pid, WhichModel::Any)->0)
        },
        undo_of(g, arg) is Stop ==> match text_i32(arg) {
            None => true,
            Some(pid) => match latest_start(g.processes, pid, WhichModel::Any) {
                None => true,
                Some(start) => manifest(g, pid, start).len() == 0,
            },
        },
{
}

/// The line of a step tells the path, and what is to be done with it: from
/// which snapshot it is restored, or why it is left alone. The three kinds
/// look different.
#[verifier::spinoff_prover]
pub proof fn a_step_is_told(s: StepModel, snap_root: Seq<char>)
    ensures
        has_part(step_text(s, snap_root), s.path()),
        s matches StepModel::Restore { path, from } ==> has_part(
            step_text(s, snap_root),
            "from "@ + snapshot_of(from, snap_root),
        ) && has_part(step_text(s, snap_root), "restore"@),
        s is Remove ==> has_part(step_text(s, snap_root), "remove"@),
        s matches StepModel::Skip { path, why } ==> has_part(step_text(s, snap_root), why) && has_part(
            step_text(s, snap_root),
            "skip"@,
        ),
{
    let t = step_text(s, snap_root);
    let two = "  "@;
    match s {
        StepModel::Restore { path, from } => {
            let a = painted(CYAN@, "restore"@);
            let inner = "from "@ + snapshot_of(from, snap_root);
            let b = painted(DIM@, inner);
            lemma_painted(CYAN@, "restore"@);
            lemma_painted(DIM@, inner);
            lemma_self(path);
            assert(t =~= two + a + (two + path + two + b));
            lemma_in(t, two, a, two + path + two + b, "restore"@);
            assert(t =~= (two + a + two) + path + (two + b));
            lemma_in(t, two + a + two, path, two + b, path);
            assert(t =~= (two + a + two + path + two) + b + Seq::empty());
            lemma_in(t, two + a + two + path + two, b, Seq::empty(), inner);
        },
        StepModel::Remove { path } => {
            let a = painted(YELLOW@, "remove "@);
            let b = painted(DIM@, "(created by this command)"@);
            lemma_painted(YELLOW@, "remove "@);
            reveal_strlit("remove ");
            reveal_strlit("remove");
            lemma_part(Seq::empty(), "remove"@, seq![' ']);
            assert("remove "@ =~= Seq::empty() + "remove"@ + seq![' ']);
            lemma_part_of_part(a, "remove "@, "remove"@);
            lemma_self(path);
            assert(t =~= two + a + (two + path + two + b));
            lemma_in(t, two, a, two + path + two + b, "remove"@);
            assert(t =~= (two + a + two) + path + (two + b));
            lemma_in(t, two + a + two, path, two + b, path);
        },
        StepModel::Skip { path, why } => {
            let inner = "skip    "@ + path + "  — "@ + why;
            lemma_painted(DIM@, inner);
            reveal_strlit("skip    ");
            reveal_strlit("skip");
            lemma_part(Seq::empty(), "skip"@, seq![' ', ' ', ' ', ' '] + path + "  — "@ + why);
            assert("skip    "@ =~= "skip"@ + seq![' ', ' ', ' ', ' ']);
            assert(inner =~= Seq::empty() + "skip"@ + (seq![' ', ' ', ' ', ' '] + path + "  — "@
                + why));
            lemma_part("skip    "@, path, "  — "@ + why);
            assert(inner =~= "skip    "@ + path + ("  — "@ + why));
            lemma_part("skip    "@ + path + "  — "@, why, Seq::empty());
            assert(inner =~= ("skip    "@ + path + "  — "@) + why + Seq::empty());
            assert(t =~= two + painted(DIM@, inner) + Seq::empty());
            lemma_in(t, two, painted(DIM@, inner), Seq::empty(), inner);
            lemma_part_of_part(t, inner, "skip"@);
            lemma_part_of_part(t, inner, path);
            lemma_part_of_part(t, inner, why);
        },
    }
}

/// Every step is counted once, as what it is.
pub proof fn every_step_is_counted(steps: Seq<StepModel>, s: StepModel)
    ensures
        count_restores(steps) + count_removes(steps) + count_skips(steps) == steps.len(),
        count_restores(steps.push(s)) == count_restores(steps) + if s is Restore {
            1nat
        } else {
            0nat
        },
        count_removes(steps.push(s)) == count_removes(steps) + if s is Remove {
            1nat
        } else {
            0nat
        },
        count_skips(steps.push(s)) == count_skips(steps) + if s is Skip {
            1nat
        } else {
            0nat
        },
    decreases steps.len(),
{
    reveal(Seq::filter);
    assert(steps.push(s).drop_last() =~= steps);
    if steps.len() > 0 {
        every_step_is_counted(steps.drop_last(), s);
    }
}

/// A plan is told whole: a line for each step, in order, and how many there
/// are of each kind. A dry run says so besides.
#[verifier::spinoff_prover]
pub proof fn a_plan_is_told_whole(
    steps: Seq<StepModel>,
    snap_root: Seq<char>,
    pid: i32,
    apply: bool,
    k: int,
)
    ensures
        ({
            let lines = plan_lines(steps, snap_root, pid, apply);
            let n = steps.len() as int;
            &&& lines.len() == n + if apply {
                2int
            } else {
                3int
            }
            &&& has_part(lines[0], "pid "@ + int_text(pid as int))
            &&& 0 <= k < n ==> lines[k + 1] == step_text(steps[k], snap_root)
            &&& has_part(lines[n + 1], nat_text(count_restores(steps)) + " to restore"@)
            &&& has_part(lines[n + 1], nat_text(count_removes(steps)) + " to remove"@)
            &&& has_part(lines[n + 1], nat_text(count_skips(steps)) + " skipped"@)
            &&& !apply ==> has_part(lines[0], "dry run"@)
        }),
{
    let lines = plan_lines(steps, snap_root, pid, apply);
    let n = steps.len() as int;
    let p = int_text(pid as int);
    let word = if apply {
        "applying"@
    } else {
        "dry run —"@
    };
    let paint = painted(BOLD@, word);
    lemma_plan_words();
    lemma_painted(BOLD@, word);
    lemma_title("\n"@, paint, " undo plan for "@, "pid "@, p);
    assert(lines[0] == "\n"@ + paint + " undo plan for pid "@ + p + "\n"@);
    if !apply {
        lemma_part(Seq::empty(), "dry run"@, seq![' ', '—']);
        lemma_part_of_part(paint, word, "dry run"@);
        lemma_part_of_part(lines[0], paint, "dry run"@);
    }
    let (a, b, c) = (
        nat_text(count_restores(steps)),
        nat_text(count_removes(steps)),
        nat_text(count_skips(steps)),
    );
    let tally = "\n  "@ + a + " to restore, "@ + b + " to remove, "@ + c + " skipped"@;
    lemma_tally("\n  "@, a, " to restore"@, seq![',', ' '], b, " to remove"@, c, " skipped"@);
    assert(lines[n + 1] == tally);
}

/// The words of a plan's title and tally, taken apart.
proof fn lemma_plan_words()
    ensures
        " undo plan for pid "@ == " undo plan for "@ + "pid "@,
        "dry run —"@ == Seq::empty() + "dry run"@ + seq![' ', '—'],
        " to restore, "@ == " to restore"@ + seq![',', ' '],
        " to remove, "@ == " to remove"@ + seq![',', ' '],
{
    assert(" undo plan for pid "@ =~= " undo plan for "@ + "pid "@) by {
        reveal_strlit(" undo plan for pid ");
        reveal_strlit(" undo plan for ");
        reveal_strlit("pid ");
    }
    assert("dry run —"@ =~= Seq::empty() + "dry run"@ + seq![' ', '—']) by {
        reveal_strlit("dry run —");
        reveal_strlit("dry run");
    }
    assert(" to restore, "@ =~= " to restore"@ + seq![',', ' ']) by {
        reveal_strlit(" to restore, ");
        reveal_strlit(" to restore");
    }
    assert(" to remove, "@ =~= " to remove"@ + seq![',', ' ']) by {
        reveal_strlit(" to remove, ");
        reveal_strlit(" to remove");
    }
}

#[verifier::spinoff_prover]
proof fn lemma_title(nl: Seq<char>, paint: Seq<char>, undo: Seq<char>, word: Seq<char>, p: Seq<char>)
    ensures
        has_part(nl + paint + (undo + word) + p + nl, paint),
        has_part(nl + paint + (undo + word) + p + nl, word + p),
{
    let t = nl + paint + (undo + word) + p + nl;
    lemma_part(nl, paint, undo + word + p + nl);
    assert(t =~= nl + paint + (undo + word + p + nl));
    lemma_part(nl + paint + undo, word + p, nl);
    assert(t =~= (nl + paint + undo) + (word + p) + nl);
}

#[verifier::spinoff_prover]
proof fn lemma_tally(
    nl: Seq<char>,
    a: Seq<char>,
    wa: Seq<char>,
    comma: Seq<char>,
    b: Seq<char>,
    wb: Seq<char>,
    c: Seq<char>,
    wc: Seq<char>,
)
    ensures
        ({
            let t = nl + a + (wa + comma) + b + (wb + comma) + c + wc;
            has_part(t, a + wa) && has_part(t, b + wb) && has_part(t, c + wc)
        }),
{
    let one = nl + a + (wa + comma);
    let two = one + b + (wb + comma);
    lemma_counted_part(nl, a, wa, comma);
    lemma_counted_part(one, b, wb, comma);
    lemma_counted_part(two, c, wc, Seq::empty());
    lemma_goes_on(one, b, a + wa);
    lemma_goes_on(one + b, wb + comma, a + wa);
    lemma_goes_on(two, c, a + wa);
    lemma_goes_on(two + c, wc, a + wa);
    lemma_goes_on(two, c, b + wb);
    lemma_goes_on(two + c, wc, b + wb);
    assert(wc + Seq::empty() =~= wc);
}

/// A step that was done is applied, and one that failed has failed. Only a
/// removal can find nothing, which is what it is for, or a directory in use,
/// which it keeps.
pub proof fn an_outcome_is_what_became_of_the_step(s: StepModel, a: Attempt)
    ensures
        outcome_of(s, Attempt::Done) == Outcome::Applied,
        outcome_of(s, Attempt::Failed) == Outcome::Failed,
        outcome_of(s, a) == Outcome::Kept <==> s is Remove && a == Attempt::NotEmpty,
        !(s is Remove) && a != Attempt::Done ==> outcome_of(s, a) == Outcome::Failed,
        s is Remove && a == Attempt::NotFound ==> outcome_of(s, a) == Outcome::Applied,
{
}

/// Every outcome is counted once, as what it is, and the closing line gives
/// the counts. What was kept is spoken of only where something was.
#[verifier::spinoff_prover]
pub proof fn every_outcome_is_counted(list: Seq<Outcome>, o: Outcome, x: Outcome)
    ensures
        count_outcome(list.push(x), o) == count_outcome(list, o) + if x == o {
            1nat
        } else {
            0nat
        },
        count_outcome(Seq::empty(), o) == 0,
        has_part(result_text(list), nat_text(count_outcome(list, Outcome::Applied)) + " applied"@),
        has_part(result_text(list), nat_text(count_outcome(list, Outcome::Failed)) + " failed"@),
        count_outcome(list, Outcome::Kept) > 0 ==> has_part(
            result_text(list),
            nat_text(count_outcome(list, Outcome::Kept)) + " kept"@,
        ),
{
    lemma_counted(list, o, x);
    let (a, k, f) = (
        nat_text(count_outcome(list, Outcome::Applied)),
        nat_text(count_outcome(list, Outcome::Kept)),
        nat_text(count_outcome(list, Outcome::Failed)),
    );
    lemma_result_words();
    lemma_result("  "@, a, " applied"@, seq![',', ' '], k, " kept"@, f, " failed"@);
}

proof fn lemma_result_words()
    ensures
        " applied, "@ == " applied"@ + seq![',', ' '],
        " kept, "@ == " kept"@ + seq![',', ' '],
{
    assert(" applied, "@ =~= " applied"@ + seq![',', ' ']) by {
        reveal_strlit(" applied, ");
        reveal_strlit(" applied");
    }
    assert(" kept, "@ =~= " kept"@ + seq![',', ' ']) by {
        reveal_strlit(" kept, ");
        reveal_strlit(" kept");
    }
}

#[verifier::spinoff_prover]
proof fn lemma_result(
    nl: Seq<char>,
    a: Seq<char>,
    wa: Seq<char>,
    comma: Seq<char>,
    b: Seq<char>,
    wb: Seq<char>,
    c: Seq<char>,
    wc: Seq<char>,
)
    ensures
        ({
            let t = nl + a + (wa + comma) + (b + (wb + comma)) + c + wc;
            has_part(t, a + wa) && has_part(t, b + wb) && has_part(t, c + wc)
        }),
        ({
            let t = nl + a + (wa + comma) + Seq::empty() + c + wc;
            has_part(t, a + wa) && has_part(t, c + wc)
        }),
{
    let one = nl + a + (wa + comma);
    lemma_tally(nl, a, wa, comma, b, wb, c, wc);
    assert(one + (b + (wb + comma)) =~= one + b + (wb + comma));
    assert(one + Seq::empty() =~= one);
    lemma_counted_part(nl, a, wa, comma);
    lemma_counted_part(one, c, wc, Seq::empty());
    lemma_goes_on(one, c, a + wa);
    lemma_goes_on(one + c, wc, a + wa);
    assert(wc + Seq::empty() =~= wc);
}

/// A count and its word stand next to each other.
proof fn lemma_counted_part(s: Seq<char>, a: Seq<char>, wa: Seq<char>, comma: Seq<char>)
    ensures
        has_part(s + a + (wa + comma), a + wa),
{
    lemma_part(s, a + wa, comma);
    assert(s + a + (wa + comma) =~= s + (a + wa) + comma);
}

/// A part stays one where the text goes on.
proof fn lemma_goes_on(s: Seq<char>, more: Seq<char>, part: Seq<char>)
    requires
        has_part(s, part),
    ensures
        has_part(s + more, part),
{
    lemma_part(Seq::empty(), s, more);
    assert(Seq::empty() + s + more =~= s + more);
    lemma_part_of_part(s + more, s, part);
}

proof fn lemma_counted(list: Seq<Outcome>, o: Outcome, x: Outcome)
    ensures
        count_outcome(list.push(x), o) == count_outcome(list, o) + if x == o {
            1nat
        } else {
            0nat
        },
        count_outcome(Seq::empty(), o) == 0,
{
    reveal(Seq::filter);
    assert(list.push(x).drop_last() =~= list);
}

/// The size of a graph is told as it is: where it is stored, how many
/// processes, how many events.
#[verifier::spinoff_prover]
pub proof fn a_size_is_told(g: GraphModel, db: Seq<char>)
    ensures
        stat_lines(g, db).len() == 3,
        has_part(stat_lines(g, db)[0], db),
        has_part(stat_lines(g, db)[1], "processes  "@ + nat_text(g.processes.len())),
        has_part(stat_lines(g, db)[2], "events     "@ + nat_text(g.events.len())),
{
    let lines = stat_lines(g, db);
    let front = painted(BOLD@, "graph"@) + "   "@;
    let two = seq![' ', ' '];
    let (p, e) = (nat_text(g.processes.len()), nat_text(g.events.len()));
    lemma_part(front, db, Seq::empty());
    assert(lines[0] =~= front + db + Seq::empty());
    assert("  processes  "@ =~= two + "processes  "@) by {
        reveal_strlit("  processes  ");
        reveal_strlit("processes  ");
    }
    assert("  events     "@ =~= two + "events     "@) by {
        reveal_strlit("  events     ");
        reveal_strlit("events     ");
    }
    lemma_count_line(two, "processes  "@, p);
    lemma_count_line(two, "events     "@, e);
}

#[verifier::spinoff_prover]
proof fn lemma_count_line(a: Seq<char>, word: Seq<char>, n: Seq<char>)
    ensures
        has_part(a + word + n, word + n),
{
    lemma_part(a, word + n, Seq::empty());
    assert(a + word + n =~= a + (word + n) + Seq::empty());
}

/// Blame explains the last writer by the chain of its ancestors.
pub proof fn blame_explains_the_last_writer(g: GraphModel, path: Seq<char>, start: Seq<char>)
    requires
        history(g, path).len() > 0,
        history(g, path).last().proc_start == Some(start),
    ensures
        blame_lines(g, path).skip(2) == because_lines(
            lineage_rows(ancestors(g.processes, history(g, path).last().pid, start)),
        ),
{
    let why = because_lines(
        lineage_rows(ancestors(g.processes, history(g, path).last().pid, start)),
    );
    assert(blame_lines(g, path).skip(2) =~= why);
}

/// What cannot be answered is said of the very thing that was asked.
pub proof fn a_complaint_names_what_was_asked(g: GraphModel, arg: Seq<char>, pid: i32)
    ensures
        text_i32(arg) is None ==> {
            &&& tree_said(g, arg) matches SaidModel::Complaint(t) && has_part(t, arg)
            &&& undo_of(g, arg) matches UndoModel::Stop(SaidModel::Complaint(t)) && has_part(t, arg)
        },
        text_i32(arg) == Some(pid) && latest_start(g.processes, pid, WhichModel::Any) is None ==> (
        undo_of(g, arg) matches UndoModel::Stop(SaidModel::Complaint(t)) && has_part(
            t,
            int_text(pid as int),
        )),
        text_i32(arg) == Some(pid) && asked_start(g, pid) is None ==> (tree_said(
            g,
            arg,
        ) matches SaidModel::Out(lines) && has_part(lines[0], int_text(pid as int))),
{
    let p = int_text(pid as int);
    lemma_behind("not a pid: "@, arg);
    lemma_behind("no process recorded with pid "@, p);
    lemma_behind("no live process recorded with pid "@, p);
}

proof fn lemma_behind(a: Seq<char>, part: Seq<char>)
    ensures
        has_part(a + part, part),
{
    lemma_part(a, part, Seq::empty());
    assert(a + part + Seq::empty() =~= a + part);
}

/// Paths are told in the order in which they were first touched.
pub proof fn paths_are_told_in_order(events: Seq<FileEventModel>, i: int, j: int)
    requires
        0 <= i < j < summaries(events).len(),
    ensures
        exists|a: int, b: int|
            #![trigger is_first_about(events, a), is_first_about(events, b)]
            a < b && is_first_about(events, a) && is_first_about(events, b) && events[a].path
                == summaries(events)[i].path && events[b].path == summaries(events)[j].path,
    decreases events.len(),
{
    let front = events.drop_last();
    let e = events.last();
    let n = front.len() as int;
    let before = summaries(front);
    let all = summaries(events);
    a_summary_sums_up_its_path(events, i);
    a_summary_sums_up_its_path(events, j);
    let a = choose|a: int| #[trigger]
        is_first_about(events, a) && events[a].path == all[i].path && all[i].by == who_text(events[a])
            && all[i].ops.len() > 0 && all[i].ops[0] == events[a].op;
    let b = choose|b: int| #[trigger]
        is_first_about(events, b) && events[b].path == all[j].path && all[j].by == who_text(events[b])
            && all[j].ops.len() > 0 && all[j].ops[0] == events[b].op;
    assert(a < b) by {
        assert forall|k: int| 0 <= k < n implies #[trigger] events[k] == front[k] by {}
        if j < before.len() {
            paths_are_told_in_order(front, i, j);
            let (c, d) = choose|c: int, d: int|
                #![trigger is_first_about(front, c), is_first_about(front, d)]
                c < d && is_first_about(front, c) && is_first_about(front, d) && front[c].path
                    == before[i].path && front[d].path == before[j].path;
            assert(all[i].path == before[i].path && all[j].path == before[j].path);
            lemma_same_first(events, a, c);
            lemma_same_first(events, b, d);
        } else {
            crate::report::every_path_is_summarised_once(front);
            assert(all[j].path == e.path);
            assert(all[i] == before[i]);
            assert(before[i].path == all[i].path);
            assert(is_summarised(before, all[i].path));
            let k = choose|k: int| 0 <= k < front.len() && (#[trigger] front[k]).path == all[i].path;
            assert(events[k].path == events[a].path);
            if a > k {
                assert(events[k].path != events[a].path);
            }
            if b < n {
                assert(front[b].path == e.path);
                assert(is_summarised(before, e.path));
            }
        }
    }
    assert(is_first_about(events, a) && is_first_about(events, b));
}

/// A path is first touched once.
proof fn lemma_same_first(events: Seq<FileEventModel>, a: int, c: int)
    requires
        is_first_about(events, a),
        is_first_about(events.drop_last(), c),
        events.drop_last()[c].path == events[a].path,
    ensures
        a == c,
{
    let front = events.drop_last();
    assert(events[c] == front[c]);
    if a < c {
        assert(front[a] == events[a]);
        assert(front[a].path != front[c].path);
    } else if c < a {
        assert(events[c].path != events[a].path);
    }
}

/// Painted text stands between a terminal's codes: the one for its paint, and
/// the one that ends every paint.
pub proof fn paints_are_the_terminals(s: Seq<char>)
    ensures
        painted(DIM@, s) == seq!['\x1b', '[', '2', 'm'] + s + seq!['\x1b', '[', '0', 'm'],
        painted(BOLD@, s) == seq!['\x1b', '[', '1', 'm'] + s + seq!['\x1b', '[', '0', 'm'],
        painted(CYAN@, s) == seq!['\x1b', '[', '3', '6', 'm'] + s + seq!['\x1b', '[', '0', 'm'],
        painted(YELLOW@, s) == seq!['\x1b', '[', '3', '3', 'm'] + s + seq!['\x1b', '[', '0', 'm'],
{
    reveal_strlit("\x1b[2m");
    reveal_strlit("\x1b[1m");
    reveal_strlit("\x1b[36m");
    reveal_strlit("\x1b[33m");
    reveal_strlit("\x1b[0m");
    assert(DIM@ =~= seq!['\x1b', '[', '2', 'm']);
    assert(BOLD@ =~= seq!['\x1b', '[', '1', 'm']);
    assert(CYAN@ =~= seq!['\x1b', '[', '3', '6', 'm']);
    assert(YELLOW@ =~= seq!['\x1b', '[', '3', '3', 'm']);
    assert(RESET@ =~= seq!['\x1b', '[', '0', 'm']);
}

} // verus!
