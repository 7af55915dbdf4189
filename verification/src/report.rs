//! What the query tool says: lines of text about the graph, about a traced
//! command, and about undoing one.
use crate::graph::{
    event_models, latest_start, row_models, FileEvent, FileEventModel, Graph, GraphModel, ProcRow,
    ProcRowModel, WhichModel,
};
use crate::history::history;
use crate::lineage::{ancestors, lineage_rows, manifest, process_tree};
use crate::number::{i64_text, int_text, nat_text, parse_i32, text_i32, u64_text};
use crate::path::{
    after_components, component_spans, components, is_within, span_ints, spans, spans_bounds,
    strip_base,
};
use crate::revert::{step_models, Step, StepModel};
use crate::text::{
    chars_of, join_text, joined, no_text, pad_right, padded, same_text, string_of, texts,
};
use vstd::prelude::*;
use vstd::string::*;

verus! {

pub const DIM: &'static str = "\x1b[2m";

pub const BOLD: &'static str = "\x1b[1m";

pub const CYAN: &'static str = "\x1b[36m";

pub const YELLOW: &'static str = "\x1b[33m";

pub const RESET: &'static str = "\x1b[0m";

// ---------------------------------------------------------------------
// Pieces of lines
// ---------------------------------------------------------------------
/// A text in a colour.
pub open spec fn painted(colour: Seq<char>, s: Seq<char>) -> Seq<char> {
    colour + s + RESET@
}

fn paint(colour: &str, s: &str) -> (r: String)
    ensures
        r@ == painted(colour@, s@),
{
    let mut out = colour.to_string();
    out.append(s);
    out.append(RESET);
    out
}

/// What is written on the two output streams.
#[derive(Debug, Clone)]
pub enum Said {
    /// Lines on the standard output.
    Out(Vec<String>),
    /// A message on the error output.
    Complaint(String),
}

/// The plain values of [`Said`].
#[verifier::ext_equal]
pub enum SaidModel {
    Out(Seq<Seq<char>>),
    Complaint(Seq<char>),
}

impl View for Said {
    type V = SaidModel;

    open spec fn view(&self) -> SaidModel {
        match *self {
            Said::Out(lines) => SaidModel::Out(texts(lines@)),
            Said::Complaint(text) => SaidModel::Complaint(text@),
        }
    }
}

fn one_line(text: String) -> (r: Vec<String>)
    ensures
        texts(r@) == seq![text@],
        r@.len() == 1,
        r@[0]@ == text@,
{
    let mut out: Vec<String> = Vec::new();
    out.push(text);
    assert(texts(out@) =~= seq![text@]);
    out
}

// ---------------------------------------------------------------------
// Events
// ---------------------------------------------------------------------
/// Who wrote. A writer without a name is shown loudly, and a known process
/// that went before its name could be read is told apart from a write that
/// nothing in the graph accounts for.
pub open spec fn who_text(e: FileEventModel) -> Seq<char> {
    if e.comm.len() > 0 {
        e.comm
    } else if e.exe.len() > 0 {
        e.exe
    } else if e.proc_start is Some {
        painted(YELLOW@, "<unnamed>"@)
    } else {
        painted(YELLOW@, "<unattributed>"@)
    }
}

/// Who wrote.
pub fn who(e: &FileEvent) -> (r: String)
    ensures
        r@ == who_text(e@),
{
    if !no_text(e.comm.as_str()) {
        return e.comm.clone();
    }
    if !no_text(e.exe.as_str()) {
        return e.exe.clone();
    }
    if e.proc_start.is_some() {
        paint(YELLOW, "<unnamed>")
    } else {
        paint(YELLOW, "<unattributed>")
    }
}

/// The line of an event.
pub open spec fn event_text(e: FileEventModel) -> Seq<char> {
    "  "@ + painted(CYAN@, e.ts) + "  "@ + pad_right(e.op, 12) + " "@ + who_text(e) + "  "@ + painted(
        DIM@,
        "pid "@ + int_text(e.pid as int),
    ) + (if e.cmdline.len() == 0 {
        Seq::empty()
    } else {
        "  "@ + painted(DIM@, e.cmdline)
    })
}

fn pid_text(pid: i32) -> (r: String)
    ensures
        r@ == "pid "@ + int_text(pid as int),
{
    let mut out = "pid ".to_string();
    out.append(i64_text(pid as i64).as_str());
    out
}

/// The line of an event.
pub fn event_line(e: &FileEvent) -> (r: String)
    ensures
        r@ == event_text(e@),
{
    let mut out = "  ".to_string();
    out.append(paint(CYAN, e.ts.as_str()).as_str());
    out.append("  ");
    out.append(padded(e.op.as_str(), 12).as_str());
    out.append(" ");
    out.append(who(e).as_str());
    out.append("  ");
    out.append(paint(DIM, pid_text(e.pid).as_str()).as_str());
    let ghost front = out@;
    if !no_text(e.cmdline.as_str()) {
        let mut detail = "  ".to_string();
        detail.append(paint(DIM, e.cmdline.as_str()).as_str());
        out.append(detail.as_str());
    } else {
        assert(front + Seq::empty() =~= front);
    }
    out
}

/// What is said of a path without a history.
pub open spec fn no_history_text(path: Seq<char>) -> Seq<char> {
    "no recorded history for "@ + path
}

fn no_history(path: &str) -> (r: String)
    ensures
        r@ == no_history_text(path@),
{
    let mut out = "no recorded history for ".to_string();
    out.append(path);
    out
}

/// What is said about the history of a path.
pub open spec fn log_lines(g: GraphModel, path: Seq<char>) -> Seq<Seq<char>> {
    let events = history(g, path);
    if events.len() == 0 {
        seq![no_history_text(path)]
    } else {
        seq![painted(BOLD@, path)] + events.map_values(|e: FileEventModel| event_text(e))
    }
}

/// The full history of a file.
pub fn log_report(g: &Graph, path: &str) -> (r: Vec<String>)
    ensures
        texts(r@) == log_lines(g@, path@),
{
    let events = g.log_file(path);
    assert(event_models(events@).len() == events@.len());
    if events.len() == 0 {
        return one_line(no_history(path));
    }
    let mut out = one_line(paint(BOLD, path));
    let mut i: usize = 0;
    while i < events.len()
        invariant
            i <= events@.len(),
            out@.len() == i + 1,
            out@[0]@ == painted(BOLD@, path@),
            forall|k: int| 0 <= k < i ==> (#[trigger] out@[k + 1])@ == event_text(events@[k]@),
        decreases events@.len() - i,
    {
        out.push(event_line(&events[i]));
        i += 1;
    }
    assert(texts(out@) =~= log_lines(g@, path@)) by {
        assert forall|k: int| 0 <= k < out@.len() implies texts(out@)[k] == log_lines(g@, path@)[k] by {
            if k > 0 {
                assert(out@[(k - 1) + 1]@ == event_text(events@[k - 1]@));
                assert(event_models(events@)[k - 1] == events@[k - 1]@);
            }
        }
    }
    out
}

// ---------------------------------------------------------------------
// Blame
// ---------------------------------------------------------------------
/// The name of a process in a chain.
pub open spec fn link_text(p: ProcRowModel) -> Seq<char> {
    if p.comm.len() == 0 {
        "pid "@ + int_text(p.pid as int)
    } else {
        p.comm
    }
}

/// The nearest ancestor that still knows what it was invoked as: the root of
/// a chain is the system's first process, which explains nothing.
pub open spec fn origin_in(chain: Seq<ProcRowModel>, from: int) -> Option<Seq<char>>
    decreases chain.len() - from,
{
    if from < 0 || from >= chain.len() {
        None
    } else if chain[from].cmdline.len() > 0 {
        Some(chain[from].cmdline)
    } else {
        origin_in(chain, from + 1)
    }
}

/// What the chain of ancestors explains.
pub open spec fn because_lines(chain: Seq<ProcRowModel>) -> Seq<Seq<char>> {
    if chain.len() <= 1 {
        Seq::empty()
    } else {
        let names = chain.map_values(|p: ProcRowModel| link_text(p));
        let because = "  "@ + painted(DIM@, "because:"@) + "    "@ + join_text(names, " ← "@);
        match origin_in(chain, 1) {
            Some(cmdline) => seq![
                because,
                "  "@ + painted(DIM@, "started by:"@) + " "@ + cmdline,
            ],
            None => seq![because],
        }
    }
}

/// What is said about the last writer of a path.
pub open spec fn blame_lines(g: GraphModel, path: Seq<char>) -> Seq<Seq<char>> {
    let events = history(g, path);
    if events.len() == 0 {
        seq![no_history_text(path)]
    } else {
        let last = events.last();
        seq![painted(BOLD@, path), event_text(last)] + match last.proc_start {
            Some(start) => because_lines(lineage_rows(ancestors(g.processes, last.pid, start))),
            None => seq![
                "  "@ + painted(DIM@, "(writer was never identified — no ancestry)"@),
            ],
        }
    }
}

fn link_name(p: &ProcRow) -> (r: String)
    ensures
        r@ == link_text(p@),
{
    if no_text(p.comm.as_str()) {
        pid_text(p.pid)
    } else {
        p.comm.clone()
    }
}

/// The lines of a chain of ancestors.
fn because_report(chain: &Vec<ProcRow>) -> (r: Vec<String>)
    ensures
        texts(r@) == because_lines(row_models(chain@)),
{
    let mut out: Vec<String> = Vec::new();
    let ghost rows = row_models(chain@);
    assert(rows.len() == chain@.len());
    if chain.len() <= 1 {
        assert(texts(out@) =~= because_lines(rows));
        return out;
    }
    let mut names: Vec<String> = Vec::new();
    let mut i: usize = 0;
    while i < chain.len()
        invariant
            i <= chain@.len(),
            names@.len() == i,
            forall|k: int| 0 <= k < i ==> (#[trigger] names@[k])@ == link_text(chain@[k]@),
        decreases chain@.len() - i,
    {
        names.push(link_name(&chain[i]));
        i += 1;
    }
    assert(texts(names@) =~= rows.map_values(|p: ProcRowModel| link_text(p)));
    let mut because = "  ".to_string();
    because.append(paint(DIM, "because:").as_str());
    because.append("    ");
    because.append(joined(&names, " ← ").as_str());
    out.push(because);
    let mut k: usize = 1;
    while k < chain.len()
        invariant_except_break
            1 <= k <= chain@.len(),
            rows == row_models(chain@),
            origin_in(rows, 1) == origin_in(rows, k as int),
        ensures
            k <= chain@.len(),
            k < chain@.len() ==> origin_in(rows, 1) == Some(chain@[k as int].cmdline@),
            k == chain@.len() ==> origin_in(rows, 1) is None,
        decreases chain@.len() - k,
    {
        assert(rows[k as int] == chain@[k as int]@);
        if !no_text(chain[k].cmdline.as_str()) {
            break;
        }
        k += 1;
    }
    if k < chain.len() {
        let mut line = "  ".to_string();
        line.append(paint(DIM, "started by:").as_str());
        line.append(" ");
        line.append(chain[k].cmdline.as_str());
        out.push(line);
    }
    assert(texts(out@) =~= because_lines(rows));
    out
}

/// Who last wrote a file, and the chain of commands that explains why that
/// process existed.
pub fn blame_report(g: &Graph, path: &str) -> (r: Vec<String>)
    ensures
        texts(r@) == blame_lines(g@, path@),
{
    let last = match g.blame(path) {
        Some(e) => e,
        None => {
            return one_line(no_history(path));
        },
    };
    let mut out = one_line(paint(BOLD, path));
    out.push(event_line(&last));
    let ghost head = seq![painted(BOLD@, path@), event_text(last@)];
    assert(texts(out@) =~= head);
    match &last.proc_start {
        Some(start) => {
            let chain = g.ancestry(last.pid, start.as_str());
            let mut more = because_report(&chain);
            let ghost first = out@;
            let ghost rest = more@;
            out.append(&mut more);
            assert(texts(out@) =~= texts(first) + texts(rest));
        },
        None => {
            let mut line = "  ".to_string();
            line.append(paint(DIM, "(writer was never identified — no ancestry)").as_str());
            let ghost first = out@;
            out.push(line);
            assert(texts(out@) =~= texts(first) + seq![line@]);
        },
    }
    out
}

// ---------------------------------------------------------------------
// Trees
// ---------------------------------------------------------------------
/// The line of a process in a tree.
pub open spec fn process_text(p: ProcRowModel) -> Seq<char> {
    "  "@ + painted(CYAN@, int_text(p.pid as int)) + "  "@ + p.comm + "  "@ + painted(DIM@, p.cmdline)
}

fn process_line(p: &ProcRow) -> (r: String)
    ensures
        r@ == process_text(p@),
{
    let mut out = "  ".to_string();
    out.append(paint(CYAN, i64_text(p.pid as i64).as_str()).as_str());
    out.append("  ");
    out.append(p.comm.as_str());
    out.append("  ");
    out.append(paint(DIM, p.cmdline.as_str()).as_str());
    out
}

/// The incarnation that a question about a pid is about: the live one, else
/// the latest. Asking about a process that has finished is no error.
pub open spec fn asked_start(g: GraphModel, pid: i32) -> Option<Seq<char>> {
    match latest_start(g.processes, pid, WhichModel::Live) {
        Some(start) => Some(start),
        None => latest_start(g.processes, pid, WhichModel::Any),
    }
}

/// What is said about the tree of a process.
pub open spec fn tree_said(g: GraphModel, pid_arg: Seq<char>) -> SaidModel {
    match text_i32(pid_arg) {
        None => SaidModel::Complaint("not a pid: "@ + pid_arg),
        Some(pid) => match asked_start(g, pid) {
            None => SaidModel::Out(
                seq!["no live process recorded with pid "@ + int_text(pid as int)],
            ),
            Some(start) => {
                let procs = lineage_rows(process_tree(g.processes, pid, start));
                if procs.len() == 0 {
                    SaidModel::Out(
                        seq!["no recorded process tree for pid "@ + int_text(pid as int)],
                    )
                } else {
                    SaidModel::Out(
                        seq![painted(BOLD@, "process tree from pid "@ + int_text(pid as int))]
                            + procs.map_values(|p: ProcRowModel| process_text(p)),
                    )
                }
            },
        },
    }
}

fn about_pid(text: &str, pid: i32) -> (r: String)
    ensures
        r@ == text@ + int_text(pid as int),
{
    let mut out = text.to_string();
    out.append(i64_text(pid as i64).as_str());
    out
}

fn not_a_pid(pid_arg: &str) -> (r: String)
    ensures
        r@ == "not a pid: "@ + pid_arg@,
{
    let mut out = "not a pid: ".to_string();
    out.append(pid_arg);
    out
}

/// Every process descended from one.
pub fn tree_report(g: &Graph, pid_arg: &str) -> (r: Said)
    ensures
        r@ == tree_said(g@, pid_arg@),
{
    let pid = match parse_i32(pid_arg) {
        Some(p) => p,
        None => {
            return Said::Complaint(not_a_pid(pid_arg));
        },
    };
    let found = match g.live_start_ts(pid) {
        Some(s) => Some(s),
        None => g.latest_start_ts(pid),
    };
    let start = match found {
        Some(s) => s,
        None => {
            return Said::Out(one_line(about_pid("no live process recorded with pid ", pid)));
        },
    };
    let procs = g.descendants(pid, start.as_str());
    assert(row_models(procs@).len() == procs@.len());
    if procs.len() == 0 {
        return Said::Out(one_line(about_pid("no recorded process tree for pid ", pid)));
    }
    let title = about_pid("process tree from pid ", pid);
    let mut out = one_line(paint(BOLD, title.as_str()));
    let mut i: usize = 0;
    while i < procs.len()
        invariant
            i <= procs@.len(),
            title@ == "process tree from pid "@ + int_text(pid as int),
            out@.len() == i + 1,
            out@[0]@ == painted(BOLD@, title@),
            forall|k: int| 0 <= k < i ==> (#[trigger] out@[k + 1])@ == process_text(procs@[k]@),
        decreases procs@.len() - i,
    {
        out.push(process_line(&procs[i]));
        i += 1;
    }
    proof {
        let rows = row_models(procs@);
        let lines = seq![painted(BOLD@, title@)] + rows.map_values(
            |p: ProcRowModel| process_text(p),
        );
        assert forall|k: int| 0 <= k < out@.len() implies texts(out@)[k] == lines[k] by {
            if k > 0 {
                assert(out@[(k - 1) + 1]@ == process_text(procs@[k - 1]@));
            }
        }
        assert(texts(out@) =~= lines);
    }
    Said::Out(out)
}

// ---------------------------------------------------------------------
// Traces
// ---------------------------------------------------------------------
/// What happened to one path: every distinct operation, in order, and who did
/// the first.
#[derive(Debug, Clone)]
pub struct PathSummary {
    pub path: String,
    pub ops: Vec<String>,
    pub by: String,
}

/// The plain values of a [`PathSummary`].
#[verifier::ext_equal]
pub struct PathSummaryModel {
    pub path: Seq<char>,
    pub ops: Seq<Seq<char>>,
    pub by: Seq<char>,
}

impl View for PathSummary {
    type V = PathSummaryModel;

    open spec fn view(&self) -> PathSummaryModel {
        PathSummaryModel { path: self.path@, ops: texts(self.ops@), by: self.by@ }
    }
}

/// The plain values of a list of summaries.
pub open spec fn summary_models(list: Seq<PathSummary>) -> Seq<PathSummaryModel> {
    Seq::new(list.len(), |i: int| list[i]@)
}

/// `ops` with one more operation, unless it is there already.
pub open spec fn with_op(ops: Seq<Seq<char>>, op: Seq<char>) -> Seq<Seq<char>> {
    if ops.contains(op) {
        ops
    } else {
        ops.push(op)
    }
}

/// Is there a summary of the path?
pub open spec fn is_summarised(list: Seq<PathSummaryModel>, path: Seq<char>) -> bool {
    exists|i: int| 0 <= i < list.len() && (#[trigger] list[i]).path == path
}

/// A summary with one more event, if that is about its path.
pub open spec fn summary_with(s: PathSummaryModel, e: FileEventModel) -> PathSummaryModel {
    if s.path == e.path {
        PathSummaryModel { ops: with_op(s.ops, e.op), ..s }
    } else {
        s
    }
}

/// The summaries with one more event.
pub open spec fn add_event(list: Seq<PathSummaryModel>, e: FileEventModel) -> Seq<PathSummaryModel> {
    if is_summarised(list, e.path) {
        list.map_values(|s: PathSummaryModel| summary_with(s, e))
    } else {
        list.push(PathSummaryModel { path: e.path, ops: seq![e.op], by: who_text(e) })
    }
}

/// One summary per path, in the order in which the paths were first touched.
pub open spec fn summaries(events: Seq<FileEventModel>) -> Seq<PathSummaryModel>
    decreases events.len(),
{
    if events.len() == 0 {
        Seq::empty()
    } else {
        add_event(summaries(events.drop_last()), events.last())
    }
}

fn has_text(list: &Vec<String>, t: &str) -> (r: bool)
    ensures
        r == texts(list@).contains(t@),
{
    let mut i: usize = 0;
    let ghost all = texts(list@);
    while i < list.len()
        invariant
            i <= list@.len(),
            all == texts(list@),
            forall|k: int| 0 <= k < i ==> #[trigger] all[k] != t@,
        decreases list@.len() - i,
    {
        if same_text(list[i].as_str(), t) {
            assert(all[i as int] == t@);
            return true;
        }
        i += 1;
    }
    false
}

fn add_to(list: &mut Vec<PathSummary>, e: &FileEvent)
    ensures
        summary_models(final(list)@) == add_event(summary_models(old(list)@), e@),
{
    let ghost before = summary_models(list@);
    let n = list.len();
    let mut known = false;
    let mut i: usize = 0;
    while i < n
        invariant
            i <= n,
            n == before.len(),
            list@.len() == n,
            forall|k: int|
                0 <= k < n ==> #[trigger] list@[k]@ == if k < i {
                    summary_with(before[k], e@)
                } else {
                    before[k]
                },
            known == exists|k: int| 0 <= k < i && (#[trigger] before[k]).path == e.path@,
        decreases n - i,
    {
        assert(list@[i as int]@ == before[i as int]);
        if same_text(list[i].path.as_str(), e.path.as_str()) {
            assert(before[i as int].path == e.path@);
            known = true;
            if !has_text(&list[i].ops, e.op.as_str()) {
                let ghost ops = list@[i as int].ops@;
                let s = &mut list[i];
                s.ops.push(e.op.clone());
                assert(texts(list@[i as int].ops@) =~= texts(ops).push(e.op@));
            }
        }
        i += 1;
    }
    if known {
        assert(summary_models(list@) =~= add_event(before, e@));
    } else {
        proof {
            assert(!is_summarised(before, e.path@));
            assert forall|k: int| 0 <= k < n implies #[trigger] list@[k]@ == before[k] by {
                assert(before[k].path != e.path@);
            }
        }
        let mut ops: Vec<String> = Vec::new();
        ops.push(e.op.clone());
        assert(texts(ops@) =~= seq![e.op@]);
        let s = PathSummary { path: e.path.clone(), ops, by: who(e) };
        list.push(s);
        assert(summary_models(list@) =~= add_event(before, e@));
    }
}

/// One summary per path: a single change usually makes several events, and
/// the question is what was touched.
pub fn summarise(events: &Vec<FileEvent>) -> (r: Vec<PathSummary>)
    ensures
        summary_models(r@) == summaries(event_models(events@)),
{
    let mut out: Vec<PathSummary> = Vec::new();
    let ghost all = event_models(events@);
    let mut i: usize = 0;
    assert(summary_models(out@) =~= summaries(all.take(0)));
    while i < events.len()
        invariant
            i <= events@.len(),
            all == event_models(events@),
            summary_models(out@) == summaries(all.take(i as int)),
        decreases events@.len() - i,
    {
        assert(all.take(i + 1).drop_last() =~= all.take(i as int));
        assert(all.take(i + 1).last() == events@[i as int]@);
        add_to(&mut out, &events[i]);
        i += 1;
    }
    assert(all.take(all.len() as int) =~= all);
    out
}

/// The line about a command that was traced.
pub open spec fn traced_text(
    argv: Seq<Seq<char>>,
    code: Seq<char>,
    elapsed: Seq<char>,
    pid: i32,
) -> Seq<char> {
    "\n"@ + painted(BOLD@, "traced"@) + " "@ + join_text(argv, " "@) + "  "@ + painted(
        DIM@,
        "exit "@ + code + ", "@ + elapsed + "s, pid "@ + int_text(pid as int),
    )
}

/// The line about a command that was traced. `elapsed` is its running time in
/// seconds, as a text.
pub fn traced_line(argv: &Vec<String>, code: &str, elapsed: &str, pid: i32) -> (r: String)
    ensures
        r@ == traced_text(texts(argv@), code@, elapsed@, pid),
{
    let mut detail = "exit ".to_string();
    detail.append(code);
    detail.append(", ");
    detail.append(elapsed);
    detail.append("s, pid ");
    detail.append(i64_text(pid as i64).as_str());
    let mut out = "\n".to_string();
    out.append(paint(BOLD, "traced").as_str());
    out.append(" ");
    out.append(joined(argv, " ").as_str());
    out.append("  ");
    out.append(paint(DIM, detail.as_str()).as_str());
    out
}

/// The line of one path in a manifest.
pub open spec fn touched_text(s: PathSummaryModel) -> Seq<char> {
    "  "@ + painted(CYAN@, pad_right(join_text(s.ops, "+"@), 22)) + " "@ + s.path + "  "@ + painted(
        DIM@,
        s.by,
    )
}

fn touched_line(s: &PathSummary) -> (r: String)
    ensures
        r@ == touched_text(s@),
{
    let mut out = "  ".to_string();
    let ops = joined(&s.ops, "+");
    out.append(paint(CYAN, padded(ops.as_str(), 22).as_str()).as_str());
    out.append(" ");
    out.append(s.path.as_str());
    out.append("  ");
    out.append(paint(DIM, s.by.as_str()).as_str());
    out
}

/// What is said about what a command touched.
pub open spec fn manifest_lines(g: GraphModel, pid: i32, start: Seq<char>) -> Seq<Seq<char>> {
    let events = manifest(g, pid, start);
    let procs = process_tree(g.processes, pid, start).len();
    if events.len() == 0 {
        seq![
            "  "@ + painted(DIM@, "no recorded writes"@) + "  "@ + painted(
                DIM@,
                "("@ + nat_text(procs) + " processes)"@,
            ),
        ]
    } else {
        let paths = summaries(events);
        seq![
            "  "@ + painted(BOLD@, nat_text(paths.len())) + " paths touched by "@ + painted(
                BOLD@,
                nat_text(procs),
            ) + " processes\n"@,
        ] + paths.map_values(|s: PathSummaryModel| touched_text(s)) + seq![
            "\n  "@ + painted(
                DIM@,
                "undo:  chronicle revert "@ + int_text(pid as int) + " --snap <dir> --live <dir>"@,
            ),
        ]
    }
}

/// What a traced command and everything it started touched: scoped by the
/// process tree, not by a time window.
pub fn manifest_report(g: &Graph, pid: i32, start: &str) -> (r: Vec<String>)
    ensures
        texts(r@) == manifest_lines(g@, pid, start@),
{
    let events = g.events_by_tree(pid, start);
    let procs = g.descendants(pid, start);
    let count = procs.len();
    proof {
        assert(event_models(events@).len() == events@.len());
        assert(row_models(procs@).len() == procs@.len());
    }
    if events.len() == 0 {
        let mut inner = "(".to_string();
        inner.append(u64_text(count as u64).as_str());
        inner.append(" processes)");
        let mut line = "  ".to_string();
        line.append(paint(DIM, "no recorded writes").as_str());
        line.append("  ");
        line.append(paint(DIM, inner.as_str()).as_str());
        return one_line(line);
    }
    let paths = summarise(&events);
    let ghost shown = summary_models(paths@);
    assert(shown.len() == paths@.len());
    let mut first = "  ".to_string();
    first.append(paint(BOLD, u64_text(paths.len() as u64).as_str()).as_str());
    first.append(" paths touched by ");
    first.append(paint(BOLD, u64_text(count as u64).as_str()).as_str());
    first.append(" processes\n");
    let mut out = one_line(first);
    let ghost head = texts(out@);
    let mut i: usize = 0;
    assert(texts(out@) =~= head + shown.take(0).map_values(
        |s: PathSummaryModel| touched_text(s),
    ));
    while i < paths.len()
        invariant
            i <= paths@.len(),
            shown == summary_models(paths@),
            texts(out@) == head + shown.take(i as int).map_values(
                |s: PathSummaryModel| touched_text(s),
            ),
        decreases paths@.len() - i,
    {
        let ghost before = out@;
        let line = touched_line(&paths[i]);
        out.push(line);
        assert(texts(out@) =~= texts(before).push(line@));
        assert(shown.take(i + 1).map_values(|s: PathSummaryModel| touched_text(s)) =~= shown.take(
            i as int,
        ).map_values(|s: PathSummaryModel| touched_text(s)).push(touched_text(shown[i as int])));
        i += 1;
        assert(texts(out@) =~= head + shown.take(i as int).map_values(
            |s: PathSummaryModel| touched_text(s),
        ));
    }
    assert(shown.take(shown.len() as int) =~= shown);
    let mut hint = "undo:  chronicle revert ".to_string();
    hint.append(i64_text(pid as i64).as_str());
    hint.append(" --snap <dir> --live <dir>");
    let mut last = "\n  ".to_string();
    last.append(paint(DIM, hint.as_str()).as_str());
    let ghost before = out@;
    out.push(last);
    assert(texts(out@) =~= texts(before) + seq![last@]);
    out
}

/// What is said where a traced command never showed up in the graph.
pub open spec fn never_recorded_text() -> Seq<char> {
    "  "@ + painted(YELLOW@, "the daemon never recorded this process"@)
        + "\n  Is whodidd running, and watching the filesystem this ran on?"@
}

/// What is said where a traced command never showed up in the graph.
pub fn never_recorded() -> (r: String)
    ensures
        r@ == never_recorded_text(),
{
    let mut out = "  ".to_string();
    out.append(paint(YELLOW, "the daemon never recorded this process").as_str());
    out.append("\n  Is whodidd running, and watching the filesystem this ran on?");
    out
}

// ---------------------------------------------------------------------
// Undoing
// ---------------------------------------------------------------------
/// What is known before a command can be undone.
#[derive(Debug)]
pub enum Undo {
    /// There is nothing to undo, or no such command.
    Stop(Said),
    /// What the command and its descendants wrote.
    Go { pid: i32, events: Vec<FileEvent> },
}

/// The plain values of an [`Undo`].
#[verifier::ext_equal]
pub enum UndoModel {
    Stop(SaidModel),
    Go { pid: i32, events: Seq<FileEventModel> },
}

impl View for Undo {
    type V = UndoModel;

    open spec fn view(&self) -> UndoModel {
        match *self {
            Undo::Stop(said) => UndoModel::Stop(said@),
            Undo::Go { pid, events } => UndoModel::Go { pid, events: event_models(events@) },
        }
    }
}

/// What there is to undo of a command. It is asked for by its latest
/// incarnation: it has finished.
pub open spec fn undo_of(g: GraphModel, pid_arg: Seq<char>) -> UndoModel {
    match text_i32(pid_arg) {
        None => UndoModel::Stop(SaidModel::Complaint("not a pid: "@ + pid_arg)),
        Some(pid) => match latest_start(g.processes, pid, WhichModel::Any) {
            None => UndoModel::Stop(
                SaidModel::Complaint("no process recorded with pid "@ + int_text(pid as int)),
            ),
            Some(start) => {
                let events = manifest(g, pid, start);
                if events.len() == 0 {
                    UndoModel::Stop(
                        SaidModel::Out(
                            seq![
                                "nothing recorded for pid "@ + int_text(pid as int)
                                    + " — nothing to undo"@,
                            ],
                        ),
                    )
                } else {
                    UndoModel::Go { pid, events }
                }
            },
        },
    }
}

/// What there is to undo of a command.
pub fn find_undo(g: &Graph, pid_arg: &str) -> (r: Undo)
    ensures
        r@ == undo_of(g@, pid_arg@),
{
    let pid = match parse_i32(pid_arg) {
        Some(p) => p,
        None => {
            return Undo::Stop(Said::Complaint(not_a_pid(pid_arg)));
        },
    };
    let start = match g.latest_start_ts(pid) {
        Some(s) => s,
        None => {
            return Undo::Stop(Said::Complaint(about_pid("no process recorded with pid ", pid)));
        },
    };
    let events = g.events_by_tree(pid, start.as_str());
    assert(event_models(events@).len() == events@.len());
    if events.len() == 0 {
        let mut line = about_pid("nothing recorded for pid ", pid);
        line.append(" — nothing to undo");
        return Undo::Stop(Said::Out(one_line(line)));
    }
    Undo::Go { pid, events }
}

/// The name of the snapshot that a file is restored from: the first component
/// below the snapshot directory.
pub open spec fn snapshot_of(from: Seq<char>, snap_root: Seq<char>) -> Seq<char> {
    if is_within(from, snap_root) {
        let rel = components(after_components(from, components(snap_root).len()));
        if rel.len() > 0 {
            rel[0]
        } else {
            Seq::empty()
        }
    } else {
        Seq::empty()
    }
}

fn snapshot_named(from: &str, snap_root: &str) -> (r: String)
    ensures
        r@ == snapshot_of(from@, snap_root@),
{
    match strip_base(from, snap_root) {
        Some(rel) => {
            let x = chars_of(rel.as_str());
            let s = component_spans(&x);
            assert(span_ints(s@).len() == s@.len());
            proof {
                spans_bounds(x@);
            }
            if s.len() > 0 {
                assert(span_ints(s@)[0] == spans(x@)[0]);
                string_of(&x, s[0].0, s[0].1)
            } else {
                let r = String::new();
                assert(r@ =~= Seq::<char>::empty());
                r
            }
        },
        None => {
            let r = String::new();
            assert(r@ =~= Seq::<char>::empty());
            r
        },
    }
}

/// The line of one step of a plan.
pub open spec fn step_text(s: StepModel, snap_root: Seq<char>) -> Seq<char> {
    match s {
        StepModel::Restore { path, from } => "  "@ + painted(CYAN@, "restore"@) + "  "@ + path
            + "  "@ + painted(DIM@, "from "@ + snapshot_of(from, snap_root)),
        StepModel::Remove { path } => "  "@ + painted(YELLOW@, "remove "@) + "  "@ + path + "  "@
            + painted(DIM@, "(created by this command)"@),
        StepModel::Skip { path, why } => "  "@ + painted(
            DIM@,
            "skip    "@ + path + "  — "@ + why,
        ),
    }
}

fn step_line(s: &Step, snap_root: &str) -> (r: String)
    ensures
        r@ == step_text(s@, snap_root@),
{
    let mut out = "  ".to_string();
    match s {
        Step::Restore { path, from } => {
            let mut detail = "from ".to_string();
            detail.append(snapshot_named(from.as_str(), snap_root).as_str());
            out.append(paint(CYAN, "restore").as_str());
            out.append("  ");
            out.append(path.as_str());
            out.append("  ");
            out.append(paint(DIM, detail.as_str()).as_str());
        },
        Step::Remove { path } => {
            out.append(paint(YELLOW, "remove ").as_str());
            out.append("  ");
            out.append(path.as_str());
            out.append("  ");
            out.append(paint(DIM, "(created by this command)").as_str());
        },
        Step::Skip { path, why } => {
            let mut detail = "skip    ".to_string();
            detail.append(path.as_str());
            detail.append("  — ");
            detail.append(why.as_str());
            out.append(paint(DIM, detail.as_str()).as_str());
        },
    }
    out
}

/// How many steps of a plan restore.
pub open spec fn count_restores(steps: Seq<StepModel>) -> nat {
    steps.filter(|s: StepModel| s is Restore).len()
}

/// How many steps of a plan remove.
pub open spec fn count_removes(steps: Seq<StepModel>) -> nat {
    steps.filter(|s: StepModel| s is Remove).len()
}

/// How many steps of a plan leave a path alone.
pub open spec fn count_skips(steps: Seq<StepModel>) -> nat {
    steps.filter(|s: StepModel| s is Skip).len()
}

/// What is said about a plan.
pub open spec fn plan_lines(
    steps: Seq<StepModel>,
    snap_root: Seq<char>,
    pid: i32,
    apply: bool,
) -> Seq<Seq<char>> {
    let title = "\n"@ + painted(
        BOLD@,
        if apply {
            "applying"@
        } else {
            "dry run —"@
        },
    ) + " undo plan for pid "@ + int_text(pid as int) + "\n"@;
    let tally = "\n  "@ + nat_text(count_restores(steps)) + " to restore, "@ + nat_text(
        count_removes(steps),
    ) + " to remove, "@ + nat_text(count_skips(steps)) + " skipped"@;
    let shown = seq![title] + steps.map_values(|s: StepModel| step_text(s, snap_root)) + seq![tally];
    if apply {
        shown
    } else {
        shown.push(
            "  "@ + painted(DIM@, "dry run: nothing was changed. Re-run with --apply."@),
        )
    }
}

/// What is said about a plan before it is carried out, or instead.
pub fn plan_report(steps: &Vec<Step>, snap_root: &str, pid: i32, apply: bool) -> (r: Vec<String>)
    ensures
        texts(r@) == plan_lines(step_models(steps@), snap_root@, pid, apply),
{
    let ghost all = step_models(steps@);
    let mut title = "\n".to_string();
    let mode = if apply {
        "applying"
    } else {
        "dry run —"
    };
    title.append(paint(BOLD, mode).as_str());
    title.append(" undo plan for pid ");
    title.append(i64_text(pid as i64).as_str());
    title.append("\n");
    let mut out = one_line(title);
    let ghost head = texts(out@);
    let mut restores: usize = 0;
    let mut removes: usize = 0;
    let mut skips: usize = 0;
    let mut i: usize = 0;
    proof {
        reveal(Seq::filter);
        assert(texts(out@) =~= head + all.take(0).map_values(
            |s: StepModel| step_text(s, snap_root@),
        ));
    }
    while i < steps.len()
        invariant
            i <= steps@.len(),
            all == step_models(steps@),
            restores <= i && removes <= i && skips <= i,
            restores == count_restores(all.take(i as int)),
            removes == count_removes(all.take(i as int)),
            skips == count_skips(all.take(i as int)),
            texts(out@) == head + all.take(i as int).map_values(
                |s: StepModel| step_text(s, snap_root@),
            ),
        decreases steps@.len() - i,
    {
        let ghost before = out@;
        proof {
            reveal(Seq::filter);
            assert(all.take(i + 1).drop_last() =~= all.take(i as int));
            assert(all.take(i + 1).last() == steps@[i as int]@);
        }
        match &steps[i] {
            Step::Restore { .. } => {
                restores += 1;
            },
            Step::Remove { .. } => {
                removes += 1;
            },
            Step::Skip { .. } => {
                skips += 1;
            },
        }
        let line = step_line(&steps[i], snap_root);
        out.push(line);
        assert(texts(out@) =~= texts(before).push(line@));
        assert(all.take(i + 1).map_values(|s: StepModel| step_text(s, snap_root@)) =~= all.take(
            i as int,
        ).map_values(|s: StepModel| step_text(s, snap_root@)).push(
            step_text(all[i as int], snap_root@),
        ));
        i += 1;
        assert(texts(out@) =~= head + all.take(i as int).map_values(
            |s: StepModel| step_text(s, snap_root@),
        ));
    }
    assert(all.take(all.len() as int) =~= all);
    let mut tally = "\n  ".to_string();
    tally.append(u64_text(restores as u64).as_str());
    tally.append(" to restore, ");
    tally.append(u64_text(removes as u64).as_str());
    tally.append(" to remove, ");
    tally.append(u64_text(skips as u64).as_str());
    tally.append(" skipped");
    let ghost before = out@;
    out.push(tally);
    assert(texts(out@) =~= texts(before) + seq![tally@]);
    if !apply {
        let mut note = "  ".to_string();
        note.append(paint(DIM, "dry run: nothing was changed. Re-run with --apply.").as_str());
        let ghost shown = out@;
        out.push(note);
        assert(texts(out@) =~= texts(shown).push(note@));
    }
    out
}

/// How an attempt to carry out a step went.
#[derive(Debug, Clone, Copy, PartialEq, Eq, Structural)]
pub enum Attempt {
    Done,
    /// The path to remove is not there.
    NotFound,
    /// The directory to remove is not empty.
    NotEmpty,
    Failed,
}

/// What became of a step.
#[derive(Debug, Clone, Copy, PartialEq, Eq, Structural)]
pub enum Outcome {
    Applied,
    Kept,
    Failed,
}

/// What became of a step. A path that is gone already is the desired end
/// state. A directory that holds files which the command did not make is kept:
/// removing those would destroy what undoing is there to protect.
pub open spec fn outcome_of(s: StepModel, a: Attempt) -> Outcome {
    match a {
        Attempt::Done => Outcome::Applied,
        Attempt::NotFound => if s is Remove {
            Outcome::Applied
        } else {
            Outcome::Failed
        },
        Attempt::NotEmpty => if s is Remove {
            Outcome::Kept
        } else {
            Outcome::Failed
        },
        Attempt::Failed => Outcome::Failed,
    }
}

/// What became of a step.
pub fn judge(s: &Step, a: Attempt) -> (r: Outcome)
    ensures
        r == outcome_of(s@, a),
{
    let removal = match s {
        Step::Remove { .. } => true,
        _ => false,
    };
    match a {
        Attempt::Done => Outcome::Applied,
        Attempt::NotFound => if removal {
            Outcome::Applied
        } else {
            Outcome::Failed
        },
        Attempt::NotEmpty => if removal {
            Outcome::Kept
        } else {
            Outcome::Failed
        },
        Attempt::Failed => Outcome::Failed,
    }
}

/// Is it this outcome?
pub open spec fn is_outcome(x: Outcome, o: Outcome) -> bool {
    x == o
}

/// How many outcomes are this one.
pub open spec fn count_outcome(list: Seq<Outcome>, o: Outcome) -> nat {
    list.filter(|x: Outcome| is_outcome(x, o)).len()
}

/// The line about how carrying out a plan went.
pub open spec fn result_text(list: Seq<Outcome>) -> Seq<char> {
    "  "@ + nat_text(count_outcome(list, Outcome::Applied)) + " applied, "@ + (if count_outcome(
        list,
        Outcome::Kept,
    ) == 0 {
        Seq::empty()
    } else {
        nat_text(count_outcome(list, Outcome::Kept)) + " kept, "@
    }) + nat_text(count_outcome(list, Outcome::Failed)) + " failed"@
}

fn count_of(list: &Vec<Outcome>, o: Outcome) -> (r: usize)
    ensures
        r == count_outcome(list@, o),
{
    let mut n: usize = 0;
    let mut i: usize = 0;
    let ghost same = |x: Outcome| is_outcome(x, o);
    proof {
        reveal(Seq::filter);
    }
    while i < list.len()
        invariant
            i <= list@.len(),
            same == (|x: Outcome| is_outcome(x, o)),
            n <= i,
            n == list@.take(i as int).filter(same).len(),
        decreases list@.len() - i,
    {
        proof {
            reveal(Seq::filter);
            assert(list@.take(i + 1).drop_last() =~= list@.take(i as int));
            assert(list@.take(i + 1).last() == list@[i as int]);
        }
        if list[i] == o {
            n += 1;
        }
        i += 1;
    }
    assert(list@.take(list@.len() as int) =~= list@);
    n
}

/// The line about how carrying out a plan went.
pub fn result_line(list: &Vec<Outcome>) -> (r: String)
    ensures
        r@ == result_text(list@),
{
    let kept = count_of(list, Outcome::Kept);
    let mut out = "  ".to_string();
    out.append(u64_text(count_of(list, Outcome::Applied) as u64).as_str());
    out.append(" applied, ");
    let mut middle = String::new();
    if kept > 0 {
        middle = u64_text(kept as u64);
        middle.append(" kept, ");
    }
    assert(kept == 0 ==> middle@ =~= Seq::<char>::empty());
    out.append(middle.as_str());
    out.append(u64_text(count_of(list, Outcome::Failed) as u64).as_str());
    out.append(" failed");
    out
}

// ---------------------------------------------------------------------
// Size
// ---------------------------------------------------------------------
/// What is said about the size of the graph.
pub open spec fn stat_lines(g: GraphModel, db: Seq<char>) -> Seq<Seq<char>> {
    seq![
        painted(BOLD@, "graph"@) + "   "@ + db,
        "  processes  "@ + nat_text(g.processes.len()),
        "  events     "@ + nat_text(g.events.len()),
    ]
}

/// What is said about the size of the graph.
pub fn stat_report(g: &Graph, db: &str) -> (r: Vec<String>)
    ensures
        texts(r@) == stat_lines(g@, db@),
{
    let (procs, events) = g.counts();
    let mut first = paint(BOLD, "graph");
    first.append("   ");
    first.append(db);
    let mut second = "  processes  ".to_string();
    second.append(u64_text(procs as u64).as_str());
    let mut third = "  events     ".to_string();
    third.append(u64_text(events as u64).as_str());
    let mut out: Vec<String> = Vec::new();
    out.push(first);
    out.push(second);
    out.push(third);
    assert(texts(out@) =~= stat_lines(g@, db@));
    out
}

// ---------------------------------------------------------------------
// Laws
// ---------------------------------------------------------------------
/// Carrying out a plan again is safe: what is gone already counts as removed.
pub proof fn removing_again_is_no_failure(path: Seq<char>)
    ensures
        outcome_of((StepModel::Remove { path }), Attempt::NotFound) == outcome_of(
            (StepModel::Remove { path }),
            Attempt::Done,
        ),
{
}

/// A directory that holds something else is never reported as a failure, nor
/// as removed.
pub proof fn a_directory_in_use_is_kept(path: Seq<char>)
    ensures
        outcome_of((StepModel::Remove { path }), Attempt::NotEmpty) == Outcome::Kept,
{
}

/// No path has two summaries, and a path has one exactly if an event is about
/// it.
pub proof fn every_path_is_summarised_once(events: Seq<FileEventModel>)
    ensures
        forall|i: int, j: int|
            0 <= i < j < summaries(events).len() ==> (#[trigger] summaries(events)[i]).path != (
            #[trigger] summaries(events)[j]).path,
        forall|path: Seq<char>| #[trigger]
            is_summarised(summaries(events), path) <==> exists|k: int|
                0 <= k < events.len() && (#[trigger] events[k]).path == path,
    decreases events.len(),
{
    if events.len() > 0 {
        let front = events.drop_last();
        let e = events.last();
        let n = front.len() as int;
        every_path_is_summarised_once(front);
        let old = summaries(front);
        let new = summaries(events);
        assert(events[n] == e);
        assert forall|i: int| 0 <= i < old.len() implies (#[trigger] new[i]).path == old[i].path by {}
        assert forall|i: int, j: int| 0 <= i < j < new.len() implies (#[trigger] new[i]).path != (
        #[trigger] new[j]).path by {
            if j < old.len() {
                assert(old[i].path != old[j].path);
            } else {
                assert(old[i].path == new[i].path);
            }
        }
        assert forall|path: Seq<char>| #[trigger] is_summarised(new, path) <==> exists|k: int|
            0 <= k < events.len() && (#[trigger] events[k]).path == path by {
            if is_summarised(new, path) {
                let i = choose|i: int| 0 <= i < new.len() && (#[trigger] new[i]).path == path;
                if i < old.len() {
                    assert(old[i].path == path);
                    assert(is_summarised(old, path));
                    let k = choose|k: int| 0 <= k < front.len() && (#[trigger] front[k]).path == path;
                    assert(events[k] == front[k]);
                } else {
                    assert(events[n].path == path);
                }
            }
            if exists|k: int| 0 <= k < events.len() && (#[trigger] events[k]).path == path {
                let k = choose|k: int| 0 <= k < events.len() && (#[trigger] events[k]).path == path;
                if k < n {
                    assert(front[k] == events[k]);
                    assert(is_summarised(old, path));
                    let i = choose|i: int| 0 <= i < old.len() && (#[trigger] old[i]).path == path;
                    assert(new[i].path == path);
                } else if is_summarised(old, path) {
                    let i = choose|i: int| 0 <= i < old.len() && (#[trigger] old[i]).path == path;
                    assert(new[i].path == path);
                } else {
                    assert(new[old.len() as int].path == path);
                }
            }
        }
    }
}

} // verus!
