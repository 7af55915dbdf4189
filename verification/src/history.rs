//! The history of a file: its events in time order, each with its writer.
use crate::graph::{
    copy_opt, event_models, is_incarnation, latest_start, Event, EventModel, FileEvent,
    FileEventModel, Graph, GraphModel, ProcessModel, Which, WhichModel,
};
use crate::order::{arranged, as_ints, is_text_order, text_order, text_order_is_unique};
use crate::text::{opt_text, same_text, texts};
use vstd::prelude::*;

verus! {

/// The recorded process `(pid, start_ts)`.
pub open spec fn row_at(list: Seq<ProcessModel>, pid: i32, start_ts: Seq<char>) -> Option<
    ProcessModel,
>
    decreases list.len(),
{
    if list.len() == 0 {
        None
    } else if is_incarnation(list.last(), pid, start_ts) {
        Some(list.last())
    } else {
        row_at(list.drop_last(), pid, start_ts)
    }
}

/// The incarnation that wrote an event, as known at query time. The binding
/// made when the event was recorded is kept. An event that was processed
/// before the fork of its writer has none: it is then the latest incarnation
/// whose lifetime contains the event.
pub open spec fn resolved_start(list: Seq<ProcessModel>, e: EventModel) -> Option<Seq<char>> {
    match e.proc_start {
        Some(start) => Some(start),
        None => latest_start(list, e.pid, WhichModel::During(e.ts)),
    }
}

/// The recorded process that wrote an event.
pub open spec fn writer_of(list: Seq<ProcessModel>, e: EventModel) -> Option<ProcessModel> {
    match resolved_start(list, e) {
        Some(start) => row_at(list, e.pid, start),
        None => None,
    }
}

/// An event with its writer. Where the writer is not known, the texts are
/// empty.
pub open spec fn attributed(list: Seq<ProcessModel>, e: EventModel) -> FileEventModel {
    let writer = writer_of(list, e);
    FileEventModel {
        ts: e.ts,
        path: e.path,
        op: e.op,
        pid: e.pid,
        comm: match writer {
            Some(p) => p.comm,
            None => ""@,
        },
        exe: match writer {
            Some(p) => p.exe,
            None => ""@,
        },
        cmdline: match writer {
            Some(p) => p.cmdline,
            None => ""@,
        },
        proc_start: resolved_start(list, e),
        other_path: None,
    }
}

/// The times of a list of events.
pub open spec fn times(list: Seq<FileEventModel>) -> Seq<Seq<char>> {
    Seq::new(list.len(), |i: int| list[i].ts)
}

/// `list` by time, events of the same time in the order of `list`.
pub open spec fn in_time_order(list: Seq<FileEventModel>) -> Seq<FileEventModel> {
    arranged(list, choose|p: Seq<int>| is_text_order(times(list), p))
}

/// Is the event about `path`?
pub open spec fn is_about(e: EventModel, path: Seq<char>) -> bool {
    e.path == path
}

/// The events of one path with their writers, in the order in which they were
/// recorded.
pub open spec fn events_of_path(g: GraphModel, path: Seq<char>) -> Seq<FileEventModel> {
    g.events.filter(|e: EventModel| is_about(e, path)).map_values(
        |e: EventModel| attributed(g.processes, e),
    )
}

/// The history of one path, oldest first.
pub open spec fn history(g: GraphModel, path: Seq<char>) -> Seq<FileEventModel> {
    in_time_order(events_of_path(g, path))
}

/// A copy of an event.
pub(crate) fn copy_event(e: &FileEvent) -> (r: FileEvent)
    ensures
        r@ == e@,
{
    FileEvent {
        ts: e.ts.clone(),
        path: e.path.clone(),
        op: e.op.clone(),
        pid: e.pid,
        comm: e.comm.clone(),
        exe: e.exe.clone(),
        cmdline: e.cmdline.clone(),
        proc_start: copy_opt(&e.proc_start),
        other_path: copy_opt(&e.other_path),
    }
}

/// Puts events in time order.
pub(crate) fn by_time(list: &Vec<FileEvent>) -> (r: Vec<FileEvent>)
    ensures
        event_models(r@) == in_time_order(event_models(list@)),
{
    let mut keys: Vec<String> = Vec::new();
    let mut i: usize = 0;
    while i < list.len()
        invariant
            i <= list@.len(),
            keys@.len() == i,
            forall|j: int| 0 <= j < i ==> (#[trigger] keys@[j])@ == list@[j].ts@,
        decreases list@.len() - i,
    {
        keys.push(list[i].ts.clone());
        i += 1;
    }
    let ghost models = event_models(list@);
    assert(texts(keys@) =~= times(models));
    let p = text_order(&keys);
    proof {
        let q = choose|q: Seq<int>| is_text_order(times(models), q);
        text_order_is_unique(times(models), as_ints(p@), q);
    }
    let mut out: Vec<FileEvent> = Vec::new();
    let mut k: usize = 0;
    while k < p.len()
        invariant
            k <= p@.len(),
            is_text_order(times(event_models(list@)), as_ints(p@)),
            out@.len() == k,
            forall|j: int| 0 <= j < k ==> (#[trigger] out@[j])@ == list@[p@[j] as int]@,
        decreases p@.len() - k,
    {
        assert(as_ints(p@)[k as int] == p@[k as int]);
        out.push(copy_event(&list[p[k]]));
        k += 1;
    }
    assert(event_models(out@) =~= arranged(models, as_ints(p@))) by {
        assert forall|j: int| 0 <= j < out@.len() implies event_models(out@)[j] == arranged(
            models,
            as_ints(p@),
        )[j] by {
            assert(out@[j]@ == list@[p@[j] as int]@);
            assert(as_ints(p@)[j] == p@[j]);
        }
    }
    out
}

impl Graph {
    /// The position of the recorded process `(pid, start_ts)`.
    fn find_row(&self, pid: i32, start_ts: &str) -> (r: Option<usize>)
        ensures
            match r {
                Some(i) => i < self.processes@.len() && row_at(self@.processes, pid, start_ts@)
                    == Some(self.processes@[i as int]@),
                None => row_at(self@.processes, pid, start_ts@) is None,
            },
    {
        let mut found: Option<usize> = None;
        let mut i: usize = 0;
        let ghost list = self@.processes;
        assert(list.take(0) =~= Seq::empty());
        while i < self.processes.len()
            invariant
                i <= self.processes@.len(),
                list == self@.processes,
                match found {
                    Some(k) => k < self.processes@.len() && row_at(
                        list.take(i as int),
                        pid,
                        start_ts@,
                    ) == Some(self.processes@[k as int]@),
                    None => row_at(list.take(i as int), pid, start_ts@) is None,
                },
            decreases self.processes@.len() - i,
        {
            assert(list.take(i + 1).drop_last() =~= list.take(i as int));
            assert(list.take(i + 1).last() == self.processes@[i as int]@);
            if self.processes[i].pid == pid && same_text(
                self.processes[i].start_ts.as_str(),
                start_ts,
            ) {
                found = Some(i);
            }
            i += 1;
        }
        assert(list.take(list.len() as int) =~= list);
        found
    }

    /// The incarnation that wrote a stored event.
    pub(crate) fn resolve(&self, e: &Event) -> (r: Option<String>)
        ensures
            opt_text(r) == resolved_start(self@.processes, e@),
    {
        match &e.proc_start {
            Some(start) => Some(start.clone()),
            None => self.find_start(e.pid, Which::During(e.ts.as_str())),
        }
    }

    /// A stored event with its writer.
    pub(crate) fn attribute(&self, e: &Event) -> (r: FileEvent)
        ensures
            r@ == attributed(self@.processes, e@),
    {
        let proc_start = self.resolve(e);
        let row = match &proc_start {
            Some(start) => self.find_row(e.pid, start.as_str()),
            None => None,
        };
        let (comm, exe, cmdline) = match row {
            Some(i) => (
                self.processes[i].comm.clone(),
                self.processes[i].exe.clone(),
                self.processes[i].cmdline.clone(),
            ),
            None => ("".to_string(), "".to_string(), "".to_string()),
        };
        FileEvent {
            ts: e.ts.clone(),
            path: e.path.clone(),
            op: e.op.clone(),
            pid: e.pid,
            comm,
            exe,
            cmdline,
            proc_start,
            other_path: None,
        }
    }

    /// Full history of one path, oldest first.
    pub fn log_file(&self, path: &str) -> (r: Vec<FileEvent>)
        ensures
            event_models(r@) == history(self@, path@),
    {
        let mut list: Vec<FileEvent> = Vec::new();
        let mut i: usize = 0;
        let ghost g = self@;
        let ghost about = |e: EventModel| is_about(e, path@);
        let ghost with_writer = |e: EventModel| attributed(g.processes, e);
        proof {
            reveal(Seq::filter);
            assert(event_models(list@) =~= g.events.take(0).filter(about).map_values(with_writer));
        }
        while i < self.events.len()
            invariant
                i <= self.events@.len(),
                g == self@,
                about == (|e: EventModel| is_about(e, path@)),
                with_writer == (|e: EventModel| attributed(g.processes, e)),
                event_models(list@) == g.events.take(i as int).filter(about).map_values(with_writer),
            decreases self.events@.len() - i,
        {
            let ghost before = list@;
            proof {
                reveal(Seq::filter);
                assert(g.events.take(i + 1).drop_last() =~= g.events.take(i as int));
                assert(g.events.take(i + 1).last() == self.events@[i as int]@);
            }
            if same_text(self.events[i].path.as_str(), path) {
                let e = self.attribute(&self.events[i]);
                list.push(e);
                assert(event_models(list@) =~= event_models(before).push(e@));
            }
            assert(event_models(list@) =~= g.events.take(i + 1).filter(about).map_values(with_writer));
            i += 1;
        }
        assert(g.events.take(g.events.len() as int) =~= g.events);
        by_time(&list)
    }

    /// Most recent writer of a path.
    pub fn blame(&self, path: &str) -> (r: Option<FileEvent>)
        ensures
            match r {
                Some(e) => history(self@, path@).len() > 0 && e@ == history(self@, path@).last(),
                None => history(self@, path@).len() == 0,
            },
    {
        let mut list = self.log_file(path);
        let ghost models = event_models(list@);
        assert(models.len() == list@.len());
        let r = list.pop();
        assert(r is Some ==> r->0@ == models.last());
        r
    }
}

} // verus!
