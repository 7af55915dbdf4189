//! Bounded history: dropping what is older than a cutoff.
use crate::graph::{
    has_unique_keys, is_incarnation, process_models, stored_events, Event, EventModel, Graph,
    GraphModel, Process, ProcessModel,
};
use crate::text::{lex_le, lex_lt, text_le, text_lt};
use vstd::prelude::*;

verus! {

/// Is the event older than the cutoff?
pub open spec fn is_old(e: EventModel, before_ts: Seq<char>) -> bool {
    lex_lt(e.ts, before_ts)
}

/// Does a retained event name the pid?
pub open spec fn is_pinned(events: Seq<EventModel>, pid: i32, before_ts: Seq<char>) -> bool {
    exists|i: int|
        0 <= i < events.len() && (#[trigger] events[i]).pid == pid && lex_le(
            before_ts,
            events[i].ts,
        )
}

/// Can the process be dropped: did it exit before the cutoff, and does no
/// retained event name its pid? A retained event can still be bound to it at
/// query time, also where it is not bound yet.
pub open spec fn is_spent(p: ProcessModel, events: Seq<EventModel>, before_ts: Seq<char>) -> bool {
    match p.exit_ts {
        Some(exit) => lex_lt(exit, before_ts) && !is_pinned(events, p.pid, before_ts),
        None => false,
    }
}

/// The processes that a prune drops.
pub open spec fn spent(g: GraphModel, before_ts: Seq<char>) -> Seq<ProcessModel> {
    g.processes.filter(|p: ProcessModel| is_spent(p, g.events, before_ts))
}

/// The events that a prune drops.
pub open spec fn old_events(g: GraphModel, before_ts: Seq<char>) -> Seq<EventModel> {
    g.events.filter(|e: EventModel| is_old(e, before_ts))
}

/// The graph without what a prune drops.
pub open spec fn pruned(g: GraphModel, before_ts: Seq<char>) -> GraphModel {
    GraphModel {
        processes: g.processes.filter(|p: ProcessModel| !is_spent(p, g.events, before_ts)),
        events: g.events.filter(|e: EventModel| !is_old(e, before_ts)),
    }
}

/// What stays of a list has unique keys where the list has.
proof fn lemma_filter_keeps_keys(list: Seq<ProcessModel>, keep: spec_fn(ProcessModel) -> bool)
    requires
        has_unique_keys(list),
    ensures
        has_unique_keys(list.filter(keep)),
    decreases list.len(),
{
    reveal(Seq::filter);
    if list.len() > 0 {
        let front = list.drop_last();
        let kept = front.filter(keep);
        let p = list.last();
        assert(has_unique_keys(front)) by {
            assert forall|i: int, j: int| 0 <= i < j < front.len() implies !is_incarnation(
                #[trigger] front[i],
                (#[trigger] front[j]).pid,
                front[j].start_ts,
            ) by {
                assert(front[i] == list[i] && front[j] == list[j]);
            }
        }
        lemma_filter_keeps_keys(front, keep);
        if keep(p) {
            assert forall|i: int| 0 <= i < kept.len() implies !is_incarnation(
                #[trigger] kept[i],
                p.pid,
                p.start_ts,
            ) by {
                assert(kept.contains(kept[i]));
                front.lemma_filter_contains_rev(keep, kept[i]);
                let k = choose|k: int| 0 <= k < front.len() && front[k] == kept[i];
                assert(list[k] == kept[i]);
                assert(list[list.len() - 1] == p);
            }
        }
    }
}

impl Graph {
    /// Does a retained event name the pid?
    fn pins(&self, pid: i32, before_ts: &str) -> (r: bool)
        ensures
            r == is_pinned(self@.events, pid, before_ts@),
    {
        let ghost events = self@.events;
        let mut i: usize = 0;
        while i < self.events.len()
            invariant
                i <= self.events@.len(),
                events == self@.events,
                forall|j: int|
                    0 <= j < i ==> !((#[trigger] events[j]).pid == pid && lex_le(
                        before_ts@,
                        events[j].ts,
                    )),
            decreases self.events@.len() - i,
        {
            if self.events[i].pid == pid && text_le(before_ts, self.events[i].ts.as_str()) {
                assert(events[i as int].pid == pid);
                return true;
            }
            i += 1;
        }
        false
    }

    /// Can the process be dropped?
    fn can_drop(&self, p: &Process, before_ts: &str) -> (r: bool)
        ensures
            r == is_spent(p@, self@.events, before_ts@),
    {
        match &p.exit_ts {
            Some(exit) => text_lt(exit.as_str(), before_ts) && !self.pins(p.pid, before_ts),
            None => false,
        }
    }

    /// How many processes and how many events predate the cutoff: what
    /// [`Graph::prune`] would drop.
    pub fn prune_preview(&self, before_ts: &str) -> (r: (usize, usize))
        ensures
            r.0 == spent(self@, before_ts@).len(),
            r.1 == old_events(self@, before_ts@).len(),
    {
        let ghost g = self@;
        let ghost out = |p: ProcessModel| is_spent(p, g.events, before_ts@);
        let ghost old = |e: EventModel| is_old(e, before_ts@);
        let mut procs: usize = 0;
        let mut i: usize = 0;
        proof {
            reveal(Seq::filter);
        }
        while i < self.processes.len()
            invariant
                i <= self.processes@.len(),
                g == self@,
                out == (|p: ProcessModel| is_spent(p, g.events, before_ts@)),
                procs <= i,
                procs == g.processes.take(i as int).filter(out).len(),
            decreases self.processes@.len() - i,
        {
            proof {
                reveal(Seq::filter);
                assert(g.processes.take(i + 1).drop_last() =~= g.processes.take(i as int));
                assert(g.processes.take(i + 1).last() == self.processes@[i as int]@);
            }
            if self.can_drop(&self.processes[i], before_ts) {
                procs += 1;
            }
            i += 1;
        }
        let mut events: usize = 0;
        let mut k: usize = 0;
        while k < self.events.len()
            invariant
                k <= self.events@.len(),
                g == self@,
                old == (|e: EventModel| is_old(e, before_ts@)),
                events <= k,
                events == g.events.take(k as int).filter(old).len(),
            decreases self.events@.len() - k,
        {
            proof {
                reveal(Seq::filter);
                assert(g.events.take(k + 1).drop_last() =~= g.events.take(k as int));
                assert(g.events.take(k + 1).last() == self.events@[k as int]@);
            }
            if text_lt(self.events[k].ts.as_str(), before_ts) {
                events += 1;
            }
            k += 1;
        }
        proof {
            assert(g.processes.take(g.processes.len() as int) =~= g.processes);
            assert(g.events.take(g.events.len() as int) =~= g.events);
        }
        (procs, events)
    }

    /// Drops history older than the cutoff, and says how many processes and
    /// how many events went.
    ///
    /// Ancestry that reaches back past the cutoff is truncated: a retained
    /// event may be explained only as far as the oldest surviving ancestor.
    pub fn prune(&mut self, before_ts: &str) -> (r: (usize, usize))
        requires
            old(self).wf(),
        ensures
            final(self).wf(),
            final(self)@ == pruned(old(self)@, before_ts@),
            r.0 == spent(old(self)@, before_ts@).len(),
            r.1 == old_events(old(self)@, before_ts@).len(),
    {
        let ghost g = self@;
        let removed = self.prune_preview(before_ts);
        let ghost keep = |p: ProcessModel| !is_spent(p, g.events, before_ts@);
        let ghost keep_event = |e: EventModel| !is_old(e, before_ts@);
        proof {
            reveal(Seq::filter);
            assert(process_models(Seq::<Process>::empty()) =~= g.processes.take(0).filter(keep));
            assert(stored_events(Seq::<Event>::empty()) =~= g.events.take(0).filter(keep_event));
        }
        // Processes first, while the events that pin them still exist.
        let mut rest: Vec<Process> = Vec::new();
        std::mem::swap(&mut rest, &mut self.processes);
        let mut kept: Vec<Process> = Vec::new();
        for p in it: rest
            invariant
                self@.events == g.events,
                it.seq() == rest@,
                process_models(rest@) == g.processes,
                keep == (|p: ProcessModel| !is_spent(p, g.events, before_ts@)),
                process_models(kept@) == g.processes.take(it.index() as int).filter(keep),
        {
            let ghost before = kept@;
            let ghost at = it.index() as int;
            proof {
                reveal(Seq::filter);
                assert(g.processes.take(at + 1).drop_last() =~= g.processes.take(at));
                assert(g.processes.take(at + 1).last() == p@);
            }
            if !self.can_drop(&p, before_ts) {
                kept.push(p);
                assert(process_models(kept@) =~= process_models(before).push(p@));
            }
        }
        assert(g.processes.take(g.processes.len() as int) =~= g.processes);
        let mut all: Vec<Event> = Vec::new();
        std::mem::swap(&mut all, &mut self.events);
        let mut kept_events: Vec<Event> = Vec::new();
        for e in it: all
            invariant
                it.seq() == all@,
                stored_events(all@) == g.events,
                keep_event == (|e: EventModel| !is_old(e, before_ts@)),
                stored_events(kept_events@) == g.events.take(it.index() as int).filter(keep_event),
        {
            let ghost before = kept_events@;
            let ghost at = it.index() as int;
            proof {
                reveal(Seq::filter);
                assert(g.events.take(at + 1).drop_last() =~= g.events.take(at));
                assert(g.events.take(at + 1).last() == e@);
            }
            if !text_lt(e.ts.as_str(), before_ts) {
                kept_events.push(e);
                assert(stored_events(kept_events@) =~= stored_events(before).push(e@));
            }
        }
        assert(g.events.take(g.events.len() as int) =~= g.events);
        self.processes = kept;
        self.events = kept_events;
        proof {
            lemma_filter_keeps_keys(g.processes, keep);
        }
        removed
    }
}

} // verus!
