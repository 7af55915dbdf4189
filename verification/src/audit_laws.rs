//! What holds of the questions to the audit log, told in terms of the events
//! and the snapshots.
use crate::audit::{
    below_root, by_time, changes_of, event_times, events_in, fits_a_line, headline_text, line_event,
    list_text, listing, log_text, nothing_recorded_text, oldest_after, oldest_is_the_least,
    one_per_time, sides_of, the_log_gives_back_what_was_written, told, who, EventModel, SidesModel,
};
use crate::json::{a_log_line_reads_back, entry_line, is_faithful, string_value, EntryModel};
use crate::number::int_text;
use crate::order::{is_text_order, text_before, text_order_exists};
use crate::path::{components, is_within};
use crate::revert::{newest_at_or_before, newest_is_the_greatest};
use crate::revert_laws::{
    a_pre_image_mirrors_the_tree, all_later, copy_of, is_newest_before, is_snapshot_name,
};
use crate::text::{has_part, lex_le, lex_lt, lex_total, lex_transitive, lines_of, pad_right};
use crate::text_laws::lemma_part;
use vstd::prelude::*;

verus! {

// ---------------------------------------------------------------------
// Order and repetition
// ---------------------------------------------------------------------
/// Putting events in time order: no event comes before an older one, events of
/// one time keep their order, and every event is there exactly once.
pub proof fn events_are_put_in_time_order(list: Seq<EventModel>)
    ensures
        by_time(list).len() == list.len(),
        forall|i: int, j: int|
            0 <= i < j < list.len() ==> lex_le(
                (#[trigger] by_time(list)[i]).ts,
                (#[trigger] by_time(list)[j]).ts,
            ),
        exists|p: Seq<int>| #[trigger] is_stable_order(list, by_time(list), p),
{
    let keys = event_times(list);
    text_order_exists(keys);
    let p = choose|p: Seq<int>| is_text_order(keys, p);
    let sorted = by_time(list);
    assert forall|i: int, j: int| 0 <= i < j < list.len() implies lex_le(
        (#[trigger] sorted[i]).ts,
        (#[trigger] sorted[j]).ts,
    ) by {
        assert(text_before(keys, p[i], p[j]));
    }
    assert forall|i: int, j: int|
        0 <= i < j < p.len() && sorted[i].ts == sorted[j].ts implies #[trigger] p[i]
        < #[trigger] p[j] by {
        assert(text_before(keys, p[i], p[j]));
        lex_total(keys[p[i]], keys[p[j]]);
    }
    assert(is_stable_order(list, sorted, p));
}

/// Does `p` say of each item of `sorted` where it stood in `list`, with each
/// place once and items of one time in the order of `list`?
pub open spec fn is_stable_order(
    list: Seq<EventModel>,
    sorted: Seq<EventModel>,
    p: Seq<int>,
) -> bool {
    &&& p.len() == list.len()
    &&& sorted.len() == list.len()
    &&& forall|i: int| 0 <= i < p.len() ==> 0 <= #[trigger] p[i] < list.len() && sorted[i] == list[p[i]]
    &&& forall|k: int| 0 <= k < list.len() ==> #[trigger] p.contains(k)
    &&& forall|i: int, j: int|
        0 <= i < j < p.len() && sorted[i].ts == sorted[j].ts ==> #[trigger] p[i] < #[trigger] p[j]
}

/// Are the events in time order?
pub open spec fn is_in_time_order(list: Seq<EventModel>) -> bool {
    forall|i: int, j: int|
        0 <= i < j < list.len() ==> lex_le((#[trigger] list[i]).ts, (#[trigger] list[j]).ts)
}

/// Is the event at `i` the first of its time?
pub open spec fn is_first_of_its_time(list: Seq<EventModel>, i: int) -> bool {
    0 <= i < list.len() && forall|j: int| 0 <= j < i ==> (#[trigger] list[j]).ts != list[i].ts
}

/// Is there an event of this time?
pub open spec fn has_time(list: Seq<EventModel>, ts: Seq<char>) -> bool {
    exists|k: int| 0 <= k < list.len() && (#[trigger] list[k]).ts == ts
}

/// Is `x` the first event of its time?
pub open spec fn is_a_first(list: Seq<EventModel>, x: EventModel) -> bool {
    exists|i: int| #[trigger] is_first_of_its_time(list, i) && list[i] == x
}

/// Are the events in time order, with no time twice?
pub open spec fn are_apart(list: Seq<EventModel>) -> bool {
    forall|k: int, m: int|
        0 <= k < m < list.len() ==> lex_lt((#[trigger] list[k]).ts, (#[trigger] list[m]).ts)
}

/// Of events in time order one is kept for every time: the first of that time.
/// What is kept is in time order, and no time is kept twice.
pub proof fn one_event_is_kept_for_every_time(list: Seq<EventModel>)
    requires
        is_in_time_order(list),
    ensures
        forall|ts: Seq<char>| #[trigger] has_time(one_per_time(list), ts) <==> has_time(list, ts),
        forall|x: EventModel| #[trigger] one_per_time(list).contains(x) ==> is_a_first(list, x),
        are_apart(one_per_time(list)),
    decreases list.len(),
{
    if list.len() > 0 {
        let front = list.drop_last();
        let x = list.last();
        let kept = one_per_time(front);
        assert forall|i: int, j: int| 0 <= i < j < front.len() implies lex_le(
            (#[trigger] front[i]).ts,
            (#[trigger] front[j]).ts,
        ) by {
            assert(lex_le(list[i].ts, list[j].ts));
        }
        one_event_is_kept_for_every_time(front);
        assert(list =~= front.push(x));
        assert forall|i: int| 0 <= i < front.len() implies lex_le((#[trigger] front[i]).ts, x.ts) by {
            assert(lex_le(list[i].ts, list[front.len() as int].ts));
        }
        if kept.len() > 0 && kept.last().ts == x.ts {
            lemma_repeated(front, x, kept);
        } else {
            lemma_not_repeated(front, x, kept);
        }
    } else {
        assert forall|ts: Seq<char>| #[trigger] has_time(one_per_time(list), ts) <==> has_time(
            list,
            ts,
        ) by {}
    }
}

/// One more event has one more time.
proof fn lemma_has_time(list: Seq<EventModel>, x: EventModel, ts: Seq<char>)
    ensures
        has_time(list.push(x), ts) <==> has_time(list, ts) || x.ts == ts,
{
    let more = list.push(x);
    assert(more[list.len() as int] == x);
    if has_time(list, ts) {
        let k = choose|k: int| 0 <= k < list.len() && (#[trigger] list[k]).ts == ts;
        assert(more[k].ts == ts);
    }
    if has_time(more, ts) {
        let k = choose|k: int| 0 <= k < more.len() && (#[trigger] more[k]).ts == ts;
        if k < list.len() {
            assert(list[k].ts == ts);
        }
    }
}

/// One more event takes no other its place as the first.
proof fn lemma_still_first(list: Seq<EventModel>, x: EventModel, y: EventModel)
    ensures
        is_a_first(list, y) ==> is_a_first(list.push(x), y),
        !has_time(list, x.ts) ==> is_a_first(list.push(x), x),
{
    let more = list.push(x);
    if is_a_first(list, y) {
        let i = choose|i: int| #[trigger] is_first_of_its_time(list, i) && list[i] == y;
        assert forall|j: int| 0 <= j < i implies (#[trigger] more[j]).ts != more[i].ts by {
            assert(list[j].ts != list[i].ts);
        }
        assert(is_first_of_its_time(more, i));
    }
    if !has_time(list, x.ts) {
        let n = list.len() as int;
        assert(more[n] == x);
        assert forall|j: int| 0 <= j < n implies (#[trigger] more[j]).ts != more[n].ts by {
            assert(more[j] == list[j]);
        }
        assert(is_first_of_its_time(more, n));
    }
}

proof fn lemma_repeated(front: Seq<EventModel>, x: EventModel, kept: Seq<EventModel>)
    requires
        forall|ts: Seq<char>| #[trigger] has_time(kept, ts) <==> has_time(front, ts),
        forall|y: EventModel| #[trigger] kept.contains(y) ==> is_a_first(front, y),
        kept.len() > 0,
        kept.last().ts == x.ts,
    ensures
        forall|ts: Seq<char>| #[trigger] has_time(kept, ts) <==> has_time(front.push(x), ts),
        forall|y: EventModel| #[trigger] kept.contains(y) ==> is_a_first(front.push(x), y),
{
    assert(kept[kept.len() - 1].ts == x.ts);
    assert(has_time(kept, x.ts));
    assert forall|ts: Seq<char>| #[trigger] has_time(kept, ts) <==> has_time(front.push(x), ts) by {
        lemma_has_time(front, x, ts);
    }
    assert forall|y: EventModel| #[trigger] kept.contains(y) implies is_a_first(front.push(x), y) by {
        lemma_still_first(front, x, y);
    }
}

proof fn lemma_not_repeated(front: Seq<EventModel>, x: EventModel, kept: Seq<EventModel>)
    requires
        forall|ts: Seq<char>| #[trigger] has_time(kept, ts) <==> has_time(front, ts),
        forall|y: EventModel| #[trigger] kept.contains(y) ==> is_a_first(front, y),
        are_apart(kept),
        forall|i: int| 0 <= i < front.len() ==> lex_le((#[trigger] front[i]).ts, x.ts),
        kept.len() == 0 || kept.last().ts != x.ts,
    ensures
        forall|ts: Seq<char>| #[trigger] has_time(kept.push(x), ts) <==> has_time(front.push(x), ts),
        forall|y: EventModel| #[trigger] kept.push(x).contains(y) ==> is_a_first(front.push(x), y),
        are_apart(kept.push(x)),
{
    // Nothing that is kept has the time of the last event or a later one.
    assert forall|k: int| 0 <= k < kept.len() implies lex_lt((#[trigger] kept[k]).ts, x.ts) by {
        lemma_kept_is_before(front, x, kept, k);
        let last = kept.len() - 1;
        lemma_kept_is_before(front, x, kept, last);
        assert(lex_lt(kept[last].ts, x.ts));
        if k < last {
            assert(lex_lt(kept[k].ts, kept[last].ts));
            lex_transitive(kept[k].ts, kept[last].ts, x.ts);
        }
    }
    assert(!has_time(kept, x.ts)) by {
        if has_time(kept, x.ts) {
            let k = choose|k: int| 0 <= k < kept.len() && (#[trigger] kept[k]).ts == x.ts;
            lex_total(kept[k].ts, x.ts);
        }
    }
    assert forall|ts: Seq<char>| #[trigger] has_time(kept.push(x), ts) <==> has_time(
        front.push(x),
        ts,
    ) by {
        lemma_has_time(front, x, ts);
        lemma_has_time(kept, x, ts);
        assert(has_time(kept, ts) <==> has_time(front, ts));
    }
    assert forall|y: EventModel| #[trigger] kept.push(x).contains(y) implies is_a_first(
        front.push(x),
        y,
    ) by {
        lemma_still_first(front, x, y);
        lemma_still_first(front, x, x);
        assert(has_time(kept, x.ts) <==> has_time(front, x.ts));
        let k = choose|k: int| 0 <= k < kept.push(x).len() && kept.push(x)[k] == y;
        if k < kept.len() {
            assert(kept[k] == y);
            assert(kept.contains(y));
        }
    }
}

proof fn lemma_kept_is_before(front: Seq<EventModel>, x: EventModel, kept: Seq<EventModel>, k: int)
    requires
        0 <= k < kept.len(),
        forall|y: EventModel| #[trigger] kept.contains(y) ==> is_a_first(front, y),
        forall|i: int| 0 <= i < front.len() ==> lex_le((#[trigger] front[i]).ts, x.ts),
    ensures
        lex_le(kept[k].ts, x.ts),
{
    assert(kept.contains(kept[k]));
    let i = choose|i: int| #[trigger] is_first_of_its_time(front, i) && front[i] == kept[k];
    assert(lex_le(front[i].ts, x.ts));
}

// ---------------------------------------------------------------------
// Differences
// ---------------------------------------------------------------------
/// Is this the oldest of the snapshots that were made after `ts`?
pub open spec fn is_oldest_behind(names: Seq<Seq<char>>, ts: Seq<char>, snap: Seq<char>) -> bool {
    &&& names.contains(snap)
    &&& lex_lt(ts, snap)
    &&& forall|k: int|
        0 <= k < names.len() && lex_lt(ts, #[trigger] names[k]) ==> lex_le(snap, names[k])
}

/// Is there no snapshot behind `ts`?
pub open spec fn none_behind(names: Seq<Seq<char>>, ts: Seq<char>) -> bool {
    forall|k: int| 0 <= k < names.len() ==> !lex_lt(ts, #[trigger] names[k])
}

/// Do the sides show a change of `target` at `ts`: its copies in the newest
/// snapshot at or before the change and in the oldest one behind it? Where one
/// of the two is missing, the other is named.
pub open spec fn shows_the_change(
    sides: SidesModel,
    names: Seq<Seq<char>>,
    ts: Seq<char>,
    mount: Seq<char>,
    live_root: Seq<char>,
    target: Seq<char>,
) -> bool {
    match sides {
        SidesModel::Both { older, newer } => exists|a: Seq<char>, b: Seq<char>|
            {
                &&& #[trigger] is_newest_before(names, ts, a)
                &&& #[trigger] is_oldest_behind(names, ts, b)
                &&& components(older) == copy_of(target, a, mount, live_root)
                &&& components(newer) == copy_of(target, b, mount, live_root)
            },
        SidesModel::Missing { before, after } => {
            &&& match before {
                Some(a) => is_newest_before(names, ts, a),
                None => all_later(names, ts),
            }
            &&& match after {
                Some(b) => is_oldest_behind(names, ts, b),
                None => none_behind(names, ts),
            }
            &&& before is None || after is None
        },
    }
}

/// A change within the live tree is shown between the snapshots on either side
/// of it, as the same file in both.
pub proof fn a_change_is_shown_between_its_snapshots(
    names: Seq<Seq<char>>,
    ts: Seq<char>,
    mount: Seq<char>,
    live_root: Seq<char>,
    target: Seq<char>,
)
    requires
        forall|k: int| 0 <= k < names.len() ==> is_snapshot_name(#[trigger] names[k]),
        components(live_root).len() > 0,
        is_within(target, live_root),
    ensures
        shows_the_change(
            sides_of(names, ts, mount, below_root(target, live_root)),
            names,
            ts,
            mount,
            live_root,
            target,
        ),
{
    newest_is_the_greatest(names, ts);
    oldest_is_the_least(names, ts);
    let before = newest_at_or_before(names, ts);
    let after = oldest_after(names, ts);
    if before is Some && after is Some {
        let (a, b) = (before->0, after->0);
        let i = choose|i: int| 0 <= i < names.len() && names[i] == a;
        let j = choose|j: int| 0 <= j < names.len() && names[j] == b;
        assert(is_snapshot_name(names[i]) && is_snapshot_name(names[j]));
        a_pre_image_mirrors_the_tree(target, a, mount, live_root);
        a_pre_image_mirrors_the_tree(target, b, mount, live_root);
        assert(is_newest_before(names, ts, a) && is_oldest_behind(names, ts, b));
    }
}

/// Is the change at `k` that of the first event logged at its time?
pub open spec fn is_change_of(
    events: Seq<EventModel>,
    i: int,
    names: Seq<Seq<char>>,
    mount: Seq<char>,
    live_root: Seq<char>,
    target: Seq<char>,
    c: crate::audit::ChangeModel,
) -> bool {
    &&& is_first_of_its_time(events, i)
    &&& has_part(c.headline, events[i].ts)
    &&& has_part(c.headline, events[i].pid)
    &&& has_part(c.headline, events[i].cmdline)
    &&& shows_the_change(c.sides, names, events[i].ts, mount, live_root, target)
}

/// A file's changes are shown one per time: every time at which the log has an
/// event has its change, which is that of the first event logged at that time.
pub proof fn every_time_has_its_change(
    events: Seq<EventModel>,
    names: Seq<Seq<char>>,
    mount: Seq<char>,
    live_root: Seq<char>,
    target: Seq<char>,
    i: int,
)
    requires
        forall|k: int| 0 <= k < names.len() ==> is_snapshot_name(#[trigger] names[k]),
        components(live_root).len() > 0,
        is_within(target, live_root),
        is_first_of_its_time(events, i),
    ensures
        ({
            let changes = changes_of(events, names, mount, below_root(target, live_root));
            exists|k: int|
                0 <= k < changes.len() && is_change_of(
                    events,
                    i,
                    names,
                    mount,
                    live_root,
                    target,
                    #[trigger] changes[k],
                )
        }),
{
    let sorted = by_time(events);
    let kept = one_per_time(sorted);
    let changes = changes_of(events, names, mount, below_root(target, live_root));
    lemma_kept_is_first(events);
    events_are_put_in_time_order(events);
    one_event_is_kept_for_every_time(sorted);
    let p = choose|p: Seq<int>| #[trigger] is_stable_order(events, sorted, p);
    assert(p.contains(i));
    let j = choose|j: int| 0 <= j < p.len() && p[j] == i;
    assert(sorted[j] == events[i]);
    assert(has_time(sorted, events[i].ts));
    assert(has_time(kept, events[i].ts));
    let k = choose|k: int| 0 <= k < kept.len() && (#[trigger] kept[k]).ts == events[i].ts;
    let m = choose|m: int| #[trigger] is_first_of_its_time(events, m) && events[m] == kept[k];
    assert(m == i) by {
        if m < i {
            assert(events[m].ts != events[i].ts);
        } else if i < m {
            assert(events[i].ts != events[m].ts);
        }
    }
    a_headline_tells_the_event(events[i]);
    a_change_is_shown_between_its_snapshots(names, events[i].ts, mount, live_root, target);
    assert(is_change_of(events, i, names, mount, live_root, target, changes[k]));
}

/// No change is shown that the log does not have, and none twice: there are as
/// many as the log has times.
pub proof fn no_other_change_is_shown(
    events: Seq<EventModel>,
    names: Seq<Seq<char>>,
    mount: Seq<char>,
    live_root: Seq<char>,
    target: Seq<char>,
    k: int,
)
    requires
        forall|k: int| 0 <= k < names.len() ==> is_snapshot_name(#[trigger] names[k]),
        components(live_root).len() > 0,
        is_within(target, live_root),
        0 <= k < changes_of(events, names, mount, below_root(target, live_root)).len(),
    ensures
        exists|i: int|
            #![trigger is_first_of_its_time(events, i)]
            is_change_of(
                events,
                i,
                names,
                mount,
                live_root,
                target,
                changes_of(events, names, mount, below_root(target, live_root))[k],
            ) && one_per_time(by_time(events))[k].ts == events[i].ts,
        forall|m: int|
            0 <= m < one_per_time(by_time(events)).len() && m != k ==> (#[trigger] one_per_time(
                by_time(events),
            )[m]).ts != one_per_time(by_time(events))[k].ts,
        one_per_time(by_time(events)).len() == changes_of(
            events,
            names,
            mount,
            below_root(target, live_root),
        ).len(),
{
    let sorted = by_time(events);
    let kept = one_per_time(sorted);
    lemma_kept_is_first(events);
    events_are_put_in_time_order(events);
    one_event_is_kept_for_every_time(sorted);
    let i = choose|i: int| #[trigger] is_first_of_its_time(events, i) && events[i] == kept[k];
    a_headline_tells_the_event(events[i]);
    a_change_is_shown_between_its_snapshots(names, events[i].ts, mount, live_root, target);
    assert forall|m: int| 0 <= m < kept.len() && m != k implies (#[trigger] kept[m]).ts != kept[k].ts by {
        lex_total(kept[m].ts, kept[k].ts);
        if m < k {
            assert(lex_lt(kept[m].ts, kept[k].ts));
        } else {
            assert(lex_lt(kept[k].ts, kept[m].ts));
        }
    }
    assert(is_first_of_its_time(events, i));
}

/// What is kept of the events in time order are the first of each time as they
/// were logged.
proof fn lemma_kept_is_first(events: Seq<EventModel>)
    ensures
        forall|k: int|
            0 <= k < one_per_time(by_time(events)).len() ==> exists|i: int| #[trigger]
                is_first_of_its_time(events, i) && events[i] == #[trigger] one_per_time(
                    by_time(events),
                )[k],
{
    let sorted = by_time(events);
    let kept = one_per_time(sorted);
    events_are_put_in_time_order(events);
    one_event_is_kept_for_every_time(sorted);
    let p = choose|p: Seq<int>| #[trigger] is_stable_order(events, sorted, p);
    assert forall|k: int| 0 <= k < kept.len() implies exists|i: int| #[trigger]
        is_first_of_its_time(events, i) && events[i] == #[trigger] kept[k] by {
        assert(kept.contains(kept[k]));
        let j = choose|j: int| #[trigger] is_first_of_its_time(sorted, j) && sorted[j] == kept[k];
        let i = p[j];
        assert(events[i] == sorted[j]);
        assert forall|m: int| 0 <= m < i implies (#[trigger] events[m]).ts != events[i].ts by {
            assert(p.contains(m));
            let n = choose|n: int| 0 <= n < p.len() && p[n] == m;
            assert(sorted[n] == events[m]);
            if events[m].ts == events[i].ts {
                if j < n {
                    assert(p[j] < p[n]);
                } else if n < j {
                    assert(sorted[n].ts != sorted[j].ts);
                }
            }
        }
        assert(is_first_of_its_time(events, i));
    }
}

// ---------------------------------------------------------------------
// Texts
// ---------------------------------------------------------------------
/// The writer is shown by the name of the command, and by the program where
/// that has no name.
pub proof fn a_writer_is_shown_by_name(e: EventModel)
    ensures
        e.comm.len() > 0 ==> who(e) == e.comm,
        e.comm.len() == 0 ==> who(e) == e.exe,
{
}

/// The line above a change tells when it was, who made it, and how that was
/// invoked.
pub proof fn a_headline_tells_the_event(e: EventModel)
    ensures
        has_part(headline_text(e), e.ts),
        has_part(headline_text(e), who(e)),
        has_part(headline_text(e), e.pid),
        has_part(headline_text(e), e.cmdline),
{
    let t = headline_text(e);
    let (a, b, c, d, z) = ("\n=== "@, " — "@, " (pid "@, ", "@, ") ==="@);
    lemma_part(a, e.ts, b + who(e) + c + e.pid + d + e.cmdline + z);
    assert(t =~= a + e.ts + (b + who(e) + c + e.pid + d + e.cmdline + z));
    lemma_part(a + e.ts + b, who(e), c + e.pid + d + e.cmdline + z);
    assert(t =~= (a + e.ts + b) + who(e) + (c + e.pid + d + e.cmdline + z));
    lemma_part(a + e.ts + b + who(e) + c, e.pid, d + e.cmdline + z);
    assert(t =~= (a + e.ts + b + who(e) + c) + e.pid + (d + e.cmdline + z));
    lemma_part(a + e.ts + b + who(e) + c + e.pid + d, e.cmdline, z);
}

/// A line of a listing tells when, what, by which pid and by whom, and how the
/// writer was invoked.
pub proof fn a_listed_line_tells_the_event(e: EventModel)
    ensures
        has_part(list_text(e), e.ts),
        has_part(list_text(e), e.op),
        has_part(list_text(e), e.pid),
        has_part(list_text(e), who(e)),
        has_part(list_text(e), e.cmdline),
{
    let t = list_text(e);
    let (a, b, c, d, z) = ("  "@, " pid="@, " "@, "  ("@, ")"@);
    let op = pad_right(e.op, 10);
    let pid = pad_right(e.pid, 7);
    let op_rest = op.skip(e.op.len() as int);
    let pid_rest = pid.skip(e.pid.len() as int);
    crate::text_laws::padding_adds_spaces_only(e.op, 10);
    crate::text_laws::padding_adds_spaces_only(e.pid, 7);
    assert(op =~= e.op + op_rest);
    assert(pid =~= e.pid + pid_rest);
    let tail = c + who(e) + d + e.cmdline + z;
    lemma_part(Seq::empty(), e.ts, a + op + b + pid + tail);
    assert(t =~= Seq::empty() + e.ts + (a + op + b + pid + tail));
    lemma_part(e.ts + a, e.op, op_rest + b + pid + tail);
    assert(t =~= (e.ts + a) + e.op + (op_rest + b + pid + tail));
    lemma_part(e.ts + a + op + b, e.pid, pid_rest + tail);
    assert(t =~= (e.ts + a + op + b) + e.pid + (pid_rest + tail));
    lemma_part(e.ts + a + op + b + pid + c, who(e), d + e.cmdline + z);
    assert(t =~= (e.ts + a + op + b + pid + c) + who(e) + (d + e.cmdline + z));
    lemma_part(e.ts + a + op + b + pid + c + who(e) + d, e.cmdline, z);
}

/// A listing has a line for each event, oldest first; of a file without events
/// it says so, by name.
pub proof fn a_listing_has_every_event(events: Seq<EventModel>, target: Seq<char>, k: int)
    ensures
        events.len() > 0 ==> listing(events, target).len() == events.len(),
        0 <= k < events.len() ==> {
            let line = listing(events, target)[k];
            let e = by_time(events)[k];
            &&& has_part(line, e.ts)
            &&& has_part(line, e.op)
            &&& has_part(line, e.pid)
            &&& has_part(line, who(e))
            &&& has_part(line, e.cmdline)
        },
        events.len() == 0 ==> listing(events, target).len() == 1 && has_part(
            listing(events, target)[0],
            target,
        ),
{
    events_are_put_in_time_order(events);
    if 0 <= k < events.len() {
        a_listed_line_tells_the_event(by_time(events)[k]);
    }
    let said = "no recorded changes to "@;
    lemma_part(said, target, Seq::empty());
    assert(nothing_recorded_text(target) =~= said + target + Seq::empty());
}

// ---------------------------------------------------------------------
// The log
// ---------------------------------------------------------------------
/// Does the event tell all that the entry says?
pub open spec fn tells_entry(x: EventModel, e: EntryModel) -> bool {
    &&& x.ts == e.ts
    &&& x.path == e.path
    &&& x.op == e.op
    &&& x.pid == int_text(e.pid)
    &&& x.comm == e.comm
    &&& x.exe == e.exe
    &&& x.cmdline == e.cmdline
}

/// A line of the log is read as the event that it was written for.
pub proof fn a_line_is_read_as_it_was_written(e: EntryModel)
    requires
        is_faithful(e),
    ensures
        tells_entry(line_event(entry_line(e)), e),
{
    a_log_line_reads_back(e);
}

/// The events of a file are those that the log has of it, under its name or
/// under its resolved name: each entry is found, and nothing else is.
pub proof fn the_log_tells_of_the_file(
    entries: Seq<EntryModel>,
    target: Seq<char>,
    resolved: Seq<char>,
    i: int,
)
    requires
        forall|i: int| 0 <= i < entries.len() ==> is_faithful(#[trigger] entries[i]),
        forall|i: int| 0 <= i < entries.len() ==> fits_a_line(#[trigger] entries[i]),
        0 <= i < entries.len(),
    ensures
        ({
            let found = events_in(lines_of(log_text(entries)), target, resolved);
            &&& entries[i].path == target || entries[i].path == resolved ==> exists|k: int|
                0 <= k < found.len() && tells_entry(#[trigger] found[k], entries[i])
            &&& forall|k: int|
                0 <= k < found.len() ==> (#[trigger] found[k]).path == target || found[k].path
                    == resolved
        }),
{
    let f = |e: EntryModel| e.path == target || e.path == resolved;
    let mine = entries.filter(f);
    let found = events_in(lines_of(log_text(entries)), target, resolved);
    the_log_gives_back_what_was_written(entries, target, resolved);
    assert(found =~= mine.map_values(|e: EntryModel| told(e)));
    if f(entries[i]) {
        entries.lemma_filter_contains(f, i);
        let k = choose|k: int| 0 <= k < mine.len() && mine[k] == entries[i];
        assert(tells_entry(found[k], entries[i]));
    }
    assert forall|k: int| 0 <= k < found.len() implies (#[trigger] found[k]).path == target
        || found[k].path == resolved by {
        broadcast use Seq::lemma_filter_pred;

        assert(f(mine[k]));
    }
}

/// A file within the live tree is looked for below the snapshots by what is
/// below the tree's root; another by the whole of its path.
pub proof fn a_target_is_looked_for_below_the_root(target: Seq<char>, live_root: Seq<char>)
    ensures
        is_within(target, live_root) && components(live_root).len() > 0 ==> components(
            below_root(target, live_root),
        ) == components(target).skip(components(live_root).len() as int),
        !is_within(target, live_root) ==> below_root(target, live_root) == target,
{
    if is_within(target, live_root) && components(live_root).len() > 0 {
        crate::path_laws::what_is_behind_keeps_its_components(
            target,
            components(live_root).len(),
        );
    }
}

/// A field that a line does not have is empty.
pub proof fn a_missing_field_is_empty(line: Seq<char>, key: Seq<char>)
    requires
        !has_part(line, seq!['"'] + key + seq!['"', ':']),
    ensures
        crate::json::field_value(line, key).len() == 0,
{
}

/// A printable text without quotes and backslashes is written as it is, and a
/// text is written piece by piece.
pub proof fn printable_text_is_written_as_it_is(s: Seq<char>, t: Seq<char>)
    ensures
        (forall|i: int|
            0 <= i < s.len() ==> (#[trigger] s[i]) as int >= 32 && s[i] != '"' && s[i] != '\\')
            ==> crate::json::escaped(s) == s,
        crate::json::escaped(s + t) == crate::json::escaped(s) + crate::json::escaped(t),
    decreases s.len(),
{
    if s.len() == 0 {
        assert(s + t =~= t);
        assert(crate::json::escaped(s) + crate::json::escaped(t) =~= crate::json::escaped(t));
    } else {
        printable_text_is_written_as_it_is(s.skip(1), t);
        assert((s + t).skip(1) =~= s.skip(1) + t);
        assert((s + t)[0] == s[0]);
        assert(crate::json::escaped(s + t) =~= crate::json::escaped(s) + crate::json::escaped(t));
        if forall|i: int|
            0 <= i < s.len() ==> (#[trigger] s[i]) as int >= 32 && s[i] != '"' && s[i] != '\\' {
            assert forall|i: int| 0 <= i < s.skip(1).len() implies (#[trigger] s.skip(1)[i]) as int
                >= 32 && s.skip(1)[i] != '"' && s.skip(1)[i] != '\\' by {
                assert(s.skip(1)[i] == s[i + 1]);
            }
            assert(s[0] as int >= 32);
            assert(seq![s[0]] + s.skip(1) =~= s);
        }
    }
}

/// Behind a backslash a character stands for itself, but for the two that stand
/// for a line break and a tab, and the one that a number can follow.
pub proof fn a_backslash_takes_the_next_character(c: char, rest: Seq<char>)
    ensures
        c != 'n' && c != 't' && c != 'u' ==> string_value(seq!['\\', c] + rest) == seq![c]
            + string_value(rest),
        string_value(seq!['\\', 'n'] + rest) == seq!['\n'] + string_value(rest),
        string_value(seq!['\\', 't'] + rest) == seq!['\t'] + string_value(rest),
        c != '"' && c != '\\' ==> string_value(seq![c] + rest) == seq![c] + string_value(rest),
        string_value(seq!['"'] + rest).len() == 0,
{
    assert((seq!['\\', c] + rest).skip(2) =~= rest);
    assert((seq!['\\', 'n'] + rest).skip(2) =~= rest);
    assert((seq!['\\', 't'] + rest).skip(2) =~= rest);
    assert((seq![c] + rest).skip(1) =~= rest);
}

} // verus!
