//! Questions to the audit log: who changed a file, and between which
//! snapshots each change lies.
use crate::json::{
    a_log_line_reads_back, entry_line, field, field_value, is_faithful, is_one_line, EntryModel,
};
use crate::number::int_text;
use crate::order::{arranged, as_ints, is_text_order, text_order, text_order_is_unique};
use crate::path::{after_components, components, is_within, join_path, joined_path, strip_base};
use crate::revert::{newest_at_or_before, newest_is_the_greatest, snapshot_before};
use crate::text::{
    blank, is_blank, lex_le, lex_lt, lex_total, lex_transitive, lines, lines_of, no_text, opt_text,
    pad_right, padded, same_text, text_lt, texts,
};
use vstd::prelude::*;
use vstd::string::*;

verus! {

/// One event as the audit log tells it.
#[derive(Debug, Clone)]
pub struct Event {
    pub ts: String,
    pub path: String,
    pub op: String,
    pub pid: String,
    pub comm: String,
    pub exe: String,
    pub cmdline: String,
}

/// The plain values of an [`Event`].
#[verifier::ext_equal]
pub struct EventModel {
    pub ts: Seq<char>,
    pub path: Seq<char>,
    pub op: Seq<char>,
    pub pid: Seq<char>,
    pub comm: Seq<char>,
    pub exe: Seq<char>,
    pub cmdline: Seq<char>,
}

impl View for Event {
    type V = EventModel;

    open spec fn view(&self) -> EventModel {
        EventModel {
            ts: self.ts@,
            path: self.path@,
            op: self.op@,
            pid: self.pid@,
            comm: self.comm@,
            exe: self.exe@,
            cmdline: self.cmdline@,
        }
    }
}

/// The plain values of a list of events.
pub open spec fn models(list: Seq<Event>) -> Seq<EventModel> {
    Seq::new(list.len(), |i: int| list[i]@)
}

/// The event that a line tells of.
pub open spec fn line_event(line: Seq<char>) -> EventModel {
    EventModel {
        ts: field_value(line, "ts"@),
        path: field_value(line, "path"@),
        op: field_value(line, "op"@),
        pid: field_value(line, "pid"@),
        comm: field_value(line, "comm"@),
        exe: field_value(line, "exe"@),
        cmdline: field_value(line, "cmdline"@),
    }
}

/// Reads one line of the log. A blank line tells of nothing.
pub fn parse_line(line: &str) -> (r: Option<Event>)
    ensures
        r is None <==> is_blank(line@),
        r matches Some(e) ==> e@ == line_event(line@),
{
    if blank(line) {
        return None;
    }
    Some(
        Event {
            ts: field(line, "ts"),
            path: field(line, "path"),
            op: field(line, "op"),
            pid: field(line, "pid"),
            comm: field(line, "comm"),
            exe: field(line, "exe"),
            cmdline: field(line, "cmdline"),
        },
    )
}

/// Is a line about the file, under the name given or under its resolved name?
pub open spec fn is_line_about(line: Seq<char>, target: Seq<char>, resolved: Seq<char>) -> bool {
    !is_blank(line) && (line_event(line).path == target || line_event(line).path == resolved)
}

/// The events of a file, in the order of the log's lines.
pub open spec fn events_in(
    lines: Seq<Seq<char>>,
    target: Seq<char>,
    resolved: Seq<char>,
) -> Seq<EventModel> {
    lines.filter(|l: Seq<char>| is_line_about(l, target, resolved)).map_values(
        |l: Seq<char>| line_event(l),
    )
}

/// The events of a file in a log. `resolved` is the target's own name with
/// links followed, or the target again where it cannot be resolved.
pub fn load_events(content: &str, target: &str, resolved: &str) -> (r: Vec<Event>)
    ensures
        models(r@) == events_in(lines_of(content@), target@, resolved@),
{
    let all = lines(content);
    let ghost texts_of = texts(all@);
    let ghost about = |l: Seq<char>| is_line_about(l, target@, resolved@);
    let ghost tell = |l: Seq<char>| line_event(l);
    let mut out: Vec<Event> = Vec::new();
    let mut i: usize = 0;
    proof {
        reveal(Seq::filter);
        assert(models(out@) =~= texts_of.take(0).filter(about).map_values(tell));
    }
    while i < all.len()
        invariant
            i <= all@.len(),
            texts_of == texts(all@),
            about == (|l: Seq<char>| is_line_about(l, target@, resolved@)),
            tell == (|l: Seq<char>| line_event(l)),
            models(out@) == texts_of.take(i as int).filter(about).map_values(tell),
        decreases all@.len() - i,
    {
        let ghost before = out@;
        proof {
            reveal(Seq::filter);
            assert(texts_of.take(i + 1).drop_last() =~= texts_of.take(i as int));
            assert(texts_of.take(i + 1).last() == all@[i as int]@);
        }
        match parse_line(all[i].as_str()) {
            Some(e) => {
                if same_text(e.path.as_str(), target) || same_text(e.path.as_str(), resolved) {
                    out.push(e);
                    assert(models(out@) =~= models(before).push(e@));
                }
            },
            None => {},
        }
        assert(models(out@) =~= texts_of.take(i + 1).filter(about).map_values(tell));
        i += 1;
    }
    assert(texts_of.take(texts_of.len() as int) =~= texts_of);
    out
}

/// The times of a list of events.
pub open spec fn event_times(list: Seq<EventModel>) -> Seq<Seq<char>> {
    Seq::new(list.len(), |i: int| list[i].ts)
}

/// `list` by time, events of the same time in the order of `list`.
pub open spec fn by_time(list: Seq<EventModel>) -> Seq<EventModel> {
    arranged(list, choose|p: Seq<int>| is_text_order(event_times(list), p))
}

/// `list` without the events that have the time of the event kept before.
pub open spec fn one_per_time(list: Seq<EventModel>) -> Seq<EventModel>
    decreases list.len(),
{
    if list.len() == 0 {
        Seq::empty()
    } else {
        let kept = one_per_time(list.drop_last());
        if kept.len() > 0 && kept.last().ts == list.last().ts {
            kept
        } else {
            kept.push(list.last())
        }
    }
}

fn copy_event(e: &Event) -> (r: Event)
    ensures
        r@ == e@,
{
    Event {
        ts: e.ts.clone(),
        path: e.path.clone(),
        op: e.op.clone(),
        pid: e.pid.clone(),
        comm: e.comm.clone(),
        exe: e.exe.clone(),
        cmdline: e.cmdline.clone(),
    }
}

/// Puts events in time order.
pub fn sort_events(list: &Vec<Event>) -> (r: Vec<Event>)
    ensures
        models(r@) == by_time(models(list@)),
{
    let mut keys: Vec<String> = Vec::new();
    let mut i: usize = 0;
    while i < list.len()
        invariant
            i <= list@.len(),
            keys@.len() == i,
            forall|j: int| 0 <= j < i ==> (#[trigger] keys@[j])@ == list@[j].ts@,
        decreases list@.len() - i,
    {
        keys.push(list[i].ts.clone());
        i += 1;
    }
    let ghost all = models(list@);
    assert(texts(keys@) =~= event_times(all));
    let p = text_order(&keys);
    proof {
        let q = choose|q: Seq<int>| is_text_order(event_times(all), q);
        text_order_is_unique(event_times(all), as_ints(p@), q);
    }
    let mut out: Vec<Event> = Vec::new();
    let mut k: usize = 0;
    while k < p.len()
        invariant
            k <= p@.len(),
            is_text_order(event_times(models(list@)), as_ints(p@)),
            out@.len() == k,
            forall|j: int| 0 <= j < k ==> (#[trigger] out@[j])@ == list@[p@[j] as int]@,
        decreases p@.len() - k,
    {
        assert(as_ints(p@)[k as int] == p@[k as int]);
        out.push(copy_event(&list[p[k]]));
        k += 1;
    }
    assert(models(out@) =~= arranged(all, as_ints(p@))) by {
        assert forall|j: int| 0 <= j < out@.len() implies models(out@)[j] == arranged(
            all,
            as_ints(p@),
        )[j] by {
            assert(out@[j]@ == list@[p@[j] as int]@);
            assert(as_ints(p@)[j] == p@[j]);
        }
    }
    out
}

/// Keeps one event per time. Events of one time lie between the same
/// snapshots, so each further one would only repeat the difference.
pub fn dedup_events(list: &Vec<Event>) -> (r: Vec<Event>)
    ensures
        models(r@) == one_per_time(models(list@)),
{
    let mut out: Vec<Event> = Vec::new();
    let mut i: usize = 0;
    let ghost all = models(list@);
    assert(models(out@) =~= one_per_time(all.take(0)));
    while i < list.len()
        invariant
            i <= list@.len(),
            all == models(list@),
            models(out@) == one_per_time(all.take(i as int)),
        decreases list@.len() - i,
    {
        let ghost before = out@;
        proof {
            assert(all.take(i + 1).drop_last() =~= all.take(i as int));
            assert(all.take(i + 1).last() == list@[i as int]@);
            assert(models(out@).len() == out@.len());
        }
        let repeated = out.len() > 0 && same_text(
            out[out.len() - 1].ts.as_str(),
            list[i].ts.as_str(),
        );
        if !repeated {
            let e = copy_event(&list[i]);
            out.push(e);
            assert(models(out@) =~= models(before).push(e@));
        }
        i += 1;
    }
    assert(all.take(all.len() as int) =~= all);
    out
}

// ---------------------------------------------------------------------
// Listing
// ---------------------------------------------------------------------
/// Who wrote: the command's name, or its program where the name is unknown.
pub open spec fn who(e: EventModel) -> Seq<char> {
    if e.comm.len() == 0 {
        e.exe
    } else {
        e.comm
    }
}

/// Who wrote.
pub fn writer(e: &Event) -> (r: String)
    ensures
        r@ == who(e@),
{
    if no_text(e.comm.as_str()) {
        e.exe.clone()
    } else {
        e.comm.clone()
    }
}

/// One line of a listing.
pub open spec fn list_text(e: EventModel) -> Seq<char> {
    e.ts + "  "@ + pad_right(e.op, 10) + " pid="@ + pad_right(e.pid, 7) + " "@ + who(e) + "  ("@
        + e.cmdline + ")"@
}

/// What is said of a file without a recorded change.
pub open spec fn nothing_recorded_text(target: Seq<char>) -> Seq<char> {
    "no recorded changes to "@ + target
}

/// What is said of a file without a recorded change.
pub fn nothing_recorded(target: &str) -> (r: String)
    ensures
        r@ == nothing_recorded_text(target@),
{
    let mut out = "no recorded changes to ".to_string();
    out.append(target);
    out
}

fn list_line(e: &Event) -> (r: String)
    ensures
        r@ == list_text(e@),
{
    let mut out = e.ts.clone();
    out.append("  ");
    out.append(padded(e.op.as_str(), 10).as_str());
    out.append(" pid=");
    out.append(padded(e.pid.as_str(), 7).as_str());
    out.append(" ");
    out.append(writer(e).as_str());
    out.append("  (");
    out.append(e.cmdline.as_str());
    out.append(")");
    out
}

/// The listing of a file: one line per event, oldest first.
pub open spec fn listing(events: Seq<EventModel>, target: Seq<char>) -> Seq<Seq<char>> {
    if events.len() == 0 {
        seq![nothing_recorded_text(target)]
    } else {
        by_time(events).map_values(|e: EventModel| list_text(e))
    }
}

/// The listing of a file.
pub fn list_report(events: &Vec<Event>, target: &str) -> (r: Vec<String>)
    ensures
        texts(r@) == listing(models(events@), target@),
{
    let mut out: Vec<String> = Vec::new();
    assert(models(events@).len() == events@.len());
    if events.len() == 0 {
        out.push(nothing_recorded(target));
        assert(texts(out@) =~= listing(models(events@), target@));
        return out;
    }
    let sorted = sort_events(events);
    let mut i: usize = 0;
    while i < sorted.len()
        invariant
            i <= sorted@.len(),
            out@.len() == i,
            forall|j: int| 0 <= j < i ==> (#[trigger] out@[j])@ == list_text(sorted@[j]@),
        decreases sorted@.len() - i,
    {
        out.push(list_line(&sorted[i]));
        i += 1;
    }
    assert(models(sorted@).len() == sorted@.len());
    assert(texts(out@) =~= listing(models(events@), target@));
    out
}

// ---------------------------------------------------------------------
// Differences
// ---------------------------------------------------------------------
/// The oldest of `names` after `ts`, by text order.
pub open spec fn oldest_after(names: Seq<Seq<char>>, ts: Seq<char>) -> Option<Seq<char>>
    decreases names.len(),
{
    if names.len() == 0 {
        None
    } else {
        let rest = oldest_after(names.drop_last(), ts);
        let name = names.last();
        if !lex_lt(ts, name) || rest is Some && !lex_lt(name, rest->0) {
            rest
        } else {
            Some(name)
        }
    }
}

/// The chosen snapshot is one of the names, lies after the time, and no other
/// name that does so is older; none is chosen only where no name is later.
pub proof fn oldest_is_the_least(names: Seq<Seq<char>>, ts: Seq<char>)
    ensures
        match oldest_after(names, ts) {
            Some(best) => {
                &&& names.contains(best)
                &&& lex_lt(ts, best)
                &&& forall|i: int|
                    0 <= i < names.len() && lex_lt(ts, #[trigger] names[i]) ==> lex_le(best, names[i])
            },
            None => forall|i: int| 0 <= i < names.len() ==> !lex_lt(ts, #[trigger] names[i]),
        },
    decreases names.len(),
{
    if names.len() > 0 {
        let front = names.drop_last();
        let n = front.len() as int;
        oldest_is_the_least(front, ts);
        assert forall|i: int| 0 <= i < n implies #[trigger] names[i] == front[i] by {}
        assert(names[n] == names.last());
        match oldest_after(front, ts) {
            Some(best) => {
                let k = choose|k: int| 0 <= k < front.len() && front[k] == best;
                assert(names[k] == best);
                lex_total(names[n], best);
                if lex_lt(ts, names[n]) && lex_lt(names[n], best) {
                    assert forall|i: int|
                        0 <= i < names.len() && lex_lt(ts, #[trigger] names[i]) implies lex_le(
                        names[n],
                        names[i],
                    ) by {
                        if i < n && names[i] != best {
                            lex_transitive(names[n], best, names[i]);
                        }
                    }
                }
            },
            None => {},
        }
    }
}

/// The snapshots on either side of a change: the newest at or before it, and
/// the oldest after it.
///
/// Names and event times share one format, so this is a comparison of texts.
pub fn bracket(names: &Vec<String>, ts: &str) -> (r: (Option<String>, Option<String>))
    ensures
        opt_text(r.0) == newest_at_or_before(texts(names@), ts@),
        opt_text(r.1) == oldest_after(texts(names@), ts@),
{
    let before = match snapshot_before(names, ts) {
        Some(s) => Some(s.clone()),
        None => None,
    };
    let mut after: Option<String> = None;
    let mut i: usize = 0;
    let ghost all = texts(names@);
    while i < names.len()
        invariant
            i <= names@.len(),
            all == texts(names@),
            opt_text(after) == oldest_after(all.take(i as int), ts@),
        decreases names@.len() - i,
    {
        assert(all.take(i + 1).drop_last() =~= all.take(i as int));
        assert(all.take(i + 1).last() == names@[i as int]@);
        if text_lt(ts, names[i].as_str()) {
            let better = match &after {
                Some(best) => text_lt(names[i].as_str(), best.as_str()),
                None => true,
            };
            if better {
                after = Some(names[i].clone());
            }
        }
        i += 1;
    }
    assert(all.take(all.len() as int) =~= all);
    (before, after)
}

/// A change lies between its bracket, and no snapshot lies in between.
pub proof fn a_bracket_is_tight(names: Seq<Seq<char>>, ts: Seq<char>)
    ensures
        newest_at_or_before(names, ts) matches Some(b) ==> lex_le(b, ts),
        oldest_after(names, ts) matches Some(a) ==> lex_lt(ts, a),
        forall|i: int|
            0 <= i < names.len() ==> {
                ||| newest_at_or_before(names, ts) is Some && lex_le(
                    #[trigger] names[i],
                    newest_at_or_before(names, ts)->0,
                )
                ||| oldest_after(names, ts) is Some && lex_le(oldest_after(names, ts)->0, names[i])
            },
{
    newest_is_the_greatest(names, ts);
    oldest_is_the_least(names, ts);
    assert forall|i: int| 0 <= i < names.len() implies {
        ||| newest_at_or_before(names, ts) is Some && lex_le(
            #[trigger] names[i],
            newest_at_or_before(names, ts)->0,
        )
        ||| oldest_after(names, ts) is Some && lex_le(oldest_after(names, ts)->0, names[i])
    } by {
        lex_total(names[i], ts);
        assert(lex_le(names[i], ts) || lex_lt(ts, names[i]));
    }
}

/// The two files whose difference shows a change, or the bracket where it is
/// not complete.
#[derive(Debug, Clone)]
pub enum Sides {
    Both { older: String, newer: String },
    Missing { before: Option<String>, after: Option<String> },
}

/// The plain values of [`Sides`].
#[verifier::ext_equal]
pub enum SidesModel {
    Both { older: Seq<char>, newer: Seq<char> },
    Missing { before: Option<Seq<char>>, after: Option<Seq<char>> },
}

impl View for Sides {
    type V = SidesModel;

    open spec fn view(&self) -> SidesModel {
        match *self {
            Sides::Both { older, newer } => SidesModel::Both { older: older@, newer: newer@ },
            Sides::Missing { before, after } => SidesModel::Missing {
                before: opt_text(before),
                after: opt_text(after),
            },
        }
    }
}

/// One change to show: its headline and its two sides.
#[derive(Debug, Clone)]
pub struct Change {
    pub headline: String,
    pub sides: Sides,
}

/// The plain values of a [`Change`].
#[verifier::ext_equal]
pub struct ChangeModel {
    pub headline: Seq<char>,
    pub sides: SidesModel,
}

impl View for Change {
    type V = ChangeModel;

    open spec fn view(&self) -> ChangeModel {
        ChangeModel { headline: self.headline@, sides: self.sides@ }
    }
}

/// The plain values of a list of changes.
pub open spec fn change_models(list: Seq<Change>) -> Seq<ChangeModel> {
    Seq::new(list.len(), |i: int| list[i]@)
}

/// The line above a change.
pub open spec fn headline_text(e: EventModel) -> Seq<char> {
    "\n=== "@ + e.ts + " — "@ + who(e) + " (pid "@ + e.pid + ", "@ + e.cmdline + ") ==="@
}

/// The target below the live root. Snapshots mirror the contents of the live
/// root, not its full path. A target outside it stays as it is.
pub open spec fn below_root(target: Seq<char>, live_root: Seq<char>) -> Seq<char> {
    if is_within(target, live_root) {
        after_components(target, components(live_root).len())
    } else {
        target
    }
}

/// The file inside one snapshot below the mount.
pub open spec fn file_in_snapshot(mount: Seq<char>, name: Seq<char>, rel: Seq<char>) -> Seq<char> {
    join_path(join_path(mount, name), rel)
}

/// The sides of a change.
pub open spec fn sides_of(
    names: Seq<Seq<char>>,
    ts: Seq<char>,
    mount: Seq<char>,
    rel: Seq<char>,
) -> SidesModel {
    let before = newest_at_or_before(names, ts);
    let after = oldest_after(names, ts);
    if before is Some && after is Some {
        SidesModel::Both {
            older: file_in_snapshot(mount, before->0, rel),
            newer: file_in_snapshot(mount, after->0, rel),
        }
    } else {
        SidesModel::Missing { before, after }
    }
}

/// The changes of a file to show: one per time, oldest first.
pub open spec fn changes_of(
    events: Seq<EventModel>,
    names: Seq<Seq<char>>,
    mount: Seq<char>,
    rel: Seq<char>,
) -> Seq<ChangeModel> {
    one_per_time(by_time(events)).map_values(
        |e: EventModel|
            ChangeModel { headline: headline_text(e), sides: sides_of(names, e.ts, mount, rel) },
    )
}

fn headline(e: &Event) -> (r: String)
    ensures
        r@ == headline_text(e@),
{
    let mut out = "\n=== ".to_string();
    out.append(e.ts.as_str());
    out.append(" — ");
    out.append(writer(e).as_str());
    out.append(" (pid ");
    out.append(e.pid.as_str());
    out.append(", ");
    out.append(e.cmdline.as_str());
    out.append(") ===");
    out
}

/// The changes of a file to show, each between the snapshots on either side.
pub fn plan_diff(
    events: &Vec<Event>,
    names: &Vec<String>,
    when_mount: &str,
    live_root: &str,
    target: &str,
) -> (r: Vec<Change>)
    ensures
        change_models(r@) == changes_of(
            models(events@),
            texts(names@),
            when_mount@,
            below_root(target@, live_root@),
        ),
{
    let sorted = sort_events(events);
    let kept = dedup_events(&sorted);
    let rel = match strip_base(target, live_root) {
        Some(rel) => rel,
        None => target.to_string(),
    };
    let mut out: Vec<Change> = Vec::new();
    let mut i: usize = 0;
    while i < kept.len()
        invariant
            i <= kept@.len(),
            rel@ == below_root(target@, live_root@),
            out@.len() == i,
            forall|j: int|
                0 <= j < i ==> (#[trigger] out@[j])@ == (ChangeModel {
                    headline: headline_text(kept@[j]@),
                    sides: sides_of(texts(names@), kept@[j].ts@, when_mount@, rel@),
                }),
        decreases kept@.len() - i,
    {
        let e = &kept[i];
        let sides = match bracket(names, e.ts.as_str()) {
            (Some(b), Some(a)) => Sides::Both {
                older: joined_path(
                    joined_path(when_mount, b.as_str()).as_str(),
                    rel.as_str(),
                ),
                newer: joined_path(
                    joined_path(when_mount, a.as_str()).as_str(),
                    rel.as_str(),
                ),
            },
            (before, after) => Sides::Missing { before, after },
        };
        out.push(Change { headline: headline(e), sides });
        i += 1;
    }
    assert(models(kept@).len() == kept@.len());
    assert(change_models(out@) =~= changes_of(
        models(events@),
        texts(names@),
        when_mount@,
        rel@,
    ));
    out
}

// ---------------------------------------------------------------------
// Laws
// ---------------------------------------------------------------------
/// The audit log of some entries.
pub open spec fn log_text(entries: Seq<EntryModel>) -> Seq<char>
    decreases entries.len(),
{
    if entries.len() == 0 {
        Seq::empty()
    } else {
        entry_line(entries[0]).push('\n') + log_text(entries.skip(1))
    }
}

/// What the log tells of an entry.
pub open spec fn told(e: EntryModel) -> EventModel {
    EventModel {
        ts: e.ts,
        path: e.path,
        op: e.op,
        pid: int_text(e.pid),
        comm: e.comm,
        exe: e.exe,
        cmdline: e.cmdline,
    }
}

/// Has neither of the two fields that are written without escaping a line
/// break?
pub open spec fn fits_a_line(e: EntryModel) -> bool {
    is_one_line(e.ts) && is_one_line(e.op)
}

/// Every entry is one line of the log.
pub proof fn every_entry_is_one_line(entries: Seq<EntryModel>)
    requires
        forall|i: int| 0 <= i < entries.len() ==> fits_a_line(#[trigger] entries[i]),
    ensures
        lines_of(log_text(entries)) == entries.map_values(|e: EntryModel| entry_line(e)),
    decreases entries.len(),
{
    if entries.len() > 0 {
        let tail = entries.skip(1);
        assert forall|i: int| 0 <= i < tail.len() implies fits_a_line(#[trigger] tail[i]) by {
            assert(tail[i] == entries[i + 1]);
        }
        every_entry_is_one_line(tail);
        assert(fits_a_line(entries[0]));
        crate::json::a_log_line_is_one_line(entries[0]);
        crate::text::a_whole_line_is_read_first(entry_line(entries[0]), log_text(tail));
        assert(lines_of(log_text(entries)) =~= entries.map_values(|e: EntryModel| entry_line(e)));
    } else {
        assert(lines_of(log_text(entries)) =~= entries.map_values(|e: EntryModel| entry_line(e)));
    }
}

/// The log gives back what was written to it: the events of a file are the
/// entries about it, each with every field, in the order of writing.
pub proof fn the_log_gives_back_what_was_written(
    entries: Seq<EntryModel>,
    target: Seq<char>,
    resolved: Seq<char>,
)
    requires
        forall|i: int| 0 <= i < entries.len() ==> is_faithful(#[trigger] entries[i]),
        forall|i: int| 0 <= i < entries.len() ==> fits_a_line(#[trigger] entries[i]),
    ensures
        events_in(lines_of(log_text(entries)), target, resolved) == entries.filter(
            |e: EntryModel| e.path == target || e.path == resolved,
        ).map_values(|e: EntryModel| told(e)),
{
    every_entry_is_one_line(entries);
    lemma_told(entries, target, resolved);
}

proof fn lemma_told(entries: Seq<EntryModel>, target: Seq<char>, resolved: Seq<char>)
    requires
        forall|i: int| 0 <= i < entries.len() ==> is_faithful(#[trigger] entries[i]),
    ensures
        events_in(entries.map_values(|e: EntryModel| entry_line(e)), target, resolved)
            == entries.filter(|e: EntryModel| e.path == target || e.path == resolved).map_values(
            |e: EntryModel| told(e),
        ),
    decreases entries.len(),
{
    reveal(Seq::filter);
    let lines = entries.map_values(|e: EntryModel| entry_line(e));
    let wanted = |e: EntryModel| e.path == target || e.path == resolved;
    if entries.len() > 0 {
        let front = entries.drop_last();
        let e = entries.last();
        assert forall|i: int| 0 <= i < front.len() implies is_faithful(#[trigger] front[i]) by {
            assert(front[i] == entries[i]);
        }
        lemma_told(front, target, resolved);
        assert(is_faithful(entries[entries.len() - 1]));
        a_log_line_reads_back(e);
        assert(lines.drop_last() =~= front.map_values(|e: EntryModel| entry_line(e)));
        assert(lines.last() == entry_line(e));
        assert(entry_line(e)[0] == '{');
        assert(!is_blank(entry_line(e))) by {
            assert(!crate::text::is_white(entry_line(e)[0]));
        }
        assert(line_event(entry_line(e)) == told(e));
        let about = |l: Seq<char>| is_line_about(l, target, resolved);
        let tell = |l: Seq<char>| line_event(l);
        let tell_entry = |e: EntryModel| told(e);
        let kept = lines.drop_last().filter(about);
        let kept_entries = front.filter(wanted);
        assert(kept.map_values(tell) == kept_entries.map_values(tell_entry));
        if wanted(e) {
            assert(lines.filter(about) == kept.push(lines.last()));
            assert(entries.filter(wanted) == kept_entries.push(e));
            assert(kept.push(lines.last()).map_values(tell) =~= kept.map_values(tell).push(told(e)));
            assert(kept_entries.push(e).map_values(tell_entry) =~= kept_entries.map_values(
                tell_entry,
            ).push(told(e)));
        } else {
            assert(lines.filter(about) == kept);
            assert(entries.filter(wanted) == kept_entries);
        }
    } else {
        assert(events_in(lines, target, resolved) =~= entries.filter(wanted).map_values(
            |e: EntryModel| told(e),
        ));
    }
}

} // verus!
