//! Planning the undo of a traced command.
//!
//! Building a plan is pure: it reads a command's manifest, the names of the
//! available snapshots, and which pre-images exist in them. Applying a plan is
//! the part that destroys things, and is no part of this module.
//!
//! Only filesystem state can be undone. For each path that the command
//! touched, the plan restores what the newest snapshot taken before the
//! command holds; where that snapshot holds no such file, the command created
//! it, and removing it is the restoration.
use crate::graph::{event_models, FileEvent, FileEventModel};
use crate::order::{arranged, as_ints, depth_order, depth_order_is_unique, is_depth_order};
use crate::path::{
    after_components, components, depth, is_within, join_path, joined_path, strip_base,
};
use crate::text::{
    begins_with, contains_part, has_part, lex_le, lex_lt, lex_total, lex_transitive, starts_with,
    text_le, texts,
};
use vstd::prelude::*;
use vstd::string::*;

verus! {

/// One step of an undo plan.
#[derive(Debug, Clone, PartialEq, Eq)]
pub enum Step {
    /// The file existed before the command; put that version back.
    Restore { path: String, from: String },
    /// The file did not exist before the command; it created it.
    Remove { path: String },
    /// Left alone, with a reason that the user can weigh.
    Skip { path: String, why: String },
}

/// The plain values of a [`Step`].
pub enum StepModel {
    Restore { path: Seq<char>, from: Seq<char> },
    Remove { path: Seq<char> },
    Skip { path: Seq<char>, why: Seq<char> },
}

impl StepModel {
    /// The path that the step is about.
    pub open spec fn path(self) -> Seq<char> {
        match self {
            StepModel::Restore { path, .. } => path,
            StepModel::Remove { path } => path,
            StepModel::Skip { path, .. } => path,
        }
    }
}

impl View for Step {
    type V = StepModel;

    open spec fn view(&self) -> StepModel {
        match self {
            Step::Restore { path, from } => StepModel::Restore { path: path@, from: from@ },
            Step::Remove { path } => StepModel::Remove { path: path@ },
            Step::Skip { path, why } => StepModel::Skip { path: path@, why: why@ },
        }
    }
}

impl Step {
    /// The path that the step is about.
    pub fn path(&self) -> (r: &str)
        ensures
            r@ == self@.path(),
    {
        match self {
            Step::Restore { path, .. } => path.as_str(),
            Step::Remove { path } => path.as_str(),
            Step::Skip { path, .. } => path.as_str(),
        }
    }
}

/// The plain values of a list of steps.
pub open spec fn step_models(list: Seq<Step>) -> Seq<StepModel> {
    Seq::new(list.len(), |i: int| list[i]@)
}

// ---------------------------------------------------------------------
// Refused paths
// ---------------------------------------------------------------------
/// Paths whose reversal would do more harm than the change being undone.
///
/// Package manager databases are the sharp ones: restoring files underneath
/// them leaves a package manager that believes things that are no longer
/// true. That has to be undone through the package manager or not at all.
pub open spec fn refused_prefixes() -> Seq<Seq<char>> {
    seq![
        "/var/lib/dpkg"@,
        "/var/lib/rpm"@,
        "/var/lib/pacman"@,
        "/var/db/xbps"@,
        "/var/lib/xbps"@,
        "/nix/store"@,
        "/proc"@,
        "/sys"@,
        "/dev"@,
        "/run"@,
    ]
}

/// Does a refused prefix name the state of a package manager?
pub open spec fn is_package_state(prefix: Seq<char>) -> bool {
    has_part(prefix, "dpkg"@) || has_part(prefix, "rpm"@) || has_part(prefix, "pacman"@)
        || has_part(prefix, "xbps"@)
}

/// Why paths under a refused prefix are left alone.
pub open spec fn refusal_text(prefix: Seq<char>) -> Seq<char> {
    if is_package_state(prefix) {
        "package manager state ("@ + prefix + ") — undo via the package manager instead"@
    } else {
        "not real persistent state ("@ + prefix + ")"@
    }
}

/// Is `k` the first of `prefixes` that `path` begins with?
pub open spec fn first_prefix(prefixes: Seq<Seq<char>>, path: Seq<char>, k: int) -> bool {
    &&& 0 <= k < prefixes.len()
    &&& starts_with(path, prefixes[k])
    &&& forall|j: int| 0 <= j < k ==> !starts_with(path, #[trigger] prefixes[j])
}

/// Does `path` begin with one of the refused prefixes?
pub open spec fn is_refused(path: Seq<char>) -> bool {
    exists|k: int| first_prefix(refused_prefixes(), path, k)
}

/// The reason for which `path` is refused: that of the first refused prefix
/// that it begins with.
pub open spec fn refusal(path: Seq<char>) -> Option<Seq<char>> {
    if is_refused(path) {
        let k = choose|k: int| first_prefix(refused_prefixes(), path, k);
        Some(refusal_text(refused_prefixes()[k]))
    } else {
        None
    }
}

fn prefix_list() -> (r: Vec<&'static str>)
    ensures
        Seq::new(r@.len(), |i: int| r@[i]@) == refused_prefixes(),
{
    let r: Vec<&'static str> = vec![
        "/var/lib/dpkg",
        "/var/lib/rpm",
        "/var/lib/pacman",
        "/var/db/xbps",
        "/var/lib/xbps",
        "/nix/store",
        "/proc",
        "/sys",
        "/dev",
        "/run",
    ];
    assert(Seq::new(r@.len(), |i: int| r@[i]@) =~= refused_prefixes());
    r
}

/// The reason for which `path` is refused, if it is.
pub fn refused(path: &str) -> (r: Option<String>)
    ensures
        match r {
            Some(why) => refusal(path@) == Some(why@),
            None => refusal(path@) is None,
        },
{
    let list = prefix_list();
    let ghost all = refused_prefixes();
    assert(all.len() == list@.len());
    let mut k: usize = 0;
    while k < list.len()
        invariant
            all == refused_prefixes(),
            all == Seq::new(list@.len(), |i: int| list@[i]@),
            k <= list@.len(),
            forall|j: int| 0 <= j < k ==> !starts_with(path@, #[trigger] all[j]),
        decreases list@.len() - k,
    {
        let p = list[k];
        assert(all[k as int] == p@);
        if begins_with(path, p) {
            proof {
                assert(first_prefix(all, path@, k as int));
                let c = choose|c: int| first_prefix(all, path@, c);
                assert(first_prefix(all, path@, c));
                assert(c == k) by {
                    if c < k {
                        assert(!starts_with(path@, all[c]));
                    }
                    if k < c {
                        assert(!starts_with(path@, all[k as int]));
                    }
                }
            }
            let mut why = String::new();
            if contains_part(p, "dpkg") || contains_part(p, "rpm") || contains_part(p, "pacman")
                || contains_part(p, "xbps") {
                why.append("package manager state (");
                why.append(p);
                why.append(") — undo via the package manager instead");
            } else {
                why.append("not real persistent state (");
                why.append(p);
                why.append(")");
            }
            assert(why@ =~= refusal_text(p@));
            return Some(why);
        }
        k += 1;
    }
    None
}

// ---------------------------------------------------------------------
// The snapshot before a change
// ---------------------------------------------------------------------
/// The newest of `names` at or before `ts`, by text order.
pub open spec fn newest_at_or_before(names: Seq<Seq<char>>, ts: Seq<char>) -> Option<Seq<char>>
    decreases names.len(),
{
    if names.len() == 0 {
        None
    } else {
        let rest = newest_at_or_before(names.drop_last(), ts);
        let name = names.last();
        if !lex_le(name, ts) {
            rest
        } else {
            match rest {
                Some(best) => if lex_lt(name, best) {
                    rest
                } else {
                    Some(name)
                },
                None => Some(name),
            }
        }
    }
}

/// The chosen snapshot is one of the names, lies at or before the time, and
/// no other name that does so is newer; none is chosen only where every name
/// is later.
pub proof fn newest_is_the_greatest(names: Seq<Seq<char>>, ts: Seq<char>)
    ensures
        match newest_at_or_before(names, ts) {
            Some(best) => {
                &&& names.contains(best)
                &&& lex_le(best, ts)
                &&& forall|i: int| 0 <= i < names.len() && lex_le(#[trigger] names[i], ts) ==> lex_le(names[i], best)
            },
            None => forall|i: int| 0 <= i < names.len() ==> !lex_le(#[trigger] names[i], ts),
        },
    decreases names.len(),
{
    if names.len() > 0 {
        let front = names.drop_last();
        newest_is_the_greatest(front, ts);
        let name = names.last();
        assert forall|i: int| 0 <= i < names.len() implies #[trigger] names[i] == (if i < front.len() {
            front[i]
        } else {
            name
        }) by {}
        match newest_at_or_before(front, ts) {
            Some(best) => {
                lex_total(name, best);
                let k = choose|k: int| 0 <= k < front.len() && front[k] == best;
                assert(names[k] == best);
                assert(names[names.len() - 1] == name);
                assert forall|i: int| 0 <= i < names.len() && lex_le(names[i], ts) implies lex_le(
                    #[trigger] names[i],
                    newest_at_or_before(names, ts)->0,
                ) by {
                    if i < front.len() {
                        assert(names[i] == front[i]);
                        assert(lex_le(front[i], best));
                        if lex_le(name, ts) && !lex_lt(name, best) && front[i] != best && best != name {
                            lex_transitive(front[i], best, name);
                        }
                    }
                }
            },
            None => {
                assert(names[names.len() - 1] == name);
                assert forall|i: int| 0 <= i < names.len() && lex_le(names[i], ts) implies names[i] == name by {
                    if i < front.len() {
                        assert(names[i] == front[i]);
                    }
                }
            },
        }
    }
}

/// The newest snapshot at or before `ts`.
///
/// Snapshot names share their format with event times, so this is a
/// comparison of texts and not of dates.
pub fn snapshot_before<'a>(snapshots: &'a Vec<String>, ts: &str) -> (r: Option<&'a String>)
    ensures
        match r {
            Some(s) => newest_at_or_before(texts(snapshots@), ts@) == Some(s@),
            None => newest_at_or_before(texts(snapshots@), ts@) is None,
        },
{
    let mut best: Option<&'a String> = None;
    let mut i: usize = 0;
    let ghost all = texts(snapshots@);
    while i < snapshots.len()
        invariant
            all == texts(snapshots@),
            i <= snapshots@.len(),
            match best {
                Some(s) => newest_at_or_before(all.take(i as int), ts@) == Some(s@),
                None => newest_at_or_before(all.take(i as int), ts@) is None,
            },
        decreases snapshots@.len() - i,
    {
        let name = &snapshots[i];
        assert(all.take(i + 1).drop_last() =~= all.take(i as int));
        assert(all.take(i + 1).last() == name@);
        if text_le(name.as_str(), ts) {
            let better = match best {
                Some(b) => !crate::text::text_lt(name.as_str(), b.as_str()),
                None => true,
            };
            if better {
                best = Some(name);
            }
        }
        i += 1;
    }
    assert(all.take(all.len() as int) =~= all);
    best
}

// ---------------------------------------------------------------------
// First touches
// ---------------------------------------------------------------------
/// A path and the time at which it was touched.
pub type Touch = (Seq<char>, Seq<char>);

/// The paths that one event touches. A rename that arrived as one event
/// touches both ends.
pub open spec fn event_touches(e: FileEventModel) -> Seq<Touch> {
    match e.other_path {
        Some(other) => seq![(e.path, e.ts), (other, e.ts)],
        None => seq![(e.path, e.ts)],
    }
}

/// Everything that the events touch, in order.
pub open spec fn touches(events: Seq<FileEventModel>) -> Seq<Touch>
    decreases events.len(),
{
    if events.len() == 0 {
        Seq::empty()
    } else {
        touches(events.drop_last()) + event_touches(events.last())
    }
}

/// Is `path` among the touched paths?
pub open spec fn is_touched(list: Seq<Touch>, path: Seq<char>) -> bool {
    exists|i: int| 0 <= i < list.len() && (#[trigger] list[i]).0 == path
}

/// `seen` with one more touch, unless its path was seen before.
pub open spec fn add_touch(seen: Seq<Touch>, t: Touch) -> Seq<Touch> {
    if is_touched(seen, t.0) {
        seen
    } else {
        seen.push(t)
    }
}

/// The first touch of each path, in order.
pub open spec fn first_touches(list: Seq<Touch>) -> Seq<Touch>
    decreases list.len(),
{
    if list.len() == 0 {
        Seq::empty()
    } else {
        add_touch(first_touches(list.drop_last()), list.last())
    }
}

/// The views of a list of touches.
pub open spec fn touch_models(list: Seq<(String, String)>) -> Seq<Touch> {
    Seq::new(list.len(), |i: int| (list[i].0@, list[i].1@))
}

fn touch(order: &mut Vec<(String, String)>, path: &String, ts: &String)
    ensures
        touch_models(final(order)@) == add_touch(touch_models(old(order)@), (path@, ts@)),
{
    let mut i: usize = 0;
    while i < order.len()
        invariant
            i <= order@.len(),
            order@ == old(order)@,
            forall|k: int| 0 <= k < i ==> order@[k].0@ != path@,
        decreases order@.len() - i,
    {
        if order[i].0 == *path {
            assert(touch_models(order@)[i as int].0 == path@);
            return;
        }
        i += 1;
    }
    order.push((path.clone(), ts.clone()));
    proof {
        let seen = touch_models(old(order)@);
        if is_touched(seen, path@) {
            let k = choose|k: int| 0 <= k < seen.len() && (#[trigger] seen[k]).0 == path@;
            assert(old(order)@[k].0@ == path@);
        }
        assert(touch_models(order@) =~= seen.push((path@, ts@)));
    }
}

/// Adding touches at the end adds their first touches at the end.
pub proof fn first_touches_append(list: Seq<Touch>, t: Touch)
    ensures
        first_touches(list.push(t)) == add_touch(first_touches(list), t),
{
    assert(list.push(t).drop_last() =~= list);
}

fn collect_touches(events: &Vec<FileEvent>) -> (r: Vec<(String, String)>)
    ensures
        touch_models(r@) == first_touches(touches(event_models(events@))),
{
    let mut order: Vec<(String, String)> = Vec::new();
    let mut i: usize = 0;
    let ghost all = event_models(events@);
    assert(touch_models(order@) =~= first_touches(touches(all.take(0))));
    while i < events.len()
        invariant
            all == event_models(events@),
            i <= events@.len(),
            touch_models(order@) == first_touches(touches(all.take(i as int))),
        decreases events@.len() - i,
    {
        let e = &events[i];
        let ghost before = touches(all.take(i as int));
        proof {
            assert(all.take(i + 1).drop_last() =~= all.take(i as int));
            assert(all.take(i + 1).last() == e@);
            first_touches_append(before, (e.path@, e.ts@));
        }
        touch(&mut order, &e.path, &e.ts);
        match &e.other_path {
            Some(other) => {
                proof {
                    first_touches_append(before.push((e.path@, e.ts@)), (other@, e.ts@));
                    assert(touches(all.take(i + 1)) =~= before.push((e.path@, e.ts@)).push(
                        (other@, e.ts@),
                    ));
                }
                touch(&mut order, other, &e.ts);
            },
            None => {
                assert(touches(all.take(i + 1)) =~= before.push((e.path@, e.ts@)));
            },
        }
        i += 1;
    }
    assert(all.take(all.len() as int) =~= all);
    order
}

// ---------------------------------------------------------------------
// Steps
// ---------------------------------------------------------------------
/// What a plan is made from: the available snapshots, the directory that
/// holds them, the tree that they mirror, and the pre-images that exist.
pub struct Scene {
    pub snapshots: Seq<Seq<char>>,
    pub snap_root: Seq<char>,
    pub live_root: Seq<char>,
    pub existing: Seq<Seq<char>>,
}

/// Where snapshot `snap` holds its copy of `path`.
pub open spec fn pre_image(
    path: Seq<char>,
    snap: Seq<char>,
    snap_root: Seq<char>,
    live_root: Seq<char>,
) -> Seq<char> {
    join_path(join_path(snap_root, snap), after_components(path, components(live_root).len()))
}

/// The pre-image that decides what becomes of a touched path, where one
/// does: not for a refused path, nor for one outside the tree that the
/// snapshots cover, nor where no snapshot predates the touch.
pub open spec fn deciding_pre_image(t: Touch, sc: Scene) -> Option<Seq<char>> {
    if is_refused(t.0) || !is_within(t.0, sc.live_root) {
        None
    } else {
        match newest_at_or_before(sc.snapshots, t.1) {
            Some(snap) => Some(pre_image(t.0, snap, sc.snap_root, sc.live_root)),
            None => None,
        }
    }
}

/// The step for a path first touched at a given time.
pub open spec fn step_for(t: Touch, sc: Scene) -> StepModel {
    let path = t.0;
    match refusal(path) {
        Some(why) => StepModel::Skip { path, why },
        None => if !is_within(path, sc.live_root) {
            StepModel::Skip {
                path,
                why: "outside the snapshotted tree ("@ + sc.live_root + ")"@,
            }
        } else {
            match deciding_pre_image(t, sc) {
                None => StepModel::Skip {
                    path,
                    why: "no snapshot predates this change — nothing to restore from"@,
                },
                Some(from) => if sc.existing.contains(from) {
                    StepModel::Restore { path, from }
                } else {
                    StepModel::Remove { path }
                },
            }
        },
    }
}

/// The steps for the first touches of a manifest, in the order of touching.
pub open spec fn raw_steps(events: Seq<FileEventModel>, sc: Scene) -> Seq<StepModel> {
    first_touches(touches(events)).map_values(|t: Touch| step_for(t, sc))
}

/// The restoring steps, in order.
pub open spec fn restores(steps: Seq<StepModel>) -> Seq<StepModel> {
    steps.filter(|s: StepModel| s is Restore)
}

/// The removing steps, in order.
pub open spec fn removes(steps: Seq<StepModel>) -> Seq<StepModel> {
    steps.filter(|s: StepModel| s is Remove)
}

/// The steps that leave a path alone, in order.
pub open spec fn skips(steps: Seq<StepModel>) -> Seq<StepModel> {
    steps.filter(|s: StepModel| s is Skip)
}

/// How many components the path of each step has.
pub open spec fn step_depths(steps: Seq<StepModel>) -> Seq<int> {
    Seq::new(steps.len(), |i: int| components(steps[i].path()).len() as int)
}

/// `plan` is `steps` in an order that is safe to apply from the first to the
/// last: restores, then removals with the deepest path first, then what is
/// left alone.
///
/// A directory can only be removed once it is empty, so a child is removed
/// before its parent. Restores go first so that a file restored into a
/// directory that the command created survives: the later attempt to remove
/// that directory then fails because it is not empty.
pub open spec fn is_safe_order(steps: Seq<StepModel>, plan: Seq<StepModel>) -> bool {
    exists|p: Seq<int>|
        {
            &&& #[trigger] is_depth_order(step_depths(removes(steps)), p)
            &&& plan == restores(steps) + arranged(removes(steps), p) + skips(steps)
        }
}

/// The scene of a plan, from its arguments.
pub open spec fn scene(
    snapshots: Seq<String>,
    snap_root: &str,
    live_root: &str,
    existing: Seq<String>,
) -> Scene {
    Scene {
        snapshots: texts(snapshots),
        snap_root: snap_root@,
        live_root: live_root@,
        existing: texts(existing),
    }
}

/// The pre-image that decides what becomes of a path, or the reason for
/// which it is left alone.
fn decide(
    path: &String,
    ts: &String,
    snapshots: &Vec<String>,
    snap_root: &str,
    live_root: &str,
    Ghost(existing): Ghost<Seq<String>>,
) -> (r: Result<String, String>)
    ensures
        match r {
            Ok(from) => {
                let sc = scene(snapshots@, snap_root, live_root, existing);
                &&& deciding_pre_image((path@, ts@), sc) == Some(from@)
                &&& step_for((path@, ts@), sc) == (if sc.existing.contains(from@) {
                    StepModel::Restore { path: path@, from: from@ }
                } else {
                    StepModel::Remove { path: path@ }
                })
            },
            Err(why) => {
                let sc = scene(snapshots@, snap_root, live_root, existing);
                &&& deciding_pre_image((path@, ts@), sc) is None
                &&& step_for((path@, ts@), sc) == (StepModel::Skip { path: path@, why: why@ })
            },
        },
{
    if let Some(why) = refused(path.as_str()) {
        return Err(why);
    }
    let rel = match strip_base(path.as_str(), live_root) {
        Some(rel) => rel,
        None => {
            let mut why = String::new();
            why.append("outside the snapshotted tree (");
            why.append(live_root);
            why.append(")");
            assert(why@ =~= "outside the snapshotted tree ("@ + live_root@ + ")"@);
            return Err(why);
        },
    };
    match snapshot_before(snapshots, ts.as_str()) {
        None => {
            let mut why = String::new();
            why.append("no snapshot predates this change — nothing to restore from");
            assert(why@ =~= "no snapshot predates this change — nothing to restore from"@);
            Err(why)
        },
        Some(snap) => {
            let dir = joined_path(snap_root, snap.as_str());
            Ok(joined_path(dir.as_str(), rel.as_str()))
        },
    }
}

fn is_listed(list: &Vec<String>, item: &String) -> (r: bool)
    ensures
        r == texts(list@).contains(item@),
{
    let mut i: usize = 0;
    while i < list.len()
        invariant
            i <= list@.len(),
            forall|k: int| 0 <= k < i ==> list@[k]@ != item@,
        decreases list@.len() - i,
    {
        if list[i] == *item {
            assert(texts(list@)[i as int] == item@);
            return true;
        }
        i += 1;
    }
    proof {
        if texts(list@).contains(item@) {
            let k = choose|k: int| 0 <= k < list@.len() && texts(list@)[k] == item@;
            assert(list@[k]@ == item@);
        }
    }
    false
}

/// The pre-images whose existence decides a plan, in the order of touching.
pub open spec fn probe_texts(events: Seq<FileEventModel>, sc: Scene) -> Seq<Seq<char>> {
    first_touches(touches(events)).filter_map(|t: Touch| deciding_pre_image(t, sc))
}

/// Build the undo plan for a traced command.
///
/// `events` is the command's manifest, `snapshots` the available snapshot
/// directory names, `live_root` the tree that those snapshots mirror, and
/// `existing` the pre-images that exist, out of those that [`probes`] lists.
pub fn plan(
    events: &Vec<FileEvent>,
    snapshots: &Vec<String>,
    snap_root: &str,
    live_root: &str,
    existing: &Vec<String>,
) -> (r: Vec<Step>)
    ensures
        is_safe_order(
            raw_steps(
                event_models(events@),
                scene(snapshots@, snap_root, live_root, existing@),
            ),
            step_models(r@),
        ),
{
    let ghost sc = scene(snapshots@, snap_root, live_root, existing@);
    let order = collect_touches(events);
    let ghost firsts = touch_models(order@);
    let ghost steps = raw_steps(event_models(events@), sc);
    let mut ordered: Vec<Step> = Vec::new();
    let mut doomed: Vec<String> = Vec::new();
    let mut left: Vec<Step> = Vec::new();
    let mut i: usize = 0;
    proof {
        assert(steps.take(0) =~= Seq::empty());
        reveal_with_fuel(Seq::filter, 2);
        assert(step_models(ordered@) =~= restores(steps.take(0)));
        assert(removal_models(doomed@) =~= removes(steps.take(0)));
        assert(step_models(left@) =~= skips(steps.take(0)));
    }
    while i < order.len()
        invariant
            sc == scene(snapshots@, snap_root, live_root, existing@),
            firsts == touch_models(order@),
            steps == firsts.map_values(|t: Touch| step_for(t, sc)),
            i <= order@.len(),
            step_models(ordered@) == restores(steps.take(i as int)),
            removal_models(doomed@) == removes(steps.take(i as int)),
            step_models(left@) == skips(steps.take(i as int)),
        decreases order@.len() - i,
    {
        let path = order[i].0.clone();
        let ts = &order[i].1;
        let ghost s = steps[i as int];
        let ghost was = (ordered@, doomed@, left@);
        proof {
            assert(firsts[i as int] == (path@, ts@));
            assert(s == step_for((path@, ts@), sc));
            let next = steps.take(i + 1);
            assert(next =~= steps.take(i as int).push(s));
            steps.take(i as int).lemma_filter_push(s, |x: StepModel| x is Restore);
            steps.take(i as int).lemma_filter_push(s, |x: StepModel| x is Remove);
            steps.take(i as int).lemma_filter_push(s, |x: StepModel| x is Skip);
        }
        match decide(&path, ts, snapshots, snap_root, live_root, Ghost(existing@)) {
            Ok(from) => {
                if is_listed(existing, &from) {
                    ordered.push(Step::Restore { path, from });
                    assert(step_models(ordered@) =~= step_models(was.0).push(s));
                } else {
                    doomed.push(path);
                    assert(removal_models(doomed@) =~= removal_models(was.1).push(s));
                }
            },
            Err(why) => {
                left.push(Step::Skip { path, why });
                assert(step_models(left@) =~= step_models(was.2).push(s));
            },
        }
        i += 1;
    }
    assert(steps.take(steps.len() as int) =~= steps);
    let ghost kept = step_models(ordered@);
    let ghost gone = removal_models(doomed@);
    let ghost rest = step_models(left@);
    let mut depths: Vec<usize> = Vec::new();
    let mut j: usize = 0;
    while j < doomed.len()
        invariant
            j <= doomed@.len(),
            depths@.len() == j,
            gone == removal_models(doomed@),
            forall|k: int| 0 <= k < j ==> depths@[k] == step_depths(gone)[k],
        decreases doomed@.len() - j,
    {
        let d = depth(doomed[j].as_str());
        depths.push(d);
        j += 1;
    }
    assert(as_ints(depths@) =~= step_depths(gone));
    let p = depth_order(&depths);
    let ghost q = as_ints(p@);
    let mut m: usize = 0;
    while m < p.len()
        invariant
            m <= p@.len(),
            q == as_ints(p@),
            gone == removal_models(doomed@),
            is_depth_order(step_depths(gone), q),
            step_models(ordered@) == kept + arranged(gone, q).take(m as int),
        decreases p@.len() - m,
    {
        let ghost was = ordered@;
        assert(q[m as int] == p@[m as int]);
        let path = doomed[p[m]].clone();
        ordered.push(Step::Remove { path });
        proof {
            let a = arranged(gone, q);
            assert(a.take(m + 1) =~= a.take(m as int).push(a[m as int]));
            assert(step_models(ordered@) =~= step_models(was).push(a[m as int]));
            assert(step_models(ordered@) =~= kept + a.take(m + 1));
        }
        m += 1;
    }
    proof {
        let a = arranged(gone, q);
        assert(a.take(a.len() as int) =~= a);
    }
    let ghost front = ordered@;
    ordered.append(&mut left);
    proof {
        assert(step_models(ordered@) =~= step_models(front) + rest);
        assert(is_depth_order(step_depths(removes(steps)), q));
    }
    ordered
}

/// The pre-images whose existence decides the plan for a command, in the
/// order of touching.
pub fn probes(
    events: &Vec<FileEvent>,
    snapshots: &Vec<String>,
    snap_root: &str,
    live_root: &str,
) -> (r: Vec<String>)
    ensures
        texts(r@) == probe_texts(
            event_models(events@),
            scene(snapshots@, snap_root, live_root, Seq::empty()),
        ),
{
    let ghost sc = scene(snapshots@, snap_root, live_root, Seq::empty());
    let order = collect_touches(events);
    let ghost firsts = touch_models(order@);
    let ghost f = |t: Touch| deciding_pre_image(t, sc);
    let mut out: Vec<String> = Vec::new();
    let mut i: usize = 0;
    assert(texts(out@) =~= firsts.take(0).filter_map(f));
    while i < order.len()
        invariant
            sc == scene(snapshots@, snap_root, live_root, Seq::empty()),
            f == (|t: Touch| deciding_pre_image(t, sc)),
            firsts == touch_models(order@),
            i <= order@.len(),
            texts(out@) == firsts.take(i as int).filter_map(f),
        decreases order@.len() - i,
    {
        let ghost was = out@;
        proof {
            assert(firsts[i as int] == (order@[i as int].0@, order@[i as int].1@));
            firsts.lemma_filter_map_take_succ(f, i as int);
        }
        match decide(&order[i].0, &order[i].1, snapshots, snap_root, live_root, Ghost(Seq::empty())) {
            Ok(from) => {
                out.push(from);
                assert(texts(out@) =~= texts(was) + seq![from@]);
            },
            Err(_) => {
                assert(texts(out@) =~= texts(was) + Seq::<Seq<char>>::empty());
            },
        }
        i += 1;
    }
    assert(firsts.take(firsts.len() as int) =~= firsts);
    out
}

/// The removing steps for a list of paths.
pub open spec fn removal_models(list: Seq<String>) -> Seq<StepModel> {
    Seq::new(list.len(), |i: int| StepModel::Remove { path: list[i]@ })
}

// ---------------------------------------------------------------------
// Laws
// ---------------------------------------------------------------------
/// No two items of `list` are about the same path.
pub open spec fn distinct_touches(list: Seq<Touch>) -> bool {
    forall|i: int, j: int| 0 <= i < j < list.len() ==> (#[trigger] list[i]).0 != (#[trigger] list[j]).0
}

/// Is item `i` of `list` the first touch of its path?
pub open spec fn is_first_touch(list: Seq<Touch>, i: int) -> bool {
    0 <= i < list.len() && forall|j: int| 0 <= j < i ==> (#[trigger] list[j]).0 != list[i].0
}

/// Is `t` the first touch of its path in `list`?
pub open spec fn comes_first(list: Seq<Touch>, t: Touch) -> bool {
    exists|i: int| #[trigger] is_first_touch(list, i) && list[i] == t
}

/// The first touches of a list are exactly those of its items whose path no
/// earlier item has, each path once.
pub proof fn first_touches_are_first(list: Seq<Touch>)
    ensures
        distinct_touches(first_touches(list)),
        forall|path: Seq<char>|
            is_touched(first_touches(list), path) <==> #[trigger] is_touched(list, path),
        forall|t: Touch| #[trigger] first_touches(list).contains(t) <==> comes_first(list, t),
    decreases list.len(),
{
    if list.len() > 0 {
        let front = list.drop_last();
        let t = list.last();
        let n = front.len();
        first_touches_are_first(front);
        let seen = first_touches(front);
        let all = first_touches(list);
        assert(list[n as int] == t);
        assert forall|path: Seq<char>| is_touched(all, path) <==> #[trigger] is_touched(list, path) by {
            if is_touched(all, path) {
                let k = choose|k: int| 0 <= k < all.len() && (#[trigger] all[k]).0 == path;
                if k < seen.len() {
                    assert(seen[k].0 == path);
                    assert(is_touched(front, path));
                    let i = choose|i: int| 0 <= i < front.len() && (#[trigger] front[i]).0 == path;
                    assert(list[i].0 == path);
                } else {
                    assert(list[n as int].0 == path);
                }
            }
            if is_touched(list, path) {
                let i = choose|i: int| 0 <= i < list.len() && (#[trigger] list[i]).0 == path;
                if i < n {
                    assert(front[i].0 == path);
                    assert(is_touched(front, path));
                    let k = choose|k: int| 0 <= k < seen.len() && (#[trigger] seen[k]).0 == path;
                    assert(all[k].0 == path);
                } else if is_touched(seen, path) {
                    let k = choose|k: int| 0 <= k < seen.len() && (#[trigger] seen[k]).0 == path;
                    assert(all[k].0 == path);
                } else {
                    assert(all[seen.len() as int].0 == path);
                }
            }
        }
        assert forall|t0: Touch| comes_first(list, t0) implies #[trigger] all.contains(t0) by {
            let i = choose|i: int| #[trigger] is_first_touch(list, i) && list[i] == t0;
            if i < n {
                assert(front[i] == list[i]);
                assert forall|j: int| 0 <= j < i implies (#[trigger] front[j]).0 != front[i].0 by {
                    assert(list[j].0 != list[i].0);
                }
                assert(is_first_touch(front, i));
                assert(comes_first(front, t0));
                assert(seen.contains(t0));
                let k = choose|k: int| 0 <= k < seen.len() && seen[k] == front[i];
                assert(all[k] == list[i]);
            } else {
                if is_touched(seen, t.0) {
                    assert(is_touched(front, t.0));
                    let j = choose|j: int| 0 <= j < front.len() && (#[trigger] front[j]).0 == t.0;
                    assert(list[j].0 == t.0);
                }
                assert(all[seen.len() as int] == t);
            }
        }
        assert forall|t0: Touch| #[trigger] all.contains(t0) implies comes_first(list, t0) by {
            let k = choose|k: int| 0 <= k < all.len() && all[k] == t0;
            if k < seen.len() {
                assert(all[k] == seen[k]);
                assert(seen.contains(t0));
                let i = choose|i: int| #[trigger] is_first_touch(front, i) && front[i] == seen[k];
                assert forall|j: int| 0 <= j < i implies (#[trigger] list[j]).0 != list[i].0 by {
                    assert(front[j].0 != front[i].0);
                }
                assert(is_first_touch(list, i));
            } else {
                assert(!is_touched(seen, t.0));
                assert(!is_touched(front, t.0));
                assert forall|j: int| 0 <= j < n implies (#[trigger] list[j]).0 != t.0 by {
                    assert(front[j] == list[j]);
                }
                assert(is_first_touch(list, n as int));
            }
        }
        assert forall|i: int, j: int| 0 <= i < j < all.len() implies (#[trigger] all[i]).0 != (
        #[trigger] all[j]).0 by {
            assert(all[i] == seen[i]);
            if j < seen.len() {
                assert(all[j] == seen[j]);
            }
        }
    }
}

/// The order of a step's kind in a plan.
pub open spec fn step_rank(s: StepModel) -> int {
    match s {
        StepModel::Restore { .. } => 0,
        StepModel::Remove { .. } => 1,
        StepModel::Skip { .. } => 2,
    }
}

/// A plan restores before it removes, and lists last what it leaves alone;
/// its removals are ordered with the deepest path first.
pub proof fn plan_restores_then_removes_deepest_first(
    steps: Seq<StepModel>,
    plan: Seq<StepModel>,
    i: int,
    j: int,
)
    requires
        is_safe_order(steps, plan),
        0 <= i < j < plan.len(),
    ensures
        step_rank(plan[i]) <= step_rank(plan[j]),
        plan[i] is Remove && plan[j] is Remove ==> components(plan[i].path()).len() >= components(
            plan[j].path(),
        ).len(),
{
    broadcast use Seq::lemma_filter_pred;

    let p = choose|p: Seq<int>|
        {
            &&& #[trigger] is_depth_order(step_depths(removes(steps)), p)
            &&& plan == restores(steps) + arranged(removes(steps), p) + skips(steps)
        };
    let a = restores(steps);
    let b = arranged(removes(steps), p);
    let c = skips(steps);
    lemma_three_parts(a, b, c, i);
    lemma_three_parts(a, b, c, j);
    if a.len() <= i && j < a.len() + b.len() {
        let depths = step_depths(removes(steps));
        assert(crate::order::deeper_before(depths, p[i - a.len()], p[j - a.len()]));
    }
}

proof fn lemma_three_parts(a: Seq<StepModel>, b: Seq<StepModel>, c: Seq<StepModel>, i: int)
    requires
        0 <= i < (a + b + c).len(),
    ensures
        i < a.len() ==> (a + b + c)[i] == a[i],
        a.len() <= i < a.len() + b.len() ==> (a + b + c)[i] == b[i - a.len()],
        a.len() + b.len() <= i ==> (a + b + c)[i] == c[i - a.len() - b.len()],
{
}

/// A directory is removed only after everything below it that the plan
/// removes.
pub proof fn plan_removes_children_before_parents(
    steps: Seq<StepModel>,
    plan: Seq<StepModel>,
    child: int,
    parent: int,
)
    requires
        is_safe_order(steps, plan),
        0 <= child < plan.len(),
        0 <= parent < plan.len(),
        plan[child] is Remove,
        plan[parent] is Remove,
        is_within(plan[child].path(), plan[parent].path()),
        components(plan[child].path()) != components(plan[parent].path()),
    ensures
        child < parent,
{
    let cs = components(plan[child].path());
    let ps = components(plan[parent].path());
    if cs.len() == ps.len() {
        assert(cs.take(ps.len() as int) =~= cs);
    }
    if parent < child {
        plan_restores_then_removes_deepest_first(steps, plan, parent, child);
    }
}

/// A plan holds exactly the given steps, in one order only.
pub proof fn plan_order_is_determined(steps: Seq<StepModel>, plan: Seq<StepModel>, other: Seq<StepModel>)
    requires
        is_safe_order(steps, plan),
        is_safe_order(steps, other),
    ensures
        plan == other,
{
    let depths = step_depths(removes(steps));
    let p = choose|p: Seq<int>|
        {
            &&& #[trigger] is_depth_order(depths, p)
            &&& plan == restores(steps) + arranged(removes(steps), p) + skips(steps)
        };
    let q = choose|p: Seq<int>|
        {
            &&& #[trigger] is_depth_order(depths, p)
            &&& other == restores(steps) + arranged(removes(steps), p) + skips(steps)
        };
    depth_order_is_unique(depths, p, q);
}

/// A step stands in a plan if and only if it is one of the given steps.
pub proof fn plan_keeps_every_step(steps: Seq<StepModel>, plan: Seq<StepModel>, s: StepModel)
    requires
        is_safe_order(steps, plan),
    ensures
        plan.contains(s) <==> steps.contains(s),
{
    let p = choose|p: Seq<int>|
        {
            &&& #[trigger] is_depth_order(step_depths(removes(steps)), p)
            &&& plan == restores(steps) + arranged(removes(steps), p) + skips(steps)
        };
    let a = restores(steps);
    let r = removes(steps);
    let b = arranged(r, p);
    let c = skips(steps);
    if steps.contains(s) {
        let k = choose|k: int| 0 <= k < steps.len() && steps[k] == s;
        if s is Restore {
            steps.lemma_filter_contains(|x: StepModel| x is Restore, k);
            let i = choose|i: int| 0 <= i < a.len() && a[i] == s;
            assert(plan[i] == s);
        } else if s is Remove {
            steps.lemma_filter_contains(|x: StepModel| x is Remove, k);
            let i = choose|i: int| 0 <= i < r.len() && r[i] == s;
            assert(p.contains(i));
            let j = choose|j: int| 0 <= j < p.len() && p[j] == i;
            assert(b[j] == s);
            assert(plan[a.len() + j] == s);
        } else {
            steps.lemma_filter_contains(|x: StepModel| x is Skip, k);
            let i = choose|i: int| 0 <= i < c.len() && c[i] == s;
            assert(plan[a.len() + b.len() + i] == s);
        }
    }
    if plan.contains(s) {
        let i = choose|i: int| 0 <= i < plan.len() && plan[i] == s;
        lemma_three_parts(a, b, c, i);
        if i < a.len() {
            assert(a.contains(s));
            steps.lemma_filter_contains_rev(|x: StepModel| x is Restore, s);
        } else if i < a.len() + b.len() {
            assert(r[p[i - a.len()]] == s);
            assert(r.contains(s));
            steps.lemma_filter_contains_rev(|x: StepModel| x is Remove, s);
        } else {
            assert(c.contains(s));
            steps.lemma_filter_contains_rev(|x: StepModel| x is Skip, s);
        }
    }
}

/// The step for a touch is about the path that was touched.
pub proof fn step_is_about_its_path(t: Touch, sc: Scene)
    ensures
        step_for(t, sc).path() == t.0,
{
}

/// Is `s` the step for the first touch of some path?
pub open spec fn is_step_of_a_first_touch(
    events: Seq<FileEventModel>,
    sc: Scene,
    s: StepModel,
) -> bool {
    exists|t: Touch| #[trigger] comes_first(touches(events), t) && s == step_for(t, sc)
}

/// A plan has exactly one step for each path that the command touched: the
/// step for the first touch of that path.
pub proof fn plan_undoes_each_path_once(
    events: Seq<FileEventModel>,
    sc: Scene,
    plan: Seq<StepModel>,
)
    requires
        is_safe_order(raw_steps(events, sc), plan),
    ensures
        forall|t: Touch| #[trigger] comes_first(touches(events), t) ==> plan.contains(step_for(t, sc)),
        forall|k: int| 0 <= k < plan.len() ==> is_step_of_a_first_touch(events, sc, #[trigger] plan[k]),
        plan.len() == first_touches(touches(events)).len(),
{
    let list = touches(events);
    let firsts = first_touches(list);
    let steps = raw_steps(events, sc);
    first_touches_are_first(list);
    assert forall|t: Touch| #[trigger] comes_first(list, t) implies plan.contains(
        step_for(t, sc),
    ) by {
        assert(firsts.contains(t));
        let k = choose|k: int| 0 <= k < firsts.len() && firsts[k] == t;
        assert(steps[k] == step_for(t, sc));
        plan_keeps_every_step(steps, plan, step_for(t, sc));
    }
    assert forall|k: int| 0 <= k < plan.len() implies is_step_of_a_first_touch(
        events,
        sc,
        #[trigger] plan[k],
    ) by {
        plan_keeps_every_step(steps, plan, plan[k]);
        let m = choose|m: int| 0 <= m < steps.len() && steps[m] == plan[k];
        assert(steps[m] == step_for(firsts[m], sc));
        assert(firsts.contains(firsts[m]));
        assert(comes_first(list, firsts[m]));
    }
    lemma_three_filters_len(steps);
}

/// No two steps of a plan are about the same path.
pub proof fn plan_has_distinct_paths(
    events: Seq<FileEventModel>,
    sc: Scene,
    plan: Seq<StepModel>,
    i: int,
    j: int,
)
    requires
        is_safe_order(raw_steps(events, sc), plan),
        0 <= i < j < plan.len(),
    ensures
        plan[i].path() != plan[j].path(),
{
    let list = touches(events);
    let firsts = first_touches(list);
    let steps = raw_steps(events, sc);
    first_touches_are_first(list);
    assert(steps.no_duplicates()) by {
        assert forall|x: int, y: int| 0 <= x < y < steps.len() implies steps[x] != steps[y] by {
            assert(steps[x].path() == firsts[x].0);
            assert(steps[y].path() == firsts[y].0);
        }
    }
    if plan[i].path() == plan[j].path() {
        plan_keeps_every_step(steps, plan, plan[i]);
        plan_keeps_every_step(steps, plan, plan[j]);
        let x = choose|x: int| 0 <= x < steps.len() && steps[x] == plan[i];
        let y = choose|y: int| 0 <= y < steps.len() && steps[y] == plan[j];
        assert(steps[x].path() == firsts[x].0);
        assert(steps[y].path() == firsts[y].0);
        assert(x == y) by {
            if x < y {
                assert(firsts[x].0 != firsts[y].0);
            }
            if y < x {
                assert(firsts[y].0 != firsts[x].0);
            }
        }
        let p = choose|p: Seq<int>|
            {
                &&& #[trigger] is_depth_order(step_depths(removes(steps)), p)
                &&& plan == restores(steps) + arranged(removes(steps), p) + skips(steps)
            };
        let a = restores(steps);
        let b = arranged(removes(steps), p);
        let c = skips(steps);
        lemma_three_parts(a, b, c, i);
        lemma_three_parts(a, b, c, j);
        broadcast use Seq::lemma_filter_pred;

        lemma_filter_no_duplicates(steps, |s: StepModel| s is Restore);
        lemma_filter_no_duplicates(steps, |s: StepModel| s is Remove);
        lemma_filter_no_duplicates(steps, |s: StepModel| s is Skip);
        if i >= a.len() && j < a.len() + b.len() {
            assert(crate::order::deeper_before(
                step_depths(removes(steps)),
                p[i - a.len()],
                p[j - a.len()],
            ));
        }
    }
}

proof fn lemma_filter_no_duplicates(steps: Seq<StepModel>, f: spec_fn(StepModel) -> bool)
    requires
        steps.no_duplicates(),
    ensures
        steps.filter(f).no_duplicates(),
    decreases steps.len(),
{
    reveal(Seq::filter);
    if steps.len() > 0 {
        let front = steps.drop_last();
        lemma_filter_no_duplicates(front, f);
        if front.filter(f).contains(steps.last()) {
            front.lemma_filter_contains_rev(f, steps.last());
            let k = choose|k: int| 0 <= k < front.len() && front[k] == steps.last();
            assert(steps[k] == steps[steps.len() - 1]);
        }
    }
}

proof fn lemma_three_filters_len(steps: Seq<StepModel>)
    ensures
        restores(steps).len() + removes(steps).len() + skips(steps).len() == steps.len(),
    decreases steps.len(),
{
    reveal(Seq::filter);
    if steps.len() > 0 {
        lemma_three_filters_len(steps.drop_last());
    }
}

/// What a plan restores or removes is neither refused nor outside the tree
/// that the snapshots cover, and a snapshot predates it.
pub proof fn plan_touches_only_what_snapshots_cover(
    events: Seq<FileEventModel>,
    sc: Scene,
    plan: Seq<StepModel>,
    k: int,
)
    requires
        is_safe_order(raw_steps(events, sc), plan),
        0 <= k < plan.len(),
        !(plan[k] is Skip),
    ensures
        !is_refused(plan[k].path()),
        is_within(plan[k].path(), sc.live_root),
        exists|t: Touch|
            {
                &&& #[trigger] comes_first(touches(events), t)
                &&& t.0 == plan[k].path()
                &&& newest_at_or_before(sc.snapshots, t.1) is Some
            },
{
    plan_undoes_each_path_once(events, sc, plan);
    let t = choose|t: Touch|
        #[trigger] comes_first(touches(events), t) && plan[k] == step_for(t, sc);
    assert(comes_first(touches(events), t));
    step_is_about_its_path(t, sc);
}

/// A rename that arrived as one event is undone like one that arrived as a
/// departure and an arrival, whatever came before and after: the two plans
/// hold the same steps.
pub proof fn an_atomic_rename_plans_like_two_events(
    before: Seq<FileEventModel>,
    departed: FileEventModel,
    arrived: FileEventModel,
    renamed: FileEventModel,
    after: Seq<FileEventModel>,
    sc: Scene,
    plan_of_two: Seq<StepModel>,
    plan_of_one: Seq<StepModel>,
    s: StepModel,
)
    requires
        departed.other_path is None,
        arrived.other_path is None,
        departed.ts == arrived.ts,
        renamed.ts == arrived.ts,
        renamed.path == arrived.path,
        renamed.other_path == Some(departed.path),
        is_safe_order(raw_steps(before.push(departed).push(arrived) + after, sc), plan_of_two),
        is_safe_order(raw_steps(before.push(renamed) + after, sc), plan_of_one),
    ensures
        plan_of_two.contains(s) <==> plan_of_one.contains(s),
{
    let a = (departed.path, arrived.ts);
    let b = (arrived.path, arrived.ts);
    let base = touches(before);
    let two = before.push(departed).push(arrived);
    let one = before.push(renamed);
    assert(two.drop_last() =~= before.push(departed));
    assert(before.push(departed).drop_last() =~= before);
    assert(one.drop_last() =~= before);
    assert(touches(before.push(departed)) =~= base.push(a));
    assert(touches(two) =~= base.push(a).push(b));
    assert(touches(one) =~= base.push(b).push(a));
    first_touches_append(base, a);
    first_touches_append(base, b);
    first_touches_append(base.push(a), b);
    first_touches_append(base.push(b), a);
    let seen = first_touches(base);
    lemma_add_two(seen, a, b);
    lemma_add_two(seen, b, a);
    lemma_same_firsts_go_on(two, one, after);
    let ft = first_touches(touches(two + after));
    let fo = first_touches(touches(one + after));
    let st = raw_steps(two + after, sc);
    let so = raw_steps(one + after, sc);
    plan_keeps_every_step(st, plan_of_two, s);
    plan_keeps_every_step(so, plan_of_one, s);
    if st.contains(s) {
        let k = choose|k: int| 0 <= k < st.len() && st[k] == s;
        assert(ft.contains(ft[k]));
        assert(fo.contains(ft[k]));
        let m = choose|m: int| 0 <= m < fo.len() && fo[m] == ft[k];
        assert(so[m] == s);
    }
    if so.contains(s) {
        let k = choose|k: int| 0 <= k < so.len() && so[k] == s;
        assert(fo.contains(fo[k]));
        assert(ft.contains(fo[k]));
        let m = choose|m: int| 0 <= m < ft.len() && ft[m] == fo[k];
        assert(st[m] == s);
    }
}

/// Do the two lists hold the same touches?
spec fn same_touches(a: Seq<Touch>, b: Seq<Touch>) -> bool {
    forall|t: Touch| #[trigger] a.contains(t) <==> b.contains(t)
}

/// Lists of the same touches stay so where the same touch is added to both.
proof fn lemma_same_touches_grow(a: Seq<Touch>, b: Seq<Touch>, t: Touch)
    requires
        same_touches(a, b),
    ensures
        same_touches(add_touch(a, t), add_touch(b, t)),
{
    if is_touched(a, t.0) {
        let k = choose|k: int| 0 <= k < a.len() && (#[trigger] a[k]).0 == t.0;
        assert(a.contains(a[k]));
        assert(b.contains(a[k]));
        let m = choose|m: int| 0 <= m < b.len() && b[m] == a[k];
        assert(b[m].0 == t.0);
    }
    if is_touched(b, t.0) {
        let k = choose|k: int| 0 <= k < b.len() && (#[trigger] b[k]).0 == t.0;
        assert(b.contains(b[k]));
        assert(a.contains(b[k]));
        let m = choose|m: int| 0 <= m < a.len() && a[m] == b[k];
        assert(a[m].0 == t.0);
    } else {
        assert forall|x: Touch| #[trigger] a.push(t).contains(x) <==> b.push(t).contains(x) by {
            lemma_contains_pushed(a, t, x);
            lemma_contains_pushed(b, t, x);
        }
    }
}

proof fn lemma_contains_pushed(a: Seq<Touch>, t: Touch, x: Touch)
    ensures
        a.push(t).contains(x) <==> a.contains(x) || x == t,
{
    assert(a.push(t)[a.len() as int] == t);
    if a.contains(x) {
        let k = choose|k: int| 0 <= k < a.len() && a[k] == x;
        assert(a.push(t)[k] == x);
    }
    if a.push(t).contains(x) && x != t {
        let k = choose|k: int| 0 <= k < a.push(t).len() && a.push(t)[k] == x;
        assert(a[k] == x);
    }
}

/// Events with the same first touches have the same ones still where the same
/// events follow both.
proof fn lemma_same_firsts_go_on(
    a: Seq<FileEventModel>,
    b: Seq<FileEventModel>,
    after: Seq<FileEventModel>,
)
    requires
        same_touches(first_touches(touches(a)), first_touches(touches(b))),
    ensures
        same_touches(first_touches(touches(a + after)), first_touches(touches(b + after))),
    decreases after.len(),
{
    if after.len() == 0 {
        assert(a + after =~= a);
        assert(b + after =~= b);
    } else {
        let front = after.drop_last();
        let e = after.last();
        lemma_same_firsts_go_on(a, b, front);
        assert((a + after).drop_last() =~= a + front);
        assert((b + after).drop_last() =~= b + front);
        let x = touches(a + front);
        let y = touches(b + front);
        let t = (e.path, e.ts);
        first_touches_append(x, t);
        first_touches_append(y, t);
        lemma_same_touches_grow(first_touches(x), first_touches(y), t);
        match e.other_path {
            Some(other) => {
                let u = (other, e.ts);
                first_touches_append(x.push(t), u);
                first_touches_append(y.push(t), u);
                lemma_same_touches_grow(first_touches(x.push(t)), first_touches(y.push(t)), u);
                assert(touches(a + after) =~= x.push(t).push(u));
                assert(touches(b + after) =~= y.push(t).push(u));
            },
            None => {
                assert(touches(a + after) =~= x.push(t));
                assert(touches(b + after) =~= y.push(t));
            },
        }
    }
}

/// What adding two touches of the same time adds.
proof fn lemma_add_two(seen: Seq<Touch>, a: Touch, b: Touch)
    requires
        a.1 == b.1,
    ensures
        forall|t: Touch| #[trigger]
            add_touch(add_touch(seen, a), b).contains(t) <==> seen.contains(t) || t == a
                && !is_touched(seen, a.0) || t == b && !is_touched(seen, b.0),
{
    let one = add_touch(seen, a);
    let two = add_touch(one, b);
    assert forall|t: Touch| #[trigger] two.contains(t) <==> seen.contains(t) || t == a && !is_touched(
        seen,
        a.0,
    ) || t == b && !is_touched(seen, b.0) by {
        if seen.contains(t) {
            let k = choose|k: int| 0 <= k < seen.len() && seen[k] == t;
            assert(one[k] == t);
            assert(two[k] == t);
        }
        if !is_touched(seen, a.0) {
            assert(one[seen.len() as int] == a);
            assert(two[seen.len() as int] == a);
            if a.0 == b.0 {
                assert(a == b);
            }
        }
        if !is_touched(seen, b.0) {
            if is_touched(one, b.0) {
                let k = choose|k: int| 0 <= k < one.len() && (#[trigger] one[k]).0 == b.0;
                if k < seen.len() {
                    assert(seen[k].0 == b.0);
                }
                assert(two[k] == b);
            } else {
                assert(two[one.len() as int] == b);
            }
        } else {
            let k = choose|k: int| 0 <= k < seen.len() && (#[trigger] seen[k]).0 == b.0;
            assert(one[k].0 == b.0);
        }
        if two.contains(t) {
            let k = choose|k: int| 0 <= k < two.len() && two[k] == t;
            if k < seen.len() {
                assert(seen[k] == t);
            }
        }
    }
}

/// A plan asks only whether the pre-images that [`probes`] lists exist: two
/// scenes that agree on those give the same steps.
pub proof fn plan_depends_only_on_probes(
    events: Seq<FileEventModel>,
    sc: Scene,
    existing: Seq<Seq<char>>,
)
    requires
        forall|p: Seq<char>| #[trigger]
            probe_texts(events, sc).contains(p) ==> (sc.existing.contains(p)
                <==> existing.contains(p)),
    ensures
        raw_steps(events, sc) == raw_steps(events, Scene { existing, ..sc }),
{
    let firsts = first_touches(touches(events));
    let other = Scene { existing, ..sc };
    let f = |t: Touch| deciding_pre_image(t, sc);
    assert forall|k: int| 0 <= k < firsts.len() implies step_for(#[trigger] firsts[k], sc) == step_for(
        firsts[k],
        other,
    ) by {
        match deciding_pre_image(firsts[k], sc) {
            Some(p) => {
                lemma_filter_map_keeps(firsts, f, k);
                assert(probe_texts(events, sc).contains(p));
            },
            None => {},
        }
    }
    assert(raw_steps(events, sc) =~= raw_steps(events, other));
}

proof fn lemma_filter_map_keeps(s: Seq<Touch>, f: spec_fn(Touch) -> Option<Seq<char>>, k: int)
    requires
        0 <= k < s.len(),
        f(s[k]) is Some,
    ensures
        s.filter_map(f).contains(f(s[k])->0),
    decreases s.len(),
{
    let out = s.filter_map(f);
    let rest = s.drop_last().filter_map(f);
    if k == s.len() - 1 {
        assert(out[rest.len() as int] == f(s[k])->0);
    } else {
        lemma_filter_map_keeps(s.drop_last(), f, k);
        let i = choose|i: int| 0 <= i < rest.len() && rest[i] == f(s[k])->0;
        assert(out[i] == f(s[k])->0);
    }
}

} // verus!
