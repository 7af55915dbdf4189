//! What holds of an undo plan, told in terms of the events, the snapshots and
//! the files that they hold.
use crate::graph::FileEventModel;
use crate::path::{after_components, components, is_within, join_path, same_path};
use crate::path_laws::{
    a_name_is_one_component, an_absolute_path_stands_alone, begins_with_dot, is_name,
    joining_appends_components, the_root_is_one_component, what_is_behind_keeps_its_components,
};
use crate::report::snapshot_of;
use crate::revert::{
    add_touch, deciding_pre_image, first_prefix, first_touches, first_touches_append,
    is_package_state, is_refused, is_safe_order, is_touched, newest_at_or_before,
    newest_is_the_greatest, plan_has_distinct_paths, plan_keeps_every_step, pre_image, probe_texts,
    raw_steps, refusal, refused_prefixes, removes, restores, scene, skips, step_depths, step_for,
    touches, Scene, StepModel, Touch,
};
use crate::order::{arranged, is_depth_order};
use crate::text::{has_part, lex_le, starts_with, texts};
use crate::text_laws::lemma_part;
use vstd::prelude::*;

verus! {

// ---------------------------------------------------------------------
// Pre-images
// ---------------------------------------------------------------------
/// The components of the copy that a snapshot holds of a file: those of the
/// directory of snapshots, the snapshot's name, and all those of the file
/// below the tree that the snapshots mirror.
pub open spec fn copy_of(
    path: Seq<char>,
    snap: Seq<char>,
    snap_root: Seq<char>,
    live_root: Seq<char>,
) -> Seq<Seq<char>> {
    components(snap_root) + seq![snap] + components(path).skip(components(live_root).len() as int)
}

/// Can a snapshot have this name?
pub open spec fn is_snapshot_name(snap: Seq<char>) -> bool {
    is_name(snap) && snap != seq!['.']
}

/// The pre-image of a file within the tree is the file of the same name, below
/// the same directories, in the snapshot.
pub proof fn a_pre_image_mirrors_the_tree(
    path: Seq<char>,
    snap: Seq<char>,
    snap_root: Seq<char>,
    live_root: Seq<char>,
)
    requires
        is_snapshot_name(snap),
        components(live_root).len() > 0,
        is_within(path, live_root),
    ensures
        components(pre_image(path, snap, snap_root, live_root)) == copy_of(
            path,
            snap,
            snap_root,
            live_root,
        ),
{
    let n = components(live_root).len();
    let rel = after_components(path, n);
    let dir = join_path(snap_root, snap);
    what_is_behind_keeps_its_components(path, n);
    a_name_is_one_component(snap);
    the_root_is_one_component();
    assert(snap[0] != '/');
    if snap_root.len() == 0 {
        an_absolute_path_stands_alone(snap_root, snap);
        assert(snap_root =~= Seq::empty());
        assert(components(dir) =~= components(snap_root) + seq![snap]);
    } else {
        assert(!begins_with_dot(snap)) by {
            if begins_with_dot(snap) {
                if snap.len() > 1 {
                    assert(snap[1] != '/');
                }
                assert(snap =~= seq!['.']);
            }
        }
        joining_appends_components(snap_root, snap);
    }
    assert(dir.len() > 0);
    joining_appends_components(dir, rel);
}

/// Two paths within the tree have the same pre-image in a snapshot only if
/// they are the same path.
pub proof fn pre_images_tell_paths_apart(
    p: Seq<char>,
    q: Seq<char>,
    snap: Seq<char>,
    snap_root: Seq<char>,
    live_root: Seq<char>,
)
    requires
        is_snapshot_name(snap),
        components(live_root).len() > 0,
        is_within(p, live_root),
        is_within(q, live_root),
        same_path(
            pre_image(p, snap, snap_root, live_root),
            pre_image(q, snap, snap_root, live_root),
        ),
    ensures
        same_path(p, q),
{
    a_pre_image_mirrors_the_tree(p, snap, snap_root, live_root);
    a_pre_image_mirrors_the_tree(q, snap, snap_root, live_root);
    let n = components(live_root).len() as int;
    let m = components(snap_root).len() as int;
    let a = copy_of(p, snap, snap_root, live_root);
    let b = copy_of(q, snap, snap_root, live_root);
    assert(a.skip(m + 1) =~= components(p).skip(n));
    assert(b.skip(m + 1) =~= components(q).skip(n));
    assert(components(p) =~= components(p).take(n) + components(p).skip(n));
    assert(components(q) =~= components(q).take(n) + components(q).skip(n));
}

/// The snapshot that a plan says it restores a file from is the one that holds
/// the pre-image.
pub proof fn the_snapshot_shown_is_the_one_used(
    path: Seq<char>,
    snap: Seq<char>,
    snap_root: Seq<char>,
    live_root: Seq<char>,
)
    requires
        is_snapshot_name(snap),
        components(live_root).len() > 0,
        components(snap_root).len() > 0,
        is_within(path, live_root),
    ensures
        snapshot_of(pre_image(path, snap, snap_root, live_root), snap_root) == snap,
{
    let from = pre_image(path, snap, snap_root, live_root);
    let m = components(snap_root).len();
    a_pre_image_mirrors_the_tree(path, snap, snap_root, live_root);
    assert(components(from).take(m as int) =~= components(snap_root));
    what_is_behind_keeps_its_components(from, m);
    assert(components(from).skip(m as int)[0] == snap);
}

// ---------------------------------------------------------------------
// Touches
// ---------------------------------------------------------------------
/// Does the event touch the path: is it about it, or was the path renamed away
/// or to by it?
pub open spec fn touches_path(e: FileEventModel, path: Seq<char>) -> bool {
    e.path == path || e.other_path == Some(path)
}

/// Is the event at `i` the first to touch the path?
pub open spec fn touches_first(events: Seq<FileEventModel>, path: Seq<char>, i: int) -> bool {
    &&& 0 <= i < events.len()
    &&& touches_path(events[i], path)
    &&& forall|j: int| 0 <= j < i ==> !touches_path(#[trigger] events[j], path)
}

/// What one more touch adds.
proof fn lemma_added(seen: Seq<Touch>, t: Touch, x: Touch)
    ensures
        add_touch(seen, t).contains(x) <==> seen.contains(x) || x == t && !is_touched(seen, t.0),
        is_touched(add_touch(seen, t), x.0) <==> is_touched(seen, x.0) || x.0 == t.0,
{
    let all = add_touch(seen, t);
    if !is_touched(seen, t.0) {
        assert(all[seen.len() as int] == t);
    }
    if seen.contains(x) {
        let k = choose|k: int| 0 <= k < seen.len() && seen[k] == x;
        assert(all[k] == x);
    }
    if is_touched(seen, x.0) {
        let k = choose|k: int| 0 <= k < seen.len() && (#[trigger] seen[k]).0 == x.0;
        assert(all[k].0 == x.0);
    }
    if is_touched(all, x.0) {
        let k = choose|k: int| 0 <= k < all.len() && (#[trigger] all[k]).0 == x.0;
        if k < seen.len() {
            assert(seen[k].0 == x.0);
        }
    }
    if all.contains(x) {
        let k = choose|k: int| 0 <= k < all.len() && all[k] == x;
        if k < seen.len() {
            assert(seen[k] == x);
        }
    }
}

/// The first touches are those of the first events to touch a path.
proof fn lemma_first_touches(events: Seq<FileEventModel>, x: Touch)
    ensures
        is_touched(first_touches(touches(events)), x.0) <==> exists|i: int|
            0 <= i < events.len() && touches_path(#[trigger] events[i], x.0),
        first_touches(touches(events)).contains(x) <==> exists|i: int| #[trigger]
            touches_first(events, x.0, i) && events[i].ts == x.1,
    decreases events.len(),
{
    let all = first_touches(touches(events));
    if events.len() > 0 {
        let front = events.drop_last();
        let e = events.last();
        let n = front.len() as int;
        let before = touches(front);
        let seen = first_touches(before);
        let t = (e.path, e.ts);
        lemma_first_touches(front, x);
        lemma_first_touches(front, t);
        first_touches_append(before, t);
        lemma_added(seen, t, x);
        match e.other_path {
            Some(other) => {
                let u = (other, e.ts);
                first_touches_append(before.push(t), u);
                assert(touches(events) =~= before.push(t).push(u));
                lemma_first_touches(front, u);
                lemma_added(seen, t, u);
                lemma_added(add_touch(seen, t), u, x);
            },
            None => {
                assert(touches(events) =~= before.push(t));
            },
        }
        assert(events[n] == e);
        assert forall|i: int| 0 <= i < n implies #[trigger] events[i] == front[i] by {}
        assert(is_touched(seen, x.0) <==> exists|i: int|
            0 <= i < n && touches_path(#[trigger] events[i], x.0)) by {
            if is_touched(seen, x.0) {
                let i = choose|i: int| 0 <= i < n && touches_path(#[trigger] front[i], x.0);
                assert(touches_path(events[i], x.0));
            }
            if exists|i: int| 0 <= i < n && touches_path(#[trigger] events[i], x.0) {
                let i = choose|i: int| 0 <= i < n && touches_path(#[trigger] events[i], x.0);
                assert(touches_path(front[i], x.0));
            }
        }
        assert forall|i: int| 0 <= i < n implies touches_first(events, x.0, i) == touches_first(
            front,
            x.0,
            i,
        ) by {
            if touches_first(front, x.0, i) {
                assert forall|j: int| 0 <= j < i implies !touches_path(#[trigger] events[j], x.0) by {
                    assert(events[j] == front[j]);
                }
            }
            if touches_first(events, x.0, i) {
                assert forall|j: int| 0 <= j < i implies !touches_path(#[trigger] front[j], x.0) by {
                    assert(events[j] == front[j]);
                }
            }
        }
        assert(touches_first(events, x.0, n) <==> touches_path(e, x.0) && !is_touched(seen, x.0));
        if seen.contains(x) {
            let i = choose|i: int| #[trigger]
                touches_first(front, x.0, i) && front[i].ts == x.1;
            assert(touches_first(events, x.0, i) && events[i].ts == x.1);
        }
        if exists|i: int| #[trigger] touches_first(events, x.0, i) && events[i].ts == x.1 {
            let i = choose|i: int| #[trigger]
                touches_first(events, x.0, i) && events[i].ts == x.1;
            if i < n {
                assert(touches_first(front, x.0, i) && front[i].ts == x.1);
                assert(seen.contains(x));
            }
        }
    } else {
        assert(!is_touched(all, x.0));
    }
}

// ---------------------------------------------------------------------
// Plans
// ---------------------------------------------------------------------
/// Is this the newest of the snapshots that were there at `ts`?
pub open spec fn is_newest_before(snapshots: Seq<Seq<char>>, ts: Seq<char>, snap: Seq<char>) -> bool {
    &&& snapshots.contains(snap)
    &&& lex_le(snap, ts)
    &&& forall|k: int|
        0 <= k < snapshots.len() && lex_le(#[trigger] snapshots[k], ts) ==> lex_le(
            snapshots[k],
            snap,
        )
}

/// Are all snapshots later than `ts`?
pub open spec fn all_later(snapshots: Seq<Seq<char>>, ts: Seq<char>) -> bool {
    forall|k: int| 0 <= k < snapshots.len() ==> !lex_le(#[trigger] snapshots[k], ts)
}

/// Is the file `from` one that is asked about for the plan, and is it the copy
/// of `path` in the newest snapshot before `ts`?
pub open spec fn is_old_version(
    from: Seq<char>,
    path: Seq<char>,
    ts: Seq<char>,
    events: Seq<FileEventModel>,
    sc: Scene,
) -> bool {
    &&& probe_texts(events, sc).contains(from)
    &&& exists|snap: Seq<char>| #[trigger]
        is_newest_before(sc.snapshots, ts, snap) && components(from) == copy_of(
            path,
            snap,
            sc.snap_root,
            sc.live_root,
        )
}

/// Does the step undo what was done to `path`, first at `ts`? It leaves the
/// path alone exactly if that is refused, lies outside the tree, or is older
/// than every snapshot. Else it restores the old version where there is one,
/// and removes the path where there is none.
pub open spec fn is_undoing(
    s: StepModel,
    path: Seq<char>,
    ts: Seq<char>,
    events: Seq<FileEventModel>,
    sc: Scene,
) -> bool {
    &&& s.path() == path
    &&& s is Skip <==> is_refused(path) || !is_within(path, sc.live_root) || all_later(
        sc.snapshots,
        ts,
    )
    &&& s matches StepModel::Restore { from, .. } ==> is_old_version(from, path, ts, events, sc)
        && sc.existing.contains(from)
    &&& s is Remove ==> exists|from: Seq<char>| #[trigger]
        is_old_version(from, path, ts, events, sc) && !sc.existing.contains(from)
}

/// Are the names of the snapshots names of directories, and is the tree that
/// they mirror not the empty path?
pub open spec fn is_proper(sc: Scene) -> bool {
    &&& components(sc.live_root).len() > 0
    &&& forall|k: int| 0 <= k < sc.snapshots.len() ==> is_snapshot_name(#[trigger] sc.snapshots[k])
}

proof fn lemma_filter_map_keeps(s: Seq<Touch>, f: spec_fn(Touch) -> Option<Seq<char>>, k: int)
    requires
        0 <= k < s.len(),
        f(s[k]) is Some,
    ensures
        s.filter_map(f).contains(f(s[k])->0),
    decreases s.len(),
{
    let out = s.filter_map(f);
    let rest = s.drop_last().filter_map(f);
    if k == s.len() - 1 {
        assert(out[rest.len() as int] == f(s[k])->0);
    } else {
        lemma_filter_map_keeps(s.drop_last(), f, k);
        let i = choose|i: int| 0 <= i < rest.len() && rest[i] == f(s[k])->0;
        assert(out[i] == f(s[k])->0);
    }
}

/// The step for a first touch undoes it.
proof fn lemma_step_undoes(events: Seq<FileEventModel>, sc: Scene, t: Touch)
    requires
        is_proper(sc),
        first_touches(touches(events)).contains(t),
    ensures
        is_undoing(step_for(t, sc), t.0, t.1, events, sc),
{
    let s = step_for(t, sc);
    let firsts = first_touches(touches(events));
    newest_is_the_greatest(sc.snapshots, t.1);
    if deciding_pre_image(t, sc) is Some {
        let snap = newest_at_or_before(sc.snapshots, t.1)->0;
        let from = deciding_pre_image(t, sc)->0;
        let k = choose|k: int| 0 <= k < sc.snapshots.len() && sc.snapshots[k] == snap;
        assert(is_snapshot_name(sc.snapshots[k]));
        a_pre_image_mirrors_the_tree(t.0, snap, sc.snap_root, sc.live_root);
        assert(is_newest_before(sc.snapshots, t.1, snap));
        let f = |x: Touch| deciding_pre_image(x, sc);
        let i = choose|i: int| 0 <= i < firsts.len() && firsts[i] == t;
        assert(f(firsts[i]) == Some(from));
        lemma_filter_map_keeps(firsts, f, i);
        assert(probe_texts(events, sc).contains(from));
        assert(is_old_version(from, t.0, t.1, events, sc));
        assert(!all_later(sc.snapshots, t.1)) by {
            assert(lex_le(sc.snapshots[k], t.1));
        }
    }
}

/// A plan undoes everything: for each path that an event touches it has a
/// step, which undoes what was done to the path by the first event to touch
/// it and all later ones.
pub proof fn a_plan_undoes_every_touch(
    events: Seq<FileEventModel>,
    sc: Scene,
    plan: Seq<StepModel>,
    path: Seq<char>,
    i: int,
)
    requires
        is_proper(sc),
        is_safe_order(raw_steps(events, sc), plan),
        touches_first(events, path, i),
    ensures
        exists|k: int|
            0 <= k < plan.len() && is_undoing(#[trigger] plan[k], path, events[i].ts, events, sc),
{
    let t = (path, events[i].ts);
    let firsts = first_touches(touches(events));
    lemma_first_touches(events, t);
    lemma_step_undoes(events, sc, t);
    let k = choose|k: int| 0 <= k < firsts.len() && firsts[k] == t;
    let s = step_for(t, sc);
    assert(raw_steps(events, sc)[k] == s);
    plan_keeps_every_step(raw_steps(events, sc), plan, s);
    let m = choose|m: int| 0 <= m < plan.len() && plan[m] == s;
    assert(is_undoing(plan[m], path, events[i].ts, events, sc));
}

/// A plan does nothing else: each of its steps undoes what was done to a path
/// that an event touches, no path has two steps, and a path is never both
/// restored and removed.
pub proof fn a_plan_does_nothing_else(
    events: Seq<FileEventModel>,
    sc: Scene,
    plan: Seq<StepModel>,
    k: int,
)
    requires
        is_proper(sc),
        is_safe_order(raw_steps(events, sc), plan),
        0 <= k < plan.len(),
    ensures
        exists|i: int| #[trigger]
            touches_first(events, plan[k].path(), i) && is_undoing(
                plan[k],
                plan[k].path(),
                events[i].ts,
                events,
                sc,
            ),
        forall|m: int| 0 <= m < plan.len() && m != k ==> (#[trigger] plan[m]).path() != plan[k].path(),
{
    let s = plan[k];
    let steps = raw_steps(events, sc);
    let firsts = first_touches(touches(events));
    assert(plan.contains(s));
    plan_keeps_every_step(steps, plan, s);
    let j = choose|j: int| 0 <= j < steps.len() && steps[j] == s;
    let t = firsts[j];
    assert(s == step_for(t, sc));
    assert(firsts.contains(t));
    lemma_first_touches(events, t);
    lemma_step_undoes(events, sc, t);
    let i = choose|i: int| #[trigger] touches_first(events, t.0, i) && events[i].ts == t.1;
    assert(touches_first(events, s.path(), i));
    assert forall|m: int| 0 <= m < plan.len() && m != k implies (#[trigger] plan[m]).path()
        != plan[k].path() by {
        if m < k {
            plan_has_distinct_paths(events, sc, plan, m, k);
        } else {
            plan_has_distinct_paths(events, sc, plan, k, m);
        }
    }
}

/// What is refused: the state of package managers, and what is no persistent
/// state at all.
pub proof fn what_is_refused(path: Seq<char>)
    ensures
        is_refused(path) <==> {
            ||| starts_with(path, "/var/lib/dpkg"@)
            ||| starts_with(path, "/var/lib/rpm"@)
            ||| starts_with(path, "/var/lib/pacman"@)
            ||| starts_with(path, "/var/db/xbps"@)
            ||| starts_with(path, "/var/lib/xbps"@)
            ||| starts_with(path, "/nix/store"@)
            ||| starts_with(path, "/proc"@)
            ||| starts_with(path, "/sys"@)
            ||| starts_with(path, "/dev"@)
            ||| starts_with(path, "/run"@)
        },
        is_refused(path) <==> refusal(path) is Some,
{
    let list = refused_prefixes();
    if exists|j: int| 0 <= j < list.len() && starts_with(path, #[trigger] list[j]) {
        let j = choose|j: int| 0 <= j < list.len() && starts_with(path, #[trigger] list[j]);
        lemma_some_prefix_is_first(list, path, j);
    }
    assert(list[0] == "/var/lib/dpkg"@);
    assert(list[1] == "/var/lib/rpm"@);
    assert(list[2] == "/var/lib/pacman"@);
    assert(list[3] == "/var/db/xbps"@);
    assert(list[4] == "/var/lib/xbps"@);
    assert(list[5] == "/nix/store"@);
    assert(list[6] == "/proc"@);
    assert(list[7] == "/sys"@);
    assert(list[8] == "/dev"@);
    assert(list[9] == "/run"@);
    if is_refused(path) {
        let k = choose|k: int| first_prefix(list, path, k);
        assert(starts_with(path, list[k]));
    }
}

/// Where a path begins with one of the prefixes, there is a first one.
proof fn lemma_some_prefix_is_first(list: Seq<Seq<char>>, path: Seq<char>, j: int)
    requires
        0 <= j < list.len(),
        starts_with(path, list[j]),
    ensures
        exists|k: int| first_prefix(list, path, k),
    decreases j,
{
    if exists|i: int| 0 <= i < j && starts_with(path, #[trigger] list[i]) {
        let i = choose|i: int| 0 <= i < j && starts_with(path, #[trigger] list[i]);
        lemma_some_prefix_is_first(list, path, i);
    } else {
        assert(first_prefix(list, path, j));
    }
}

/// A path that is left alone is left with the reason: the refused prefix that
/// it begins with, or the tree that it lies outside of.
pub proof fn a_skip_says_why(t: Touch, sc: Scene)
    ensures
        is_refused(t.0) ==> (step_for(t, sc) matches StepModel::Skip { path, why } && exists|k: int|
            #[trigger] first_prefix(refused_prefixes(), t.0, k) && has_part(why, refused_prefixes()[k])),
        !is_refused(t.0) && !is_within(t.0, sc.live_root) ==> (step_for(
            t,
            sc,
        ) matches StepModel::Skip { path, why } && has_part(why, sc.live_root)),
{
    if is_refused(t.0) {
        let k = choose|k: int| first_prefix(refused_prefixes(), t.0, k);
        let prefix = refused_prefixes()[k];
        lemma_part("package manager state ("@, prefix, ") — undo via the package manager instead"@);
        lemma_part("not real persistent state ("@, prefix, ")"@);
        assert(first_prefix(refused_prefixes(), t.0, k));
    }
    lemma_part("outside the snapshotted tree ("@, sc.live_root, ")"@);
}

/// A prefix is the state of a package manager exactly if it names one.
pub proof fn package_managers_are_known_by_name(prefix: Seq<char>)
    ensures
        is_package_state(prefix) <==> has_part(prefix, "dpkg"@) || has_part(prefix, "rpm"@)
            || has_part(prefix, "pacman"@) || has_part(prefix, "xbps"@),
{
}

/// Removals of the same depth come in the order in which the paths were first
/// touched.
pub proof fn removals_of_one_depth_keep_their_order(
    steps: Seq<StepModel>,
    plan: Seq<StepModel>,
    i: int,
    j: int,
)
    requires
        is_safe_order(steps, plan),
        0 <= i < j < removes(steps).len(),
        components(removes(steps)[i].path()).len() == components(removes(steps)[j].path()).len(),
    ensures
        exists|a: int, b: int|
            #![trigger plan[a], plan[b]]
            0 <= a < b < plan.len() && plan[a] == removes(steps)[i] && plan[b] == removes(steps)[j],
{
    let gone = removes(steps);
    let depths = step_depths(gone);
    let p = choose|p: Seq<int>|
        {
            &&& #[trigger] is_depth_order(depths, p)
            &&& plan == restores(steps) + arranged(gone, p) + skips(steps)
        };
    assert(p.contains(i) && p.contains(j));
    let a = choose|a: int| 0 <= a < p.len() && p[a] == i;
    let b = choose|b: int| 0 <= b < p.len() && p[b] == j;
    if b < a {
        assert(crate::order::deeper_before(depths, p[b], p[a]));
    }
    let n = restores(steps).len();
    assert(plan[n + a] == gone[i]);
    assert(plan[n + b] == gone[j]);
}

/// A plan is made from the snapshots, the two directories and the files that
/// it is given.
pub proof fn a_plan_is_made_from_what_is_given(
    snapshots: Seq<String>,
    snap_root: &str,
    live_root: &str,
    existing: Seq<String>,
)
    ensures
        scene(snapshots, snap_root, live_root, existing).snapshots == texts(snapshots),
        scene(snapshots, snap_root, live_root, existing).snap_root == snap_root@,
        scene(snapshots, snap_root, live_root, existing).live_root == live_root@,
        scene(snapshots, snap_root, live_root, existing).existing == texts(existing),
{
}

} // verus!
