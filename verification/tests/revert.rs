use whenfs::graph::FileEvent;
use whenfs::revert::{plan, probes, refused, snapshot_before, Step};

const SNAP: &str = "/lab/snap";
const LIVE: &str = "/lab/live";

fn ev(path: &str, ts: &str) -> FileEvent {
    ev_op(path, ts, "create")
}

fn ev_op(path: &str, ts: &str, op: &str) -> FileEvent {
    FileEvent {
        ts: ts.into(),
        path: path.into(),
        op: op.into(),
        pid: 1,
        comm: "sh".into(),
        exe: String::new(),
        cmdline: String::new(),
        proc_start: None,
        other_path: None,
    }
}

fn strings(list: &[&str]) -> Vec<String> {
    list.iter().map(|s| s.to_string()).collect()
}

/// A plan where the snapshots hold the given files.
fn plan_with(events: Vec<FileEvent>, snapshots: &[&str], held: &[&str]) -> Vec<Step> {
    plan(&events, &strings(snapshots), SNAP, LIVE, &strings(held))
}

#[test]
fn file_present_before_the_command_is_restored_from_that_snapshot() {
    let steps = plan_with(
        vec![ev("/lab/live/a.conf", "2026-01-02T00-00-00")],
        &["2026-01-01T00-00-00"],
        &["/lab/snap/2026-01-01T00-00-00/a.conf"],
    );
    match &steps[0] {
        Step::Restore { from, .. } => assert!(from.ends_with("a.conf")),
        other => panic!("expected Restore, got {other:?}"),
    }
}

#[test]
fn file_absent_before_the_command_is_removed_because_it_created_it() {
    let steps = plan_with(
        vec![ev("/lab/live/new.conf", "2026-01-02T00-00-00")],
        &["2026-01-01T00-00-00"],
        &[],
    );
    assert!(matches!(steps[0], Step::Remove { .. }), "{:?}", steps[0]);
}

#[test]
fn the_pre_image_is_the_snapshot_before_the_first_touch_not_the_last() {
    // A command that writes a file repeatedly must be undone to its state
    // before the command started, not to some intermediate value the command
    // itself produced.
    let p = "/lab/live/a.conf";
    let steps = plan_with(
        vec![ev(p, "2026-01-02T00-00-00"), ev(p, "2026-01-04T00-00-00")],
        &["2026-01-01T00-00-00", "2026-01-03T00-00-00"],
        &[
            "/lab/snap/2026-01-01T00-00-00/a.conf",
            "/lab/snap/2026-01-03T00-00-00/a.conf",
        ],
    );
    assert_eq!(steps.len(), 1, "one step per path, not per event");
    match &steps[0] {
        Step::Restore { from, .. } => assert!(
            from.contains("2026-01-01"),
            "restored from {from:?}, wanted the pre-command snapshot"
        ),
        other => panic!("expected Restore, got {other:?}"),
    }
}

#[test]
fn removals_are_ordered_deepest_first_so_directories_can_be_emptied() {
    // `mkdir -p a/b` creates events for the parent first, but removing the
    // parent before its child cannot work.
    let steps = plan_with(
        vec![
            ev("/lab/live/opt", "2026-01-02T00-00-00"),
            ev("/lab/live/opt/thing", "2026-01-02T00-00-00"),
            ev("/lab/live/opt/thing/bin", "2026-01-02T00-00-00"),
        ],
        &["2026-01-01T00-00-00"],
        &[],
    );
    let paths: Vec<String> = steps.iter().map(|s| s.path().to_string()).collect();
    let idx = |suffix: &str| paths.iter().position(|p| p.ends_with(suffix)).unwrap();
    assert!(
        idx("opt/thing/bin") < idx("opt/thing") && idx("opt/thing") < idx("opt"),
        "children must precede parents, got {paths:?}"
    );
}

#[test]
fn restores_are_ordered_before_removals() {
    let steps = plan_with(
        vec![
            ev("/lab/live/made", "2026-01-02T00-00-00"),
            ev("/lab/live/kept.conf", "2026-01-02T00-00-00"),
        ],
        &["2026-01-01T00-00-00"],
        &["/lab/snap/2026-01-01T00-00-00/kept.conf"],
    );
    assert!(matches!(steps[0], Step::Restore { .. }), "{:?}", steps);
}

#[test]
fn a_rename_is_undone_by_the_content_model_without_special_casing() {
    // `mv a b` emits moved_from(a) and moved_to(b). The pre-image decides:
    // `a` existed before the command, so it is restored; `b` did not, so it
    // is removed.
    let steps = plan_with(
        vec![
            ev_op("/lab/live/a.conf", "2026-01-02T00-00-00", "moved_from"),
            ev_op("/lab/live/b.conf", "2026-01-02T00-00-00", "moved_to"),
        ],
        &["2026-01-01T00-00-00"],
        &["/lab/snap/2026-01-01T00-00-00/a.conf"],
    );

    let restored: Vec<_> = steps
        .iter()
        .filter_map(|s| match s {
            Step::Restore { path, .. } => Some(path.clone()),
            _ => None,
        })
        .collect();
    let removed: Vec<_> = steps
        .iter()
        .filter_map(|s| match s {
            Step::Remove { path } => Some(path.clone()),
            _ => None,
        })
        .collect();

    assert_eq!(restored.len(), 1, "the source must come back: {steps:?}");
    assert!(restored[0].ends_with("a.conf"));
    assert_eq!(removed.len(), 1, "the destination must go: {steps:?}");
    assert!(removed[0].ends_with("b.conf"));
}

#[test]
fn an_atomic_rename_event_undoes_both_ends() {
    // A rename reported as a single event names both paths. Handling only
    // `path` would restore nothing and leave the source gone.
    let mut e = ev_op("/lab/live/b.conf", "2026-01-02T00-00-00", "renamed");
    e.other_path = Some("/lab/live/a.conf".to_string());

    let steps = plan_with(
        vec![e],
        &["2026-01-01T00-00-00"],
        &["/lab/snap/2026-01-01T00-00-00/a.conf"],
    );
    assert_eq!(steps.len(), 2, "both ends must appear: {steps:?}");

    let restored = steps
        .iter()
        .any(|s| matches!(s, Step::Restore { path, .. } if path.ends_with("a.conf")));
    let removed = steps
        .iter()
        .any(|s| matches!(s, Step::Remove { path } if path.ends_with("b.conf")));
    assert!(restored, "the source must come back: {steps:?}");
    assert!(removed, "the destination must go: {steps:?}");
}

#[test]
fn a_rename_in_the_middle_plans_like_its_two_halves() {
    let first = || ev("/lab/live/x.conf", "2026-01-02T00-00-00");
    let last = || ev("/lab/live/a.conf", "2026-01-02T00-00-09");
    let at = "2026-01-02T00-00-05";
    let mut whole = ev_op("/lab/live/b.conf", at, "renamed");
    whole.other_path = Some("/lab/live/a.conf".to_string());
    let halves = vec![
        first(),
        ev_op("/lab/live/a.conf", at, "moved_from"),
        ev_op("/lab/live/b.conf", at, "moved_to"),
        last(),
    ];
    let shown = |events: Vec<FileEvent>| -> Vec<String> {
        let held = ["/lab/snap/2026-01-01T00-00-00/a.conf"];
        let steps = plan_with(events, &["2026-01-01T00-00-00"], &held);
        let mut texts: Vec<String> = steps.iter().map(|s| format!("{s:?}")).collect();
        texts.sort();
        texts
    };
    let steps = shown(vec![first(), whole, last()]);
    assert_eq!(steps.len(), 3);
    assert_eq!(steps, shown(halves));
}

#[test]
fn package_manager_state_is_refused_rather_than_corrupted() {
    let steps = plan(
        &vec![ev("/var/lib/dpkg/status", "2026-01-02T00-00-00")],
        &strings(&["2026-01-01T00-00-00"]),
        SNAP,
        "/",
        &vec![],
    );
    match &steps[0] {
        Step::Skip { why, .. } => assert!(why.contains("package manager"), "{why}"),
        other => panic!("expected Skip, got {other:?}"),
    }
}

#[test]
fn paths_outside_the_snapshotted_tree_are_refused_not_deleted() {
    // Without this guard, a file the snapshots never covered resolves to a
    // non-existent pre-image and would be "restored" by deleting it.
    let steps = plan_with(
        vec![ev("/etc/passwd", "2026-01-02T00-00-00")],
        &["2026-01-01T00-00-00"],
        &[],
    );
    match &steps[0] {
        Step::Skip { why, .. } => assert!(why.contains("outside"), "{why}"),
        other => panic!("expected Skip, got {other:?}"),
    }
}

#[test]
fn a_change_with_no_snapshot_before_it_is_refused() {
    let steps = plan_with(
        vec![ev("/lab/live/a.conf", "2026-01-01T00-00-00")],
        &["2026-06-01T00-00-00"],
        &[],
    );
    match &steps[0] {
        Step::Skip { why, .. } => assert!(why.contains("no snapshot"), "{why}"),
        other => panic!("expected Skip, got {other:?}"),
    }
}

#[test]
fn a_snapshot_of_the_same_second_counts_as_before() {
    let names = strings(&["2026-01-03T00-00-00", "2026-01-01T00-00-00", "2026-01-02T00-00-00"]);
    assert_eq!(
        snapshot_before(&names, "2026-01-02T00-00-00").map(|s| s.as_str()),
        Some("2026-01-02T00-00-00")
    );
    assert_eq!(
        snapshot_before(&names, "2026-01-02T23-59-59").map(|s| s.as_str()),
        Some("2026-01-02T00-00-00")
    );
    assert_eq!(snapshot_before(&names, "2025-12-31T23-59-59"), None);
}

#[test]
fn the_plan_asks_only_for_the_files_it_lists() {
    let events = vec![
        ev("/lab/live/a", "2026-01-02T00-00-00"),
        ev("/etc/passwd", "2026-01-02T00-00-00"),
        ev("/lab/live/b", "2026-01-02T00-00-01"),
        ev("/lab/live/a", "2026-01-03T00-00-00"),
    ];
    let names = strings(&["2026-01-01T00-00-00"]);
    assert_eq!(
        probes(&events, &names, SNAP, LIVE),
        strings(&["/lab/snap/2026-01-01T00-00-00/a", "/lab/snap/2026-01-01T00-00-00/b"])
    );
}

#[test]
fn a_whole_plan_step_by_step() {
    let steps = plan_with(
        vec![
            ev("/lab/live/new", "2026-01-02T00-00-00"),
            ev("/lab/live/dir/deep/new", "2026-01-02T00-00-00"),
            ev("/etc/hosts", "2026-01-02T00-00-00"),
            ev("/lab/live/old", "2026-01-02T00-00-00"),
            ev("/lab/live/dir/deep", "2026-01-02T00-00-00"),
        ],
        &["2026-01-01T00-00-00"],
        &["/lab/snap/2026-01-01T00-00-00/old"],
    );
    let shown: Vec<(u8, &str)> = steps
        .iter()
        .map(|s| {
            (
                match s {
                    Step::Restore { .. } => 0,
                    Step::Remove { .. } => 1,
                    Step::Skip { .. } => 2,
                },
                s.path(),
            )
        })
        .collect();
    assert_eq!(
        shown,
        vec![
            (0, "/lab/live/old"),
            (1, "/lab/live/dir/deep/new"),
            (1, "/lab/live/dir/deep"),
            (1, "/lab/live/new"),
            (2, "/etc/hosts"),
        ]
    );
    assert_eq!(
        steps[0],
        Step::Restore {
            path: "/lab/live/old".into(),
            from: "/lab/snap/2026-01-01T00-00-00/old".into(),
        }
    );
}

#[test]
fn refusals_look_at_the_beginning_of_a_path() {
    assert!(refused("/var/lib/dpkg/status").is_some());
    assert!(refused("/home/u/notes").is_none());
    assert!(refused("/proc/1/status").is_some());
}
