use whenfs::report::{Outcome, Said};
use whenfs::revert::Step;
use whenfs::trace::{exit_text, Action, News, Phase, Trace, PAUSE_MS, SETTLE_MS, TRIES};
use whenfs::undo::{act_on, closing_line, nothing_to_restore_from, say_outcome, Act, Found};

/// Runs a trace whose command is known from the question with this number on,
/// and tells how often it asked, how long it slept, and what it found.
fn run(known_from: u32) -> (u32, u64, Option<String>) {
    let mut t = Trace::new();
    let (mut asked, mut slept) = (0, 0);
    loop {
        match t.action() {
            Action::Ask => {
                asked += 1;
                let answer = if asked >= known_from {
                    Some("t1".to_string())
                } else {
                    None
                };
                t.hear(News::Answer(answer));
            }
            Action::Sleep(ms) => {
                slept += ms;
                t.hear(News::Slept);
            }
            Action::AwaitExit => t.hear(News::Exited),
            Action::Report => return (asked, slept, t.start),
        }
    }
}

#[test]
fn a_command_is_asked_for_until_it_is_known() {
    let found = Some("t1".to_string());
    assert_eq!((TRIES, PAUSE_MS, SETTLE_MS), (40, 25, 600));
    assert_eq!(run(1), (1, 600, found.clone()));
    assert_eq!(run(3), (3, 650, found.clone()));
    assert_eq!(run(40), (40, 39 * 25 + 600, found.clone()));
    assert_eq!(run(41), (41, 1600, found));
    assert_eq!(run(42), (41, 1600, None));
}

#[test]
fn news_that_nobody_waits_for_change_nothing() {
    let mut t = Trace::new();
    t.hear(News::Exited);
    t.hear(News::Slept);
    assert_eq!(t.phase, Phase::Looking { asked: 0 });
    assert_eq!(exit_text(Some(-1)), "-1");
    assert_eq!(exit_text(None), "signal");
}

#[test]
fn what_is_done_for_each_step() {
    let restore = Step::Restore {
        path: "/l/a".into(),
        from: "/s/a".into(),
    };
    let remove = Step::Remove { path: "/l/b".into() };
    let skip = Step::Skip {
        path: "/l/c".into(),
        why: "so".into(),
    };
    for step in [&restore, &remove, &skip] {
        assert!(matches!(act_on(step, false, Found::Other), Act::Leave));
    }
    assert!(matches!(act_on(&skip, true, Found::Other), Act::Leave));
    match act_on(&restore, true, Found::Directory) {
        Act::Copy { from, to } => assert_eq!((from.as_str(), to.as_str()), ("/s/a", "/l/a")),
        other => panic!("{other:?}"),
    }
    match act_on(&remove, true, Found::Directory) {
        Act::RemoveDirectory { path } => assert_eq!(path, "/l/b"),
        other => panic!("{other:?}"),
    }
    match act_on(&remove, true, Found::Other) {
        Act::RemoveFile { path } => assert_eq!(path, "/l/b"),
        other => panic!("{other:?}"),
    }
}

#[test]
fn what_is_said_of_an_undo() {
    let remove = Step::Remove { path: "/b".into() };
    assert!(say_outcome(&remove, Outcome::Applied, "").is_none());
    match say_outcome(&remove, Outcome::Kept, "") {
        Some(Said::Out(l)) => assert_eq!(l, vec!["  \x1b[2mkept    /b  — not empty\x1b[0m"]),
        other => panic!("{other:?}"),
    }
    match say_outcome(&remove, Outcome::Failed, "no") {
        Some(Said::Complaint(t)) => assert_eq!(t, "  \x1b[33mfailed\x1b[0m /b: no"),
        other => panic!("{other:?}"),
    }
    assert_eq!(
        nothing_to_restore_from(&vec![], "/s").as_deref(),
        Some("no snapshots under /s — nothing to restore from")
    );
    assert_eq!(nothing_to_restore_from(&vec!["x".into()], "/s"), None);
    let done = vec![Outcome::Applied];
    assert_eq!(closing_line(true, &done).as_deref(), Some("  1 applied, 0 failed"));
    assert_eq!(closing_line(false, &done), None);
}
