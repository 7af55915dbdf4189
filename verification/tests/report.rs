use whenfs::args::{command_of, find_db, parse_args, Command};
use whenfs::graph::{FileEvent, Graph};
use whenfs::report::{
    blame_report, event_line, find_undo, judge, log_report, manifest_report, never_recorded,
    plan_report, result_line, stat_report, summarise, traced_line, tree_report, who, Attempt,
    Outcome, Said, Undo,
};
use whenfs::revert::Step;

fn graph() -> Graph {
    let mut g = Graph::new();
    g.record_fork_at(1, 10, "t0");
    g.record_exec_at(10, "/bin/bash", "bash", "bash run.sh", 1000, "t0");
    g.record_fork_at(10, 20, "t1");
    g.record_exec_at(20, "/usr/bin/curl", "curl", "", 1000, "t1");
    g.record_fork_at(20, 30, "t2");
    g.record_exec_at(30, "/bin/sh", "sh", "sh -s", 1000, "t2");
    g.record_event_at("/etc/thing", "create", 30, "t3");
    g.record_event_at("/etc/thing", "modify", 30, "t3");
    g.record_event_at("/etc/thing", "create", 30, "t3");
    g.record_event_at("/etc/other", "create", 20, "t4");
    g
}

fn strings(list: &[&str]) -> Vec<String> {
    list.iter().map(|s| s.to_string()).collect()
}

fn event(comm: &str, exe: &str, start: Option<&str>) -> FileEvent {
    FileEvent {
        ts: "t1".into(),
        path: "/f".into(),
        op: "create".into(),
        pid: 7,
        comm: comm.into(),
        exe: exe.into(),
        cmdline: String::new(),
        proc_start: start.map(|s| s.to_string()),
        other_path: None,
    }
}

#[test]
fn writers_without_a_name_are_told_apart() {
    assert_eq!(who(&event("sh", "/bin/sh", None)), "sh");
    assert_eq!(who(&event("", "/bin/sh", None)), "/bin/sh");
    assert_eq!(who(&event("", "", Some("t0"))), "\x1b[33m<unnamed>\x1b[0m");
    assert_eq!(who(&event("", "", None)), "\x1b[33m<unattributed>\x1b[0m");
}

#[test]
fn the_line_of_an_event() {
    assert_eq!(
        event_line(&event("sh", "", None)),
        "  \x1b[36mt1\x1b[0m  create       sh  \x1b[2mpid 7\x1b[0m"
    );
    let mut e = event("sh", "", None);
    e.cmdline = "sh -c x".into();
    assert_eq!(
        event_line(&e),
        "  \x1b[36mt1\x1b[0m  create       sh  \x1b[2mpid 7\x1b[0m  \x1b[2msh -c x\x1b[0m"
    );
}

#[test]
fn the_history_of_a_file() {
    let lines = log_report(&graph(), "/etc/other");
    assert_eq!(
        lines,
        vec![
            "\x1b[1m/etc/other\x1b[0m",
            "  \x1b[36mt4\x1b[0m  create       curl  \x1b[2mpid 20\x1b[0m",
        ]
    );
    assert_eq!(
        log_report(&graph(), "/no"),
        vec!["no recorded history for /no"]
    );
}

#[test]
fn blame_explains_why_the_writer_existed() {
    let lines = blame_report(&graph(), "/etc/thing");
    assert_eq!(lines.len(), 4);
    assert_eq!(lines[0], "\x1b[1m/etc/thing\x1b[0m");
    assert_eq!(lines[2], "  \x1b[2mbecause:\x1b[0m    sh ← curl ← bash");
    // The nearest ancestor with a command line, not the nearest ancestor.
    assert_eq!(lines[3], "  \x1b[2mstarted by:\x1b[0m bash run.sh");
    assert_eq!(blame_report(&graph(), "/no"), vec!["no recorded history for /no"]);

    let mut g = Graph::new();
    g.record_event_at("/f", "create", 5, "t1");
    assert_eq!(
        blame_report(&g, "/f")[2],
        "  \x1b[2m(writer was never identified — no ancestry)\x1b[0m"
    );
    let mut g = Graph::new();
    g.record_fork_at(1, 5, "t0");
    g.record_fork_at(5, 6, "t1");
    g.record_event_at("/f", "create", 6, "t1");
    let lines = blame_report(&g, "/f");
    assert_eq!(lines.len(), 3);
    assert_eq!(lines[2], "  \x1b[2mbecause:\x1b[0m    pid 6 ← pid 5");
}

#[test]
fn the_tree_of_a_process() {
    match tree_report(&graph(), "20") {
        Said::Out(lines) => assert_eq!(
            lines,
            vec![
                "\x1b[1mprocess tree from pid 20\x1b[0m",
                "  \x1b[36m20\x1b[0m  curl  \x1b[2m\x1b[0m",
                "  \x1b[36m30\x1b[0m  sh  \x1b[2msh -s\x1b[0m",
            ]
        ),
        other => panic!("{other:?}"),
    }
    match tree_report(&graph(), "77") {
        Said::Out(lines) => assert_eq!(lines, vec!["no live process recorded with pid 77"]),
        other => panic!("{other:?}"),
    }
    match tree_report(&graph(), "x") {
        Said::Complaint(text) => assert_eq!(text, "not a pid: x"),
        other => panic!("{other:?}"),
    }
    // A process that has finished is no error.
    let mut g = graph();
    g.record_exit_of(20, "t5");
    assert!(matches!(tree_report(&g, "20"), Said::Out(l) if l.len() == 3));
}

#[test]
fn a_manifest_has_one_line_per_path() {
    let lines = manifest_report(&graph(), 10, "t0");
    assert_eq!(
        lines,
        vec![
            "  \x1b[1m2\x1b[0m paths touched by \x1b[1m3\x1b[0m processes\n",
            "  \x1b[36mcreate+modify         \x1b[0m /etc/thing  \x1b[2msh\x1b[0m",
            "  \x1b[36mcreate                \x1b[0m /etc/other  \x1b[2mcurl\x1b[0m",
            "\n  \x1b[2mundo:  chronicle revert 10 --snap <dir> --live <dir>\x1b[0m",
        ]
    );
    let mut g = Graph::new();
    g.record_fork_at(1, 10, "t0");
    assert_eq!(
        manifest_report(&g, 10, "t0"),
        vec!["  \x1b[2mno recorded writes\x1b[0m  \x1b[2m(1 processes)\x1b[0m"]
    );
    assert_eq!(summarise(&graph().events_by_tree(10, "t0")).len(), 2);
}

#[test]
fn a_traced_command_is_announced() {
    assert_eq!(
        traced_line(&strings(&["sh", "install.sh"]), "0", "0.3", 4821),
        "\n\x1b[1mtraced\x1b[0m sh install.sh  \x1b[2mexit 0, 0.3s, pid 4821\x1b[0m"
    );
    assert_eq!(
        never_recorded(),
        "  \x1b[33mthe daemon never recorded this process\x1b[0m\n  \
         Is whodidd running, and watching the filesystem this ran on?"
    );
}

#[test]
fn what_there_is_to_undo() {
    match find_undo(&graph(), "20") {
        Undo::Go { pid, events } => {
            assert_eq!(pid, 20);
            assert_eq!(events.len(), 4);
        }
        other => panic!("{other:?}"),
    }
    match find_undo(&graph(), "55") {
        Undo::Stop(Said::Complaint(t)) => assert_eq!(t, "no process recorded with pid 55"),
        other => panic!("{other:?}"),
    }
    match find_undo(&graph(), "5x") {
        Undo::Stop(Said::Complaint(t)) => assert_eq!(t, "not a pid: 5x"),
        other => panic!("{other:?}"),
    }
    let mut g = Graph::new();
    g.record_fork_at(1, 5, "t0");
    match find_undo(&g, "5") {
        Undo::Stop(Said::Out(l)) => {
            assert_eq!(l, vec!["nothing recorded for pid 5 — nothing to undo"])
        }
        other => panic!("{other:?}"),
    }
}

#[test]
fn a_plan_is_shown_step_by_step() {
    let steps = vec![
        Step::Restore {
            path: "/home/app/config.toml".into(),
            from: "/snap/2026-08-20T09-14-00/app/config.toml".into(),
        },
        Step::Remove {
            path: "/home/app/new-binary".into(),
        },
        Step::Skip {
            path: "/etc/hosts".into(),
            why: "outside the snapshotted tree".into(),
        },
    ];
    assert_eq!(
        plan_report(&steps, "/snap", 4821, false),
        vec![
            "\n\x1b[1mdry run —\x1b[0m undo plan for pid 4821\n",
            "  \x1b[36mrestore\x1b[0m  /home/app/config.toml  \x1b[2mfrom 2026-08-20T09-14-00\x1b[0m",
            "  \x1b[33mremove \x1b[0m  /home/app/new-binary  \x1b[2m(created by this command)\x1b[0m",
            "  \x1b[2mskip    /etc/hosts  — outside the snapshotted tree\x1b[0m",
            "\n  1 to restore, 1 to remove, 1 skipped",
            "  \x1b[2mdry run: nothing was changed. Re-run with --apply.\x1b[0m",
        ]
    );
    let applied = plan_report(&steps, "/elsewhere", 4821, true);
    assert_eq!(applied.len(), 5);
    assert_eq!(applied[0], "\n\x1b[1mapplying\x1b[0m undo plan for pid 4821\n");
    assert_eq!(
        applied[1],
        "  \x1b[36mrestore\x1b[0m  /home/app/config.toml  \x1b[2mfrom \x1b[0m"
    );
}

#[test]
fn what_is_gone_is_removed_and_what_is_in_use_is_kept() {
    let remove = Step::Remove { path: "/d".into() };
    let restore = Step::Restore {
        path: "/d".into(),
        from: "/s".into(),
    };
    assert_eq!(judge(&remove, Attempt::Done), Outcome::Applied);
    assert_eq!(judge(&remove, Attempt::NotFound), Outcome::Applied);
    assert_eq!(judge(&remove, Attempt::NotEmpty), Outcome::Kept);
    assert_eq!(judge(&remove, Attempt::Failed), Outcome::Failed);
    assert_eq!(judge(&restore, Attempt::Done), Outcome::Applied);
    assert_eq!(judge(&restore, Attempt::NotFound), Outcome::Failed);
    assert_eq!(judge(&restore, Attempt::NotEmpty), Outcome::Failed);
    assert_eq!(
        result_line(&vec![Outcome::Applied, Outcome::Failed, Outcome::Applied]),
        "  2 applied, 1 failed"
    );
    assert_eq!(
        result_line(&vec![Outcome::Kept, Outcome::Applied]),
        "  1 applied, 1 kept, 0 failed"
    );
}

#[test]
fn the_size_of_the_graph() {
    assert_eq!(
        stat_report(&graph(), "graph.db"),
        vec!["\x1b[1mgraph\x1b[0m   graph.db", "  processes  3", "  events     4"]
    );
}

#[test]
fn options_are_taken_from_anywhere_before_a_trace() {
    let a = parse_args(&strings(&[
        "chronicle", "--db", "g", "revert", "--snap", "s", "7", "--apply", "--live", "l",
    ]));
    assert_eq!(a.db.as_deref(), Some("g"));
    assert_eq!(a.snap.as_deref(), Some("s"));
    assert_eq!(a.live.as_deref(), Some("l"));
    assert!(a.apply);
    assert_eq!(a.rest, strings(&["revert", "7"]));
    let t = parse_args(&strings(&["chronicle", "trace", "--", "rm", "--db", "x", "--apply"]));
    assert_eq!(t.db, None);
    assert!(!t.apply);
    assert_eq!(t.rest, strings(&["trace", "--", "rm", "--db", "x", "--apply"]));
    // An option at the very end is an argument like any other.
    assert_eq!(parse_args(&strings(&["chronicle", "--db"])).rest, strings(&["--db"]));
    assert!(parse_args(&vec![]).rest.is_empty());
}

#[test]
fn commands_by_their_words() {
    let c = |l: &[&str]| command_of(&strings(l));
    assert!(matches!(c(&["log", "/f"]), Command::Log(p) if p == "/f"));
    assert!(matches!(c(&["blame", "/f"]), Command::Blame(p) if p == "/f"));
    assert!(matches!(c(&["tree", "5"]), Command::Tree(p) if p == "5"));
    assert!(matches!(c(&["revert", "5"]), Command::Revert(p) if p == "5"));
    assert!(matches!(c(&["stat"]), Command::Stat));
    assert!(matches!(c(&["trace", "ls", "-l"]), Command::Trace(v) if v == strings(&["ls", "-l"])));
    assert!(matches!(c(&["trace", "--", "ls"]), Command::Trace(v) if v == strings(&["ls"])));
    assert!(matches!(c(&["trace", "--"]), Command::Trace(v) if v.is_empty()));
    for l in [&["trace"][..], &["log"], &["log", "a", "b"], &["stat", "x"], &["what"], &[]] {
        assert!(matches!(c(l), Command::Usage));
    }
}

#[test]
fn the_database_is_looked_for_in_order() {
    let s = |t: &str| Some(t.to_string());
    assert_eq!(find_db(s("a"), s("b"), true, true), s("a"));
    assert_eq!(find_db(None, s("b"), true, true), s("b"));
    assert_eq!(find_db(None, None, true, true), s("graph.db"));
    assert_eq!(find_db(None, None, false, true), s("/var/lib/whenfs/graph.db"));
    assert_eq!(find_db(None, None, false, false), None);
}
