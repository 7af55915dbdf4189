use whenfs::daemon::{
    cached_identity, cmdline_text, housekeep, housekeep_at, note_exec, note_exit, note_fork,
    observation_line, parent_of_status, pids_to_load, record_observation, trim_breaks, Execs,
    EVICT_EVERY,
};
use whenfs::calendar::{CivilDate, CivilTime, LocalTime, Moment};
use whenfs::fanotify::Observation;
use whenfs::graph::Graph;
use whenfs::proctree::{ProcInfo, ProcTree};

fn info(comm: &str) -> ProcInfo {
    ProcInfo {
        exe: format!("/bin/{comm}"),
        comm: comm.into(),
        cmdline: format!("{comm} -x"),
        uid: 5,
    }
}

fn write(path: &str, pid: i32) -> Observation {
    Observation {
        path: path.into(),
        op: "modify".into(),
        pid,
    }
}

#[test]
fn command_lines_are_joined_with_spaces() {
    assert_eq!(cmdline_text(&b"sh\0-c\0echo hi\0".to_vec()), "sh -c echo hi");
    assert_eq!(cmdline_text(&b"one".to_vec()), "one");
    assert_eq!(cmdline_text(&b"\0\0a\0\0b\0".to_vec()), "a b");
    assert_eq!(cmdline_text(&b"\xff\0\xc3\xa9".to_vec()), "\u{fffd} é");
    assert_eq!(cmdline_text(&vec![]), "");
}

#[test]
fn line_breaks_at_the_end_go() {
    assert_eq!(trim_breaks("bash\n"), "bash");
    assert_eq!(trim_breaks("a\nb\n\n"), "a\nb");
    assert_eq!(trim_breaks("\n"), "");
    assert_eq!(trim_breaks(" x "), " x ");
}

#[test]
fn a_status_names_the_parent() {
    let text = "Name:\tsh\nPid:\t10\nPPid:\t42\nTracerPid:\t0\n";
    assert_eq!(parent_of_status(text), Some(42));
    assert_eq!(parent_of_status("Name:\tx\n"), None);
    assert_eq!(parent_of_status("PPid:\tx\nPPid: 7\n"), Some(7));
    assert_eq!(parent_of_status(""), None);
}

#[test]
fn only_an_exec_makes_an_identity() {
    let mut t = ProcTree::new();
    let mut x = Execs::new();
    assert!(cached_identity(&t, &x, 10).is_none());
    note_fork(&mut t, &mut x, 1, 10, "t0");
    assert!(cached_identity(&t, &x, 10).is_none());
    let mut g = Graph::new();
    note_exec(&mut t, &mut x, &mut g, 10, info("sh"), None, "t1");
    assert_eq!(cached_identity(&t, &x, 10).unwrap().comm, "sh");
    note_exit(&mut t, &mut g, 10, "t2");
    // Known even after the process has gone.
    assert_eq!(cached_identity(&t, &x, 10).unwrap().comm, "sh");
    assert_eq!(g.counts(), (0, 0));
    // Whatever the exec showed is what is known, even nothing.
    let nothing = ProcInfo::default();
    note_exec(&mut t, &mut x, &mut g, 11, nothing.clone(), None, "t3");
    assert_eq!(cached_identity(&t, &x, 11), Some(nothing));
    // The pid begins another life.
    note_fork(&mut t, &mut x, 1, 10, "t4");
    assert!(cached_identity(&t, &x, 10).is_none());
    // A process that ran already was not seen to exec.
    t.seed(12, None, info("old"), "t0");
    assert!(cached_identity(&t, &x, 12).is_none());
}

#[test]
fn a_write_stores_the_chain_that_explains_it() {
    let mut t = ProcTree::new();
    let mut x = Execs::new();
    let mut g = Graph::new();
    t.seed(1, None, info("init"), "t0");
    note_fork(&mut t, &mut x, 1, 10, "t1");
    note_exec(&mut t, &mut x, &mut g, 10, info("sh"), None, "t1");
    note_fork(&mut t, &mut x, 10, 20, "t2");
    note_exec(&mut t, &mut x, &mut g, 20, info("cp"), None, "t2");
    note_exit(&mut t, &mut g, 20, "t3");
    note_fork(&mut t, &mut x, 1, 99, "t1");
    assert_eq!(pids_to_load(&t, 20), vec![1, 10, 20, 20]);

    record_observation(&mut t, &mut g, &write("/f", 20), "t3");
    let pids: Vec<i32> = g.processes.iter().map(|p| p.pid).collect();
    assert_eq!(pids, vec![1, 10, 20], "root first, nobody else");
    assert_eq!(g.processes[2].exit_ts.as_deref(), Some("t3"));
    assert_eq!(g.processes[2].ppid, Some(10));

    let last = g.blame("/f").unwrap();
    assert_eq!(last.comm, "cp");
    let chain: Vec<String> = g
        .ancestry(last.pid, last.proc_start.as_ref().unwrap())
        .into_iter()
        .map(|p| p.comm)
        .collect();
    assert_eq!(chain, vec!["cp", "sh", "init"]);

    // The next write adds an event and no row.
    assert_eq!(pids_to_load(&t, 20), vec![20]);
    record_observation(&mut t, &mut g, &write("/f", 20), "t3");
    assert_eq!(g.counts(), (3, 2));
}

#[test]
fn news_of_a_stored_process_goes_through_to_the_graph() {
    let mut t = ProcTree::new();
    let mut x = Execs::new();
    let mut g = Graph::new();
    note_fork(&mut t, &mut x, 1, 10, "t1");
    record_observation(&mut t, &mut g, &write("/f", 10), "t2");
    assert_eq!(g.processes[0].comm, "");
    note_exec(&mut t, &mut x, &mut g, 10, info("vi"), None, "t3");
    assert_eq!(g.processes[0].comm, "vi");
    assert_eq!(g.processes[0].start_ts, "t1");
    note_exit(&mut t, &mut g, 10, "t4");
    assert_eq!(g.processes[0].exit_ts.as_deref(), Some("t4"));
    assert_eq!(g.counts(), (1, 1));
}

#[test]
fn a_write_by_nobody_known_is_recorded() {
    let mut t = ProcTree::new();
    let mut g = Graph::new();
    record_observation(&mut t, &mut g, &write("/f", 77), "t1");
    assert_eq!(g.counts(), (0, 1));
    assert_eq!(g.log_file("/f")[0].proc_start, None);
}

#[test]
fn an_observation_becomes_a_log_line() {
    assert_eq!(
        observation_line(&write("/f", 7), &info("sh"), "t1"),
        "{\"ts\":\"t1\",\"path\":\"/f\",\"op\":\"modify\",\"pid\":7,\"comm\":\"sh\",\
         \"exe\":\"/bin/sh\",\"cmdline\":\"sh -x\",\"uid\":5}\n"
    );
}

#[test]
fn processes_are_forgotten_once_their_grace_is_over() {
    // 1970-01-02 00:00:10 in universal time.
    let now = LocalTime {
        moment: Moment {
            secs: 86410,
            nanos: 0,
        },
        civil: CivilTime {
            date: CivilDate {
                year: 1970,
                month: 1,
                day: 2,
            },
            hour: 0,
            minute: 0,
            second: 10,
            nanos: 0,
        },
    };
    let mut t = ProcTree::new();
    for (pid, exit) in [(1, "1970-01-01T23-59-39"), (2, "1970-01-01T23-59-40")] {
        t.on_fork(9, pid, "1970-01-01T00-00-00");
        t.on_exit(pid, exit);
    }
    assert_eq!(housekeep_at(&mut t, 0, &now), 1);
    assert_eq!(housekeep_at(&mut t, EVICT_EVERY - 2, &now), EVICT_EVERY - 1);
    assert_eq!(t.len(), 2);
    assert_eq!(housekeep_at(&mut t, EVICT_EVERY - 1, &now), 0);
    assert!(t.get(1).is_none() && t.get(2).is_some());
    assert_eq!(housekeep(&mut t, 3), 4);
    assert_eq!(housekeep(&mut t, u32::MAX), 0);
    assert!(t.is_empty());
}
