use whenfs::audit::parse_line;
use whenfs::calendar::now_ts;
use whenfs::daemon::{
    note_exec, note_exit, note_fork, observation_line, record_observation, Execs,
};
use whenfs::fanotify::{observe_entry, Observation, FAN_CREATE};
use whenfs::graph::{Event, Graph, Identity, Process};
use whenfs::proctree::{ProcInfo, ProcTree, MAX_CHAIN};

fn info(comm: &str) -> ProcInfo {
    ProcInfo {
        exe: format!("/bin/{comm}"),
        comm: comm.into(),
        cmdline: comm.into(),
        uid: 1,
    }
}

fn write_by(pid: i32) -> Observation {
    Observation {
        path: "/f".into(),
        op: "modify".into(),
        pid,
    }
}

/// A shell that started a compiler that started a linker, all of which wrote
/// and went.
fn build() -> Graph {
    let mut g = Graph::new();
    g.record_fork_at(1, 10, "t0");
    g.record_exec_at(10, "/bin/sh", "sh", "make", 5, "t0");
    g.record_fork_at(10, 20, "t1");
    g.record_exec_at(20, "/bin/cc", "cc", "cc x.c", 5, "t1");
    g.record_fork_at(20, 30, "t2");
    g.record_exec_at(30, "/bin/ld", "ld", "ld x.o", 5, "t2");
    g.record_event_at("/x", "create", 30, "t3");
    g.record_event_at("/x.o", "create", 20, "t3");
    g.record_event_at("/x", "modify", 10, "t4");
    for pid in [30, 20, 10] {
        g.record_exit_of(pid, "t4");
    }
    g
}

fn stored_with_parents(t: &ProcTree, pids: &[i32]) -> bool {
    pids.iter().all(|p| match t.get(*p) {
        Some(n) if n.persisted => match n.ppid.and_then(|q| t.get(q)) {
            Some(parent) => parent.persisted,
            None => true,
        },
        _ => true,
    })
}

fn marks_are_true(t: &ProcTree, g: &Graph, pids: &[i32]) -> bool {
    pids.iter().all(|p| match t.get(*p) {
        Some(n) if n.persisted => g
            .processes
            .iter()
            .any(|row| row.pid == *p && row.start_ts == n.start_ts),
        _ => true,
    })
}

#[test]
fn tree_and_graph_stay_in_step() {
    let pids = [1, 10, 20, 30, 40];
    let mut t = ProcTree::new();
    let mut x = Execs::new();
    let mut g = Graph::new();
    t.seed(1, None, info("init"), "t0");
    note_fork(&mut t, &mut x, 1, 10, "t1");
    note_exec(&mut t, &mut x, &mut g, 10, info("sh"), None, "t1");
    note_fork(&mut t, &mut x, 10, 20, "t2");
    note_fork(&mut t, &mut x, 20, 30, "t2");
    for pid in [20, 30, 77] {
        record_observation(&mut t, &mut g, &write_by(pid), "t3");
        assert!(stored_with_parents(&t, &pids));
        assert!(marks_are_true(&t, &g, &pids));
    }
    assert!([1, 10, 20, 30].iter().all(|p| t.get(*p).unwrap().persisted));
    note_exec(&mut t, &mut x, &mut g, 30, info("cp"), None, "t4");
    note_fork(&mut t, &mut x, 30, 40, "t4");
    note_exit(&mut t, &mut g, 30, "t5");
    note_exit(&mut t, &mut g, 20, "t6");
    assert!(stored_with_parents(&t, &pids));
    assert!(marks_are_true(&t, &g, &pids));
    assert_eq!(t.evict_stale("t6"), 1);
    assert!(t.get(30).is_none() && t.get(20).is_some());
    assert!(stored_with_parents(&t, &pids));
    assert!(marks_are_true(&t, &g, &pids));
}

#[test]
fn a_chain_of_exactly_the_bound_is_whole() {
    let last = MAX_CHAIN as i32;
    let pids: Vec<i32> = (1..=last).collect();
    let mut t = ProcTree::new();
    let mut x = Execs::new();
    let mut g = Graph::new();
    t.seed(1, None, info("init"), "t0");
    for pid in 2..=last {
        note_fork(&mut t, &mut x, pid - 1, pid, "t0");
    }
    record_observation(&mut t, &mut g, &write_by(last), "t1");
    assert_eq!(g.counts(), (MAX_CHAIN, 1));
    assert!(stored_with_parents(&t, &pids));
}

#[test]
fn what_is_observed_reads_back_from_the_log() {
    let o = observe_entry("/a \"b\"", "c\n\\d", FAN_CREATE, -3, 1).unwrap();
    let ts = now_ts();
    let line = observation_line(&o, &info("x\ty\r\u{1}"), &ts);
    let e = parse_line(line.strip_suffix('\n').unwrap()).unwrap();
    assert_eq!((e.ts, e.path, e.op), (ts, "/a \"b\"/c\n\\d".into(), "create".into()));
    assert_eq!((e.pid.as_str(), e.comm.as_str()), ("-3", "x\ty\r\u{1}"));
}

#[test]
fn every_process_descends_from_its_ancestors() {
    let g = build();
    for (pid, start) in [(10, "t0"), (20, "t1"), (30, "t2")] {
        let up = g.ancestry(pid, start);
        assert_eq!((up[0].pid, up[0].start_ts.as_str()), (pid, start));
        for a in up {
            let down = g.descendants(a.pid, &a.start_ts);
            assert_eq!(down[0].pid, a.pid);
            assert!(down.iter().any(|p| p.pid == pid && p.start_ts == start));
        }
    }
}

#[test]
fn exec_keeps_parent_and_birth_and_a_dead_image_stays() {
    let mut g = build();
    g.record_fork_at(1, 10, "t9");
    g.record_exec_at(10, "/bin/new", "new", "new", 0, "t9");
    assert_eq!(g.processes[0].comm, "sh");
    assert_eq!(g.processes[3].comm, "new");
    assert_eq!(g.processes[3].ppid, Some(1));
    assert_eq!(g.counts().0, 4);
}

#[test]
fn a_prune_changes_no_retained_answer() {
    let mut g = build();
    g.events.push(Event {
        ts: "t4".into(),
        path: "/x".into(),
        op: "attrib".into(),
        pid: 30,
        proc_start: None,
    });
    let before: Vec<String> = g.log_file("/x").iter().map(|e| format!("{e:?}")).collect();
    assert_eq!(before.len(), 3);
    assert_eq!(g.prune_preview("t4"), (0, 2));
    assert_eq!(g.prune("t4"), (0, 2));
    let after: Vec<String> = g.log_file("/x").iter().map(|e| format!("{e:?}")).collect();
    assert_eq!(after, before[1..]);
    // With no event retained, the processes that have exited go too.
    assert_eq!(g.prune("t5"), (3, 2));
    assert_eq!(g.counts(), (0, 0));
}

#[test]
fn recording_looks_at_the_rows_of_the_pid_alone() {
    let part_of = |g: &Graph, pid: i32| Graph {
        processes: g
            .processes
            .iter()
            .filter(|p| p.pid == pid)
            .map(|p| Process {
                start_ts: p.start_ts.clone(),
                exe: p.exe.clone(),
                comm: p.comm.clone(),
                cmdline: p.cmdline.clone(),
                exit_ts: p.exit_ts.clone(),
                ..*p
            })
            .collect(),
        events: Vec::new(),
    };
    let act = |g: &mut Graph| {
        g.record_event_at("/y", "modify", 20, "t5");
        g.record_exec_at(20, "/bin/z", "z", "z", 3, "t6");
        let id = Identity {
            exe: "e",
            comm: "c",
            cmdline: "l",
            uid: 7,
        };
        g.record_existing(20, Some(4), id, "t7");
        g.record_exit_at(20, "t7", "t8");
    };
    let mut whole = build();
    let mut part = part_of(&whole, 20);
    act(&mut whole);
    act(&mut part);
    assert_eq!(
        format!("{:?}", part_of(&whole, 20).processes),
        format!("{:?}", part.processes)
    );
    assert_eq!(
        format!("{:?}", whole.events.last()),
        format!("{:?}", part.events.last())
    );
}
