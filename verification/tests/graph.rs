use whenfs::graph::{Event, Graph, Identity, Process};

fn row(g: &Graph, pid: i32) -> &Process {
    g.processes.iter().find(|p| p.pid == pid).unwrap()
}

#[test]
fn fork_then_exec_keeps_one_row_and_preserves_parent() {
    let mut g = Graph::new();
    g.record_fork(100, 200);
    g.record_exec(200, "/bin/sh", "sh", "sh install.sh", 1000);

    // exec must update the forked row, not create a second one — otherwise
    // the ppid edge recorded at fork time is orphaned.
    let (procs, _) = g.counts();
    assert_eq!(procs, 1);

    let anc = row(&g, 200);
    assert_eq!(anc.ppid, Some(100));
    assert_eq!(anc.exe, "/bin/sh");
}

#[test]
fn exec_without_prior_fork_still_records_the_process() {
    // Daemon started after the process was already alive.
    let mut g = Graph::new();
    g.record_exec(300, "/bin/vim", "vim", "vim x", 1000);
    let (procs, _) = g.counts();
    assert_eq!(procs, 1);
}

#[test]
fn events_bind_to_the_live_incarnation_not_a_dead_one() {
    let mut g = Graph::new();
    // First life of pid 500, then it exits.
    g.record_fork_at(1, 500, "2026-01-01T00-00-00");
    g.record_exec_at(500, "/bin/old", "old", "old", 1000, "2026-01-01T00-00-00");
    g.record_exit_of(500, "2026-01-01T00-00-00");

    // pid recycled into a completely different process.
    g.record_fork_at(1, 500, "2026-01-01T00-00-01");
    g.record_exec_at(500, "/bin/new", "new", "new", 1000, "2026-01-01T00-00-01");

    g.record_event_at("/tmp/f", "modify", 500, "2026-01-01T00-00-01");

    let log = g.log_file("/tmp/f");
    assert_eq!(log.len(), 1);
    // Must resolve to the second incarnation.
    assert_eq!(log[0].comm, "new");
}

#[test]
fn short_lived_process_is_still_attributed_after_it_exits() {
    // fanotify and the connector are separate sockets, so the exit is
    // routinely recorded before the write event is processed.
    let mut g = Graph::new();
    g.record_fork(1, 700);
    g.record_exec(700, "/bin/cp", "cp", "cp a b", 1000);
    g.record_exit(700);

    // Write processed only after the process is already gone.
    g.record_event("/tmp/copied", "create", 700);

    let log = g.log_file("/tmp/copied");
    assert_eq!(log.len(), 1);
    assert_eq!(log[0].comm, "cp", "a dead writer must still be named");
    assert!(log[0].proc_start.is_some(), "must bind to an incarnation");
}

#[test]
fn bootstrapped_process_can_be_attributed_and_is_not_duplicated() {
    // A long-running process that predates the daemon must still be nameable.
    let mut g = Graph::new();
    // Must be genuinely in the past: resolution requires
    // start_ts <= event_ts, and the event is stamped with the real clock.
    let boot = "2000-01-01T00-00-00";
    let id = Identity {
        exe: "/usr/bin/nginx",
        comm: "nginx",
        cmdline: "nginx -g",
        uid: 0,
    };
    g.record_existing(400, Some(1), id, boot);
    g.record_event("/var/log/nginx/access.log", "modify", 400);

    let log = g.log_file("/var/log/nginx/access.log");
    assert_eq!(log.len(), 1);
    assert_eq!(log[0].comm, "nginx");

    // Re-seeding (daemon restart) must not create a second row for the same
    // incarnation.
    g.record_existing(400, Some(1), id, boot);
    let (procs, _) = g.counts();
    assert_eq!(procs, 1);
}

#[test]
fn write_processed_before_its_fork_message_is_still_attributed() {
    let mut g = Graph::new();

    // Event arrives FIRST -- no process row exists yet.
    g.record_event_at("/tmp/raced", "create", 800, "2026-01-01T00-00-00");
    assert!(
        g.log_file("/tmp/raced")[0].proc_start.is_none(),
        "precondition: eager binding found nothing"
    );

    // The connector catches up afterwards.
    g.record_fork_at(1, 800, "2026-01-01T00-00-00");
    g.record_exec_at(800, "/bin/cp", "cp", "cp a b", 1000, "2026-01-01T00-00-00");
    g.record_exit_of(800, "2026-01-01T00-00-00");

    let log = g.log_file("/tmp/raced");
    assert_eq!(log[0].comm, "cp", "query-time resolution must recover it");
    assert!(log[0].proc_start.is_some());
}

#[test]
fn ancestry_walks_through_ancestors_that_have_already_exited() {
    let mut g = Graph::new();
    g.record_fork(1, 10);
    g.record_exec(10, "/bin/bash", "bash", "bash run.sh", 1000);
    g.record_fork(10, 20);
    g.record_exec(20, "/bin/sh", "sh", "sh -c cp", 1000);
    g.record_fork(20, 30);
    g.record_exec(30, "/bin/cp", "cp", "cp a b", 1000);

    // Every ancestor exits before the query runs.
    g.record_exit(30);
    g.record_exit(20);
    g.record_exit(10);

    let start = g
        .live_start_ts(30)
        .unwrap_or_else(|| row(&g, 30).start_ts.clone());
    let chain: Vec<String> = g.ancestry(30, &start).into_iter().map(|p| p.comm).collect();
    assert_eq!(chain, vec!["cp", "sh", "bash"]);
}

#[test]
fn latest_start_ts_finds_exited_processes_but_live_start_ts_does_not() {
    let mut g = Graph::new();
    g.record_fork(1, 900);
    g.record_exec(900, "/bin/sh", "sh", "sh install.sh", 1000);
    assert!(g.live_start_ts(900).is_some());

    g.record_exit(900);
    assert!(
        g.live_start_ts(900).is_none(),
        "live lookup must not resurrect a dead process"
    );
    assert!(
        g.latest_start_ts(900).is_some(),
        "trace must still find the command it just ran"
    );
}

#[test]
fn prune_drops_old_history_but_keeps_what_retained_events_still_need() {
    let mut g = Graph::new();
    let old = "2020-01-01T00-00-00";
    let new = "2030-01-01T00-00-00";
    let cutoff = "2025-01-01T00-00-00";

    // Fully historical: exited long ago, only old events.
    g.record_existing(
        10,
        Some(1),
        Identity {
            exe: "/bin/old",
            comm: "old",
            cmdline: "old",
            uid: 0,
        },
        old,
    );
    g.processes[0].exit_ts = Some(old.to_string());
    g.events.push(Event {
        ts: old.into(),
        path: "/tmp/a".into(),
        op: "create".into(),
        pid: 10,
        proc_start: Some(old.into()),
    });
    // Long-exited, but a retained event still names its pid.
    g.processes.push(Process {
        pid: 20,
        start_ts: old.into(),
        ppid: Some(1),
        exe: "/bin/keep".into(),
        comm: "keep".into(),
        cmdline: "keep".into(),
        uid: 0,
        exit_ts: Some(old.into()),
    });
    g.events.push(Event {
        ts: new.into(),
        path: "/tmp/b".into(),
        op: "create".into(),
        pid: 20,
        proc_start: None,
    });

    let (p_prev, e_prev) = g.prune_preview(cutoff);
    assert_eq!(e_prev, 1, "one event predates the cutoff");
    assert_eq!(p_prev, 1, "only the process with no retained events");

    let (procs, events) = g.prune(cutoff);
    assert_eq!((procs, events), (1, 1));

    let kept = g.processes.iter().filter(|p| p.pid == 20).count();
    assert_eq!(
        kept, 1,
        "a process a retained event can still bind to must survive"
    );
    let gone = g.processes.iter().filter(|p| p.pid == 10).count();
    assert_eq!(gone, 0);
}

#[test]
fn unattributed_write_is_recorded_not_dropped() {
    let mut g = Graph::new();
    g.record_event("/tmp/ghost", "delete", 9999);
    let log = g.log_file("/tmp/ghost");
    assert_eq!(log.len(), 1);
    assert_eq!(log[0].pid, 9999);
    assert_eq!(log[0].comm, ""); // hole in the graph, honestly empty
}

#[test]
fn ancestry_walks_the_whole_chain() {
    let mut g = Graph::new();
    g.record_fork(1, 10);
    g.record_exec(10, "/bin/bash", "bash", "bash", 1000);
    g.record_fork(10, 20);
    g.record_exec(20, "/usr/bin/curl", "curl", "curl get.sh", 1000);
    g.record_fork(20, 30);
    g.record_exec(30, "/bin/sh", "sh", "sh", 1000);

    let start = row(&g, 30).start_ts.clone();
    let chain = g.ancestry(30, &start);
    let comms: Vec<String> = chain.into_iter().map(|p| p.comm).collect();
    assert_eq!(comms, vec!["sh", "curl", "bash"]);
}

#[test]
fn tree_collects_writes_from_every_descendant() {
    let mut g = Graph::new();
    g.record_fork(1, 10);
    g.record_exec(10, "/bin/sh", "sh", "install.sh", 1000);
    g.record_fork(10, 11);
    g.record_exec(11, "/bin/cp", "cp", "cp a b", 1000);
    g.record_fork(11, 12);
    g.record_exec(12, "/bin/ln", "ln", "ln -s", 1000);

    g.record_event("/usr/bin/thing", "create", 11);
    g.record_event("/etc/thing.conf", "create", 12);

    // An unrelated process writing at the same time must NOT be swept in.
    g.record_fork(1, 99);
    g.record_exec(99, "/usr/bin/firefox", "firefox", "firefox", 1000);
    g.record_event("/home/u/.cache/x", "modify", 99);

    let start = row(&g, 10).start_ts.clone();
    let manifest = g.events_by_tree(10, &start);
    let paths: Vec<String> = manifest.into_iter().map(|e| e.path).collect();
    assert_eq!(paths, vec!["/usr/bin/thing", "/etc/thing.conf"]);
}

#[test]
fn an_unbound_write_of_a_recycled_pid_stays_out_of_the_dead_tree() {
    let mut g = Graph::new();
    g.record_fork_at(1, 10, "t1");
    g.record_fork_at(10, 11, "t1");
    g.record_exit_of(11, "t2");
    // The pid is written by someone whose fork has not been read yet, and
    // nobody's lifetime contains the write.
    g.events.push(Event {
        ts: "t5".into(),
        path: "/tmp/other".into(),
        op: "create".into(),
        pid: 11,
        proc_start: None,
    });
    g.events.push(Event {
        ts: "t2".into(),
        path: "/tmp/own".into(),
        op: "create".into(),
        pid: 11,
        proc_start: None,
    });
    let paths: Vec<String> = g.events_by_tree(10, "t1").into_iter().map(|e| e.path).collect();
    assert_eq!(paths, vec!["/tmp/own"]);
    assert!(g.log_file("/tmp/other")[0].proc_start.is_none());
}

#[test]
fn a_recycled_pid_brings_no_children_into_a_dead_tree() {
    let mut g = Graph::new();
    g.record_fork_at(1, 10, "t1");
    g.record_fork_at(10, 11, "t2");
    g.record_event_at("/own", "create", 11, "t2");
    g.record_exit_of(11, "t3");
    g.record_exit_of(10, "t3");
    // The pid of the command now stands for an unrelated program.
    g.record_fork_at(1, 10, "t5");
    g.record_fork_at(10, 12, "t6");
    g.record_event_at("/other", "create", 12, "t6");
    let pids = |start: &str| -> Vec<i32> {
        g.descendants(10, start).iter().map(|p| p.pid).collect()
    };
    assert_eq!(pids("t1"), vec![10, 11]);
    assert_eq!(pids("t5"), vec![10, 12]);
    let paths: Vec<String> = g.events_by_tree(10, "t1").into_iter().map(|e| e.path).collect();
    assert_eq!(paths, vec!["/own"]);
}

#[test]
fn a_child_older_than_what_is_known_of_its_parent_is_kept() {
    let mut g = Graph::new();
    g.record_fork_at(10, 20, "t1");
    g.record_event_at("/early", "create", 20, "t1");
    g.record_exec_at(10, "/bin/sh", "sh", "sh", 0, "t2");
    let pids: Vec<i32> = g.descendants(10, "t2").iter().map(|p| p.pid).collect();
    assert_eq!(pids, vec![10, 20]);
    let paths: Vec<String> = g.events_by_tree(10, "t2").into_iter().map(|e| e.path).collect();
    assert_eq!(paths, vec!["/early"]);
    // Nothing explains it, though: the parent is not known to have lived then.
    assert_eq!(g.ancestry(20, "t1").len(), 1);
}

#[test]
fn a_process_that_is_its_own_parent_ends_at_the_bound() {
    let mut g = Graph::new();
    g.record_fork_at(7, 7, "t1");
    assert_eq!(g.ancestry(7, "t1").len(), 65);
    assert_eq!(g.descendants(7, "t1").len(), 257);
    assert!(g.ancestry(7, "t0").is_empty());
}

#[test]
fn a_history_is_sorted_by_time_then_by_recording() {
    let mut g = Graph::new();
    g.record_event_at("/f", "modify", 1, "t2");
    g.record_event_at("/f", "create", 1, "t1");
    g.record_event_at("/g", "create", 1, "t0");
    g.record_event_at("/f", "close_write", 1, "t2");
    let ops: Vec<String> = g.log_file("/f").into_iter().map(|e| e.op).collect();
    assert_eq!(ops, vec!["create", "modify", "close_write"]);
    assert_eq!(g.blame("/f").unwrap().op, "close_write");
    assert!(g.blame("/h").is_none());
}

#[test]
fn an_exit_of_one_incarnation_leaves_the_others_alone() {
    let mut g = Graph::new();
    g.record_fork_at(1, 5, "t1");
    g.record_fork_at(2, 5, "t3");
    g.record_exit_at(5, "t1", "t2");
    assert_eq!(g.processes[0].exit_ts.as_deref(), Some("t2"));
    assert_eq!(g.processes[1].exit_ts, None);
    assert_eq!(g.live_start_ts(5).as_deref(), Some("t3"));
    // A write between the two is bound to the first by its lifetime, one
    // just after the first's exit by its start.
    g.record_event_at("/f", "modify", 5, "t2");
    g.record_event_at("/f", "modify", 5, "t2x");
    g.record_event_at("/f", "modify", 5, "t4");
    let starts: Vec<Option<String>> = g.log_file("/f").into_iter().map(|e| e.proc_start).collect();
    assert_eq!(
        starts,
        vec![Some("t1".to_string()), Some("t1".to_string()), Some("t3".to_string())]
    );
}
