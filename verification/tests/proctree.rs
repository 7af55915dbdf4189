use whenfs::proctree::{ProcInfo, ProcNode, ProcTree, MAX_CHAIN};

fn info(comm: &str) -> ProcInfo {
    ProcInfo {
        exe: format!("/bin/{comm}"),
        comm: comm.into(),
        cmdline: comm.into(),
        uid: 1000,
    }
}

fn names(chain: &[(i32, ProcNode)]) -> Vec<String> {
    chain.iter().map(|(_, n)| n.info.comm.clone()).collect()
}

#[test]
fn exec_preserves_the_fork_edge() {
    // Replacing the node on exec would orphan the ppid recorded at fork,
    // which is the whole basis of ancestry.
    let mut t = ProcTree::new();
    t.on_fork(1, 10, "2026-01-01T00-00-00");
    t.on_exec(10, info("sh"), None, "2026-01-01T00-00-01");

    let n = t.get(10).unwrap();
    assert_eq!(n.ppid, Some(1), "parent must survive exec");
    assert_eq!(n.start_ts, "2026-01-01T00-00-00", "birth time must survive");
    assert_eq!(n.info.comm, "sh");
    assert_eq!(t.len(), 1, "exec must not create a second entry");
}

#[test]
fn exec_without_a_prior_fork_still_registers() {
    // The daemon started mid-life; better an unknown parent than no row.
    let mut t = ProcTree::new();
    t.on_exec(10, info("vim"), Some(1), "2026-01-01T00-00-00");
    assert_eq!(t.get(10).unwrap().ppid, Some(1));
}

#[test]
fn exit_marks_rather_than_removes() {
    // A write may still be queued in fanotify when the connector reports
    // the exit.
    let mut t = ProcTree::new();
    t.on_fork(1, 10, "2026-01-01T00-00-00");
    t.on_exec(10, info("rm"), None, "2026-01-01T00-00-00");
    t.on_exit(10, "2026-01-01T00-00-01");

    assert!(t.get(10).is_some(), "entry must survive its own exit");
    assert_eq!(t.info(10).unwrap().comm, "rm", "identity must survive too");
}

#[test]
fn exit_reports_start_ts_only_when_already_persisted() {
    let mut t = ProcTree::new();
    t.on_fork(1, 10, "2026-01-01T00-00-00");
    assert_eq!(
        t.on_exit(10, "2026-01-01T00-00-05"),
        None,
        "nothing on disk to update yet"
    );

    t.on_fork(1, 11, "2026-01-01T00-00-00");
    t.mark_persisted(11);
    assert_eq!(
        t.on_exit(11, "2026-01-01T00-00-05").as_deref(),
        Some("2026-01-01T00-00-00"),
        "a persisted row needs its exit written through"
    );
}

#[test]
fn chain_is_root_first_so_parents_exist_before_children() {
    let mut t = ProcTree::new();
    t.on_fork(1, 10, "t0");
    t.on_exec(10, info("bash"), None, "t0");
    t.on_fork(10, 20, "t1");
    t.on_exec(20, info("curl"), None, "t1");
    t.on_fork(20, 30, "t2");
    t.on_exec(30, info("sh"), None, "t2");

    assert_eq!(names(&t.unpersisted_chain(30)), vec!["bash", "curl", "sh"]);
}

#[test]
fn chain_stops_at_the_first_persisted_ancestor() {
    // Without this every write walks to init.
    let mut t = ProcTree::new();
    t.on_fork(1, 10, "t0");
    t.on_exec(10, info("bash"), None, "t0");
    t.on_fork(10, 20, "t1");
    t.on_exec(20, info("curl"), None, "t1");
    t.on_fork(20, 30, "t2");
    t.on_exec(30, info("sh"), None, "t2");

    t.mark_persisted(10);
    assert_eq!(
        names(&t.unpersisted_chain(30)),
        vec!["curl", "sh"],
        "bash is already stored; climbing past it is wasted work"
    );
}

#[test]
fn chain_of_an_already_persisted_process_is_empty() {
    let mut t = ProcTree::new();
    t.on_fork(1, 10, "t0");
    t.mark_persisted(10);
    assert!(t.unpersisted_chain(10).is_empty());
}

#[test]
fn chain_terminates_on_a_self_parent() {
    let mut t = ProcTree::new();
    t.on_fork(5, 5, "t0"); // pathological, but must not hang
    assert_eq!(t.unpersisted_chain(5).len(), 1);
}

#[test]
fn chain_terminates_on_a_cycle() {
    let mut t = ProcTree::new();
    t.on_fork(20, 10, "t0");
    t.on_fork(10, 20, "t0"); // 10 -> 20 -> 10 -> ...
    assert!(t.unpersisted_chain(10).len() <= MAX_CHAIN);
}

#[test]
fn eviction_removes_only_processes_that_exited_before_the_cutoff() {
    let mut t = ProcTree::new();
    t.on_fork(1, 10, "t0"); // still running
    t.on_fork(1, 20, "t0");
    t.on_exit(20, "2026-01-01T00-00-00"); // long gone
    t.on_fork(1, 30, "t0");
    t.on_exit(30, "2026-01-01T00-09-99"); // just now

    let removed = t.evict_stale("2026-01-01T00-05-00");
    assert_eq!(removed, 1);
    assert!(t.get(10).is_some(), "a live process must never be evicted");
    assert!(t.get(20).is_none(), "long-exited should go");
    assert!(
        t.get(30).is_some(),
        "recently exited must stay — its write may still be queued"
    );
}

#[test]
fn a_cycle_is_cut_off_at_the_bound() {
    let mut t = ProcTree::new();
    t.on_fork(20, 10, "t0");
    t.on_fork(10, 20, "t0");
    assert_eq!(t.unpersisted_chain(10).len(), 64);
}

#[test]
fn a_stored_chain_is_not_stored_again() {
    let mut t = ProcTree::new();
    assert!(t.is_empty());
    t.seed(1, None, info("init"), "t0");
    t.on_fork(1, 10, "t1");
    t.on_fork(10, 20, "t2");
    let chain = t.unpersisted_chain(20);
    assert_eq!(chain.iter().map(|c| c.0).collect::<Vec<_>>(), vec![1, 10, 20]);
    for (pid, _) in &chain {
        t.mark_persisted(*pid);
    }
    assert!(t.unpersisted_chain(20).is_empty());
    t.on_fork(20, 30, "t3");
    assert_eq!(t.unpersisted_chain(30).len(), 1);
    assert_eq!(t.start_ts(30).as_deref(), Some("t3"));
    assert_eq!(t.start_ts(31), None);
    assert!(!t.is_empty());
}
