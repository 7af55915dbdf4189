//! The graph against the same statements in a relational database.
use rusqlite::Connection;
use whenfs::graph::{FileEvent, Graph, Identity, ProcRow};

fn open() -> Connection {
    let conn = Connection::open_in_memory().unwrap();
    conn.execute_batch(
        "CREATE TABLE processes (
            pid       INTEGER NOT NULL,
            start_ts  TEXT    NOT NULL,
            ppid      INTEGER,
            exe       TEXT NOT NULL DEFAULT '',
            comm      TEXT NOT NULL DEFAULT '',
            cmdline   TEXT NOT NULL DEFAULT '',
            uid       INTEGER NOT NULL DEFAULT -1,
            exit_ts   TEXT,
            PRIMARY KEY (pid, start_ts)
        );
        CREATE TABLE events (
            id         INTEGER PRIMARY KEY,
            ts         TEXT    NOT NULL,
            path       TEXT    NOT NULL,
            op         TEXT    NOT NULL,
            pid        INTEGER NOT NULL,
            proc_start TEXT
        );
        CREATE INDEX idx_proc_ppid ON processes(ppid);",
    )
    .unwrap();
    conn
}

fn fork(c: &Connection, parent: i32, child: i32, ts: &str) {
    c.execute(
        "INSERT OR IGNORE INTO processes (pid, start_ts, ppid) VALUES (?1, ?2, ?3)",
        (child, ts, parent),
    )
    .unwrap();
}

fn exec(c: &Connection, pid: i32, comm: &str, uid: u32, ts: &str) {
    let updated = c
        .execute(
            "UPDATE processes SET exe = ?1, comm = ?2, cmdline = ?3, uid = ?4
             WHERE pid = ?5 AND exit_ts IS NULL",
            (comm, comm, comm, uid as i64, pid),
        )
        .unwrap();
    if updated == 0 {
        c.execute(
            "INSERT OR IGNORE INTO processes (pid, start_ts, ppid, exe, comm, cmdline, uid)
             VALUES (?1, ?2, NULL, ?3, ?4, ?5, ?6)",
            (pid, ts, comm, comm, comm, uid as i64),
        )
        .unwrap();
    }
}

fn exit(c: &Connection, pid: i32, ts: &str) {
    c.execute(
        "UPDATE processes SET exit_ts = ?1 WHERE pid = ?2 AND exit_ts IS NULL",
        (ts, pid),
    )
    .unwrap();
}

fn exit_at(c: &Connection, pid: i32, start: &str, ts: &str) {
    c.execute(
        "UPDATE processes SET exit_ts = ?1 WHERE pid = ?2 AND start_ts = ?3",
        (ts, pid, start),
    )
    .unwrap();
}

fn event(c: &Connection, path: &str, op: &str, pid: i32, ts: &str) {
    let bound: Option<String> = c
        .query_row(
            "SELECT start_ts FROM processes
             WHERE pid = ?1 AND start_ts <= ?2 AND (exit_ts IS NULL OR exit_ts >= ?2)
             ORDER BY start_ts DESC LIMIT 1",
            (pid, ts),
            |r| r.get(0),
        )
        .ok()
        .or_else(|| {
            c.query_row(
                "SELECT start_ts FROM processes WHERE pid = ?1 AND start_ts <= ?2
                 ORDER BY start_ts DESC LIMIT 1",
                (pid, ts),
                |r| r.get(0),
            )
            .ok()
        });
    c.execute(
        "INSERT INTO events (ts, path, op, pid, proc_start) VALUES (?1, ?2, ?3, ?4, ?5)",
        (ts, path, op, pid, bound),
    )
    .unwrap();
}

type Shown = (String, String, String, i32, String, Option<String>);

fn shown(e: &FileEvent) -> Shown {
    (
        e.ts.clone(),
        e.path.clone(),
        e.op.clone(),
        e.pid,
        e.comm.clone(),
        e.proc_start.clone(),
    )
}

fn log(c: &Connection, path: &str) -> Vec<Shown> {
    let mut stmt = c
        .prepare(
            "WITH resolved AS (
               SELECT e.id, e.ts, e.path, e.op, e.pid,
                      COALESCE(e.proc_start, (
                        SELECT MAX(p2.start_ts) FROM processes p2
                         WHERE p2.pid = e.pid AND p2.start_ts <= e.ts
                           AND (p2.exit_ts IS NULL OR p2.exit_ts >= e.ts)
                      )) AS rstart
                 FROM events e WHERE e.path = ?1
             )
             SELECT r.ts, r.path, r.op, r.pid, COALESCE(p.comm, ''), r.rstart
               FROM resolved r
               LEFT JOIN processes p ON p.pid = r.pid AND p.start_ts = r.rstart
              ORDER BY r.ts ASC, r.id ASC",
        )
        .unwrap();
    let rows = stmt
        .query_map((path,), |r| {
            Ok((r.get(0)?, r.get(1)?, r.get(2)?, r.get(3)?, r.get(4)?, r.get(5)?))
        })
        .unwrap();
    rows.map(|r| r.unwrap()).collect()
}

type Row = (i32, String, Option<i32>, String);

fn row(p: &ProcRow) -> Row {
    (p.pid, p.start_ts.clone(), p.ppid, p.comm.clone())
}

fn lineage(c: &Connection, sql: &str, pid: i32, start: &str) -> Vec<Row> {
    let mut stmt = c.prepare(sql).unwrap();
    let rows = stmt
        .query_map((pid, start), |r| {
            Ok((r.get(0)?, r.get(1)?, r.get(2)?, r.get(3)?))
        })
        .unwrap();
    rows.map(|r| r.unwrap()).collect()
}

const ANCESTRY: &str = "WITH RECURSIVE chain(pid, start_ts, ppid, comm, depth) AS (
        SELECT pid, start_ts, ppid, comm, 0
          FROM processes WHERE pid = ?1 AND start_ts = ?2
        UNION ALL
        SELECT p.pid, p.start_ts, p.ppid, p.comm, c.depth + 1
          FROM processes p
          JOIN chain c ON p.pid = c.ppid AND p.start_ts <= c.start_ts
           AND (p.exit_ts IS NULL OR p.exit_ts >= c.start_ts)
         WHERE c.depth < 64
    )
    SELECT pid, start_ts, ppid, comm FROM chain ORDER BY depth ASC";

const DESCENDANTS: &str = "WITH RECURSIVE tree(pid, start_ts, ppid, comm, exit_ts, depth) AS (
        SELECT pid, start_ts, ppid, comm, exit_ts, 0
          FROM processes WHERE pid = ?1 AND start_ts = ?2
        UNION ALL
        SELECT p.pid, p.start_ts, p.ppid, p.comm, p.exit_ts, t.depth + 1
          FROM processes p JOIN tree t ON p.ppid = t.pid
           AND ((t.start_ts <= p.start_ts AND (t.exit_ts IS NULL OR t.exit_ts >= p.start_ts))
             OR NOT EXISTS (SELECT 1 FROM processes q
                             WHERE q.pid = t.pid AND q.start_ts <= p.start_ts
                               AND (q.exit_ts IS NULL OR q.exit_ts >= p.start_ts)))
         WHERE t.depth < 256
    )
    SELECT pid, start_ts, ppid, comm FROM tree ORDER BY depth ASC";

fn count(c: &Connection, sql: &str) -> i64 {
    c.query_row(sql, [], |r| r.get(0)).unwrap()
}

/// A small source of repeatable choices.
struct Dice(u64);

impl Dice {
    fn roll(&mut self, n: u64) -> u64 {
        self.0 = self.0.wrapping_mul(6364136223846793005).wrapping_add(1442695040888963407);
        (self.0 >> 33) % n
    }
}

fn time(t: u64) -> String {
    format!("2026-01-01T{:02}-{:02}-{:02}", t / 3600, t / 60 % 60, t % 60)
}

/// Records the same story in both. Parents have smaller pids than their
/// children, so that no walk is cyclic.
fn story(seed: u64, steps: u64) -> (Graph, Connection) {
    let mut d = Dice(seed);
    let mut g = Graph::new();
    let c = open();
    let mut t = 0;
    for _ in 0..steps {
        t += d.roll(3);
        let ts = time(t);
        let pid = 2 + d.roll(6) as i32;
        match d.roll(7) {
            0 | 1 => {
                let parent = 1 + d.roll(pid as u64 - 1) as i32;
                g.record_fork_at(parent, pid, &ts);
                fork(&c, parent, pid, &ts);
            }
            2 => {
                let comm = format!("c{}", d.roll(5));
                g.record_exec_at(pid, &comm, &comm, &comm, 7, &ts);
                exec(&c, pid, &comm, 7, &ts);
            }
            3 => {
                g.record_exit_of(pid, &ts);
                exit(&c, pid, &ts);
            }
            4 => {
                let back = time(t - d.roll(t + 1));
                let id = Identity { exe: "e", comm: "seed", cmdline: "", uid: 3 };
                g.record_existing(pid, None, id, &back);
                c.execute(
                    "INSERT OR IGNORE INTO processes (pid, start_ts, ppid, exe, comm, cmdline, uid)
                     VALUES (?1, ?2, NULL, 'e', 'seed', '', 3)",
                    (pid, &back),
                )
                .unwrap();
                if d.roll(2) == 0 {
                    g.record_exit_at(pid, &back, &ts);
                    exit_at(&c, pid, &back, &ts);
                }
            }
            _ => {
                let path = format!("/f{}", d.roll(3));
                g.record_event_at(&path, "modify", pid, &ts);
                event(&c, &path, "modify", pid, &ts);
            }
        }
    }
    (g, c)
}

#[test]
fn the_rows_are_the_same_after_any_story() {
    for seed in 0..40 {
        let (g, c) = story(seed, 60);
        let mut stmt = c
            .prepare("SELECT pid, start_ts, ppid, comm, uid, exit_ts FROM processes ORDER BY rowid")
            .unwrap();
        let rows: Vec<(i32, String, Option<i32>, String, i64, Option<String>)> = stmt
            .query_map([], |r| {
                Ok((r.get(0)?, r.get(1)?, r.get(2)?, r.get(3)?, r.get(4)?, r.get(5)?))
            })
            .unwrap()
            .map(|r| r.unwrap())
            .collect();
        let own: Vec<_> = g
            .processes
            .iter()
            .map(|p| {
                (
                    p.pid,
                    p.start_ts.clone(),
                    p.ppid,
                    p.comm.clone(),
                    p.uid,
                    p.exit_ts.clone(),
                )
            })
            .collect();
        assert_eq!(own, rows, "story {seed}");
    }
}

#[test]
fn histories_are_the_same_after_any_story() {
    for seed in 100..140 {
        let (g, c) = story(seed, 60);
        for f in 0..3 {
            let path = format!("/f{f}");
            let own: Vec<Shown> = g.log_file(&path).iter().map(shown).collect();
            assert_eq!(own, log(&c, &path), "story {seed}");
            assert_eq!(g.blame(&path).as_ref().map(shown), log(&c, &path).pop());
        }
    }
}

#[test]
fn lineages_are_the_same_after_any_story() {
    for seed in 200..230 {
        let (g, c) = story(seed, 40);
        for p in &g.processes {
            // The order within one generation is open: compare as sets.
            let mut own: Vec<Row> = g.ancestry(p.pid, &p.start_ts).iter().map(row).collect();
            let mut other = lineage(&c, ANCESTRY, p.pid, &p.start_ts);
            assert_eq!(own.first(), other.first());
            own.sort();
            other.sort();
            assert_eq!(own, other, "story {seed}");
            let mut own: Vec<Row> = g.descendants(p.pid, &p.start_ts).iter().map(row).collect();
            let mut other = lineage(&c, DESCENDANTS, p.pid, &p.start_ts);
            assert_eq!(own.first(), other.first());
            own.sort();
            other.sort();
            assert_eq!(own, other, "story {seed}");
        }
    }
}

#[test]
fn lookups_and_prunes_are_the_same_after_any_story() {
    for seed in 300..340 {
        let (mut g, c) = story(seed, 60);
        for pid in 1..9 {
            let latest: Option<String> = c
                .query_row(
                    "SELECT start_ts FROM processes WHERE pid = ?1 ORDER BY start_ts DESC LIMIT 1",
                    (pid,),
                    |r| r.get(0),
                )
                .ok();
            assert_eq!(g.latest_start_ts(pid), latest);
            let live: Option<String> = c
                .query_row(
                    "SELECT start_ts FROM processes WHERE pid = ?1 AND exit_ts IS NULL
                     ORDER BY start_ts DESC LIMIT 1",
                    (pid,),
                    |r| r.get(0),
                )
                .ok();
            assert_eq!(g.live_start_ts(pid), live);
        }
        let cutoff = time(30);
        let preview = g.prune_preview(&cutoff);
        let procs = c
            .execute(
                "DELETE FROM processes WHERE exit_ts IS NOT NULL AND exit_ts < ?1
                    AND NOT EXISTS (SELECT 1 FROM events e
                                     WHERE e.pid = processes.pid AND e.ts >= ?1)",
                (&cutoff,),
            )
            .unwrap();
        let events = c.execute("DELETE FROM events WHERE ts < ?1", (&cutoff,)).unwrap();
        assert_eq!(preview, (procs, events));
        assert_eq!(g.prune(&cutoff), (procs, events));
        let (p, e) = g.counts();
        assert_eq!(p as i64, count(&c, "SELECT COUNT(*) FROM processes"));
        assert_eq!(e as i64, count(&c, "SELECT COUNT(*) FROM events"));
    }
}
