use whenfs::audit::{
    bracket, dedup_events, list_report, load_events, nothing_recorded, parse_line, plan_diff,
    sort_events, writer, Event, Sides,
};
use whenfs::json::{field, json_escape, log_line, Entry};

fn entry(path: &str, cmdline: &str) -> Entry {
    Entry {
        ts: "2026-08-20T09-00-04".into(),
        path: path.into(),
        op: "create".into(),
        pid: -7,
        comm: "sh".into(),
        exe: "/bin/sh".into(),
        cmdline: cmdline.into(),
        uid: 1000,
    }
}

fn event(ts: &str, op: &str) -> Event {
    Event {
        ts: ts.into(),
        path: "/f".into(),
        op: op.into(),
        pid: "42".into(),
        comm: String::new(),
        exe: "/bin/cp".into(),
        cmdline: "cp a b".into(),
    }
}

#[test]
fn a_log_line_in_full() {
    assert_eq!(
        log_line(&entry("/a \"b\"", "x\ty\nz\\")),
        "{\"ts\":\"2026-08-20T09-00-04\",\"path\":\"/a \\\"b\\\"\",\"op\":\"create\",\"pid\":-7,\
         \"comm\":\"sh\",\"exe\":\"/bin/sh\",\"cmdline\":\"x\\ty\\nz\\\\\",\"uid\":1000}\n"
    );
}

#[test]
fn control_characters_are_written_by_their_number() {
    assert_eq!(json_escape("\u{1}\u{1f}\u{7f}é"), "\\u0001\\u001f\u{7f}é");
    assert_eq!(json_escape("\r"), "\\u000d");
    assert_eq!(json_escape(""), "");
}

#[test]
fn a_written_line_reads_back_whatever_the_texts_hold() {
    for text in [
        "plain",
        "",
        "\"comm\":\"liar\"",
        "\",\"pid\":9,\"x\":\"",
        "back\\slash\\",
        "tab\tbreak\nquote\"",
        "ünïcödé ← →",
        "comm",
        ":",
        "\"",
        "\\\"",
    ] {
        let line = log_line(&entry(text, text));
        assert_eq!(line.matches('\n').count(), 1);
        let e = parse_line(line.trim_end_matches('\n')).unwrap();
        assert_eq!(e.ts, "2026-08-20T09-00-04");
        assert_eq!(e.path, text);
        assert_eq!(e.op, "create");
        assert_eq!(e.pid, "-7");
        assert_eq!(e.comm, "sh");
        assert_eq!(e.exe, "/bin/sh");
        assert_eq!(e.cmdline, text);
        assert_eq!(field(line.trim_end(), "uid"), "1000");
    }
}

#[test]
fn a_character_written_by_its_number_reads_back() {
    assert_eq!(field("{\"path\":\"a\\u000db\"}", "path"), "a\rb");
    for n in 0..0x20u8 {
        let text = format!("/a{}b{}", n as char, n as char);
        let line = log_line(&entry(&text, &text));
        assert_eq!(field(&line, "path"), text);
        assert_eq!(field(&line, "cmdline"), text);
        assert_eq!(load_events(&line, &text, "").len(), 1);
    }
    assert_eq!(field("\"k\":\"\\u00E9\\u2190x\"", "k"), "é←x");
    // What is no number of a character stands for its letters.
    assert_eq!(field("\"k\":\"\\ud800\"", "k"), "ud800");
    assert_eq!(field("\"k\":\"\\u00g0\"", "k"), "u00g0");
    assert_eq!(field("\"k\":\"\\u00\"", "k"), "u00");
}

#[test]
fn fields_of_other_shapes() {
    assert_eq!(field("{\"a\":1,\"b\":2}", "b"), "2");
    assert_eq!(field("{\"a\":1", "a"), "1");
    assert_eq!(field("{\"a\":\"open", "a"), "open");
    assert_eq!(field("{\"a\":\"x\\", "a"), "x");
    assert_eq!(field("{\"a\":1}", "c"), "");
    assert_eq!(field("\"a\":\"first\" \"a\":\"second\"", "a"), "first");
}

#[test]
fn blank_lines_tell_of_nothing() {
    assert!(parse_line("").is_none());
    assert!(parse_line(" \t\u{a0}\u{3000}\u{2029}").is_none());
    assert!(parse_line("x").is_some());
}

#[test]
fn a_log_gives_back_the_entries_about_a_file() {
    let mut log = String::new();
    log.push_str(&log_line(&entry("/a", "one")));
    log.push_str("\n   \r\n");
    log.push_str(&log_line(&entry("/b", "two")));
    log.push_str(&log_line(&entry("/real/a", "three")));
    let found: Vec<String> = load_events(&log, "/a", "/real/a")
        .into_iter()
        .map(|e| e.cmdline)
        .collect();
    assert_eq!(found, vec!["one", "three"]);
    assert!(load_events(&log, "/c", "/c").is_empty());
    // A last line without a break counts too.
    assert_eq!(load_events("{\"path\":\"/z\"}", "/z", "/z").len(), 1);
}

#[test]
fn a_listing_shows_every_event_in_time_order() {
    let events = vec![
        event("t2", "modify"),
        event("t1", "create"),
        event("t2", "close_write"),
    ];
    assert_eq!(
        list_report(&events, "/f"),
        vec![
            "t1  create     pid=42      /bin/cp  (cp a b)",
            "t2  modify     pid=42      /bin/cp  (cp a b)",
            "t2  close_write pid=42      /bin/cp  (cp a b)",
        ]
    );
    assert_eq!(
        list_report(&vec![], "/f"),
        vec!["no recorded changes to /f"]
    );
    assert_eq!(nothing_recorded("/g"), "no recorded changes to /g");
}

#[test]
fn a_difference_is_shown_once_per_time() {
    let events = vec![
        event("t2", "close_write"),
        event("t1", "create"),
        event("t2", "modify"),
    ];
    let kept: Vec<(String, String)> = dedup_events(&sort_events(&events))
        .into_iter()
        .map(|e| (e.ts, e.op))
        .collect();
    assert_eq!(
        kept,
        vec![
            ("t1".to_string(), "create".to_string()),
            ("t2".to_string(), "close_write".to_string())
        ]
    );
}

#[test]
fn a_change_is_bracketed_by_the_snapshots_around_it() {
    let names: Vec<String> = ["s3", "s1", "s2"].iter().map(|s| s.to_string()).collect();
    assert_eq!(bracket(&names, "s2"), (Some("s2".into()), Some("s3".into())));
    assert_eq!(bracket(&names, "s1x"), (Some("s1".into()), Some("s2".into())));
    assert_eq!(bracket(&names, "s0"), (None, Some("s1".into())));
    assert_eq!(bracket(&names, "s9"), (Some("s3".into()), None));
    assert_eq!(bracket(&vec![], "s1"), (None, None));
}

#[test]
fn the_two_sides_of_a_change() {
    let names = vec!["s1".to_string(), "s3".to_string()];
    let changes = plan_diff(
        &vec![event("s2", "modify"), event("s4", "modify")],
        &names,
        "/when",
        "/home/u",
        "/home/u/dir/f",
    );
    assert_eq!(changes.len(), 2);
    assert_eq!(
        changes[0].headline,
        "\n=== s2 — /bin/cp (pid 42, cp a b) ==="
    );
    match &changes[0].sides {
        Sides::Both { older, newer } => {
            assert_eq!(older, "/when/s1/dir/f");
            assert_eq!(newer, "/when/s3/dir/f");
        }
        other => panic!("{other:?}"),
    }
    match &changes[1].sides {
        Sides::Missing { before, after } => {
            assert_eq!(before.as_deref(), Some("s3"));
            assert_eq!(after.as_deref(), None);
        }
        other => panic!("{other:?}"),
    }
    // A target outside the live root stays as it is.
    let outside = plan_diff(&vec![event("s2", "modify")], &names, "/when", "/srv", "/etc/f");
    match &outside[0].sides {
        Sides::Both { older, .. } => assert_eq!(older, "/etc/f"),
        other => panic!("{other:?}"),
    }
}

#[test]
fn a_name_goes_before_a_program() {
    let mut e = event("t", "modify");
    assert_eq!(writer(&e), "/bin/cp");
    e.comm = "cp".into();
    assert_eq!(writer(&e), "cp");
}
