use std::mem::size_of;
use whenfs::bytes::{read_i32, read_u16, read_u32, read_u64, ByteOrder};
use whenfs::connector::{read_datagram, subscribe_message, ProcEvent};
use whenfs::fanotify::{
    is_blocked, observe_entry, observe_write, op_name, read_records, write_op_name, ENTRY_MASK,
    FAN_ATTRIB, FAN_CLOSE_WRITE, FAN_CREATE, FAN_DELETE, FAN_EVENT_ON_CHILD, FAN_MODIFY,
    FAN_MOVED_FROM, FAN_MOVED_TO, FAN_ONDIR, FSID_SIZE, INFO_HEADER_SIZE, INFO_TYPE_DFID_NAME,
    METADATA_SIZE, WRITE_MASK,
};

const NATIVE: ByteOrder = if u16::from_ne_bytes([1, 0]) == 1 {
    ByteOrder::Little
} else {
    ByteOrder::Big
};

#[test]
fn constants_and_sizes_are_the_kernels() {
    assert_eq!(FAN_MODIFY, libc::FAN_MODIFY);
    assert_eq!(FAN_ATTRIB, libc::FAN_ATTRIB);
    assert_eq!(FAN_CLOSE_WRITE, libc::FAN_CLOSE_WRITE);
    assert_eq!(FAN_MOVED_FROM, libc::FAN_MOVED_FROM);
    assert_eq!(FAN_MOVED_TO, libc::FAN_MOVED_TO);
    assert_eq!(FAN_CREATE, libc::FAN_CREATE);
    assert_eq!(FAN_DELETE, libc::FAN_DELETE);
    assert_eq!(FAN_EVENT_ON_CHILD, libc::FAN_EVENT_ON_CHILD);
    assert_eq!(FAN_ONDIR, libc::FAN_ONDIR);
    assert_eq!(WRITE_MASK, libc::FAN_MODIFY | libc::FAN_CLOSE_WRITE);
    assert_eq!(
        ENTRY_MASK,
        libc::FAN_CREATE
            | libc::FAN_DELETE
            | libc::FAN_MOVED_FROM
            | libc::FAN_MOVED_TO
            | libc::FAN_ATTRIB
            | libc::FAN_ONDIR
            | libc::FAN_EVENT_ON_CHILD
    );
    assert_eq!(INFO_TYPE_DFID_NAME, libc::FAN_EVENT_INFO_TYPE_DFID_NAME);
    assert_eq!(METADATA_SIZE, size_of::<libc::fanotify_event_metadata>());
    assert_eq!(INFO_HEADER_SIZE, size_of::<libc::fanotify_event_info_header>());
    assert_eq!(FSID_SIZE, size_of::<libc::__kernel_fsid_t>());
    assert_eq!(whenfs::connector::NETLINK_HEADER_SIZE, size_of::<libc::nlmsghdr>());
    assert_eq!(whenfs::connector::NLMSG_DONE as i32, libc::NLMSG_DONE);
    assert_eq!(whenfs::connector::CN_IDX_PROC, libc::CN_IDX_PROC);
    assert_eq!(whenfs::connector::CN_VAL_PROC, libc::CN_VAL_PROC);
    assert_eq!(whenfs::connector::PROC_CN_MCAST_LISTEN, libc::PROC_CN_MCAST_LISTEN);
    assert_eq!(whenfs::connector::PROC_EVENT_FORK, libc::PROC_EVENT_FORK);
    assert_eq!(whenfs::connector::PROC_EVENT_EXEC, libc::PROC_EVENT_EXEC);
    assert_eq!(whenfs::connector::PROC_EVENT_EXIT, libc::PROC_EVENT_EXIT);
}

#[test]
fn numbers_are_read_in_both_orders() {
    let b: Vec<u8> = vec![0xff, 1, 2, 3, 4, 5, 6, 7, 0x88];
    assert_eq!(read_u16(&b, 1, ByteOrder::Little), 0x0201);
    assert_eq!(read_u16(&b, 1, ByteOrder::Big), 0x0102);
    assert_eq!(read_u32(&b, 1, ByteOrder::Little), 0x04030201);
    assert_eq!(read_u32(&b, 1, ByteOrder::Big), 0x01020304);
    assert_eq!(read_u64(&b, 1, ByteOrder::Little), 0x8807060504030201);
    assert_eq!(read_u64(&b, 1, ByteOrder::Big), 0x0102030405060788);
    assert_eq!(read_i32(&b, 5, ByteOrder::Little), 0x88070605u32 as i32);
    assert_eq!(read_i32(&vec![0xff; 4], 0, ByteOrder::Big), -1);
}

/// The fixed part of an event, with what follows it.
fn record(mask: u64, fd: i32, pid: i32, infos: &[u8]) -> Vec<u8> {
    let mut b = Vec::new();
    b.extend(((24 + infos.len()) as u32).to_ne_bytes());
    b.extend([3, 0]);
    b.extend(24u16.to_ne_bytes());
    b.extend(mask.to_ne_bytes());
    b.extend(fd.to_ne_bytes());
    b.extend(pid.to_ne_bytes());
    b.extend(infos);
    b
}

/// An information record with a handle and a name.
fn info(kind: u8, handle: &[u8], name: &[u8], padding: usize) -> Vec<u8> {
    let mut b = vec![kind, 0];
    let len = 4 + 8 + 8 + handle.len() + name.len() + padding;
    b.extend((len as u16).to_ne_bytes());
    b.extend([9; 8]);
    b.extend((handle.len() as u32).to_ne_bytes());
    b.extend((-2i32).to_ne_bytes());
    b.extend(handle);
    b.extend(name);
    b.extend(vec![0; padding]);
    b
}

#[test]
fn records_are_read_one_after_another() {
    let mut b = record(FAN_MODIFY, 7, 100, &[]);
    b.extend(record(FAN_CREATE, -1, 200, &info(2, &[1, 2, 3], b"file", 3)));
    let list = read_records(&b, NATIVE);
    assert_eq!(list.len(), 2);
    assert_eq!((list[0].mask, list[0].fd, list[0].pid), (FAN_MODIFY, 7, 100));
    assert!(list[0].names.is_empty());
    assert_eq!((list[1].mask, list[1].fd, list[1].pid), (FAN_CREATE, -1, 200));
    assert_eq!(list[1].names.len(), 1);
    assert_eq!(list[1].names[0].name, "file");
    let mut handle = 3u32.to_ne_bytes().to_vec();
    handle.extend((-2i32).to_ne_bytes());
    handle.extend([1, 2, 3]);
    assert_eq!(list[1].names[0].handle, handle);
}

#[test]
fn other_information_is_passed_over() {
    let mut infos = info(1, &[1], b"skip", 0);
    infos.extend(info(2, &[], b"one\0two", 0));
    infos.extend(info(2, &[5; 4], b"", 1));
    let list = read_records(&record(1, -1, 2, &infos), NATIVE);
    let names: Vec<&str> = list[0].names.iter().map(|n| n.name.as_str()).collect();
    assert_eq!(names, vec!["one", ""]);
}

#[test]
fn names_that_are_no_text_are_shown_with_replacements() {
    let list = read_records(&record(1, -1, 2, &info(2, &[], b"a\xffb", 1)), NATIVE);
    assert_eq!(list[0].names[0].name, "a\u{fffd}b");
    let list = read_records(&record(1, -1, 2, &info(2, &[], "é←".as_bytes(), 1)), NATIVE);
    assert_eq!(list[0].names[0].name, "é←");
}

#[test]
fn what_does_not_fit_ends_the_reading() {
    assert!(read_records(&vec![], NATIVE).is_empty());
    let whole = record(1, -1, 2, &info(2, &[], b"x", 1));
    for n in 0..whole.len() {
        assert!(read_records(&whole[..n].to_vec(), NATIVE).is_empty());
    }
    // A record shorter than its own fixed part.
    let mut short = record(1, -1, 2, &[]);
    short[..4].copy_from_slice(&23u32.to_ne_bytes());
    assert!(read_records(&short, NATIVE).is_empty());
    // An information record without a length, and one that is too long.
    let mut zero = info(2, &[], b"x", 1);
    zero[2] = 0;
    zero[3] = 0;
    assert!(read_records(&record(1, -1, 2, &zero), NATIVE)[0].names.is_empty());
    let mut long = info(2, &[], b"x", 1);
    long[2..4].copy_from_slice(&1000u16.to_ne_bytes());
    assert!(read_records(&record(1, -1, 2, &long), NATIVE)[0].names.is_empty());
    // A handle that claims more bytes than there are.
    let mut greedy = info(2, &[1, 2], b"x", 1);
    greedy[12..16].copy_from_slice(&100u32.to_ne_bytes());
    assert!(read_records(&record(1, -1, 2, &greedy), NATIVE)[0].names.is_empty());
}

#[test]
fn operations_have_names() {
    assert_eq!(op_name(FAN_CREATE | FAN_ONDIR), "create");
    assert_eq!(op_name(FAN_CREATE | FAN_DELETE), "create");
    assert_eq!(op_name(FAN_DELETE), "delete");
    assert_eq!(op_name(FAN_MOVED_FROM), "moved_from");
    assert_eq!(op_name(FAN_MOVED_TO), "moved_to");
    assert_eq!(op_name(FAN_ATTRIB), "attrib");
    assert_eq!(op_name(FAN_ONDIR), "fid_other");
    assert_eq!(write_op_name(FAN_MODIFY | FAN_CLOSE_WRITE), "close_write");
    assert_eq!(write_op_name(FAN_MODIFY), "modify");
}

#[test]
fn noise_is_not_recorded() {
    for p in [
        "/p/.git/HEAD", "/p/target", "/h/.cache/x", "/p/node_modules/y", "/a.tmp", "/a.swp", "/a.lock",
        "/a.tmpl",
    ] {
        assert!(is_blocked(p), "{p}");
    }
    assert!(!is_blocked("/p/git/HEAD"));
    assert!(!is_blocked(""));
}

#[test]
fn what_an_event_tells() {
    let o = observe_entry("/d", "f", FAN_CREATE, 5, 9).unwrap();
    assert_eq!((o.path.as_str(), o.op.as_str(), o.pid), ("/d/f", "create", 5));
    let o = observe_entry("/d", "", FAN_ATTRIB, 5, 9).unwrap();
    assert_eq!((o.path.as_str(), o.op.as_str()), ("/d", "attrib"));
    assert!(observe_entry("/d", "f", FAN_CREATE, 9, 9).is_none());
    assert!(observe_entry("/d/.git", "f", FAN_CREATE, 5, 9).is_none());
    let o = observe_write("/d/f", FAN_CLOSE_WRITE, 5, 9).unwrap();
    assert_eq!((o.path.as_str(), o.op.as_str(), o.pid), ("/d/f", "close_write", 5));
    assert!(observe_write("", FAN_MODIFY, 5, 9).is_none());
    assert!(observe_write("/d/f", FAN_MODIFY, 9, 9).is_none());
    assert!(observe_write("/d/f.swp", FAN_MODIFY, 5, 9).is_none());
}

#[test]
fn the_subscription_is_the_kernels_message() {
    let m = subscribe_message(0x01020304, ByteOrder::Little);
    assert_eq!(
        m,
        vec![
            40, 0, 0, 0, 3, 0, 0, 0, 0, 0, 0, 0, 4, 3, 2, 1, // netlink header
            1, 0, 0, 0, 1, 0, 0, 0, 0, 0, 0, 0, 0, 0, 0, 0, 4, 0, 0, 0, // connector header
            1, 0, 0, 0, // payload
        ]
    );
    assert_eq!(subscribe_message(1, ByteOrder::Big)[..4], [0, 0, 0, 40]);
}

fn datagram(what: u32, a: i32, b: i32, len: usize) -> Vec<u8> {
    let mut d = vec![0u8; 76];
    d[36..40].copy_from_slice(&what.to_ne_bytes());
    d[52..56].copy_from_slice(&a.to_ne_bytes());
    d[60..64].copy_from_slice(&b.to_ne_bytes());
    d.truncate(len);
    d
}

#[test]
fn datagrams_tell_of_forks_execs_and_exits() {
    let read = |what, len| read_datagram(&datagram(what, 7, 8, len), NATIVE);
    assert_eq!(read(1, 76), Some(ProcEvent::Fork { parent: 7, child: 8 }));
    assert_eq!(read(1, 63), None);
    assert_eq!(read(2, 56), Some(ProcEvent::Exec { pid: 7 }));
    assert_eq!(read(2, 55), None);
    assert_eq!(read(0x80000000, 76), Some(ProcEvent::Exit { pid: 7 }));
    assert_eq!(read(0, 76), None);
    assert_eq!(read_datagram(&vec![], NATIVE), None);
}
