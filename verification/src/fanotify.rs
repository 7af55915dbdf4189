//! What fanotify reports: records in a byte buffer, and what each means.
//!
//! Two groups report. One gives an open file and tells of writes. The other
//! gives the handle of a directory and the name of an entry in it, and tells
//! of entries that are created, removed, renamed or changed.
use crate::bytes::{read_i32, read_u16, read_u32, read_u64, signed_at, unsigned_at, ByteOrder};
use crate::text::{contains_part, has_part, lossy, lossy_text, no_text};
use vstd::prelude::*;
use vstd::string::*;

verus! {

pub const FAN_MODIFY: u64 = 0x0000_0002;

pub const FAN_ATTRIB: u64 = 0x0000_0004;

pub const FAN_CLOSE_WRITE: u64 = 0x0000_0008;

pub const FAN_MOVED_FROM: u64 = 0x0000_0040;

pub const FAN_MOVED_TO: u64 = 0x0000_0080;

pub const FAN_CREATE: u64 = 0x0000_0100;

pub const FAN_DELETE: u64 = 0x0000_0200;

pub const FAN_EVENT_ON_CHILD: u64 = 0x0800_0000;

pub const FAN_ONDIR: u64 = 0x4000_0000;

/// What the group that tells of writes asks for.
pub const WRITE_MASK: u64 = 0x0000_000a;

/// What the group that tells of directory entries asks for.
pub const ENTRY_MASK: u64 = 0x4800_03c4;

/// The kind of an information record with a directory handle and a name.
pub const INFO_TYPE_DFID_NAME: u8 = 2;

/// The size of an event's fixed part.
pub const METADATA_SIZE: usize = 24;

/// The size of an information record's header.
pub const INFO_HEADER_SIZE: usize = 4;

/// The size of a file system id.
pub const FSID_SIZE: usize = 8;

// ---------------------------------------------------------------------
// Records
// ---------------------------------------------------------------------
/// A directory handle and the name of an entry in the directory.
#[derive(Debug, Clone)]
pub struct EntryName {
    /// The handle as `open_by_handle_at` takes it: the number of its bytes,
    /// its type, its bytes.
    pub handle: Vec<u8>,
    pub name: String,
}

/// The plain values of an [`EntryName`].
#[verifier::ext_equal]
pub struct EntryNameModel {
    pub handle: Seq<u8>,
    pub name: Seq<char>,
}

impl View for EntryName {
    type V = EntryNameModel;

    open spec fn view(&self) -> EntryNameModel {
        EntryNameModel { handle: self.handle@, name: self.name@ }
    }
}

/// The plain values of a list of names.
pub open spec fn name_models(list: Seq<EntryName>) -> Seq<EntryNameModel> {
    Seq::new(list.len(), |i: int| list[i]@)
}

/// One event as fanotify reports it.
#[derive(Debug, Clone)]
pub struct Record {
    pub mask: u64,
    /// A file that the reader must close, or a negative number.
    pub fd: i32,
    pub pid: i32,
    pub names: Vec<EntryName>,
}

/// The plain values of a [`Record`].
#[verifier::ext_equal]
pub struct RecordModel {
    pub mask: nat,
    pub fd: int,
    pub pid: int,
    pub names: Seq<EntryNameModel>,
}

impl View for Record {
    type V = RecordModel;

    open spec fn view(&self) -> RecordModel {
        RecordModel {
            mask: self.mask as nat,
            fd: self.fd as int,
            pid: self.pid as int,
            names: name_models(self.names@),
        }
    }
}

/// The plain values of a list of records.
pub open spec fn record_models(list: Seq<Record>) -> Seq<RecordModel> {
    Seq::new(list.len(), |i: int| list[i]@)
}

/// The end of a name: the first zero byte from `i` on, or `end`.
pub open spec fn name_end(rec: Seq<u8>, i: int, end: int) -> int
    decreases end - i,
{
    if i >= end || rec[i] == 0 {
        i
    } else {
        name_end(rec, i + 1, end)
    }
}

/// The length of the information record at position `i`.
pub open spec fn info_len(rec: Seq<u8>, i: int, order: ByteOrder) -> int {
    unsigned_at(rec, i + 2, 2, order) as int
}

/// Is there an information record at position `i`?
pub open spec fn has_info(rec: Seq<u8>, i: int, order: ByteOrder) -> bool {
    &&& 0 <= i
    &&& i + INFO_HEADER_SIZE <= rec.len()
    &&& info_len(rec, i, order) > 0
    &&& i + info_len(rec, i, order) <= rec.len()
}

/// Where the file handle of the information record at position `i` stands.
pub open spec fn handle_at(i: int) -> int {
    i + INFO_HEADER_SIZE + FSID_SIZE
}

/// Where the name of the information record at position `i` stands: behind
/// the handle's two numbers and its bytes.
pub open spec fn name_at(rec: Seq<u8>, i: int, order: ByteOrder) -> int {
    handle_at(i) + 8 + unsigned_at(rec, handle_at(i), 4, order)
}

/// Does the information record at position `i` give a handle and a name?
pub open spec fn gives_name(rec: Seq<u8>, i: int, order: ByteOrder) -> bool {
    let end = i + info_len(rec, i, order);
    &&& rec[i] == INFO_TYPE_DFID_NAME
    &&& handle_at(i) + 8 <= end
    &&& name_at(rec, i, order) <= end
}

/// The handle and the name in the information record at position `i`.
pub open spec fn name_in(rec: Seq<u8>, i: int, order: ByteOrder) -> EntryNameModel {
    let end = i + info_len(rec, i, order);
    let at = name_at(rec, i, order);
    EntryNameModel {
        handle: rec.subrange(handle_at(i), at),
        name: lossy_text(rec.subrange(at, name_end(rec, at, end))),
    }
}

/// The names in the information records from position `i` on.
pub open spec fn names_from(rec: Seq<u8>, i: int, order: ByteOrder) -> Seq<EntryNameModel>
    decreases rec.len() - i,
{
    if has_info(rec, i, order) {
        (if gives_name(rec, i, order) {
            seq![name_in(rec, i, order)]
        } else {
            Seq::empty()
        }) + names_from(rec, i + info_len(rec, i, order), order)
    } else {
        Seq::empty()
    }
}

/// The event in one record.
pub open spec fn record_of(rec: Seq<u8>, order: ByteOrder) -> RecordModel {
    RecordModel {
        mask: unsigned_at(rec, 8, 8, order),
        fd: signed_at(rec, 16, order),
        pid: signed_at(rec, 20, order),
        names: names_from(rec, unsigned_at(rec, 6, 2, order) as int, order),
    }
}

/// The length of the record at position `at`.
pub open spec fn record_len(b: Seq<u8>, at: int, order: ByteOrder) -> int {
    unsigned_at(b, at, 4, order) as int
}

/// Is there a whole record at position `at`?
pub open spec fn has_record(b: Seq<u8>, at: int, order: ByteOrder) -> bool {
    &&& 0 <= at
    &&& at + METADATA_SIZE <= b.len()
    &&& record_len(b, at, order) >= METADATA_SIZE
    &&& at + record_len(b, at, order) <= b.len()
}

/// The events in a buffer from position `at` on. The first thing that is no
/// whole record ends them.
pub open spec fn records_from(b: Seq<u8>, at: int, order: ByteOrder) -> Seq<RecordModel>
    decreases b.len() - at,
{
    if has_record(b, at, order) {
        let n = record_len(b, at, order);
        seq![record_of(b.subrange(at, at + n), order)] + records_from(b, at + n, order)
    } else {
        Seq::empty()
    }
}

/// A copy of the bytes from `from` up to `to`.
fn copy_bytes(b: &Vec<u8>, from: usize, to: usize) -> (r: Vec<u8>)
    requires
        from <= to <= b@.len(),
    ensures
        r@ == b@.subrange(from as int, to as int),
{
    let mut out: Vec<u8> = Vec::new();
    let mut i: usize = from;
    while i < to
        invariant
            from <= i <= to,
            to <= b@.len(),
            out@ == b@.subrange(from as int, i as int),
        decreases to - i,
    {
        out.push(b[i]);
        i += 1;
        assert(out@ =~= b@.subrange(from as int, i as int));
    }
    out
}

/// The names in the information records of one record.
fn read_names(rec: &Vec<u8>, start: usize, order: ByteOrder) -> (r: Vec<EntryName>)
    ensures
        name_models(r@) == names_from(rec@, start as int, order),
{
    let mut out: Vec<EntryName> = Vec::new();
    let n = rec.len();
    let mut i: usize = start;
    let ghost all = names_from(rec@, start as int, order);
    assert(name_models(out@) + all =~= all);
    while i <= n && INFO_HEADER_SIZE <= n - i
        invariant
            n == rec@.len(),
            all == names_from(rec@, start as int, order),
            name_models(out@) + names_from(rec@, i as int, order) == all,
        decreases n - i,
    {
        let len = read_u16(rec, i + 2, order) as usize;
        if len == 0 || len > n - i {
            assert(name_models(out@) =~= all);
            return out;
        }
        let end = i + len;
        let ghost before = out@;
        if rec[i] == INFO_TYPE_DFID_NAME && len >= INFO_HEADER_SIZE + FSID_SIZE + 8 {
            let fh = i + INFO_HEADER_SIZE + FSID_SIZE;
            let handle_bytes = read_u32(rec, fh, order) as usize;
            if handle_bytes <= end - (fh + 8) {
                let at = fh + 8 + handle_bytes;
                let mut stop: usize = at;
                while stop < end && rec[stop] != 0
                    invariant
                        n == rec@.len(),
                        end <= n,
                        at <= stop <= end,
                        name_end(rec@, at as int, end as int) == name_end(
                            rec@,
                            stop as int,
                            end as int,
                        ),
                    decreases end - stop,
                {
                    stop += 1;
                }
                let name = EntryName {
                    handle: copy_bytes(rec, fh, at),
                    name: lossy(&copy_bytes(rec, at, stop)),
                };
                out.push(name);
                assert(name@ == name_in(rec@, i as int, order));
                assert(name_models(out@) =~= name_models(before).push(name@));
            }
        }
        proof {
            assert(gives_name(rec@, i as int, order) <==> out@.len() == before.len() + 1);
            assert(name_models(out@) + names_from(rec@, end as int, order) =~= name_models(before)
                + names_from(rec@, i as int, order));
        }
        i = end;
    }
    assert(name_models(out@) =~= all);
    out
}

/// Reads one whole record.
fn read_record(rec: &Vec<u8>, order: ByteOrder) -> (r: Record)
    requires
        rec@.len() >= METADATA_SIZE,
    ensures
        r@ == record_of(rec@, order),
{
    Record {
        mask: read_u64(rec, 8, order),
        fd: read_i32(rec, 16, order),
        pid: read_i32(rec, 20, order),
        names: read_names(rec, read_u16(rec, 6, order) as usize, order),
    }
}

/// The events in what one read of a fanotify group gave.
pub fn read_records(b: &Vec<u8>, order: ByteOrder) -> (r: Vec<Record>)
    ensures
        record_models(r@) == records_from(b@, 0, order),
{
    let mut out: Vec<Record> = Vec::new();
    let n = b.len();
    let mut at: usize = 0;
    let ghost all = records_from(b@, 0, order);
    assert(record_models(out@) + all =~= all);
    while METADATA_SIZE <= n - at
        invariant
            n == b@.len(),
            at <= n,
            all == records_from(b@, 0, order),
            record_models(out@) + records_from(b@, at as int, order) == all,
        decreases n - at,
    {
        let len = read_u32(b, at, order) as usize;
        if len < METADATA_SIZE || len > n - at {
            assert(record_models(out@) =~= all);
            return out;
        }
        let ghost before = out@;
        let rec = copy_bytes(b, at, at + len);
        let event = read_record(&rec, order);
        out.push(event);
        proof {
            assert(record_models(out@) =~= record_models(before).push(event@));
            assert(record_models(out@) + records_from(b@, at + len, order) =~= record_models(before)
                + records_from(b@, at as int, order));
        }
        at += len;
    }
    assert(record_models(out@) =~= all);
    out
}

// ---------------------------------------------------------------------
// Meaning
// ---------------------------------------------------------------------
/// Texts that mark a path as noise.
pub open spec fn blocked_parts() -> Seq<Seq<char>> {
    seq!["/.git"@, "/target"@, "/.cache"@, "/node_modules"@, ".tmp"@, ".swp"@, ".lock"@]
}

/// Is the path noise: does one of the texts stand in it?
pub open spec fn is_noise(path: Seq<char>) -> bool {
    exists|i: int| 0 <= i < blocked_parts().len() && has_part(path, #[trigger] blocked_parts()[i])
}

/// Is the path noise?
pub fn is_blocked(path: &str) -> (r: bool)
    ensures
        r == is_noise(path@),
{
    let parts: Vec<&str> = vec![
        "/.git",
        "/target",
        "/.cache",
        "/node_modules",
        ".tmp",
        ".swp",
        ".lock",
    ];
    let ghost all = blocked_parts();
    assert(parts@.len() == all.len());
    assert forall|i: int| 0 <= i < all.len() implies (#[trigger] parts@[i])@ == all[i] by {}
    let mut i: usize = 0;
    while i < parts.len()
        invariant
            i <= parts@.len(),
            all == blocked_parts(),
            parts@.len() == all.len(),
            forall|k: int| 0 <= k < all.len() ==> (#[trigger] parts@[k])@ == all[k],
            forall|k: int| 0 <= k < i ==> !has_part(path@, #[trigger] all[k]),
        decreases parts@.len() - i,
    {
        assert(parts@[i as int]@ == all[i as int]);
        if contains_part(path, parts[i]) {
            return true;
        }
        i += 1;
    }
    false
}

/// The name of what happened to a directory entry. Where a mask tells of
/// several things, the first in this order names them.
pub open spec fn entry_op(mask: u64) -> Seq<char> {
    if mask & FAN_CREATE != 0 {
        "create"@
    } else if mask & FAN_DELETE != 0 {
        "delete"@
    } else if mask & FAN_MOVED_FROM != 0 {
        "moved_from"@
    } else if mask & FAN_MOVED_TO != 0 {
        "moved_to"@
    } else if mask & FAN_ATTRIB != 0 {
        "attrib"@
    } else {
        "fid_other"@
    }
}

/// The name of what happened to a directory entry.
pub fn op_name(mask: u64) -> (r: &'static str)
    ensures
        r@ == entry_op(mask),
{
    if mask & FAN_CREATE != 0 {
        "create"
    } else if mask & FAN_DELETE != 0 {
        "delete"
    } else if mask & FAN_MOVED_FROM != 0 {
        "moved_from"
    } else if mask & FAN_MOVED_TO != 0 {
        "moved_to"
    } else if mask & FAN_ATTRIB != 0 {
        "attrib"
    } else {
        "fid_other"
    }
}

/// The name of a write.
pub open spec fn write_op(mask: u64) -> Seq<char> {
    if mask & FAN_CLOSE_WRITE != 0 {
        "close_write"@
    } else {
        "modify"@
    }
}

/// The name of a write.
pub fn write_op_name(mask: u64) -> (r: &'static str)
    ensures
        r@ == write_op(mask),
{
    if mask & FAN_CLOSE_WRITE != 0 {
        "close_write"
    } else {
        "modify"
    }
}

/// The path of a directory entry. An event on the directory itself has no
/// name.
pub open spec fn entry_path(parent: Seq<char>, name: Seq<char>) -> Seq<char> {
    if name.len() == 0 {
        parent
    } else {
        parent + "/"@ + name
    }
}

/// Something to record: what happened to which path, and by which process.
#[derive(Debug, Clone)]
pub struct Observation {
    pub path: String,
    pub op: String,
    pub pid: i32,
}

/// The plain values of an [`Observation`].
#[verifier::ext_equal]
pub struct ObservationModel {
    pub path: Seq<char>,
    pub op: Seq<char>,
    pub pid: i32,
}

impl View for Observation {
    type V = ObservationModel;

    open spec fn view(&self) -> ObservationModel {
        ObservationModel { path: self.path@, op: self.op@, pid: self.pid }
    }
}

/// The plain values of an optional observation.
pub open spec fn observation_model(o: Option<Observation>) -> Option<ObservationModel> {
    match o {
        Some(x) => Some(x@),
        None => None,
    }
}

/// What a write to an open file tells. Nothing is told of a file without a
/// path, of noise, and of the watcher's own writes: recording one of those
/// would be a write that is recorded again.
pub open spec fn write_seen(path: Seq<char>, mask: u64, pid: i32, own_pid: i32) -> Option<
    ObservationModel,
> {
    if path.len() == 0 || is_noise(path) || pid == own_pid {
        None
    } else {
        Some(ObservationModel { path, op: write_op(mask), pid })
    }
}

/// What an event on a directory entry tells. Nothing is told of noise and of
/// the watcher's own changes.
pub open spec fn entry_seen(
    parent: Seq<char>,
    name: Seq<char>,
    mask: u64,
    pid: i32,
    own_pid: i32,
) -> Option<ObservationModel> {
    let path = entry_path(parent, name);
    if is_noise(path) || pid == own_pid {
        None
    } else {
        Some(ObservationModel { path, op: entry_op(mask), pid })
    }
}

/// What a write to an open file tells.
pub fn observe_write(path: &str, mask: u64, pid: i32, own_pid: i32) -> (r: Option<Observation>)
    ensures
        observation_model(r) == write_seen(path@, mask, pid, own_pid),
{
    if no_text(path) || is_blocked(path) || pid == own_pid {
        return None;
    }
    Some(Observation { path: path.to_string(), op: write_op_name(mask).to_string(), pid })
}

/// What an event on a directory entry tells.
pub fn observe_entry(parent: &str, name: &str, mask: u64, pid: i32, own_pid: i32) -> (r: Option<
    Observation,
>)
    ensures
        observation_model(r) == entry_seen(parent@, name@, mask, pid, own_pid),
{
    let mut path = parent.to_string();
    if !no_text(name) {
        path.append("/");
        path.append(name);
    }
    if is_blocked(path.as_str()) || pid == own_pid {
        return None;
    }
    Some(Observation { path, op: op_name(mask).to_string(), pid })
}

// ---------------------------------------------------------------------
// Laws
// ---------------------------------------------------------------------
/// The watcher never records itself.
pub proof fn own_changes_are_not_recorded(
    parent: Seq<char>,
    name: Seq<char>,
    mask: u64,
    own_pid: i32,
)
    ensures
        write_seen(parent, mask, own_pid, own_pid) is None,
        entry_seen(parent, name, mask, own_pid, own_pid) is None,
{
}

/// Each group asks for exactly the things that it can name.
pub proof fn the_masks_ask_for_what_has_a_name()
    ensures
        WRITE_MASK == FAN_MODIFY | FAN_CLOSE_WRITE,
        ENTRY_MASK == FAN_CREATE | FAN_DELETE | FAN_MOVED_FROM | FAN_MOVED_TO | FAN_ATTRIB
            | FAN_ONDIR | FAN_EVENT_ON_CHILD,
{
    assert(0x0000_000au64 == 0x0000_0002u64 | 0x0000_0008u64) by (bit_vector);
    assert(0x4800_03c4u64 == 0x0000_0100u64 | 0x0000_0200u64 | 0x0000_0040u64 | 0x0000_0080u64
        | 0x0000_0004u64 | 0x4000_0000u64 | 0x0800_0000u64) by (bit_vector);
}

} // verus!
