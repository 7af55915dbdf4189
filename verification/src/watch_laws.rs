//! What holds of the kernel's messages: what is written in a place is read
//! from it, and means what it says.
use crate::bytes::{
    a_number_reads_back, bytes_value, little_value, signed_at, u16_bytes, u32_bytes, unsigned_at,
    ByteOrder,
};
use crate::connector::{subscription, told_by, ProcEvent};
use crate::fanotify::{
    blocked_parts, entry_op, entry_path, entry_seen, gives_name, handle_at, has_info, has_record,
    info_len, is_noise, name_at, name_end, name_in, names_from, record_len, record_of, records_from,
    write_op, write_seen, EntryNameModel, RecordModel,
};
use crate::path::{components, join_path};
use crate::path_laws::{
    a_name_is_one_component, begins_with_dot, is_name, joining_appends_components,
};
use crate::text::{has_part, lossy_text};
use vstd::prelude::*;

verus! {

// ---------------------------------------------------------------------
// Numbers
// ---------------------------------------------------------------------
/// A number of two bytes is read back.
pub proof fn a_short_number_reads_back(v: u16, order: ByteOrder)
    ensures
        u16_bytes(v as nat, order).len() == 2,
        bytes_value(u16_bytes(v as nat, order), order) == v,
{
    let little = seq![(v as nat % 256) as u8, (v as nat / 256 % 256) as u8];
    assert(little.reverse().reverse() =~= little);
    assert(little.skip(1).skip(1) =~= Seq::empty());
    assert(little_value(little.skip(1).skip(1)) == 0);
    assert(little_value(little.skip(1)) == little[1] as nat);
    assert(little_value(little) == little[0] as nat + 256 * little_value(little.skip(1)));
}

/// The two orders are each other's reverse, and in the order that begins with
/// the least byte each further byte counts for so much more.
pub proof fn byte_orders_mirror_each_other(s: Seq<u8>, b: u8)
    ensures
        bytes_value(s, ByteOrder::Big) == bytes_value(s.reverse(), ByteOrder::Little),
        bytes_value(seq![b] + s, ByteOrder::Little) == b + 256 * bytes_value(s, ByteOrder::Little),
        bytes_value(s.push(b), ByteOrder::Big) == b + 256 * bytes_value(s, ByteOrder::Big),
{
    assert((seq![b] + s).skip(1) =~= s);
    assert(s.push(b).reverse() =~= seq![b] + s.reverse());
    assert((seq![b] + s.reverse()).skip(1) =~= s.reverse());
}

/// The bytes of a signed number.
pub open spec fn i32_bytes(v: i32, order: ByteOrder) -> Seq<u8> {
    u32_bytes(
        (if v < 0 {
            v + 0x1_0000_0000
        } else {
            v as int
        }) as nat,
        order,
    )
}

/// A number is read from the place where it was written.
pub proof fn a_number_is_read_from_its_place(a: Seq<u8>, v: u32, b: Seq<u8>, order: ByteOrder)
    ensures
        unsigned_at(a + u32_bytes(v as nat, order) + b, a.len() as int, 4, order) == v,
        u32_bytes(v as nat, order).len() == 4,
{
    a_number_reads_back(v, order);
    let all = a + u32_bytes(v as nat, order) + b;
    assert(all.subrange(a.len() as int, a.len() + 4int) =~= u32_bytes(v as nat, order));
}

/// A signed number is read from the place where it was written, with its sign.
pub proof fn a_signed_number_is_read_from_its_place(
    a: Seq<u8>,
    v: i32,
    b: Seq<u8>,
    order: ByteOrder,
)
    ensures
        signed_at(a + i32_bytes(v, order) + b, a.len() as int, order) == v,
        i32_bytes(v, order).len() == 4,
{
    let n: u32 = (if v < 0 {
        v + 0x1_0000_0000
    } else {
        v as int
    }) as u32;
    a_number_is_read_from_its_place(a, n, b, order);
}

// ---------------------------------------------------------------------
// The process connector
// ---------------------------------------------------------------------
/// A datagram of the process connector: its headers, what happened, two
/// numbers that do not matter, and the pids, each with its thread.
pub open spec fn datagram(
    head: Seq<u8>,
    what: u32,
    mid: Seq<u8>,
    pid: i32,
    thread: Seq<u8>,
    rest: Seq<u8>,
    order: ByteOrder,
) -> Seq<u8> {
    head + u32_bytes(what as nat, order) + mid + i32_bytes(pid, order) + thread + rest
}

/// A datagram tells of a fork, an exec or an exit by the number that the
/// kernel gives it, and of nothing by any other. An exec and an exit name
/// their process.
pub proof fn a_datagram_tells_what_happened(
    head: Seq<u8>,
    what: u32,
    mid: Seq<u8>,
    pid: i32,
    thread: Seq<u8>,
    rest: Seq<u8>,
    order: ByteOrder,
)
    requires
        head.len() == 16 + 20,
        mid.len() == 4 + 8,
        thread.len() == 4,
    ensures
        ({
            let told = told_by(datagram(head, what, mid, pid, thread, rest, order), order);
            &&& what == 2 ==> told == Some(ProcEvent::Exec { pid })
            &&& what == 0x8000_0000 ==> told == Some(ProcEvent::Exit { pid })
            &&& what != 1 && what != 2 && what != 0x8000_0000 ==> told is None
            &&& what == 1 && rest.len() < 4 ==> told is None
        }),
{
    let b = datagram(head, what, mid, pid, thread, rest, order);
    let w = u32_bytes(what as nat, order);
    let p = i32_bytes(pid, order);
    a_number_is_read_from_its_place(head, what, mid + p + thread + rest, order);
    assert(b =~= head + w + (mid + p + thread + rest));
    a_signed_number_is_read_from_its_place(head + w + mid, pid, thread + rest, order);
    assert(b =~= (head + w + mid) + p + (thread + rest));
}

/// A fork names the parent and the child.
pub proof fn a_fork_is_told_with_both_pids(
    head: Seq<u8>,
    mid: Seq<u8>,
    parent: i32,
    thread: Seq<u8>,
    child: i32,
    rest: Seq<u8>,
    order: ByteOrder,
)
    requires
        head.len() == 16 + 20,
        mid.len() == 4 + 8,
        thread.len() == 4,
    ensures
        told_by(
            datagram(head, 1, mid, parent, thread, i32_bytes(child, order) + rest, order),
            order,
        ) == Some(ProcEvent::Fork { parent, child }),
{
    let c = i32_bytes(child, order);
    let b = datagram(head, 1, mid, parent, thread, c + rest, order);
    let w = u32_bytes(1, order);
    let p = i32_bytes(parent, order);
    a_number_is_read_from_its_place(head, 1, mid + p + thread + c + rest, order);
    assert(b =~= head + w + (mid + p + thread + c + rest));
    a_signed_number_is_read_from_its_place(head + w + mid, parent, thread + c + rest, order);
    assert(b =~= (head + w + mid) + p + (thread + c + rest));
    a_signed_number_is_read_from_its_place(head + w + mid + p + thread, child, rest, order);
    assert(b =~= (head + w + mid + p + thread) + c + rest);
}

/// A datagram that ends before its pid tells of nothing.
pub proof fn a_short_datagram_tells_nothing(b: Seq<u8>, order: ByteOrder)
    requires
        b.len() < 56,
    ensures
        told_by(b, order) is None,
{
}

/// The subscription says of itself how long it is and who sends it, is
/// addressed to the process connector, and asks to listen.
pub proof fn a_subscription_asks_to_listen(pid: u32, order: ByteOrder)
    ensures
        ({
            let s = subscription(pid, order);
            &&& s.len() == 40
            &&& unsigned_at(s, 0, 4, order) == s.len()
            &&& unsigned_at(s, 4, 2, order) == 3
            &&& unsigned_at(s, 12, 4, order) == pid
            &&& unsigned_at(s, 16, 4, order) == 1
            &&& unsigned_at(s, 20, 4, order) == 1
            &&& unsigned_at(s, 32, 2, order) == 4
            &&& unsigned_at(s, 36, 4, order) == 1
            &&& forall|i: int|
                6 <= i < 12 || 24 <= i < 32 || 34 <= i < 36 ==> (#[trigger] s[i]) == 0
        }),
{
    let s = subscription(pid, order);
    let n = u32_bytes(40, order);
    let t = u16_bytes(3, order);
    let p = u32_bytes(pid as nat, order);
    let one = u32_bytes(1, order);
    let four = u16_bytes(4, order);
    a_number_reads_back(40, order);
    a_number_reads_back(1, order);
    a_number_reads_back(pid, order);
    a_short_number_reads_back(3, order);
    a_short_number_reads_back(4, order);
    a_number_is_read_from_its_place(Seq::empty(), 40, Seq::empty(), order);
    a_number_is_read_from_its_place(Seq::empty(), 1, Seq::empty(), order);
    a_number_is_read_from_its_place(Seq::empty(), pid, Seq::empty(), order);
    assert(s.subrange(0, 4) =~= n);
    assert(s.subrange(4, 6) =~= t);
    assert(s.subrange(12, 16) =~= p);
    assert(s.subrange(16, 20) =~= one);
    assert(s.subrange(20, 24) =~= one);
    assert(s.subrange(32, 34) =~= four);
    assert(s.subrange(36, 40) =~= one);
}

// ---------------------------------------------------------------------
// Records
// ---------------------------------------------------------------------
/// The fixed part of a fanotify record.
pub open spec fn fixed_part(
    len: u32,
    two: Seq<u8>,
    meta: u16,
    mask: Seq<u8>,
    fd: i32,
    pid: i32,
    order: ByteOrder,
) -> Seq<u8> {
    u32_bytes(len as nat, order) + two + u16_bytes(meta as nat, order) + mask + i32_bytes(fd, order)
        + i32_bytes(pid, order)
}

/// A record is read as it was written: what happened, the open file, the
/// process, and the names in the information records behind its fixed part.
pub proof fn a_record_is_read_as_written(
    len: u32,
    two: Seq<u8>,
    meta: u16,
    mask: Seq<u8>,
    fd: i32,
    pid: i32,
    infos: Seq<u8>,
    order: ByteOrder,
)
    requires
        two.len() == 2,
        mask.len() == 8,
    ensures
        ({
            let rec = fixed_part(len, two, meta, mask, fd, pid, order) + infos;
            let r = record_of(rec, order);
            &&& record_len(rec, 0, order) == len
            &&& r.mask == bytes_value(mask, order)
            &&& r.fd == fd
            &&& r.pid == pid
            &&& r.names == names_from(rec, meta as int, order)
        }),
{
    let rec = fixed_part(len, two, meta, mask, fd, pid, order) + infos;
    let n = u32_bytes(len as nat, order);
    let m = u16_bytes(meta as nat, order);
    let f = i32_bytes(fd, order);
    let p = i32_bytes(pid, order);
    a_number_is_read_from_its_place(Seq::empty(), len, two + m + mask + f + p + infos, order);
    assert(rec =~= Seq::empty() + n + (two + m + mask + f + p + infos));
    a_short_number_reads_back(meta, order);
    a_signed_number_is_read_from_its_place(n + two + m + mask, fd, p + infos, order);
    assert(rec =~= (n + two + m + mask) + f + (p + infos));
    a_signed_number_is_read_from_its_place(n + two + m + mask + f, pid, infos, order);
    assert(rec =~= (n + two + m + mask + f) + p + infos);
    assert(rec.subrange(6, 8) =~= m);
    assert(rec.subrange(8, 16) =~= mask);
}

/// A record is read the same wherever in the buffer it stands.
proof fn lemma_records_shift(a: Seq<u8>, b: Seq<u8>, at: int, order: ByteOrder)
    requires
        0 <= at,
    ensures
        records_from(a + b, a.len() + at, order) == records_from(b, at, order),
    decreases b.len() - at,
{
    let all = a + b;
    let n = a.len() as int;
    if at + 24 <= b.len() {
        assert(all.subrange(n + at, n + at + 4) =~= b.subrange(at, at + 4));
        assert(record_len(all, n + at, order) == record_len(b, at, order));
        assert(has_record(all, n + at, order) == has_record(b, at, order));
        if has_record(b, at, order) {
            let len = record_len(b, at, order);
            assert(all.subrange(n + at, n + at + len) =~= b.subrange(at, at + len));
            lemma_records_shift(a, b, at + len, order);
        }
    }
}

/// Records that follow each other in a buffer are read one after the other,
/// each whole and none lost.
pub proof fn records_are_read_one_after_the_other(rec: Seq<u8>, more: Seq<u8>, order: ByteOrder)
    requires
        rec.len() >= 24,
        record_len(rec, 0, order) == rec.len(),
    ensures
        records_from(rec + more, 0, order) == seq![record_of(rec, order)] + records_from(
            more,
            0,
            order,
        ),
        records_from(Seq::empty(), 0, order) == Seq::<RecordModel>::empty(),
{
    let all = rec + more;
    assert(all.subrange(0, 4) =~= rec.subrange(0, 4));
    assert(all.subrange(0, rec.len() as int) =~= rec);
    lemma_records_shift(rec, more, 0, order);
}

/// An information record: its kind, its length, the file system, the handle's
/// length, type and bytes, the name with a zero byte behind it, and padding.
pub open spec fn info_record(
    kind: u8,
    pad: u8,
    fsid: Seq<u8>,
    ty: Seq<u8>,
    handle: Seq<u8>,
    name: Seq<u8>,
    fill: Seq<u8>,
    order: ByteOrder,
) -> Seq<u8> {
    seq![kind, pad] + u16_bytes(
        21 + handle.len() + name.len() + fill.len(),
        order,
    ) + fsid + u32_bytes(handle.len(), order) + ty + handle + name + seq![0u8] + fill
}

/// Where the name ends.
proof fn lemma_name_end(rec: Seq<u8>, at: int, n: int, end: int)
    requires
        0 <= at,
        0 <= n,
        at + n < end <= rec.len(),
        forall|i: int| at <= i < at + n ==> (#[trigger] rec[i]) != 0,
        rec[at + n] == 0,
    ensures
        name_end(rec, at, end) == at + n,
    decreases n,
{
    if n > 0 {
        assert(rec[at] != 0);
        lemma_name_end(rec, at + 1, n - 1, end);
    }
}

/// An information record of the kind that names a directory entry gives the
/// directory's handle, as it is to be handed back, and the entry's name up to
/// the zero byte.
pub proof fn an_information_record_gives_its_name(
    pad: u8,
    fsid: Seq<u8>,
    ty: Seq<u8>,
    handle: Seq<u8>,
    name: Seq<u8>,
    fill: Seq<u8>,
    order: ByteOrder,
)
    requires
        fsid.len() == 8,
        ty.len() == 4,
        handle.len() + name.len() + fill.len() < 60000,
        forall|i: int| 0 <= i < name.len() ==> (#[trigger] name[i]) != 0,
    ensures
        names_from(info_record(2, pad, fsid, ty, handle, name, fill, order), 0, order) == seq![
            EntryNameModel {
                handle: u32_bytes(handle.len(), order) + ty + handle,
                name: lossy_text(name),
            },
        ],
{
    let rec = info_record(2, pad, fsid, ty, handle, name, fill, order);
    let len: u16 = (21 + handle.len() + name.len() + fill.len()) as u16;
    let l = u16_bytes(len as nat, order);
    let h = u32_bytes(handle.len(), order);
    a_short_number_reads_back(len, order);
    a_number_is_read_from_its_place(
        seq![2u8, pad] + l + fsid,
        handle.len() as u32,
        ty + handle + name + seq![0u8] + fill,
        order,
    );
    assert(rec =~= (seq![2u8, pad] + l + fsid) + h + (ty + handle + name + seq![0u8] + fill));
    assert(rec.subrange(2, 4) =~= l);
    assert(rec.len() == len);
    assert(info_len(rec, 0, order) == len);
    let at = 20 + handle.len() as int;
    assert(name_at(rec, 0, order) == at);
    assert forall|i: int| at <= i < at + name.len() implies (#[trigger] rec[i]) != 0 by {
        assert(rec[i] == name[i - at]);
    }
    lemma_name_end(rec, at, name.len() as int, len as int);
    assert(rec.subrange(12, at) =~= h + ty + handle);
    assert(rec.subrange(at, at + name.len()) =~= name);
    assert(has_info(rec, 0, order));
    assert(gives_name(rec, 0, order));
    assert(!has_info(rec, len as int, order));
    assert(names_from(rec, len as int, order) =~= Seq::empty());
    assert(names_from(rec, 0, order) =~= seq![name_in(rec, 0, order)]);
}

// ---------------------------------------------------------------------
// Meaning
// ---------------------------------------------------------------------
/// What happened to a directory entry is named by the kernel's bits for it:
/// making goes before removing, that before moving away, that before moving
/// in, and that before other attributes.
pub proof fn entry_changes_are_named_by_their_bits(mask: u64)
    ensures
        mask & 0x100 != 0 <==> entry_op(mask) == "create"@,
        mask & 0x100 == 0 && mask & 0x200 != 0 <==> entry_op(mask) == "delete"@,
        mask & 0x300 == 0 && mask & 0x40 != 0 <==> entry_op(mask) == "moved_from"@,
        mask & 0x340 == 0 && mask & 0x80 != 0 <==> entry_op(mask) == "moved_to"@,
        mask & 0x3c0 == 0 && mask & 0x4 != 0 <==> entry_op(mask) == "attrib"@,
        mask & 0x8 != 0 <==> write_op(mask) == "close_write"@,
        mask & 0x8 == 0 <==> write_op(mask) == "modify"@,
{
    assert(mask & 0x300 == 0 <==> mask & 0x100 == 0 && mask & 0x200 == 0) by (bit_vector);
    assert(mask & 0x340 == 0 <==> mask & 0x100 == 0 && mask & 0x200 == 0 && mask & 0x40 == 0)
        by (bit_vector);
    assert(mask & 0x3c0 == 0 <==> mask & 0x100 == 0 && mask & 0x200 == 0 && mask & 0x40 == 0 && mask
        & 0x80 == 0) by (bit_vector);
    lemma_op_words();
}

proof fn lemma_op_words()
    ensures
        "create"@.len() == 6,
        "delete"@.len() == 6,
        "create"@[0] == 'c',
        "delete"@[0] == 'd',
        "moved_from"@.len() == 10,
        "moved_to"@.len() == 8,
        "attrib"@.len() == 6,
        "attrib"@[0] == 'a',
        "fid_other"@.len() == 9,
        "close_write"@.len() == 11,
        "modify"@.len() == 6,
{
    reveal_strlit("create");
    reveal_strlit("delete");
    reveal_strlit("moved_from");
    reveal_strlit("moved_to");
    reveal_strlit("attrib");
    reveal_strlit("fid_other");
    reveal_strlit("close_write");
    reveal_strlit("modify");
}

/// Noise is what has one of these texts in it, wherever that stands.
pub proof fn noise_is_known_by_its_parts(path: Seq<char>)
    ensures
        is_noise(path) <==> {
            ||| has_part(path, "/.git"@)
            ||| has_part(path, "/target"@)
            ||| has_part(path, "/.cache"@)
            ||| has_part(path, "/node_modules"@)
            ||| has_part(path, ".tmp"@)
            ||| has_part(path, ".swp"@)
            ||| has_part(path, ".lock"@)
        },
{
    let list = blocked_parts();
    assert(list[0] == "/.git"@);
    assert(list[1] == "/target"@);
    assert(list[2] == "/.cache"@);
    assert(list[3] == "/node_modules"@);
    assert(list[4] == ".tmp"@);
    assert(list[5] == ".swp"@);
    assert(list[6] == ".lock"@);
}

/// A directory entry is the name below its directory; an event without a name
/// is about the directory itself.
pub proof fn an_entry_lies_in_its_directory(parent: Seq<char>, name: Seq<char>)
    requires
        parent.len() > 0,
        parent.last() != '/',
    ensures
        entry_path(parent, Seq::empty()) == parent,
        is_name(name) && name != seq!['.'] ==> components(entry_path(parent, name)) == components(
            parent,
        ) + seq![name],
{
    if is_name(name) && name != seq!['.'] {
        reveal_strlit("/");
        assert(name[0] != '/');
        assert(entry_path(parent, name) =~= join_path(parent, name));
        assert(!begins_with_dot(name)) by {
            if begins_with_dot(name) {
                if name.len() > 1 {
                    assert(name[1] != '/');
                }
                assert(name =~= seq!['.']);
            }
        }
        a_name_is_one_component(name);
        joining_appends_components(parent, name);
    }
}

/// What is seen is told as it was seen, with its path and its process. Nothing
/// is told of noise and of the watcher itself, and of all else something is.
pub proof fn what_is_seen_is_told(
    path: Seq<char>,
    parent: Seq<char>,
    name: Seq<char>,
    mask: u64,
    pid: i32,
    own_pid: i32,
)
    ensures
        write_seen(path, mask, pid, own_pid) is Some <==> path.len() > 0 && !is_noise(path) && pid
            != own_pid,
        write_seen(path, mask, pid, own_pid) matches Some(o) ==> o.path == path && o.pid == pid && (
        o.op == "close_write"@ <==> mask & 0x8 != 0),
        entry_seen(parent, name, mask, pid, own_pid) is Some <==> !is_noise(
            entry_path(parent, name),
        ) && pid != own_pid,
        entry_seen(parent, name, mask, pid, own_pid) matches Some(o) ==> o.path == entry_path(
            parent,
            name,
        ) && o.pid == pid && (o.op == "create"@ <==> mask & 0x100 != 0),
{
    entry_changes_are_named_by_their_bits(mask);
}

/// Where a name ends does not depend on where it stands.
proof fn lemma_name_end_shift(a: Seq<u8>, b: Seq<u8>, i: int, end: int)
    requires
        0 <= i,
        end <= b.len(),
    ensures
        name_end(a + b, a.len() + i, a.len() + end) == a.len() + name_end(b, i, end),
        i <= end ==> i <= name_end(b, i, end) <= end,
    decreases end - i,
{
    if i < end {
        assert((a + b)[a.len() + i] == b[i]);
        if b[i] != 0 {
            lemma_name_end_shift(a, b, i + 1, end);
        }
    }
}

/// Information records are read the same wherever they stand.
proof fn lemma_names_shift(a: Seq<u8>, b: Seq<u8>, i: int, order: ByteOrder)
    requires
        0 <= i,
    ensures
        names_from(a + b, a.len() + i, order) == names_from(b, i, order),
    decreases b.len() - i,
{
    let all = a + b;
    let n = a.len() as int;
    if i + 4 <= b.len() {
        assert(all.subrange(n + i + 2, n + i + 4) =~= b.subrange(i + 2, i + 4));
        assert(info_len(all, n + i, order) == info_len(b, i, order));
        assert(has_info(all, n + i, order) == has_info(b, i, order));
        if has_info(b, i, order) {
            let len = info_len(b, i, order);
            let end = i + len;
            assert(all[n + i] == b[i]);
            if handle_at(i) + 8 <= end {
                let h = handle_at(i);
                assert(all.subrange(n + h, n + h + 4) =~= b.subrange(h, h + 4));
                assert(name_at(all, n + i, order) == n + name_at(b, i, order));
                let at = name_at(b, i, order);
                if at <= end {
                    lemma_name_end_shift(a, b, at, end);
                    let z = name_end(b, at, end);
                    assert(all.subrange(n + h, n + at) =~= b.subrange(h, at));
                    assert(all.subrange(n + at, n + z) =~= b.subrange(at, z));
                }
            }
            assert(gives_name(all, n + i, order) == gives_name(b, i, order));
            if gives_name(b, i, order) {
                assert(name_in(all, n + i, order) == name_in(b, i, order));
            }
            lemma_names_shift(a, b, i + len, order);
        }
    }
}

/// Information records that follow each other are read one after the other:
/// behind one that gives a name, and behind one of another kind, which gives
/// none.
pub proof fn information_records_are_read_one_after_the_other(
    kind: u8,
    rec: Seq<u8>,
    more: Seq<u8>,
    order: ByteOrder,
)
    requires
        rec.len() >= 4,
        info_len(rec, 0, order) == rec.len(),
        rec[0] == kind,
    ensures
        names_from(rec + more, rec.len() as int, order) == names_from(more, 0, order),
        kind != 2 ==> names_from(rec + more, 0, order) == names_from(more, 0, order),
        names_from(rec + more, 0, order).len() >= names_from(more, 0, order).len(),
{
    let all = rec + more;
    lemma_names_shift(rec, more, 0, order);
    assert(all.subrange(2, 4) =~= rec.subrange(2, 4));
    assert(all[0] == kind);
    assert(has_info(all, 0, order));
    if kind != 2 {
        assert(names_from(all, 0, order) =~= names_from(more, 0, order));
    }
}

} // verus!
