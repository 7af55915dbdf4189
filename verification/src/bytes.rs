//! Numbers in the kernel's messages, in the machine's byte order.
use vstd::prelude::*;

verus! {

/// The order in which the bytes of a number stand.
#[derive(Debug, Clone, Copy, PartialEq, Eq, Structural)]
pub enum ByteOrder {
    Little,
    Big,
}

/// The number that a run of bytes writes, least significant byte first.
pub open spec fn little_value(s: Seq<u8>) -> nat
    decreases s.len(),
{
    if s.len() == 0 {
        0
    } else {
        s[0] as nat + 256 * little_value(s.skip(1))
    }
}

/// The number that a run of bytes writes.
pub open spec fn bytes_value(s: Seq<u8>, order: ByteOrder) -> nat {
    match order {
        ByteOrder::Little => little_value(s),
        ByteOrder::Big => little_value(s.reverse()),
    }
}

/// The unsigned number in the `n` bytes from position `at` on.
pub open spec fn unsigned_at(b: Seq<u8>, at: int, n: int, order: ByteOrder) -> nat {
    bytes_value(b.subrange(at, at + n), order)
}

/// The signed number in the four bytes from position `at` on.
pub open spec fn signed_at(b: Seq<u8>, at: int, order: ByteOrder) -> int {
    let v = unsigned_at(b, at, 4, order) as int;
    if v < 0x8000_0000 {
        v
    } else {
        v - 0x1_0000_0000
    }
}

proof fn lemma_little_two(s: Seq<u8>)
    requires
        s.len() == 2,
    ensures
        little_value(s) == s[0] + 256 * s[1],
{
    reveal_with_fuel(little_value, 3);
}

proof fn lemma_little_four(s: Seq<u8>)
    requires
        s.len() == 4,
    ensures
        little_value(s) == s[0] + 256 * (s[1] + 256 * (s[2] + 256 * s[3])),
{
    reveal_with_fuel(little_value, 5);
}

/// The two-byte number at position `at`.
pub fn read_u16(b: &Vec<u8>, at: usize, order: ByteOrder) -> (r: u16)
    requires
        at + 2 <= b@.len(),
    ensures
        r == unsigned_at(b@, at as int, 2, order),
{
    let n = b.len();
    let ghost s = b@.subrange(at as int, at + 2);
    proof {
        lemma_little_two(s);
        lemma_little_two(s.reverse());
    }
    match order {
        ByteOrder::Little => b[at] as u16 + 256 * (b[at + 1] as u16),
        ByteOrder::Big => b[at + 1] as u16 + 256 * (b[at] as u16),
    }
}

/// The four-byte number at position `at`.
pub fn read_u32(b: &Vec<u8>, at: usize, order: ByteOrder) -> (r: u32)
    requires
        at + 4 <= b@.len(),
    ensures
        r == unsigned_at(b@, at as int, 4, order),
{
    let n = b.len();
    let ghost s = b@.subrange(at as int, at + 4);
    proof {
        lemma_little_four(s);
        lemma_little_four(s.reverse());
    }
    match order {
        ByteOrder::Little => b[at] as u32 + 256 * (b[at + 1] as u32 + 256 * (b[at + 2] as u32 + 256
            * (b[at + 3] as u32))),
        ByteOrder::Big => b[at + 3] as u32 + 256 * (b[at + 2] as u32 + 256 * (b[at + 1] as u32 + 256
            * (b[at] as u32))),
    }
}

/// The signed four-byte number at position `at`.
pub fn read_i32(b: &Vec<u8>, at: usize, order: ByteOrder) -> (r: i32)
    requires
        at + 4 <= b@.len(),
    ensures
        r == signed_at(b@, at as int, order),
{
    let v = read_u32(b, at, order);
    if v < 0x8000_0000 {
        v as i32
    } else {
        (v as i64 - 0x1_0000_0000) as i32
    }
}

proof fn lemma_little_eight(s: Seq<u8>)
    requires
        s.len() == 8,
    ensures
        little_value(s) == little_value(s.subrange(0, 4)) + 0x1_0000_0000 * little_value(
            s.subrange(4, 8),
        ),
{
    reveal_with_fuel(little_value, 9);
    lemma_little_four(s.subrange(0, 4));
    lemma_little_four(s.subrange(4, 8));
}

/// The eight-byte number at position `at`.
pub fn read_u64(b: &Vec<u8>, at: usize, order: ByteOrder) -> (r: u64)
    requires
        at + 8 <= b@.len(),
    ensures
        r == unsigned_at(b@, at as int, 8, order),
{
    let n = b.len();
    let first = read_u32(b, at, order);
    let second = read_u32(b, at + 4, order);
    proof {
        let s = b@.subrange(at as int, at + 8);
        let a = b@.subrange(at as int, at + 4);
        let c = b@.subrange(at + 4, at + 8);
        lemma_little_eight(s);
        lemma_little_eight(s.reverse());
        assert(s.subrange(0, 4) =~= a);
        assert(s.subrange(4, 8) =~= c);
        assert(s.reverse().subrange(0, 4) =~= c.reverse());
        assert(s.reverse().subrange(4, 8) =~= a.reverse());
    }
    match order {
        ByteOrder::Little => first as u64 + 0x1_0000_0000 * (second as u64),
        ByteOrder::Big => second as u64 + 0x1_0000_0000 * (first as u64),
    }
}

/// The bytes of a two-byte number.
pub open spec fn u16_bytes(v: nat, order: ByteOrder) -> Seq<u8> {
    let little = seq![(v % 256) as u8, (v / 256 % 256) as u8];
    match order {
        ByteOrder::Little => little,
        ByteOrder::Big => little.reverse(),
    }
}

/// The bytes of a four-byte number.
pub open spec fn u32_bytes(v: nat, order: ByteOrder) -> Seq<u8> {
    let little = seq![
        (v % 256) as u8,
        (v / 256 % 256) as u8,
        (v / 65536 % 256) as u8,
        (v / 16777216 % 256) as u8,
    ];
    match order {
        ByteOrder::Little => little,
        ByteOrder::Big => little.reverse(),
    }
}

/// Appends a two-byte number.
pub fn push_u16(out: &mut Vec<u8>, v: u16, order: ByteOrder)
    ensures
        final(out)@ == old(out)@ + u16_bytes(v as nat, order),
{
    let ghost before = out@;
    let low = (v % 256) as u8;
    let high = (v / 256 % 256) as u8;
    match order {
        ByteOrder::Little => {
            out.push(low);
            out.push(high);
        },
        ByteOrder::Big => {
            out.push(high);
            out.push(low);
        },
    }
    assert(out@ =~= before + u16_bytes(v as nat, order));
}

/// Appends a four-byte number.
pub fn push_u32(out: &mut Vec<u8>, v: u32, order: ByteOrder)
    ensures
        final(out)@ == old(out)@ + u32_bytes(v as nat, order),
{
    let ghost before = out@;
    let b0 = (v % 256) as u8;
    let b1 = (v / 256 % 256) as u8;
    let b2 = (v / 65536 % 256) as u8;
    let b3 = (v / 16777216 % 256) as u8;
    match order {
        ByteOrder::Little => {
            out.push(b0);
            out.push(b1);
            out.push(b2);
            out.push(b3);
        },
        ByteOrder::Big => {
            out.push(b3);
            out.push(b2);
            out.push(b1);
            out.push(b0);
        },
    }
    assert(out@ =~= before + u32_bytes(v as nat, order));
}

/// What is written is read back.
pub proof fn a_number_reads_back(v: u32, order: ByteOrder)
    ensures
        bytes_value(u32_bytes(v as nat, order), order) == v,
{
    let s = u32_bytes(v as nat, order);
    let little = u32_bytes(v as nat, ByteOrder::Little);
    lemma_little_four(little);
    assert(s.reverse() =~= little || s =~= little);
    assert(u32_bytes(v as nat, ByteOrder::Big).reverse() =~= little);
    let n = v as nat;
    assert(n % 256 + 256 * (n / 256 % 256 + 256 * (n / 65536 % 256 + 256 * (n / 16777216 % 256)))
        == n) by {
        assert(n / 65536 == n / 256 / 256);
        assert(n / 16777216 == n / 65536 / 256);
        assert(n / 16777216 < 256);
    }
}

} // verus!
