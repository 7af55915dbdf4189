//! The kernel's process connector: the message that subscribes to it, and
//! the datagrams that it sends.
//!
//! A datagram holds a netlink header of 16 bytes and a connector header of
//! 20. Behind them stand what happened at 36, a processor number, a time, and
//! from 52 on the pids: of an exec or an exit the process, of a fork the
//! parent, and at 60 the child.
use crate::bytes::{
    push_u16, push_u32, read_i32, read_u32, signed_at, u16_bytes, u32_bytes, unsigned_at, ByteOrder,
};
use vstd::prelude::*;

verus! {

pub const NLMSG_DONE: u16 = 3;

pub const CN_IDX_PROC: u32 = 1;

pub const CN_VAL_PROC: u32 = 1;

pub const PROC_CN_MCAST_LISTEN: u32 = 1;

pub const PROC_EVENT_FORK: u32 = 0x0000_0001;

pub const PROC_EVENT_EXEC: u32 = 0x0000_0002;

pub const PROC_EVENT_EXIT: u32 = 0x8000_0000;

/// The size of a netlink header.
pub const NETLINK_HEADER_SIZE: usize = 16;

/// The size of a connector header.
pub const CONNECTOR_HEADER_SIZE: usize = 20;

/// The size of the subscription's payload.
pub const PAYLOAD_SIZE: usize = 4;

/// Where a datagram says what happened.
pub const WHAT_AT: usize = 36;

/// Where a datagram gives the process, or the parent of a fork.
pub const PID_AT: usize = 52;

/// Where a datagram gives the child of a fork.
pub const CHILD_AT: usize = 60;

/// `n` zero bytes.
pub open spec fn zeros(n: nat) -> Seq<u8> {
    Seq::new(n, |i: int| 0u8)
}

/// The message that subscribes to the connector.
pub open spec fn subscription(self_pid: u32, order: ByteOrder) -> Seq<u8> {
    // Netlink header: length, type, flags, sequence number, sender.
    u32_bytes(40, order) + u16_bytes(NLMSG_DONE as nat, order) + zeros(6) + u32_bytes(
        self_pid as nat,
        order,
    )
    // Connector header: index, value, sequence number, acknowledgement,
    // payload length, flags.
     + u32_bytes(CN_IDX_PROC as nat, order) + u32_bytes(CN_VAL_PROC as nat, order) + zeros(8)
        + u16_bytes(PAYLOAD_SIZE as nat, order) + zeros(2)
    // Payload.
     + u32_bytes(PROC_CN_MCAST_LISTEN as nat, order)
}

fn push_zeros(out: &mut Vec<u8>, n: usize)
    ensures
        final(out)@ == old(out)@ + zeros(n as nat),
{
    let ghost before = out@;
    let mut i: usize = 0;
    assert(out@ =~= before + zeros(0));
    while i < n
        invariant
            i <= n,
            out@ == before + zeros(i as nat),
        decreases n - i,
    {
        out.push(0);
        i += 1;
        assert(out@ =~= before + zeros(i as nat));
    }
}

/// The message that subscribes to the connector.
pub fn subscribe_message(self_pid: u32, order: ByteOrder) -> (r: Vec<u8>)
    ensures
        r@ == subscription(self_pid, order),
        r@.len() == NETLINK_HEADER_SIZE + CONNECTOR_HEADER_SIZE + PAYLOAD_SIZE,
{
    let mut out: Vec<u8> = Vec::new();
    let total = (NETLINK_HEADER_SIZE + CONNECTOR_HEADER_SIZE + PAYLOAD_SIZE) as u32;
    push_u32(&mut out, total, order);
    push_u16(&mut out, NLMSG_DONE, order);
    push_zeros(&mut out, 6);
    push_u32(&mut out, self_pid, order);
    push_u32(&mut out, CN_IDX_PROC, order);
    push_u32(&mut out, CN_VAL_PROC, order);
    push_zeros(&mut out, 8);
    push_u16(&mut out, PAYLOAD_SIZE as u16, order);
    push_zeros(&mut out, 2);
    push_u32(&mut out, PROC_CN_MCAST_LISTEN, order);
    assert(out@ =~= subscription(self_pid, order));
    out
}

/// What happened to a process.
#[derive(Debug, Clone, Copy, PartialEq, Eq, Structural)]
pub enum ProcEvent {
    Fork { parent: i32, child: i32 },
    Exec { pid: i32 },
    Exit { pid: i32 },
}

/// What a datagram tells, if it is long enough to tell it.
pub open spec fn told_by(b: Seq<u8>, order: ByteOrder) -> Option<ProcEvent> {
    if b.len() < PID_AT + 4 {
        None
    } else {
        let what = unsigned_at(b, WHAT_AT as int, 4, order);
        let pid = signed_at(b, PID_AT as int, order) as i32;
        if what == PROC_EVENT_FORK {
            if b.len() < CHILD_AT + 4 {
                None
            } else {
                Some(
                    ProcEvent::Fork {
                        parent: pid,
                        child: signed_at(b, CHILD_AT as int, order) as i32,
                    },
                )
            }
        } else if what == PROC_EVENT_EXEC {
            Some(ProcEvent::Exec { pid })
        } else if what == PROC_EVENT_EXIT {
            Some(ProcEvent::Exit { pid })
        } else {
            None
        }
    }
}

/// What a datagram tells. Other news than forks, execs and exits are ignored,
/// and so is a datagram that is too short.
pub fn read_datagram(b: &Vec<u8>, order: ByteOrder) -> (r: Option<ProcEvent>)
    ensures
        r == told_by(b@, order),
{
    if b.len() < PID_AT + 4 {
        return None;
    }
    let what = read_u32(b, WHAT_AT, order);
    let pid = read_i32(b, PID_AT, order);
    if what == PROC_EVENT_FORK {
        if b.len() < CHILD_AT + 4 {
            return None;
        }
        let child = read_i32(b, CHILD_AT, order);
        Some(ProcEvent::Fork { parent: pid, child })
    } else if what == PROC_EVENT_EXEC {
        Some(ProcEvent::Exec { pid })
    } else if what == PROC_EVENT_EXIT {
        Some(ProcEvent::Exit { pid })
    } else {
        None
    }
}

} // verus!
