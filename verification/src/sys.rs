//! Suspend detection from two system clocks, and the interface on which a
//! datagram came in.

use vstd::prelude::*;

use crate::bytes::{
    bytes32, native_bytes, num32_at, numbers_are_read_in_place, order_of_one, read32, ByteOrder,
};
use crate::time::Duration;

verus! {

/// Minimum jump in `CLOCK_BOOTTIME − CLOCK_MONOTONIC` treated as suspend/resume.
/// Monotonic pauses during sleep; boottime does not, so the skew jumps by the
/// sleep duration. 2 s is well above scheduling noise and well below a real
/// suspend. In nanoseconds.
pub const SUSPEND_SKEW_THRESHOLD: u128 = 2_000_000_000;

/// What the first clock is ahead of the second, nothing where it is behind.
pub open spec fn skew(boot: Duration, mono: Duration) -> int {
    if boot.nanos > mono.nanos {
        boot.nanos - mono.nanos
    } else {
        0
    }
}

/// Accumulated suspend time: `CLOCK_BOOTTIME − CLOCK_MONOTONIC`, zero where a
/// clock cannot be read.
///
/// Both clocks advance together while running; only boottime includes sleep.
pub fn boottime_monotonic_skew(boot: Option<Duration>, mono: Option<Duration>) -> (r: Duration)
    ensures
        r.nanos == (match (boot, mono) {
            (Some(b), Some(m)) => skew(b, m),
            _ => 0,
        }),
{
    match (boot, mono) {
        (Some(b), Some(m)) => {
            if b.nanos > m.nanos {
                Duration { nanos: b.nanos - m.nanos }
            } else {
                Duration { nanos: 0 }
            }
        },
        _ => Duration { nanos: 0 },
    }
}

/// True when the boottime/monotonic skew jumped by at least
/// [`SUSPEND_SKEW_THRESHOLD`] — the process was frozen across suspend.
pub fn suspend_detected(prev_skew: Duration, now_skew: Duration) -> (r: bool)
    ensures
        r == (now_skew.nanos - prev_skew.nanos >= SUSPEND_SKEW_THRESHOLD),
{
    now_skew.nanos >= prev_skew.nanos && now_skew.nanos - prev_skew.nanos
        >= SUSPEND_SKEW_THRESHOLD
}

/// Both clocks advance together while the machine runs, and boottime alone
/// while it sleeps: a sleep is detected exactly if it lasts for the threshold.
pub proof fn sleep_shows_in_skew(boot: Duration, mono: Duration, ran: nat, slept: nat)
    requires
        boot.nanos >= mono.nanos,
        boot.nanos + ran + slept <= u128::MAX,
    ensures
        ({
            let before = skew(boot, mono);
            let after = skew(
                Duration { nanos: (boot.nanos + ran + slept) as u128 },
                Duration { nanos: (mono.nanos + ran) as u128 },
            );
            after - before >= SUSPEND_SKEW_THRESHOLD <==> slept
                >= SUSPEND_SKEW_THRESHOLD
        }),
{
}

pub const IPPROTO_IP: i32 = 0;

pub const IP_PKTINFO: i32 = 8;

pub const IPPROTO_IPV6: i32 = 41;

pub const IPV6_PKTINFO: i32 = 50;

/// One control message of a received datagram.
#[derive(Debug)]
pub struct ControlMessage {
    pub level: i32,
    pub kind: i32,
    pub data: Vec<u8>,
}

/// The index in a control message that tells of the receiving interface: the
/// first field for IPv4, behind the address for IPv6, in the given byte order.
pub open spec fn index_in(msg: ControlMessage, is_v6: bool, order: ByteOrder) -> Option<int> {
    if !is_v6 && msg.level == IPPROTO_IP && msg.kind == IP_PKTINFO && msg.data@.len() >= 4 {
        Some(num32_at(msg.data@, 0, order))
    } else if is_v6 && msg.level == IPPROTO_IPV6 && msg.kind == IPV6_PKTINFO && msg.data@.len()
        >= 20 {
        Some(num32_at(msg.data@, 16, order))
    } else {
        None
    }
}

/// The index in the first control message that tells of the receiving interface.
pub open spec fn first_index(msgs: Seq<ControlMessage>, is_v6: bool, order: ByteOrder) -> Option<
    int,
>
    decreases msgs.len(),
{
    if msgs.len() == 0 {
        None
    } else if index_in(msgs[0], is_v6, order) is Some {
        index_in(msgs[0], is_v6, order)
    } else {
        first_index(msgs.skip(1), is_v6, order)
    }
}

/// Whether an index is what the control messages tell in the given byte order.
pub open spec fn tells_index(
    r: Option<u32>,
    msgs: Seq<ControlMessage>,
    is_v6: bool,
    order: ByteOrder,
) -> bool {
    match r {
        Some(n) => first_index(msgs, is_v6, order) == Some(n as int),
        None => first_index(msgs, is_v6, order) is None,
    }
}

/// Extract ifindex from IP_PKTINFO / IPV6_PKTINFO control messages that were
/// written in the given byte order.
pub fn parse_pktinfo_in(msgs: &[ControlMessage], is_v6: bool, order: ByteOrder) -> (r: Option<
    u32,
>)
    ensures
        tells_index(r, msgs@, is_v6, order),
{
    let mut i: usize = 0;
    proof {
        assert(msgs@.skip(0) =~= msgs@);
    }
    while i < msgs.len()
        invariant
            i <= msgs@.len(),
            first_index(msgs@, is_v6, order) == first_index(msgs@.skip(i as int), is_v6, order),
        decreases msgs@.len() - i,
    {
        let msg = &msgs[i];
        proof {
            assert(msgs@.skip(i as int).skip(1) =~= msgs@.skip(i + 1));
        }
        if !is_v6 && msg.level == IPPROTO_IP && msg.kind == IP_PKTINFO && msg.data.len() >= 4 {
            return Some(read32(&msg.data, 0, order));
        }
        if is_v6 && msg.level == IPPROTO_IPV6 && msg.kind == IPV6_PKTINFO && msg.data.len() >= 20 {
            return Some(read32(&msg.data, 16, order));
        }
        i += 1;
    }
    None
}

/// Extract ifindex from IP_PKTINFO / IPV6_PKTINFO control messages of this
/// machine. [`parse_pktinfo_in`] says what comes of it in either byte order.
pub fn parse_pktinfo_ifindex(msgs: &[ControlMessage], is_v6: bool) -> (r: Option<u32>)
    ensures
        tells_index(r, msgs@, is_v6, ByteOrder::Little) || tells_index(
            r,
            msgs@,
            is_v6,
            ByteOrder::Big,
        ),
{
    parse_pktinfo_in(msgs, is_v6, order_of_one(&native_bytes(1)))
}

/// The index of the receiving interface is the first field of the control
/// message for IPv4 (level 0, kind 8) and stands behind the address in that for
/// IPv6 (level 41, kind 50), in the order in which it was written. Other messages
/// before it do not matter.
pub proof fn receiving_interface_is_told(
    before: Seq<ControlMessage>,
    msg: ControlMessage,
    behind: Seq<ControlMessage>,
    is_v6: bool,
    index: u32,
    address: Seq<u8>,
    rest: Seq<u8>,
    order: ByteOrder,
)
    requires
        forall|k: int|
            0 <= k < before.len() ==> if is_v6 {
                (#[trigger] before[k]).level != 41 || before[k].kind != 50
            } else {
                before[k].level != 0 || before[k].kind != 8
            },
        is_v6 ==> msg.level == 41 && msg.kind == 50 && address.len() == 16 && msg.data@ == address
            + bytes32(index, order) + rest,
        !is_v6 ==> msg.level == 0 && msg.kind == 8 && msg.data@ == bytes32(index, order) + rest,
    ensures
        first_index(before.push(msg) + behind, is_v6, order) == Some(index as int),
        first_index(before, is_v6, order) is None,
    decreases before.len(),
{
    let all = before.push(msg) + behind;
    let none = Seq::<u8>::empty();
    if before.len() == 0 {
        assert(all[0] == msg);
        if is_v6 {
            numbers_are_read_in_place(address, 0, index, rest, order);
        } else {
            numbers_are_read_in_place(none, 0, index, rest, order);
            assert(none + bytes32(index, order) + rest =~= msg.data@);
        }
    } else {
        let less = before.skip(1);
        assert(all[0] == before[0]);
        assert(all.skip(1) =~= less.push(msg) + behind);
        assert forall|k: int| 0 <= k < less.len() implies (if is_v6 {
            (#[trigger] less[k]).level != 41 || less[k].kind != 50
        } else {
            less[k].level != 0 || less[k].kind != 8
        }) by {
            assert(less[k] == before[k + 1]);
        }
        receiving_interface_is_told(less, msg, behind, is_v6, index, address, rest, order);
    }
}

} // verus!
