//! Usage monitoring of outgoing IPv4 packets: which destination a packet
//! goes to, how the per-destination byte counters evolve, and the usage
//! messages handed from the kernel side to the emulation.
use vstd::prelude::*;

verus! {

/// Bytes sent to a destination address, as reported by the monitor.
#[derive(Copy, Clone, Debug, PartialEq, Eq, Structural)]
pub struct Message {
    pub dst: u32,
    pub bytes: u32,
}

/// A destination address.
#[derive(Copy, Clone, PartialEq, Eq, Structural)]
pub struct SocketAddr {
    pub addr: u32,
}

/// Interval, in nanoseconds, after which accumulated usage is reported.
pub const REPORT_INTERVAL_NS: u64 = 5_000_000;

/// Length of an Ethernet header.
pub const ETH_HDR_LEN: usize = 14;

/// Length of an IPv4 header without options.
pub const IPV4_HDR_LEN: usize = 20;

/// Big-endian value of four bytes.
pub open spec fn be_u32(a: u8, b: u8, c: u8, d: u8) -> u32 {
    (a as int * 16777216 + b as int * 65536 + c as int * 256 + d as int) as u32
}

/// Little-endian value of four bytes.
pub open spec fn le_u32(a: u8, b: u8, c: u8, d: u8) -> u32 {
    be_u32(d, c, b, a)
}

fn be_word(a: u8, b: u8, c: u8, d: u8) -> (r: u32)
    ensures
        r == be_u32(a, b, c, d),
        r as int == a as int * 16777216 + b as int * 65536 + c as int * 256 + d as int,
{
    (a as u32) * 16777216 + (b as u32) * 65536 + (c as u32) * 256 + (d as u32)
}

/// Destination of an outgoing frame: the IPv4 destination address when the
/// frame carries IPv4 and is long enough to hold both headers; nothing
/// otherwise.
pub open spec fn destination_of(frame: Seq<u8>) -> Option<SocketAddr> {
    if frame.len() < 14 || !(frame[12] == 8 && frame[13] == 0) || frame.len() < 34 {
        None
    } else {
        Some(SocketAddr { addr: be_u32(frame[30], frame[31], frame[32], frame[33]) })
    }
}

/// Reads the destination of an outgoing frame, see `destination_of`.
pub fn packet_destination(frame: &[u8]) -> (r: Option<SocketAddr>)
    ensures
        r == destination_of(frame@),
{
    if frame.len() < ETH_HDR_LEN {
        return None;
    }
    if !(frame[12] == 8 && frame[13] == 0) {
        return None;
    }
    if frame.len() < ETH_HDR_LEN + IPV4_HDR_LEN {
        return None;
    }
    Some(SocketAddr { addr: be_word(frame[30], frame[31], frame[32], frame[33]) })
}

/// What to record for one destination after a packet: the order of the
/// fields is the order in which the records are written.
#[derive(Copy, Clone, Debug, PartialEq, Eq, Structural)]
pub struct UsageStep {
    /// Usage report to hand to the emulation.
    pub report: Option<Message>,
    /// New accumulated byte count.
    pub usage: Option<u32>,
    /// New time of the last report.
    pub time: Option<u64>,
}

/// The records after a packet of `len` bytes to `dst` at time `now`, given
/// the time of the last report and the accumulated bytes recorded for it.
/// A destination seen for the first time only gets its time; the first
/// count is the length of the second packet; a count is reported, and the
/// time renewed, once more than the report interval has passed.  Counts
/// and times wrap around.
pub open spec fn usage_after(dst: u32, prev_time: Option<u64>, prev_len: Option<u32>, now: u64, len: u32) -> UsageStep {
    match prev_time {
        None => UsageStep { report: None, usage: None, time: Some(now) },
        Some(t) => match prev_len {
            None => UsageStep { report: None, usage: Some(len), time: None },
            Some(p) => {
                let total = ((p + len) % 4294967296) as u32;
                if ((now - t) % 18446744073709551616) as u64 > REPORT_INTERVAL_NS {
                    UsageStep {
                        report: Some(Message { dst, bytes: total }),
                        usage: Some(total),
                        time: Some(now),
                    }
                } else {
                    UsageStep { report: None, usage: Some(total), time: None }
                }
            },
        },
    }
}

/// Decides what one packet changes, see `usage_after`.
pub fn usage_step(dst: u32, prev_time: Option<u64>, prev_len: Option<u32>, now: u64, len: u32) -> (r: UsageStep)
    ensures
        r == usage_after(dst, prev_time, prev_len, now, len),
{
    match prev_time {
        None => UsageStep { report: None, usage: None, time: Some(now) },
        Some(t) => match prev_len {
            None => UsageStep { report: None, usage: Some(len), time: None },
            Some(p) => {
                let total = p.wrapping_add(len);
                let elapsed = now.wrapping_sub(t);
                if elapsed > REPORT_INTERVAL_NS {
                    UsageStep {
                        report: Some(Message { dst, bytes: total }),
                        usage: Some(total),
                        time: Some(now),
                    }
                } else {
                    UsageStep { report: None, usage: Some(total), time: None }
                }
            },
        },
    }
}

/// Size of a perf event holding one message.
pub const EVENT_LEN: usize = 12;

/// The message in a perf event: one of exactly twelve bytes carries the
/// destination and the byte count, each little-endian; any other size is
/// skipped.
pub open spec fn message_in(event: Seq<u8>) -> Option<Message> {
    if event.len() != 12 {
        None
    } else {
        Some(Message {
            dst: le_u32(event[0], event[1], event[2], event[3]),
            bytes: le_u32(event[4], event[5], event[6], event[7]),
        })
    }
}

/// Reads the message of a perf event, see `message_in`.
pub fn message_from_event(event: &[u8]) -> (r: Option<Message>)
    ensures
        r == message_in(event@),
{
    if event.len() != EVENT_LEN {
        return None;
    }
    let dst = be_word(event[3], event[2], event[1], event[0]);
    let bytes = be_word(event[7], event[6], event[5], event[4]);
    Some(Message { dst, bytes })
}

/// Reports carry the sum of the lengths recorded since the count began,
/// modulo 2^32: a report after a count `p` and a packet `len` carries
/// `p + len` wrapped.
pub proof fn lemma_report_accumulates(dst: u32, t: u64, p: u32, now: u64, len: u32)
    requires
        usage_after(dst, Some(t), Some(p), now, len).report is Some,
    ensures
        usage_after(dst, Some(t), Some(p), now, len).report->0.bytes as int == (p as int + len as int) % 4294967296,
        usage_after(dst, Some(t), Some(p), now, len).usage == Some(usage_after(dst, Some(t), Some(p), now, len).report->0.bytes),
        usage_after(dst, Some(t), Some(p), now, len).time == Some(now),
{
}

} // verus!
