//! Z21 LAN discovery beacon: LAN_GET_SERIAL_NUMBER reply frames.
//!
//! Frame format: `DataLen(u16 LE) + Header(u16 LE=0x0010) + serial(u32 LE)`.
//! Default serial when no layout: `258_000_000`.

use vstd::prelude::*;

use crate::bytes::{le16, le16_at, le32, le32_at, push_le16, push_le32};
use crate::error::{Error, ErrorView};

verus! {

/// HeaderGetSerialNumber = 0x0010
pub const HEADER_GET_SERIAL_NUMBER: u16 = 0x0010;

/// VirtualSerial default when no layout: 258_000_000
pub const DEFAULT_VIRTUAL_SERIAL: u32 = 258_000_000;

/// The time between two broadcasts, in milliseconds.
pub const BEACON_INTERVAL_MS: u64 = 2000;

/// The serial of a command station in a layout, in 32-bit arithmetic.
pub open spec fn serial_of(layout_id: u32, command_station_id: u32) -> int {
    (DEFAULT_VIRTUAL_SERIAL + layout_id * 1000 + command_station_id) % 0x1_0000_0000
}

/// The virtual serial of a command station in a layout.
pub fn virtual_serial(layout_id: u32, command_station_id: u32) -> (r: u32)
    ensures
        r == serial_of(layout_id, command_station_id),
{
    let sum: u64 = DEFAULT_VIRTUAL_SERIAL as u64 + layout_id as u64 * 1000
        + command_station_id as u64;
    (sum % 0x1_0000_0000) as u32
}

/// A reply: its own length, the header and the data.
pub open spec fn reply_frame(header: u16, data: Seq<u8>) -> Seq<u8> {
    le16((4 + data.len()) as u16) + le16(header) + data
}

/// Build a LAN_GET_SERIAL_NUMBER reply frame for `serial`.
pub fn serial_reply(serial: u32) -> (r: Vec<u8>)
    ensures
        r@ == reply_frame(HEADER_GET_SERIAL_NUMBER, le32(serial)),
        r@.len() == 8,
{
    let mut data: Vec<u8> = Vec::new();
    push_le32(&mut data, serial);
    proof {
        assert(data@ =~= le32(serial));
    }
    build_reply(HEADER_GET_SERIAL_NUMBER, &data)
}

fn build_reply(header: u16, data: &[u8]) -> (r: Vec<u8>)
    requires
        data@.len() <= 0xfffb,
    ensures
        r@ == reply_frame(header, data@),
{
    let mut out: Vec<u8> = Vec::new();
    push_le16(&mut out, (4 + data.len()) as u16);
    push_le16(&mut out, header);
    out.extend_from_slice(data);
    proof {
        assert(out@ =~= reply_frame(header, data@));
    }
    out
}

/// Whether a beacon can be started: it needs a port and a frame.
pub fn check(port: u16, frame: &[u8]) -> (r: Result<(), Error>)
    ensures
        match r {
            Ok(_) => port != 0 && frame@.len() > 0,
            Err(e) => if port == 0 {
                e@ == ErrorView::Other("beacon port must be non-zero"@)
            } else {
                frame@.len() == 0 && e@ == ErrorView::Other("beacon frame must not be empty"@)
            },
        },
{
    if port == 0 {
        return Err(Error::Other("beacon port must be non-zero".to_owned()));
    }
    if frame.len() == 0 {
        return Err(Error::Other("beacon frame must not be empty".to_owned()));
    }
    Ok(())
}

/// Different command stations of one layout have different serials.
pub proof fn serials_differ(layout_id: u32, a: u32, b: u32)
    requires
        a != b,
    ensures
        serial_of(layout_id, a) != serial_of(layout_id, b),
{
    let base = DEFAULT_VIRTUAL_SERIAL + layout_id * 1000;
    if serial_of(layout_id, a) == serial_of(layout_id, b) {
        vstd::arithmetic::div_mod::lemma_fundamental_div_mod(base + a, 0x1_0000_0000);
        vstd::arithmetic::div_mod::lemma_fundamental_div_mod(base + b, 0x1_0000_0000);
        let d = (base + a) / 0x1_0000_0000 - (base + b) / 0x1_0000_0000;
        assert(a - b == 0x1_0000_0000 * d);
    }
}

/// A reply tells its own length, its header and the serial.
pub proof fn serial_reads_back(serial: u32)
    ensures
        ({
            let frame = reply_frame(HEADER_GET_SERIAL_NUMBER, le32(serial));
            &&& frame.len() == 8
            &&& le16_at(frame, 0) == frame.len()
            &&& le16_at(frame, 2) == HEADER_GET_SERIAL_NUMBER
            &&& le32_at(frame, 4) == serial
        }),
{
    let frame = reply_frame(HEADER_GET_SERIAL_NUMBER, le32(serial));
    let d = le32(serial);
    assert(d[0] == (serial % 256) as u8);
    assert(d[1] == (serial / 256 % 256) as u8);
    assert(d[2] == (serial / 0x1_0000 % 256) as u8);
    assert(d[3] == (serial / 0x100_0000) as u8);
    assert(frame[4] == d[0] && frame[5] == d[1] && frame[6] == d[2] && frame[7] == d[3]);
}

/// Serials count up: from station to station by one, from layout to layout by
/// a thousand, beginning at 258 000 000, and around where 32 bits end.
pub proof fn serials_count_up(layout_id: u32, command_station_id: u32)
    ensures
        serial_of(0, 0) == 258_000_000,
        command_station_id < u32::MAX ==> serial_of(
            layout_id,
            (command_station_id + 1) as u32,
        ) == (serial_of(layout_id, command_station_id) + 1) % 0x1_0000_0000,
        layout_id < u32::MAX ==> serial_of((layout_id + 1) as u32, command_station_id) == (
        serial_of(layout_id, command_station_id) + 1000) % 0x1_0000_0000,
{
}

/// What is broadcast for a serial: eight bytes that tell their own number, the
/// header 0x10 and the serial, the least significant byte first.
pub proof fn beacon_bytes_are_exact(serial: u32)
    ensures
        ({
            let frame = reply_frame(HEADER_GET_SERIAL_NUMBER, le32(serial));
            &&& frame.len() == 8
            &&& frame[0] == 8 && frame[1] == 0
            &&& frame[2] == 0x10 && frame[3] == 0
            &&& serial == frame[4] + 256 * (frame[5] + 256 * (frame[6] + 256 * frame[7]))
        }),
{
    serial_reads_back(serial);
    let frame = reply_frame(HEADER_GET_SERIAL_NUMBER, le32(serial));
    assert(frame[0] == 8 && frame[1] == 0 && frame[2] == 0x10 && frame[3] == 0);
}

} // verus!
