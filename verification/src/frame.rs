//! Length-prefixed frames: four bytes of length, the least significant first,
//! then the payload.

use vstd::prelude::*;

use crate::bytes::{le32, le32_at, le32_reads_back, push_le32, read_le32};
use crate::error::{Error, ErrorView};
use crate::numeral::{decimal, to_decimal};

verus! {

/// The largest payload on the control sockets of this daemon and of BigFred.
pub const MAX_FRAME: usize = 0x10_0000;

/// The frame of a payload, or why there is none.
pub open spec fn frame_of(payload: Seq<u8>, max: usize) -> Result<Seq<u8>, ErrorView> {
    if payload.len() > max {
        Err(
            ErrorView::Ipc(
                "frame length "@ + decimal(payload.len()) + " exceeds max "@ + decimal(max as nat),
            ),
        )
    } else if payload.len() > 0xffff_ffff {
        Err(ErrorView::Ipc("frame too large for u32 length prefix"@))
    } else {
        Ok(le32(payload.len() as u32) + payload)
    }
}

/// The payload length that a frame header announces, or why it is refused.
pub open spec fn length_in(header: Seq<u8>, max: usize) -> Result<nat, ErrorView> {
    let len = le32_at(header, 0);
    if len > max {
        Err(ErrorView::Ipc("frame length "@ + decimal(len as nat) + " too large"@))
    } else {
        Ok(len as nat)
    }
}

/// The frame of a payload.
pub fn encode_frame(payload: &[u8], max: usize) -> (r: Result<Vec<u8>, Error>)
    ensures
        match r {
            Ok(out) => frame_of(payload@, max) == Ok::<Seq<u8>, ErrorView>(out@),
            Err(e) => frame_of(payload@, max) == Err::<Seq<u8>, ErrorView>(e@),
        },
{
    let n: usize = payload.len();
    if n > max {
        let mut m = "frame length ".to_owned();
        m.append(to_decimal(n as u64).as_str());
        m.append(" exceeds max ");
        m.append(to_decimal(max as u64).as_str());
        return Err(Error::Ipc(m));
    }
    if n as u64 > 0xffff_ffff {
        return Err(Error::Ipc("frame too large for u32 length prefix".to_owned()));
    }
    let mut out: Vec<u8> = Vec::new();
    push_le32(&mut out, n as u32);
    out.extend_from_slice(payload);
    proof {
        assert(out@ =~= le32(n as u32) + payload@);
    }
    Ok(out)
}

/// The payload length that the four bytes of a frame header announce.
pub fn frame_length(header: &[u8], max: usize) -> (r: Result<usize, Error>)
    requires
        header@.len() == 4,
    ensures
        match r {
            Ok(n) => length_in(header@, max) == Ok::<nat, ErrorView>(n as nat),
            Err(e) => length_in(header@, max) == Err::<nat, ErrorView>(e@),
        },
{
    let n: usize = read_le32(header, 0) as usize;
    if n > max {
        let mut m = "frame length ".to_owned();
        m.append(to_decimal(n as u64).as_str());
        m.append(" too large");
        return Err(Error::Ipc(m));
    }
    Ok(n)
}

/// A reader with the same limit accepts every frame that can be written, and
/// finds the payload behind the header.
pub proof fn frame_reads_back(payload: Seq<u8>, max: usize)
    requires
        frame_of(payload, max) is Ok,
    ensures
        ({
            let frame = frame_of(payload, max)->Ok_0;
            &&& frame.len() == 4 + payload.len()
            &&& length_in(frame.take(4), max) == Ok::<nat, ErrorView>(payload.len())
            &&& frame.skip(4) == payload
        }),
{
    let frame = frame_of(payload, max)->Ok_0;
    let n = payload.len() as u32;
    le32_reads_back(n, Seq::empty());
    assert(le32(n) + Seq::<u8>::empty() =~= le32(n));
    assert(frame.take(4) =~= le32(n));
    assert(frame.skip(4) =~= payload);
}

} // verus!
