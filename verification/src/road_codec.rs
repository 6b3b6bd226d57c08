//! The speed daemon's wire codec: variable-length frames with a one-byte
//! opcode and big-endian integers.
//!
//! The decoder is streaming: on a partial frame it consumes nothing and
//! reports that more bytes are needed; on success it consumes exactly one
//! frame; an unknown opcode is a framing error.
use vstd::prelude::*;

use crate::numfmt::dec_digits;
use crate::numfmt::u64_to_string;
use crate::ticket::Ticket;
use vstd::utf8::encode_utf8;
use vstd::utf8::valid_utf8;

verus! {

/// A message from the server to a client.
#[derive(Debug, PartialEq)]
pub enum RespValue {
    Error(String),
    Ticket(Ticket),
    Heartbeat,
}

/// A message from a client to the server.
#[derive(Debug, PartialEq)]
pub enum ReqValue {
    Plate(String, u32),
    WantHeartbeat(u32),
    IAmCamera(u16, u16, u16),
    IAmDispatcher(Vec<u16>),
    ReqError(String),
}

/// Why a frame could not be decoded.
#[derive(Debug, PartialEq)]
pub enum DecodeError {
    UnknownOpcode(u8),
    BadPlateText,
}

/// The error text of a decoding failure.
pub open spec fn spec_decode_error_message(e: DecodeError) -> Seq<char> {
    match e {
        DecodeError::UnknownOpcode(b) => "Unknown Req type "@ + dec_digits(b as int),
        DecodeError::BadPlateText => "Plate is not text"@,
    }
}

impl DecodeError {
    /// The error text, as the server reports it to the client.
    pub fn message(&self) -> (s: String)
        ensures
            s@ == spec_decode_error_message(*self),
    {
        match self {
            DecodeError::UnknownOpcode(b) => {
                let mut s = String::from_str("Unknown Req type ");
                let digits = u64_to_string(*b as u64);
                s.append(digits.as_str());
                s
            },
            DecodeError::BadPlateText => String::from_str("Plate is not text"),
        }
    }
}

/// Why a message could not be encoded.
#[derive(Debug, PartialEq)]
pub enum EncodeError {
    TooLong,
}

/// The big-endian 16-bit value at offset `i`.
pub open spec fn be16(b: Seq<u8>, i: int) -> int {
    b[i] * 256 + b[i + 1]
}

/// The big-endian 32-bit value at offset `i`.
pub open spec fn be32(b: Seq<u8>, i: int) -> int {
    b[i] * 16777216 + b[i + 1] * 65536 + b[i + 2] * 256 + b[i + 3]
}

/// The buffer does not yet hold one whole frame: the decoder must wait
/// for more bytes. An unknown leading opcode never waits.
pub open spec fn needs_more(b: Seq<u8>) -> bool {
    if b.len() == 0 {
        true
    } else if b[0] == 0x20 {
        b.len() < 2 || b.len() < 2 + b[1] + 4
    } else if b[0] == 0x40 {
        b.len() < 5
    } else if b[0] == 0x80 {
        b.len() < 7
    } else if b[0] == 0x81 {
        b.len() < 2 || b.len() < 2 + 2 * b[1]
    } else {
        false
    }
}

/// Whether the buffer holds at least one whole frame (or starts with an
/// opcode that can never complete into one).
pub fn frame_finished(src: &Vec<u8>) -> (r: bool)
    ensures
        r == !needs_more(src@),
{
    if src.len() == 0 {
        return false;
    }
    let op = src[0];
    if op == 0x20 {
        if src.len() < 2 {
            return false;
        }
        let length = src[1] as usize;
        src.len() >= 2 + length + 4
    } else if op == 0x40 {
        src.len() >= 5
    } else if op == 0x80 {
        src.len() >= 7
    } else if op == 0x81 {
        if src.len() < 2 {
            return false;
        }
        let count = src[1] as usize;
        src.len() >= 2 + count * 2
    } else {
        true
    }
}

/// Drops the first `n` bytes of the buffer.
pub(crate) fn drain_front(src: &mut Vec<u8>, n: usize)
    requires
        n <= old(src)@.len(),
    ensures
        final(src)@ == old(src)@.skip(n as int),
{
    let ghost b0 = src@;
    let mut rest: Vec<u8> = Vec::new();
    let mut i: usize = n;
    while i < src.len()
        invariant
            src@ == b0,
            n <= i <= b0.len(),
            rest@ =~= b0.subrange(n as int, i as int),
        decreases b0.len() - i,
    {
        let byte = src[i];
        rest.push(byte);
        proof {
            assert(rest@ =~= b0.subrange(n as int, i + 1));
        }
        i += 1;
    }
    proof {
        assert(rest@ =~= b0.skip(n as int));
    }
    *src = rest;
}

/// The big-endian 16-bit value at offset `i`.
fn read_be16(src: &Vec<u8>, i: usize) -> (r: u16)
    requires
        i + 2 <= src@.len(),
    ensures
        r == be16(src@, i as int),
{
    let n = src.len();
    (src[i] as u16) * 256 + (src[i + 1] as u16)
}

/// The big-endian 32-bit value at offset `i`.
fn read_be32(src: &Vec<u8>, i: usize) -> (r: u32)
    requires
        i + 4 <= src@.len(),
    ensures
        r == be32(src@, i as int),
{
    let n = src.len();
    (src[i] as u32) * 16777216 + (src[i + 1] as u32) * 65536 + (src[i + 2] as u32) * 256 + (src[i
        + 3] as u32)
}

/// Relies on `String::from_utf8`: it succeeds exactly on valid UTF-8 and
/// the returned string's byte encoding is the input.
#[verifier::external_body]
pub(crate) fn bytes_to_string(v: Vec<u8>) -> (r: Option<String>)
    ensures
        r is Some <==> valid_utf8(v@),
        r is Some ==> encode_utf8(r->0@) == v@,
{
    match String::from_utf8(v) {
        Ok(s) => Some(s),
        Err(_) => None,
    }
}

/// The stateless frame codec of the speed daemon.
pub struct Codec;

impl Codec {
    /// Decodes at most one frame from the front of `src`. A partial frame
    /// consumes nothing; a decoded frame is consumed exactly; an unknown
    /// opcode consumes that byte and is a fatal framing error.
    pub fn decode(&mut self, src: &mut Vec<u8>) -> (r: Result<Option<ReqValue>, DecodeError>)
        ensures
            match r {
                Ok(None) => needs_more(old(src)@) && final(src)@ == old(src)@,
                Ok(Some(v)) => !needs_more(old(src)@) && match v {
                    ReqValue::WantHeartbeat(x) => old(src)@[0] == 0x40 && x == be32(old(src)@, 1)
                        && final(src)@ == old(src)@.skip(5),
                    ReqValue::IAmCamera(road, mile, limit) => old(src)@[0] == 0x80 && road == be16(
                        old(src)@,
                        1,
                    ) && mile == be16(old(src)@, 3) && limit == be16(old(src)@, 5) && final(src)@
                        == old(src)@.skip(7),
                    ReqValue::IAmDispatcher(roads) => old(src)@[0] == 0x81 && roads@.len() == old(
                        src,
                    )@[1] && (forall|i: int|
                        0 <= i < roads@.len() ==> #[trigger] roads@[i] == be16(
                            old(src)@,
                            2 + 2 * i,
                        )) && final(src)@ == old(src)@.skip(2 + 2 * old(src)@[1]),
                    ReqValue::Plate(plate, ts) => old(src)@[0] == 0x20 && encode_utf8(plate@)
                        == old(src)@.subrange(2, 2 + old(src)@[1]) && ts == be32(
                        old(src)@,
                        2 + old(src)@[1],
                    ) && final(src)@ == old(src)@.skip(2 + old(src)@[1] + 4),
                    ReqValue::ReqError(_) => false,
                },
                Err(e) => match e {
                    DecodeError::UnknownOpcode(b) => old(src)@.len() > 0 && b == old(src)@[0] && b
                        != 0x20 && b != 0x40 && b != 0x80 && b != 0x81 && final(src)@ == old(
                        src,
                    )@.skip(1),
                    DecodeError::BadPlateText => !needs_more(old(src)@) && old(src)@[0] == 0x20
                        && !valid_utf8(old(src)@.subrange(2, 2 + old(src)@[1])) && final(src)@
                        == old(src)@.skip(2 + old(src)@[1]),
                },
            },
    {
        if !frame_finished(src) {
            return Ok(None);
        }
        let op = src[0];
        if op == 0x40 {
            let x = read_be32(src, 1);
            drain_front(src, 5);
            Ok(Some(ReqValue::WantHeartbeat(x)))
        } else if op == 0x80 {
            let road = read_be16(src, 1);
            let mile = read_be16(src, 3);
            let limit = read_be16(src, 5);
            drain_front(src, 7);
            Ok(Some(ReqValue::IAmCamera(road, mile, limit)))
        } else if op == 0x81 {
            let count = src[1] as usize;
            let mut roads: Vec<u16> = Vec::new();
            let mut i: usize = 0;
            while i < count
                invariant
                    src@ == old(src)@,
                    src@.len() >= 2 + 2 * count,
                    count <= 255,
                    i <= count,
                    roads@.len() == i,
                    forall|k: int| 0 <= k < i ==> #[trigger] roads@[k] == be16(src@, 2 + 2 * k),
                decreases count - i,
            {
                let road = read_be16(src, 2 + 2 * i);
                roads.push(road);
                i += 1;
            }
            drain_front(src, 2 + 2 * count);
            Ok(Some(ReqValue::IAmDispatcher(roads)))
        } else if op == 0x20 {
            let len = src[1] as usize;
            let mut plate_bytes: Vec<u8> = Vec::new();
            let mut i: usize = 0;
            while i < len
                invariant
                    src@ == old(src)@,
                    src@.len() >= 2 + len + 4,
                    len <= 255,
                    i <= len,
                    plate_bytes@ =~= src@.subrange(2, 2 + i),
                decreases len - i,
            {
                let byte = src[2 + i];
                plate_bytes.push(byte);
                proof {
                    assert(plate_bytes@ =~= src@.subrange(2, 2 + i + 1));
                }
                i += 1;
            }
            let ts = read_be32(src, 2 + len);
            match bytes_to_string(plate_bytes) {
                Some(plate) => {
                    drain_front(src, 2 + len + 4);
                    Ok(Some(ReqValue::Plate(plate, ts)))
                },
                None => {
                    drain_front(src, 2 + len);
                    Err(DecodeError::BadPlateText)
                },
            }
        } else {
            drain_front(src, 1);
            Err(DecodeError::UnknownOpcode(op))
        }
    }

    /// Encodes one message onto the end of `dst`. A text longer than 255
    /// bytes cannot be framed and leaves the buffer untouched.
    pub fn encode(&mut self, item: RespValue, dst: &mut Vec<u8>) -> (r: Result<(), EncodeError>)
        ensures
            match item {
                RespValue::Heartbeat => r is Ok && final(dst)@ == old(dst)@ + seq![0x41u8],
                RespValue::Error(s) => {
                    if encode_utf8(s@).len() <= 255 {
                        r is Ok && final(dst)@ == old(dst)@ + seq![0x10u8] + seq![
                            (encode_utf8(s@).len() as u8),
                        ] + encode_utf8(s@)
                    } else {
                        r is Err && final(dst)@ == old(dst)@
                    }
                },
                RespValue::Ticket(t) => {
                    if encode_utf8(t.plate@).len() <= 255 {
                        r is Ok && final(dst)@ == old(dst)@ + seq![0x21u8] + seq![
                            (encode_utf8(t.plate@).len() as u8),
                        ] + encode_utf8(t.plate@) + be16_bytes(t.road) + be16_bytes(t.mile1)
                            + be32_bytes(t.timestamp1) + be16_bytes(t.mile2) + be32_bytes(
                            t.timestamp2,
                        ) + be16_bytes(t.speed)
                    } else {
                        r is Err && final(dst)@ == old(dst)@
                    }
                },
            },
    {
        match item {
            RespValue::Heartbeat => {
                dst.push(0x41);
                Ok(())
            },
            RespValue::Error(s) => {
                write_str(dst, 0x10, &s)?;
                Ok(())
            },
            RespValue::Ticket(t) => {
                write_str(dst, 0x21, &t.plate)?;
                push_be16(dst, t.road);
                push_be16(dst, t.mile1);
                push_be32(dst, t.timestamp1);
                push_be16(dst, t.mile2);
                push_be32(dst, t.timestamp2);
                push_be16(dst, t.speed);
                Ok(())
            },
        }
    }
}

/// The two big-endian bytes of a 16-bit value.
pub open spec fn be16_bytes(x: u16) -> Seq<u8> {
    seq![(x / 256) as u8, (x % 256) as u8]
}

/// The four big-endian bytes of a 32-bit value.
pub open spec fn be32_bytes(x: u32) -> Seq<u8> {
    seq![
        (x / 16777216) as u8,
        ((x / 65536) % 256) as u8,
        ((x / 256) % 256) as u8,
        (x % 256) as u8,
    ]
}

/// Appends the big-endian bytes of a 16-bit value.
fn push_be16(dst: &mut Vec<u8>, x: u16)
    ensures
        final(dst)@ == old(dst)@ + be16_bytes(x),
{
    dst.push((x / 256) as u8);
    dst.push((x % 256) as u8);
    proof {
        assert(dst@ =~= old(dst)@ + be16_bytes(x));
    }
}

/// Appends the big-endian bytes of a 32-bit value.
fn push_be32(dst: &mut Vec<u8>, x: u32)
    ensures
        final(dst)@ == old(dst)@ + be32_bytes(x),
{
    dst.push((x / 16777216) as u8);
    dst.push(((x / 65536) % 256) as u8);
    dst.push(((x / 256) % 256) as u8);
    dst.push((x % 256) as u8);
    proof {
        assert(dst@ =~= old(dst)@ + be32_bytes(x));
    }
}

/// Appends an opcode, a one-byte length, and the text's bytes; refuses a
/// text over 255 bytes, leaving the buffer untouched.
fn write_str(dst: &mut Vec<u8>, opcode: u8, payload: &String) -> (r: Result<(), EncodeError>)
    ensures
        encode_utf8(payload@).len() <= 255 ==> r is Ok && final(dst)@ == old(dst)@ + seq![opcode]
            + seq![(encode_utf8(payload@).len() as u8)] + encode_utf8(payload@),
        encode_utf8(payload@).len() > 255 ==> r is Err && final(dst)@ == old(dst)@,
{
    let bs = payload.as_str().as_bytes();
    let len = bs.len();
    if len > 255 {
        return Err(EncodeError::TooLong);
    }
    dst.push(opcode);
    dst.push(len as u8);
    let mut i: usize = 0;
    while i < len
        invariant
            len == bs@.len() <= 255,
            bs@ == encode_utf8(payload@),
            i <= len,
            dst@ =~= old(dst)@ + seq![opcode] + seq![(len as u8)] + bs@.subrange(0, i as int),
        decreases len - i,
    {
        let byte = bs[i];
        dst.push(byte);
        proof {
            assert(dst@ =~= old(dst)@ + seq![opcode] + seq![(len as u8)] + bs@.subrange(
                0,
                i + 1,
            ));
        }
        i += 1;
    }
    proof {
        assert(bs@.subrange(0, len as int) =~= bs@);
    }
    Ok(())
}

} // verus!
