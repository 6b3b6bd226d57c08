//! The operations of the streaming cipher and their inverses.
//!
//! Each operation transforms one byte, possibly depending on the byte's
//! absolute position in its direction of the stream. Applying an
//! operation and then its inverse at the same position gives the byte
//! back.
use vstd::prelude::*;

verus! {

/// One cipher operation. `Sub` and `SubPos` are the decode-side inverses
/// of `Add` and `AddPos`.
#[derive(Debug, Clone, Copy, PartialEq, Eq, Structural)]
pub enum Op {
    Reverse,
    Xor(u8),
    XorPos,
    Add(u8),
    Sub(u8),
    AddPos,
    SubPos,
}

/// The byte with its bits in reverse order.
pub open spec fn rev8(b: u8) -> u8 {
    ((b & 1) << 7) | ((b & 2) << 5) | ((b & 4) << 3) | ((b & 8) << 1) | ((b & 16) >> 1) | ((b & 32)
        >> 3) | ((b & 64) >> 5) | ((b & 128) >> 7)
}

/// The position's low byte, which position-dependent operations use.
pub open spec fn pos_byte(pos: int) -> u8 {
    (pos % 256) as u8
}

/// What one operation does to a byte at a position.
pub open spec fn apply_spec(op: Op, b: u8, pos: int) -> u8 {
    match op {
        Op::Reverse => rev8(b),
        Op::Xor(n) => b ^ n,
        Op::XorPos => b ^ pos_byte(pos),
        Op::Add(n) => (((b as int) + (n as int)) % 256) as u8,
        Op::Sub(n) => (((b as int) + 256 - (n as int)) % 256) as u8,
        Op::AddPos => (((b as int) + (pos_byte(pos) as int)) % 256) as u8,
        Op::SubPos => (((b as int) + 256 - (pos_byte(pos) as int)) % 256) as u8,
    }
}

/// The inverse of one operation.
pub open spec fn inverse_spec(op: Op) -> Op {
    match op {
        Op::Reverse => Op::Reverse,
        Op::Xor(n) => Op::Xor(n),
        Op::XorPos => Op::XorPos,
        Op::Add(n) => Op::Sub(n),
        Op::Sub(n) => Op::Add(n),
        Op::AddPos => Op::SubPos,
        Op::SubPos => Op::AddPos,
    }
}

/// Adding a value modulo 256 and then subtracting it gives the byte back.
proof fn lemma_add_sub_cancel(b: u8, n: u8)
    ensures
        ((((((b as int) + (n as int)) % 256) as u8) as int) + 256 - (n as int)) % 256 == b as int,
{
    let s = ((b as int) + (n as int)) % 256;
    if (b as int) + (n as int) < 256 {
        assert(s == (b as int) + (n as int));
        assert((s + 256 - (n as int)) % 256 == ((b as int) + 256) % 256);
        assert(((b as int) + 256) % 256 == b as int);
    } else {
        assert(s == (b as int) + (n as int) - 256);
        assert((s + 256 - (n as int)) % 256 == (b as int) % 256);
    }
}

/// Subtracting a value modulo 256 and then adding it gives the byte back.
proof fn lemma_sub_add_cancel(b: u8, n: u8)
    ensures
        ((((((b as int) + 256 - (n as int)) % 256) as u8) as int) + (n as int)) % 256 == b as int,
{
    let s = ((b as int) + 256 - (n as int)) % 256;
    if (b as int) + 256 - (n as int) < 256 {
        assert(s == (b as int) + 256 - (n as int));
        assert((s + (n as int)) % 256 == ((b as int) + 256) % 256);
    } else {
        assert(s == (b as int) - (n as int));
        assert((s + (n as int)) % 256 == (b as int) % 256);
    }
}

/// Reversing the bits twice gives the byte back.
proof fn lemma_rev8_involution(b: u8)
    ensures
        rev8(rev8(b)) == b,
{
    assert(rev8(rev8(b)) == b) by (bit_vector);
}

/// Applying an operation and then its inverse at one position gives the
/// byte back.
pub proof fn lemma_op_cancel(op: Op, b: u8, pos: int)
    ensures
        apply_spec(inverse_spec(op), apply_spec(op, b, pos), pos) == b,
{
    match op {
        Op::Reverse => {
            lemma_rev8_involution(b);
        },
        Op::Xor(n) => {
            assert((b ^ n) ^ n == b) by (bit_vector);
        },
        Op::XorPos => {
            let p = pos_byte(pos);
            assert((b ^ p) ^ p == b) by (bit_vector);
        },
        Op::Add(n) => {
            lemma_add_sub_cancel(b, n);
        },
        Op::Sub(n) => {
            lemma_sub_add_cancel(b, n);
        },
        Op::AddPos => {
            lemma_add_sub_cancel(b, pos_byte(pos));
        },
        Op::SubPos => {
            lemma_sub_add_cancel(b, pos_byte(pos));
        },
    }
}

impl Op {
    /// Applies this operation to `byte` at stream position `pos`.
    pub fn apply(&self, byte: u8, pos: usize) -> (r: u8)
        ensures
            r == apply_spec(*self, byte, pos as int),
    {
        let p = (pos % 256) as u8;
        match *self {
            Op::Reverse => {
                ((byte & 1) << 7) | ((byte & 2) << 5) | ((byte & 4) << 3) | ((byte & 8) << 1) | ((
                byte & 16) >> 1) | ((byte & 32) >> 3) | ((byte & 64) >> 5) | ((byte & 128) >> 7)
            },
            Op::Xor(n) => byte ^ n,
            Op::XorPos => byte ^ p,
            Op::Add(n) => (((byte as u16) + (n as u16)) % 256) as u8,
            Op::Sub(n) => (((byte as u16) + 256 - (n as u16)) % 256) as u8,
            Op::AddPos => (((byte as u16) + (p as u16)) % 256) as u8,
            Op::SubPos => (((byte as u16) + 256 - (p as u16)) % 256) as u8,
        }
    }

    /// This operation's inverse, as used on decode.
    pub fn inverse(&self) -> (r: Op)
        ensures
            r == inverse_spec(*self),
    {
        match *self {
            Op::Reverse => Op::Reverse,
            Op::Xor(n) => Op::Xor(n),
            Op::XorPos => Op::XorPos,
            Op::Add(n) => Op::Sub(n),
            Op::Sub(n) => Op::Add(n),
            Op::AddPos => Op::SubPos,
            Op::SubPos => Op::AddPos,
        }
    }
}

} // verus!
