//! The streaming cipher codec: an unframed, position-dependent byte
//! cipher whose operation list is read first and rejected when it is a
//! no-op, followed by newline-delimited application text.
use vstd::prelude::*;

use crate::cipher_ops::Op;
use crate::cipher_ops::apply_spec;
use crate::cipher_ops::inverse_spec;
use crate::cipher_ops::lemma_op_cancel;
use vstd::utf8::encode_utf8;
use vstd::utf8::valid_utf8;

verus! {

/// One byte encoded: the operations applied left to right at `pos`.
pub open spec fn encode_byte(ops: Seq<Op>, b: u8, pos: int) -> u8
    decreases ops.len(),
{
    if ops.len() == 0 {
        b
    } else {
        encode_byte(ops.subrange(1, ops.len() as int), apply_spec(ops[0], b, pos), pos)
    }
}

/// One byte decoded: the inverses applied right to left at `pos`.
pub open spec fn decode_byte(ops: Seq<Op>, b: u8, pos: int) -> u8
    decreases ops.len(),
{
    if ops.len() == 0 {
        b
    } else {
        decode_byte(
            ops.subrange(0, ops.len() - 1),
            apply_spec(inverse_spec(ops.last()), b, pos),
            pos,
        )
    }
}

/// A byte stream encoded from `start`: byte `i` at position `start + i`.
pub open spec fn encrypt_spec(ops: Seq<Op>, input: Seq<u8>, start: int) -> Seq<u8> {
    Seq::new(input.len(), |i: int| encode_byte(ops, input[i], start + i))
}

/// A byte stream decoded from `start`: byte `i` at position `start + i`.
pub open spec fn decrypt_spec(ops: Seq<Op>, input: Seq<u8>, start: int) -> Seq<u8> {
    Seq::new(input.len(), |i: int| decode_byte(ops, input[i], start + i))
}

/// Encoding splits at the last operation: the whole list is the prefix
/// followed by the last operation.
proof fn lemma_encode_snoc(ops: Seq<Op>, b: u8, pos: int)
    requires
        ops.len() > 0,
    ensures
        encode_byte(ops, b, pos) == apply_spec(
            ops.last(),
            encode_byte(ops.subrange(0, ops.len() - 1), b, pos),
            pos,
        ),
    decreases ops.len(),
{
    if ops.len() == 1 {
        let e1 = ops.subrange(1, 1);
        let e0 = ops.subrange(0, 0);
        let b1 = apply_spec(ops[0], b, pos);
        assert(e1.len() == 0 && e0.len() == 0);
        assert(encode_byte(e1, b1, pos) == b1);
        assert(encode_byte(ops, b, pos) == encode_byte(e1, b1, pos));
        assert(encode_byte(e0, b, pos) == b);
    } else {
        let rest = ops.subrange(1, ops.len() as int);
        let front = ops.subrange(0, ops.len() - 1);
        let b1 = apply_spec(ops[0], b, pos);
        lemma_encode_snoc(rest, b1, pos);
        assert(rest.last() == ops.last());
        assert(front.len() > 0);
        assert(front[0] == ops[0]);
        assert(front.subrange(1, front.len() as int) =~= rest.subrange(0, rest.len() - 1));
        assert(encode_byte(ops, b, pos) == encode_byte(rest, b1, pos));
        assert(encode_byte(front, b, pos) == encode_byte(
            front.subrange(1, front.len() as int),
            b1,
            pos,
        ));
        assert(encode_byte(rest, b1, pos) == apply_spec(
            rest.last(),
            encode_byte(rest.subrange(0, rest.len() - 1), b1, pos),
            pos,
        ));
    }
}

/// Decoding undoes encoding: one byte encoded and then decoded with the
/// same operations at the same position is itself.
pub proof fn lemma_byte_round_trip(ops: Seq<Op>, b: u8, pos: int)
    ensures
        decode_byte(ops, encode_byte(ops, b, pos), pos) == b,
    decreases ops.len(),
{
    if ops.len() > 0 {
        let front = ops.subrange(0, ops.len() - 1);
        lemma_encode_snoc(ops, b, pos);
        lemma_op_cancel(ops.last(), encode_byte(front, b, pos), pos);
        lemma_byte_round_trip(front, b, pos);
    }
}

/// Decoding undoes encoding for whole streams: for every operation list,
/// every byte sequence, and every start position, decoding the encoding
/// gives the bytes back.
pub proof fn lemma_stream_round_trip(ops: Seq<Op>, input: Seq<u8>, start: int)
    ensures
        decrypt_spec(ops, encrypt_spec(ops, input, start), start) == input,
{
    let enc = encrypt_spec(ops, input, start);
    assert forall|i: int| 0 <= i < input.len() implies decrypt_spec(ops, enc, start)[i]
        == input[i] by {
        lemma_byte_round_trip(ops, input[i], start + i);
    }
    assert(decrypt_spec(ops, enc, start) =~= input);
}

/// Encodes bytes with the operations applied left to right, each byte at
/// its absolute position `start_pos + i`.
pub fn encrypt(cipher: &[Op], input: &[u8], start_pos: usize) -> (r: Vec<u8>)
    requires
        start_pos + input@.len() <= usize::MAX,
    ensures
        r@ == encrypt_spec(cipher@, input@, start_pos as int),
{
    let mut out: Vec<u8> = Vec::new();
    let mut i: usize = 0;
    while i < input.len()
        invariant
            start_pos + input@.len() <= usize::MAX,
            i <= input@.len(),
            out@.len() == i,
            forall|k: int|
                0 <= k < i ==> #[trigger] out@[k] == encode_byte(
                    cipher@,
                    input@[k],
                    start_pos + k,
                ),
        decreases input@.len() - i,
    {
        let mut b = input[i];
        let pos = start_pos + i;
        proof {
            assert(cipher@.subrange(0, cipher@.len() as int) =~= cipher@);
        }
        let mut k: usize = 0;
        while k < cipher.len()
            invariant
                k <= cipher@.len(),
                encode_byte(cipher@, input@[i as int], pos as int) == encode_byte(
                    cipher@.subrange(k as int, cipher@.len() as int),
                    b,
                    pos as int,
                ),
            decreases cipher@.len() - k,
        {
            let ghost sub_k = cipher@.subrange(k as int, cipher@.len() as int);
            b = cipher[k].apply(b, pos);
            k += 1;
            proof {
                assert(sub_k.subrange(1, sub_k.len() as int) =~= cipher@.subrange(
                    k as int,
                    cipher@.len() as int,
                ));
                assert(sub_k[0] == cipher@[k - 1]);
            }
        }
        proof {
            assert(cipher@.subrange(cipher@.len() as int, cipher@.len() as int) =~= Seq::<
                Op,
            >::empty());
        }
        out.push(b);
        i += 1;
    }
    proof {
        assert(out@ =~= encrypt_spec(cipher@, input@, start_pos as int));
    }
    out
}

/// Decodes bytes with the inverse operations applied right to left, each
/// byte at its absolute position `start_pos + i`.
pub fn decrypt(cipher: &[Op], input: &[u8], start_pos: usize) -> (r: Vec<u8>)
    requires
        start_pos + input@.len() <= usize::MAX,
    ensures
        r@ == decrypt_spec(cipher@, input@, start_pos as int),
{
    let mut out: Vec<u8> = Vec::new();
    let mut i: usize = 0;
    while i < input.len()
        invariant
            start_pos + input@.len() <= usize::MAX,
            i <= input@.len(),
            out@.len() == i,
            forall|k: int|
                0 <= k < i ==> #[trigger] out@[k] == decode_byte(
                    cipher@,
                    input@[k],
                    start_pos + k,
                ),
        decreases input@.len() - i,
    {
        let mut b = input[i];
        let pos = start_pos + i;
        proof {
            assert(cipher@.subrange(0, cipher@.len() as int) =~= cipher@);
        }
        let mut k: usize = cipher.len();
        while k > 0
            invariant
                k <= cipher@.len(),
                decode_byte(cipher@, input@[i as int], pos as int) == decode_byte(
                    cipher@.subrange(0, k as int),
                    b,
                    pos as int,
                ),
            decreases k,
        {
            let ghost sub_k = cipher@.subrange(0, k as int);
            k -= 1;
            let inv = cipher[k].inverse();
            b = inv.apply(b, pos);
            proof {
                assert(sub_k.last() == cipher@[k as int]);
                assert(sub_k.subrange(0, sub_k.len() - 1) =~= cipher@.subrange(0, k as int));
            }
        }
        proof {
            assert(cipher@.subrange(0, 0) =~= Seq::<Op>::empty());
        }
        out.push(b);
        i += 1;
    }
    proof {
        assert(out@ =~= decrypt_spec(cipher@, input@, start_pos as int));
    }
    out
}

} // verus!
