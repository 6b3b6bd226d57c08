//! The per-connection cipher codec: reads the operation list, rejects a
//! no-op cipher before any application byte, then decodes incoming bytes
//! into newline-terminated text and encodes outgoing text, each side at
//! its own stream position.
use vstd::prelude::*;

use crate::cipher::decrypt;
use crate::cipher::decrypt_spec;
use crate::cipher::encrypt;
use crate::cipher::encrypt_spec;
use crate::cipher_ops::Op;
use crate::road_codec::bytes_to_string;
use crate::road_codec::drain_front;
use vstd::utf8::encode_utf8;
use vstd::utf8::valid_utf8;

verus! {

/// The parsed operation list and the index just past its terminator,
/// when the buffer holds a complete, well-formed cipher spec from `i`.
pub open spec fn parse_spec(b: Seq<u8>, i: int) -> Option<(Seq<Op>, int)>
    decreases b.len() - i,
{
    if i < 0 || i >= b.len() {
        None
    } else if b[i] == 0x00 {
        Some((Seq::empty(), i + 1))
    } else if b[i] == 0x01 {
        match parse_spec(b, i + 1) {
            None => None,
            Some((ops, j)) => Some((seq![Op::Reverse] + ops, j)),
        }
    } else if b[i] == 0x02 {
        if i + 1 >= b.len() {
            None
        } else {
            match parse_spec(b, i + 2) {
                None => None,
                Some((ops, j)) => Some((seq![Op::Xor(b[i + 1])] + ops, j)),
            }
        }
    } else if b[i] == 0x03 {
        match parse_spec(b, i + 1) {
            None => None,
            Some((ops, j)) => Some((seq![Op::XorPos] + ops, j)),
        }
    } else if b[i] == 0x04 {
        if i + 1 >= b.len() {
            None
        } else {
            match parse_spec(b, i + 2) {
                None => None,
                Some((ops, j)) => Some((seq![Op::Add(b[i + 1])] + ops, j)),
            }
        }
    } else if b[i] == 0x05 {
        match parse_spec(b, i + 1) {
            None => None,
            Some((ops, j)) => Some((seq![Op::AddPos] + ops, j)),
        }
    } else {
        None
    }
}

/// An invalid opcode stands before the terminator: the spec can never
/// complete and the connection is in error.
pub open spec fn parse_bad(b: Seq<u8>, i: int) -> bool
    decreases b.len() - i,
{
    if i < 0 || i >= b.len() {
        false
    } else if b[i] == 0x00 {
        false
    } else if b[i] == 0x01 || b[i] == 0x03 || b[i] == 0x05 {
        parse_bad(b, i + 1)
    } else if b[i] == 0x02 || b[i] == 0x04 {
        i + 1 < b.len() && parse_bad(b, i + 2)
    } else {
        true
    }
}

/// The probe text `"Test123!@\n"` whose encoding must change under an
/// acceptable cipher.
pub open spec fn probe_bytes() -> Seq<u8> {
    seq![0x54u8, 0x65u8, 0x73u8, 0x74u8, 0x31u8, 0x32u8, 0x33u8, 0x21u8, 0x40u8, 0x0au8]
}

/// Why the cipher connection failed; all are fatal and close it.
#[derive(Debug, PartialEq)]
pub enum CipherError {
    InvalidSpec,
    NoOpCipher,
    BadText,
    NoCipherYet,
    NotText,
}

/// Whether the operation list has been read yet.
#[derive(Debug, Clone)]
pub enum DecodeState {
    Secure(Vec<Op>),
    Insecure,
}

/// A decoded unit of the stream: the cipher declaration, or one line of
/// decoded application text (newline included).
#[derive(Debug)]
pub enum Message {
    Cipher(Vec<Op>),
    Text(String),
}

/// Parses the cipher spec at the front of the buffer without consuming:
/// the operations and the bytes they span, nothing yet on a prefix of a
/// well-formed spec, an error on an invalid opcode.
pub fn parse_buf(src: &Vec<u8>) -> (r: Result<Option<(Vec<Op>, usize)>, CipherError>)
    ensures
        match r {
            Ok(None) => parse_spec(src@, 0) is None && !parse_bad(src@, 0),
            Ok(Some((ops, consumed))) => parse_spec(src@, 0) == Some((ops@, consumed as int)),
            Err(e) => e == CipherError::InvalidSpec && parse_bad(src@, 0),
        },
{
    let ghost b = src@;
    let mut idx: usize = 0;
    let mut ops: Vec<Op> = Vec::new();
    loop
        invariant_except_break
            idx <= b.len(),
            b == src@,
            (match parse_spec(b, idx as int) {
                None => parse_spec(b, 0) is None,
                Some((rest, j)) => parse_spec(b, 0) == Some((ops@ + rest, j)),
            }),
            parse_bad(b, 0) == parse_bad(b, idx as int),
        ensures
            b == src@,
            (match parse_spec(b, idx as int) {
                None => parse_spec(b, 0) is None,
                Some((rest, j)) => parse_spec(b, 0) == Some((ops@ + rest, j)),
            }),
            parse_bad(b, 0) == parse_bad(b, idx as int),
            idx <= b.len(),
            (idx >= b.len() || src@[idx as int] == 0x00 || !(src@[idx as int] == 0x01
                || src@[idx as int] == 0x02 || src@[idx as int] == 0x03 || src@[idx as int] == 0x04
                || src@[idx as int] == 0x05) || (src@[idx as int] == 0x02 || src@[idx as int]
                == 0x04) && idx + 1 >= b.len()),
        decreases b.len() - idx,
    {
        if idx >= src.len() {
            break;
        }
        let op = src[idx];
        let ghost idx0 = idx as int;
        let ghost ops0 = ops@;
        if op == 0x00 {
            break;
        } else if op == 0x01 {
            ops.push(Op::Reverse);
            idx += 1;
            proof {
                assert(ops@ + parse_ops_tail(b, idx as int) =~= ops0 + (seq![Op::Reverse]
                    + parse_ops_tail(b, idx as int)));
            }
        } else if op == 0x02 {
            if idx + 1 >= src.len() {
                break;
            }
            let n = src[idx + 1];
            ops.push(Op::Xor(n));
            idx += 2;
            proof {
                assert(ops@ + parse_ops_tail(b, idx as int) =~= ops0 + (seq![Op::Xor(b[idx0 + 1])]
                    + parse_ops_tail(b, idx as int)));
            }
        } else if op == 0x03 {
            ops.push(Op::XorPos);
            idx += 1;
            proof {
                assert(ops@ + parse_ops_tail(b, idx as int) =~= ops0 + (seq![Op::XorPos]
                    + parse_ops_tail(b, idx as int)));
            }
        } else if op == 0x04 {
            if idx + 1 >= src.len() {
                break;
            }
            let n = src[idx + 1];
            ops.push(Op::Add(n));
            idx += 2;
            proof {
                assert(ops@ + parse_ops_tail(b, idx as int) =~= ops0 + (seq![Op::Add(b[idx0 + 1])]
                    + parse_ops_tail(b, idx as int)));
            }
        } else if op == 0x05 {
            ops.push(Op::AddPos);
            idx += 1;
            proof {
                assert(ops@ + parse_ops_tail(b, idx as int) =~= ops0 + (seq![Op::AddPos]
                    + parse_ops_tail(b, idx as int)));
            }
        } else {
            break;
        }
    }
    if idx >= src.len() {
        return Ok(None);
    }
    let op = src[idx];
    if op == 0x00 {
        proof {
            assert(parse_spec(b, idx as int) == Some((Seq::<Op>::empty(), idx + 1)));
            assert(ops@ + Seq::<Op>::empty() =~= ops@);
        }
        Ok(Some((ops, idx + 1)))
    } else if op == 0x02 || op == 0x04 {
        Ok(None)
    } else {
        Err(CipherError::InvalidSpec)
    }
}

/// A complete parse ends inside the buffer: the index just past the
/// terminator is at most the buffer length.
proof fn lemma_parse_end_bounds(b: Seq<u8>, i: int)
    requires
        0 <= i,
    ensures
        parse_spec(b, i) matches Some((ops, j)) ==> i < j <= b.len(),
    decreases b.len() - i,
{
    if i < b.len() {
        if b[i] == 0x01 || b[i] == 0x03 || b[i] == 0x05 {
            lemma_parse_end_bounds(b, i + 1);
        } else if b[i] == 0x02 || b[i] == 0x04 {
            if i + 1 < b.len() {
                lemma_parse_end_bounds(b, i + 2);
            }
        }
    }
}

/// The operations that the rest of a complete spec parses to; empty when
/// it does not parse.
pub open spec fn parse_ops_tail(b: Seq<u8>, i: int) -> Seq<Op> {
    match parse_spec(b, i) {
        None => Seq::empty(),
        Some((ops, j)) => ops,
    }
}


/// A copy of an operation list.
fn copy_ops(ops: &Vec<Op>) -> (r: Vec<Op>)
    ensures
        r@ == ops@,
{
    let mut out: Vec<Op> = Vec::new();
    let mut i: usize = 0;
    while i < ops.len()
        invariant
            i <= ops@.len(),
            out@ =~= ops@.subrange(0, i as int),
        decreases ops@.len() - i,
    {
        let op = ops[i];
        out.push(op);
        proof {
            assert(out@ =~= ops@.subrange(0, i + 1));
        }
        i += 1;
    }
    proof {
        assert(out@ =~= ops@);
    }
    out
}

/// Appends the bytes of `src` to `dst`.
fn append_bytes(dst: &mut Vec<u8>, src: &Vec<u8>)
    ensures
        final(dst)@ == old(dst)@ + src@,
{
    let mut i: usize = 0;
    while i < src.len()
        invariant
            i <= src@.len(),
            dst@ =~= old(dst)@ + src@.subrange(0, i as int),
        decreases src@.len() - i,
    {
        let byte = src[i];
        dst.push(byte);
        proof {
            assert(dst@ =~= old(dst)@ + src@.subrange(0, i + 1));
        }
        i += 1;
    }
    proof {
        assert(dst@ =~= old(dst)@ + src@);
    }
}

/// The cipher codec of one connection: the operation list once read, and
/// the two independent stream positions.
pub struct CryptoCodec {
    pub state: DecodeState,
    pub client_pos: usize,
    pub server_pos: usize,
}

impl CryptoCodec {
    /// A fresh codec: no cipher yet, both positions at zero.
    pub fn new() -> (c: Self)
        ensures
            c.state is Insecure,
            c.client_pos == 0,
            c.server_pos == 0,
    {
        Self { state: DecodeState::Insecure, client_pos: 0, server_pos: 0 }
    }

    /// Decodes the next unit from the front of `src`. Before the cipher
    /// is read: parses the operation list, refuses one under which the
    /// probe text encodes to itself, and becomes secure. After: decodes
    /// bytes at the client position and emits one line per newline found,
    /// leaving partial lines buffered.
    pub fn decode(&mut self, src: &mut Vec<u8>) -> (r: Result<Option<Message>, CipherError>)
        requires
            old(self).client_pos + old(src)@.len() <= usize::MAX,
        ensures
            match r {
                Ok(None) => *final(self) == *old(self) && final(src)@ == old(src)@ && (match old(
                    self,
                ).state {
                    DecodeState::Insecure => parse_spec(old(src)@, 0) is None && !parse_bad(
                        old(src)@,
                        0,
                    ),
                    DecodeState::Secure(ops) => forall|i: int|
                        0 <= i < old(src)@.len() ==> #[trigger] decrypt_spec(
                            ops@,
                            old(src)@,
                            old(self).client_pos as int,
                        )[i] != 0x0a,
                }),
                Ok(Some(m)) => match m {
                    Message::Cipher(ops) => {
                        &&& old(self).state is Insecure
                        &&& exists|j: int|
                            #![trigger old(src)@.skip(j)]
                            parse_spec(old(src)@, 0) == Some((ops@, j)) && final(src)@ == old(
                                src,
                            )@.skip(j)
                        &&& encrypt_spec(ops@, probe_bytes(), 0) != probe_bytes()
                        &&& final(self).state is Secure
                        &&& final(self).state->Secure_0@ == ops@
                        &&& final(self).client_pos == old(self).client_pos
                        &&& final(self).server_pos == old(self).server_pos
                    },
                    Message::Text(s) => {
                        &&& old(self).state is Secure
                        &&& exists|p: int|
                            #![trigger old(src)@.skip(p + 1)]
                            {
                                let ops = old(self).state->Secure_0;
                                let plain = decrypt_spec(
                                    ops@,
                                    old(src)@,
                                    old(self).client_pos as int,
                                );
                                &&& 0 <= p < plain.len()
                                &&& plain[p] == 0x0a
                                &&& (forall|k: int| 0 <= k < p ==> #[trigger] plain[k] != 0x0a)
                                &&& encode_utf8(s@) == plain.subrange(0, p + 1)
                                &&& final(src)@ == old(src)@.skip(p + 1)
                                &&& final(self).client_pos == old(self).client_pos + p + 1
                            }
                        &&& final(self).state == old(self).state
                        &&& final(self).server_pos == old(self).server_pos
                    },
                },
                Err(e) => match e {
                    CipherError::InvalidSpec => old(self).state is Insecure && parse_bad(
                        old(src)@,
                        0,
                    ),
                    CipherError::NoOpCipher => old(self).state is Insecure && (parse_spec(
                        old(src)@,
                        0,
                    ) matches Some((ops, j)) && encrypt_spec(ops, probe_bytes(), 0)
                        == probe_bytes()),
                    CipherError::BadText => {
                        &&& old(self).state is Secure
                        &&& *final(self) == *old(self)
                        &&& final(src)@ == old(src)@
                        &&& exists|p: int|
                            #![trigger decrypt_spec(old(self).state->Secure_0@, old(src)@, old(self).client_pos as int)[p]]
                            {
                                let plain = decrypt_spec(
                                    old(self).state->Secure_0@,
                                    old(src)@,
                                    old(self).client_pos as int,
                                );
                                &&& 0 <= p < plain.len()
                                &&& plain[p] == 0x0a
                                &&& (forall|k: int| 0 <= k < p ==> #[trigger] plain[k] != 0x0a)
                                &&& !valid_utf8(plain.subrange(0, p + 1))
                            }
                    },
                    _ => false,
                },
            },
    {
        let ops = match &self.state {
            DecodeState::Secure(o) => Some(copy_ops(o)),
            DecodeState::Insecure => None,
        };
        match ops {
            None => {
                match parse_buf(src) {
                    Err(e) => Err(e),
                    Ok(None) => Ok(None),
                    Ok(Some((ops, consumed))) => {
                        let mut probe: Vec<u8> = Vec::new();
                        probe.push(0x54);
                        probe.push(0x65);
                        probe.push(0x73);
                        probe.push(0x74);
                        probe.push(0x31);
                        probe.push(0x32);
                        probe.push(0x33);
                        probe.push(0x21);
                        probe.push(0x40);
                        probe.push(0x0a);
                        proof {
                            assert(probe@ =~= probe_bytes());
                        }
                        let enc = encrypt(ops.as_slice(), probe.as_slice(), 0);
                        let mut same = true;
                        let mut i: usize = 0;
                        while i < enc.len()
                            invariant_except_break
                                same,
                            invariant
                                i <= enc@.len(),
                                enc@.len() == probe@.len(),
                                forall|k: int| 0 <= k < i ==> #[trigger] enc@[k] == probe@[k],
                            ensures
                                same ==> enc@ =~= probe@,
                                !same ==> enc@ != probe@,
                            decreases enc@.len() - i,
                        {
                            if enc[i] != probe[i] {
                                same = false;
                                proof {
                                    assert(enc@[i as int] != probe@[i as int]);
                                }
                                break;
                            }
                            i += 1;
                        }
                        if same {
                            Err(CipherError::NoOpCipher)
                        } else {
                            let stored = copy_ops(&ops);
                            proof {
                                lemma_parse_end_bounds(old(src)@, 0);
                            }
                            drain_front(src, consumed);
                            self.state = DecodeState::Secure(stored);
                            proof {
                                assert(self.state->Secure_0@ == ops@);
                            }
                            Ok(Some(Message::Cipher(ops)))
                        }
                    },
                }
            },
            Some(ops) => {
                let plain = decrypt(ops.as_slice(), src.as_slice(), self.client_pos);
                let mut nl: Option<usize> = None;
                let mut i: usize = 0;
                while i < plain.len()
                    invariant_except_break
                        nl is None,
                    invariant
                        i <= plain@.len(),
                        forall|k: int| 0 <= k < i ==> #[trigger] plain@[k] != 0x0a,
                    ensures
                        match nl {
                            Some(p) => p < plain@.len() && plain@[p as int] == 0x0a && forall|
                                k: int,
                            |
                                0 <= k < p ==> #[trigger] plain@[k] != 0x0a,
                            None => forall|k: int|
                                0 <= k < plain@.len() ==> #[trigger] plain@[k] != 0x0a,
                        },
                    decreases plain@.len() - i,
                {
                    if plain[i] == 0x0a {
                        nl = Some(i);
                        break;
                    }
                    i += 1;
                }
                match nl {
                    None => {
                        proof {
                            let gops = old(self).state->Secure_0;
                            assert(plain@ == decrypt_spec(
                                gops@,
                                old(src)@,
                                old(self).client_pos as int,
                            ));
                            assert forall|i: int|
                                0 <= i < old(src)@.len() implies #[trigger] decrypt_spec(
                                gops@,
                                old(src)@,
                                old(self).client_pos as int,
                            )[i] != 0x0a by {
                                assert(plain@[i] != 0x0a);
                            }
                        }
                        Ok(None)
                    },
                    Some(p) => {
                        let plen = plain.len();
                        let mut line: Vec<u8> = Vec::new();
                        let mut k: usize = 0;
                        while k < p + 1
                            invariant
                                p < plain@.len(),
                                plain@.len() <= usize::MAX,
                                k <= p + 1,
                                line@ =~= plain@.subrange(0, k as int),
                            decreases p + 1 - k,
                        {
                            let byte = plain[k];
                            line.push(byte);
                            proof {
                                assert(line@ =~= plain@.subrange(0, k + 1));
                            }
                            k += 1;
                        }
                        let ghost linev = line@;
                        match bytes_to_string(line) {
                            None => {
                                proof {
                                    let gops = old(self).state->Secure_0;
                                    let dplain = decrypt_spec(
                                        gops@,
                                        old(src)@,
                                        old(self).client_pos as int,
                                    );
                                    assert(plain@ == dplain);
                                    assert(dplain[p as int] == 0x0a);
                                    assert forall|k2: int|
                                        0 <= k2 < p implies #[trigger] dplain[k2] != 0x0a by {
                                        assert(plain@[k2] != 0x0a);
                                    }
                                    assert(!valid_utf8(dplain.subrange(0, p + 1))) by {
                                        assert(dplain.subrange(0, p + 1) =~= linev);
                                    }
                                }
                                Err(CipherError::BadText)
                            },
                            Some(s) => {
                                drain_front(src, p + 1);
                                self.client_pos = self.client_pos + p + 1;
                                Ok(Some(Message::Text(s)))
                            },
                        }
                    },
                }
            },
        }
    }

    /// Encodes one line of application text at the server position and
    /// advances it. Only text can be sent, and only once the cipher has
    /// been read.
    pub fn encode(&mut self, item: Message, dst: &mut Vec<u8>) -> (r: Result<(), CipherError>)
        requires
            old(self).server_pos + (match item {
                Message::Text(s) => encode_utf8(s@).len(),
                Message::Cipher(_) => 0,
            }) <= usize::MAX,
        ensures
            match (old(self).state, item) {
                (DecodeState::Secure(ops), Message::Text(s)) => {
                    &&& r is Ok
                    &&& final(dst)@ == old(dst)@ + encrypt_spec(
                        ops@,
                        encode_utf8(s@),
                        old(self).server_pos as int,
                    )
                    &&& final(self).server_pos == old(self).server_pos + encode_utf8(s@).len()
                    &&& final(self).state == old(self).state
                    &&& final(self).client_pos == old(self).client_pos
                },
                (DecodeState::Secure(ops), Message::Cipher(_)) => r == Result::<
                    (),
                    CipherError,
                >::Err(CipherError::NotText) && *final(self) == *old(self) && final(dst)@ == old(
                    dst,
                )@,
                (DecodeState::Insecure, _) => r == Result::<(), CipherError>::Err(
                    CipherError::NoCipherYet,
                ) && *final(self) == *old(self) && final(dst)@ == old(dst)@,
            },
    {
        let ops = match &self.state {
            DecodeState::Secure(o) => Some(copy_ops(o)),
            DecodeState::Insecure => None,
        };
        match ops {
            None => Err(CipherError::NoCipherYet),
            Some(ops) => {
                match item {
                    Message::Cipher(_) => Err(CipherError::NotText),
                    Message::Text(s) => {
                        let bytes = s.as_str().as_bytes();
                        let enc = encrypt(ops.as_slice(), bytes, self.server_pos);
                        append_bytes(dst, &enc);
                        self.server_pos = self.server_pos + bytes.len();
                        Ok(())
                    },
                }
            },
        }
    }
}

} // verus!
