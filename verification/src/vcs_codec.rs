//! The line protocol types of the content-addressed file store.
use vstd::prelude::*;

verus! {

/// A reply line (without its trailing newline).
#[derive(Debug, Clone, PartialEq)]
pub enum RespValue {
    Text(String),
}

/// A parsed client command.
#[derive(Debug, PartialEq)]
pub enum VersionControlCommand {
    Help,
    List(Option<String>),
    Get(Option<String>),
    Put(Option<(String, String)>),
}

/// The line framer of the file store protocol.
pub struct Codec;

impl Codec {
    /// Appends a reply and its newline to the write buffer.
    pub fn encode(&mut self, item: RespValue, dst: &mut Vec<u8>) -> (r: Result<(), ()>)
        ensures
            r is Ok,
            match item {
                RespValue::Text(s) => final(dst)@ == old(dst)@ + vstd::utf8::encode_utf8(s@)
                    + seq![0x0au8],
            },
    {
        match item {
            RespValue::Text(s) => {
                let bs = s.as_str().as_bytes();
                let mut i: usize = 0;
                while i < bs.len()
                    invariant
                        i <= bs@.len(),
                        dst@ =~= old(dst)@ + bs@.subrange(0, i as int),
                    decreases bs@.len() - i,
                {
                    let byte = bs[i];
                    dst.push(byte);
                    proof {
                        assert(dst@ =~= old(dst)@ + bs@.subrange(0, i + 1));
                    }
                    i += 1;
                }
                proof {
                    assert(bs@.subrange(0, bs@.len() as int) =~= bs@);
                }
                dst.push(0x0a);
                Ok(())
            },
        }
    }
}

} // verus!
