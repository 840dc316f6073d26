//! Framing of protocol lines on a byte stream: each line ends with a newline
//! byte.

use vstd::prelude::*;
use vstd::utf8::*;
use vstd::slice::{slice_subrange, slice_to_vec};
use crate::proto::line::{Request, RequestView, request_of};
use crate::text::lemma_encode_avoids_ascii;

verus! {

broadcast use vstd::string::group_string_axioms;

/// The line codec of the protocol.
pub struct LineCodec;

/// Why a buffered line could not be decoded.
#[derive(Debug, PartialEq, Eq)]
pub enum CodecError {
    /// The line's bytes are not UTF-8.
    InvalidUtf8,
}

/// The index of the first newline byte of `s`.
pub open spec fn first_newline(s: Seq<u8>) -> Option<int>
    decreases s.len(),
{
    if s.len() == 0 {
        None
    } else if s[0] == 10 {
        Some(0)
    } else {
        match first_newline(s.drop_first()) {
            Some(i) => Some(i + 1),
            None => None,
        }
    }
}

/// One decoding step on the buffered bytes `buf`: `None` while no complete
/// line is buffered; otherwise the request on the first line (`None` when the
/// line is not UTF-8) and the bytes that follow its newline.
pub open spec fn decode_step(buf: Seq<u8>) -> Option<(Option<RequestView>, Seq<u8>)> {
    match first_newline(buf) {
        None => None,
        Some(i) => {
            let line = buf.take(i);
            Some(
                (
                    if valid_utf8(line) {
                        Some(request_of(decode_utf8(line)))
                    } else {
                        None
                    },
                    buf.skip(i + 1),
                ),
            )
        },
    }
}

/// The bytes that encoding the line `msg` appends to a buffer.
pub open spec fn encoded_line(msg: Seq<char>) -> Seq<u8> {
    encode_utf8(msg) + seq![10u8]
}

/// The index that [`first_newline`] finds holds a newline, and none before it
/// does.
pub proof fn lemma_first_newline(s: Seq<u8>)
    ensures
        first_newline(s) matches Some(i) ==> 0 <= i < s.len() && s[i] == 10 && forall|j: int|
            0 <= j < i ==> s[j] != 10,
        first_newline(s) is None ==> forall|j: int| 0 <= j < s.len() ==> s[j] != 10,
    decreases s.len(),
{
    if s.len() > 0 && s[0] != 10 {
        lemma_first_newline(s.drop_first());
        assert forall|j: int| 0 < j < s.len() implies s[j] == s.drop_first()[j - 1] by {}
    }
}

/// Framing law: a line that [`LineCodec::encode`] writes is read back whole
/// by [`LineCodec::decode`]. Decoding a buffer that starts with the encoding
/// of a message without newline characters yields the request that the
/// message spells, and leaves exactly the bytes that followed the line.
pub proof fn lemma_decode_reads_encoded_line(msg: Seq<char>, rest: Seq<u8>)
    requires
        forall|i: int| 0 <= i < msg.len() ==> msg[i] != '\n',
    ensures
        decode_step(encoded_line(msg) + rest) == Some((Some(request_of(msg)), rest)),
{
    let e = encode_utf8(msg);
    let buf = encoded_line(msg) + rest;
    assert forall|i: int| 0 <= i < msg.len() implies msg[i] as u32 != 10u8 as u32 by {
        if msg[i] as u32 == 10u32 {
            char_u32_cast(msg[i], 10u32);
            char_u32_cast('\n', 10u32);
        }
    }
    lemma_encode_avoids_ascii(msg, 10u8);
    lemma_first_newline(buf);
    assert(buf[e.len() as int] == 10);
    assert forall|j: int| 0 <= j < e.len() implies buf[j] != 10 by {
        assert(buf[j] == e[j]);
    }
    let k = first_newline(buf)->0;
    assert(!(k < e.len()));
    assert(!(e.len() < k));
    assert(buf.take(e.len() as int) =~= e);
    assert(buf.skip((e.len() + 1) as int) =~= rest);
    encode_utf8_valid_utf8(msg);
    encode_utf8_decode_utf8(msg);
}

/// The string view of a `str` made by `std::str::from_utf8` (a UTF-8 check).
#[verifier::external_body]
fn str_from_utf8(bytes: &[u8]) -> (r: Option<&str>)
    ensures
        r is Some <==> valid_utf8(bytes@),
        r matches Some(s) ==> s@ == decode_utf8(bytes@),
{
    std::str::from_utf8(bytes).ok()
}

impl LineCodec {
    /// Takes the first complete line out of `buf` and reads the request on
    /// it; leaves `buf` as it is while it holds no newline.
    pub fn decode(&mut self, buf: &mut Vec<u8>) -> (r: Result<Option<Request>, CodecError>)
        ensures
            match decode_step(old(buf)@) {
                None => r matches Ok(None) && final(buf)@ == old(buf)@,
                Some((req, rest)) => final(buf)@ == rest && match req {
                    Some(q) => r matches Ok(Some(x)) && x@ == q,
                    None => r matches Err(CodecError::InvalidUtf8),
                },
            },
    {
        proof {
            lemma_first_newline(buf@);
        }
        let n = buf.len();
        let mut i: usize = 0;
        while i < n && buf[i] != 10
            invariant
                n == buf@.len(),
                0 <= i <= n,
                forall|j: int| 0 <= j < i ==> buf@[j] != 10,
            decreases n - i,
        {
            i += 1;
        }
        if i == n {
            return Ok(None);
        }
        proof {
            let k = first_newline(buf@)->0;
            assert(!(k < i));
            assert(!(i < k));
        }
        let line = slice_to_vec(slice_subrange(buf.as_slice(), 0, i));
        let rest = slice_to_vec(slice_subrange(buf.as_slice(), i + 1, n));
        assert(line@ == buf@.take(i as int));
        assert(rest@ == buf@.skip(i + 1));
        *buf = rest;
        match str_from_utf8(line.as_slice()) {
            Some(s) => Ok(Some(Request::parse(s))),
            None => Err(CodecError::InvalidUtf8),
        }
    }

    /// Appends the line `msg` and a newline to `buf`.
    pub fn encode(&mut self, msg: String, buf: &mut Vec<u8>) -> (r: Result<(), CodecError>)
        ensures
            r is Ok,
            final(buf)@ == old(buf)@ + encoded_line(msg@),
    {
        let bytes = msg.as_str().as_bytes();
        let n = bytes.len();
        let mut i: usize = 0;
        while i < n
            invariant
                n == bytes@.len(),
                bytes@ == encode_utf8(msg@),
                0 <= i <= n,
                buf@ == old(buf)@ + bytes@.take(i as int),
            decreases n - i,
        {
            buf.push(bytes[i]);
            assert(bytes@.take(i + 1) =~= bytes@.take(i as int).push(bytes@[i as int]));
            i += 1;
        }
        assert(bytes@.take(n as int) =~= bytes@);
        buf.push(10u8);
        assert(buf@ =~= old(buf)@ + encoded_line(msg@));
        Ok(())
    }
}

} // verus!
