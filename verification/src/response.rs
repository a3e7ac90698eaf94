//! The wire response: a status code and an optional message, framed as a
//! self-delimited record like the operations.

use crate::codec::le8;
use crate::codec::read_le8;
use crate::codec::copy_range;
use crate::codec::bytes_to_string;
use crate::codec::le_bytes;
use crate::codec::from_le;
use crate::codec::text_block;
use crate::codec::text_fits;
use crate::codec::pow256;
use crate::codec::lemma_le_bytes_len;
use crate::codec::lemma_le_round_trip;
use crate::codec::lemma_pow256_8;
use crate::codec::TAG_RESPONSE;
use vstd::prelude::*;
use vstd::utf8::decode_utf8;
use vstd::utf8::encode_utf8;
use vstd::utf8::encode_utf8_decode_utf8;
use vstd::utf8::encode_utf8_valid_utf8;
use vstd::utf8::valid_utf8;

verus! {

/// The mathematical shape of a [`Response`].
pub struct RespModel {
    /// The status code: 0 for success, anything else for failure.
    pub status: int,
    /// The optional message text.
    pub msg: Option<Seq<char>>,
}

/// A server response.  `status` 0 means success, anything else failure;
/// `msg` carries a value or an error text.
#[derive(Clone, Debug)]
pub struct Response {
    /// The status code.
    pub status: i32,
    /// The optional message.
    pub msg: Option<String>,
}

impl View for Response {
    type V = RespModel;

    open spec fn view(&self) -> RespModel {
        RespModel {
            status: self.status as int,
            msg: match self.msg {
                Option::Some(s) => Option::Some(s@),
                Option::None => Option::None,
            },
        }
    }
}

impl Response {
    /// A success response carrying `msg`.
    pub fn ok(msg: String) -> (r: Response)
        ensures
            r@.status == 0,
            r@.msg == Some(msg@),
    {
        Response { status: 0, msg: Some(msg) }
    }

    /// A success response without a message.
    pub fn ok_without_msg() -> (r: Response)
        ensures
            r@.status == 0,
            r@.msg is None,
    {
        Response { status: 0, msg: None }
    }

    /// A failure response carrying `msg`.
    pub fn err(msg: String) -> (r: Response)
        ensures
            r@.status == -1,
            r@.msg == Some(msg@),
    {
        Response { status: -1, msg: Some(msg) }
    }
}

/// The magnitude of a status code.
pub open spec fn status_mag(status: int) -> nat {
    if status < 0 {
        (-status) as nat
    } else {
        status as nat
    }
}

/// The frame encoding a response: the response tag, a sign byte, the
/// 8-byte status magnitude, then a presence byte and, when present, the
/// message text block.
pub open spec fn resp_bytes(r: RespModel) -> Seq<u8> {
    seq![TAG_RESPONSE] + seq![(if r.status < 0 { 1u8 } else { 0u8 })] + le_bytes(
        status_mag(r.status),
        8,
    ) + match r.msg {
        Option::None => seq![0u8],
        Option::Some(s) => seq![1u8] + text_block(s),
    }
}

/// Whether a response model fits the frame fields: a 32-bit status and a
/// message that fits its length field.
pub open spec fn resp_fits(r: RespModel) -> bool {
    &&& -0x8000_0000 <= r.status < 0x8000_0000
    &&& match r.msg {
        Option::Some(s) => text_fits(s),
        Option::None => true,
    }
}

/// What a byte sequence holds at its front, read as a response frame.
pub enum RespParse {
    /// A whole frame of `len` bytes decoding to `resp`.
    Parsed { resp: RespModel, len: nat },
    /// A strict prefix of a frame.
    Incomplete,
    /// Not a response frame.
    Malformed,
}

/// Parse the response frame at the front of `b`.
pub open spec fn parse_resp(b: Seq<u8>) -> RespParse {
    if b.len() == 0 {
        RespParse::Incomplete
    } else if b[0] != TAG_RESPONSE {
        RespParse::Malformed
    } else if b.len() < 11 {
        RespParse::Incomplete
    } else {
        let sign = b[1];
        let mag = from_le(b.subrange(2, 10));
        let flag = b[10];
        if !(sign == 0 || sign == 1) {
            RespParse::Malformed
        } else if sign == 0 && mag >= 0x8000_0000 {
            RespParse::Malformed
        } else if sign == 1 && (mag == 0 || mag > 0x8000_0000) {
            RespParse::Malformed
        } else {
            let status: int = if sign == 1 {
                -(mag as int)
            } else {
                mag as int
            };
            if flag == 0 {
                RespParse::Parsed { resp: RespModel { status, msg: Option::None }, len: 11 }
            } else if flag == 1 {
                if b.len() < 19 {
                    RespParse::Incomplete
                } else {
                    let mlen = from_le(b.subrange(11, 19));
                    if b.len() < 19 + mlen {
                        RespParse::Incomplete
                    } else {
                        let mb = b.subrange(19, 19int + mlen);
                        if valid_utf8(mb) {
                            RespParse::Parsed {
                                resp: RespModel {
                                    status,
                                    msg: Option::Some(decode_utf8(mb)),
                                },
                                len: 19 + mlen,
                            }
                        } else {
                            RespParse::Malformed
                        }
                    }
                }
            } else {
                RespParse::Malformed
            }
        }
    }
}

/// Encode `resp` as one frame.
pub fn encode_response(resp: &Response) -> (r: Vec<u8>)
    ensures
        r@ == resp_bytes(resp@),
        resp_fits(resp@),
{
    let mut r: Vec<u8> = Vec::new();
    r.push(TAG_RESPONSE);
    let mag: u64 = if resp.status < 0 {
        r.push(1u8);
        (-(resp.status as i64)) as u64
    } else {
        r.push(0u8);
        resp.status as u64
    };
    let mut magv = le8(mag);
    r.append(&mut magv);
    match &resp.msg {
        Option::Some(s) => {
            r.push(1u8);
            let mut bytes = s.as_str().as_bytes_vec();
            proof {
                lemma_pow256_8();
            }
            let mut lenv = le8(bytes.len() as u64);
            r.append(&mut lenv);
            r.append(&mut bytes);
        },
        Option::None => {
            r.push(0u8);
        },
    }
    proof {
        assert(r@ =~= resp_bytes(resp@));
    }
    r
}

/// What `decode_response` found at the given position.
pub enum RespDecodeOutcome {
    /// One frame decoded; the frame ends just before `next`.
    Decoded {
        /// The decoded response.
        resp: Response,
        /// The position just past the frame.
        next: usize,
    },
    /// The bytes end mid-frame.
    Incomplete,
    /// The bytes at this position are not a response frame.
    Malformed,
}

/// Decode the response frame starting at `pos` in `buf`.
pub fn decode_response(buf: &Vec<u8>, pos: usize) -> (r: RespDecodeOutcome)
    requires
        pos <= buf@.len(),
    ensures
        match parse_resp(buf@.skip(pos as int)) {
            RespParse::Parsed { resp: m, len } => r matches RespDecodeOutcome::Decoded {
                resp,
                next,
            } && resp@ == m && next == pos + len && pos + len <= buf@.len(),
            RespParse::Incomplete => r is Incomplete,
            RespParse::Malformed => r is Malformed,
        },
{
    let ghost s = buf@.skip(pos as int);
    proof {
        assert forall|i: int| 0 <= i < s.len() implies s[i] == buf@[pos + i] by {}
    }
    let len = buf.len();
    let rem = len - pos;
    if rem == 0 {
        return RespDecodeOutcome::Incomplete;
    }
    let tag = buf[pos];
    if tag != TAG_RESPONSE {
        return RespDecodeOutcome::Malformed;
    }
    if rem < 11 {
        return RespDecodeOutcome::Incomplete;
    }
    let sign = buf[pos + 1];
    let mag = read_le8(buf, pos + 2);
    proof {
        assert(buf@.subrange(pos + 2, pos + 10) =~= s.subrange(2, 10));
    }
    let flag = buf[pos + 10];
    if !(sign == 0 || sign == 1) {
        return RespDecodeOutcome::Malformed;
    }
    if sign == 0 && mag >= 0x8000_0000 {
        return RespDecodeOutcome::Malformed;
    }
    if sign == 1 && (mag == 0 || mag > 0x8000_0000) {
        return RespDecodeOutcome::Malformed;
    }
    let status: i32 = if sign == 1 {
        (-(mag as i64)) as i32
    } else {
        mag as i32
    };
    if flag == 0 {
        return RespDecodeOutcome::Decoded {
            resp: Response { status, msg: None },
            next: pos + 11,
        };
    }
    if flag != 1 {
        return RespDecodeOutcome::Malformed;
    }
    if rem < 19 {
        return RespDecodeOutcome::Incomplete;
    }
    let mlen64 = read_le8(buf, pos + 11);
    proof {
        assert(buf@.subrange(pos + 11, pos + 19) =~= s.subrange(11, 19));
    }
    if mlen64 > (rem - 19) as u64 {
        return RespDecodeOutcome::Incomplete;
    }
    let mlen = mlen64 as usize;
    let mb = copy_range(buf, pos + 19, mlen);
    proof {
        assert(mb@ =~= s.subrange(19, 19int + mlen as nat));
    }
    match bytes_to_string(mb) {
        Some(m) => RespDecodeOutcome::Decoded {
            resp: Response { status, msg: Some(m) },
            next: pos + 19 + mlen,
        },
        None => RespDecodeOutcome::Malformed,
    }
}

/// Round trip: the frame encoding of any response parses back to that
/// response, whatever follows it.
pub proof fn lemma_resp_round_trip(m: RespModel, rest: Seq<u8>)
    requires
        resp_fits(m),
    ensures
        parse_resp(resp_bytes(m) + rest) == (RespParse::Parsed {
            resp: m,
            len: resp_bytes(m).len(),
        }),
{
    broadcast use encode_utf8_valid_utf8, encode_utf8_decode_utf8;

    let b = resp_bytes(m) + rest;
    let mag = status_mag(m.status);
    lemma_le_bytes_len(mag, 8);
    lemma_pow256_8();
    assert(b[0] == TAG_RESPONSE);
    assert(b[1] == (if m.status < 0 { 1u8 } else { 0u8 }));
    assert(b.subrange(2, 10) =~= le_bytes(mag, 8));
    lemma_le_round_trip(mag, 8);
    match m.msg {
        Option::None => {
            assert(b[10] == 0u8);
            assert(resp_bytes(m).len() == 11);
        },
        Option::Some(t) => {
            let tb = encode_utf8(t);
            let tlen = tb.len();
            lemma_le_bytes_len(tlen, 8);
            assert(b[10] == 1u8);
            assert(resp_bytes(m).len() == 19 + tlen);
            assert(b.subrange(11, 19) =~= le_bytes(tlen, 8));
            lemma_le_round_trip(tlen, 8);
            assert(b.subrange(19, 19int + tlen) =~= tb);
        },
    }
}

} // verus!
