//! Self-delimited record frames.
//!
//! Every persisted record and every wire message is one frame: a tag byte,
//! then each text field as an 8-byte little-endian length followed by that
//! many bytes of UTF-8.  A decoder can therefore recover frame boundaries
//! from a byte stream without any out-of-band information, and a truncated
//! tail is recognised as incomplete rather than malformed.

use crate::OpModel;
use crate::Operation;
use vstd::arithmetic::div_mod::lemma_fundamental_div_mod;
use vstd::arithmetic::div_mod::lemma_fundamental_div_mod_converse;
use vstd::prelude::*;
use vstd::string::StrSliceExecFns;
use vstd::utf8::decode_utf8;
use vstd::utf8::encode_utf8;
use vstd::utf8::encode_utf8_decode_utf8;
use vstd::utf8::encode_utf8_valid_utf8;
use vstd::utf8::valid_utf8;

verus! {

/// The tag byte that starts a persisted or wire `Put` frame.
pub const TAG_PUT: u8 = 80;

/// The tag byte that starts a persisted or wire `Remove` frame.
pub const TAG_REMOVE: u8 = 82;

/// The tag byte that starts a wire `Get` frame.
pub const TAG_GET: u8 = 71;

/// The tag byte that starts a wire response frame.
pub const TAG_RESPONSE: u8 = 65;

/// 256 raised to `count`: the number of values `count` bytes can hold.
pub open spec fn pow256(count: nat) -> nat
    decreases count,
{
    if count == 0 {
        1
    } else {
        256 * pow256((count - 1) as nat)
    }
}

/// The `count`-byte little-endian encoding of `n` (modulo 256^count).
pub open spec fn le_bytes(n: nat, count: nat) -> Seq<u8>
    decreases count,
{
    if count == 0 {
        Seq::empty()
    } else {
        seq![(n % 256) as u8] + le_bytes(n / 256, (count - 1) as nat)
    }
}

/// The value of a little-endian byte sequence.
pub open spec fn from_le(b: Seq<u8>) -> nat
    decreases b.len(),
{
    if b.len() == 0 {
        0
    } else {
        (b[0] + 256 * from_le(b.drop_first())) as nat
    }
}

/// A `count`-byte little-endian encoding has `count` bytes.
pub proof fn lemma_le_bytes_len(n: nat, count: nat)
    ensures
        le_bytes(n, count).len() == count,
    decreases count,
{
    if count > 0 {
        lemma_le_bytes_len(n / 256, (count - 1) as nat);
    }
}

/// The value of a little-endian byte sequence is below 256^length.
pub proof fn lemma_from_le_bound(b: Seq<u8>)
    ensures
        from_le(b) < pow256(b.len()),
    decreases b.len(),
{
    if b.len() > 0 {
        lemma_from_le_bound(b.drop_first());
    }
}

/// Reading back the little-endian encoding of `n` recovers `n`.
pub proof fn lemma_le_round_trip(n: nat, count: nat)
    requires
        n < pow256(count),
    ensures
        from_le(le_bytes(n, count)) == n,
    decreases count,
{
    if count > 0 {
        let rest = le_bytes(n / 256, (count - 1) as nat);
        lemma_le_bytes_len(n / 256, (count - 1) as nat);
        assert(le_bytes(n, count).drop_first() =~= rest);
        assert(n / 256 < pow256((count - 1) as nat)) by {
            lemma_fundamental_div_mod(n as int, 256);
        };
        lemma_le_round_trip(n / 256, (count - 1) as nat);
        lemma_fundamental_div_mod(n as int, 256);
    }
}

/// The byte count 8 covers exactly the `u64` range.
pub proof fn lemma_pow256_8()
    ensures
        pow256(8) == 0x1_0000_0000_0000_0000,
{
    reveal_with_fuel(pow256, 9);
}

/// The 8-byte little-endian encoding of `n`.
pub fn le8(n: u64) -> (r: Vec<u8>)
    ensures
        r@ == le_bytes(n as nat, 8),
        r@.len() == 8,
{
    let mut r: Vec<u8> = Vec::new();
    let mut m: u64 = n;
    let mut i: usize = 0;
    while i < 8
        invariant
            i <= 8,
            r@.len() == i,
            le_bytes(n as nat, 8) == r@ + le_bytes(m as nat, (8 - i) as nat),
        decreases 8 - i,
    {
        let b: u8 = (m % 256) as u8;
        proof {
            assert(le_bytes(m as nat, (8 - i) as nat) == seq![b] + le_bytes(
                m as nat / 256,
                (8 - (i + 1)) as nat,
            ));
            assert(r@ + (seq![b] + le_bytes(m as nat / 256, (8 - (i + 1)) as nat)) =~= r@.push(b)
                + le_bytes(m as nat / 256, (8 - (i + 1)) as nat));
        }
        r.push(b);
        m = m / 256;
        i = i + 1;
    }
    proof {
        lemma_le_bytes_len(n as nat, 8);
        assert(r@ =~= r@ + le_bytes(m as nat, 0));
    }
    r
}

/// Read the 8-byte little-endian value stored at `pos`.
pub fn read_le8(buf: &Vec<u8>, pos: usize) -> (n: u64)
    requires
        pos + 8 <= buf@.len(),
    ensures
        n as nat == from_le(buf@.subrange(pos as int, pos + 8)),
{
    let ghost whole = buf@.subrange(pos as int, pos + 8);
    let len = buf.len();
    let mut n: u64 = 0;
    let mut j: usize = 8;
    while j > 0
        invariant
            j <= 8,
            len == buf@.len(),
            pos + 8 <= buf@.len(),
            whole == buf@.subrange(pos as int, pos + 8),
            n as nat == from_le(whole.subrange(j as int, 8)),
            (n as nat) < pow256((8 - j) as nat),
        decreases j,
    {
        let ghost prev = whole.subrange(j as int, 8);
        j = j - 1;
        let b: u8 = buf[pos + j];
        proof {
            let cur = whole.subrange(j as int, 8);
            assert(cur[0] == whole[j as int] == b);
            assert(cur.drop_first() =~= prev);
            assert(from_le(cur) == b + 256 * from_le(prev));
            assert((8 - j) as nat == ((8 - j - 1) + 1) as nat);
            assert(pow256(((8 - j - 1) + 1) as nat) == 256 * pow256((8 - j - 1) as nat));
            lemma_pow256_8();
            assert(pow256((8 - j) as nat) <= pow256(8)) by {
                lemma_pow256_increases((8 - j) as nat, 8);
            };
        }
        n = n * 256 + (b as u64);
    }
    proof {
        assert(whole.subrange(0, 8) =~= whole);
    }
    n
}

proof fn lemma_pow256_increases(a: nat, b: nat)
    requires
        a <= b,
    ensures
        pow256(a) <= pow256(b),
    decreases b,
{
    if a < b && b > 0 {
        lemma_pow256_increases(a, (b - 1) as nat);
    }
}

/// A text's UTF-8 form takes at most four bytes per character.
pub proof fn lemma_encode_utf8_len(s: Seq<char>)
    ensures
        encode_utf8(s).len() <= 4 * s.len(),
    decreases s.len(),
{
    if s.len() > 0 {
        lemma_encode_utf8_len(s.drop_first());
        assert(vstd::utf8::encode_scalar(s[0] as u32).len() <= 4);
    }
}

/// A length-prefixed text field: 8 bytes of length, then the UTF-8 bytes.
pub open spec fn text_block(s: Seq<char>) -> Seq<u8> {
    le_bytes(encode_utf8(s).len(), 8) + encode_utf8(s)
}

/// Whether the UTF-8 form of `s` fits an 8-byte length field.  Every text
/// held in memory does.
pub open spec fn text_fits(s: Seq<char>) -> bool {
    encode_utf8(s).len() < pow256(8)
}

/// Whether every text field of `m` fits its length field.
pub open spec fn op_fits(m: OpModel) -> bool {
    match m {
        OpModel::Put { key, value } => text_fits(key) && text_fits(value),
        OpModel::Remove { key } => text_fits(key),
        OpModel::Get { key } => text_fits(key),
    }
}

/// The frame encoding an operation: a tag byte, then one text block per
/// field.
pub open spec fn frame_bytes(m: OpModel) -> Seq<u8> {
    match m {
        OpModel::Put { key, value } => seq![TAG_PUT] + text_block(key) + text_block(value),
        OpModel::Remove { key } => seq![TAG_REMOVE] + text_block(key),
        OpModel::Get { key } => seq![TAG_GET] + text_block(key),
    }
}

/// What a byte sequence holds at its front: a whole frame, the start of a
/// frame cut off by the end of the sequence, or bytes no frame starts with.
pub enum FrameParse {
    /// A whole frame of `len` bytes decoding to `op`.
    Parsed { op: OpModel, len: nat },
    /// A strict prefix of a frame.
    Incomplete,
    /// Not a frame: an unknown tag or text that is not UTF-8.
    Malformed,
}

/// The length field stored at offset `at`.
pub open spec fn block_len_at(b: Seq<u8>, at: nat) -> nat {
    from_le(b.subrange(at as int, at + 8int))
}

/// Parse the frame at the front of `b`.
pub open spec fn parse_frame(b: Seq<u8>) -> FrameParse {
    if b.len() == 0 {
        FrameParse::Incomplete
    } else if b[0] == TAG_PUT {
        if b.len() < 9 {
            FrameParse::Incomplete
        } else {
            let klen = block_len_at(b, 1);
            if b.len() < 9 + klen {
                FrameParse::Incomplete
            } else {
                let kb = b.subrange(9, 9int + klen);
                if b.len() < 17 + klen {
                    FrameParse::Incomplete
                } else {
                    let vlen = block_len_at(b, 9 + klen);
                    if b.len() < 17 + klen + vlen {
                        FrameParse::Incomplete
                    } else {
                        let vb = b.subrange(17int + klen, 17int + klen + vlen);
                        if valid_utf8(kb) && valid_utf8(vb) {
                            FrameParse::Parsed {
                                op: OpModel::Put {
                                    key: decode_utf8(kb),
                                    value: decode_utf8(vb),
                                },
                                len: 17 + klen + vlen,
                            }
                        } else {
                            FrameParse::Malformed
                        }
                    }
                }
            }
        }
    } else if b[0] == TAG_REMOVE || b[0] == TAG_GET {
        if b.len() < 9 {
            FrameParse::Incomplete
        } else {
            let klen = block_len_at(b, 1);
            if b.len() < 9 + klen {
                FrameParse::Incomplete
            } else {
                let kb = b.subrange(9, 9int + klen);
                if valid_utf8(kb) {
                    FrameParse::Parsed {
                        op: if b[0] == TAG_REMOVE {
                            OpModel::Remove { key: decode_utf8(kb) }
                        } else {
                            OpModel::Get { key: decode_utf8(kb) }
                        },
                        len: 9 + klen,
                    }
                } else {
                    FrameParse::Malformed
                }
            }
        }
    } else {
        FrameParse::Malformed
    }
}

/// Append the text block for `s` to `out`.
fn push_text(out: &mut Vec<u8>, s: &String)
    ensures
        final(out)@ == old(out)@ + text_block(s@),
        text_fits(s@),
{
    let mut bytes = s.as_str().as_bytes_vec();
    proof {
        lemma_pow256_8();
    }
    let mut lenv = le8(bytes.len() as u64);
    let ghost mid = out@ + lenv@;
    out.append(&mut lenv);
    out.append(&mut bytes);
    proof {
        assert(final(out)@ =~= old(out)@ + text_block(s@));
    }
}

/// Encode `op` as one frame.
pub fn encode_op(op: &Operation) -> (r: Vec<u8>)
    ensures
        r@ == frame_bytes(op@),
        op_fits(op@),
{
    let mut r: Vec<u8> = Vec::new();
    match op {
        Operation::Put { key, value } => {
            r.push(TAG_PUT);
            push_text(&mut r, key);
            push_text(&mut r, value);
            proof {
                assert(r@ =~= frame_bytes(op@));
            }
        },
        Operation::Remove { key } => {
            r.push(TAG_REMOVE);
            push_text(&mut r, key);
            proof {
                assert(r@ =~= frame_bytes(op@));
            }
        },
        Operation::Get { key } => {
            r.push(TAG_GET);
            push_text(&mut r, key);
            proof {
                assert(r@ =~= frame_bytes(op@));
            }
        },
    }
    r
}

/// Relies on `String::from_utf8`: it succeeds exactly on valid UTF-8 input
/// and yields the string those bytes encode.
#[verifier::external_body]
pub fn bytes_to_string(bytes: Vec<u8>) -> (r: Option<String>)
    ensures
        r is Some <==> valid_utf8(bytes@),
        r matches Some(s) ==> s@ == decode_utf8(bytes@),
{
    match String::from_utf8(bytes) {
        Ok(s) => Some(s),
        Err(_) => None,
    }
}

/// Copy `count` bytes of `buf` starting at `start`.
pub fn copy_range(buf: &Vec<u8>, start: usize, count: usize) -> (r: Vec<u8>)
    requires
        start + count <= buf@.len(),
    ensures
        r@ == buf@.subrange(start as int, start + count as int),
{
    let len = buf.len();
    let mut r: Vec<u8> = Vec::new();
    let mut i: usize = 0;
    while i < count
        invariant
            i <= count,
            len == buf@.len(),
            start + count <= buf@.len(),
            r@ == buf@.subrange(start as int, start + i as int),
        decreases count - i,
    {
        proof {
            assert(buf@.subrange(start as int, start + i as int).push(buf@[start + i]) =~= buf@.subrange(
                start as int,
                start + i + 1int,
            ));
        }
        r.push(buf[start + i]);
        i = i + 1;
    }
    r
}

/// What `decode_op` found at the given position.
pub enum DecodeOutcome {
    /// One frame decoded; the frame ends just before `next`.
    Decoded {
        /// The decoded operation.
        op: Operation,
        /// The position just past the frame.
        next: usize,
    },
    /// The bytes end mid-frame.
    Incomplete,
    /// The bytes at this position are not a frame.
    Malformed,
}

/// Decode the frame starting at `pos` in `buf`.
pub fn decode_op(buf: &Vec<u8>, pos: usize) -> (r: DecodeOutcome)
    requires
        pos <= buf@.len(),
    ensures
        match parse_frame(buf@.skip(pos as int)) {
            FrameParse::Parsed { op: m, len } => r matches DecodeOutcome::Decoded { op, next }
                && op@ == m && next == pos + len && pos + len <= buf@.len(),
            FrameParse::Incomplete => r is Incomplete,
            FrameParse::Malformed => r is Malformed,
        },
{
    let ghost s = buf@.skip(pos as int);
    proof {
        assert forall|i: int| 0 <= i < s.len() implies s[i] == buf@[pos + i] by {}
    }
    let len = buf.len();
    let rem = len - pos;
    if rem == 0 {
        return DecodeOutcome::Incomplete;
    }
    let tag = buf[pos];
    if tag == TAG_PUT {
        if rem < 9 {
            return DecodeOutcome::Incomplete;
        }
        let klen64 = read_le8(buf, pos + 1);
        proof {
            assert(buf@.subrange(pos + 1, pos + 9) =~= s.subrange(1, 9));
        }
        if klen64 > (rem - 9) as u64 {
            return DecodeOutcome::Incomplete;
        }
        let klen = klen64 as usize;
        let rem2 = rem - 9 - klen;
        if rem2 < 8 {
            return DecodeOutcome::Incomplete;
        }
        let vlen64 = read_le8(buf, pos + 9 + klen);
        proof {
            assert(buf@.subrange(pos + 9 + klen, pos + 17 + klen) =~= s.subrange(
                9 + klen as int,
                17 + klen as int,
            ));
        }
        if vlen64 > (rem2 - 8) as u64 {
            return DecodeOutcome::Incomplete;
        }
        let vlen = vlen64 as usize;
        let kb = copy_range(buf, pos + 9, klen);
        let vb = copy_range(buf, pos + 17 + klen, vlen);
        proof {
            assert(kb@ =~= s.subrange(9, 9int + klen as nat));
            assert(vb@ =~= s.subrange(17int + klen as nat, 17int + klen as nat + vlen as nat));
        }
        let key = match bytes_to_string(kb) {
            Some(k) => k,
            None => {
                return DecodeOutcome::Malformed;
            },
        };
        let value = match bytes_to_string(vb) {
            Some(v) => v,
            None => {
                return DecodeOutcome::Malformed;
            },
        };
        DecodeOutcome::Decoded { op: Operation::Put { key, value }, next: pos + 17 + klen + vlen }
    } else if tag == TAG_REMOVE || tag == TAG_GET {
        if rem < 9 {
            return DecodeOutcome::Incomplete;
        }
        let klen64 = read_le8(buf, pos + 1);
        proof {
            assert(buf@.subrange(pos + 1, pos + 9) =~= s.subrange(1, 9));
        }
        if klen64 > (rem - 9) as u64 {
            return DecodeOutcome::Incomplete;
        }
        let klen = klen64 as usize;
        let kb = copy_range(buf, pos + 9, klen);
        proof {
            assert(kb@ =~= s.subrange(9, 9int + klen as nat));
        }
        let key = match bytes_to_string(kb) {
            Some(k) => k,
            None => {
                return DecodeOutcome::Malformed;
            },
        };
        let op = if tag == TAG_REMOVE {
            Operation::Remove { key }
        } else {
            Operation::Get { key }
        };
        DecodeOutcome::Decoded { op, next: pos + 9 + klen }
    } else {
        DecodeOutcome::Malformed
    }
}

/// 10 raised to `count`: the number of values `count` decimal digits can
/// hold.
pub open spec fn pow10(count: nat) -> nat
    decreases count,
{
    if count == 0 {
        1
    } else {
        10 * pow10((count - 1) as nat)
    }
}

/// The ASCII decimal digits of `n`, most significant first, no sign and no
/// leading zero.
pub open spec fn dec_bytes(n: nat) -> Seq<u8>
    decreases n,
{
    if n < 10 {
        seq![(48 + n) as u8]
    } else {
        dec_bytes(n / 10) + seq![(48 + n % 10) as u8]
    }
}

/// Whether `b` is an ASCII decimal digit.
pub open spec fn is_digit(b: u8) -> bool {
    48 <= b <= 57
}

/// Whether every byte of `b` is an ASCII decimal digit.
pub open spec fn all_digits(b: Seq<u8>) -> bool {
    forall|i: int| 0 <= i < b.len() ==> is_digit(b[i])
}

/// The value of a sequence of ASCII decimal digits.
pub open spec fn dec_val(b: Seq<u8>) -> nat
    recommends
        all_digits(b),
    decreases b.len(),
{
    if b.len() == 0 {
        0
    } else {
        (dec_val(b.drop_last()) * 10 + (b.last() - 48)) as nat
    }
}

/// The decimal digits of `n` are digits, and there is at least one.
pub proof fn lemma_dec_bytes_digits(n: nat)
    ensures
        all_digits(dec_bytes(n)),
        dec_bytes(n).len() >= 1,
    decreases n,
{
    if n >= 10 {
        lemma_dec_bytes_digits(n / 10);
    }
}

/// Reading back the decimal digits of `n` recovers `n`.
pub proof fn lemma_dec_round_trip(n: nat)
    ensures
        dec_val(dec_bytes(n)) == n,
    decreases n,
{
    if n < 10 {
        let b = dec_bytes(n);
        assert(b.drop_last() =~= Seq::<u8>::empty());
        assert(b.last() == (48 + n) as u8);
        assert(dec_val(b) == (dec_val(Seq::<u8>::empty()) * 10 + ((48 + n) as u8 - 48)) as nat);
    } else {
        let b = dec_bytes(n);
        lemma_dec_bytes_digits(n / 10);
        assert(b.drop_last() =~= dec_bytes(n / 10));
        assert(b.last() == (48 + n % 10) as u8);
        lemma_dec_round_trip(n / 10);
        assert(dec_val(b) == (dec_val(dec_bytes(n / 10)) * 10 + ((48 + n % 10) as u8 - 48)) as nat);
        lemma_fundamental_div_mod(n as int, 10);
    }
}

/// `n` has at most `k` decimal digits when `n < 10^k` (for `k >= 1`).
pub proof fn lemma_dec_bytes_len(n: nat, k: nat)
    requires
        k >= 1,
        n < pow10(k),
    ensures
        dec_bytes(n).len() <= k,
    decreases n,
{
    if n >= 10 {
        assert(pow10(k) == 10 * pow10((k - 1) as nat));
        assert(n / 10 < pow10((k - 1) as nat)) by {
            lemma_fundamental_div_mod(n as int, 10);
        };
        lemma_dec_bytes_len(n / 10, (k - 1) as nat);
    }
}

/// Every `u64` value has at most 20 decimal digits.
pub proof fn lemma_pow10_20()
    ensures
        pow256(8) < pow10(20),
{
    reveal_with_fuel(pow10, 21);
    lemma_pow256_8();
}

/// Appending an ASCII byte to valid UTF-8 keeps it valid.
pub proof fn lemma_valid_utf8_snoc_ascii(b: Seq<u8>, d: u8)
    requires
        valid_utf8(b),
        d < 128,
    ensures
        valid_utf8(b.push(d)),
    decreases b.len(),
{
    let s = b.push(d);
    if b.len() == 0 {
        assert(s[0] == d);
        assert(vstd::utf8::is_leading_byte_width_1(d));
        assert(d & 0x7f == d) by (bit_vector)
            requires
                d < 128,
        ;
        assert(vstd::utf8::valid_first_scalar(s));
        assert(vstd::utf8::pop_first_scalar(s) =~= Seq::<u8>::empty());
        assert(valid_utf8(Seq::<u8>::empty()));
    } else {
        assert(vstd::utf8::valid_first_scalar(b));
        assert forall|i: int| 0 <= i < b.len() implies s[i] == b[i] by {}
        assert(vstd::utf8::valid_first_scalar(s));
        assert(vstd::utf8::length_of_first_scalar(s) == vstd::utf8::length_of_first_scalar(b));
        assert(vstd::utf8::pop_first_scalar(s) =~= vstd::utf8::pop_first_scalar(b).push(d));
        lemma_valid_utf8_snoc_ascii(vstd::utf8::pop_first_scalar(b), d);
    }
}

/// The decimal digits of a number are valid UTF-8.
pub proof fn lemma_dec_bytes_valid_utf8(n: nat)
    ensures
        valid_utf8(dec_bytes(n)),
    decreases n,
{
    if n < 10 {
        assert(dec_bytes(n) =~= Seq::<u8>::empty().push((48 + n) as u8));
        lemma_valid_utf8_snoc_ascii(Seq::empty(), (48 + n) as u8);
    } else {
        lemma_dec_bytes_valid_utf8(n / 10);
        assert(dec_bytes(n) =~= dec_bytes(n / 10).push((48 + n % 10) as u8));
        lemma_valid_utf8_snoc_ascii(dec_bytes(n / 10), (48 + n % 10) as u8);
    }
}

/// The decimal digits of `n`, as bytes.
pub fn u64_to_dec(n: u64) -> (r: Vec<u8>)
    ensures
        r@ == dec_bytes(n as nat),
{
    let mut rev: Vec<u8> = Vec::new();
    let mut m: u64 = n;
    while m >= 10
        invariant
            dec_bytes(n as nat) == dec_bytes(m as nat) + rev@.reverse(),
        decreases m,
    {
        let d: u8 = 48 + (m % 10) as u8;
        proof {
            assert(dec_bytes(m as nat) == dec_bytes(m as nat / 10) + seq![d]);
            assert(seq![d] + rev@.reverse() =~= rev@.push(d).reverse());
            assert((dec_bytes(m as nat / 10) + seq![d]) + rev@.reverse() =~= dec_bytes(
                m as nat / 10,
            ) + (seq![d] + rev@.reverse()));
        }
        rev.push(d);
        m = m / 10;
    }
    let d: u8 = 48 + (m % 10) as u8;
    proof {
        assert(dec_bytes(m as nat) =~= seq![d]);
        assert(seq![d] + rev@.reverse() =~= rev@.push(d).reverse());
    }
    rev.push(d);
    let ghost digits = rev@;
    let mut r: Vec<u8> = Vec::new();
    let len = rev.len();
    let mut i: usize = len;
    while i > 0
        invariant
            i <= len,
            len == digits.len(),
            rev@ == digits,
            r@.len() == len - i,
            forall|j: int| 0 <= j < r@.len() ==> r@[j] == digits[len - 1 - j],
        decreases i,
    {
        i = i - 1;
        r.push(rev[i]);
    }
    proof {
        assert(r@ =~= digits.reverse());
        assert(digits.reverse() =~= dec_bytes(n as nat));
    }
    r
}

/// Little-endian encoding the value of an 8-byte sequence gives back that
/// sequence.
pub proof fn lemma_le_bytes_from_le(s: Seq<u8>, count: nat)
    requires
        s.len() == count,
    ensures
        le_bytes(from_le(s), count) == s,
    decreases count,
{
    if count > 0 {
        let r = from_le(s.drop_first());
        lemma_fundamental_div_mod_converse(s[0] + 256 * r, 256, r as int, s[0] as int);
        lemma_le_bytes_from_le(s.drop_first(), (count - 1) as nat);
        assert(le_bytes(from_le(s), count) =~= s);
    } else {
        assert(le_bytes(from_le(s), count) =~= s);
    }
}

/// A parsed frame is at least 9 bytes long and lies within its input.
pub proof fn lemma_parse_frame_len(b: Seq<u8>)
    requires
        parse_frame(b) is Parsed,
    ensures
        9 <= parse_frame(b)->Parsed_len <= b.len(),
{
}

/// Parsing reads only the frame's own bytes: any sequence that carries the
/// same `len`-byte prefix parses to the same frame.
pub proof fn lemma_parse_frame_agree(x: Seq<u8>, y: Seq<u8>)
    requires
        parse_frame(x) is Parsed,
        y.len() >= parse_frame(x)->Parsed_len,
        x.subrange(0, parse_frame(x)->Parsed_len as int) == y.subrange(
            0,
            parse_frame(x)->Parsed_len as int,
        ),
    ensures
        parse_frame(y) == parse_frame(x),
{
    let len = parse_frame(x)->Parsed_len;
    lemma_parse_frame_len(x);
    assert forall|i: int| 0 <= i < len implies x[i] == y[i] by {
        assert(x.subrange(0, len as int)[i] == y.subrange(0, len as int)[i]);
    }
    if x[0] == TAG_PUT {
        let klen = block_len_at(x, 1);
        assert(y.subrange(1, 9) =~= x.subrange(1, 9));
        assert(block_len_at(y, 1) == klen);
        assert(y.subrange(9, 9int + klen) =~= x.subrange(9, 9int + klen));
        assert(y.subrange(9 + klen as int, 17 + klen as int) =~= x.subrange(
            9 + klen as int,
            17 + klen as int,
        ));
        let vlen = block_len_at(x, 9 + klen);
        assert(block_len_at(y, 9 + klen) == vlen);
        assert(y.subrange(17int + klen, 17int + klen + vlen) =~= x.subrange(
            17int + klen,
            17int + klen + vlen,
        ));
    } else {
        let klen = block_len_at(x, 1);
        assert(y.subrange(1, 9) =~= x.subrange(1, 9));
        assert(block_len_at(y, 1) == klen);
        assert(y.subrange(9, 9int + klen) =~= x.subrange(9, 9int + klen));
    }
}

/// A strict, non-empty prefix of a parsed frame is incomplete, never
/// malformed: cutting a frame short at any point reads as a frame still
/// being written.
pub proof fn lemma_parse_frame_prefix_incomplete(x: Seq<u8>, y: Seq<u8>)
    requires
        parse_frame(x) is Parsed,
        1 <= y.len() < parse_frame(x)->Parsed_len,
        y == x.subrange(0, y.len() as int),
    ensures
        parse_frame(y) is Incomplete,
{
    let len = parse_frame(x)->Parsed_len;
    lemma_parse_frame_len(x);
    let k = y.len() as int;
    assert forall|i: int| 0 <= i < k implies y[i] == x[i] by {
        assert(y[i] == x.subrange(0, k)[i]);
    }
    assert(y[0] == x[0]);
    if x[0] == TAG_PUT {
        let klen = block_len_at(x, 1);
        if k >= 9 {
            assert(y.subrange(1, 9) =~= x.subrange(1, 9));
            assert(block_len_at(y, 1) == klen);
            if k >= 9 + klen && k >= 17 + klen {
                assert(y.subrange(9 + klen as int, 17 + klen as int) =~= x.subrange(
                    9 + klen as int,
                    17 + klen as int,
                ));
                assert(block_len_at(y, 9 + klen) == block_len_at(x, 9 + klen));
            }
        }
    } else {
        let klen = block_len_at(x, 1);
        if k >= 9 {
            assert(y.subrange(1, 9) =~= x.subrange(1, 9));
            assert(block_len_at(y, 1) == klen);
        }
    }
}

/// Frames are canonical: the bytes of a parsed frame are exactly the frame
/// encoding of the operation it decodes to.
pub proof fn lemma_parse_frame_canonical(x: Seq<u8>)
    requires
        parse_frame(x) is Parsed,
    ensures
        x.subrange(0, parse_frame(x)->Parsed_len as int) == frame_bytes(parse_frame(x)->Parsed_op),
        op_fits(parse_frame(x)->Parsed_op),
{
    broadcast use vstd::utf8::decode_utf8_encode_utf8;

    let len = parse_frame(x)->Parsed_len;
    let m = parse_frame(x)->Parsed_op;
    lemma_parse_frame_len(x);
    if x[0] == TAG_PUT {
        let klen = block_len_at(x, 1);
        let kb = x.subrange(9, 9int + klen);
        let vlen = block_len_at(x, 9 + klen);
        let vb = x.subrange(17int + klen, 17int + klen + vlen);
        lemma_from_le_bound(x.subrange(1, 9));
        lemma_from_le_bound(x.subrange(9 + klen as int, 17 + klen as int));
        assert(encode_utf8(decode_utf8(kb)) == kb);
        assert(encode_utf8(decode_utf8(vb)) == vb);
        lemma_le_bytes_from_le(x.subrange(1, 9), 8);
        lemma_le_bytes_from_le(x.subrange(9 + klen as int, 17 + klen as int), 8);
        assert(x.subrange(0, len as int) =~= seq![TAG_PUT] + x.subrange(1, 9) + kb + x.subrange(
            9 + klen as int,
            17 + klen as int,
        ) + vb);
    } else {
        let klen = block_len_at(x, 1);
        let kb = x.subrange(9, 9int + klen);
        lemma_from_le_bound(x.subrange(1, 9));
        assert(encode_utf8(decode_utf8(kb)) == kb);
        lemma_le_bytes_from_le(x.subrange(1, 9), 8);
        assert(x.subrange(0, len as int) =~= seq![x[0]] + x.subrange(1, 9) + kb);
    }
}

/// Round trip: the frame encoding of any operation parses back to that
/// operation, whatever follows it.
pub proof fn lemma_frame_round_trip(m: OpModel, rest: Seq<u8>)
    requires
        op_fits(m),
    ensures
        parse_frame(frame_bytes(m) + rest) == (FrameParse::Parsed {
            op: m,
            len: frame_bytes(m).len(),
        }),
{
    broadcast use encode_utf8_valid_utf8, encode_utf8_decode_utf8;

    let b = frame_bytes(m) + rest;
    match m {
        OpModel::Put { key, value } => {
            let kb = encode_utf8(key);
            let vb = encode_utf8(value);
            let klen = kb.len();
            let vlen = vb.len();
            lemma_le_bytes_len(klen, 8);
            lemma_le_bytes_len(vlen, 8);
            assert(frame_bytes(m).len() == 17 + klen + vlen);
            assert(b[0] == TAG_PUT);
            assert(b.subrange(1, 9) =~= le_bytes(klen, 8));
            lemma_le_round_trip(klen, 8);
            assert(block_len_at(b, 1) == klen);
            assert(b.subrange(9, 9int + klen) =~= kb);
            assert(b.subrange(9 + klen as int, 17 + klen as int) =~= le_bytes(vlen, 8));
            lemma_le_round_trip(vlen, 8);
            assert(block_len_at(b, 9 + klen) == vlen);
            assert(b.subrange(17int + klen, 17int + klen + vlen) =~= vb);
        },
        OpModel::Remove { key } => {
            let kb = encode_utf8(key);
            let klen = kb.len();
            lemma_le_bytes_len(klen, 8);
            assert(frame_bytes(m).len() == 9 + klen);
            assert(b[0] == TAG_REMOVE);
            assert(b.subrange(1, 9) =~= le_bytes(klen, 8));
            lemma_le_round_trip(klen, 8);
            assert(block_len_at(b, 1) == klen);
            assert(b.subrange(9, 9int + klen) =~= kb);
        },
        OpModel::Get { key } => {
            let kb = encode_utf8(key);
            let klen = kb.len();
            lemma_le_bytes_len(klen, 8);
            assert(frame_bytes(m).len() == 9 + klen);
            assert(b[0] == TAG_GET);
            assert(b.subrange(1, 9) =~= le_bytes(klen, 8));
            lemma_le_round_trip(klen, 8);
            assert(block_len_at(b, 1) == klen);
            assert(b.subrange(9, 9int + klen) =~= kb);
        },
    }
}

} // verus!
