//! Byte-level building blocks of the MQTT v5 control-packet encoding: the
//! variable-length remaining-length integer, length-prefixed UTF-8 strings,
//! and the fixed header.
use crate::bytes_buf::{buf_bytes, put_u8};
use bytes::BytesMut;
use vstd::arithmetic::div_mod::{lemma_div_denominator, lemma_fundamental_div_mod};
use vstd::prelude::*;
use vstd::utf8::{decode_utf8, encode_utf8, valid_utf8};

verus! {

/// Greatest value a remaining-length integer can carry.
pub const MAX_REMAINING_LENGTH: usize = 268435455;

/// Why a packet failed to decode or encode.
#[derive(Clone, Copy, Debug, PartialEq, Eq, Structural)]
pub enum Error {
    /// The buffer ended before the requested bytes.
    InsufficientBytes(usize),
    /// A declared length points past the end of the buffer.
    BoundaryCrossed(usize),
    /// A reason code that the packet does not define.
    InvalidConnectReturnCode(u8),
    /// A property identifier that the packet does not define.
    InvalidPropertyType(u8),
    /// A malformed variable-length integer.
    MalformedRemainingLength,
    /// A length too large for the variable-length integer.
    PayloadTooLong,
    /// A string field that is not valid UTF-8.
    TopicNotUtf8,
}

/// The parsed fixed header of a control packet: its first byte, the total
/// byte length of the fixed header itself, and the declared length of the
/// rest of the packet.
#[derive(Clone, Copy, Debug, PartialEq, Eq, Structural)]
pub struct FixedHeader {
    pub byte1: u8,
    pub fixed_header_len: usize,
    pub remaining_len: usize,
}

/// How many bytes the variable-length encoding of `n` takes.
pub open spec fn len_len(n: int) -> int {
    if n < 128 {
        1
    } else if n < 16384 {
        2
    } else if n < 2097152 {
        3
    } else {
        4
    }
}

/// The variable-length encoding of `n`: seven value bits per byte, least
/// significant first, high bit set on every byte but the last.
pub open spec fn varint_of(n: int) -> Seq<u8>
    recommends
        0 <= n <= MAX_REMAINING_LENGTH,
{
    if n < 128 {
        seq![n as u8]
    } else if n < 16384 {
        seq![(n % 128 + 128) as u8, (n / 128) as u8]
    } else if n < 2097152 {
        seq![(n % 128 + 128) as u8, ((n / 128) % 128 + 128) as u8, (n / 16384) as u8]
    } else {
        seq![
            (n % 128 + 128) as u8,
            ((n / 128) % 128 + 128) as u8,
            ((n / 16384) % 128 + 128) as u8,
            (n / 2097152) as u8,
        ]
    }
}

/// Value and width of the variable-length integer at `i`, or the error the
/// decoder reports: truncation and a fourth continuation bit are both
/// malformed.
pub open spec fn parse_varint(b: Seq<u8>, i: int) -> Result<(int, int), Error> {
    if !(0 <= i < b.len()) {
        Err(Error::MalformedRemainingLength)
    } else if b[i] < 128 {
        Ok((b[i] as int, 1))
    } else if !(i + 1 < b.len()) {
        Err(Error::MalformedRemainingLength)
    } else if b[i + 1] < 128 {
        Ok(((b[i] - 128) + 128 * b[i + 1], 2))
    } else if !(i + 2 < b.len()) {
        Err(Error::MalformedRemainingLength)
    } else if b[i + 2] < 128 {
        Ok(((b[i] - 128) + 128 * (b[i + 1] - 128) + 16384 * b[i + 2], 3))
    } else if !(i + 3 < b.len()) {
        Err(Error::MalformedRemainingLength)
    } else if b[i + 3] < 128 {
        Ok(((b[i] - 128) + 128 * (b[i + 1] - 128) + 16384 * (b[i + 2] - 128) + 2097152 * b[i + 3], 4))
    } else {
        Err(Error::MalformedRemainingLength)
    }
}

/// Decoding the encoding of `n` yields `n` back, whatever follows it.
pub proof fn lemma_varint_round_trip(b: Seq<u8>, i: int, n: int)
    requires
        0 <= n <= MAX_REMAINING_LENGTH,
        0 <= i,
        i + len_len(n) <= b.len(),
        b.subrange(i, i + len_len(n)) == varint_of(n),
    ensures
        parse_varint(b, i) == Ok::<(int, int), Error>((n, len_len(n))),
{
    assert(b[i] == varint_of(n)[0]);
    lemma_fundamental_div_mod(n, 128);
    if n < 128 {
    } else if n < 16384 {
        assert(b[i + 1] == varint_of(n)[1]);
        assert(n / 128 < 128) by (nonlinear_arith)
            requires 128 <= n < 16384;
        assert(n == 128 * (n / 128) + n % 128);
    } else if n < 2097152 {
        assert(b[i + 1] == varint_of(n)[1]);
        assert(b[i + 2] == varint_of(n)[2]);
        lemma_fundamental_div_mod(n / 128, 128);
        lemma_div_denominator(n, 128, 128);
        assert(n / 16384 < 128) by (nonlinear_arith)
            requires 16384 <= n < 2097152;
        assert(n / 128 >= 128) by (nonlinear_arith)
            requires n >= 16384;
        assert(n == 128 * (n / 128) + n % 128);
        assert(n / 128 == 128 * ((n / 128) / 128) + (n / 128) % 128);
        assert((n / 128) / 128 == n / 16384);
        assert(n == n % 128 + 128 * ((n / 128) % 128) + 16384 * (n / 16384)) by (nonlinear_arith)
            requires
                n == 128 * (n / 128) + n % 128,
                n / 128 == 128 * ((n / 128) / 128) + (n / 128) % 128,
                (n / 128) / 128 == n / 16384;
    } else {
        assert(b[i + 1] == varint_of(n)[1]);
        assert(b[i + 2] == varint_of(n)[2]);
        assert(b[i + 3] == varint_of(n)[3]);
        lemma_fundamental_div_mod(n / 128, 128);
        lemma_fundamental_div_mod(n / 16384, 128);
        lemma_div_denominator(n, 128, 128);
        lemma_div_denominator(n, 16384, 128);
        assert(n / 2097152 < 128) by (nonlinear_arith)
            requires 2097152 <= n < 268435456;
        assert(n / 128 >= 128) by (nonlinear_arith)
            requires n >= 16384;
        assert(n / 16384 >= 128) by (nonlinear_arith)
            requires n >= 2097152;
        assert((n / 128) / 128 == n / 16384);
        assert((n / 16384) / 128 == n / 2097152);
        assert(n == n % 128 + 128 * ((n / 128) % 128) + 16384 * ((n / 16384) % 128) + 2097152 * (n
            / 2097152)) by (nonlinear_arith)
            requires
                n == 128 * (n / 128) + n % 128,
                n / 128 == 128 * ((n / 128) / 128) + (n / 128) % 128,
                n / 16384 == 128 * ((n / 16384) / 128) + (n / 16384) % 128,
                (n / 128) / 128 == n / 16384,
                (n / 16384) / 128 == n / 2097152;
    }
}

/// Writes the variable-length encoding of `len`, or reports `PayloadTooLong`
/// for a value past the representable maximum, leaving the buffer alone.
pub fn write_remaining_length(stream: &mut BytesMut, len: usize) -> (r: Result<usize, Error>)
    ensures
        match r {
            Ok(n) => len <= MAX_REMAINING_LENGTH && n == len_len(len as int) && buf_bytes(
                *final(stream),
            ) == buf_bytes(*old(stream)) + varint_of(len as int),
            Err(e) => len > MAX_REMAINING_LENGTH && e == Error::PayloadTooLong && buf_bytes(
                *final(stream),
            ) == buf_bytes(*old(stream)),
        },
{
    if len > MAX_REMAINING_LENGTH {
        return Err(Error::PayloadTooLong);
    }
    let ghost pre = buf_bytes(*stream);
    if len < 128 {
        put_u8(stream, len as u8);
        proof {
            assert(buf_bytes(*stream) =~= pre + varint_of(len as int));
        }
        Ok(1)
    } else if len < 16384 {
        put_u8(stream, (len % 128 + 128) as u8);
        put_u8(stream, (len / 128) as u8);
        proof {
            assert(buf_bytes(*stream) =~= pre + varint_of(len as int));
        }
        Ok(2)
    } else if len < 2097152 {
        put_u8(stream, (len % 128 + 128) as u8);
        put_u8(stream, ((len / 128) % 128 + 128) as u8);
        put_u8(stream, (len / 16384) as u8);
        proof {
            assert(buf_bytes(*stream) =~= pre + varint_of(len as int));
        }
        Ok(3)
    } else {
        put_u8(stream, (len % 128 + 128) as u8);
        put_u8(stream, ((len / 128) % 128 + 128) as u8);
        put_u8(stream, ((len / 16384) % 128 + 128) as u8);
        put_u8(stream, (len / 2097152) as u8);
        proof {
            assert(buf_bytes(*stream) =~= pre + varint_of(len as int));
        }
        Ok(4)
    }
}

/// Value and width of the variable-length integer at `at`.
pub fn read_varint(b: &Vec<u8>, at: usize) -> (r: Result<(usize, usize), Error>)
    ensures
        match r {
            Ok((v, w)) => parse_varint(b@, at as int) == Ok::<(int, int), Error>((v as int, w as int))
                && v <= MAX_REMAINING_LENGTH && 1 <= w <= 4 && at + w <= b@.len(),
            Err(e) => parse_varint(b@, at as int) == Err::<(int, int), Error>(e),
        },
{
    if at >= b.len() {
        return Err(Error::MalformedRemainingLength);
    }
    let b0 = b[at];
    if b0 < 128 {
        return Ok((b0 as usize, 1));
    }
    if at + 1 >= b.len() {
        return Err(Error::MalformedRemainingLength);
    }
    let b1 = b[at + 1];
    if b1 < 128 {
        return Ok(((b0 - 128) as usize + 128 * (b1 as usize), 2));
    }
    if at + 2 >= b.len() {
        return Err(Error::MalformedRemainingLength);
    }
    let b2 = b[at + 2];
    if b2 < 128 {
        return Ok(
            ((b0 - 128) as usize + 128 * ((b1 - 128) as usize) + 16384 * (b2 as usize), 3),
        );
    }
    if at + 3 >= b.len() {
        return Err(Error::MalformedRemainingLength);
    }
    let b3 = b[at + 3];
    if b3 < 128 {
        return Ok(
            (
                (b0 - 128) as usize + 128 * ((b1 - 128) as usize) + 16384 * ((b2 - 128) as usize)
                    + 2097152 * (b3 as usize),
                4,
            ),
        );
    }
    Err(Error::MalformedRemainingLength)
}

/// The length-prefixed encoding of a string: two big-endian length bytes,
/// then its UTF-8 bytes. Meaningful when the byte length fits 16 bits.
pub open spec fn mqtt_string_of(s: Seq<char>) -> Seq<u8> {
    let b = encode_utf8(s);
    seq![(b.len() as int / 256) as u8, (b.len() as int % 256) as u8] + b
}

/// The string at `i` with the bytes it occupied, or the error the decoder
/// reports.
pub open spec fn parse_mqtt_string(b: Seq<u8>, i: int) -> Result<(Seq<char>, int), Error> {
    if !(0 <= i && i + 2 <= b.len()) {
        Err(Error::InsufficientBytes(2))
    } else {
        let n = 256 * (b[i] as int) + (b[i + 1] as int);
        if i + 2 + n > b.len() {
            Err(Error::BoundaryCrossed(n as usize))
        } else {
            let bytes = b.subrange(i + 2, i + 2 + n);
            if valid_utf8(bytes) {
                Ok((decode_utf8(bytes), 2 + n))
            } else {
                Err(Error::TopicNotUtf8)
            }
        }
    }
}

/// Decoding the encoding of `s` yields `s` back, whatever follows it.
pub proof fn lemma_mqtt_string_round_trip(b: Seq<u8>, i: int, s: Seq<char>)
    requires
        encode_utf8(s).len() <= 65535,
        0 <= i,
        i + 2 + encode_utf8(s).len() <= b.len(),
        b.subrange(i, i + 2 + encode_utf8(s).len()) == mqtt_string_of(s),
    ensures
        parse_mqtt_string(b, i) == Ok::<(Seq<char>, int), Error>(
            (s, 2 + encode_utf8(s).len() as int),
        ),
{
    let e = encode_utf8(s);
    let n = e.len() as int;
    assert(b[i] == mqtt_string_of(s)[0]);
    assert(b[i + 1] == mqtt_string_of(s)[1]);
    lemma_fundamental_div_mod(n, 256);
    assert(256 * (b[i] as int) + (b[i + 1] as int) == n);
    assert(b.subrange(i + 2, i + 2 + n) =~= e) by {
        assert forall|k: int| 0 <= k < n implies b.subrange(i + 2, i + 2 + n)[k] == e[k] by {
            assert(b[i + 2 + k] == mqtt_string_of(s)[2 + k]);
        }
    }
    vstd::utf8::encode_utf8_valid_utf8(s);
    vstd::utf8::encode_utf8_decode_utf8(s);
}

/// Relies on `String::from_utf8`: it succeeds exactly on valid UTF-8, and
/// the string it builds holds exactly the given bytes, so decoding the
/// encoding of any string gives that string back.
#[verifier::external_body]
pub fn string_from_utf8(v: Vec<u8>) -> (r: Option<String>)
    ensures
        r is Some <==> valid_utf8(v@),
        r matches Some(s) ==> s@ == decode_utf8(v@) && encode_utf8(s@) == v@,
{
    match String::from_utf8(v) {
        Ok(s) => Some(s),
        Err(_) => None,
    }
}

/// Length-prefixed string write: two big-endian length bytes, then the
/// UTF-8 bytes. Reports `PayloadTooLong` for a string whose byte length
/// does not fit 16 bits, leaving the buffer alone.
pub fn write_mqtt_string(stream: &mut BytesMut, s: &str) -> (r: Result<(), Error>)
    ensures
        match r {
            Ok(()) => encode_utf8(s@).len() <= 65535 && buf_bytes(*final(stream)) == buf_bytes(
                *old(stream),
            ) + mqtt_string_of(s@),
            Err(e) => encode_utf8(s@).len() > 65535 && e == Error::PayloadTooLong && buf_bytes(
                *final(stream),
            ) == buf_bytes(*old(stream)),
        },
{
    let bs = s.as_bytes();
    let n = bs.len();
    if n > 65535 {
        return Err(Error::PayloadTooLong);
    }
    let ghost pre = buf_bytes(*stream);
    put_u8(stream, (n / 256) as u8);
    put_u8(stream, (n % 256) as u8);
    crate::bytes_buf::put_slice(stream, bs);
    proof {
        assert(buf_bytes(*stream) =~= pre + mqtt_string_of(s@));
    }
    Ok(())
}

/// The fixed header at the start of `b`: the packet-type byte, then the
/// remaining length as a variable-length integer.
pub open spec fn parse_fixed_header_spec(b: Seq<u8>) -> Result<FixedHeader, Error> {
    if b.len() < 1 {
        Err(Error::InsufficientBytes(1))
    } else {
        match parse_varint(b, 1) {
            Ok((v, w)) => Ok(
                FixedHeader {
                    byte1: b[0],
                    fixed_header_len: (1 + w) as usize,
                    remaining_len: v as usize,
                },
            ),
            Err(e) => Err(e),
        }
    }
}

/// Reads the fixed header at the start of the buffer.
pub fn parse_fixed_header(b: &Vec<u8>) -> (r: Result<FixedHeader, Error>)
    ensures
        r == parse_fixed_header_spec(b@),
{
    if b.len() < 1 {
        return Err(Error::InsufficientBytes(1));
    }
    match read_varint(b, 1) {
        Ok((v, w)) => Ok(FixedHeader { byte1: b[0], fixed_header_len: 1 + w, remaining_len: v }),
        Err(e) => Err(e),
    }
}

} // verus!
