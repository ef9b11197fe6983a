//! The PubComp control packet (QoS 2 assured publish complete) and its wire
//! codec: fixed header byte `0x70`, variable-length remaining length, 16-bit
//! packet identifier, and an optional reason code with a properties block.
//! When the reason is success and there are no properties, the body is
//! exactly the packet identifier.
use crate::bytes_buf::{buf_bytes, bytes_to_vec, bytes_view, put_u16, put_u8};
use crate::mqttbytes::{
    len_len, lemma_mqtt_string_round_trip, mqtt_string_of, parse_fixed_header_spec,
    parse_mqtt_string, parse_varint, string_from_utf8, varint_of, write_mqtt_string,
    write_remaining_length, Error, FixedHeader, MAX_REMAINING_LENGTH,
};
use bytes::{Bytes, BytesMut};
use vstd::arithmetic::div_mod::lemma_fundamental_div_mod;
use vstd::prelude::*;
use vstd::utf8::encode_utf8;

verus! {

/// Reason code carried by a PubComp.
#[derive(Debug, Clone, Copy, PartialEq, Eq, Structural)]
pub enum PubCompReason {
    Success,
    PacketIdentifierNotFound,
}

/// Optional fields of a PubComp: a reason string and user properties.
#[derive(Debug, Clone, PartialEq, Eq)]
pub struct PubCompProperties {
    pub reason_string: Option<String>,
    pub user_properties: Vec<(String, String)>,
}

/// Mathematical image of [`PubCompProperties`].
#[verifier::ext_equal]
pub struct PubCompPropertiesView {
    pub reason_string: Option<Seq<char>>,
    pub user_properties: Seq<(Seq<char>, Seq<char>)>,
}

impl View for PubCompProperties {
    type V = PubCompPropertiesView;

    open spec fn view(&self) -> PubCompPropertiesView {
        PubCompPropertiesView {
            reason_string: match self.reason_string {
                Some(s) => Some(s@),
                None => None,
            },
            user_properties: Seq::new(
                self.user_properties@.len(),
                |i: int| (self.user_properties@[i].0@, self.user_properties@[i].1@),
            ),
        }
    }
}

/// QoS 2 assured publish complete, in response to a PubRel packet.
#[derive(Debug, Clone, PartialEq, Eq)]
pub struct PubComp {
    pub pkid: u16,
    pub reason: PubCompReason,
    pub properties: Option<PubCompProperties>,
}

/// Mathematical image of [`PubComp`].
#[verifier::ext_equal]
pub struct PubCompView {
    pub pkid: u16,
    pub reason: PubCompReason,
    pub properties: Option<PubCompPropertiesView>,
}

impl View for PubComp {
    type V = PubCompView;

    open spec fn view(&self) -> PubCompView {
        PubCompView {
            pkid: self.pkid,
            reason: self.reason,
            properties: match self.properties {
                Some(ref p) => Some(p@),
                None => None,
            },
        }
    }
}

/// Wire value of a reason code.
pub open spec fn code_of(r: PubCompReason) -> u8 {
    match r {
        PubCompReason::Success => 0,
        PubCompReason::PacketIdentifierNotFound => 146,
    }
}

/// The reason a wire value names; any other value fails the decode.
pub open spec fn reason_of(num: u8) -> Result<PubCompReason, Error> {
    if num == 0 {
        Ok(PubCompReason::Success)
    } else if num == 146 {
        Ok(PubCompReason::PacketIdentifierNotFound)
    } else {
        Err(Error::InvalidConnectReturnCode(num))
    }
}

/// Encoded byte length of the user properties: five framing bytes plus the
/// two strings, per property.
pub open spec fn user_props_len(ups: Seq<(Seq<char>, Seq<char>)>) -> int
    decreases ups.len(),
{
    if ups.len() == 0 {
        0
    } else {
        5 + encode_utf8(ups[0].0).len() + encode_utf8(ups[0].1).len() + user_props_len(
            ups.drop_first(),
        )
    }
}

/// Encoded byte length of a properties block's contents.
pub open spec fn props_len(p: PubCompPropertiesView) -> int {
    (match p.reason_string {
        Some(s) => 3 + encode_utf8(s).len(),
        None => 0,
    }) + user_props_len(p.user_properties)
}

/// Remaining length of the packet: two pkid bytes alone in the short form,
/// else pkid, reason code, and the properties block with its length prefix.
pub open spec fn pubcomp_len(v: PubCompView) -> int {
    if v.reason == PubCompReason::Success && v.properties is None {
        2
    } else {
        3 + (match v.properties {
            Some(p) => len_len(props_len(p)) + props_len(p),
            None => 1,
        })
    }
}

/// Total encoded size of the packet, fixed header included.
pub open spec fn pubcomp_size(v: PubCompView) -> int {
    1 + len_len(pubcomp_len(v)) + pubcomp_len(v)
}

/// Every string fits its 16-bit length prefix.
pub open spec fn valid_props(p: PubCompPropertiesView) -> bool {
    &&& match p.reason_string {
        Some(s) => encode_utf8(s).len() <= 65535,
        None => true,
    }
    &&& forall|k: int|
        0 <= k < p.user_properties.len() ==> encode_utf8(
            (#[trigger] p.user_properties[k]).0,
        ).len() <= 65535 && encode_utf8(p.user_properties[k].1).len() <= 65535
}

/// An encodable packet whose encoding decodes to itself: strings fit their
/// prefixes, the properties block fits the remaining length, and a present
/// properties block is non-empty (an empty one decodes as absent).
pub open spec fn valid_pubcomp(v: PubCompView) -> bool {
    match v.properties {
        None => true,
        Some(p) => valid_props(p) && 0 < props_len(p) && props_len(p) <= 268435448,
    }
}

/// Encoding of the user properties, in order.
pub open spec fn encode_user_props(ups: Seq<(Seq<char>, Seq<char>)>) -> Seq<u8>
    decreases ups.len(),
{
    if ups.len() == 0 {
        Seq::empty()
    } else {
        seq![0x26u8] + mqtt_string_of(ups[0].0) + mqtt_string_of(ups[0].1) + encode_user_props(
            ups.drop_first(),
        )
    }
}

/// Encoding of a properties block: its length, the reason string if any,
/// then the user properties.
pub open spec fn encode_props(p: PubCompPropertiesView) -> Seq<u8> {
    varint_of(props_len(p)) + (match p.reason_string {
        Some(s) => seq![0x1Fu8] + mqtt_string_of(s),
        None => Seq::empty(),
    }) + encode_user_props(p.user_properties)
}

/// Encoding of the whole packet.
pub open spec fn encode_pubcomp(v: PubCompView) -> Seq<u8> {
    seq![0x70u8] + varint_of(pubcomp_len(v)) + seq![
        (v.pkid / 256) as u8,
        (v.pkid % 256) as u8,
    ] + (if v.reason == PubCompReason::Success && v.properties is None {
        Seq::empty()
    } else {
        seq![code_of(v.reason)] + (match v.properties {
            Some(p) => encode_props(p),
            None => seq![0u8],
        })
    })
}

pub proof fn lemma_user_props_len_nonneg(ups: Seq<(Seq<char>, Seq<char>)>)
    ensures
        user_props_len(ups) >= 0,
    decreases ups.len(),
{
    if ups.len() > 0 {
        lemma_user_props_len_nonneg(ups.drop_first());
    }
}

pub proof fn lemma_encode_user_props_len(ups: Seq<(Seq<char>, Seq<char>)>)
    ensures
        encode_user_props(ups).len() == user_props_len(ups),
    decreases ups.len(),
{
    if ups.len() > 0 {
        lemma_encode_user_props_len(ups.drop_first());
    }
}

/// Law: the reported size of a packet is exactly the number of bytes its
/// encoding takes.
pub proof fn lemma_pubcomp_size_is_encoded_len(v: PubCompView)
    requires
        valid_pubcomp(v),
    ensures
        pubcomp_size(v) == encode_pubcomp(v).len(),
{
    match v.properties {
        Some(p) => {
            lemma_encode_user_props_len(p.user_properties);
        },
        None => {},
    }
}

/// Properties parsed so far, continued from byte `i`: stop once the
/// declared property length is consumed, else read one property tag and its
/// payload. An unknown tag fails the decode; a later reason string wins.
pub open spec fn parse_props_items(
    b: Seq<u8>,
    end: int,
    i: int,
    rs: Option<Seq<char>>,
    ups: Seq<(Seq<char>, Seq<char>)>,
) -> Result<PubCompPropertiesView, Error>
    decreases (if i <= end {
        end - i
    } else {
        0int
    }),
    via parse_props_items_decreases
{
    if i >= end {
        Ok(PubCompPropertiesView { reason_string: rs, user_properties: ups })
    } else if i >= b.len() {
        Err(Error::InsufficientBytes(1))
    } else if b[i] == 0x1F {
        match parse_mqtt_string(b, i + 1) {
            Ok((s, w)) => parse_props_items(b, end, i + 1 + w, Some(s), ups),
            Err(e) => Err(e),
        }
    } else if b[i] == 0x26 {
        match parse_mqtt_string(b, i + 1) {
            Ok((k, w1)) => match parse_mqtt_string(b, i + 1 + w1) {
                Ok((v, w2)) => parse_props_items(b, end, i + 1 + w1 + w2, rs, ups.push((k, v))),
                Err(e) => Err(e),
            },
            Err(e) => Err(e),
        }
    } else {
        Err(Error::InvalidPropertyType(b[i]))
    }
}

#[via_fn]
proof fn parse_props_items_decreases(
    b: Seq<u8>,
    end: int,
    i: int,
    rs: Option<Seq<char>>,
    ups: Seq<(Seq<char>, Seq<char>)>,
) {
    if i < end && 0 <= i < b.len() {
        if b[i] == 0x1F || b[i] == 0x26 {
            if parse_mqtt_string(b, i + 1) is Ok {
                let w1 = parse_mqtt_string(b, i + 1)->Ok_0.1;
                assert(w1 >= 2);
                if parse_mqtt_string(b, i + 1 + w1) is Ok {
                    assert(parse_mqtt_string(b, i + 1 + w1)->Ok_0.1 >= 2);
                }
            }
        }
    }
}

/// The properties block at `i`: a declared length of zero means no block.
pub open spec fn parse_props(b: Seq<u8>, i: int) -> Result<Option<PubCompPropertiesView>, Error> {
    match parse_varint(b, i) {
        Ok((plen, w)) => if plen == 0 {
            Ok(None)
        } else {
            match parse_props_items(b, i + w + plen, i + w, None, Seq::empty()) {
                Ok(p) => Ok(Some(p)),
                Err(e) => Err(e),
            }
        },
        Err(e) => Err(e),
    }
}

/// The packet a decoder yields from the body bytes, the fixed header
/// already parsed: the packet identifier; with a remaining length of two,
/// the short form; else the reason code and, when the remaining length
/// leaves room, the properties block.
pub open spec fn pubcomp_read_spec(fh: FixedHeader, b: Seq<u8>) -> Result<PubCompView, Error> {
    let i = fh.fixed_header_len as int;
    if i + 2 > b.len() {
        Err(Error::InsufficientBytes(2))
    } else {
        let pkid = (256 * (b[i] as int) + (b[i + 1] as int)) as u16;
        if fh.remaining_len == 2 {
            Ok(PubCompView { pkid, reason: PubCompReason::Success, properties: None })
        } else if i + 3 > b.len() {
            Err(Error::InsufficientBytes(1))
        } else {
            match reason_of(b[i + 2]) {
                Ok(rsn) => if fh.remaining_len < 4 {
                    Ok(PubCompView { pkid, reason: rsn, properties: None })
                } else {
                    match parse_props(b, i + 3) {
                        Ok(props) => Ok(PubCompView { pkid, reason: rsn, properties: props }),
                        Err(e) => Err(e),
                    }
                },
                Err(e) => Err(e),
            }
        }
    }
}

fn code(reason: PubCompReason) -> (r: u8)
    ensures
        r == code_of(reason),
{
    match reason {
        PubCompReason::Success => 0,
        PubCompReason::PacketIdentifierNotFound => 146,
    }
}

fn reason(num: u8) -> (r: Result<PubCompReason, Error>)
    ensures
        r == reason_of(num),
{
    match num {
        0 => Ok(PubCompReason::Success),
        146 => Ok(PubCompReason::PacketIdentifierNotFound),
        n => Err(Error::InvalidConnectReturnCode(n)),
    }
}

/// Byte length of a string.
fn str_byte_len(s: &str) -> (r: usize)
    ensures
        r == encode_utf8(s@).len(),
{
    s.as_bytes().len()
}

impl PubCompProperties {
    /// Encoded byte length of this block's contents.
    pub fn len(&self) -> (r: usize)
        requires
            valid_props(self@),
            props_len(self@) <= MAX_REMAINING_LENGTH,
        ensures
            r == props_len(self@),
    {
        let ghost ups = self@.user_properties;
        let mut len: usize = match &self.reason_string {
            Some(s) => 3 + str_byte_len(s.as_str()),
            None => 0,
        };
        let n = self.user_properties.len();
        let mut k: usize = 0;
        proof {
            lemma_user_props_len_nonneg(ups);
            assert(ups.skip(0) =~= ups);
        }
        while k < n
            invariant
                ups == self@.user_properties,
                valid_props(self@),
                props_len(self@) <= MAX_REMAINING_LENGTH,
                n == ups.len(),
                k <= n,
                len + user_props_len(ups.skip(k as int)) == props_len(self@),
                user_props_len(ups.skip(k as int)) >= 0,
                len >= 0,
            decreases n - k,
        {
            proof {
                assert(ups.skip(k as int)[0] == ups[k as int]);
                assert(ups.skip(k as int).drop_first() =~= ups.skip(k as int + 1));
                lemma_user_props_len_nonneg(ups.skip(k as int + 1));
                assert(ups[k as int].0 == self.user_properties@[k as int].0@);
                assert(ups[k as int].1 == self.user_properties@[k as int].1@);
            }
            let kl = str_byte_len(self.user_properties[k].0.as_str());
            let vl = str_byte_len(self.user_properties[k].1.as_str());
            len = len + 5 + kl + vl;
            k += 1;
        }
        proof {
            assert(ups.skip(n as int) =~= Seq::<(Seq<char>, Seq<char>)>::empty());
        }
        len
    }

    /// Writes the properties block: its length as a variable-length integer,
    /// then the reason string and user properties.
    pub fn write(&self, buffer: &mut BytesMut) -> (r: Result<(), Error>)
        requires
            valid_props(self@),
            props_len(self@) <= MAX_REMAINING_LENGTH,
        ensures
            r is Ok,
            buf_bytes(*final(buffer)) == buf_bytes(*old(buffer)) + encode_props(self@),
    {
        let ghost ups = self@.user_properties;
        let len = self.len();
        match write_remaining_length(buffer, len) {
            Ok(_) => {},
            Err(_) => {
                proof {
                    assert(false);
                }
                unreached()
            },
        }
        match &self.reason_string {
            Some(s) => {
                put_u8(buffer, 0x1F);
                match write_mqtt_string(buffer, s.as_str()) {
                    Ok(_) => {},
                    Err(_) => {
                        proof {
                            assert(false);
                        }
                        unreached()
                    },
                }
            },
            None => {},
        }
        let ghost base = buf_bytes(*buffer);
        proof {
            lemma_user_props_len_nonneg(ups);
            assert(base =~= buf_bytes(*old(buffer)) + varint_of(props_len(self@)) + (
            match self@.reason_string {
                Some(s) => seq![0x1Fu8] + mqtt_string_of(s),
                None => Seq::<u8>::empty(),
            }));
            assert(ups.skip(0) =~= ups);
        }
        let n = self.user_properties.len();
        let mut k: usize = 0;
        while k < n
            invariant
                ups == self@.user_properties,
                valid_props(self@),
                n == ups.len(),
                k <= n,
                buf_bytes(*buffer) + encode_user_props(ups.skip(k as int)) == base
                    + encode_user_props(ups),
            decreases n - k,
        {
            proof {
                assert(ups.skip(k as int)[0] == ups[k as int]);
                assert(ups.skip(k as int).drop_first() =~= ups.skip(k as int + 1));
                assert(ups[k as int].0 == self.user_properties@[k as int].0@);
                assert(ups[k as int].1 == self.user_properties@[k as int].1@);
            }
            let ghost pre = buf_bytes(*buffer);
            put_u8(buffer, 0x26);
            match write_mqtt_string(buffer, self.user_properties[k].0.as_str()) {
                Ok(_) => {},
                Err(_) => {
                    proof {
                        assert(false);
                    }
                    unreached()
                },
            }
            match write_mqtt_string(buffer, self.user_properties[k].1.as_str()) {
                Ok(_) => {},
                Err(_) => {
                    proof {
                        assert(false);
                    }
                    unreached()
                },
            }
            proof {
                let e0 = seq![0x26u8] + mqtt_string_of(ups[k as int].0) + mqtt_string_of(
                    ups[k as int].1,
                );
                assert(buf_bytes(*buffer) =~= pre + e0);
                assert(encode_user_props(ups.skip(k as int)) =~= e0 + encode_user_props(
                    ups.skip(k as int + 1),
                ));
                assert(buf_bytes(*buffer) + encode_user_props(ups.skip(k as int + 1)) =~= base
                    + encode_user_props(ups));
            }
            k += 1;
        }
        proof {
            assert(ups.skip(n as int) =~= Seq::<(Seq<char>, Seq<char>)>::empty());
            assert(encode_user_props(ups.skip(n as int)) =~= Seq::<u8>::empty());
            assert(buf_bytes(*buffer) + Seq::<u8>::empty() =~= buf_bytes(*buffer));
            assert(buf_bytes(*buffer) =~= buf_bytes(*old(buffer)) + encode_props(self@));
        }
        Ok(())
    }

    /// Reads a properties block: the declared length, then the properties;
    /// a declared length of zero yields no block.
    pub fn read(bytes: &Bytes) -> (r: Result<Option<PubCompProperties>, Error>)
        ensures
            match r {
                Ok(p) => parse_props(bytes_view(*bytes), 0) == Ok::<
                    Option<PubCompPropertiesView>,
                    Error,
                >(
                    match p {
                        Some(pp) => Some(pp@),
                        None => None,
                    },
                ),
                Err(e) => parse_props(bytes_view(*bytes), 0) == Err::<
                    Option<PubCompPropertiesView>,
                    Error,
                >(e),
            },
    {
        let v = bytes_to_vec(bytes);
        read_props_at(&v, 0)
    }
}

/// Reads the length-prefixed string at `at`, with the bytes it occupied.
fn read_mqtt_string_at(b: &Vec<u8>, at: usize) -> (r: Result<(String, usize), Error>)
    ensures
        match r {
            Ok((s, w)) => parse_mqtt_string(b@, at as int) == Ok::<(Seq<char>, int), Error>(
                (s@, w as int),
            ) && at + w <= b@.len() && w >= 2,
            Err(e) => parse_mqtt_string(b@, at as int) == Err::<(Seq<char>, int), Error>(e),
        },
{
    if b.len() < 2 || at > b.len() - 2 {
        return Err(Error::InsufficientBytes(2));
    }
    let n: usize = 256 * (b[at] as usize) + (b[at + 1] as usize);
    if n > b.len() - (at + 2) {
        return Err(Error::BoundaryCrossed(n));
    }
    let sl = vstd::slice::slice_subrange(b.as_slice(), at + 2, at + 2 + n);
    let bytes = vstd::slice::slice_to_vec(sl);
    match string_from_utf8(bytes) {
        Some(s) => Ok((s, 2 + n)),
        None => Err(Error::TopicNotUtf8),
    }
}

/// The element-wise view of a vector of string pairs.
pub open spec fn pairs_view(v: Seq<(String, String)>) -> Seq<(Seq<char>, Seq<char>)> {
    Seq::new(v.len(), |i: int| (v[i].0@, v[i].1@))
}

/// Width in bytes of the variable-length encoding of `len`.
fn remaining_len_width(len: usize) -> (r: usize)
    ensures
        r == len_len(len as int),
{
    if len < 128 {
        1
    } else if len < 16384 {
        2
    } else if len < 2097152 {
        3
    } else {
        4
    }
}

impl PubComp {
    /// A successful PubComp for this packet identifier.
    pub fn new(pkid: u16, properties: Option<PubCompProperties>) -> (r: Self)
        ensures
            r.pkid == pkid,
            r.reason == PubCompReason::Success,
            r.properties == properties,
    {
        Self { pkid, reason: PubCompReason::Success, properties }
    }

    /// True exactly when this packet's encoding decodes back to it: strings
    /// fit their 16-bit prefixes, and a present properties block is
    /// non-empty and fits the remaining length.
    pub fn is_encodable(&self) -> (r: bool)
        ensures
            r == valid_pubcomp(self@),
    {
        let p = match &self.properties {
            None => {
                return true;
            },
            Some(p) => p,
        };
        proof {
            assert(self@.properties == Some(p@));
        }
        let ghost ups = p@.user_properties;
        let mut acc: usize = match &p.reason_string {
            Some(s) => {
                proof {
                    assert(p@.reason_string == Some(s@));
                }
                let l = str_byte_len(s.as_str());
                if l > 65535 {
                    return false;
                }
                3 + l
            },
            None => 0,
        };
        let n = p.user_properties.len();
        let mut k: usize = 0;
        proof {
            lemma_user_props_len_nonneg(ups);
            assert(ups.skip(0) =~= ups);
        }
        while k < n
            invariant
                self@.properties == Some(p@),
                ups == p@.user_properties,
                n == ups.len(),
                k <= n,
                acc + user_props_len(ups.skip(k as int)) == props_len(p@),
                acc <= 268435448,
                match p@.reason_string {
                    Some(s) => encode_utf8(s).len() <= 65535,
                    None => true,
                },
                forall|j: int|
                    0 <= j < k ==> encode_utf8((#[trigger] ups[j]).0).len() <= 65535 && encode_utf8(
                        ups[j].1,
                    ).len() <= 65535,
            decreases n - k,
        {
            proof {
                assert(ups.skip(k as int)[0] == ups[k as int]);
                assert(ups.skip(k as int).drop_first() =~= ups.skip(k as int + 1));
                lemma_user_props_len_nonneg(ups.skip(k as int + 1));
                assert(ups[k as int].0 == p.user_properties@[k as int].0@);
                assert(ups[k as int].1 == p.user_properties@[k as int].1@);
            }
            let kl = str_byte_len(p.user_properties[k].0.as_str());
            let vl = str_byte_len(p.user_properties[k].1.as_str());
            if kl > 65535 || vl > 65535 {
                proof {
                    assert(!valid_props(p@));
                }
                return false;
            }
            let term: usize = 5 + kl + vl;
            if acc > 268435448 - term {
                proof {
                    assert(props_len(p@) > 268435448);
                }
                return false;
            }
            acc = acc + term;
            k += 1;
        }
        proof {
            assert(ups.skip(n as int) =~= Seq::<(Seq<char>, Seq<char>)>::empty());
        }
        acc > 0
    }

    fn len(&self) -> (r: usize)
        requires
            valid_pubcomp(self@),
        ensures
            r == pubcomp_len(self@),
    {
        let is_success = match self.reason {
            PubCompReason::Success => true,
            PubCompReason::PacketIdentifierNotFound => false,
        };
        match &self.properties {
            None => if is_success {
                2
            } else {
                4
            },
            Some(p) => {
                let pl = p.len();
                3 + remaining_len_width(pl) + pl
            },
        }
    }

    /// Total encoded size of the packet in bytes, fixed header included.
    pub fn size(&self) -> (r: usize)
        requires
            valid_pubcomp(self@),
        ensures
            r == pubcomp_size(self@),
    {
        let len = self.len();
        1 + remaining_len_width(len) + len
    }

    /// Encodes the packet at the end of `buffer`. A packet whose strings or
    /// properties block do not fit their length fields is refused whole,
    /// with the buffer untouched — as is a present-but-empty properties
    /// block, whose encoding (a zero property length) would decode back as
    /// no properties at all.
    pub fn write(&self, buffer: &mut BytesMut) -> (r: Result<usize, Error>)
        ensures
            match r {
                Ok(n) => valid_pubcomp(self@) && n == pubcomp_size(self@) && buf_bytes(
                    *final(buffer),
                ) == buf_bytes(*old(buffer)) + encode_pubcomp(self@),
                Err(e) => !valid_pubcomp(self@) && e == Error::PayloadTooLong && buf_bytes(
                    *final(buffer),
                ) == buf_bytes(*old(buffer)),
            },
    {
        if !self.is_encodable() {
            return Err(Error::PayloadTooLong);
        }
        let len = self.len();
        put_u8(buffer, 0x70);
        let count = match write_remaining_length(buffer, len) {
            Ok(c) => c,
            Err(_) => {
                proof {
                    assert(false);
                }
                unreached()
            },
        };
        put_u16(buffer, self.pkid);
        let is_success = match self.reason {
            PubCompReason::Success => true,
            PubCompReason::PacketIdentifierNotFound => false,
        };
        let no_props = match &self.properties {
            None => true,
            Some(_) => false,
        };
        if is_success && no_props {
            proof {
                assert(buf_bytes(*buffer) =~= buf_bytes(*old(buffer)) + encode_pubcomp(self@));
            }
            return Ok(4);
        }
        put_u8(buffer, code(self.reason));
        match &self.properties {
            Some(p) => {
                match p.write(buffer) {
                    Ok(_) => {},
                    Err(_) => {
                        proof {
                            assert(false);
                        }
                        unreached()
                    },
                }
            },
            None => {
                match write_remaining_length(buffer, 0) {
                    Ok(_) => {},
                    Err(_) => {
                        proof {
                            assert(false);
                        }
                        unreached()
                    },
                }
            },
        }
        proof {
            assert(varint_of(0) =~= seq![0u8]);
            assert(buf_bytes(*buffer) =~= buf_bytes(*old(buffer)) + encode_pubcomp(self@));
        }
        Ok(1 + count + len)
    }

    /// Decodes a PubComp from the received bytes, the fixed header already
    /// parsed; the packet body starts after `fixed_header.fixed_header_len`
    /// bytes.
    pub fn read(fixed_header: FixedHeader, bytes: Bytes) -> (r: Result<PubComp, Error>)
        ensures
            match r {
                Ok(p) => pubcomp_read_spec(fixed_header, bytes_view(bytes)) == Ok::<
                    PubCompView,
                    Error,
                >(p@),
                Err(e) => pubcomp_read_spec(fixed_header, bytes_view(bytes)) == Err::<
                    PubCompView,
                    Error,
                >(e),
            },
    {
        let v = bytes_to_vec(&bytes);
        let i0 = fixed_header.fixed_header_len;
        if v.len() < 2 || i0 > v.len() - 2 {
            return Err(Error::InsufficientBytes(2));
        }
        let pkid: u16 = 256 * (v[i0] as u16) + (v[i0 + 1] as u16);
        if fixed_header.remaining_len == 2 {
            return Ok(PubComp { pkid, reason: PubCompReason::Success, properties: None });
        }
        if v.len() < 3 || i0 > v.len() - 3 {
            return Err(Error::InsufficientBytes(1));
        }
        let rsn = match reason(v[i0 + 2]) {
            Ok(rsn) => rsn,
            Err(e) => {
                return Err(e);
            },
        };
        if fixed_header.remaining_len < 4 {
            return Ok(PubComp { pkid, reason: rsn, properties: None });
        }
        match read_props_at(&v, i0 + 3) {
            Ok(props) => Ok(PubComp { pkid, reason: rsn, properties: props }),
            Err(e) => Err(e),
        }
    }
}

/// Reads a properties block at `at`.
fn read_props_at(b: &Vec<u8>, at: usize) -> (r: Result<Option<PubCompProperties>, Error>)
    ensures
        match r {
            Ok(p) => parse_props(b@, at as int) == Ok::<Option<PubCompPropertiesView>, Error>(
                match p {
                    Some(pp) => Some(pp@),
                    None => None,
                },
            ),
            Err(e) => parse_props(b@, at as int) == Err::<Option<PubCompPropertiesView>, Error>(e),
        },
{
    let (plen, w) = match crate::mqttbytes::read_varint(b, at) {
        Ok(x) => x,
        Err(e) => {
            return Err(e);
        },
    };
    if plen == 0 {
        return Ok(None);
    }
    proof {
        assert(b@.len() <= usize::MAX) by {
            assert(vstd::std_specs::vec::spec_vec_len(b) == b@.len());
        }
    }
    let start = at + w;
    let ghost end = at as int + w as int + plen as int;
    let mut cursor: usize = start;
    let mut consumed: usize = 0;
    let mut reason_string: Option<String> = None;
    let mut user_properties: Vec<(String, String)> = Vec::new();
    proof {
        assert(pairs_view(user_properties@) =~= Seq::<(Seq<char>, Seq<char>)>::empty());
    }
    while consumed < plen
        invariant
            end == at as int + w as int + plen as int,
            start == at + w,
            start <= b@.len(),
            cursor == start + consumed,
            cursor <= b@.len(),
            plen <= crate::mqttbytes::MAX_REMAINING_LENGTH,
            parse_varint(b@, at as int) == Ok::<(int, int), Error>((plen as int, w as int)),
            parse_props_items(
                b@,
                end,
                cursor as int,
                match reason_string {
                    Some(s) => Some(s@),
                    None => None,
                },
                pairs_view(user_properties@),
            ) == parse_props_items(b@, end, start as int, None, Seq::empty()),
        decreases b@.len() - cursor,
    {
        let ghost rsv = match reason_string {
            Some(ref s) => Some(s@),
            None => None::<Seq<char>>,
        };
        let ghost upsv = pairs_view(user_properties@);
        if cursor >= b.len() {
            proof {
                assert(parse_props_items(b@, end, cursor as int, rsv, upsv)
                    == Err::<PubCompPropertiesView, Error>(Error::InsufficientBytes(1)));
            }
            return Err(Error::InsufficientBytes(1));
        }
        let tag = b[cursor];
        if tag == 0x1F {
            let (s, adv) = match read_mqtt_string_at(b, cursor + 1) {
                Ok(x) => x,
                Err(e) => {
                    proof {
                        assert(parse_props_items(b@, end, cursor as int, rsv, upsv) == Err::<
                            PubCompPropertiesView,
                            Error,
                        >(e));
                    }
                    return Err(e);
                },
            };
            reason_string = Some(s);
            cursor = cursor + 1 + adv;
            consumed = consumed + 1 + adv;
        } else if tag == 0x26 {
            let (k, adv1) = match read_mqtt_string_at(b, cursor + 1) {
                Ok(x) => x,
                Err(e) => {
                    proof {
                        assert(parse_props_items(b@, end, cursor as int, rsv, upsv) == Err::<
                            PubCompPropertiesView,
                            Error,
                        >(e));
                    }
                    return Err(e);
                },
            };
            let (v, adv2) = match read_mqtt_string_at(b, cursor + 1 + adv1) {
                Ok(x) => x,
                Err(e) => {
                    proof {
                        assert(parse_props_items(b@, end, cursor as int, rsv, upsv) == Err::<
                            PubCompPropertiesView,
                            Error,
                        >(e));
                    }
                    return Err(e);
                },
            };
            let ghost pre_pairs = pairs_view(user_properties@);
            let ghost kv = (k@, v@);
            user_properties.push((k, v));
            proof {
                assert(pairs_view(user_properties@) =~= pre_pairs.push(kv));
            }
            cursor = cursor + 1 + adv1 + adv2;
            consumed = consumed + 1 + adv1 + adv2;
        } else {
            proof {
                assert(parse_props_items(b@, end, cursor as int, rsv, upsv) == Err::<
                    PubCompPropertiesView,
                    Error,
                >(Error::InvalidPropertyType(tag)));
            }
            return Err(Error::InvalidPropertyType(tag));
        }
    }
    proof {
        assert(cursor as int >= end);
    }
    let p = PubCompProperties { reason_string, user_properties };
    proof {
        assert(parse_props_items(b@, end, cursor as int, p@.reason_string, p@.user_properties)
            == parse_props_items(b@, end, start as int, None, Seq::empty())) by {
            assert(p@.user_properties =~= pairs_view(user_properties@));
        }
    }
    Ok(Some(p))
}

proof fn lemma_parse_props_items_of_encode(
    b: Seq<u8>,
    end: int,
    i: int,
    rs: Option<Seq<char>>,
    acc: Seq<(Seq<char>, Seq<char>)>,
    ups: Seq<(Seq<char>, Seq<char>)>,
)
    requires
        0 <= i,
        end <= b.len(),
        i + encode_user_props(ups).len() == end,
        b.subrange(i, end) == encode_user_props(ups),
        forall|k: int|
            0 <= k < ups.len() ==> encode_utf8((#[trigger] ups[k]).0).len() <= 65535 && encode_utf8(
                ups[k].1,
            ).len() <= 65535,
    ensures
        parse_props_items(b, end, i, rs, acc) == Ok::<PubCompPropertiesView, Error>(
            PubCompPropertiesView { reason_string: rs, user_properties: acc + ups },
        ),
    decreases ups.len(),
{
    if ups.len() == 0 {
        assert(i == end);
        assert(acc + ups =~= acc);
        assert(PubCompPropertiesView { reason_string: rs, user_properties: acc + ups }
            =~= PubCompPropertiesView { reason_string: rs, user_properties: acc });
    } else {
        let k0 = ups[0].0;
        let v0 = ups[0].1;
        let sk = mqtt_string_of(k0);
        let sv = mqtt_string_of(v0);
        let rest = encode_user_props(ups.drop_first());
        let e = encode_user_props(ups);
        assert(e == seq![0x26u8] + sk + sv + rest);
        assert(sk.len() == 2 + encode_utf8(k0).len());
        assert(sv.len() == 2 + encode_utf8(v0).len());
        assert(b[i] == e[0]);
        assert(b[i] == 0x26);
        let wk = 2 + encode_utf8(k0).len() as int;
        let wv = 2 + encode_utf8(v0).len() as int;
        assert(b.subrange(i + 1, i + 1 + wk) =~= sk) by {
            assert forall|t: int| 0 <= t < wk implies b.subrange(i + 1, i + 1 + wk)[t] == sk[t] by {
                assert(b[i + 1 + t] == e[1 + t]);
            }
        }
        lemma_mqtt_string_round_trip(b, i + 1, k0);
        assert(b.subrange(i + 1 + wk, i + 1 + wk + wv) =~= sv) by {
            assert forall|t: int| 0 <= t < wv implies b.subrange(i + 1 + wk, i + 1 + wk + wv)[t]
                == sv[t] by {
                assert(b[i + 1 + wk + t] == e[1 + wk + t]);
            }
        }
        lemma_mqtt_string_round_trip(b, i + 1 + wk, v0);
        let i2 = i + 1 + wk + wv;
        assert(b.subrange(i2, end) =~= rest) by {
            assert forall|t: int| 0 <= t < end - i2 implies b.subrange(i2, end)[t] == rest[t] by {
                assert(b[i2 + t] == e[1 + wk + wv + t]);
            }
        }
        assert forall|k: int|
            0 <= k < ups.drop_first().len() implies encode_utf8(
            (#[trigger] ups.drop_first()[k]).0,
        ).len() <= 65535 && encode_utf8(ups.drop_first()[k].1).len() <= 65535 by {
            assert(ups.drop_first()[k] == ups[k + 1]);
        }
        lemma_parse_props_items_of_encode(b, end, i2, rs, acc.push((k0, v0)), ups.drop_first());
        assert(acc.push((k0, v0)) + ups.drop_first() =~= acc + ups);
        assert(PubCompPropertiesView {
            reason_string: rs,
            user_properties: acc.push((k0, v0)) + ups.drop_first(),
        } =~= PubCompPropertiesView { reason_string: rs, user_properties: acc + ups });
    }
}

proof fn lemma_parse_props_of_encode(b: Seq<u8>, i: int, p: PubCompPropertiesView)
    requires
        valid_props(p),
        0 < props_len(p) <= 268435448,
        0 <= i,
        i + encode_props(p).len() <= b.len(),
        b.subrange(i, i + encode_props(p).len()) == encode_props(p),
    ensures
        parse_props(b, i) == Ok::<Option<PubCompPropertiesView>, Error>(Some(p)),
{
    let pl = props_len(p);
    let w = len_len(pl);
    let e = encode_props(p);
    let rspart: Seq<u8> = match p.reason_string {
        Some(s) => seq![0x1Fu8] + mqtt_string_of(s),
        None => Seq::empty(),
    };
    let upspart = encode_user_props(p.user_properties);
    lemma_encode_user_props_len(p.user_properties);
    assert(e == varint_of(pl) + rspart + upspart);
    assert(varint_of(pl).len() == w);
    assert(rspart.len() + upspart.len() == pl);
    assert(b.subrange(i, i + w) =~= varint_of(pl)) by {
        assert forall|t: int| 0 <= t < w implies b.subrange(i, i + w)[t] == varint_of(pl)[t] by {
            assert(b[i + t] == e[t]);
        }
    }
    crate::mqttbytes::lemma_varint_round_trip(b, i, pl);
    let start = i + w;
    let end = start + pl;
    assert(end == i + e.len());
    match p.reason_string {
        None => {
            assert(rspart.len() == 0);
            assert(b.subrange(start, end) =~= upspart) by {
                assert forall|t: int| 0 <= t < pl implies b.subrange(start, end)[t]
                    == upspart[t] by {
                    assert(b[start + t] == e[w + t]);
                }
            }
            lemma_parse_props_items_of_encode(
                b,
                end,
                start,
                None,
                Seq::empty(),
                p.user_properties,
            );
            assert(Seq::<(Seq<char>, Seq<char>)>::empty() + p.user_properties
                =~= p.user_properties);
            assert(PubCompPropertiesView {
                reason_string: None,
                user_properties: Seq::<(Seq<char>, Seq<char>)>::empty() + p.user_properties,
            } =~= p);
        },
        Some(s) => {
            let ws = 2 + encode_utf8(s).len() as int;
            assert(rspart.len() == 1 + ws);
            assert(b[start] == e[w]);
            assert(b[start] == 0x1F);
            assert(start < end);
            assert(b.subrange(start + 1, start + 1 + ws) =~= mqtt_string_of(s)) by {
                assert forall|t: int| 0 <= t < ws implies b.subrange(start + 1, start + 1 + ws)[t]
                    == mqtt_string_of(s)[t] by {
                    assert(b[start + 1 + t] == e[w + 1 + t]);
                }
            }
            crate::mqttbytes::lemma_mqtt_string_round_trip(b, start + 1, s);
            let i2 = start + 1 + ws;
            assert(b.subrange(i2, end) =~= upspart) by {
                assert forall|t: int| 0 <= t < end - i2 implies b.subrange(i2, end)[t]
                    == upspart[t] by {
                    assert(b[i2 + t] == e[w + 1 + ws + t]);
                }
            }
            lemma_parse_props_items_of_encode(
                b,
                end,
                i2,
                Some(s),
                Seq::empty(),
                p.user_properties,
            );
            assert(Seq::<(Seq<char>, Seq<char>)>::empty() + p.user_properties
                =~= p.user_properties);
            assert(PubCompPropertiesView {
                reason_string: Some(s),
                user_properties: Seq::<(Seq<char>, Seq<char>)>::empty() + p.user_properties,
            } =~= p);
        },
    }
}

proof fn lemma_pubcomp_header(v: PubCompView)
    requires
        valid_pubcomp(v),
    ensures
        ({
            let b = encode_pubcomp(v);
            let l = pubcomp_len(v);
            let w = len_len(l);
            &&& 2 <= l <= MAX_REMAINING_LENGTH
            &&& b.len() == 1 + w + l
            &&& parse_fixed_header_spec(b) == Ok::<FixedHeader, Error>(
                FixedHeader {
                    byte1: 0x70u8,
                    fixed_header_len: (1 + w) as usize,
                    remaining_len: l as usize,
                },
            )
            &&& b[1 + w] == (v.pkid / 256) as u8
            &&& b[1 + w + 1] == (v.pkid % 256) as u8
        }),
{
    let b = encode_pubcomp(v);
    let short = v.reason == PubCompReason::Success && v.properties is None;
    let l = pubcomp_len(v);
    let tail: Seq<u8> = if short {
        Seq::empty()
    } else {
        seq![code_of(v.reason)] + (match v.properties {
            Some(p) => encode_props(p),
            None => seq![0u8],
        })
    };
    match v.properties {
        Some(p) => {
            lemma_encode_user_props_len(p.user_properties);
        },
        None => {},
    }
    assert(2 <= l <= MAX_REMAINING_LENGTH);
    assert(b == seq![0x70u8] + varint_of(l) + seq![(v.pkid / 256) as u8, (v.pkid % 256) as u8]
        + tail);
    assert(tail.len() == l - 2);
    let w = len_len(l);
    assert(varint_of(l).len() == w);
    assert(b.len() == 1 + w + l);
    assert(b[0] == 0x70);
    assert(b.subrange(1, 1 + w) =~= varint_of(l)) by {
        assert forall|t: int| 0 <= t < w implies b.subrange(1, 1 + w)[t] == varint_of(l)[t] by {
            assert(b[1 + t] == (seq![0x70u8] + varint_of(l) + seq![
                (v.pkid / 256) as u8,
                (v.pkid % 256) as u8,
            ] + tail)[1 + t]);
        }
    }
    crate::mqttbytes::lemma_varint_round_trip(b, 1, l);
}

/// Law: encoding a packet and decoding the bytes gives the packet back,
/// in the short form and in the long form alike.
#[verifier::rlimit(100)]
#[verifier::spinoff_prover]
pub proof fn lemma_pubcomp_round_trip(v: PubCompView)
    requires
        valid_pubcomp(v),
    ensures
        ({
            let b = encode_pubcomp(v);
            &&& parse_fixed_header_spec(b) matches Ok(fh)
            &&& pubcomp_read_spec(parse_fixed_header_spec(b)->Ok_0, b) == Ok::<
                PubCompView,
                Error,
            >(v)
        }),
{
    let b = encode_pubcomp(v);
    let short = v.reason == PubCompReason::Success && v.properties is None;
    let l = pubcomp_len(v);
    let tail: Seq<u8> = if short {
        Seq::empty()
    } else {
        seq![code_of(v.reason)] + (match v.properties {
            Some(p) => encode_props(p),
            None => seq![0u8],
        })
    };
    lemma_pubcomp_header(v);
    let w = len_len(l);
    let fh = parse_fixed_header_spec(b)->Ok_0;
    let i0 = 1 + w;
    assert(b == seq![0x70u8] + varint_of(l) + seq![(v.pkid / 256) as u8, (v.pkid % 256) as u8]
        + tail);
    lemma_fundamental_div_mod(v.pkid as int, 256);
    assert(v.pkid / 256 < 256);
    assert(256 * ((v.pkid / 256) as int) + ((v.pkid % 256) as int) == v.pkid as int);
    if short {
        assert(l == 2);
        assert(pubcomp_read_spec(fh, b) == Ok::<PubCompView, Error>(
            PubCompView { pkid: v.pkid, reason: PubCompReason::Success, properties: None },
        ));
        assert(PubCompView { pkid: v.pkid, reason: PubCompReason::Success, properties: None }
            =~= v);
    } else {
        match v.properties {
            Some(p) => {
                lemma_encode_user_props_len(p.user_properties);
            },
            None => {},
        }
        assert(l >= 4);
        assert(tail.len() == l - 2);
        assert(b[i0 + 2] == tail[0]);
        assert(b[i0 + 2] == code_of(v.reason));
        assert(reason_of(code_of(v.reason)) == Ok::<PubCompReason, Error>(v.reason));
        match v.properties {
            None => {
                assert(l == 4);
                assert(b[i0 + 3] == tail[1]);
                assert(b[i0 + 3] == 0);
                assert(parse_varint(b, i0 + 3) == Ok::<(int, int), Error>((0, 1)));
                assert(parse_props(b, i0 + 3) == Ok::<Option<PubCompPropertiesView>, Error>(None));
                assert(pubcomp_read_spec(fh, b) == Ok::<PubCompView, Error>(
                    PubCompView { pkid: v.pkid, reason: v.reason, properties: None },
                ));
                assert(PubCompView { pkid: v.pkid, reason: v.reason, properties: None } =~= v);
            },
            Some(p) => {
                let ep = encode_props(p);
                assert(tail == seq![code_of(v.reason)] + ep);
                assert(b.subrange(i0 + 3, i0 + 3 + ep.len()) =~= ep) by {
                    assert forall|t: int| 0 <= t < ep.len() implies b.subrange(
                        i0 + 3,
                        i0 + 3 + ep.len(),
                    )[t] == ep[t] by {
                        assert(b[i0 + 3 + t] == tail[1 + t]);
                    }
                }
                assert(i0 + 3 + ep.len() == b.len());
                lemma_parse_props_of_encode(b, i0 + 3, p);
                assert(pubcomp_read_spec(fh, b) == Ok::<PubCompView, Error>(
                    PubCompView { pkid: v.pkid, reason: v.reason, properties: Some(p) },
                ));
                assert(PubCompView { pkid: v.pkid, reason: v.reason, properties: Some(p) } =~= v);
            },
        }
    }
}

} // verus!
