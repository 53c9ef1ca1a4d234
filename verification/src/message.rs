//! Wire-message framing.
//!
//! Every frame starts with a three-byte header: byte 0 is the message type
//! id, bytes 1 and 2 carry the payload length as a big-endian unsigned
//! 16-bit integer.  The payload follows immediately.  Each message kind has
//! a fixed type id and a kind-specific range of admissible body sizes.

use vstd::prelude::*;
use crate::hash::copy_bytes;

verus! {

/// Size of the message-type field of a header.
pub const HEADER_TYPE_SIZE: usize = 1;

/// Size of a full header.
pub const HEADER_SIZE: usize = 3;

/// How decoding a frame can fail.
#[derive(Debug, PartialEq, Eq, Structural)]
pub enum MessageError {
    /// The body length is outside the range of the message kind.
    InvalidPayloadLength(usize),
    /// The header advertises one length, the payload has another.
    InvalidAdvertisedLength(usize, usize),
    /// The header length field cannot be read.  With a three-byte header
    /// this cannot occur; the variant documents the wire format.
    InvalidAdvertisedLengthBytes(u8, u8),
}

/// The payload length advertised by a three-byte header.
pub open spec fn advertised_len(h: Seq<u8>) -> int {
    h[1] * 256 + h[2]
}

/// The full frame for a body: type id, big-endian length, body.
pub open spec fn spec_frame(id: u8, body: Seq<u8>) -> Seq<u8> {
    seq![id, ((body.len() as int) / 256) as u8, ((body.len() as int) % 256) as u8] + body
}

/// Law: splitting a frame back into header and payload returns the type id
/// and the original body, and the advertised length matches the body.
pub proof fn lemma_frame_split(id: u8, body: Seq<u8>)
    requires
        body.len() <= 0xffff,
    ensures
        spec_frame(id, body).len() == 3 + body.len(),
        spec_frame(id, body)[0] == id,
        advertised_len(spec_frame(id, body).subrange(0, 3)) == body.len(),
        spec_frame(id, body).subrange(3, spec_frame(id, body).len() as int) == body,
{
    let f = spec_frame(id, body);
    let n = body.len() as int;
    assert(n / 256 * 256 + n % 256 == n) by {
        vstd::arithmetic::div_mod::lemma_fundamental_div_mod(n, 256);
    }
    assert(n / 256 < 256) by (nonlinear_arith)
        requires
            0 <= n <= 0xffff,
    ;
    assert(f.subrange(3, f.len() as int) =~= body);
}

/// The four body bytes of a big-endian unsigned 32-bit integer.
pub open spec fn spec_u32_be(x: u32) -> Seq<u8> {
    seq![
        ((x as int) / 0x1000000) as u8,
        (((x as int) / 0x10000) % 256) as u8,
        (((x as int) / 0x100) % 256) as u8,
        ((x as int) % 256) as u8,
    ]
}

/// The unsigned 32-bit integer read from four big-endian bytes.
pub open spec fn spec_u32_of_be(s: Seq<u8>) -> int {
    s[0] * 0x1000000 + s[1] * 0x10000 + s[2] * 0x100 + s[3]
}

/// Law: decoding the big-endian bytes of an integer returns the integer.
pub proof fn lemma_u32_be_round_trip(x: u32)
    ensures
        spec_u32_of_be(spec_u32_be(x)) == x,
        forall|i: int| 0 <= i < 4 ==> 0 <= #[trigger] spec_u32_be(x)[i] < 256,
{
    let n = x as int;
    vstd::arithmetic::div_mod::lemma_fundamental_div_mod(n, 256);
    vstd::arithmetic::div_mod::lemma_fundamental_div_mod(n / 256, 256);
    vstd::arithmetic::div_mod::lemma_fundamental_div_mod(n / 0x10000, 256);
    assert((n / 256) / 256 == n / 0x10000) by (nonlinear_arith)
        requires
            n >= 0,
    ;
    assert((n / 0x10000) / 256 == n / 0x1000000) by (nonlinear_arith)
        requires
            n >= 0,
    ;
    assert(n / 0x1000000 < 256) by (nonlinear_arith)
        requires
            0 <= n < 0x100000000,
    ;
    assert(n / 0x1000000 >= 0) by (nonlinear_arith)
        requires
            n >= 0,
    ;
}

/// Writes `x` as four big-endian bytes.
pub fn u32_to_be(x: u32) -> (r: Vec<u8>)
    ensures
        r@ == spec_u32_be(x),
        r@.len() == 4,
        spec_u32_of_be(r@) == x,
{
    proof {
        lemma_u32_be_round_trip(x);
    }
    let mut out: Vec<u8> = Vec::new();
    out.push((x / 0x1000000) as u8);
    out.push(((x / 0x10000) % 256) as u8);
    out.push(((x / 0x100) % 256) as u8);
    out.push((x % 256) as u8);
    proof {
        assert(out@ =~= spec_u32_be(x));
    }
    out
}

/// Reads four big-endian bytes at `start` as an unsigned 32-bit integer.
pub fn u32_from_be(bytes: &Vec<u8>, start: usize) -> (r: u32)
    requires
        start + 4 <= bytes@.len(),
    ensures
        r == spec_u32_of_be(bytes@.subrange(start as int, start + 4)),
{
    let n = bytes.len();
    assert(start + 4 <= n);
    let b0 = bytes[start] as u32;
    let b1 = bytes[start + 1] as u32;
    let b2 = bytes[start + 2] as u32;
    let b3 = bytes[start + 3] as u32;
    b0 * 0x1000000 + b1 * 0x10000 + b2 * 0x100 + b3
}

/// Builds the full frame for a body: type id, then the body length as a
/// big-endian 16-bit integer, then the body.
pub fn frame(id: u8, body: &Vec<u8>) -> (r: Vec<u8>)
    requires
        body@.len() <= 0xffff,
    ensures
        r@ == spec_frame(id, body@),
        r@.len() == 3 + body@.len(),
{
    let len = body.len();
    let mut out: Vec<u8> = Vec::new();
    out.push(id);
    out.push((len / 256) as u8);
    out.push((len % 256) as u8);
    let n = body.len();
    let mut i: usize = 0;
    while i < n
        invariant
            n == body@.len(),
            i <= n,
            out@.len() == 3 + i,
            out@ == spec_frame(id, body@).subrange(0, 3 + i),
        decreases n - i,
    {
        out.push(body[i]);
        i += 1;
        proof {
            assert(out@ =~= spec_frame(id, body@).subrange(0, 3 + i));
        }
    }
    proof {
        assert(spec_frame(id, body@).subrange(0, 3 + n as int) =~= spec_frame(id, body@));
    }
    out
}

/// Checks the advertised length of a header against the actual payload
/// length.
pub fn check_advertised(header: &Vec<u8>, payload_len: usize) -> (r: Result<(), MessageError>)
    requires
        header@.len() == 3,
    ensures
        r is Ok <==> advertised_len(header@) == payload_len,
        r matches Err(e) ==> e == MessageError::InvalidAdvertisedLength(
            advertised_len(header@) as usize,
            payload_len,
        ),
{
    let advertised: usize = header[1] as usize * 256 + header[2] as usize;
    if advertised != payload_len {
        Err(MessageError::InvalidAdvertisedLength(advertised, payload_len))
    } else {
        Ok(())
    }
}

/// A request for the milestone at a given index.  Type id 0x02, body: the
/// index as a big-endian 32-bit integer.
pub struct MilestoneRequest {
    pub index: u32,
}

impl MilestoneRequest {
    /// Type id of the message on the wire.
    pub const ID: u8 = 0x02;

    pub fn new(index: u32) -> (r: Self)
        ensures
            r.index == index,
    {
        Self { index }
    }

    /// The half-open range of admissible body sizes.
    pub fn size_range() -> (r: core::ops::Range<usize>)
        ensures
            r.start == 4 && r.end == 5,
    {
        4..5
    }

    /// The body size of this message.
    pub fn size(&self) -> (r: usize)
        ensures
            r == 4,
    {
        4
    }

    /// Decodes a body, which must be exactly four bytes.
    pub fn from_bytes(bytes: &Vec<u8>) -> (r: Result<Self, MessageError>)
        ensures
            r is Ok <==> bytes@.len() == 4,
            r matches Ok(m) ==> m.index == spec_u32_of_be(bytes@),
            r matches Err(e) ==> e == MessageError::InvalidPayloadLength(bytes@.len() as usize),
    {
        if bytes.len() != 4 {
            return Err(MessageError::InvalidPayloadLength(bytes.len()));
        }
        let index = u32_from_be(bytes, 0);
        proof {
            assert(bytes@.subrange(0, 4) =~= bytes@);
        }
        Ok(Self { index })
    }

    /// Encodes the body.
    pub fn to_bytes(&self) -> (r: Vec<u8>)
        ensures
            r@ == spec_u32_be(self.index),
            spec_u32_of_be(r@) == self.index,
            r@.len() == 4,
    {
        u32_to_be(self.index)
    }

    /// Encodes the full frame: header then body.
    pub fn into_full_bytes(self) -> (r: Vec<u8>)
        ensures
            r@ == spec_frame(0x02, spec_u32_be(self.index)),
            r@.len() == 7,
    {
        let body = self.to_bytes();
        frame(0x02, &body)
    }

    /// Decodes a full frame, first holding the advertised length against
    /// the payload.
    pub fn from_full_bytes(header: &Vec<u8>, payload: &Vec<u8>) -> (r: Result<
        Self,
        MessageError,
    >)
        requires
            header@.len() == 3,
        ensures
            r is Ok <==> advertised_len(header@) == payload@.len() && payload@.len() == 4,
            r matches Err(e) ==> e == (if advertised_len(header@) != payload@.len() {
                MessageError::InvalidAdvertisedLength(
                    advertised_len(header@) as usize,
                    payload@.len() as usize,
                )
            } else {
                MessageError::InvalidPayloadLength(payload@.len() as usize)
            }),
            r matches Ok(m) ==> m.index == spec_u32_of_be(payload@),
    {
        match check_advertised(header, payload.len()) {
            Ok(_) => Self::from_bytes(payload),
            Err(e) => Err(e),
        }
    }
}

/// A request for a transaction by hash.  Type id 0x03, body: the packed
/// 49-byte form of the requested hash.
pub struct TransactionRequest {
    pub hash: Vec<u8>,
}

impl TransactionRequest {
    /// Type id of the message on the wire.
    pub const ID: u8 = 0x03;

    pub fn new(hash: &Vec<u8>) -> (r: Self)
        requires
            hash@.len() == 49,
        ensures
            r.hash@ == hash@,
    {
        Self { hash: copy_bytes(hash) }
    }

    /// The half-open range of admissible body sizes.
    pub fn size_range() -> (r: core::ops::Range<usize>)
        ensures
            r.start == 49 && r.end == 50,
    {
        49..50
    }

    /// The body size of this message.
    pub fn size(&self) -> (r: usize)
        requires
            self.hash@.len() == 49,
        ensures
            r == 49,
    {
        self.hash.len()
    }

    /// Decodes a body, which must be exactly 49 bytes.
    pub fn from_bytes(bytes: &Vec<u8>) -> (r: Result<Self, MessageError>)
        ensures
            r is Ok <==> bytes@.len() == 49,
            r matches Ok(m) ==> m.hash@ == bytes@,
            r matches Err(e) ==> e == MessageError::InvalidPayloadLength(bytes@.len() as usize),
    {
        if bytes.len() != 49 {
            return Err(MessageError::InvalidPayloadLength(bytes.len()));
        }
        Ok(Self { hash: copy_bytes(bytes) })
    }

    /// Encodes the body.
    pub fn to_bytes(&self) -> (r: Vec<u8>)
        ensures
            r@ == self.hash@,
    {
        copy_bytes(&self.hash)
    }

    /// Encodes the full frame: header then body.
    pub fn into_full_bytes(self) -> (r: Vec<u8>)
        requires
            self.hash@.len() == 49,
        ensures
            r@ == spec_frame(0x03, self.hash@),
            r@.len() == 52,
    {
        frame(0x03, &self.hash)
    }

    /// Decodes a full frame, first holding the advertised length against
    /// the payload.
    pub fn from_full_bytes(header: &Vec<u8>, payload: &Vec<u8>) -> (r: Result<
        Self,
        MessageError,
    >)
        requires
            header@.len() == 3,
        ensures
            r is Ok <==> advertised_len(header@) == payload@.len() && payload@.len() == 49,
            r matches Err(e) ==> e == (if advertised_len(header@) != payload@.len() {
                MessageError::InvalidAdvertisedLength(
                    advertised_len(header@) as usize,
                    payload@.len() as usize,
                )
            } else {
                MessageError::InvalidPayloadLength(payload@.len() as usize)
            }),
            r matches Ok(m) ==> m.hash@ == payload@,
    {
        match check_advertised(header, payload.len()) {
            Ok(_) => Self::from_bytes(payload),
            Err(e) => Err(e),
        }
    }
}

/// A compressed transaction pushed to peers.  Type id 0x04, body: the
/// compressed transaction bytes, between 292 and 1604 bytes.
pub struct TransactionBroadcast {
    pub transaction: Vec<u8>,
}

impl TransactionBroadcast {
    /// Type id of the message on the wire.
    pub const ID: u8 = 0x04;

    pub fn new(transaction: &Vec<u8>) -> (r: Self)
        ensures
            r.transaction@ == transaction@,
    {
        Self { transaction: copy_bytes(transaction) }
    }

    /// The half-open range of admissible body sizes.
    pub fn size_range() -> (r: core::ops::Range<usize>)
        ensures
            r.start == 292 && r.end == 1605,
    {
        292..1605
    }

    /// The body size of this message.
    pub fn size(&self) -> (r: usize)
        ensures
            r == self.transaction@.len(),
    {
        self.transaction.len()
    }

    /// Decodes a body whose length must lie in the admissible range.
    pub fn from_bytes(bytes: &Vec<u8>) -> (r: Result<Self, MessageError>)
        ensures
            r is Ok <==> 292 <= bytes@.len() <= 1604,
            r matches Ok(m) ==> m.transaction@ == bytes@,
            r matches Err(e) ==> e == MessageError::InvalidPayloadLength(bytes@.len() as usize),
    {
        if bytes.len() < 292 || bytes.len() > 1604 {
            return Err(MessageError::InvalidPayloadLength(bytes.len()));
        }
        Ok(Self { transaction: copy_bytes(bytes) })
    }

    /// Encodes the body.
    pub fn to_bytes(&self) -> (r: Vec<u8>)
        ensures
            r@ == self.transaction@,
    {
        copy_bytes(&self.transaction)
    }

    /// Encodes the full frame: header then body.
    pub fn into_full_bytes(self) -> (r: Vec<u8>)
        requires
            self.transaction@.len() <= 1604,
        ensures
            r@ == spec_frame(0x04, self.transaction@),
            r@.len() == 3 + self.transaction@.len(),
    {
        frame(0x04, &self.transaction)
    }

    /// Decodes a full frame, first holding the advertised length against
    /// the payload.
    pub fn from_full_bytes(header: &Vec<u8>, payload: &Vec<u8>) -> (r: Result<
        Self,
        MessageError,
    >)
        requires
            header@.len() == 3,
        ensures
            r is Ok <==> advertised_len(header@) == payload@.len() && 292 <= payload@.len()
                <= 1604,
            r matches Err(e) ==> e == (if advertised_len(header@) != payload@.len() {
                MessageError::InvalidAdvertisedLength(
                    advertised_len(header@) as usize,
                    payload@.len() as usize,
                )
            } else {
                MessageError::InvalidPayloadLength(payload@.len() as usize)
            }),
            r matches Ok(m) ==> m.transaction@ == payload@,
    {
        match check_advertised(header, payload.len()) {
            Ok(_) => Self::from_bytes(payload),
            Err(e) => Err(e),
        }
    }
}

/// A periodic liveness message carrying the sender's solid and snapshot
/// milestone indices.  Type id 0x06, body: the two indices as big-endian
/// 32-bit integers.
pub struct Heartbeat {
    pub solid_milestone_index: u32,
    pub snapshot_milestone_index: u32,
}

impl Heartbeat {
    /// Type id of the message on the wire.
    pub const ID: u8 = 0x06;

    pub fn new(solid_milestone_index: u32, snapshot_milestone_index: u32) -> (r: Self)
        ensures
            r.solid_milestone_index == solid_milestone_index,
            r.snapshot_milestone_index == snapshot_milestone_index,
    {
        Self { solid_milestone_index, snapshot_milestone_index }
    }

    /// The half-open range of admissible body sizes.
    pub fn size_range() -> (r: core::ops::Range<usize>)
        ensures
            r.start == 8 && r.end == 9,
    {
        8..9
    }

    /// The body size of this message.
    pub fn size(&self) -> (r: usize)
        ensures
            r == 8,
    {
        8
    }

    /// Decodes a body, which must be exactly eight bytes.
    pub fn from_bytes(bytes: &Vec<u8>) -> (r: Result<Self, MessageError>)
        ensures
            r is Ok <==> bytes@.len() == 8,
            r matches Ok(m) ==> m.solid_milestone_index == spec_u32_of_be(
                bytes@.subrange(0, 4),
            ) && m.snapshot_milestone_index == spec_u32_of_be(bytes@.subrange(4, 8)),
            r matches Err(e) ==> e == MessageError::InvalidPayloadLength(bytes@.len() as usize),
    {
        if bytes.len() != 8 {
            return Err(MessageError::InvalidPayloadLength(bytes.len()));
        }
        let solid = u32_from_be(bytes, 0);
        let snapshot = u32_from_be(bytes, 4);
        Ok(Self { solid_milestone_index: solid, snapshot_milestone_index: snapshot })
    }

    /// Encodes the body.
    pub fn to_bytes(&self) -> (r: Vec<u8>)
        ensures
            r@ == spec_u32_be(self.solid_milestone_index) + spec_u32_be(
                self.snapshot_milestone_index,
            ),
            r@.len() == 8,
    {
        let mut out = u32_to_be(self.solid_milestone_index);
        let mut second = u32_to_be(self.snapshot_milestone_index);
        out.push(second[0]);
        out.push(second[1]);
        out.push(second[2]);
        out.push(second[3]);
        proof {
            assert(out@ =~= spec_u32_be(self.solid_milestone_index) + spec_u32_be(
                self.snapshot_milestone_index,
            ));
        }
        out
    }

    /// Encodes the full frame: header then body.
    pub fn into_full_bytes(self) -> (r: Vec<u8>)
        ensures
            r@ == spec_frame(
                0x06,
                spec_u32_be(self.solid_milestone_index) + spec_u32_be(
                    self.snapshot_milestone_index,
                ),
            ),
            r@.len() == 11,
    {
        let body = self.to_bytes();
        frame(0x06, &body)
    }

    /// Decodes a full frame, first holding the advertised length against
    /// the payload.
    pub fn from_full_bytes(header: &Vec<u8>, payload: &Vec<u8>) -> (r: Result<
        Self,
        MessageError,
    >)
        requires
            header@.len() == 3,
        ensures
            r is Ok <==> advertised_len(header@) == payload@.len() && payload@.len() == 8,
            r matches Err(e) ==> e == (if advertised_len(header@) != payload@.len() {
                MessageError::InvalidAdvertisedLength(
                    advertised_len(header@) as usize,
                    payload@.len() as usize,
                )
            } else {
                MessageError::InvalidPayloadLength(payload@.len() as usize)
            }),
            r matches Ok(m) ==> m.solid_milestone_index == spec_u32_of_be(
                payload@.subrange(0, 4),
            ) && m.snapshot_milestone_index == spec_u32_of_be(payload@.subrange(4, 8)),
    {
        match check_advertised(header, payload.len()) {
            Ok(_) => Self::from_bytes(payload),
            Err(e) => Err(e),
        }
    }
}

/// Law: a framed milestone request parses back to the same index.
pub proof fn lemma_milestone_request_round_trip(index: u32)
    ensures
        ({
            let f = spec_frame(0x02, spec_u32_be(index));
            &&& f[0] == 0x02
            &&& advertised_len(f.subrange(0, 3)) == 4
            &&& spec_u32_of_be(f.subrange(3, f.len() as int)) == index
        }),
{
    lemma_u32_be_round_trip(index);
    lemma_frame_split(0x02, spec_u32_be(index));
}

/// Law: a framed heartbeat parses back to the same two indices.
pub proof fn lemma_heartbeat_round_trip(solid: u32, snapshot: u32)
    ensures
        ({
            let body = spec_u32_be(solid) + spec_u32_be(snapshot);
            let f = spec_frame(0x06, body);
            &&& f[0] == 0x06
            &&& advertised_len(f.subrange(0, 3)) == 8
            &&& spec_u32_of_be(f.subrange(3, f.len() as int).subrange(0, 4)) == solid
            &&& spec_u32_of_be(f.subrange(3, f.len() as int).subrange(4, 8)) == snapshot
        }),
{
    lemma_u32_be_round_trip(solid);
    lemma_u32_be_round_trip(snapshot);
    let body = spec_u32_be(solid) + spec_u32_be(snapshot);
    lemma_frame_split(0x06, body);
    assert(body.subrange(0, 4) =~= spec_u32_be(solid));
    assert(body.subrange(4, 8) =~= spec_u32_be(snapshot));
}

/// Law: a framed transaction request parses back to the same hash bytes,
/// and a framed transaction broadcast to the same body.
pub proof fn lemma_raw_body_round_trip(id: u8, body: Seq<u8>)
    requires
        body.len() <= 0xffff,
    ensures
        spec_frame(id, body)[0] == id,
        advertised_len(spec_frame(id, body).subrange(0, 3)) == body.len(),
        spec_frame(id, body).subrange(3, spec_frame(id, body).len() as int) == body,
{
    lemma_frame_split(id, body);
}

} // verus!
