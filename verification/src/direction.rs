//! The two halves of a connection. Each direction keeps its own state: the
//! first frame it sends or receives carries a long prefix, every later one a
//! short prefix.

use crate::base94::{all_printable, base94_decode_into, lemma_decoded_len, lemma_encode_shape};
use crate::buffer::{buffer_bytes, frozen_bytes, held, held_mut};
use crate::error::CtcpError;
use crate::frame::{
    frame_data, frame_payload, frame_text, lemma_body_roundtrip, lemma_frame_roundtrip,
    lemma_header_roundtrip, open_packet, seal_frame, sealed_body, sealed_header, short_after,
    FRAME_HEADER_LEN, MAX_FRAME_LEN,
};
use crate::prefix::{
    check_fits, decode_length_prefix, encode_length_prefix, is_pick, lemma_prefix_len,
    lemma_prefix_succeeds, prefix_text, prefix_written, HEADER_MSS_MOD,
};
use crate::primitives::{key_byte, mask_key};
use crate::random::random_range;
use bytes::{Bytes, BytesMut};
use rand::rngs::SmallRng;
use vstd::prelude::*;

verus! {

/// What the contracts see of one direction of a connection: the shared key
/// and whether the direction has switched to short prefixes.
pub struct Direction {
    pub key: u32,
    pub short_only: bool,
}

/// What encoding `data` with `nonce`, `k` and `f` returns and leaves behind
/// in a direction that was in the state `before`.
#[verifier::opaque]
pub open spec fn encoded_as(
    data: Seq<u8>,
    before: Direction,
    nonce: u8,
    k: u8,
    f: u8,
    result: Result<Bytes, CtcpError>,
    after: Direction,
) -> bool {
    &&& after.key == before.key
    &&& match frame_text(data, before.key, nonce, k, f, before.short_only) {
        Ok(wire) => {
            &&& result matches Ok(text) && frozen_bytes(text) == wire
            &&& after.short_only == (before.short_only || data.len() > 0)
        },
        Err(e) => result == Err::<Bytes, CtcpError>(e) && after.short_only == before.short_only,
    }
}

/// The sending half of a connection: it turns frames into printable text.
pub struct CtcpTx {
    key: u32,
    working: BytesMut,
    packet: BytesMut,
    payload: BytesMut,
    encoded: BytesMut,
    length_buf: [u8; 7],
    rng: SmallRng,
    short_only: bool,
}

impl View for CtcpTx {
    type V = Direction;

    closed spec fn view(&self) -> Direction {
        Direction { key: self.key, short_only: self.short_only }
    }
}

impl CtcpTx {
    /// A sending half under `key` that draws its nonces and filler from
    /// `rng`. Its first frame gets a long prefix.
    pub fn new(key: u32, rng: SmallRng) -> (tx: Self)
        ensures
            tx@ == (Direction { key, short_only: false }),
    {
        Self {
            key,
            working: BytesMut::new(),
            packet: BytesMut::new(),
            payload: BytesMut::new(),
            encoded: BytesMut::new(),
            length_buf: [0u8;7],
            rng,
            short_only: false,
        }
    }

    /// The shared key.
    pub fn key(&self) -> (k: u32)
        ensures
            k == self@.key,
    {
        self.key
    }

    /// Whether the next prefix is the short form.
    pub fn short_only(&self) -> (s: bool)
        ensures
            s == self@.short_only,
    {
        self.short_only
    }

    /// Encodes one frame. The nonce and the picks of the prefix are random:
    /// the result is `frame_text` of `data` for some nonce in `1..=254` and
    /// some picks in `0x20..=0x7d`.
    ///
    /// Whatever was drawn: a frame of more than 65 536 bytes, and no other,
    /// is `PayloadTooLarge`; an empty frame gives empty text and leaves the
    /// state alone; once the direction is in short mode, which it never
    /// leaves, every frame of an allowed size succeeds, and under a key whose
    /// check values fit, as the default key is, the first does too; text
    /// that comes out is printable and decodes to `data` in a receiving
    /// direction in the same prefix mode; a success on a frame that is not
    /// empty switches the direction to short prefixes, and a failure leaves
    /// it as it was.
    pub fn encode(&mut self, data: &[u8]) -> (r: Result<Bytes, CtcpError>)
        ensures
            exists|nonce: u8, k: u8, f: u8|
                1 <= nonce < 0xff && is_pick(k) && is_pick(f) && #[trigger] encoded_as(
                    data@,
                    old(self)@,
                    nonce,
                    k,
                    f,
                    r,
                    final(self)@,
                ),
            final(self)@.key == old(self)@.key,
            data@.len() > MAX_FRAME_LEN <==> r == Err::<Bytes, CtcpError>(
                CtcpError::PayloadTooLarge,
            ),
            data@.len() == 0 ==> r is Ok,
            old(self)@.short_only && data@.len() <= MAX_FRAME_LEN ==> r is Ok,
            check_fits(old(self)@.key) && data@.len() <= MAX_FRAME_LEN ==> r is Ok,
            old(self)@.short_only ==> final(self)@.short_only,
            match r {
                Ok(text) => {
                    &&& all_printable(frozen_bytes(text))
                    &&& frame_data(frozen_bytes(text), old(self)@.key, old(self)@.short_only)
                        == Ok::<Seq<u8>, CtcpError>(data@)
                    &&& data@.len() > 0 ==> final(self)@.short_only
                },
                Err(_) => final(self)@ == old(self)@,
            },
    {
        if data.len() == 0 {
            let empty = Bytes::new();
            proof {
                assert(encoded_as(data@, old(self)@, 1, 0x20, 0x20, Ok(empty), self@)) by {
                    reveal(encoded_as);
                }
                lemma_encoded_well(data@, old(self)@, 1, 0x20, 0x20, Ok(empty), self@);
                reveal(encoded_well);
            }
            return Ok(empty);
        }
        if data.len() > MAX_FRAME_LEN {
            proof {
                let r = Err::<Bytes, CtcpError>(CtcpError::PayloadTooLarge);
                assert(encoded_as(data@, old(self)@, 1, 0x20, 0x20, r, self@)) by {
                    reveal(encoded_as);
                }
                lemma_encoded_well(data@, old(self)@, 1, 0x20, 0x20, r, self@);
                reveal(encoded_well);
            }
            return Err(CtcpError::PayloadTooLarge);
        }
        let nonce: u8 = random_range(&mut self.rng, 0x01, 0xff);
        seal_frame(data, self.key, nonce, &mut self.working, &mut self.packet, &mut self.payload);
        let payload_len: usize = self.payload.len();
        let ghost scratch = self.length_buf@;
        let made = encode_length_prefix(
            payload_len,
            self.key,
            &mut self.length_buf,
            &mut self.rng,
            &mut self.short_only,
        );
        let ghost (k, f) = choose|k: u8, f: u8|
            is_pick(k) && is_pick(f) && #[trigger] prefix_written(
                payload_len as nat,
                self.key,
                k,
                f,
                old(self)@.short_only,
                scratch,
                made,
                self.length_buf@,
                self.short_only,
            );
        proof {
            lemma_frame_from_prefix(
                data@,
                self.key,
                nonce,
                k,
                f,
                old(self)@.short_only,
                scratch,
                made,
                self.length_buf@,
                self.short_only,
            );
        }
        let prefix_len: usize = match made {
            Ok(n) => n,
            Err(e) => {
                proof {
                    let r = Err::<Bytes, CtcpError>(e);
                    assert(encoded_as(data@, old(self)@, nonce, k, f, r, self@)) by {
                        reveal(encoded_as);
                    }
                    lemma_encoded_well(data@, old(self)@, nonce, k, f, r, self@);
                    reveal(encoded_well);
                }
                return Err(e);
            },
        };
        let text = join_frame(&mut self.encoded, &self.length_buf, prefix_len, &self.payload);
        proof {
            assert(encoded_as(data@, old(self)@, nonce, k, f, Ok(text), self@)) by {
                reveal(encoded_as);
            }
            lemma_encoded_well(data@, old(self)@, nonce, k, f, Ok(text), self@);
            reveal(encoded_well);
        }
        Ok(text)
    }
}

/// The receiving half of a connection: it turns printable text back into
/// frames.
pub struct CtcpRx {
    key: u32,
    working: BytesMut,
    header_buf: [u8; 7],
    short_only: bool,
}

impl View for CtcpRx {
    type V = Direction;

    closed spec fn view(&self) -> Direction {
        Direction { key: self.key, short_only: self.short_only }
    }
}

impl CtcpRx {
    /// A receiving half under `key`. It expects a long prefix on its first
    /// frame.
    pub fn new(key: u32) -> (rx: Self)
        ensures
            rx@ == (Direction { key, short_only: false }),
    {
        Self { key, working: BytesMut::new(), header_buf: [0u8;7], short_only: false }
    }

    /// The shared key.
    pub fn key(&self) -> (k: u32)
        ensures
            k == self@.key,
    {
        self.key
    }

    /// Whether the next prefix is expected in the short form.
    pub fn short_only(&self) -> (s: bool)
        ensures
            s == self@.short_only,
    {
        self.short_only
    }

    /// Decodes one frame off the wire: the result is `frame_data` of the
    /// text in the prefix mode the direction is in. Accepting a prefix
    /// switches the direction to short prefixes, also where the rest of the
    /// frame is refused.
    pub fn decode(&mut self, frame: &[u8]) -> (r: Result<Bytes, CtcpError>)
        ensures
            final(self)@.key == old(self)@.key,
            final(self)@.short_only == short_after(
                frame@,
                old(self)@.key,
                old(self)@.short_only,
            ),
            match frame_data(frame@, old(self)@.key, old(self)@.short_only) {
                Ok(data) => r matches Ok(bytes) && frozen_bytes(bytes) == data,
                Err(e) => r == Err::<Bytes, CtcpError>(e),
            },
    {
        if frame.len() == 0 {
            return Ok(Bytes::new());
        }
        let (payload_ascii_len, prefix_len) = match decode_length_prefix(
            frame,
            self.key,
            &mut self.header_buf,
            &mut self.short_only,
        ) {
            Ok(found) => found,
            Err(e) => {
                return Err(e);
            },
        };
        if frame.len() < prefix_len + payload_ascii_len {
            return Err(CtcpError::FrameShort);
        }
        if frame.len() != prefix_len + payload_ascii_len {
            return Err(CtcpError::FrameLong);
        }
        let payload_ascii = vstd::slice::slice_subrange(
            frame,
            prefix_len,
            prefix_len + payload_ascii_len,
        );
        let key_byte: u8 = mask_key(self.key);

        self.working.clear();
        match base94_decode_into(payload_ascii, key_byte, &mut self.working) {
            Ok(_) => {},
            Err(e) => {
                return Err(e);
            },
        }
        proof {
            lemma_decoded_len(payload_ascii@, key_byte);
        }
        if self.working.len() < FRAME_HEADER_LEN {
            self.working.clear();
            return Err(CtcpError::BadBodyLength);
        }
        let mut payload = self.working.split_off(FRAME_HEADER_LEN);
        let fits: bool = open_packet(held_mut(&mut self.working), held_mut(&mut payload), self.key);
        self.working.clear();
        if !fits {
            return Err(CtcpError::BadBodyLength);
        }
        Ok(payload.freeze())
    }
}

/// Puts the first `prefix_len` bytes of `prefix` and the payload together in
/// `encoded`, and hands them out frozen. `encoded` is left empty.
fn join_frame(encoded: &mut BytesMut, prefix: &[u8; 7], prefix_len: usize, payload: &BytesMut) -> (text:
    Bytes)
    requires
        prefix_len <= 7,
        buffer_bytes(*payload).len() < HEADER_MSS_MOD,
    ensures
        frozen_bytes(text) == prefix@.take(prefix_len as int) + buffer_bytes(*payload),
        buffer_bytes(*final(encoded)) == Seq::<u8>::empty(),
{
    let payload_len: usize = payload.len();
    encoded.clear();
    encoded.reserve(prefix_len + payload_len);
    encoded.extend_from_slice(vstd::slice::slice_subrange(prefix.as_slice(), 0, prefix_len));
    encoded.extend_from_slice(held(payload));
    let total: usize = encoded.len();
    let text = encoded.split_to(total).freeze();
    text
}

/// A prefix written for the payload of a frame makes the frame's text.
proof fn lemma_frame_from_prefix(
    data: Seq<u8>,
    key: u32,
    nonce: u8,
    k: u8,
    f: u8,
    short_before: bool,
    scratch_before: Seq<u8>,
    made: Result<usize, CtcpError>,
    scratch_after: Seq<u8>,
    short_after: bool,
)
    requires
        1 <= data.len() <= MAX_FRAME_LEN,
        prefix_written(
            frame_payload(data, key, nonce).len(),
            key,
            k,
            f,
            short_before,
            scratch_before,
            made,
            scratch_after,
            short_after,
        ),
    ensures
        frame_payload(data, key, nonce).len() < HEADER_MSS_MOD,
        match made {
            Ok(n) => {
                &&& n <= 7
                &&& short_after
                &&& frame_text(data, key, nonce, k, f, short_before) == Ok::<Seq<u8>, CtcpError>(
                    scratch_after.take(n as int) + frame_payload(data, key, nonce),
                )
            },
            Err(e) => {
                &&& short_after == short_before
                &&& frame_text(data, key, nonce, k, f, short_before) == Err::<
                    Seq<u8>,
                    CtcpError,
                >(e)
            },
        },
{
    reveal(prefix_written);
    let payload = frame_payload(data, key, nonce);
    lemma_header_roundtrip(data.len(), key, nonce);
    lemma_body_roundtrip(data, key, nonce);
    lemma_encode_shape(
        sealed_header(data.len(), key, nonce) + sealed_body(data, key, nonce),
        key_byte(key),
    );
    if prefix_text(payload.len(), key, k, f, short_before) is Ok {
        lemma_prefix_len(payload.len(), key, k, f, short_before);
    }
}

/// What `CtcpTx::encode` promises of every outcome, whatever was drawn.
#[verifier::opaque]
spec fn encoded_well(
    data: Seq<u8>,
    before: Direction,
    result: Result<Bytes, CtcpError>,
    after: Direction,
) -> bool {
    &&& after.key == before.key
    &&& data.len() > MAX_FRAME_LEN <==> result == Err::<Bytes, CtcpError>(
        CtcpError::PayloadTooLarge,
    )
    &&& data.len() == 0 ==> result is Ok
    &&& before.short_only && data.len() <= MAX_FRAME_LEN ==> result is Ok
    &&& check_fits(before.key) && data.len() <= MAX_FRAME_LEN ==> result is Ok
    &&& before.short_only ==> after.short_only
    &&& match result {
        Ok(text) => {
            &&& all_printable(frozen_bytes(text))
            &&& frame_data(frozen_bytes(text), before.key, before.short_only) == Ok::<
                Seq<u8>,
                CtcpError,
            >(data)
            &&& data.len() > 0 ==> after.short_only
        },
        Err(_) => after == before,
    }
}

/// What is promised of every outcome holds of the encoding with any nonce
/// and any two picks.
proof fn lemma_encoded_well(
    data: Seq<u8>,
    before: Direction,
    nonce: u8,
    k: u8,
    f: u8,
    result: Result<Bytes, CtcpError>,
    after: Direction,
)
    requires
        is_pick(k),
        is_pick(f),
        encoded_as(data, before, nonce, k, f, result, after),
    ensures
        encoded_well(data, before, result, after),
{
    reveal(encoded_as);
    reveal(encoded_well);
    if data.len() == 0 {
        assert(data =~= Seq::<u8>::empty());
    }
    if 1 <= data.len() <= MAX_FRAME_LEN {
        let header = sealed_header(data.len(), before.key, nonce);
        let body = sealed_body(data, before.key, nonce);
        lemma_header_roundtrip(data.len(), before.key, nonce);
        lemma_body_roundtrip(data, before.key, nonce);
        lemma_encode_shape(header + body, key_byte(before.key));
        if check_fits(before.key) {
            lemma_prefix_succeeds(
                frame_payload(data, before.key, nonce).len(),
                before.key,
                k,
                f,
                before.short_only,
            );
        }
        if frame_text(data, before.key, nonce, k, f, before.short_only) is Ok {
            lemma_frame_roundtrip(data, before.key, nonce, k, f, before.short_only);
        }
    }
}

} // verus!
