//! Whole frames: the sealed payload behind its length prefix.

use crate::base94::{
    all_printable, base94_decode_seq, base94_encode_into, base94_encode_seq, is_printable,
    lemma_base94_roundtrip, lemma_encode_shape,
};
use crate::buffer::{buffer_bytes, held, held_mut};
use crate::error::CtcpError;
use crate::prefix::{
    lemma_prefix_roundtrip, parse_prefix, prefix_text, HEADER_XSS, PREFIX_MAX,
};
use crate::primitives::{
    delta_decode_in_place, delta_decode_seq, delta_encode_in_place, delta_encode_seq, key_byte,
    lemma_delta_roundtrip, lemma_mask_involution, lemma_shuffle_len, lemma_unshuffle_shuffle,
    mask_bytes, mask_key, mask_seq, shuffle_bytes, shuffle_seq, unshuffle_bytes, unshuffle_seq,
};
use bytes::BytesMut;
use vstd::prelude::*;

verus! {

/// The longest frame that can be encoded.
pub const MAX_FRAME_LEN: usize = 65_536;

/// The size of the header that travels in front of the body.
pub const FRAME_HEADER_LEN: usize = 3;

/// The key of one frame: the shared key XORed with the frame's nonce.
pub open spec fn frame_key(key: u32, nonce: u8) -> u32 {
    key ^ (nonce as u32)
}

/// The header of a frame of `len` bytes before it is sealed: the nonce, then
/// `len - 1` as a big-endian 16-bit number.
pub open spec fn plain_header(len: nat, nonce: u8) -> Seq<u8> {
    seq![nonce, ((len - 1) / 256) as u8, ((len - 1) % 256) as u8]
}

/// The sealed header: the two length bytes masked and shuffled under the
/// frame key, then all three bytes delta-coded under the shared key.
pub open spec fn sealed_header(len: nat, key: u32, nonce: u8) -> Seq<u8> {
    let plain = plain_header(len, nonce);
    let fk = frame_key(key, nonce);
    delta_encode_seq(
        seq![nonce] + shuffle_seq(mask_seq(plain.subrange(1, 3), key_byte(fk)), fk),
        key_byte(key),
    )
}

/// The sealed body: the frame masked and shuffled under the frame key, then
/// delta-coded under the shared key.
pub open spec fn sealed_body(data: Seq<u8>, key: u32, nonce: u8) -> Seq<u8> {
    let fk = frame_key(key, nonce);
    delta_encode_seq(shuffle_seq(mask_seq(data, key_byte(fk)), fk), key_byte(key))
}

/// The printable payload of a frame: sealed header and sealed body in
/// base 94.
pub open spec fn frame_payload(data: Seq<u8>, key: u32, nonce: u8) -> Seq<u8> {
    base94_encode_seq(
        sealed_header(data.len(), key, nonce) + sealed_body(data, key, nonce),
        key_byte(key),
    )
}

/// What a frame becomes on the wire, with `nonce` as its salt and `k` and `f`
/// as the picks of its prefix. An empty frame stays empty; a frame of more
/// than 65 536 bytes is `PayloadTooLarge`; otherwise the payload follows its
/// prefix, or the prefix fails.
pub open spec fn frame_text(
    data: Seq<u8>,
    key: u32,
    nonce: u8,
    k: u8,
    f: u8,
    short_only: bool,
) -> Result<Seq<u8>, CtcpError> {
    let payload = frame_payload(data, key, nonce);
    if data.len() == 0 {
        Ok(Seq::empty())
    } else if data.len() > MAX_FRAME_LEN {
        Err(CtcpError::PayloadTooLarge)
    } else {
        match prefix_text(payload.len(), key, k, f, short_only) {
            Ok(prefix) => Ok(prefix + payload),
            Err(e) => Err(e),
        }
    }
}

/// The header of a received frame with its seal taken off.
pub open spec fn opened_header(sealed: Seq<u8>, key: u32) -> Seq<u8> {
    let plain = delta_decode_seq(sealed, key_byte(key));
    let fk = frame_key(key, plain[0]);
    seq![plain[0]] + mask_seq(unshuffle_seq(plain.subrange(1, 3), fk), key_byte(fk))
}

/// The body of a received frame with its seal taken off.
pub open spec fn opened_body(sealed: Seq<u8>, key: u32, nonce: u8) -> Seq<u8> {
    let fk = frame_key(key, nonce);
    mask_seq(unshuffle_seq(delta_decode_seq(sealed, key_byte(key)), fk), key_byte(fk))
}

/// The body length that an opened header announces.
pub open spec fn announced_len(header: Seq<u8>) -> nat {
    (header[1] as nat) * 256 + header[2] as nat + 1
}

/// The frame inside the base-94 bytes `packet`: `BadBodyLength` when there
/// are fewer than three of them or the body is not as long as the header
/// says.
pub open spec fn packet_data(packet: Seq<u8>, key: u32) -> Result<Seq<u8>, CtcpError> {
    let header = opened_header(packet.take(3), key);
    let body = opened_body(packet.skip(3), key, header[0]);
    if packet.len() < 3 {
        Err(CtcpError::BadBodyLength)
    } else if body.len() != announced_len(header) {
        Err(CtcpError::BadBodyLength)
    } else {
        Ok(body)
    }
}

/// The frame that the wire bytes `frame` carry. Empty stays empty. Else the
/// prefix is parsed; `FrameShort` when fewer bytes follow it than it
/// announces, `FrameLong` when more; then the payload is read in base 94 and
/// opened.
pub open spec fn frame_data(frame: Seq<u8>, key: u32, short_only: bool) -> Result<
    Seq<u8>,
    CtcpError,
> {
    if frame.len() == 0 {
        Ok(Seq::empty())
    } else {
        match parse_prefix(frame, key, short_only) {
            Err(e) => Err(e),
            Ok((payload_len, prefix_len)) => {
                if frame.len() < prefix_len + payload_len {
                    Err(CtcpError::FrameShort)
                } else if frame.len() != prefix_len + payload_len {
                    Err(CtcpError::FrameLong)
                } else {
                    match base94_decode_seq(frame.skip(prefix_len as int), key_byte(key)) {
                        Err(e) => Err(e),
                        Ok(packet) => packet_data(packet, key),
                    }
                }
            },
        }
    }
}

/// Whether a direction expects short prefixes after `frame` was received:
/// it does once a prefix was accepted.
pub open spec fn short_after(frame: Seq<u8>, key: u32, short_only: bool) -> bool {
    short_only || (frame.len() > 0 && parse_prefix(frame, key, short_only) is Ok)
}

/// The seal comes off a sealed header.
pub proof fn lemma_header_roundtrip(len: nat, key: u32, nonce: u8)
    requires
        1 <= len <= MAX_FRAME_LEN,
    ensures
        sealed_header(len, key, nonce).len() == 3,
        opened_header(sealed_header(len, key, nonce), key) == plain_header(len, nonce),
        announced_len(plain_header(len, nonce)) == len,
{
    let plain = plain_header(len, nonce);
    let fk = frame_key(key, nonce);
    let pair = plain.subrange(1, 3);
    let masked = mask_seq(pair, key_byte(fk));
    let shuffled = shuffle_seq(masked, fk);
    let inner = seq![nonce] + shuffled;
    lemma_shuffle_len(masked, fk);
    lemma_delta_roundtrip(inner, key_byte(key));
    assert(inner.subrange(1, 3) =~= shuffled);
    lemma_unshuffle_shuffle(masked, fk);
    lemma_mask_involution(pair, key_byte(fk));
}

/// The seal comes off a sealed body.
pub proof fn lemma_body_roundtrip(data: Seq<u8>, key: u32, nonce: u8)
    requires
        data.len() <= u32::MAX,
    ensures
        sealed_body(data, key, nonce).len() == data.len(),
        opened_body(sealed_body(data, key, nonce), key, nonce) == data,
{
    let fk = frame_key(key, nonce);
    let masked = mask_seq(data, key_byte(fk));
    let shuffled = shuffle_seq(masked, fk);
    lemma_shuffle_len(masked, fk);
    lemma_delta_roundtrip(shuffled, key_byte(key));
    lemma_unshuffle_shuffle(masked, fk);
    lemma_mask_involution(data, key_byte(fk));
}

/// Decoding what encoding produced gives the frame back: for every frame of
/// 1 to 65 536 bytes, every key, every nonce and every pair of picks with
/// which the encoding succeeds, in either prefix mode. The encoded frame is
/// printable when the picks are, and its prefix is accepted, so that the
/// receiving direction expects short prefixes from then on.
pub proof fn lemma_frame_roundtrip(
    data: Seq<u8>,
    key: u32,
    nonce: u8,
    k: u8,
    f: u8,
    short_only: bool,
)
    requires
        1 <= data.len() <= MAX_FRAME_LEN,
        frame_text(data, key, nonce, k, f, short_only) is Ok,
    ensures
        frame_data(frame_text(data, key, nonce, k, f, short_only).unwrap(), key, short_only)
            == Ok::<Seq<u8>, CtcpError>(data),
        short_after(frame_text(data, key, nonce, k, f, short_only).unwrap(), key, short_only),
        frame_text(data, key, nonce, k, f, short_only).unwrap().len() == (if short_only {
            HEADER_XSS
        } else {
            PREFIX_MAX
        }) + frame_payload(data, key, nonce).len(),
        is_printable(k) && is_printable(f) ==> all_printable(
            frame_text(data, key, nonce, k, f, short_only).unwrap(),
        ),
{
    let wire = frame_text(data, key, nonce, k, f, short_only).unwrap();
    let header = sealed_header(data.len(), key, nonce);
    let body = sealed_body(data, key, nonce);
    let packet = header + body;
    let payload = frame_payload(data, key, nonce);
    let prefix = prefix_text(payload.len(), key, k, f, short_only).unwrap();
    lemma_header_roundtrip(data.len(), key, nonce);
    lemma_body_roundtrip(data, key, nonce);
    lemma_encode_shape(packet, key_byte(key));
    lemma_prefix_roundtrip(payload.len(), key, k, f, short_only, payload);
    assert(wire.skip(prefix.len() as int) =~= payload);
    lemma_base94_roundtrip(packet, key_byte(key));
    assert(packet.take(3) =~= header);
    assert(packet.skip(3) =~= body);
    assert(is_printable(k) && is_printable(f) ==> all_printable(wire)) by {
        assert(forall|i: int| 0 <= i < prefix.len() ==> wire[i] == prefix[i]);
        assert(forall|i: int|
            prefix.len() <= i < wire.len() ==> wire[i] == payload[i - prefix.len()]);
    }
}

/// Seals `data` under `key` with `nonce` as its salt and leaves the printable
/// payload in `payload`. `working` and `packet` are scratch space: they end
/// up holding the sealed body and the sealed header with the body.
pub fn seal_frame(
    data: &[u8],
    key: u32,
    nonce: u8,
    working: &mut BytesMut,
    packet: &mut BytesMut,
    payload: &mut BytesMut,
)
    requires
        1 <= data@.len() <= MAX_FRAME_LEN,
    ensures
        buffer_bytes(*final(working)) == sealed_body(data@, key, nonce),
        buffer_bytes(*final(packet)) == sealed_header(data@.len(), key, nonce) + sealed_body(
            data@,
            key,
            nonce,
        ),
        buffer_bytes(*final(payload)) == frame_payload(data@, key, nonce),
{
    let key_byte: u8 = mask_key(key);
    let mut header: [u8; 3] = [0u8;3];
    header[0] = nonce;
    let len_minus_one: u16 = (data.len() - 1) as u16;
    assert(len_minus_one >> 8 == len_minus_one / 256) by (bit_vector);
    assert(len_minus_one & 0xff == len_minus_one % 256) by (bit_vector);
    header[1] = (len_minus_one >> 8) as u8;
    header[2] = (len_minus_one & 0xff) as u8;
    assert(header@ =~= plain_header(data@.len(), nonce));

    let frame_key_full: u32 = key ^ (header[0] as u32);
    let frame_key_byte: u8 = mask_key(frame_key_full);

    let view: &mut [u8] = &mut header;
    let (_, pair) = view.split_at_mut(1);
    mask_bytes(pair, frame_key_byte);
    proof {
        lemma_shuffle_len(pair@, frame_key_full);
    }
    shuffle_bytes(pair, frame_key_full);
    assert(header@ =~= seq![nonce] + shuffle_seq(
        mask_seq(plain_header(data@.len(), nonce).subrange(1, 3), frame_key_byte),
        frame_key_full,
    ));
    delta_encode_in_place(&mut header, key_byte);

    working.clear();
    working.extend_from_slice(data);
    let body = held_mut(working);
    mask_bytes(body, frame_key_byte);
    shuffle_bytes(body, frame_key_full);
    delta_encode_in_place(body, key_byte);

    packet.clear();
    let body_len: usize = working.len();
    proof {
        lemma_shuffle_len(mask_seq(data@, frame_key_byte), frame_key_full);
    }
    packet.reserve(FRAME_HEADER_LEN + body_len);
    packet.extend_from_slice(header.as_slice());
    packet.extend_from_slice(held(working));
    assert(buffer_bytes(*packet) =~= sealed_header(data@.len(), key, nonce) + sealed_body(
        data@,
        key,
        nonce,
    ));

    payload.clear();
    base94_encode_into(held(packet), key_byte, payload);
}

/// Takes the seal off the three header bytes in `header` and off the body in
/// `body`, in place, and says whether the body is as long as the header
/// announces.
pub fn open_packet(header: &mut [u8], body: &mut [u8], key: u32) -> (fits: bool)
    requires
        old(header)@.len() == 3,
        old(body)@.len() <= u32::MAX,
    ensures
        final(header)@ == opened_header(old(header)@, key),
        final(body)@ == opened_body(old(body)@, key, final(header)@[0]),
        fits <==> final(body)@.len() == announced_len(final(header)@),
{
    let key_byte: u8 = mask_key(key);
    delta_decode_in_place(header, key_byte);
    let nonce: u8 = header[0];
    let frame_key_full: u32 = key ^ (nonce as u32);
    let frame_key_byte: u8 = mask_key(frame_key_full);
    let (_, pair) = header.split_at_mut(1);
    proof {
        lemma_shuffle_len(pair@, frame_key_full);
    }
    unshuffle_bytes(pair, frame_key_full);
    mask_bytes(pair, frame_key_byte);
    let high: usize = header[1] as usize;
    let low: usize = header[2] as usize;
    assert((high << 8) | low == high * 256 + low) by (bit_vector)
        requires
            high < 256,
            low < 256,
    ;
    let expected_len: usize = ((high << 8) | low) + 1;
    delta_decode_in_place(body, key_byte);
    proof {
        lemma_shuffle_len(body@, frame_key_full);
    }
    unshuffle_bytes(body, frame_key_full);
    mask_bytes(body, frame_key_byte);
    body.len() == expected_len
}

} // verus!
