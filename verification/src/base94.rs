//! The base-94 alphabet: one or two printable bytes for every byte.

use crate::buffer::{buffer_bytes, held_mut};
use crate::error::CtcpError;
use bytes::BytesMut;
use vstd::prelude::*;

verus! {

/// The first byte of the printable range.
pub const PRINTABLE_START: u8 = 0x20;

/// The last byte of the printable range.
pub const PRINTABLE_END: u8 = 0x7e;

/// Whether `b` lies in `0x20..=0x7e`.
pub open spec fn is_printable(b: u8) -> bool {
    0x20 <= b <= 0x7e
}

/// Whether every byte of `s` is printable.
pub open spec fn all_printable(s: Seq<u8>) -> bool {
    forall|i: int| 0 <= i < s.len() ==> is_printable(#[trigger] s[i])
}

/// The one or two symbols that stand for `b`. With `a = b - key` modulo 256:
/// below 93 the single symbol `0x20 + a`; from 93 on the high symbol
/// `0x20 + 93 + (a / 93 - 1)` and the low symbol `0x20 + a % 93`.
pub open spec fn base94_symbols(b: u8, key: u8) -> Seq<u8> {
    let a = b.wrapping_sub(key);
    if a < 93 {
        seq![(0x20 + a) as u8]
    } else {
        seq![(0x20 + (a / 93 - 1) + 93) as u8, (0x20 + a % 93) as u8]
    }
}

/// The symbols of every byte of `data`, in order.
pub open spec fn base94_encode_seq(data: Seq<u8>, key: u8) -> Seq<u8>
    decreases data.len(),
{
    if data.len() == 0 {
        Seq::empty()
    } else {
        base94_symbols(data[0], key) + base94_encode_seq(data.skip(1), key)
    }
}

/// `first` put before a decoded rest, or the failure of the rest.
pub open spec fn decoded_after(first: u8, rest: Result<Seq<u8>, CtcpError>) -> Result<
    Seq<u8>,
    CtcpError,
> {
    match rest {
        Ok(bytes) => Ok(seq![first] + bytes),
        Err(e) => Err(e),
    }
}

/// The bytes that the symbols of `text` stand for, read from the front, or
/// the first failure met: `BadSymbol` for a byte outside the printable range,
/// `BadPair` for a high symbol that ends the text, is followed by another
/// high symbol, or makes a value above `0xff` with its low symbol.
pub open spec fn base94_decode_seq(text: Seq<u8>, key: u8) -> Result<Seq<u8>, CtcpError>
    decreases text.len(),
{
    if text.len() == 0 {
        Ok(Seq::empty())
    } else if !is_printable(text[0]) {
        Err(CtcpError::BadSymbol)
    } else if text[0] - 0x20 < 93 {
        decoded_after(
            ((text[0] - 0x20) as u8).wrapping_add(key),
            base94_decode_seq(text.skip(1), key),
        )
    } else if text.len() < 2 {
        Err(CtcpError::BadPair)
    } else if !is_printable(text[1]) {
        Err(CtcpError::BadSymbol)
    } else if text[1] - 0x20 >= 93 {
        Err(CtcpError::BadPair)
    } else if (text[0] - 0x20 - 93 + 1) * 93 + (text[1] - 0x20) > 0xff {
        Err(CtcpError::BadPair)
    } else {
        decoded_after(
            (((text[0] - 0x20 - 93 + 1) * 93 + (text[1] - 0x20)) as u8).wrapping_add(key),
            base94_decode_seq(text.skip(2), key),
        )
    }
}

/// The number of two-symbol pairs in `text`, read from the front.
pub open spec fn base94_pairs(text: Seq<u8>) -> nat
    decreases text.len(),
{
    if text.len() == 0 {
        0
    } else if text[0] - 0x20 < 93 {
        base94_pairs(text.skip(1))
    } else if text.len() < 2 {
        0
    } else {
        1 + base94_pairs(text.skip(2))
    }
}

/// Encoding a concatenation is concatenating the encodings.
pub proof fn lemma_encode_concat(a: Seq<u8>, b: Seq<u8>, key: u8)
    ensures
        base94_encode_seq(a + b, key) == base94_encode_seq(a, key) + base94_encode_seq(b, key),
    decreases a.len(),
{
    if a.len() == 0 {
        assert(base94_encode_seq(a, key) + base94_encode_seq(b, key) =~= base94_encode_seq(
            b,
            key,
        ));
    } else {
        assert((a + b).skip(1) =~= a.skip(1) + b);
        lemma_encode_concat(a.skip(1), b, key);
        assert(base94_encode_seq(a + b, key) =~= base94_encode_seq(a, key) + base94_encode_seq(
            b,
            key,
        ));
    }
}

/// Encoding one more byte appends its symbols.
pub proof fn lemma_encode_push(data: Seq<u8>, i: int, key: u8)
    requires
        0 <= i < data.len(),
    ensures
        base94_encode_seq(data.take(i + 1), key) == base94_encode_seq(data.take(i), key)
            + base94_symbols(data[i], key),
{
    let one = seq![data[i]];
    assert(data.take(i + 1) =~= data.take(i) + one);
    lemma_encode_concat(data.take(i), one, key);
    assert(base94_encode_seq(one.skip(1), key) =~= Seq::<u8>::empty());
}

/// An encoding has between one and two symbols for every byte, all printable.
pub proof fn lemma_encode_shape(data: Seq<u8>, key: u8)
    ensures
        data.len() <= base94_encode_seq(data, key).len() <= 2 * data.len(),
        all_printable(base94_encode_seq(data, key)),
    decreases data.len(),
{
    if data.len() > 0 {
        lemma_encode_shape(data.skip(1), key);
    }
}

/// Decoding an encoding under the same key gives the bytes back; what
/// follows the encoding is decoded after them.
pub proof fn lemma_decode_encoded_then(data: Seq<u8>, rest: Seq<u8>, key: u8)
    ensures
        base94_decode_seq(base94_encode_seq(data, key) + rest, key) == match base94_decode_seq(
            rest,
            key,
        ) {
            Ok(bytes) => Ok(data + bytes),
            Err(e) => Err(e),
        },
    decreases data.len(),
{
    let text = base94_encode_seq(data, key) + rest;
    if data.len() == 0 {
        if let Ok(bytes) = base94_decode_seq(rest, key) {
            assert(data + bytes =~= bytes);
        }
    } else {
        let b = data[0];
        let a = b.wrapping_sub(key);
        let tail = base94_encode_seq(data.skip(1), key) + rest;
        lemma_decode_encoded_then(data.skip(1), rest, key);
        if a < 93 {
            assert(text.skip(1) =~= tail);
        } else {
            assert(text.skip(2) =~= tail);
        }
        if let Ok(bytes) = base94_decode_seq(rest, key) {
            assert(seq![b] + (data.skip(1) + bytes) =~= data + bytes);
        }
    }
}

/// Decoding undoes encoding under the same key.
pub proof fn lemma_base94_roundtrip(data: Seq<u8>, key: u8)
    ensures
        base94_decode_seq(base94_encode_seq(data, key), key) == Ok::<Seq<u8>, CtcpError>(data),
{
    lemma_decode_encoded_then(data, Seq::empty(), key);
}

/// A text decodes to `data` only if it is the encoding of `data`: every byte
/// has one spelling, and the decoder accepts no other.
pub proof fn lemma_decoded_is_encoding(text: Seq<u8>, data: Seq<u8>, key: u8)
    requires
        base94_decode_seq(text, key) == Ok::<Seq<u8>, CtcpError>(data),
    ensures
        base94_encode_seq(data, key) == text,
    decreases text.len(),
{
    if text.len() > 0 {
        let stride: int = if text[0] - 0x20 < 93 {
            1
        } else {
            2
        };
        let rest = base94_decode_seq(text.skip(stride), key).unwrap();
        assert(data.skip(1) =~= rest);
        lemma_decoded_is_encoding(text.skip(stride), rest, key);
    }
}

/// Two inputs with the same encoding under one key are the same input.
pub proof fn lemma_base94_injective(x: Seq<u8>, y: Seq<u8>, key: u8)
    requires
        base94_encode_seq(x, key) == base94_encode_seq(y, key),
    ensures
        x == y,
{
    lemma_base94_roundtrip(x, key);
    lemma_base94_roundtrip(y, key);
}

/// A text that decodes has one symbol for every byte and one more for every
/// pair.
pub proof fn lemma_decoded_len(text: Seq<u8>, key: u8)
    requires
        base94_decode_seq(text, key) is Ok,
    ensures
        base94_decode_seq(text, key).unwrap().len() + base94_pairs(text) == text.len(),
        all_printable(text),
    decreases text.len(),
{
    if text.len() > 0 {
        if text[0] - 0x20 < 93 {
            lemma_decoded_len(text.skip(1), key);
            assert forall|i: int| 0 <= i < text.len() implies is_printable(#[trigger] text[i]) by {
                if i > 0 {
                    assert(text[i] == text.skip(1)[i - 1]);
                }
            }
        } else {
            lemma_decoded_len(text.skip(2), key);
            assert forall|i: int| 0 <= i < text.len() implies is_printable(#[trigger] text[i]) by {
                if i > 1 {
                    assert(text[i] == text.skip(2)[i - 2]);
                }
            }
        }
    }
}

/// `done` put before a decoded rest, or the failure of the rest.
pub open spec fn decoded_behind(done: Seq<u8>, rest: Result<Seq<u8>, CtcpError>) -> Result<
    Seq<u8>,
    CtcpError,
> {
    match rest {
        Ok(bytes) => Ok(done + bytes),
        Err(e) => Err(e),
    }
}

/// One decoded byte moves from the rest to what is done.
proof fn lemma_decoded_step(done: Seq<u8>, first: u8, rest: Result<Seq<u8>, CtcpError>)
    ensures
        decoded_behind(done, decoded_after(first, rest)) == decoded_behind(done.push(first), rest),
{
    if let Ok(bytes) = rest {
        assert(done + (seq![first] + bytes) =~= done.push(first) + bytes);
    }
}

/// Nothing put before a decoded rest leaves it as it is.
proof fn lemma_decoded_behind_nothing(rest: Result<Seq<u8>, CtcpError>)
    ensures
        decoded_behind(Seq::empty(), rest) == rest,
{
    if let Ok(bytes) = rest {
        assert(Seq::<u8>::empty() + bytes =~= bytes);
    }
}

/// What follows the first byte of a sequence is the sequence without it.
proof fn lemma_split_first(whole: Seq<u8>, at: int, first: u8, rest: Seq<u8>)
    requires
        0 <= at <= whole.len(),
        whole.skip(at) == seq![first] + rest,
    ensures
        at < whole.len(),
        whole[at] == first,
        rest == whole.skip(at + 1),
{
    let tail = whole.skip(at);
    assert(tail.len() == 1 + rest.len());
    assert(tail[0] == first);
    assert forall|j: int| 0 <= j < rest.len() implies rest[j] == whole.skip(at + 1)[j] by {
        assert(rest[j] == (seq![first] + rest)[j + 1]);
    }
}

/// Writes the base-94 symbols of `data` under `key` into `out`, replacing
/// what it held.
pub fn base94_encode_into(data: &[u8], key: u8, out: &mut BytesMut)
    requires
        2 * data@.len() <= usize::MAX,
    ensures
        buffer_bytes(*final(out)) == base94_encode_seq(data@, key),
{
    out.clear();
    let n: usize = data.len();
    let mut extra: usize = 0;
    let mut i: usize = 0;
    while i < n
        invariant
            i <= n,
            n == data@.len(),
            extra <= i,
            i + extra == base94_encode_seq(data@.take(i as int), key).len(),
        decreases n - i,
    {
        proof {
            lemma_encode_push(data@, i as int, key);
        }
        if data[i].wrapping_sub(key) >= 93 {
            extra += 1;
        }
        i += 1;
    }
    assert(data@.take(n as int) =~= data@);
    let target_len: usize = n + extra;
    out.resize(target_len, 0);
    let buf = held_mut(out);
    let mut offset: usize = 0;
    i = 0;
    while i < n
        invariant
            i <= n,
            n == data@.len(),
            buf@.len() == target_len,
            target_len == base94_encode_seq(data@, key).len(),
            offset == base94_encode_seq(data@.take(i as int), key).len(),
            buf@.take(offset as int) == base94_encode_seq(data@.take(i as int), key),
        decreases n - i,
    {
        let adjusted: u8 = data[i].wrapping_sub(key);
        proof {
            lemma_encode_push(data@, i as int, key);
            lemma_encode_concat(data@.take(i + 1), data@.skip(i + 1), key);
            assert(data@.take(i + 1) + data@.skip(i + 1) =~= data@);
        }
        let ghost before = buf@;
        if adjusted >= 93 {
            let high: u8 = (adjusted / 93 - 1) + 93;
            let low: u8 = adjusted % 93;
            buf[offset] = 0x20 + high;
            buf[offset + 1] = 0x20 + low;
            offset += 2;
        } else {
            buf[offset] = 0x20 + adjusted;
            offset += 1;
        }
        assert(buf@.take(offset as int) =~= before.take(
            base94_encode_seq(data@.take(i as int), key).len() as int,
        ) + base94_symbols(data@[i as int], key));
        i += 1;
    }
}

/// Reads the base-94 symbols of `data` under `key` into `out`, replacing what
/// it held. The whole text is checked before a byte is written: on a failure
/// `out` is left empty.
pub fn base94_decode_into(data: &[u8], key: u8, out: &mut BytesMut) -> (r: Result<(), CtcpError>)
    ensures
        match base94_decode_seq(data@, key) {
            Ok(bytes) => r is Ok && buffer_bytes(*final(out)) == bytes,
            Err(e) => r == Err::<(), CtcpError>(e) && buffer_bytes(*final(out)) == Seq::<
                u8,
            >::empty(),
        },
{
    out.clear();
    let len: usize = data.len();
    let mut index: usize = 0;
    let mut escapes: usize = 0;
    let ghost mut done: Seq<u8> = Seq::empty();
    assert(data@.skip(0) =~= data@);
    proof {
        lemma_decoded_behind_nothing(base94_decode_seq(data@, key));
    }
    while index < len
        invariant
            index <= len,
            len == data@.len(),
            escapes <= index,
            done.len() == index - escapes,
            buffer_bytes(*out) == Seq::<u8>::empty(),
            base94_decode_seq(data@, key) == decoded_behind(
                done,
                base94_decode_seq(data@.skip(index as int), key),
            ),
        decreases len - index,
    {
        let ghost text = data@.skip(index as int);
        let raw: u8 = data[index];
        if raw < PRINTABLE_START || raw > PRINTABLE_END {
            return Err(CtcpError::BadSymbol);
        }
        let value: u8 = raw - 0x20;
        if value >= 93 {
            index += 1;
            if index >= len {
                return Err(CtcpError::BadPair);
            }
            let next_raw: u8 = data[index];
            if next_raw < PRINTABLE_START || next_raw > PRINTABLE_END {
                return Err(CtcpError::BadSymbol);
            }
            let next: u8 = next_raw - 0x20;
            if next >= 93 {
                return Err(CtcpError::BadPair);
            }
            let combined: u16 = ((value - 93 + 1) as u16) * 93 + (next as u16);
            if combined > 0xff {
                return Err(CtcpError::BadPair);
            }
            escapes += 1;
            proof {
                assert(text.skip(2) =~= data@.skip(index + 1));
                let first = (combined as u8).wrapping_add(key);
                lemma_decoded_step(done, first, base94_decode_seq(text.skip(2), key));
                done = done.push(first);
            }
        } else {
            proof {
                assert(text.skip(1) =~= data@.skip(index + 1));
                let first = value.wrapping_add(key);
                lemma_decoded_step(done, first, base94_decode_seq(text.skip(1), key));
                done = done.push(first);
            }
        }
        index += 1;
    }

    out.resize(len - escapes, 0);
    let buf = held_mut(out);
    index = 0;
    let mut out_offset: usize = 0;
    assert(done.skip(0) =~= done);
    while index < len
        invariant
            index <= len,
            len == data@.len(),
            buf@.len() == done.len(),
            out_offset <= done.len(),
            base94_decode_seq(data@.skip(index as int), key) == Ok::<Seq<u8>, CtcpError>(
                done.skip(out_offset as int),
            ),
            buf@.take(out_offset as int) == done.take(out_offset as int),
        decreases len - index,
    {
        let ghost text = data@.skip(index as int);
        let ghost before = buf@;
        let raw: u8 = data[index];
        let value: u8 = raw - 0x20;
        if value >= 93 {
            index += 1;
            let next_raw: u8 = data[index];
            let next: u8 = next_raw - 0x20;
            let combined: u16 = ((value - 93 + 1) as u16) * 93 + (next as u16);
            proof {
                assert(text.skip(2) =~= data@.skip(index + 1));
                let rest = base94_decode_seq(text.skip(2), key).unwrap();
                assert(done.skip(out_offset as int) == seq![(combined as u8).wrapping_add(key)]
                    + rest);
                lemma_split_first(
                    done,
                    out_offset as int,
                    (combined as u8).wrapping_add(key),
                    rest,
                );
            }
            buf[out_offset] = (combined as u8).wrapping_add(key);
        } else {
            proof {
                assert(text.skip(1) =~= data@.skip(index + 1));
                let rest = base94_decode_seq(text.skip(1), key).unwrap();
                lemma_split_first(done, out_offset as int, value.wrapping_add(key), rest);
            }
            buf[out_offset] = value.wrapping_add(key);
        }
        assert(buf@.take(out_offset + 1) =~= done.take(out_offset + 1)) by {
            assert forall|j: int| 0 <= j < out_offset implies buf@[j] == done[j] by {
                assert(before.take(out_offset as int)[j] == done.take(out_offset as int)[j]);
            }
        }
        out_offset += 1;
        index += 1;
    }
    Ok(())
}

} // verus!
