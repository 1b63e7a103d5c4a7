//! The printable length prefix of a frame.
//!
//! A prefix carries the payload length as three base-94 digits behind a flag
//! byte. The first prefix of a direction is followed by a three-byte
//! verification tail; once it has been produced or accepted, every later
//! prefix of that direction is the short form.

use crate::base94::{all_printable, is_printable, PRINTABLE_END, PRINTABLE_START};
use crate::checksum::{inet_checksum, inet_checksum_of, lemma_folded_sum_bound};
use crate::error::CtcpError;
use crate::primitives::{
    lemma_shuffle_keeps, lemma_shuffle_len, lemma_unshuffle_shuffle, shuffle_bytes, shuffle_seq,
    unshuffle_bytes, unshuffle_seq,
};
use crate::random::random_range;
use rand::rngs::SmallRng;
use vstd::prelude::*;

verus! {

/// The number of digits of a length.
pub const HEADER_MSS: usize = 3;

/// The size of a short prefix: a flag byte and the digits.
pub const HEADER_XSS: usize = 4;

/// The size of a long prefix: a short prefix and its verification tail.
pub const PREFIX_MAX: usize = 7;

/// The modulus of the length arithmetic: `94^3 - 1`.
pub const HEADER_MSS_MOD: u32 = 830_583;

/// The key reduced to the range of a length.
pub open spec fn kf_mod(key: u32) -> nat {
    (key % HEADER_MSS_MOD) as nat
}

/// The printable byte of a digit value.
pub open spec fn digit(value: nat) -> u8 {
    (0x20 + value) as u8
}

/// The digits of `value` in base 94, most significant first, without
/// leading zeros. Meant for values below `94^3`, which have up to three.
pub open spec fn base94_digits(value: nat) -> Seq<u8> {
    if value < 94 {
        seq![digit(value)]
    } else if value < 8836 {
        seq![digit(value / 94), digit(value % 94)]
    } else {
        seq![digit(value / 8836), digit(value / 94 % 94), digit(value % 94)]
    }
}

/// The three digits of `value`, padded with the zero digit on the left.
pub open spec fn padded_digits(value: nat) -> Seq<u8> {
    seq![digit(value / 8836), digit(value / 94 % 94), digit(value % 94)]
}

/// The number that big-endian base-94 digits stand for.
pub open spec fn base94_value(digits: Seq<u8>) -> nat
    decreases digits.len(),
{
    if digits.len() == 0 {
        0
    } else {
        (base94_value(digits.drop_last()) * 94 + (digits.last() - 0x20)) as nat
    }
}

/// Three printable digits stand for their weighted sum.
pub proof fn lemma_value_of_three(digits: Seq<u8>)
    requires
        digits.len() == 3,
        all_printable(digits),
    ensures
        base94_value(digits) == (digits[0] - 0x20) * 8836 + (digits[1] - 0x20) * 94 + (digits[2]
            - 0x20),
{
    let two = digits.drop_last();
    let one = two.drop_last();
    assert(base94_value(one.drop_last()) == 0);
    assert(base94_value(one) == digits[0] - 0x20);
    assert(base94_value(two) == (digits[0] - 0x20) * 94 + (digits[1] - 0x20));
}

/// The padded digits of a value below `94^3` are printable and stand for it.
pub proof fn lemma_padded_digits(value: nat)
    requires
        value <= HEADER_MSS_MOD,
    ensures
        padded_digits(value).len() == 3,
        all_printable(padded_digits(value)),
        base94_value(padded_digits(value)) == value,
        padded_digits(value)[0] == 0x20 <==> value < 8836,
{
    let d = padded_digits(value);
    lemma_value_of_three(d);
}

/// The padded digits are the digits behind as many zero digits as it takes
/// to make three.
pub proof fn lemma_digits_padded(value: nat)
    requires
        value <= HEADER_MSS_MOD,
    ensures
        1 <= base94_digits(value).len() <= 3,
        forall|j: int|
            0 <= j < 3 - base94_digits(value).len() ==> #[trigger] padded_digits(value)[j] == 0x20,
        forall|j: int|
            0 <= j < base94_digits(value).len() ==> padded_digits(value)[3 - base94_digits(
                value,
            ).len() + j] == #[trigger] base94_digits(value)[j],
{
    if value < 94 {
        assert(value / 8836 == 0 && value / 94 % 94 == 0 && value % 94 == value);
    } else if value < 8836 {
        assert(value / 8836 == 0 && value / 94 % 94 == value / 94);
    }
}

/// Writes the digits of `value` in base 94 at the front of `out`, most
/// significant first, and returns how many there are. The rest of `out` is
/// left as it was.
pub fn base94_decimal_encode(value: u32, out: &mut [u8; 3]) -> (len: usize)
    requires
        value <= HEADER_MSS_MOD,
    ensures
        len == base94_digits(value as nat).len(),
        1 <= len <= 3,
        final(out)@.take(len as int) == base94_digits(value as nat),
        final(out)@.skip(len as int) == old(out)@.skip(len as int),
{
    if value == 0 {
        out[0] = PRINTABLE_START;
        return 1;
    }
    let mut digits: [u8; 3] = [0u8;3];
    let mut len: usize = 0;
    let mut rest: u32 = value;
    while rest > 0
        invariant
            value <= HEADER_MSS_MOD,
            len <= 3,
            value > 0,
            len == 0 ==> rest == value,
            len == 1 ==> rest == value / 94 && digits@[0] == value % 94,
            len == 2 ==> value >= 94 && rest == value / 8836 && digits@[0] == value % 94
                && digits@[1] == value / 94 % 94,
            len == 3 ==> value >= 8836 && rest == 0 && digits@[0] == value % 94 && digits@[1]
                == value / 94 % 94 && digits@[2] == value / 8836,
        decreases rest,
    {
        digits[len] = (rest % 94) as u8;
        rest /= 94;
        len += 1;
    }
    let mut i: usize = 0;
    while i < len
        invariant
            1 <= len <= 3,
            i <= len,
            value <= HEADER_MSS_MOD,
            len == 1 ==> value < 94 && digits@[0] == value,
            len == 2 ==> 94 <= value < 8836 && digits@[0] == value % 94 && digits@[1] == value
                / 94,
            len == 3 ==> 8836 <= value && digits@[0] == value % 94 && digits@[1] == value / 94 % 94
                && digits@[2] == value / 8836,
            forall|j: int| len - i <= j < len ==> out@[j] == digits@[len - 1 - j] + 0x20,
            forall|j: int| len <= j < 3 ==> out@[j] == old(out)@[j],
        decreases len - i,
    {
        out[len - 1 - i] = digits[i] + PRINTABLE_START;
        i += 1;
    }
    len
}

/// Reads one to three base-94 digits, most significant first.
pub fn base94_decimal_decode(data: &[u8]) -> (r: Result<u32, CtcpError>)
    ensures
        data@.len() == 0 || data@.len() > 3 ==> r == Err::<u32, CtcpError>(
            CtcpError::BadLengthDigits,
        ),
        1 <= data@.len() <= 3 && !all_printable(data@) ==> r == Err::<u32, CtcpError>(
            CtcpError::BadSymbol,
        ),
        1 <= data@.len() <= 3 && all_printable(data@) ==> r == Ok::<u32, CtcpError>(
            base94_value(data@) as u32,
        ) && base94_value(data@) <= 839_514,
{
    let n: usize = data.len();
    if n == 0 || n > HEADER_MSS {
        return Err(CtcpError::BadLengthDigits);
    }
    let mut value: u32 = 0;
    let mut i: usize = 0;
    while i < n
        invariant
            n == data@.len(),
            1 <= n <= 3,
            i <= n,
            all_printable(data@.take(i as int)),
            value == base94_value(data@.take(i as int)),
            i == 0 ==> value == 0,
            i == 1 ==> value <= 94,
            i == 2 ==> value <= 8930,
            i == 3 ==> value <= 839_514,
        decreases n - i,
    {
        let byte: u8 = data[i];
        if byte < PRINTABLE_START || byte > PRINTABLE_END {
            return Err(CtcpError::BadSymbol);
        }
        assert(data@.take(i + 1).drop_last() =~= data@.take(i as int));
        value = value * 94 + ((byte - PRINTABLE_START) as u32);
        i += 1;
    }
    assert(data@.take(n as int) =~= data@);
    Ok(value)
}

/// The length as it travels: shifted by the key, modulo `94^3 - 1`.
pub open spec fn wire_length(len: nat, key: u32) -> nat {
    (len + kf_mod(key)) % (HEADER_MSS_MOD as nat)
}

/// The flag byte made from the random pick `k`. Its low bit says whether the
/// byte behind it is a digit: it is cleared when that byte is filler, and set
/// when it is the first digit. A pick with the wrong low bit is raised by
/// one, and from `0x7f` brought back to `0x21`.
pub open spec fn flag_byte(k: u8, filler: bool) -> u8 {
    if filler {
        if k & 1 != 0 {
            k.wrapping_add(1)
        } else {
            k
        }
    } else if k & 1 == 0 {
        if k.wrapping_add(1) > 0x7e {
            0x21
        } else {
            k.wrapping_add(1)
        }
    } else {
        k
    }
}

/// The four bytes of a short prefix for a payload of `len` bytes: the flag
/// byte, the first digit (or the filler `f`, where that digit is zero), and
/// the other two digits, exchanged.
pub open spec fn prefix_head(len: nat, key: u32, k: u8, f: u8) -> Seq<u8> {
    let digits = padded_digits(wire_length(len, key));
    let filler = digits[0] == 0x20;
    seq![
        flag_byte(k, filler),
        if filler {
            f
        } else {
            digits[0]
        },
        digits[2],
        digits[1],
    ]
}

/// The number that the verification tail carries: the checksum of the short
/// prefix XORed with the length, shifted by the key.
pub open spec fn check_value(len: nat, key: u32, head: Seq<u8>) -> nat {
    ((((inet_checksum_of(head) as u32) ^ (len as u32)) as nat) + kf_mod(key)) % (
    HEADER_MSS_MOD as nat)
}

/// The three bytes of the verification tail: the digits of the check value,
/// shuffled under the key.
pub open spec fn prefix_tail(len: nat, key: u32, head: Seq<u8>) -> Seq<u8> {
    shuffle_seq(padded_digits(check_value(len, key, head)), key)
}

/// The prefix for a payload of `len` bytes, made with the random picks `k`
/// and `f`, or the reason why there is none:
/// `PayloadEmpty` for a length of zero, `PayloadTooLong` for one of
/// `94^3 - 1` or more, and, for a long prefix only, `BadLengthDigits` when
/// the check value has fewer than three digits.
pub open spec fn prefix_text(len: nat, key: u32, k: u8, f: u8, short_only: bool) -> Result<
    Seq<u8>,
    CtcpError,
> {
    let head = prefix_head(len, key, k, f);
    if len == 0 {
        Err(CtcpError::PayloadEmpty)
    } else if len >= HEADER_MSS_MOD {
        Err(CtcpError::PayloadTooLong)
    } else if short_only {
        Ok(head)
    } else if check_value(len, key, head) < 8836 {
        Err(CtcpError::BadLengthDigits)
    } else {
        Ok(head + prefix_tail(len, key, head))
    }
}

/// Whether the check value of every payload shorter than `2^18` bytes has
/// three digits under `key`, whatever the picks: the reduced key is at least
/// `94^2` and leaves room for 18 bits below the modulus. The default key is
/// such a key.
pub open spec fn check_fits(key: u32) -> bool {
    8836 <= kf_mod(key) <= HEADER_MSS_MOD - 0x4_0000
}

/// What the seven-byte scratch buffer holds after a prefix was asked for: it
/// is untouched when the length is refused; otherwise it starts with the
/// short prefix, followed by the verification tail when a long prefix was
/// made and by three spaces when not.
pub open spec fn prefix_scratch(
    len: nat,
    key: u32,
    k: u8,
    f: u8,
    short_only: bool,
    before: Seq<u8>,
) -> Seq<u8> {
    let head = prefix_head(len, key, k, f);
    if len == 0 || len >= HEADER_MSS_MOD {
        before
    } else if !short_only && check_value(len, key, head) >= 8836 {
        head + prefix_tail(len, key, head)
    } else {
        head + seq![0x20u8, 0x20u8, 0x20u8]
    }
}

/// What a call that writes a prefix with the picks `k` and `f` returns and
/// leaves behind: the length of the prefix and the direction switched to
/// short prefixes, or the failure and the direction as it was.
#[verifier::opaque]
pub open spec fn prefix_written(
    len: nat,
    key: u32,
    k: u8,
    f: u8,
    short_before: bool,
    scratch_before: Seq<u8>,
    result: Result<usize, CtcpError>,
    scratch_after: Seq<u8>,
    short_after: bool,
) -> bool {
    &&& scratch_after == prefix_scratch(len, key, k, f, short_before, scratch_before)
    &&& match prefix_text(len, key, k, f, short_before) {
        Ok(text) => {
            &&& result == Ok::<usize, CtcpError>(text.len() as usize)
            &&& scratch_after.take(text.len() as int) == text
            &&& short_after
        },
        Err(e) => result == Err::<usize, CtcpError>(e) && short_after == short_before,
    }
}

/// Whether `b` can come out of a random pick of a printable byte.
pub open spec fn is_pick(b: u8) -> bool {
    0x20 <= b < 0x7e
}

/// The length shifted by the key, as it is written in a prefix.
pub fn shifted_length(payload_len: usize, key: u32) -> (n: u32)
    requires
        0 < payload_len < HEADER_MSS_MOD,
    ensures
        n == wire_length(payload_len as nat, key),
        n < HEADER_MSS_MOD,
{
    let kf: u32 = key % HEADER_MSS_MOD;
    ((payload_len as u32) + kf) % HEADER_MSS_MOD
}

/// Writes the prefix for a payload of `payload_len` bytes into `buffer`,
/// with `k` as the pick for the flag byte and `f` as the pick for the filler.
/// A long prefix is written while `short_only` is unset, and sets it.
pub fn write_length_prefix(
    payload_len: usize,
    key: u32,
    k: u8,
    f: u8,
    buffer: &mut [u8; 7],
    short_only: &mut bool,
) -> (r: Result<usize, CtcpError>)
    ensures
        prefix_written(
            payload_len as nat,
            key,
            k,
            f,
            *old(short_only),
            old(buffer)@,
            r,
            final(buffer)@,
            *final(short_only),
        ),
{
    reveal(prefix_written);
    if payload_len == 0 {
        return Err(CtcpError::PayloadEmpty);
    }
    if payload_len >= HEADER_MSS_MOD as usize {
        return Err(CtcpError::PayloadTooLong);
    }
    let mut i: usize = 0;
    while i < PREFIX_MAX
        invariant
            i <= 7,
            forall|j: int| 0 <= j < i ==> buffer@[j] == 0x20,
        decreases 7 - i,
    {
        buffer[i] = PRINTABLE_START;
        i += 1;
    }
    let mut digits: [u8; 3] = [0u8;3];
    let kf: u32 = key % HEADER_MSS_MOD;
    let n: u32 = shifted_length(payload_len, key);
    let dl: usize = base94_decimal_encode(n, &mut digits);
    let start: usize = HEADER_XSS - dl;
    i = 0;
    while i < dl
        invariant
            1 <= dl <= 3,
            start == 4 - dl,
            i <= dl,
            forall|j: int| 0 <= j < start ==> buffer@[j] == 0x20,
            forall|j: int| start <= j < start + i ==> buffer@[j] == digits@[j - start],
            forall|j: int| 4 <= j < 7 ==> buffer@[j] == 0x20,
        decreases dl - i,
    {
        buffer[start + i] = digits[i];
        i += 1;
    }
    proof {
        lemma_digits_padded(n as nat);
        assert forall|j: int| 0 <= j < dl implies digits@[j] == base94_digits(n as nat)[j] by {
            assert(digits@.take(dl as int)[j] == digits@[j]);
        }
        assert(buffer@.subrange(1, 4) =~= padded_digits(n as nat));
    }
    let mut flag: u8 = k;
    let mut first: u8 = buffer[1];
    if first == PRINTABLE_START {
        if (flag & 0x01) != 0 {
            flag = flag.wrapping_add(1);
        }
        first = f;
    } else if (flag & 0x01) == 0 {
        flag = flag.wrapping_add(1);
        if flag > PRINTABLE_END {
            flag = 0x21;
        }
    }
    buffer[0] = flag;
    buffer[1] = first;
    let second: u8 = buffer[2];
    buffer[2] = buffer[3];
    buffer[3] = second;
    let ghost head = prefix_head(payload_len as nat, key, k, f);
    assert(buffer@.take(4) =~= head);
    assert(buffer@ =~= head + seq![0x20u8, 0x20u8, 0x20u8]);
    if *short_only {
        return Ok(HEADER_XSS);
    }
    let sum: u16 = inet_checksum(vstd::slice::slice_subrange(buffer.as_slice(), 0, 4));
    let checksum: u32 = sum as u32;
    assert((checksum ^ (payload_len as u32)) < 0x10_0000) by (bit_vector)
        requires
            checksum < 0x1_0000,
            (payload_len as u32) < 0x10_0000,
    ;
    let n2: u32 = ((checksum ^ (payload_len as u32)) + kf) % HEADER_MSS_MOD;
    let extra_len: usize = base94_decimal_encode(n2, &mut digits);
    if extra_len != HEADER_MSS {
        return Err(CtcpError::BadLengthDigits);
    }
    proof {
        lemma_padded_digits(n2 as nat);
        assert(digits@.take(3) =~= digits@);
    }
    shuffle_bytes(&mut digits, key);
    proof {
        lemma_shuffle_len(padded_digits(n2 as nat), key);
    }
    let ghost tail = prefix_tail(payload_len as nat, key, head);
    i = 0;
    while i < HEADER_MSS
        invariant
            i <= 3,
            digits@ == tail,
            tail.len() == 3,
            head.len() == 4,
            buffer@.take(4) == head,
            forall|j: int| 0 <= j < i ==> buffer@[4 + j] == tail[j],
        decreases 3 - i,
    {
        buffer[HEADER_XSS + i] = digits[i];
        i += 1;
    }
    assert(buffer@ =~= head + tail);
    assert(buffer@.take(7) =~= buffer@);
    *short_only = true;
    Ok(HEADER_XSS + HEADER_MSS)
}

/// Writes the prefix for a payload of `payload_len` bytes into `buffer` and
/// returns its length. The flag byte and, where the first digit is zero, the
/// filler are drawn from `rng`: the result is what `write_length_prefix`
/// gives for some pair of picks.
///
/// The first success of a direction is a long prefix of seven bytes and sets
/// `short_only`; every later one is a short prefix of four bytes. A short
/// prefix is made for every length from 1 to `94^3 - 2`; a long prefix can
/// fail on its check digits, but not for a payload below `2^18` bytes under
/// a key whose check values fit.
pub fn encode_length_prefix(
    payload_len: usize,
    key: u32,
    buffer: &mut [u8; 7],
    rng: &mut SmallRng,
    short_only: &mut bool,
) -> (r: Result<usize, CtcpError>)
    ensures
        exists|k: u8, f: u8|
            is_pick(k) && is_pick(f) && #[trigger] prefix_written(
                payload_len as nat,
                key,
                k,
                f,
                *old(short_only),
                old(buffer)@,
                r,
                final(buffer)@,
                *final(short_only),
            ),
        payload_len == 0 <==> r == Err::<usize, CtcpError>(CtcpError::PayloadEmpty),
        payload_len >= HEADER_MSS_MOD <==> r == Err::<usize, CtcpError>(CtcpError::PayloadTooLong),
        *old(short_only) ==> *final(short_only),
        *old(short_only) && 0 < payload_len < HEADER_MSS_MOD ==> r == Ok::<usize, CtcpError>(4),
        check_fits(key) && 0 < payload_len < 0x4_0000 ==> r is Ok,
        !*old(short_only) && r is Ok ==> r == Ok::<usize, CtcpError>(7) && *final(short_only),
        r is Err ==> *final(short_only) == *old(short_only),
{
    reveal(prefix_written);
    if payload_len == 0 || payload_len >= HEADER_MSS_MOD as usize {
        return write_length_prefix(payload_len, key, 0x20, 0x20, buffer, short_only);
    }
    let k: u8 = random_range(rng, PRINTABLE_START, PRINTABLE_END);
    let n: u32 = shifted_length(payload_len, key);
    let f: u8 = if n < 8836 {
        random_range(rng, PRINTABLE_START, PRINTABLE_END)
    } else {
        PRINTABLE_START
    };
    proof {
        lemma_padded_digits(n as nat);
    }
    let r = write_length_prefix(payload_len, key, k, f, buffer, short_only);
    proof {
        if check_fits(key) && payload_len < 0x4_0000 {
            lemma_prefix_succeeds(payload_len as nat, key, k, f, *old(short_only));
        }
        lemma_shuffle_len(
            padded_digits(
                check_value(payload_len as nat, key, prefix_head(payload_len as nat, key, k, f)),
            ),
            key,
        );
    }
    r
}

/// A received short prefix with its disguise taken off: the flag byte and,
/// where the flag's low bit is clear, the filler behind it become the zero
/// digit, and the last two digits change places again. Bytes behind the
/// fourth stay as they are.
pub open spec fn plain_head(head: Seq<u8>) -> Seq<u8> {
    head.update(
        1,
        if head[0] & 1 == 0 {
            0x20u8
        } else {
            head[1]
        },
    ).update(0, 0x20u8).update(2, head[3]).update(3, head[2])
}

/// The length that the four bytes of a short prefix announce: `BadSymbol`
/// when a digit is not printable, `PayloadEmpty` when the length is zero.
pub open spec fn head_length(head: Seq<u8>, key: u32) -> Result<nat, CtcpError> {
    let digits = plain_head(head).subrange(1, 4);
    let length = ((base94_value(digits) + HEADER_MSS_MOD - kf_mod(key)) % (
    HEADER_MSS_MOD as int)) as nat;
    if !all_printable(digits) {
        Err(CtcpError::BadSymbol)
    } else if length == 0 {
        Err(CtcpError::PayloadEmpty)
    } else {
        Ok(length)
    }
}

/// Whether the three bytes of a verification tail vouch for the short prefix
/// `head` and the length `length`: `BadSymbol` when a byte of the tail is not
/// printable, `BadChecksum` when its number is not the checksum of the short
/// prefix XORed with the length.
pub open spec fn tail_accepted(head: Seq<u8>, tail: Seq<u8>, length: nat, key: u32) -> Result<
    (),
    CtcpError,
> {
    let digits = unshuffle_seq(tail, key);
    let verify = (base94_value(digits) + HEADER_MSS_MOD - kf_mod(key)) % (HEADER_MSS_MOD as int);
    if !all_printable(digits) {
        Err(CtcpError::BadSymbol)
    } else if verify != ((inet_checksum_of(head) as u32) ^ (length as u32)) {
        Err(CtcpError::BadChecksum)
    } else {
        Ok(())
    }
}

/// The payload length that the prefix at the front of `data` announces, and
/// the size of that prefix: four bytes once the direction is `short_only`,
/// seven bytes, with a verification tail, before. `PrefixShort` when `data`
/// has fewer bytes than the prefix.
pub open spec fn parse_prefix(data: Seq<u8>, key: u32, short_only: bool) -> Result<
    (nat, nat),
    CtcpError,
> {
    if short_only {
        if data.len() < 4 {
            Err(CtcpError::PrefixShort)
        } else {
            match head_length(data.take(4), key) {
                Ok(length) => Ok((length, 4nat)),
                Err(e) => Err(e),
            }
        }
    } else if data.len() < 7 {
        Err(CtcpError::PrefixShort)
    } else {
        match head_length(data.take(4), key) {
            Ok(length) => match tail_accepted(data.take(4), data.subrange(4, 7), length, key) {
                Ok(_) => Ok((length, 7nat)),
                Err(e) => Err(e),
            },
            Err(e) => Err(e),
        }
    }
}

/// What the seven-byte scratch buffer holds after a prefix was parsed: it is
/// untouched when `data` is too short; otherwise the bytes of the prefix were
/// copied into it and the disguise taken off the first four.
pub open spec fn parse_scratch(data: Seq<u8>, short_only: bool, before: Seq<u8>) -> Seq<u8> {
    if short_only {
        if data.len() < 4 {
            before
        } else {
            plain_head(data.take(4)) + before.skip(4)
        }
    } else if data.len() < 7 {
        before
    } else {
        plain_head(data.take(7))
    }
}

/// Takes the disguise off a received short prefix, in place. A header of
/// fewer than four bytes is left as it is.
pub fn base94_decode_kf(header: &mut [u8])
    ensures
        old(header)@.len() >= 4 ==> final(header)@ == plain_head(old(header)@),
        old(header)@.len() < 4 ==> final(header)@ == old(header)@,
{
    if header.len() >= HEADER_XSS {
        if (header[0] & 0x01) == 0 {
            header[1] = PRINTABLE_START;
        }
        header[0] = PRINTABLE_START;
        let second: u8 = header[2];
        header[2] = header[3];
        header[3] = second;
    }
}

/// Parses the prefix at the front of `data`: the payload length it announces
/// and the number of bytes it takes. A long prefix is expected while
/// `short_only` is unset, and accepting one sets it.
pub fn decode_length_prefix(
    data: &[u8],
    key: u32,
    buffer: &mut [u8; 7],
    short_only: &mut bool,
) -> (r: Result<(usize, usize), CtcpError>)
    ensures
        match parse_prefix(data@, key, *old(short_only)) {
            Ok((length, used)) => r == Ok::<(usize, usize), CtcpError>(
                (length as usize, used as usize),
            ) && 0 < length < HEADER_MSS_MOD && used <= data@.len() && *final(short_only),
            Err(e) => r == Err::<(usize, usize), CtcpError>(e) && *final(short_only) == *old(
                short_only,
            ),
        },
        final(buffer)@ == parse_scratch(data@, *old(short_only), old(buffer)@),
{
    let kf: u32 = key % HEADER_MSS_MOD;
    if *short_only {
        if data.len() < HEADER_XSS {
            return Err(CtcpError::PrefixShort);
        }
        let mut i: usize = 0;
        while i < HEADER_XSS
            invariant
                i <= 4,
                data@.len() >= 4,
                forall|j: int| 0 <= j < i ==> buffer@[j] == data@[j],
                forall|j: int| 4 <= j < 7 ==> buffer@[j] == old(buffer)@[j],
            decreases 4 - i,
        {
            buffer[i] = data[i];
            i += 1;
        }
        let view: &mut [u8] = buffer;
        let (head, _) = view.split_at_mut(HEADER_XSS);
        base94_decode_kf(head);
        assert(buffer@.subrange(1, 4) =~= plain_head(data@.take(4)).subrange(1, 4));
        let raw: u32 = match base94_decimal_decode(
            vstd::slice::slice_subrange(buffer.as_slice(), 1, 4),
        ) {
            Ok(value) => value,
            Err(e) => {
                return Err(e);
            },
        };
        let length: u32 = (raw + HEADER_MSS_MOD - kf) % HEADER_MSS_MOD;
        if length == 0 {
            return Err(CtcpError::PayloadEmpty);
        }
        return Ok((length as usize, HEADER_XSS));
    }
    if data.len() < PREFIX_MAX {
        return Err(CtcpError::PrefixShort);
    }
    let mut i: usize = 0;
    while i < PREFIX_MAX
        invariant
            i <= 7,
            data@.len() >= 7,
            forall|j: int| 0 <= j < i ==> buffer@[j] == data@[j],
        decreases 7 - i,
    {
        buffer[i] = data[i];
        i += 1;
    }
    let sum: u16 = inet_checksum(vstd::slice::slice_subrange(buffer.as_slice(), 0, 4));
    assert(buffer@.subrange(0, 4) =~= data@.take(4));
    let checksum: u32 = sum as u32;
    let view: &mut [u8] = buffer;
    let (head, _) = view.split_at_mut(HEADER_XSS);
    base94_decode_kf(head);
    assert(buffer@.subrange(1, 4) =~= plain_head(data@.take(4)).subrange(1, 4));
    let raw_length: u32 = match base94_decimal_decode(
        vstd::slice::slice_subrange(buffer.as_slice(), 1, 4),
    ) {
        Ok(value) => value,
        Err(e) => {
            return Err(e);
        },
    };
    let length: u32 = (raw_length + HEADER_MSS_MOD - kf) % HEADER_MSS_MOD;
    if length == 0 {
        return Err(CtcpError::PayloadEmpty);
    }
    let mut extra: [u8; 3] = [0u8;3];
    assert(forall|j: int| 4 <= j < 7 ==> buffer@[j] == data@[j]);
    i = 0;
    while i < HEADER_MSS
        invariant
            i <= 3,
            data@.len() >= 7,
            forall|j: int| 4 <= j < 7 ==> buffer@[j] == data@[j],
            forall|j: int| 0 <= j < i ==> extra@[j] == data@[j + 4],
        decreases 3 - i,
    {
        extra[i] = buffer[HEADER_XSS + i];
        i += 1;
    }
    assert(extra@ =~= data@.subrange(4, 7));
    proof {
        lemma_shuffle_len(extra@, key);
    }
    unshuffle_bytes(&mut extra, key);
    let raw_verify: u32 = match base94_decimal_decode(extra.as_slice()) {
        Ok(value) => value,
        Err(e) => {
            return Err(e);
        },
    };
    let verify: u32 = (raw_verify + HEADER_MSS_MOD - kf) % HEADER_MSS_MOD;
    let expected: u32 = checksum ^ length;
    if verify != expected {
        return Err(CtcpError::BadChecksum);
    }
    *short_only = true;
    Ok((length as usize, PREFIX_MAX))
}

/// The low bit of a flag byte is clear exactly when filler follows it, and a
/// flag byte made from a printable pick is printable.
pub proof fn lemma_flag_byte(k: u8, filler: bool)
    ensures
        flag_byte(k, filler) & 1 == 0 <==> filler,
        is_printable(k) ==> is_printable(flag_byte(k, filler)),
{
    let next = k.wrapping_add(1);
    assert(k & 1 != 0 ==> next & 1 == 0) by {
        assert(k & 1 != 0 ==> ((k + 1) as u8) & 1 == 0) by (bit_vector);
        assert(0u8 & 1 == 0) by (bit_vector);
    }
    assert(k & 1 == 0 ==> next & 1 != 0 && k < 255) by {
        assert(k & 1 == 0 ==> k < 255 && ((k + 1) as u8) & 1 != 0) by (bit_vector);
    }
    assert(0x21u8 & 1 != 0) by (bit_vector);
    assert(k & 1 != 0 && k <= 0x7e ==> k <= 0x7d) by (bit_vector);
}

/// A length shifted by the key and shifted back is the length.
pub proof fn lemma_shift_back(len: nat, key: u32)
    requires
        len < HEADER_MSS_MOD,
    ensures
        wire_length(len, key) < HEADER_MSS_MOD,
        (wire_length(len, key) + HEADER_MSS_MOD - kf_mod(key)) % (HEADER_MSS_MOD as int) == len,
{
}

/// A short prefix made for `len` announces `len`, whatever follows it.
pub proof fn lemma_head_roundtrip(len: nat, key: u32, k: u8, f: u8)
    requires
        0 < len < HEADER_MSS_MOD,
    ensures
        prefix_head(len, key, k, f).len() == 4,
        head_length(prefix_head(len, key, k, f), key) == Ok::<nat, CtcpError>(len),
        is_printable(k) && is_printable(f) ==> all_printable(prefix_head(len, key, k, f)),
{
    let n = wire_length(len, key);
    let head = prefix_head(len, key, k, f);
    let digits = padded_digits(n);
    lemma_shift_back(len, key);
    lemma_padded_digits(n);
    lemma_flag_byte(k, digits[0] == 0x20);
    assert(plain_head(head).subrange(1, 4) =~= digits);
}

/// A prefix that was made for a length below `2^19` has four bytes in the
/// short form and seven in the long form, is printable when its picks are,
/// and, read back under the same key and in the same mode, announces that
/// length and its own size, whatever follows it.
pub proof fn lemma_prefix_roundtrip(
    len: nat,
    key: u32,
    k: u8,
    f: u8,
    short_only: bool,
    rest: Seq<u8>,
)
    requires
        len < 0x8_0000,
        prefix_text(len, key, k, f, short_only) is Ok,
    ensures
        prefix_text(len, key, k, f, short_only).unwrap().len() == (if short_only {
            4nat
        } else {
            7nat
        }),
        is_printable(k) && is_printable(f) ==> all_printable(
            prefix_text(len, key, k, f, short_only).unwrap(),
        ),
        parse_prefix(prefix_text(len, key, k, f, short_only).unwrap() + rest, key, short_only)
            == Ok::<(nat, nat), CtcpError>(
            (len, prefix_text(len, key, k, f, short_only).unwrap().len()),
        ),
{
    let text = prefix_text(len, key, k, f, short_only).unwrap();
    let head = prefix_head(len, key, k, f);
    lemma_head_roundtrip(len, key, k, f);
    assert((text + rest).take(4) =~= head);
    if !short_only {
        let digits = padded_digits(check_value(len, key, head));
        lemma_padded_digits(check_value(len, key, head));
        lemma_shuffle_keeps(digits, key, |b: u8| is_printable(b));
        lemma_unshuffle_shuffle(digits, key);
        assert((text + rest).subrange(4, 7) =~= prefix_tail(len, key, head));
        lemma_folded_sum_bound(head);
        let sum = inet_checksum_of(head) as u32;
        let announced = len as u32;
        assert((sum ^ announced) < 0x8_0000) by (bit_vector)
            requires
                sum <= 0xffff,
                announced < 0x8_0000,
        ;
        assert(is_printable(k) && is_printable(f) ==> all_printable(text)) by {
            assert(forall|i: int| 0 <= i < 4 ==> text[i] == head[i]);
            assert(forall|i: int| 4 <= i < 7 ==> text[i] == prefix_tail(len, key, head)[i - 4]);
        }
    }
}

/// Under a key whose check values fit, a prefix is made for every payload
/// of 1 to `2^18 - 1` bytes, in either mode and whatever the picks.
pub proof fn lemma_prefix_succeeds(len: nat, key: u32, k: u8, f: u8, short_only: bool)
    requires
        0 < len < 0x4_0000,
        check_fits(key),
    ensures
        prefix_text(len, key, k, f, short_only) is Ok,
{
    let head = prefix_head(len, key, k, f);
    lemma_folded_sum_bound(head);
    let sum = inet_checksum_of(head) as u32;
    let announced = len as u32;
    assert((sum ^ announced) < 0x4_0000) by (bit_vector)
        requires
            sum <= 0xffff,
            announced < 0x4_0000,
    ;
}

/// A prefix is made only for a length from 1 to `94^3 - 2`, and has four
/// bytes in the short form and seven in the long form.
pub proof fn lemma_prefix_len(len: nat, key: u32, k: u8, f: u8, short_only: bool)
    requires
        prefix_text(len, key, k, f, short_only) is Ok,
    ensures
        0 < len < HEADER_MSS_MOD,
        prefix_text(len, key, k, f, short_only).unwrap().len() == (if short_only {
            HEADER_XSS
        } else {
            PREFIX_MAX
        }),
{
    let head = prefix_head(len, key, k, f);
    lemma_padded_digits(check_value(len, key, head));
    lemma_shuffle_len(padded_digits(check_value(len, key, head)), key);
}

/// The first prefix that a direction makes is the long form. It switches the
/// direction to short prefixes, and every prefix made in that mode is three
/// bytes shorter than the first and as long as every other, whatever length
/// it carries.
pub proof fn lemma_short_after_first(
    len1: nat,
    len2: nat,
    len3: nat,
    key: u32,
    k1: u8,
    f1: u8,
    k2: u8,
    f2: u8,
    k3: u8,
    f3: u8,
)
    requires
        prefix_text(len1, key, k1, f1, false) is Ok,
        prefix_text(len2, key, k2, f2, true) is Ok,
        prefix_text(len3, key, k3, f3, true) is Ok,
    ensures
        prefix_text(len2, key, k2, f2, true).unwrap().len() < prefix_text(
            len1,
            key,
            k1,
            f1,
            false,
        ).unwrap().len(),
        prefix_text(len2, key, k2, f2, true).unwrap().len() == prefix_text(
            len3,
            key,
            k3,
            f3,
            true,
        ).unwrap().len(),
{
    lemma_prefix_len(len1, key, k1, f1, false);
    lemma_prefix_len(len2, key, k2, f2, true);
    lemma_prefix_len(len3, key, k3, f3, true);
}

} // verus!
