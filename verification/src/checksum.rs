//! The one's-complement checksum of internet headers.

use vstd::prelude::*;

verus! {

/// The longest input whose word sum fits the 32-bit accumulator: 65 537
/// words.
pub const CHECKSUM_MAX_LEN: usize = 131_074;

/// The `k`-th big-endian 16-bit word of `data`. A last byte without a partner
/// is the high byte of its word.
pub open spec fn be_word(data: Seq<u8>, k: int) -> nat {
    if 2 * k + 1 < data.len() {
        (data[2 * k] as nat) * 256 + data[2 * k + 1] as nat
    } else {
        (data[2 * k] as nat) * 256
    }
}

/// The sum of the first `count` words of `data`.
pub open spec fn word_sum(data: Seq<u8>, count: nat) -> nat
    decreases count,
{
    if count == 0 {
        0
    } else {
        word_sum(data, (count - 1) as nat) + be_word(data, count - 1)
    }
}

/// The number of 16-bit words that `len` bytes make.
pub open spec fn word_count(len: nat) -> nat {
    (len + 1) / 2
}

/// The carries above bit 15 added back into the low 16 bits, once.
pub open spec fn fold_carries(sum: nat) -> nat {
    sum / 0x1_0000 + sum % 0x1_0000
}

/// The word sum of `data` with its carries folded: once, and once more if a
/// carry is left.
pub open spec fn folded_sum(data: Seq<u8>) -> nat {
    let once = fold_carries(word_sum(data, word_count(data.len())));
    if once >= 0x1_0000 {
        fold_carries(once)
    } else {
        once
    }
}

/// The checksum proper: the bitwise complement of the folded sum.
pub open spec fn inet_checksum_of(data: Seq<u8>) -> nat {
    (0xffff - folded_sum(data)) as nat
}

/// A sum of `count` words is at most `count` times `0xffff`.
pub proof fn lemma_word_sum_bound(data: Seq<u8>, count: nat)
    ensures
        word_sum(data, count) <= count * 0xffff,
    decreases count,
{
    if count > 0 {
        lemma_word_sum_bound(data, (count - 1) as nat);
    }
}

/// A word sum that fits 32 bits folds into 16 bits.
pub proof fn lemma_folded_sum_bound(data: Seq<u8>)
    requires
        data.len() <= CHECKSUM_MAX_LEN,
    ensures
        folded_sum(data) <= 0xffff,
{
    lemma_word_sum_bound(data, word_count(data.len()));
}

/// The folded one's-complement sum of the big-endian 16-bit words of `data`.
pub fn ip_standard_checksum(data: &[u8]) -> (sum: u16)
    requires
        data@.len() <= CHECKSUM_MAX_LEN,
    ensures
        sum == folded_sum(data@),
{
    let n: usize = data.len();
    let mut acc: u32 = 0;
    let mut i: usize = 0;
    while i + 1 < n
        invariant
            n == data@.len(),
            n <= CHECKSUM_MAX_LEN,
            i % 2 == 0,
            i <= n,
            acc == word_sum(data@, (i / 2) as nat),
            acc <= (i / 2) * 0xffff,
        decreases n - i,
    {
        let word: u32 = (data[i] as u32) * 256 + (data[i + 1] as u32);
        acc += word;
        i += 2;
    }
    if i < n {
        acc += (data[i] as u32) * 256;
    }
    assert(acc >> 16 == acc / 0x1_0000) by (bit_vector);
    assert(acc & 0xffff == acc % 0x1_0000) by (bit_vector);
    acc = (acc >> 16) + (acc & 0xffff);
    assert((acc & 0xffff0000) != 0 <==> acc >= 0x1_0000) by (bit_vector);
    if (acc & 0xffff0000) != 0 {
        assert(acc >> 16 == acc / 0x1_0000) by (bit_vector);
        assert(acc & 0xffff == acc % 0x1_0000) by (bit_vector);
        acc = (acc >> 16) + (acc & 0xffff);
    }
    acc as u16
}

/// The internet checksum of `data`: the complement of the folded word sum.
pub fn inet_checksum(data: &[u8]) -> (sum: u16)
    requires
        data@.len() <= CHECKSUM_MAX_LEN,
    ensures
        sum == inet_checksum_of(data@),
{
    let folded: u16 = ip_standard_checksum(data);
    assert(!folded == 0xffff - folded) by (bit_vector);
    !folded
}

} // verus!
