//! The byte transforms of the codec: mask, shuffle and delta coding.

use vstd::prelude::*;

verus! {

/// The byte-wide part of a key: its low eight bits.
pub open spec fn key_byte(key: u32) -> u8 {
    (key & 0xff) as u8
}

/// Every byte XORed with `key`.
pub open spec fn mask_seq(data: Seq<u8>, key: u8) -> Seq<u8> {
    Seq::new(data.len(), |i: int| data[i] ^ key)
}

/// The partner of position `i` in a shuffle of `len` bytes under `key`.
pub open spec fn swap_index(i: int, key: u32, len: nat) -> int {
    (((i as u32) ^ key) % (len as u32)) as int
}

/// `data` with the bytes at `i` and `j` exchanged.
pub open spec fn swap_seq(data: Seq<u8>, i: int, j: int) -> Seq<u8> {
    data.update(i, data[j]).update(j, data[i])
}

/// `data` after the swaps of positions `0, 1, .., n - 1`, in that order.
pub open spec fn shuffle_upto(data: Seq<u8>, key: u32, n: nat) -> Seq<u8>
    decreases n,
{
    if n == 0 {
        data
    } else {
        let before = shuffle_upto(data, key, (n - 1) as nat);
        swap_seq(before, n - 1, swap_index(n - 1, key, data.len()))
    }
}

/// `data` after the swaps of positions `n - 1, .., 1, 0`, in that order.
pub open spec fn unshuffle_from(data: Seq<u8>, key: u32, n: nat) -> Seq<u8>
    decreases n,
{
    if n == 0 {
        data
    } else {
        unshuffle_from(
            swap_seq(data, n - 1, swap_index(n - 1, key, data.len())),
            key,
            (n - 1) as nat,
        )
    }
}

/// The keyed permutation: position `i` is swapped with
/// `(i XOR key) mod len`, for `i` ascending.
pub open spec fn shuffle_seq(data: Seq<u8>, key: u32) -> Seq<u8> {
    if data.len() <= 1 {
        data
    } else {
        shuffle_upto(data, key, data.len())
    }
}

/// The same swaps as `shuffle_seq`, for `i` descending.
pub open spec fn unshuffle_seq(data: Seq<u8>, key: u32) -> Seq<u8> {
    if data.len() <= 1 {
        data
    } else {
        unshuffle_from(data, key, data.len())
    }
}

/// The first byte lowered by `key`, every other byte lowered by the byte
/// that stood before it, all modulo 256.
pub open spec fn delta_encode_seq(data: Seq<u8>, key: u8) -> Seq<u8> {
    Seq::new(
        data.len(),
        |i: int|
            if i == 0 {
                data[0].wrapping_sub(key)
            } else {
                data[i].wrapping_sub(data[i - 1])
            },
    )
}

/// The running sum of `key` and the bytes `data[0..=i]`, modulo 256.
pub open spec fn delta_sum(data: Seq<u8>, key: u8, i: int) -> u8
    decreases i,
{
    if i <= 0 {
        data[0].wrapping_add(key)
    } else {
        delta_sum(data, key, i - 1).wrapping_add(data[i])
    }
}

/// Every byte replaced by the running sum up to it.
pub open spec fn delta_decode_seq(data: Seq<u8>, key: u8) -> Seq<u8> {
    Seq::new(data.len(), |i: int| delta_sum(data, key, i))
}

/// Masking twice with one key gives the input back.
pub proof fn lemma_mask_involution(data: Seq<u8>, key: u8)
    ensures
        mask_seq(mask_seq(data, key), key) == data,
{
    assert forall|i: int| 0 <= i < data.len() implies (data[i] ^ key) ^ key == data[i] by {
        let b = data[i];
        assert((b ^ key) ^ key == b) by (bit_vector);
    }
}

/// Masking with a zero key changes nothing.
pub proof fn lemma_mask_zero(data: Seq<u8>)
    ensures
        mask_seq(data, 0) == data,
{
    assert forall|i: int| 0 <= i < data.len() implies data[i] ^ 0u8 == data[i] by {
        let b = data[i];
        assert(b ^ 0u8 == b) by (bit_vector);
    }
}

/// A partner index lies inside the sequence.
pub proof fn lemma_swap_index_in_range(i: int, key: u32, len: nat)
    requires
        0 < len <= u32::MAX,
    ensures
        0 <= swap_index(i, key, len) < len,
{
}

/// A swap keeps the length, and swapping the same pair again undoes it.
pub proof fn lemma_swap_twice(data: Seq<u8>, i: int, j: int)
    requires
        0 <= i < data.len(),
        0 <= j < data.len(),
    ensures
        swap_seq(data, i, j).len() == data.len(),
        swap_seq(swap_seq(data, i, j), i, j) == data,
{
}

/// The swaps of a shuffle keep the length.
pub proof fn lemma_shuffle_upto_len(data: Seq<u8>, key: u32, n: nat)
    requires
        0 < data.len() <= u32::MAX,
        n <= data.len(),
    ensures
        shuffle_upto(data, key, n).len() == data.len(),
    decreases n,
{
    if n > 0 {
        lemma_shuffle_upto_len(data, key, (n - 1) as nat);
        lemma_swap_index_in_range(n - 1, key, data.len());
    }
}

/// The swaps of an unshuffle keep the length.
pub proof fn lemma_unshuffle_from_len(data: Seq<u8>, key: u32, n: nat)
    requires
        0 < data.len() <= u32::MAX,
        n <= data.len(),
    ensures
        unshuffle_from(data, key, n).len() == data.len(),
    decreases n,
{
    if n > 0 {
        lemma_swap_index_in_range(n - 1, key, data.len());
        lemma_unshuffle_from_len(
            swap_seq(data, n - 1, swap_index(n - 1, key, data.len())),
            key,
            (n - 1) as nat,
        );
    }
}

/// Undoing the first `n` swaps in reverse order restores the input.
pub proof fn lemma_unshuffle_upto(data: Seq<u8>, key: u32, n: nat)
    requires
        0 < data.len() <= u32::MAX,
        n <= data.len(),
    ensures
        unshuffle_from(shuffle_upto(data, key, n), key, n) == data,
    decreases n,
{
    if n > 0 {
        let before = shuffle_upto(data, key, (n - 1) as nat);
        let j = swap_index(n - 1, key, data.len());
        lemma_shuffle_upto_len(data, key, (n - 1) as nat);
        lemma_swap_index_in_range(n - 1, key, data.len());
        lemma_swap_twice(before, n - 1, j);
        lemma_unshuffle_upto(data, key, (n - 1) as nat);
    }
}

/// A property of every byte survives the swaps of a shuffle.
pub proof fn lemma_shuffle_upto_keeps(data: Seq<u8>, key: u32, n: nat, p: spec_fn(u8) -> bool)
    requires
        0 < data.len() <= u32::MAX,
        n <= data.len(),
        forall|i: int| 0 <= i < data.len() ==> p(#[trigger] data[i]),
    ensures
        shuffle_upto(data, key, n).len() == data.len(),
        forall|i: int| 0 <= i < data.len() ==> p(#[trigger] shuffle_upto(data, key, n)[i]),
    decreases n,
{
    if n > 0 {
        lemma_shuffle_upto_keeps(data, key, (n - 1) as nat, p);
        lemma_swap_index_in_range(n - 1, key, data.len());
    }
}

/// What holds of every byte holds of every byte of the shuffled sequence.
pub proof fn lemma_shuffle_keeps(data: Seq<u8>, key: u32, p: spec_fn(u8) -> bool)
    requires
        data.len() <= u32::MAX,
        forall|i: int| 0 <= i < data.len() ==> p(#[trigger] data[i]),
    ensures
        shuffle_seq(data, key).len() == data.len(),
        forall|i: int| 0 <= i < data.len() ==> p(#[trigger] shuffle_seq(data, key)[i]),
{
    if data.len() > 1 {
        lemma_shuffle_upto_keeps(data, key, data.len(), p);
    }
}

/// Shuffle and unshuffle keep the length.
pub proof fn lemma_shuffle_len(data: Seq<u8>, key: u32)
    requires
        data.len() <= u32::MAX,
    ensures
        shuffle_seq(data, key).len() == data.len(),
        unshuffle_seq(data, key).len() == data.len(),
{
    if data.len() > 1 {
        lemma_shuffle_upto_len(data, key, data.len());
        lemma_unshuffle_from_len(data, key, data.len());
    }
}

/// Unshuffling a shuffled sequence under the same key restores it.
pub proof fn lemma_unshuffle_shuffle(data: Seq<u8>, key: u32)
    requires
        data.len() <= u32::MAX,
    ensures
        unshuffle_seq(shuffle_seq(data, key), key) == data,
{
    if data.len() > 1 {
        lemma_shuffle_upto_len(data, key, data.len());
        lemma_unshuffle_upto(data, key, data.len());
    }
}

/// Redoing in ascending order the `n` swaps that an unshuffle made restores
/// the input.
pub proof fn lemma_shuffle_unshuffled_upto(data: Seq<u8>, key: u32, n: nat)
    requires
        0 < data.len() <= u32::MAX,
        n <= data.len(),
    ensures
        shuffle_upto(unshuffle_from(data, key, n), key, n) == data,
    decreases n,
{
    if n > 0 {
        let j = swap_index(n - 1, key, data.len());
        let swapped = swap_seq(data, n - 1, j);
        lemma_swap_index_in_range(n - 1, key, data.len());
        lemma_swap_twice(data, n - 1, j);
        lemma_unshuffle_from_len(swapped, key, (n - 1) as nat);
        lemma_shuffle_unshuffled_upto(swapped, key, (n - 1) as nat);
    }
}

/// Shuffling an unshuffled sequence under the same key restores it.
pub proof fn lemma_shuffle_unshuffled(data: Seq<u8>, key: u32)
    requires
        data.len() <= u32::MAX,
    ensures
        shuffle_seq(unshuffle_seq(data, key), key) == data,
{
    if data.len() > 1 {
        lemma_unshuffle_from_len(data, key, data.len());
        lemma_shuffle_unshuffled_upto(data, key, data.len());
    }
}

/// The running sum over a delta-coded sequence is the byte that was coded.
pub proof fn lemma_delta_sum_of_encoded(data: Seq<u8>, key: u8, i: int)
    requires
        0 <= i < data.len(),
    ensures
        delta_sum(delta_encode_seq(data, key), key, i) == data[i],
    decreases i,
{
    if i > 0 {
        lemma_delta_sum_of_encoded(data, key, i - 1);
    }
}

/// Delta decoding undoes delta encoding under the same key.
pub proof fn lemma_delta_roundtrip(data: Seq<u8>, key: u8)
    ensures
        delta_decode_seq(delta_encode_seq(data, key), key) == data,
{
    assert forall|i: int| 0 <= i < data.len() implies delta_sum(
        delta_encode_seq(data, key),
        key,
        i,
    ) == data[i] by {
        lemma_delta_sum_of_encoded(data, key, i);
    }
}

/// Delta encoding undoes delta decoding under the same key.
pub proof fn lemma_delta_encode_decoded(data: Seq<u8>, key: u8)
    ensures
        delta_encode_seq(delta_decode_seq(data, key), key) == data,
{
    assert(delta_encode_seq(delta_decode_seq(data, key), key) =~= data);
}

/// The low eight bits of a key.
pub fn mask_key(key: u32) -> (b: u8)
    ensures
        b == key_byte(key),
{
    assert(key & 0xff < 0x100) by (bit_vector);
    (key & 0xff) as u8
}

/// XORs every byte with `key`.
pub fn mask_bytes(data: &mut [u8], key: u8)
    ensures
        final(data)@ == mask_seq(old(data)@, key),
{
    if key == 0 {
        proof {
            lemma_mask_zero(data@);
        }
        return ;
    }
    let n: usize = data.len();
    let mut i: usize = 0;
    while i < n
        invariant
            i <= n,
            data@.len() == n,
            old(data)@.len() == n,
            forall|j: int| 0 <= j < i ==> data@[j] == old(data)@[j] ^ key,
            forall|j: int| i <= j < n ==> data@[j] == old(data)@[j],
        decreases n - i,
    {
        data[i] = data[i] ^ key;
        i += 1;
    }
}

/// Permutes the bytes: for `i` ascending, swaps position `i` with
/// `(i XOR key) mod len`.
pub fn shuffle_bytes(data: &mut [u8], key: u32)
    requires
        old(data)@.len() <= u32::MAX,
    ensures
        final(data)@ == shuffle_seq(old(data)@, key),
{
    let len: usize = data.len();
    if len <= 1 {
        return ;
    }
    let len_u32: u32 = len as u32;
    let mut i: usize = 0;
    while i < len
        invariant
            1 < len <= u32::MAX,
            len_u32 == len,
            i <= len,
            old(data)@.len() == len,
            data@ == shuffle_upto(old(data)@, key, i as nat),
            data@.len() == len,
        decreases len - i,
    {
        let j: usize = (((i as u32) ^ key) % len_u32) as usize;
        let a: u8 = data[i];
        let b: u8 = data[j];
        data[i] = b;
        data[j] = a;
        i += 1;
    }
}

/// Inverts `shuffle_bytes`: the same swaps, for `i` descending.
pub fn unshuffle_bytes(data: &mut [u8], key: u32)
    requires
        old(data)@.len() <= u32::MAX,
    ensures
        final(data)@ == unshuffle_seq(old(data)@, key),
{
    let len: usize = data.len();
    if len <= 1 {
        return ;
    }
    let len_u32: u32 = len as u32;
    let mut i: usize = len;
    while i > 0
        invariant
            1 < len <= u32::MAX,
            len_u32 == len,
            i <= len,
            old(data)@.len() == len,
            data@.len() == len,
            unshuffle_from(data@, key, i as nat) == unshuffle_from(old(data)@, key, len as nat),
        decreases i,
    {
        i -= 1;
        let j: usize = (((i as u32) ^ key) % len_u32) as usize;
        let a: u8 = data[i];
        let b: u8 = data[j];
        data[i] = b;
        data[j] = a;
    }
}

/// Delta-codes in place: byte 0 is lowered by `key`, byte `i` by what
/// byte `i - 1` held before the call.
pub fn delta_encode_in_place(data: &mut [u8], key: u8)
    ensures
        final(data)@ == delta_encode_seq(old(data)@, key),
{
    let n: usize = data.len();
    if n == 0 {
        return ;
    }
    let mut prev: u8 = data[0];
    data[0] = prev.wrapping_sub(key);
    let mut i: usize = 1;
    while i < n
        invariant
            1 <= i <= n,
            data@.len() == n,
            old(data)@.len() == n,
            prev == old(data)@[i - 1],
            forall|j: int| 0 <= j < i ==> data@[j] == delta_encode_seq(old(data)@, key)[j],
            forall|j: int| i <= j < n ==> data@[j] == old(data)@[j],
        decreases n - i,
    {
        let current: u8 = data[i];
        data[i] = current.wrapping_sub(prev);
        prev = current;
        i += 1;
    }
}

/// Undoes `delta_encode_in_place`: every byte becomes the running sum of
/// `key` and the bytes up to it.
pub fn delta_decode_in_place(data: &mut [u8], key: u8)
    ensures
        final(data)@ == delta_decode_seq(old(data)@, key),
{
    let n: usize = data.len();
    if n == 0 {
        return ;
    }
    let mut current: u8 = data[0].wrapping_add(key);
    data[0] = current;
    let mut i: usize = 1;
    while i < n
        invariant
            1 <= i <= n,
            data@.len() == n,
            old(data)@.len() == n,
            current == delta_sum(old(data)@, key, i - 1),
            forall|j: int| 0 <= j < i ==> data@[j] == delta_sum(old(data)@, key, j),
            forall|j: int| i <= j < n ==> data@[j] == old(data)@[j],
        decreases n - i,
    {
        current = current.wrapping_add(data[i]);
        data[i] = current;
        i += 1;
    }
}

} // verus!
