//! Random picks for nonces and filler bytes.

use rand::rngs::SmallRng;
use rand::RngCore;
use vstd::prelude::*;

verus! {

/// `rand::rngs::SmallRng`, a small fast generator. Opaque: nothing is known
/// of its state.
#[verifier::external_type_specification]
#[verifier::external_body]
pub struct ExSmallRng(SmallRng);

/// `RngCore::next_u32` of `SmallRng`: the next 32 bits of the generator.
/// Nothing is claimed of them: they differ from call to call.
#[verifier::external_body]
pub(crate) fn next_u32(rng: &mut SmallRng) -> u32 {
    rng.next_u32()
}

/// `value` scaled down into `0..modulus`: the high 32 bits of the 64-bit
/// product.
pub open spec fn scaled(value: u32, modulus: u32) -> int {
    (value as int * modulus as int) / 0x1_0000_0000
}

/// A scaled value stays below its modulus.
pub proof fn lemma_scaled_bound(value: u32, modulus: u32)
    requires
        modulus > 0,
    ensures
        0 <= scaled(value, modulus) < modulus,
{
    let v = value as int;
    let m = modulus as int;
    assert(v * m <= 0xffff_ffff * m) by (nonlinear_arith)
        requires
            0 <= v <= 0xffff_ffff,
            m > 0,
    ;
    assert(0 <= v * m) by (nonlinear_arith)
        requires
            0 <= v,
            m > 0,
    ;
}

/// Maps 32 uniform bits to `0..modulus` without a division: the high half of
/// `value * modulus`.
pub fn fast_mod_u32(value: u32, modulus: u32) -> (r: u32)
    ensures
        r == scaled(value, modulus),
        modulus > 0 ==> r < modulus,
{
    let wide: u64 = value as u64;
    let m: u64 = modulus as u64;
    assert(wide * m <= 0xffff_ffff * 0xffff_ffff) by (nonlinear_arith)
        requires
            wide <= 0xffff_ffff,
            m <= 0xffff_ffff,
    ;
    let product: u64 = wide * m;
    assert(product >> 32 == product / 0x1_0000_0000) by (bit_vector);
    proof {
        if modulus > 0 {
            lemma_scaled_bound(value, modulus);
        }
    }
    (product >> 32) as u32
}

/// A random byte in `min..max`: the byte that the next 32 bits of `rng` pick.
pub fn random_range(rng: &mut SmallRng, min: u8, max: u8) -> (r: u8)
    requires
        min < max,
    ensures
        min <= r < max,
{
    pick_in_range(next_u32(rng), min, max)
}

/// The byte that the draw `raw` picks in `min..max`: `min` raised by the draw
/// scaled down to the width of the range.
pub open spec fn picked(raw: u32, min: u8, max: u8) -> int {
    min + scaled(raw, (max - min) as u32)
}

/// The byte in `min..max` that the 32 drawn bits `raw` pick.
pub fn pick_in_range(raw: u32, min: u8, max: u8) -> (r: u8)
    requires
        min < max,
    ensures
        r == picked(raw, min, max),
        min <= r < max,
{
    let span: u32 = (max - min) as u32;
    let value: u32 = fast_mod_u32(raw, span);
    min.wrapping_add(value as u8)
}

} // verus!
