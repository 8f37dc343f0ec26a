//! Draws from the seeded generator, and the integer arithmetic that turns a raw
//! draw into a bounded integer or a centred noise sample.
//!
//! The generator is threaded through every consumer by exclusive reference. Its
//! stream is the business of `rand_pcg`: nothing here says which value a draw
//! returns, only what is computed from it.

use vstd::prelude::*;
use rand_pcg::Mcg128Xsl64;

verus! {

/// The number of values of a raw 32-bit draw.
pub const TWO_POW_32: u64 = 4294967296;

/// Half the number of values of the upper half of a raw 32-bit draw.
pub const TWO_POW_15: u32 = 32768;

/// The number of values of the upper half of a raw 32-bit draw.
pub const TWO_POW_16: u32 = 65536;

/// `rand_pcg::Mcg128Xsl64`, the seeded generator. Its state is hidden here:
/// a generator is carried through and drawn from, and nothing is claimed of
/// it.
#[verifier::external_type_specification]
#[verifier::external_body]
pub struct ExMcg128Xsl64(Mcg128Xsl64);

/// `RngCore::next_u32` of `rand_pcg::Mcg128Xsl64`: advances the generator and
/// returns the low half of its next 64-bit output. Nothing is claimed of the
/// value.
#[verifier::external_body]
fn draw_u32(rng: &mut Mcg128Xsl64) -> (raw: u32) {
    rand_core::RngCore::next_u32(rng)
}

/// `RngCore::next_u64` of `rand_pcg::Mcg128Xsl64`: advances the generator and
/// returns its next 64-bit output. Nothing is claimed of the value.
#[verifier::external_body]
fn draw_u64(rng: &mut Mcg128Xsl64) -> (raw: u64) {
    rand_core::RngCore::next_u64(rng)
}

/// A raw 32-bit draw mapped onto `0..max` by one multiplication and one
/// division. No draw is rejected, so the mapping is exactly uniform only where
/// `max` is a power of two.
pub open spec fn scaled(raw: u32, max: u64) -> int {
    (raw as int * max as int) / (TWO_POW_32 as int)
}

/// A raw 64-bit draw reduced modulo `max`.
pub open spec fn reduced(raw: u64, max: u16) -> int {
    raw as int % max as int
}

/// The upper half of a raw 32-bit draw, moved from `0..65536` to `-32768..32768`.
pub open spec fn centered(raw: u32) -> int {
    raw as int / (TWO_POW_16 as int) - TWO_POW_15 as int
}

/// Whether `sample` can be the centred upper half of a draw.
pub open spec fn is_sample(sample: i32) -> bool {
    -(TWO_POW_15 as int) <= sample < TWO_POW_15 as int
}

/// A scaled draw is not negative, and lies below `max` where `max` is not
/// zero.
pub proof fn lemma_scaled_bound(raw: u32, max: u64)
    ensures
        0 <= scaled(raw, max) <= max,
        max >= 1 ==> scaled(raw, max) < max,
{
    let r = raw as int;
    let m = max as int;
    assert(0 <= (r * m) / 4294967296 <= m && (m >= 1 ==> (r * m) / 4294967296 < m))
        by (nonlinear_arith)
        requires
            0 <= r < 4294967296,
            0 <= m,
    ;
}

/// A larger draw is scaled to no smaller a number.
pub proof fn lemma_scaled_monotone(low: u32, high: u32, max: u64)
    requires
        low <= high,
    ensures
        scaled(low, max) <= scaled(high, max),
{
    let a = low as int * max as int;
    let b = high as int * max as int;
    assert(a <= b) by (nonlinear_arith)
        requires
            a == low as int * max as int,
            b == high as int * max as int,
            0 <= low as int <= high as int,
            0 <= max as int,
    ;
    vstd::arithmetic::div_mod::lemma_div_is_ordered(a, b, 4294967296);
}

/// `scaled(raw, max)` as a machine integer.
pub fn scale_draw(raw: u32, max: u64) -> (r: u32)
    requires
        max <= TWO_POW_32,
    ensures
        r == scaled(raw, max),
        max >= 1 ==> r < max,
        max == 0 ==> r == 0,
{
    proof {
        lemma_scaled_bound(raw, max);
        assert(raw as int * max as int <= u64::MAX) by (nonlinear_arith)
            requires
                0 <= raw as int <= 4294967295,
                0 <= max as int <= 4294967296,
        ;
    }
    (raw as u64 * max / TWO_POW_32) as u32
}

/// `reduced(raw, max)` as a machine integer.
pub fn reduce_draw(raw: u64, max: u16) -> (r: u16)
    requires
        max > 0,
    ensures
        r == reduced(raw, max),
        r < max,
{
    (raw % (max as u64)) as u16
}

/// `centered(raw)` as a machine integer.
pub fn center_draw(raw: u32) -> (r: i32)
    ensures
        r == centered(raw),
        is_sample(r),
{
    let upper: u32 = raw >> 16;
    assert(upper == raw / 65536 && upper < 65536) by (bit_vector)
        requires
            upper == raw >> 16,
    ;
    upper as i32 - 32768
}

/// One draw scaled onto `0..max`.
pub fn next_random_number(max: u64, rng: &mut Mcg128Xsl64) -> (r: u32)
    requires
        max <= TWO_POW_32,
    ensures
        max >= 1 ==> r < max,
        max == 0 ==> r == 0,
        exists|raw: u32| r == scaled(raw, max),
{
    let raw: u32 = draw_u32(rng);
    scale_draw(raw, max)
}

/// One draw reduced into `0..max`.
pub fn generate_in_interval(max: u16, rng: &mut Mcg128Xsl64) -> (r: u16)
    requires
        max > 0,
    ensures
        r < max,
        exists|raw: u64| r == reduced(raw, max),
{
    let raw: u64 = draw_u64(rng);
    reduce_draw(raw, max)
}

/// One draw turned into a noise sample in `-32768..32768`.
pub fn noise_sample(rng: &mut Mcg128Xsl64) -> (r: i32)
    ensures
        is_sample(r),
        exists|raw: u32| r == centered(raw),
{
    let raw: u32 = draw_u32(rng);
    center_draw(raw)
}

} // verus!
