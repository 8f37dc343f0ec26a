//! Arithmetic of the midpoint lattice: which coordinates a pass with a given
//! step writes, and where their neighbours lie.

use vstd::prelude::*;
use vstd::arithmetic::div_mod::{lemma_fundamental_div_mod, lemma_fundamental_div_mod_converse};
use vstd::arithmetic::power2::{pow2, lemma_pow2_adds, lemma_pow2_pos};
use crate::powers::lemma_pow2_step;

verus! {

/// A pass with step `step` fits a square of side `side`: the step is even and
/// divides `side - 1`, so that every midpoint has its neighbours inside.
pub open spec fn lattice_fits(side: int, step: int) -> bool {
    &&& step >= 2
    &&& step % 2 == 0
    &&& side >= 1
    &&& (side - 1) % step == 0
}

/// `(x, y)` is the centre of a square of the lattice with step `step`.
pub open spec fn is_diamond_target(step: int, x: int, y: int) -> bool {
    x % step == step / 2 && y % step == step / 2
}

/// `(x, y)` is the middle of an edge of a square of the lattice with step `step`.
pub open spec fn is_square_target(step: int, x: int, y: int) -> bool {
    (x % step == 0 && y % step == step / 2) || (x % step == step / 2 && y % step == 0)
}

/// `(x, y)` is a corner of a square of the lattice with step `step`.
pub open spec fn is_corner(step: int, x: int, y: int) -> bool {
    x % step == 0 && y % step == 0
}

/// `x` written as quotient and remainder.
pub proof fn lemma_split(x: int, d: int)
    requires
        d > 0,
    ensures
        x == (x / d) * d + x % d,
        0 <= x % d < d,
{
    lemma_fundamental_div_mod(x, d);
    assert(d * (x / d) == (x / d) * d) by (nonlinear_arith);
}

/// Moving by half a step swaps the two residues `0` and `step / 2`; moving by a
/// whole step keeps the residue.
pub proof fn lemma_half_step_shift(x: int, step: int)
    requires
        step >= 2,
        step % 2 == 0,
    ensures
        (x + step) % step == x % step,
        (x - step) % step == x % step,
        x % step == step / 2 ==> (x - step / 2) % step == 0 && (x + step / 2) % step == 0,
        x % step == 0 ==> (x - step / 2) % step == step / 2 && (x + step / 2) % step == step
            / 2,
{
    let q = x / step;
    let r = x % step;
    let half = step / 2;
    lemma_split(x, step);
    assert((q + 1) * step == q * step + step) by (nonlinear_arith);
    assert((q - 1) * step == q * step - step) by (nonlinear_arith);
    lemma_fundamental_div_mod_converse(x + step, step, q + 1, r);
    lemma_fundamental_div_mod_converse(x - step, step, q - 1, r);
    if r == half {
        lemma_fundamental_div_mod_converse(x - half, step, q, 0);
        lemma_fundamental_div_mod_converse(x + half, step, q + 1, 0);
    }
    if r == 0 {
        lemma_fundamental_div_mod_converse(x - half, step, q - 1, half);
        lemma_fundamental_div_mod_converse(x + half, step, q, half);
    }
}

/// Inside the square, a coordinate with residue `step / 2` has room for half a
/// step on both sides, and one with residue `0` is the last one or has room
/// for a whole step.
pub proof fn lemma_lattice_room(side: int, step: int, x: int)
    requires
        lattice_fits(side, step),
        0 <= x < side,
    ensures
        x % step == step / 2 ==> step / 2 <= x && x + step / 2 <= side - 1,
        x % step == 0 ==> x == side - 1 || x + step <= side - 1,
        step <= side - 1 || side == 1,
{
    let half = step / 2;
    let q = x / step;
    let m = (side - 1) / step;
    lemma_split(x, step);
    lemma_split(side - 1, step);
    assert(q >= 0) by (nonlinear_arith)
        requires
            q * step + x % step >= 0,
            x % step < step,
            step > 0,
    ;
    if x % step == half {
        assert(q < m) by (nonlinear_arith)
            requires
                q * step + half <= m * step,
                half > 0,
                step > 0,
        ;
        assert((q + 1) * step <= m * step) by (nonlinear_arith)
            requires
                q + 1 <= m,
                step > 0,
        ;
        assert((q + 1) * step == q * step + step) by (nonlinear_arith);
        assert(q * step >= 0) by (nonlinear_arith)
            requires
                q >= 0,
                step > 0,
        ;
    }
    if x % step == 0 && x != side - 1 {
        assert(q < m) by (nonlinear_arith)
            requires
                q * step < m * step,
                step > 0,
        ;
        assert((q + 1) * step <= m * step) by (nonlinear_arith)
            requires
                q + 1 <= m,
                step > 0,
        ;
        assert((q + 1) * step == q * step + step) by (nonlinear_arith);
    }
    if side != 1 {
        assert(m >= 1) by (nonlinear_arith)
            requires
                m * step == side - 1,
                side - 1 > 0,
                step > 0,
        ;
        assert(m * step >= step) by (nonlinear_arith)
            requires
                m >= 1,
                step > 0,
        ;
    }
}

/// A coordinate on a corner or a midpoint of the lattice is a multiple of half
/// the step.
pub proof fn lemma_residue_half(x: int, step: int)
    requires
        step >= 2,
        step % 2 == 0,
        x % step == 0 || x % step == step / 2,
    ensures
        x % (step / 2) == 0,
{
    let half = step / 2;
    let q = x / step;
    lemma_split(x, step);
    assert(q * step == (2 * q) * half) by (nonlinear_arith)
        requires
            step == 2 * half,
    ;
    if x % step == 0 {
        lemma_fundamental_div_mod_converse(x, half, 2 * q, 0);
    } else {
        assert((2 * q + 1) * half == (2 * q) * half + half) by (nonlinear_arith);
        lemma_fundamental_div_mod_converse(x, half, 2 * q + 1, 0);
    }
}

/// Two coordinates with the same residue that lie less than a step apart are equal.
pub proof fn lemma_same_residue_gap(a: int, b: int, d: int)
    requires
        d > 0,
        a % d == b % d,
        a <= b < a + d,
    ensures
        a == b,
{
    lemma_split(a, d);
    lemma_split(b, d);
    let qa = a / d;
    let qb = b / d;
    assert(qa == qb) by (nonlinear_arith)
        requires
            qa * d <= qb * d < qa * d + d,
            d > 0,
    ;
}

/// A multiple of `d * k` is a multiple of `d`.
pub proof fn lemma_multiple_of_multiple(x: int, d: int, k: int)
    requires
        d > 0,
        k > 0,
        x % (d * k) == 0,
    ensures
        x % d == 0,
{
    assert(d * k > 0) by (nonlinear_arith)
        requires
            d > 0,
            k > 0,
    ;
    lemma_split(x, d * k);
    let q = x / (d * k);
    assert(q * (d * k) == (q * k) * d) by (nonlinear_arith);
    lemma_fundamental_div_mod_converse(x, d, q * k, 0);
}

/// A corner of the lattice with step `2^coarse` is a corner of every finer
/// lattice with step `2^fine`.
pub proof fn lemma_corner_refines(coarse: nat, fine: nat, x: int, y: int)
    requires
        fine <= coarse,
        is_corner(pow2(coarse) as int, x, y),
    ensures
        is_corner(pow2(fine) as int, x, y),
{
    lemma_pow2_adds(fine, (coarse - fine) as nat);
    lemma_pow2_pos(fine);
    lemma_pow2_pos((coarse - fine) as nat);
    lemma_multiple_of_multiple(x, pow2(fine) as int, pow2((coarse - fine) as nat) as int);
    lemma_multiple_of_multiple(y, pow2(fine) as int, pow2((coarse - fine) as nat) as int);
}

/// The lattice with step `2^e` fits the square of side `2^n + 1` for `1 <= e <= n`.
pub proof fn lemma_pow2_lattice_fits(n: nat, e: nat)
    requires
        1 <= e <= n,
    ensures
        lattice_fits(pow2(n) as int + 1, pow2(e) as int),
{
    lemma_pow2_step(e);
    lemma_pow2_adds(e, (n - e) as nat);
    let k = pow2((n - e) as nat) as int;
    assert(pow2(e) * k == k * pow2(e)) by (nonlinear_arith);
    lemma_fundamental_div_mod_converse(pow2(n) as int, pow2(e) as int, k, 0);
}

/// What a round with step `step` writes lies on the lattice with half that
/// step, off the lattice with the step itself; and conversely.
pub proof fn lemma_targets_between(step: int, x: int, y: int)
    requires
        step >= 2,
        step % 2 == 0,
    ensures
        (is_diamond_target(step, x, y) || is_square_target(step, x, y)) <==> (is_corner(
            step / 2,
            x,
            y,
        ) && !is_corner(step, x, y)),
        !(is_diamond_target(step, x, y) && is_square_target(step, x, y)),
{
    let half = step / 2;
    if is_diamond_target(step, x, y) || is_square_target(step, x, y) {
        lemma_residue_half(x, step);
        lemma_residue_half(y, step);
    }
    if is_corner(half, x, y) {
        lemma_half_residue(x, step);
        lemma_half_residue(y, step);
    }
}

/// A multiple of half the step has residue `0` or `step / 2`.
pub proof fn lemma_half_residue(x: int, step: int)
    requires
        step >= 2,
        step % 2 == 0,
        x % (step / 2) == 0,
    ensures
        x % step == 0 || x % step == step / 2,
{
    let half = step / 2;
    let k = x / half;
    lemma_split(x, half);
    let q = k / 2;
    assert((q * 2) * half == q * step) by (nonlinear_arith)
        requires
            step == 2 * half,
    ;
    if k % 2 == 0 {
        lemma_fundamental_div_mod_converse(x, step, q, 0);
    } else {
        assert((q * 2 + 1) * half == q * step + half) by (nonlinear_arith)
            requires
                step == 2 * half,
        ;
        lemma_fundamental_div_mod_converse(x, step, q, half);
    }
}

/// A square grid of side at least two whose cells can be counted by a machine
/// integer has a side that can be doubled.
pub proof fn lemma_side_doubles(side: int)
    requires
        side >= 2,
        side * side <= usize::MAX,
    ensures
        2 * side <= usize::MAX,
{
    assert(2 * side <= side * side) by (nonlinear_arith)
        requires
            side >= 2,
    ;
}

} // verus!
