//! What midpoint displacement computes, as relations between the grid before
//! and the grid after: for one pass, for one round, and for a run of rounds.
//!
//! A round with step `s` writes the centre of every lattice square of side `s`
//! and the middle of every edge, each as a blend of its neighbours at distance
//! `s / 2`. Which noise sample a cell was given is recorded by a map from
//! positions to samples; the relations hold for some such map.

use vstd::prelude::*;
use vstd::arithmetic::power2::pow2;
use crate::grid::{GridView, lemma_grids_equal};
use crate::lattice::{
    lattice_fits,
    is_corner,
    is_diamond_target,
    is_square_target,
    lemma_corner_refines,
    lemma_half_step_shift,
    lemma_residue_half,
    lemma_targets_between,
};
use crate::powers::lemma_pow2_step;
use crate::random::is_sample;

verus! {

/// What the blend function is given for one cell: up to four neighbour values
/// in the order in which they are to be summed, whether the cell is the centre
/// of a lattice square or the middle of an edge, the distance to the
/// neighbours, one noise sample, and whether displacement has been switched
/// off.
///
/// For a centre the neighbours are the corners at `(-h, -h)`, `(-h, +h)`,
/// `(+h, +h)`, `(+h, -h)`; for an edge they are the cells at `(-h, 0)`,
/// `(+h, 0)`, `(0, -h)`, `(0, +h)`, with `None` for one that lies outside the
/// grid.
pub struct Midpoint<T> {
    pub first: Option<T>,
    pub second: Option<T>,
    pub third: Option<T>,
    pub fourth: Option<T>,
    pub centre: bool,
    pub half_step: usize,
    pub sample: i32,
    pub damped: bool,
}

/// The value at `(x, y)`, or `None` outside the grid.
pub open spec fn neighbour<T>(g: GridView<T>, x: int, y: int) -> Option<T> {
    if g.contains(x, y) {
        Some(g.at(x, y))
    } else {
        None
    }
}

/// The blend input for the centre `(x, y)`.
pub open spec fn diamond_stencil<T>(
    g: GridView<T>,
    x: int,
    y: int,
    half: int,
    sample: i32,
    damped: bool,
) -> Midpoint<T> {
    Midpoint {
        first: neighbour(g, x - half, y - half),
        second: neighbour(g, x - half, y + half),
        third: neighbour(g, x + half, y + half),
        fourth: neighbour(g, x + half, y - half),
        centre: true,
        half_step: half as usize,
        sample,
        damped,
    }
}

/// The blend input for the edge middle `(x, y)`.
pub open spec fn square_stencil<T>(
    g: GridView<T>,
    x: int,
    y: int,
    half: int,
    sample: i32,
    damped: bool,
) -> Midpoint<T> {
    Midpoint {
        first: neighbour(g, x - half, y),
        second: neighbour(g, x + half, y),
        third: neighbour(g, x, y - half),
        fourth: neighbour(g, x, y + half),
        centre: false,
        half_step: half as usize,
        sample,
        damped,
    }
}

/// The blend input for the cell `(x, y)`, as a centre or as an edge middle.
pub open spec fn stencil<T>(
    g: GridView<T>,
    x: int,
    y: int,
    centre: bool,
    half: int,
    sample: i32,
    damped: bool,
) -> Midpoint<T> {
    if centre {
        diamond_stencil(g, x, y, half, sample, damped)
    } else {
        square_stencil(g, x, y, half, sample, damped)
    }
}

/// Every position is given a sample that a draw can produce.
pub open spec fn samples_in_range(noise: spec_fn(int, int) -> i32) -> bool {
    forall|x: int, y: int| is_sample(#[trigger] noise(x, y))
}

/// The number of neighbours that a blend input holds.
pub open spec fn neighbours_present<T>(m: Midpoint<T>) -> nat {
    let first: nat = if m.first.is_some() { 1 } else { 0 };
    let second: nat = if m.second.is_some() { 1 } else { 0 };
    let third: nat = if m.third.is_some() { 1 } else { 0 };
    let fourth: nat = if m.fourth.is_some() { 1 } else { 0 };
    first + second + third + fourth
}

/// `m` is an input that a pass hands to the blend function: a sample that a
/// draw can produce, a half step of at least one, all four corners for a
/// centre, and two to four neighbours for the middle of an edge.
pub open spec fn pass_input<T>(m: Midpoint<T>) -> bool {
    &&& is_sample(m.sample)
    &&& m.half_step >= 1
    &&& if m.centre {
        neighbours_present(m) == 4
    } else {
        neighbours_present(m) >= 2
    }
}

/// The blend function accepts every input that a pass hands to it.
pub open spec fn blend_ready<T, B: Fn(Midpoint<T>) -> T>(blend: B) -> bool {
    forall|m: Midpoint<T>| pass_input(m) ==> #[trigger] call_requires(blend, (m,))
}

/// The blend function returns one value for one input.
pub open spec fn blend_is_function<T, B: Fn(Midpoint<T>) -> T>(blend: B) -> bool {
    forall|m: Midpoint<T>, a: T, b: T|
        #[trigger] call_ensures(blend, (m,), a) && #[trigger] call_ensures(blend, (m,), b) ==> a
            == b
}

/// What a diamond pass with step `step` makes of `before`: every centre holds
/// a blend of its four corners in `before` with the sample that `noise` gives
/// it; every other cell is as it was.
pub open spec fn diamond_post<T, B: Fn(Midpoint<T>) -> T>(
    before: GridView<T>,
    after: GridView<T>,
    step: int,
    damped: bool,
    blend: B,
    noise: spec_fn(int, int) -> i32,
) -> bool {
    &&& after.wf()
    &&& after.same_shape(before)
    &&& forall|x: int, y: int|
        before.contains(x, y) ==> if is_diamond_target(step, x, y) {
            call_ensures(
                blend,
                (diamond_stencil(before, x, y, step / 2, noise(x, y), damped),),
                #[trigger] after.at(x, y),
            )
        } else {
            after.at(x, y) == before.at(x, y)
        }
}

/// What a square pass with step `step` makes of `before`: every edge middle
/// holds a blend of its neighbours along the axes in `before` with the sample
/// that `noise` gives it; every other cell is as it was.
pub open spec fn square_post<T, B: Fn(Midpoint<T>) -> T>(
    before: GridView<T>,
    after: GridView<T>,
    step: int,
    damped: bool,
    blend: B,
    noise: spec_fn(int, int) -> i32,
) -> bool {
    &&& after.wf()
    &&& after.same_shape(before)
    &&& forall|x: int, y: int|
        before.contains(x, y) ==> if is_square_target(step, x, y) {
            call_ensures(
                blend,
                (square_stencil(before, x, y, step / 2, noise(x, y), damped),),
                #[trigger] after.at(x, y),
            )
        } else {
            after.at(x, y) == before.at(x, y)
        }
}

/// If `(x, y)` is written by the round with step `step`, its value in `g` is a
/// blend of its neighbours in `g` with the sample that `noise` gives it.
pub open spec fn blended_at<T, B: Fn(Midpoint<T>) -> T>(
    g: GridView<T>,
    step: int,
    x: int,
    y: int,
    damped: bool,
    blend: B,
    noise: spec_fn(int, int) -> i32,
) -> bool {
    &&& is_diamond_target(step, x, y) ==> call_ensures(
        blend,
        (diamond_stencil(g, x, y, step / 2, noise(x, y), damped),),
        g.at(x, y),
    )
    &&& is_square_target(step, x, y) ==> call_ensures(
        blend,
        (square_stencil(g, x, y, step / 2, noise(x, y), damped),),
        g.at(x, y),
    )
}

/// What one round with step `step` makes of `before`: every centre and every
/// edge middle is a blend of its neighbours in the result; every other cell is
/// as it was.
pub open spec fn round_post<T, B: Fn(Midpoint<T>) -> T>(
    before: GridView<T>,
    after: GridView<T>,
    step: int,
    damped: bool,
    blend: B,
    noise: spec_fn(int, int) -> i32,
) -> bool {
    &&& after.wf()
    &&& after.same_shape(before)
    &&& forall|x: int, y: int|
        before.contains(x, y) ==> #[trigger] blended_at(after, step, x, y, damped, blend, noise)
    &&& forall|x: int, y: int|
        before.contains(x, y) && !is_diamond_target(step, x, y) && !is_square_target(step, x, y)
            ==> #[trigger] after.at(x, y) == before.at(x, y)
}

/// The samples of a round: those of its diamond pass on the centres, those of
/// its square pass elsewhere.
pub open spec fn round_noise(
    step: int,
    diamond: spec_fn(int, int) -> i32,
    square: spec_fn(int, int) -> i32,
) -> spec_fn(int, int) -> i32 {
    |x: int, y: int|
        if is_diamond_target(step, x, y) {
            diamond(x, y)
        } else {
            square(x, y)
        }
}

/// A diamond pass followed by a square pass with the same step is a round.
pub proof fn lemma_passes_make_round<T, B: Fn(Midpoint<T>) -> T>(
    before: GridView<T>,
    mid: GridView<T>,
    after: GridView<T>,
    step: int,
    damped: bool,
    blend: B,
    diamond: spec_fn(int, int) -> i32,
    square: spec_fn(int, int) -> i32,
)
    requires
        step >= 2,
        step % 2 == 0,
        diamond_post(before, mid, step, damped, blend, diamond),
        square_post(mid, after, step, damped, blend, square),
    ensures
        round_post(before, after, step, damped, blend, round_noise(step, diamond, square)),
        samples_in_range(diamond) && samples_in_range(square) ==> samples_in_range(
            round_noise(step, diamond, square),
        ),
{
    let noise = round_noise(step, diamond, square);
    let half = step / 2;
    assert forall|x: int, y: int| before.contains(x, y) implies #[trigger] blended_at(
        after,
        step,
        x,
        y,
        damped,
        blend,
        noise,
    ) by {
        lemma_half_step_shift(x, step);
        lemma_half_step_shift(y, step);
        if is_diamond_target(step, x, y) {
            assert(diamond_stencil(after, x, y, half, noise(x, y), damped) == diamond_stencil(
                before,
                x,
                y,
                half,
                diamond(x, y),
                damped,
            ));
        }
        if is_square_target(step, x, y) {
            assert(square_stencil(after, x, y, half, noise(x, y), damped) == square_stencil(
                mid,
                x,
                y,
                half,
                square(x, y),
                damped,
            ));
        }
    }
    assert forall|x: int, y: int|
        before.contains(x, y) && !is_diamond_target(step, x, y) && !is_square_target(
            step,
            x,
            y,
        ) implies #[trigger] after.at(x, y) == before.at(x, y) by {}
}

/// What a run of rounds makes of `before`, from the round with step `2^coarse`
/// down to the round with step `2^(fine + 1)`: every cell on the lattice with
/// step `2^fine` that is no corner of the lattice with step `2^coarse` is a
/// blend of its neighbours in the result; every other cell is as it was.
pub open spec fn run_post<T, B: Fn(Midpoint<T>) -> T>(
    before: GridView<T>,
    after: GridView<T>,
    coarse: nat,
    fine: nat,
    damped: bool,
    blend: B,
    noise: spec_fn(int, int) -> i32,
) -> bool {
    &&& after.wf()
    &&& after.same_shape(before)
    &&& forall|x: int, y: int, e: nat|
        before.contains(x, y) && fine < e <= coarse ==> #[trigger] blended_at(
            after,
            pow2(e) as int,
            x,
            y,
            damped,
            blend,
            noise,
        )
    &&& forall|x: int, y: int|
        before.contains(x, y) && !(is_corner(pow2(fine) as int, x, y) && !is_corner(
            pow2(coarse) as int,
            x,
            y,
        )) ==> #[trigger] after.at(x, y) == before.at(x, y)
}

/// The samples of a run extended by one round: those of the round on the cells
/// that it writes, those of the run elsewhere.
pub open spec fn run_noise(
    step: int,
    run: spec_fn(int, int) -> i32,
    round: spec_fn(int, int) -> i32,
) -> spec_fn(int, int) -> i32 {
    |x: int, y: int|
        if is_diamond_target(step, x, y) || is_square_target(step, x, y) {
            round(x, y)
        } else {
            run(x, y)
        }
}

/// A run without rounds at one level is a run without rounds at any level.
pub proof fn lemma_run_level<T, B: Fn(Midpoint<T>) -> T>(
    before: GridView<T>,
    after: GridView<T>,
    level: nat,
    other: nat,
    damped: bool,
    blend: B,
    noise: spec_fn(int, int) -> i32,
)
    requires
        run_post(before, after, level, level, damped, blend, noise),
    ensures
        run_post(before, after, other, other, damped, blend, noise),
{
    assert forall|x: int, y: int| before.contains(x, y) implies #[trigger] after.at(x, y)
        == before.at(x, y) by {}
}

/// A run down to step `2^fine`, followed by the round with that step, is a
/// run down to step `2^(fine - 1)`.
pub proof fn lemma_run_extend<T, B: Fn(Midpoint<T>) -> T>(
    before: GridView<T>,
    mid: GridView<T>,
    after: GridView<T>,
    coarse: nat,
    fine: nat,
    damped: bool,
    blend: B,
    run: spec_fn(int, int) -> i32,
    round: spec_fn(int, int) -> i32,
)
    requires
        1 <= fine <= coarse,
        run_post(before, mid, coarse, fine, damped, blend, run),
        round_post(mid, after, pow2(fine) as int, damped, blend, round),
    ensures
        run_post(
            before,
            after,
            coarse,
            (fine - 1) as nat,
            damped,
            blend,
            run_noise(pow2(fine) as int, run, round),
        ),
        samples_in_range(run) && samples_in_range(round) ==> samples_in_range(
            run_noise(pow2(fine) as int, run, round),
        ),
{
    let step = pow2(fine) as int;
    let noise = run_noise(step, run, round);
    lemma_pow2_step(fine);
    assert forall|x: int, y: int, e: nat|
        before.contains(x, y) && fine - 1 < e <= coarse implies #[trigger] blended_at(
            after,
            pow2(e) as int,
            x,
            y,
            damped,
            blend,
            noise,
        ) by {
        if e == fine {
            assert(blended_at(after, step, x, y, damped, blend, round));
        } else {
            let s = pow2(e) as int;
            let h = s / 2;
            lemma_pow2_step(e);
            assert(blended_at(mid, s, x, y, damped, blend, run));
            lemma_targets_between(s, x, y);
            if is_diamond_target(s, x, y) || is_square_target(s, x, y) {
                lemma_kept_by_round(mid, after, fine, (e - 1) as nat, damped, blend, round, x, y);
                lemma_half_step_shift(x, s);
                lemma_half_step_shift(y, s);
                lemma_residue_half(x - h, s);
                lemma_residue_half(x + h, s);
                lemma_residue_half(y - h, s);
                lemma_residue_half(y + h, s);
                if is_diamond_target(s, x, y) {
                    lemma_kept_by_round(mid, after, fine, (e - 1) as nat, damped, blend, round, x - h, y - h);
                    lemma_kept_by_round(mid, after, fine, (e - 1) as nat, damped, blend, round, x - h, y + h);
                    lemma_kept_by_round(mid, after, fine, (e - 1) as nat, damped, blend, round, x + h, y + h);
                    lemma_kept_by_round(mid, after, fine, (e - 1) as nat, damped, blend, round, x + h, y - h);
                    assert(diamond_stencil(after, x, y, h, noise(x, y), damped) == diamond_stencil(
                        mid,
                        x,
                        y,
                        h,
                        run(x, y),
                        damped,
                    ));
                }
                if is_square_target(s, x, y) {
                    lemma_kept_by_round(mid, after, fine, (e - 1) as nat, damped, blend, round, x - h, y);
                    lemma_kept_by_round(mid, after, fine, (e - 1) as nat, damped, blend, round, x + h, y);
                    lemma_kept_by_round(mid, after, fine, (e - 1) as nat, damped, blend, round, x, y - h);
                    lemma_kept_by_round(mid, after, fine, (e - 1) as nat, damped, blend, round, x, y + h);
                    assert(square_stencil(after, x, y, h, noise(x, y), damped) == square_stencil(
                        mid,
                        x,
                        y,
                        h,
                        run(x, y),
                        damped,
                    ));
                }
            }
        }
    }
    assert forall|x: int, y: int|
        before.contains(x, y) && !(is_corner(pow2((fine - 1) as nat) as int, x, y) && !is_corner(
            pow2(coarse) as int,
            x,
            y,
        )) implies #[trigger] after.at(x, y) == before.at(x, y) by {
        lemma_targets_between(step, x, y);
        if is_corner(pow2(coarse) as int, x, y) {
            lemma_corner_refines(coarse, fine, x, y);
        }
        if is_corner(step, x, y) {
            lemma_corner_refines(fine, (fine - 1) as nat, x, y);
        }
    }
}

/// A corner of a lattice at least as coarse as the round's own is not written
/// by the round.
proof fn lemma_kept_by_round<T, B: Fn(Midpoint<T>) -> T>(
    before: GridView<T>,
    after: GridView<T>,
    fine: nat,
    level: nat,
    damped: bool,
    blend: B,
    noise: spec_fn(int, int) -> i32,
    x: int,
    y: int,
)
    requires
        1 <= fine <= level,
        round_post(before, after, pow2(fine) as int, damped, blend, noise),
        is_corner(pow2(level) as int, x, y),
    ensures
        neighbour(after, x, y) == neighbour(before, x, y),
        !is_diamond_target(pow2(fine) as int, x, y),
        !is_square_target(pow2(fine) as int, x, y),
{
    lemma_pow2_step(fine);
    lemma_corner_refines(level, fine, x, y);
    if before.contains(x, y) {
        assert(after.at(x, y) == before.at(x, y));
    }
}

/// The four outer corners of the square are read by the first diamond pass
/// and written by no pass: they hold at the end what they held at the start,
/// so a caller that wants a meaningful grid seeds them before the first round.
pub proof fn lemma_diamond_keeps_outer_corners<T, B: Fn(Midpoint<T>) -> T>(
    before: GridView<T>,
    after: GridView<T>,
    step: int,
    damped: bool,
    blend: B,
    noise: spec_fn(int, int) -> i32,
)
    requires
        before.wf(),
        before.is_square(before.width),
        lattice_fits(before.width as int, step),
        diamond_post(before, after, step, damped, blend, noise),
    ensures
        ({
            let last = before.width - 1;
            &&& after.at(0, 0) == before.at(0, 0)
            &&& after.at(0, last) == before.at(0, last)
            &&& after.at(last, 0) == before.at(last, 0)
            &&& after.at(last, last) == before.at(last, last)
        }),
{
}

/// A run of rounds keeps every corner of its coarsest lattice, the four outer
/// corners of the square among them.
pub proof fn lemma_run_keeps_corners<T, B: Fn(Midpoint<T>) -> T>(
    before: GridView<T>,
    after: GridView<T>,
    coarse: nat,
    fine: nat,
    damped: bool,
    blend: B,
    noise: spec_fn(int, int) -> i32,
    x: int,
    y: int,
)
    requires
        run_post(before, after, coarse, fine, damped, blend, noise),
        before.contains(x, y),
        is_corner(pow2(coarse) as int, x, y),
    ensures
        after.at(x, y) == before.at(x, y),
{
}

/// Two results of the same run agree on the corners of the lattice with step
/// `2^level`, for every level of the run.
proof fn lemma_runs_agree_on_lattice<T, B: Fn(Midpoint<T>) -> T>(
    before: GridView<T>,
    first: GridView<T>,
    second: GridView<T>,
    coarse: nat,
    fine: nat,
    level: nat,
    damped: bool,
    blend: B,
    noise: spec_fn(int, int) -> i32,
)
    requires
        fine <= level <= coarse,
        blend_is_function(blend),
        run_post(before, first, coarse, fine, damped, blend, noise),
        run_post(before, second, coarse, fine, damped, blend, noise),
    ensures
        forall|x: int, y: int|
            before.contains(x, y) && is_corner(pow2(level) as int, x, y) ==> #[trigger] first.at(
                x,
                y,
            ) == second.at(x, y),
    decreases coarse - level,
{
    if level == coarse {
        assert forall|x: int, y: int|
            before.contains(x, y) && is_corner(pow2(level) as int, x, y) implies #[trigger] first.at(
            x,
            y,
        ) == second.at(x, y) by {
            assert(second.at(x, y) == before.at(x, y));
        }
    } else {
        let e = level + 1;
        let step = pow2(e as nat) as int;
        let half = step / 2;
        lemma_runs_agree_on_lattice(
            before,
            first,
            second,
            coarse,
            fine,
            e as nat,
            damped,
            blend,
            noise,
        );
        lemma_pow2_step(e as nat);
        assert forall|x: int, y: int|
            before.contains(x, y) && is_diamond_target(step, x, y) implies #[trigger] first.at(
            x,
            y,
        ) == second.at(x, y) by {
            lemma_half_step_shift(x, step);
            lemma_half_step_shift(y, step);
            assert(blended_at(first, step, x, y, damped, blend, noise));
            assert(blended_at(second, step, x, y, damped, blend, noise));
            assert(diamond_stencil(first, x, y, half, noise(x, y), damped) == diamond_stencil(
                second,
                x,
                y,
                half,
                noise(x, y),
                damped,
            ));
        }
        assert forall|x: int, y: int|
            before.contains(x, y) && is_square_target(step, x, y) implies #[trigger] first.at(
            x,
            y,
        ) == second.at(x, y) by {
            lemma_half_step_shift(x, step);
            lemma_half_step_shift(y, step);
            assert(blended_at(first, step, x, y, damped, blend, noise));
            assert(blended_at(second, step, x, y, damped, blend, noise));
            assert(square_stencil(first, x, y, half, noise(x, y), damped) == square_stencil(
                second,
                x,
                y,
                half,
                noise(x, y),
                damped,
            ));
        }
        assert forall|x: int, y: int|
            before.contains(x, y) && is_corner(pow2(level) as int, x, y) implies #[trigger] first.at(
            x,
            y,
        ) == second.at(x, y) by {
            lemma_targets_between(step, x, y);
        }
    }
}

/// The result of a run of rounds is determined by the grid it starts from,
/// the blend function and the noise samples: two runs that share these end in
/// the same grid.
pub proof fn lemma_run_is_determined<T, B: Fn(Midpoint<T>) -> T>(
    before: GridView<T>,
    first: GridView<T>,
    second: GridView<T>,
    coarse: nat,
    fine: nat,
    damped: bool,
    blend: B,
    noise: spec_fn(int, int) -> i32,
)
    requires
        fine <= coarse,
        blend_is_function(blend),
        run_post(before, first, coarse, fine, damped, blend, noise),
        run_post(before, second, coarse, fine, damped, blend, noise),
    ensures
        first == second,
{
    lemma_runs_agree_on_lattice(before, first, second, coarse, fine, fine, damped, blend, noise);
    assert forall|x: int, y: int| first.contains(x, y) implies #[trigger] first.at(x, y)
        == second.at(x, y) by {
        if !is_corner(pow2(fine) as int, x, y) {
            assert(second.at(x, y) == before.at(x, y));
        }
    }
    lemma_grids_equal(first, second);
}

/// Two blend inputs that differ in nothing but the noise sample.
pub open spec fn same_but_sample<T>(m: Midpoint<T>, other: Midpoint<T>) -> bool {
    &&& m.first == other.first
    &&& m.second == other.second
    &&& m.third == other.third
    &&& m.fourth == other.fourth
    &&& m.centre == other.centre
    &&& m.half_step == other.half_step
    &&& m.damped == other.damped
}

/// The blend function makes nothing of the noise sample: what it returns for
/// one sample it returns for every other. A blend of zero irregularity is of
/// this kind.
pub open spec fn blend_ignores_samples<T, B: Fn(Midpoint<T>) -> T>(blend: B) -> bool {
    forall|m: Midpoint<T>, other: Midpoint<T>, value: T|
        same_but_sample(m, other) && #[trigger] call_ensures(blend, (m,), value)
            ==> #[trigger] call_ensures(blend, (other,), value)
}

/// With a blend function that makes nothing of the noise sample, the result
/// of a run of rounds does not depend on the samples: what is a result for
/// one choice of samples is a result for every other.
pub proof fn lemma_run_ignores_samples<T, B: Fn(Midpoint<T>) -> T>(
    before: GridView<T>,
    after: GridView<T>,
    coarse: nat,
    fine: nat,
    damped: bool,
    blend: B,
    noise: spec_fn(int, int) -> i32,
    other: spec_fn(int, int) -> i32,
)
    requires
        blend_ignores_samples(blend),
        run_post(before, after, coarse, fine, damped, blend, noise),
    ensures
        run_post(before, after, coarse, fine, damped, blend, other),
{
    assert forall|x: int, y: int, e: nat|
        before.contains(x, y) && fine < e <= coarse implies #[trigger] blended_at(
        after,
        pow2(e) as int,
        x,
        y,
        damped,
        blend,
        other,
    ) by {
        let step = pow2(e) as int;
        assert(blended_at(after, step, x, y, damped, blend, noise));
        if is_diamond_target(step, x, y) {
            assert(same_but_sample(
                diamond_stencil(after, x, y, step / 2, noise(x, y), damped),
                diamond_stencil(after, x, y, step / 2, other(x, y), damped),
            ));
        }
        if is_square_target(step, x, y) {
            assert(same_but_sample(
                square_stencil(after, x, y, step / 2, noise(x, y), damped),
                square_stencil(after, x, y, step / 2, other(x, y), damped),
            ));
        }
    }
}

} // verus!
