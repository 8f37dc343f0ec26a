//! Midpoint displacement on a square grid of side `2^n + 1`: the passes, the
//! rounds, and the generator that stamps a template, runs the rounds with an
//! erosion pass in between, and subsamples the result.
//!
//! Each new value is what the caller's blend function returns for the
//! neighbours, the half step and one noise sample.

use vstd::prelude::*;
use vstd::arithmetic::div_mod::{lemma_small_mod, lemma_fundamental_div_mod_converse};
use vstd::arithmetic::power2::{pow2, lemma_pow2_pos, lemma_pow2_strictly_increases, lemma2_to64};
use rand_pcg::Mcg128Xsl64;
use crate::grid::{Arr2d, GridView, lemma_put_at, lemma_grids_equal};
use crate::lattice::{
    lattice_fits,
    lemma_split,
    is_corner,
    is_diamond_target,
    is_square_target,
    lemma_corner_refines,
    lemma_half_step_shift,
    lemma_lattice_room,
    lemma_pow2_lattice_fits,
    lemma_residue_half,
    lemma_same_residue_gap,
    lemma_side_doubles,
};
use crate::midpoint::{
    Midpoint,
    pass_input,
    stencil,
    blend_ignores_samples,
    blend_is_function,
    blend_ready,
    diamond_post,
    diamond_stencil,
    lemma_passes_make_round,
    lemma_run_extend,
    lemma_run_ignores_samples,
    lemma_run_is_determined,
    lemma_run_keeps_corners,
    lemma_run_level,
    neighbour,
    round_post,
    run_noise,
    run_post,
    samples_in_range,
    square_post,
    square_stencil,
};
use crate::powers::{two_pow, lemma_pow2_injective, lemma_pow2_split, lemma_pow2_step};
use crate::random::noise_sample;
use crate::reduced::{ReducedArrayWrapper, ReducedView};

verus! {

/// The value at `(x, y)` by copy, or `None` outside the grid.
fn peek<T: Copy>(grid: &Arr2d<T>, x: usize, y: usize) -> (r: Option<T>)
    requires
        grid.wf(),
    ensures
        r == neighbour(grid@, x as int, y as int),
{
    match grid.get(x, y) {
        Some(cell) => Some(*cell),
        None => None,
    }
}

/// Replaces the value at a position inside the grid.
fn poke<T>(grid: &mut Arr2d<T>, x: usize, y: usize, value: T)
    requires
        old(grid).wf(),
        old(grid)@.contains(x as int, y as int),
    ensures
        final(grid).wf(),
        final(grid)@ == old(grid)@.put(x as int, y as int, value),
{
    match grid.get_mut(x, y) {
        Some(cell) => {
            *cell = value;
        },
        None => {},
    }
}

/// The value at a position whose coordinates were computed with a check: a
/// coordinate that left the machine integers lies outside the grid.
fn peek_checked<T: Copy>(grid: &Arr2d<T>, x: Option<usize>, y: Option<usize>) -> (r: Option<T>)
    requires
        grid.wf(),
    ensures
        r == match (x, y) {
            (Some(a), Some(b)) => neighbour(grid@, a as int, b as int),
            _ => None,
        },
{
    match (x, y) {
        (Some(a), Some(b)) => peek(grid, a, b),
        _ => None,
    }
}

/// Fills one cell: the cell at `(x, y)` becomes what `blend` returns for its
/// neighbours at distance `half_step`, diagonal ones for a centre and those
/// along the axes for an edge middle, and for the given noise sample. This is
/// what a pass does for each of its cells, with a sample that it has drawn.
/// The cell has the neighbours that a pass finds: all four for a centre, at
/// least two for an edge middle.
pub fn displace<T: Copy, B: Fn(Midpoint<T>) -> T>(
    output: &mut Arr2d<T>,
    x: usize,
    y: usize,
    centre: bool,
    half_step: usize,
    damped: bool,
    sample: i32,
    blend: &B,
)
    requires
        old(output).wf(),
        old(output)@.contains(x as int, y as int),
        pass_input(
            stencil(old(output)@, x as int, y as int, centre, half_step as int, sample, damped),
        ),
        blend_ready(*blend),
    ensures
        final(output).wf(),
        final(output)@ == old(output)@.put(
            x as int,
            y as int,
            final(output)@.at(x as int, y as int),
        ),
        call_ensures(
            *blend,
            (stencil(old(output)@, x as int, y as int, centre, half_step as int, sample, damped),),
            final(output)@.at(x as int, y as int),
        ),
{
    let ghost before = output@;
    proof {
        output.lemma_view_bounds();
    }
    let lower_x = x.checked_sub(half_step);
    let upper_x = x.checked_add(half_step);
    let lower_y = y.checked_sub(half_step);
    let upper_y = y.checked_add(half_step);
    let input = if centre {
        Midpoint {
            first: peek_checked(output, lower_x, lower_y),
            second: peek_checked(output, lower_x, upper_y),
            third: peek_checked(output, upper_x, upper_y),
            fourth: peek_checked(output, upper_x, lower_y),
            centre,
            half_step,
            sample,
            damped,
        }
    } else {
        Midpoint {
            first: peek_checked(output, lower_x, Some(y)),
            second: peek_checked(output, upper_x, Some(y)),
            third: peek_checked(output, Some(x), lower_y),
            fourth: peek_checked(output, Some(x), upper_y),
            centre,
            half_step,
            sample,
            damped,
        }
    };
    assert(input == stencil(before, x as int, y as int, centre, half_step as int, sample, damped));
    let value = blend(input);
    poke(output, x, y, value);
    proof {
        lemma_put_at(before, x as int, y as int, value, x as int, y as int);
    }
}

/// The diamond pass of the round with step `step`.
pub fn diamond_step<T: Copy, B: Fn(Midpoint<T>) -> T>(
    output: &mut Arr2d<T>,
    step: usize,
    damped: bool,
    rng: &mut Mcg128Xsl64,
    blend: &B,
)
    requires
        old(output).wf(),
        old(output)@.is_square(old(output)@.width),
        lattice_fits(old(output)@.width as int, step as int),
        blend_ready(*blend),
    ensures
        exists|noise: spec_fn(int, int) -> i32|
            samples_in_range(noise) && #[trigger] diamond_post(
                old(output)@,
                final(output)@,
                step as int,
                damped,
                *blend,
                noise,
            ),
{
    let w: usize = output.get_width();
    let half: usize = step / 2;
    let ghost before = output@;
    let ghost mut noise: spec_fn(int, int) -> i32 = |a: int, b: int| 0i32;
    proof {
        output.lemma_view_bounds();
        if w >= 2 {
            lemma_side_doubles(w as int);
        }
        lemma_lattice_room(w as int, step as int, 0);
        lemma_small_mod(half as nat, step as nat);
        assert forall|cx: int, cy: int| before.contains(cx, cy) && is_diamond_target(
            step as int,
            cx,
            cy,
        ) implies cx >= half by {
            if cx < half {
                lemma_small_mod(cx as nat, step as nat);
            }
        }
    }
    let mut x: usize = half;
    while x < w
        invariant
            half == step / 2,
            w == before.width,
            before.wf(),
            before.is_square(w as nat),
            lattice_fits(w as int, step as int),
            blend_ready(*blend),
            w >= 2 ==> 2 * w <= usize::MAX,
            step <= w - 1 || w == 1,
            x % step == half,
            x < w + step,
            output.wf(),
            output@.same_shape(before),
            samples_in_range(noise),
            forall|cx: int, cy: int|
                before.contains(cx, cy) ==> if is_diamond_target(step as int, cx, cy) && cx < x {
                    call_ensures(
                        *blend,
                        (diamond_stencil(before, cx, cy, half as int, noise(cx, cy), damped),),
                        #[trigger] output@.at(cx, cy),
                    )
                } else {
                    output@.at(cx, cy) == before.at(cx, cy)
                },
        decreases w + step - x,
    {
        let mut y: usize = half;
        proof {
            lemma_small_mod(half as nat, step as nat);
            assert forall|cx: int, cy: int| before.contains(cx, cy) && is_diamond_target(
                step as int,
                cx,
                cy,
            ) implies cy >= half by {
                if cy < half {
                    lemma_small_mod(cy as nat, step as nat);
                }
            }
        }
        while y < w
            invariant
                half == step / 2,
                w == before.width,
                before.wf(),
                before.is_square(w as nat),
                lattice_fits(w as int, step as int),
                blend_ready(*blend),
                w >= 2 ==> 2 * w <= usize::MAX,
                step <= w - 1 || w == 1,
                x % step == half,
                x < w,
                y % step == half,
                y < w + step,
                output.wf(),
                output@.same_shape(before),
                samples_in_range(noise),
                forall|cx: int, cy: int|
                    before.contains(cx, cy) ==> if is_diamond_target(step as int, cx, cy) && (cx
                        < x || (cx == x && cy < y)) {
                        call_ensures(
                            *blend,
                            (diamond_stencil(before, cx, cy, half as int, noise(cx, cy), damped),),
                            #[trigger] output@.at(cx, cy),
                        )
                    } else {
                        output@.at(cx, cy) == before.at(cx, cy)
                    },
            decreases w + step - y,
        {
            proof {
                lemma_lattice_room(w as int, step as int, x as int);
                lemma_lattice_room(w as int, step as int, y as int);
                lemma_half_step_shift(y as int, step as int);
            }
            let ghost current = output@;
            let sample: i32 = noise_sample(rng);
            displace(output, x, y, true, half, damped, sample, blend);
            proof {
                let value = output@.at(x as int, y as int);
                assert(stencil(current, x as int, y as int, true, half as int, sample, damped)
                    == diamond_stencil(before, x as int, y as int, half as int, sample, damped));
                let earlier = noise;
                noise = |a: int, b: int| if a == x && b == y { sample } else { earlier(a, b) };
                assert forall|cx: int, cy: int| before.contains(cx, cy) implies if is_diamond_target(
                    step as int,
                    cx,
                    cy,
                ) && (cx < x || (cx == x && cy < y + step)) {
                    call_ensures(
                        *blend,
                        (diamond_stencil(before, cx, cy, half as int, noise(cx, cy), damped),),
                        #[trigger] output@.at(cx, cy),
                    )
                } else {
                    output@.at(cx, cy) == before.at(cx, cy)
                } by {
                    lemma_put_at(current, x as int, y as int, value, cx, cy);
                    if cx == x && y <= cy < y + step && cy % (step as int) == half as int {
                        lemma_same_residue_gap(y as int, cy, step as int);
                    }
                }
            }
            y += step;
        }
        proof {
            assert forall|cx: int, cy: int| before.contains(cx, cy) implies if is_diamond_target(
                step as int,
                cx,
                cy,
            ) && cx < x + step {
                call_ensures(
                    *blend,
                    (diamond_stencil(before, cx, cy, half as int, noise(cx, cy), damped),),
                    #[trigger] output@.at(cx, cy),
                )
            } else {
                output@.at(cx, cy) == before.at(cx, cy)
            } by {
                if x <= cx < x + step && cx % (step as int) == half as int {
                    lemma_same_residue_gap(x as int, cx, step as int);
                }
            }
            lemma_half_step_shift(x as int, step as int);
        }
        x += step;
    }
    proof {
        assert(diamond_post(before, output@, step as int, damped, *blend, noise));
    }
}

/// The square pass of the round with step `step`.
pub fn square_step<T: Copy, B: Fn(Midpoint<T>) -> T>(
    output: &mut Arr2d<T>,
    step: usize,
    damped: bool,
    rng: &mut Mcg128Xsl64,
    blend: &B,
)
    requires
        old(output).wf(),
        old(output)@.is_square(old(output)@.width),
        lattice_fits(old(output)@.width as int, step as int),
        blend_ready(*blend),
    ensures
        exists|noise: spec_fn(int, int) -> i32|
            samples_in_range(noise) && #[trigger] square_post(
                old(output)@,
                final(output)@,
                step as int,
                damped,
                *blend,
                noise,
            ),
{
    let w: usize = output.get_width();
    let half: usize = step / 2;
    let ghost before = output@;
    let ghost mut noise: spec_fn(int, int) -> i32 = |a: int, b: int| 0i32;
    proof {
        output.lemma_view_bounds();
        if w >= 2 {
            lemma_side_doubles(w as int);
        }
        lemma_lattice_room(w as int, step as int, 0);
    }
    let mut x: usize = 0;
    let mut offset: usize = 0;
    while x < w
        invariant
            half == step / 2,
            w == before.width,
            before.wf(),
            before.is_square(w as nat),
            lattice_fits(w as int, step as int),
            blend_ready(*blend),
            w >= 2 ==> 2 * w <= usize::MAX,
            step <= w - 1 || w == 1,
            x % step == offset,
            offset == 0 || offset == half,
            x < w + half,
            output.wf(),
            output@.same_shape(before),
            samples_in_range(noise),
            forall|cx: int, cy: int|
                before.contains(cx, cy) ==> if is_square_target(step as int, cx, cy) && cx < x {
                    call_ensures(
                        *blend,
                        (square_stencil(before, cx, cy, half as int, noise(cx, cy), damped),),
                        #[trigger] output@.at(cx, cy),
                    )
                } else {
                    output@.at(cx, cy) == before.at(cx, cy)
                },
        decreases w + half - x,
    {
        offset = if offset == 0 {
            half
        } else {
            0
        };
        let mut y: usize = offset;
        proof {
            lemma_small_mod(offset as nat, step as nat);
            assert forall|cx: int, cy: int|
                before.contains(cx, cy) && cx == x && is_square_target(
                    step as int,
                    cx,
                    cy,
                ) implies cy >= offset by {
                if cy < offset {
                    lemma_small_mod(cy as nat, step as nat);
                }
            }
        }
        while y < w
            invariant
                half == step / 2,
                w == before.width,
                before.wf(),
                before.is_square(w as nat),
                lattice_fits(w as int, step as int),
                blend_ready(*blend),
                w >= 2 ==> 2 * w <= usize::MAX,
                step <= w - 1 || w == 1,
                x % step == half - offset,
                offset == 0 || offset == half,
                x < w,
                y % step == offset,
                y < w + step,
                output.wf(),
                output@.same_shape(before),
                samples_in_range(noise),
                forall|cx: int, cy: int|
                    before.contains(cx, cy) ==> if is_square_target(step as int, cx, cy) && (cx
                        < x || (cx == x && cy < y)) {
                        call_ensures(
                            *blend,
                            (square_stencil(before, cx, cy, half as int, noise(cx, cy), damped),),
                            #[trigger] output@.at(cx, cy),
                        )
                    } else {
                        output@.at(cx, cy) == before.at(cx, cy)
                    },
            decreases w + step - y,
        {
            proof {
                lemma_half_step_shift(x as int, step as int);
                lemma_half_step_shift(y as int, step as int);
                lemma_lattice_room(w as int, step as int, x as int);
                lemma_lattice_room(w as int, step as int, y as int);
            }
            let ghost current = output@;
            let sample: i32 = noise_sample(rng);
            displace(output, x, y, false, half, damped, sample, blend);
            proof {
                let value = output@.at(x as int, y as int);
                assert(before.contains(x - half, y as int) ==> current.at(x - half, y as int)
                    == before.at(x - half, y as int));
                assert(before.contains(x + half, y as int) ==> current.at(x + half, y as int)
                    == before.at(x + half, y as int));
                assert(before.contains(x as int, y - half) ==> current.at(x as int, y - half)
                    == before.at(x as int, y - half));
                assert(before.contains(x as int, y + half) ==> current.at(x as int, y + half)
                    == before.at(x as int, y + half));
                assert(stencil(current, x as int, y as int, false, half as int, sample, damped)
                    == square_stencil(before, x as int, y as int, half as int, sample, damped));
                let earlier = noise;
                noise = |a: int, b: int| if a == x && b == y { sample } else { earlier(a, b) };
                assert forall|cx: int, cy: int| before.contains(cx, cy) implies if is_square_target(
                    step as int,
                    cx,
                    cy,
                ) && (cx < x || (cx == x && cy < y + step)) {
                    call_ensures(
                        *blend,
                        (square_stencil(before, cx, cy, half as int, noise(cx, cy), damped),),
                        #[trigger] output@.at(cx, cy),
                    )
                } else {
                    output@.at(cx, cy) == before.at(cx, cy)
                } by {
                    lemma_put_at(current, x as int, y as int, value, cx, cy);
                    if cx == x && y <= cy < y + step && cy % (step as int) == offset as int {
                        lemma_same_residue_gap(y as int, cy, step as int);
                    }
                }
            }
            y += step;
        }
        proof {
            assert forall|cx: int, cy: int| before.contains(cx, cy) implies if is_square_target(
                step as int,
                cx,
                cy,
            ) && cx < x + half {
                call_ensures(
                    *blend,
                    (square_stencil(before, cx, cy, half as int, noise(cx, cy), damped),),
                    #[trigger] output@.at(cx, cy),
                )
            } else {
                output@.at(cx, cy) == before.at(cx, cy)
            } by {
                if x <= cx < x + half && is_square_target(step as int, cx, cy) {
                    lemma_residue_half(x as int, step as int);
                    lemma_residue_half(cx, step as int);
                    lemma_same_residue_gap(x as int, cx, half as int);
                }
            }
            lemma_half_step_shift(x as int, step as int);
        }
        x += half;
    }
    proof {
        assert(square_post(before, output@, step as int, damped, *blend, noise));
    }
}

/// One round with step `step`: the diamond pass, then the square pass.
pub fn diamond_square_round<T: Copy, B: Fn(Midpoint<T>) -> T>(
    output: &mut Arr2d<T>,
    step: usize,
    damped: bool,
    rng: &mut Mcg128Xsl64,
    blend: &B,
)
    requires
        old(output).wf(),
        old(output)@.is_square(old(output)@.width),
        lattice_fits(old(output)@.width as int, step as int),
        blend_ready(*blend),
    ensures
        exists|noise: spec_fn(int, int) -> i32|
            samples_in_range(noise) && #[trigger] round_post(
                old(output)@,
                final(output)@,
                step as int,
                damped,
                *blend,
                noise,
            ),
{
    let ghost before = output@;
    diamond_step(output, step, damped, rng, blend);
    let ghost mid = output@;
    square_step(output, step, damped, rng, blend);
    proof {
        let diamond = choose|noise: spec_fn(int, int) -> i32|
            samples_in_range(noise) && #[trigger] diamond_post(
                before,
                mid,
                step as int,
                damped,
                *blend,
                noise,
            );
        let square = choose|noise: spec_fn(int, int) -> i32|
            samples_in_range(noise) && #[trigger] square_post(
                mid,
                output@,
                step as int,
                damped,
                *blend,
                noise,
            );
        lemma_passes_make_round(before, mid, output@, step as int, damped, *blend, diamond, square);
    }
}

/// What stamping makes of `before`: the cell at `(i * scaling, j * scaling)`
/// holds the template's cell at `(i, j)`, for every `(i, j)` of the template;
/// every other cell is as it was.
pub open spec fn stamp_post<T>(
    template: GridView<T>,
    before: GridView<T>,
    after: GridView<T>,
    scaling: int,
) -> bool {
    &&& after.wf()
    &&& after.same_shape(before)
    &&& forall|x: int, y: int|
        before.contains(x, y) ==> #[trigger] after.at(x, y) == if is_corner(scaling, x, y)
            && template.contains(x / scaling, y / scaling) {
            template.at(x / scaling, y / scaling)
        } else {
            before.at(x, y)
        }
}

/// The state of stamping when every template cell before `(x, y)`, column by
/// column, has been copied.
pub open spec fn stamped_so_far<T>(
    template: GridView<T>,
    before: GridView<T>,
    current: GridView<T>,
    scaling: int,
    x: int,
    y: int,
) -> bool {
    forall|cx: int, cy: int|
        before.contains(cx, cy) ==> #[trigger] current.at(cx, cy) == if is_corner(scaling, cx, cy)
            && template.contains(cx / scaling, cy / scaling) && (cx / scaling < x || (cx / scaling
            == x && cy / scaling < y)) {
            template.at(cx / scaling, cy / scaling)
        } else {
            before.at(cx, cy)
        }
}

/// The template, laid out at stride `scaling`, lies inside the grid: its last
/// column and its last row land on a column and a row of the grid.
pub open spec fn template_fits<T>(template: GridView<T>, grid: GridView<T>, scaling: int) -> bool {
    &&& template.width >= 1 ==> (template.width - 1) * scaling < grid.width
    &&& template.height >= 1 ==> (template.height - 1) * scaling < grid.height
}

/// A template of side `2^t + 1` at stride `2^(n - t)` lies inside the grid of
/// side `2^n + 1`, and its last cell lands on the grid's last cell.
pub proof fn lemma_template_fits(n: nat, t: nat)
    requires
        t <= n,
    ensures
        pow2(t) * pow2((n - t) as nat) == pow2(n),
        forall|i: int| 0 <= i <= pow2(t) ==> 0 <= #[trigger] (i * pow2((n - t) as nat)) <= pow2(n),
{
    lemma_pow2_split(t, n);
    let s = pow2((n - t) as nat) as int;
    let top = pow2(t) as int;
    assert forall|i: int| 0 <= i <= pow2(t) implies 0 <= #[trigger] (i * pow2((n - t) as nat))
        <= pow2(n) by {
        assert(0 <= i * s <= top * s) by (nonlinear_arith)
            requires
                0 <= i <= top,
                0 < s,
        ;
    }
}

/// Copies every cell of the template into the grid at stride `scaling`.
pub fn stamp_template<T: Copy>(arr: &Arr2d<T>, output: &mut Arr2d<T>, scaling: usize)
    requires
        arr.wf(),
        old(output).wf(),
        scaling >= 1,
        template_fits(arr@, old(output)@, scaling as int),
    ensures
        stamp_post(arr@, old(output)@, final(output)@, scaling as int),
{
    let input_w: usize = arr.get_width();
    let input_h: usize = arr.get_height();
    let w: usize = output.get_width();
    let h: usize = output.get_height();
    let ghost before = output@;
    let ghost template = arr@;
    let mut x: usize = 0;
    while x < input_w
        invariant
            arr.wf(),
            arr@ == template,
            input_w == template.width,
            input_h == template.height,
            w == before.width,
            h == before.height,
            scaling >= 1,
            x <= input_w,
            before.wf(),
            output.wf(),
            output@.same_shape(before),
            stamped_so_far(template, before, output@, scaling as int, x as int, 0),
        decreases input_w - x,
    {
        let mut y: usize = 0;
        while y < input_h
            invariant
                arr.wf(),
                arr@ == template,
                input_w == template.width,
                input_h == template.height,
                w == before.width,
                h == before.height,
                scaling >= 1,
                x < input_w,
                y <= input_h,
                before.wf(),
                output.wf(),
                output@.same_shape(before),
                stamped_so_far(template, before, output@, scaling as int, x as int, y as int),
            decreases input_h - y,
        {
            let ghost current = output@;
            let target: Option<(usize, usize)> = match (
                x.checked_mul(scaling),
                y.checked_mul(scaling),
            ) {
                (Some(bx), Some(by)) => if bx < w && by < h {
                    Some((bx, by))
                } else {
                    None
                },
                _ => None,
            };
            match (target, peek(arr, x, y)) {
                (Some((bx, by)), Some(value)) => {
                    poke(output, bx, by, value);
                    proof {
                        lemma_fundamental_div_mod_converse(bx as int, scaling as int, x as int, 0);
                        lemma_fundamental_div_mod_converse(by as int, scaling as int, y as int, 0);
                        assert forall|cx: int, cy: int| before.contains(cx, cy) implies #[trigger] output@.at(
                            cx,
                            cy,
                        ) == if is_corner(scaling as int, cx, cy) && template.contains(
                            cx / (scaling as int),
                            cy / (scaling as int),
                        ) && (cx / (scaling as int) < x || (cx / (scaling as int) == x && cy / (
                        scaling as int) < y + 1)) {
                            template.at(cx / (scaling as int), cy / (scaling as int))
                        } else {
                            before.at(cx, cy)
                        } by {
                            lemma_put_at(current, bx as int, by as int, value, cx, cy);
                            lemma_split(cx, scaling as int);
                            lemma_split(cy, scaling as int);
                        }
                    }
                },
                _ => {
                    proof {
                        assert forall|cx: int, cy: int| before.contains(cx, cy) implies #[trigger] output@.at(
                            cx,
                            cy,
                        ) == if is_corner(scaling as int, cx, cy) && template.contains(
                            cx / (scaling as int),
                            cy / (scaling as int),
                        ) && (cx / (scaling as int) < x || (cx / (scaling as int) == x && cy / (
                        scaling as int) < y + 1)) {
                            template.at(cx / (scaling as int), cy / (scaling as int))
                        } else {
                            before.at(cx, cy)
                        } by {
                            lemma_split(cx, scaling as int);
                            lemma_split(cy, scaling as int);
                        }
                    }
                },
            }
            y += 1;
        }
        x += 1;
    }
}

/// The position `(i * scaling, j * scaling)` is a corner of the lattice with
/// step `scaling`, and divides back to `(i, j)`.
pub proof fn lemma_stamped_position(scaling: int, i: int, j: int)
    requires
        scaling >= 1,
    ensures
        is_corner(scaling, i * scaling, j * scaling),
        (i * scaling) / scaling == i,
        (j * scaling) / scaling == j,
{
    lemma_fundamental_div_mod_converse(i * scaling, scaling, i, 0);
    lemma_fundamental_div_mod_converse(j * scaling, scaling, j, 0);
}

/// After stamping, the cell at `(i * scaling, j * scaling)` holds the
/// template's cell at `(i, j)`.
pub proof fn lemma_stamp_places_template<T>(
    template: GridView<T>,
    before: GridView<T>,
    stamped: GridView<T>,
    scaling: int,
    i: int,
    j: int,
)
    requires
        scaling >= 1,
        stamp_post(template, before, stamped, scaling),
        template.contains(i, j),
        before.contains(i * scaling, j * scaling),
    ensures
        stamped.at(i * scaling, j * scaling) == template.at(i, j),
{
    lemma_stamped_position(scaling, i, j);
}

/// Number of multiples of `stride` below `extent`, counting zero.
pub open spec fn strided_count(extent: int, stride: int) -> int {
    if extent <= 0 {
        0
    } else {
        (extent - 1) / stride + 1
    }
}

/// `i` is below the strided count exactly when `i * stride` is below the extent.
pub proof fn lemma_strided_count(extent: int, stride: int, i: int)
    requires
        extent >= 0,
        stride >= 1,
        i >= 0,
    ensures
        i < strided_count(extent, stride) <==> i * stride < extent,
        0 <= i * stride,
{
    assert(0 <= i * stride) by (nonlinear_arith)
        requires
            i >= 0,
            stride >= 1,
    ;
    if extent > 0 {
        let q = (extent - 1) / stride;
        let r = (extent - 1) % stride;
        lemma_split(extent - 1, stride);
        if i <= q {
            assert(i * stride <= q * stride) by (nonlinear_arith)
                requires
                    i <= q,
                    stride >= 1,
            ;
        } else {
            assert(i * stride >= q * stride + stride) by (nonlinear_arith)
                requires
                    i >= q + 1,
                    stride >= 1,
            ;
        }
    }
}

/// The multiples of `2^d` inside a side of `2^n + 1` number `2^(n - d) + 1`.
pub proof fn lemma_strided_pow2(n: nat, d: nat)
    requires
        d <= n,
    ensures
        strided_count(pow2(n) as int + 1, pow2(d) as int) == pow2((n - d) as nat) + 1,
{
    lemma_pow2_split(d, n);
    let k = pow2((n - d) as nat) as int;
    assert(pow2(d) * k == k * pow2(d)) by (nonlinear_arith);
    lemma_fundamental_div_mod_converse(pow2(n) as int, pow2(d) as int, k, 0);
}

/// What subsampling makes of the coarse grid `before`: the cell at `(i, j)`
/// holds the source's cell at `(i * stride, j * stride)` wherever the source
/// has one; every other cell is as it was.
pub open spec fn subsample_post<T>(
    source: GridView<T>,
    before: GridView<T>,
    after: GridView<T>,
    stride: int,
) -> bool {
    &&& after.wf()
    &&& after.same_shape(before)
    &&& forall|x: int, y: int|
        before.contains(x, y) ==> #[trigger] after.at(x, y) == if source.contains(
            x * stride,
            y * stride,
        ) {
            source.at(x * stride, y * stride)
        } else {
            before.at(x, y)
        }
}

fn count_strided(extent: usize, stride: usize) -> (r: usize)
    requires
        stride >= 1,
    ensures
        r == strided_count(extent as int, stride as int),
        r <= extent,
{
    if extent == 0 {
        0
    } else {
        proof {
            let q = (extent - 1) / (stride as int);
            assert(q <= q * stride) by (nonlinear_arith)
                requires
                    stride >= 1,
                    q >= 0,
            ;
        }
        (extent - 1) / stride + 1
    }
}

/// Copies every `stride`-th cell of `source`, in both directions, into the
/// top left of `target`.
pub fn subsample<T: Copy>(source: &Arr2d<T>, target: &mut Arr2d<T>, stride: usize)
    requires
        source.wf(),
        old(target).wf(),
        stride >= 1,
        strided_count(source@.width as int, stride as int) <= old(target)@.width,
        strided_count(source@.height as int, stride as int) <= old(target)@.height,
    ensures
        subsample_post(source@, old(target)@, final(target)@, stride as int),
{
    let ghost before = target@;
    let columns: usize = count_strided(source.get_width(), stride);
    let rows: usize = count_strided(source.get_height(), stride);
    let mut rx: usize = 0;
    while rx < columns
        invariant
            source.wf(),
            stride >= 1,
            columns == strided_count(source@.width as int, stride as int),
            rows == strided_count(source@.height as int, stride as int),
            columns <= before.width,
            rows <= before.height,
            rx <= columns,
            before.wf(),
            target.wf(),
            target@.same_shape(before),
            forall|cx: int, cy: int|
                before.contains(cx, cy) ==> #[trigger] target@.at(cx, cy) == if source@.contains(
                    cx * stride,
                    cy * stride,
                ) && cx < rx {
                    source@.at(cx * stride, cy * stride)
                } else {
                    before.at(cx, cy)
                },
        decreases columns - rx,
    {
        let mut ry: usize = 0;
        while ry < rows
            invariant
                source.wf(),
                stride >= 1,
                columns == strided_count(source@.width as int, stride as int),
                rows == strided_count(source@.height as int, stride as int),
                columns <= before.width,
                rows <= before.height,
                rx < columns,
                ry <= rows,
                before.wf(),
                target.wf(),
                target@.same_shape(before),
                forall|cx: int, cy: int|
                    before.contains(cx, cy) ==> #[trigger] target@.at(cx, cy) == if source@.contains(
                        cx * stride,
                        cy * stride,
                    ) && (cx < rx || (cx == rx && cy < ry)) {
                        source@.at(cx * stride, cy * stride)
                    } else {
                        before.at(cx, cy)
                    },
            decreases rows - ry,
        {
            proof {
                source.lemma_view_bounds();
                lemma_strided_count(source@.width as int, stride as int, rx as int);
                lemma_strided_count(source@.height as int, stride as int, ry as int);
            }
            let ghost current = target@;
            match peek(source, rx * stride, ry * stride) {
                Some(value) => {
                    poke(target, rx, ry, value);
                    proof {
                        assert forall|cx: int, cy: int| before.contains(cx, cy) implies #[trigger] target@.at(
                            cx,
                            cy,
                        ) == if source@.contains(cx * stride, cy * stride) && (cx < rx || (cx == rx
                            && cy < ry + 1)) {
                            source@.at(cx * stride, cy * stride)
                        } else {
                            before.at(cx, cy)
                        } by {
                            lemma_put_at(current, rx as int, ry as int, value, cx, cy);
                        }
                    }
                },
                None => {},
            }
            ry += 1;
        }
        proof {
            assert forall|cx: int, cy: int| before.contains(cx, cy) implies #[trigger] target@.at(
                cx,
                cy,
            ) == if source@.contains(cx * stride, cy * stride) && cx < rx + 1 {
                source@.at(cx * stride, cy * stride)
            } else {
                before.at(cx, cy)
            } by {
                lemma_strided_count(source@.height as int, stride as int, cy);
            }
        }
        rx += 1;
    }
    proof {
        assert forall|cx: int, cy: int| before.contains(cx, cy) implies #[trigger] target@.at(
            cx,
            cy,
        ) == if source@.contains(cx * stride, cy * stride) {
            source@.at(cx * stride, cy * stride)
        } else {
            before.at(cx, cy)
        } by {
            lemma_strided_count(source@.width as int, stride as int, cx);
        }
    }
}

/// Exponent of the coarsest round that is not skipped: of the rounds with
/// steps `2^n`, `2^(n - 1)`, ..., `2`, the first `skip` do nothing.
pub open spec fn first_generated(n: nat, skip: nat) -> nat {
    if skip >= n {
        0
    } else {
        (n - skip) as nat
    }
}

/// The larger of two exponents.
pub open spec fn larger(a: nat, b: nat) -> nat {
    if a >= b {
        a
    } else {
        b
    }
}

/// The smaller of two exponents.
pub open spec fn smaller(a: nat, b: nat) -> nat {
    if a <= b {
        a
    } else {
        b
    }
}

/// What the generator makes of the fine grid `before`, on a square of side
/// `2^n + 1`, with erosion scheduled when the step reaches `2^d`.
///
/// The template is stamped (`stamped`). Rounds run from step `2^n` downwards,
/// the first `skip` of them doing nothing. With `d < n` the rounds down to step
/// `2^(d + 1)` give `rough`, erosion turns `rough` into `worn`, and the
/// remaining rounds run damped on `worn`. With `d == n` there is no erosion.
pub open spec fn generation_post<T, B: Fn(Midpoint<T>) -> T>(
    template: GridView<T>,
    before: GridView<T>,
    after: GridView<T>,
    stamped: GridView<T>,
    rough: GridView<T>,
    worn: GridView<T>,
    n: nat,
    d: nat,
    skip: nat,
    scaling: int,
    blend: B,
    early: spec_fn(int, int) -> i32,
    late: spec_fn(int, int) -> i32,
) -> bool {
    let top = first_generated(n, skip);
    &&& stamp_post(template, before, stamped, scaling)
    &&& samples_in_range(early)
    &&& samples_in_range(late)
    &&& worn.wf()
    &&& worn.same_shape(rough)
    &&& if d < n {
        &&& run_post(stamped, rough, larger(top, d), d, false, blend, early)
        &&& run_post(worn, after, smaller(top, d), 0, true, blend, late)
    } else {
        &&& run_post(stamped, after, top, 0, false, blend, early)
        &&& rough == after
        &&& worn == after
    }
}

/// Fills the fine grid `output` by midpoint displacement and copies every
/// `2^n_iteration_difference`-th cell of it into `reduced_output`.
///
/// The template `arr`, a square of side `2^template_power_of_two + 1`, is
/// stamped at stride `scaling`, which spreads it over the whole grid. Rounds
/// then run with steps `2^power_of_two`, ..., `2`; the first
/// `template_power_of_two` of them do nothing, so that what the template
/// supplied stays. When the step reaches `2^n_iteration_difference`, `erode`
/// is called once on a view of the grid at that stride, and every later round
/// is damped.
///
/// A template of another shape, or a stride that does not fit it to the grid,
/// is an error of configuration: the caller finds it before the call.
pub fn diamond_square_2<
    T: Copy,
    B: Fn(Midpoint<T>) -> T,
    E: Fn(&mut ReducedArrayWrapper<T>, &mut Mcg128Xsl64),
>(
    arr: &Arr2d<T>,
    output: &mut Arr2d<T>,
    power_of_two: usize,
    reduced_output: &mut Arr2d<T>,
    scaling: usize,
    n_iteration_difference: u32,
    template_power_of_two: u32,
    rng: &mut Mcg128Xsl64,
    blend: &B,
    erode: &E,
)
    requires
        arr.wf(),
        arr@.is_square(pow2(template_power_of_two as nat) + 1),
        template_power_of_two <= power_of_two,
        scaling == pow2((power_of_two - template_power_of_two) as nat),
        old(output).wf(),
        old(output)@.is_square(pow2(power_of_two as nat) + 1),
        old(reduced_output).wf(),
        n_iteration_difference <= power_of_two,
        pow2((power_of_two - n_iteration_difference) as nat) + 1 <= old(reduced_output)@.width,
        pow2((power_of_two - n_iteration_difference) as nat) + 1 <= old(reduced_output)@.height,
        blend_ready(*blend),
        forall|view: &mut ReducedArrayWrapper<T>, rng: &mut Mcg128Xsl64|
            view.wf() && view@.n == power_of_two && view@.reduced_n == power_of_two
                - n_iteration_difference ==> #[trigger] call_requires(*erode, (view, rng)),
        forall|view: &mut ReducedArrayWrapper<T>, rng: &mut Mcg128Xsl64| #[trigger]
            call_ensures(*erode, (view, rng), ()) ==> {
                &&& final(view).array.wf()
                &&& final(view).array@.same_shape(view.array@)
                &&& *final(final(view).array) == *final(view.array)
            },
    ensures
        exists|
            stamped: GridView<T>,
            rough: GridView<T>,
            worn: GridView<T>,
            early: spec_fn(int, int) -> i32,
            late: spec_fn(int, int) -> i32,
        |
            {
                &&& #[trigger] generation_post(
                    arr@,
                    old(output)@,
                    final(output)@,
                    stamped,
                    rough,
                    worn,
                    power_of_two as nat,
                    n_iteration_difference as nat,
                    template_power_of_two as nat,
                    scaling as int,
                    *blend,
                    early,
                    late,
                )
                &&& n_iteration_difference < power_of_two ==> exists|
                    view: &mut ReducedArrayWrapper<T>,
                    rng: &mut Mcg128Xsl64,
                |
                    {
                        &&& #[trigger] call_ensures(*erode, (view, rng), ())
                        &&& view@ == (ReducedView {
                            backing: rough,
                            n: power_of_two as nat,
                            reduced_n: (power_of_two - n_iteration_difference) as nat,
                        })
                        &&& final(view).array@ == worn
                    }
            },
        subsample_post(
            final(output)@,
            old(reduced_output)@,
            final(reduced_output)@,
            pow2(n_iteration_difference as nat) as int,
        ),
{
    let ghost n = power_of_two as nat;
    let ghost d = n_iteration_difference as nat;
    let ghost skip = template_power_of_two as nat;
    let ghost top = first_generated(n, skip);
    let ghost before = output@;
    proof {
        output.lemma_view_bounds();
        lemma2_to64();
        if power_of_two >= 64 {
            if power_of_two > 64 {
                lemma_pow2_strictly_increases(64, n);
            }
            assert(false);
        }
        lemma_pow2_split(d, n);
        lemma_pow2_pos((n - skip) as nat);
        lemma_template_fits(n, skip);
        assert(pow2(skip) * scaling == pow2(n));
    }
    let exponent: u32 = power_of_two as u32;
    stamp_template(arr, output, scaling);
    let ghost stamped = output@;
    let w: usize = output.get_width();
    let mut number_of_step_to_skip: u32 = template_power_of_two;
    let mut i: usize = w - 1;
    let reduced_output_step: usize = two_pow(n_iteration_difference);
    let mut damped: bool = false;
    let ghost mut e: nat = n;
    let ghost mut rough: GridView<T> = stamped;
    let ghost mut worn: GridView<T> = stamped;
    let ghost mut early: spec_fn(int, int) -> i32 = |a: int, b: int| 0i32;
    let ghost mut late: spec_fn(int, int) -> i32 = |a: int, b: int| 0i32;
    proof {
        lemma_run_level(stamped, stamped, larger(top, n), n, false, *blend, early);
    }
    while i > 1
        invariant
            n == power_of_two,
            d == n_iteration_difference,
            skip == template_power_of_two,
            top == first_generated(n, skip),
            exponent == power_of_two,
            d <= n,
            reduced_output_step == pow2(d),
            blend_ready(*blend),
            forall|view: &mut ReducedArrayWrapper<T>, rng: &mut Mcg128Xsl64|
                view.wf() && view@.n == power_of_two && view@.reduced_n == power_of_two
                    - n_iteration_difference ==> #[trigger] call_requires(*erode, (view, rng)),
            forall|view: &mut ReducedArrayWrapper<T>, rng: &mut Mcg128Xsl64| #[trigger]
                call_ensures(*erode, (view, rng), ()) ==> {
                    &&& final(view).array.wf()
                    &&& final(view).array@.same_shape(view.array@)
                    &&& *final(final(view).array) == *final(view.array)
                },
            i == pow2(e),
            e <= n,
            number_of_step_to_skip == if skip + e >= n {
                skip + e - n
            } else {
                0
            },
            damped <==> (e <= d && d < n),
            output.wf(),
            output@.is_square(pow2(n) + 1),
            stamped.wf(),
            stamped.same_shape(output@),
            samples_in_range(early),
            samples_in_range(late),
            !damped ==> run_post(stamped, output@, larger(top, e), e, false, *blend, early),
            !damped ==> rough == stamped && worn == stamped,
            damped ==> run_post(stamped, rough, larger(top, d), d, false, *blend, early),
            damped ==> worn.wf() && worn.same_shape(rough),
            damped ==> run_post(worn, output@, larger(smaller(top, d), e), e, true, *blend, late),
            damped ==> exists|view: &mut ReducedArrayWrapper<T>, rng: &mut Mcg128Xsl64|
                {
                    &&& #[trigger] call_ensures(*erode, (view, rng), ())
                    &&& view@ == (ReducedView {
                        backing: rough,
                        n: n,
                        reduced_n: (n - d) as nat,
                    })
                    &&& final(view).array@ == worn
                },
        decreases i,
    {
        proof {
            if e == 0 {
                lemma2_to64();
            }
            lemma_pow2_step(e);
            lemma_pow2_lattice_fits(n, e);
        }
        let id: usize = i / 2;
        let ghost current = output@;
        if number_of_step_to_skip == 0 {
            diamond_square_round(output, i, damped, rng, blend);
            proof {
                let round = choose|noise: spec_fn(int, int) -> i32|
                    samples_in_range(noise) && #[trigger] round_post(
                        current,
                        output@,
                        i as int,
                        damped,
                        *blend,
                        noise,
                    );
                if damped {
                    lemma_run_extend(
                        worn,
                        current,
                        output@,
                        larger(smaller(top, d), e),
                        e,
                        true,
                        *blend,
                        late,
                        round,
                    );
                    late = run_noise(pow2(e) as int, late, round);
                } else {
                    lemma_run_extend(
                        stamped,
                        current,
                        output@,
                        larger(top, e),
                        e,
                        false,
                        *blend,
                        early,
                        round,
                    );
                    early = run_noise(pow2(e) as int, early, round);
                }
            }
        } else {
            number_of_step_to_skip -= 1;
            proof {
                if damped {
                    lemma_run_level(worn, current, e, (e - 1) as nat, true, *blend, late);
                } else {
                    lemma_run_level(stamped, current, e, (e - 1) as nat, false, *blend, early);
                }
            }
        }
        i = id;
        proof {
            e = (e - 1) as nat;
        }
        if i == reduced_output_step {
            proof {
                lemma_pow2_injective(e, d);
            }
            let ghost unworn = output@;
            let mut view = ReducedArrayWrapper::new(
                output,
                exponent,
                exponent - n_iteration_difference,
            );
            erode(&mut view, rng);
            damped = true;
            proof {
                rough = unworn;
                worn = output@;
            }
        } else {
            proof {
                if e == d {
                    assert(false);
                }
            }
        }
    }
    proof {
        if e > 0 {
            lemma_pow2_step(e);
        }
        lemma_strided_pow2(n, d);
        if d >= n {
            rough = output@;
            worn = output@;
        }
        assert(generation_post(
            arr@,
            before,
            output@,
            stamped,
            rough,
            worn,
            n,
            d,
            skip,
            scaling as int,
            *blend,
            early,
            late,
        ));
    }
    subsample(output, reduced_output, reduced_output_step);
}

/// Template preservation. With the template stamped at stride `2^top`, where
/// `2^top` is the step of the first round that is not skipped, every stamped
/// cell still holds its template value when erosion starts, or at the end if
/// there is no erosion: the skipped rounds write nothing, and the rounds that
/// run write only between the stamped cells.
pub proof fn lemma_template_preserved<T, B: Fn(Midpoint<T>) -> T>(
    template: GridView<T>,
    before: GridView<T>,
    after: GridView<T>,
    stamped: GridView<T>,
    rough: GridView<T>,
    worn: GridView<T>,
    n: nat,
    d: nat,
    skip: nat,
    blend: B,
    early: spec_fn(int, int) -> i32,
    late: spec_fn(int, int) -> i32,
    i: int,
    j: int,
)
    requires
        d <= n,
        generation_post(
            template,
            before,
            after,
            stamped,
            rough,
            worn,
            n,
            d,
            skip,
            pow2(first_generated(n, skip)) as int,
            blend,
            early,
            late,
        ),
        template.contains(i, j),
        before.contains(
            i * pow2(first_generated(n, skip)),
            j * pow2(first_generated(n, skip)),
        ),
    ensures
        rough.at(i * pow2(first_generated(n, skip)), j * pow2(first_generated(n, skip)))
            == template.at(i, j),
{
    let top = first_generated(n, skip);
    let scaling = pow2(top) as int;
    lemma_pow2_pos(top);
    lemma_stamped_position(scaling, i, j);
    if d < n {
        if top >= d {
            lemma_run_keeps_corners(
                stamped,
                rough,
                top,
                d,
                false,
                blend,
                early,
                i * scaling,
                j * scaling,
            );
        } else {
            assert(rough.at(i * scaling, j * scaling) == stamped.at(i * scaling, j * scaling));
        }
    } else {
        lemma_run_keeps_corners(stamped, after, top, 0, false, blend, early, i * scaling, j * scaling);
    }
}

/// Stamping has one result.
pub proof fn lemma_stamp_is_determined<T>(
    template: GridView<T>,
    before: GridView<T>,
    first: GridView<T>,
    second: GridView<T>,
    scaling: int,
)
    requires
        stamp_post(template, before, first, scaling),
        stamp_post(template, before, second, scaling),
    ensures
        first == second,
{
    assert forall|x: int, y: int| first.contains(x, y) implies #[trigger] first.at(x, y)
        == second.at(x, y) by {}
    lemma_grids_equal(first, second);
}

/// Subsampling has one result.
pub proof fn lemma_subsample_is_determined<T>(
    source: GridView<T>,
    before: GridView<T>,
    first: GridView<T>,
    second: GridView<T>,
    stride: int,
)
    requires
        subsample_post(source, before, first, stride),
        subsample_post(source, before, second, stride),
    ensures
        first == second,
{
    assert forall|x: int, y: int| first.contains(x, y) implies #[trigger] first.at(x, y)
        == second.at(x, y) by {}
    lemma_grids_equal(first, second);
}

/// The generator adds no chance of its own. Two generations from the same
/// template and the same grid, with the same exponents, a blend function that
/// returns one value for one input, the same noise samples, and an erosion
/// pass that makes one thing of one grid, end in the same fine grid, having
/// passed through the same grids on the way.
pub proof fn lemma_generation_is_determined<T, B: Fn(Midpoint<T>) -> T>(
    template: GridView<T>,
    before: GridView<T>,
    first: GridView<T>,
    second: GridView<T>,
    first_stamped: GridView<T>,
    second_stamped: GridView<T>,
    first_rough: GridView<T>,
    second_rough: GridView<T>,
    first_worn: GridView<T>,
    second_worn: GridView<T>,
    n: nat,
    d: nat,
    skip: nat,
    scaling: int,
    blend: B,
    early: spec_fn(int, int) -> i32,
    late: spec_fn(int, int) -> i32,
)
    requires
        blend_is_function(blend),
        generation_post(
            template,
            before,
            first,
            first_stamped,
            first_rough,
            first_worn,
            n,
            d,
            skip,
            scaling,
            blend,
            early,
            late,
        ),
        generation_post(
            template,
            before,
            second,
            second_stamped,
            second_rough,
            second_worn,
            n,
            d,
            skip,
            scaling,
            blend,
            early,
            late,
        ),
        first_rough == second_rough ==> first_worn == second_worn,
    ensures
        first_stamped == second_stamped,
        first_rough == second_rough,
        first_worn == second_worn,
        first == second,
{
    let top = first_generated(n, skip);
    lemma_stamp_is_determined(template, before, first_stamped, second_stamped, scaling);
    if d < n {
        lemma_run_is_determined(
            first_stamped,
            first_rough,
            second_rough,
            larger(top, d),
            d,
            false,
            blend,
            early,
        );
        lemma_run_is_determined(first_worn, first, second, smaller(top, d), 0, true, blend, late);
    } else {
        lemma_run_is_determined(first_stamped, first, second, top, 0, false, blend, early);
    }
}

/// Template preservation to the end. Where erosion has left a stamped cell as
/// it was, the cell holds its template value in the finished grid: no round,
/// skipped or run, before erosion or after it, writes a stamped cell.
pub proof fn lemma_template_kept_to_the_end<T, B: Fn(Midpoint<T>) -> T>(
    template: GridView<T>,
    before: GridView<T>,
    after: GridView<T>,
    stamped: GridView<T>,
    rough: GridView<T>,
    worn: GridView<T>,
    n: nat,
    d: nat,
    skip: nat,
    blend: B,
    early: spec_fn(int, int) -> i32,
    late: spec_fn(int, int) -> i32,
    i: int,
    j: int,
)
    requires
        d <= n,
        generation_post(
            template,
            before,
            after,
            stamped,
            rough,
            worn,
            n,
            d,
            skip,
            pow2(first_generated(n, skip)) as int,
            blend,
            early,
            late,
        ),
        template.contains(i, j),
        before.contains(
            i * pow2(first_generated(n, skip)),
            j * pow2(first_generated(n, skip)),
        ),
        worn.at(i * pow2(first_generated(n, skip)), j * pow2(first_generated(n, skip)))
            == rough.at(i * pow2(first_generated(n, skip)), j * pow2(first_generated(n, skip))),
    ensures
        after.at(i * pow2(first_generated(n, skip)), j * pow2(first_generated(n, skip)))
            == template.at(i, j),
{
    let top = first_generated(n, skip);
    let scaling = pow2(top) as int;
    lemma_template_preserved(
        template,
        before,
        after,
        stamped,
        rough,
        worn,
        n,
        d,
        skip,
        blend,
        early,
        late,
        i,
        j,
    );
    lemma_pow2_pos(top);
    lemma_stamped_position(scaling, i, j);
    if d < n {
        lemma_corner_refines(top, smaller(top, d), i * scaling, j * scaling);
        lemma_run_keeps_corners(
            worn,
            after,
            smaller(top, d),
            0,
            true,
            blend,
            late,
            i * scaling,
            j * scaling,
        );
    }
}

/// A template as wide as the grid is the result. With the template exponent
/// equal to the grid's, the stride is one, every round is skipped, and where
/// erosion changes nothing the finished grid is the template.
pub proof fn lemma_whole_template_is_the_result<T, B: Fn(Midpoint<T>) -> T>(
    template: GridView<T>,
    before: GridView<T>,
    after: GridView<T>,
    stamped: GridView<T>,
    rough: GridView<T>,
    worn: GridView<T>,
    n: nat,
    d: nat,
    blend: B,
    early: spec_fn(int, int) -> i32,
    late: spec_fn(int, int) -> i32,
)
    requires
        d <= n,
        template.wf(),
        template.same_shape(before),
        generation_post(
            template,
            before,
            after,
            stamped,
            rough,
            worn,
            n,
            d,
            n,
            1,
            blend,
            early,
            late,
        ),
        worn == rough,
    ensures
        after == template,
{
    assert forall|x: int, y: int| stamped.contains(x, y) implies #[trigger] stamped.at(x, y)
        == template.at(x, y) by {
        lemma_stamped_position(1, x, y);
    }
    lemma_grids_equal(stamped, template);
    if d < n {
        assert forall|x: int, y: int| rough.contains(x, y) implies #[trigger] rough.at(x, y)
            == stamped.at(x, y) by {}
        lemma_grids_equal(rough, stamped);
        assert forall|x: int, y: int| after.contains(x, y) implies #[trigger] after.at(x, y)
            == worn.at(x, y) by {}
        lemma_grids_equal(after, worn);
    } else {
        assert forall|x: int, y: int| after.contains(x, y) implies #[trigger] after.at(x, y)
            == stamped.at(x, y) by {}
        lemma_grids_equal(after, stamped);
    }
}

/// Without irregularity the generator does not depend on the random stream.
/// With a blend function that returns one value for one input and makes
/// nothing of the noise sample, two generations from the same template and
/// the same grid, whatever samples each has drawn, end in the same fine grid,
/// provided that erosion makes one thing of one grid.
pub proof fn lemma_generation_ignores_samples<T, B: Fn(Midpoint<T>) -> T>(
    template: GridView<T>,
    before: GridView<T>,
    first: GridView<T>,
    second: GridView<T>,
    first_stamped: GridView<T>,
    second_stamped: GridView<T>,
    first_rough: GridView<T>,
    second_rough: GridView<T>,
    first_worn: GridView<T>,
    second_worn: GridView<T>,
    n: nat,
    d: nat,
    skip: nat,
    scaling: int,
    blend: B,
    first_early: spec_fn(int, int) -> i32,
    first_late: spec_fn(int, int) -> i32,
    second_early: spec_fn(int, int) -> i32,
    second_late: spec_fn(int, int) -> i32,
)
    requires
        blend_is_function(blend),
        blend_ignores_samples(blend),
        generation_post(
            template,
            before,
            first,
            first_stamped,
            first_rough,
            first_worn,
            n,
            d,
            skip,
            scaling,
            blend,
            first_early,
            first_late,
        ),
        generation_post(
            template,
            before,
            second,
            second_stamped,
            second_rough,
            second_worn,
            n,
            d,
            skip,
            scaling,
            blend,
            second_early,
            second_late,
        ),
        first_rough == second_rough ==> first_worn == second_worn,
    ensures
        first_rough == second_rough,
        first_worn == second_worn,
        first == second,
{
    let top = first_generated(n, skip);
    if d < n {
        lemma_run_ignores_samples(
            second_stamped,
            second_rough,
            larger(top, d),
            d,
            false,
            blend,
            second_early,
            first_early,
        );
        lemma_run_ignores_samples(
            second_worn,
            second,
            smaller(top, d),
            0,
            true,
            blend,
            second_late,
            first_late,
        );
    } else {
        lemma_run_ignores_samples(
            second_stamped,
            second,
            top,
            0,
            false,
            blend,
            second_early,
            first_early,
        );
    }
    lemma_generation_is_determined(
        template,
        before,
        first,
        second,
        first_stamped,
        second_stamped,
        first_rough,
        second_rough,
        first_worn,
        second_worn,
        n,
        d,
        skip,
        scaling,
        blend,
        first_early,
        first_late,
    );
}

} // verus!
