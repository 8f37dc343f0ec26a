//! The lives of droplets on a view: where a droplet is, which cells it reads,
//! which it wears and which it fills. What a droplet does with the heights it
//! reads is the caller's physics, given as plain functions.
//!
//! In one step of its life a droplet reads the four cells around it and
//! travels; it reads the four cells around its new place and settles what it
//! erodes and what it deposits; it wears the cells in reach of its old place,
//! and fills the four cells around its old place.

use vstd::prelude::*;
use rand_pcg::Mcg128Xsl64;
use crate::grid::{Arr2d, GridView};
use crate::random::next_random_number;
use crate::erosion::{
    Corners,
    RelativePoint,
    corner_heights,
    corners_at,
    deposit,
    deposit_post,
    wear_cells,
    wear_post,
    lemma_deposit_stays_at_corners,
    lemma_wear_keeps_shape,
    lemma_wear_stays_in_reach,
};
use crate::reduced::{ReducedArrayWrapper, ReducedView};

verus! {

/// A droplet: the cell that it is in, and what the physics keeps of it.
#[derive(Clone, Copy)]
pub struct Droplet<S> {
    pub arr_pos_x: usize,
    pub arr_pos_y: usize,
    pub state: S,
}

/// What a droplet that has travelled does to the terrain: whether it wears the
/// cells in reach of the place it left, which share of its deposit each of the
/// four cells around that place receives, and the droplet as it goes on.
pub struct Settlement<S, A> {
    pub droplet: Droplet<S>,
    pub erodes: bool,
    pub shares: Corners<A>,
}

/// The heights that a droplet runs on: those of a view of their own, or those
/// of the field that it wears and fills.
pub open spec fn heights_of<T>(separate: Option<ReducedView<T>>, field: ReducedView<T>) -> ReducedView<
    T,
> {
    match separate {
        Some(heights) => heights,
        None => field,
    }
}

/// What a droplet that has settled makes of the field `before`: the cells in
/// reach of `(x, y)` are worn if it erodes, the four cells around `(x, y)` are
/// filled, and the droplet goes on with what it has taken up.
pub open spec fn settled_post<T, W, S, A, Ta: Fn(T, W, Droplet<S>) -> (T, Droplet<S>), Fi: Fn(T, A) -> T>(
    before: ReducedView<T>,
    x: int,
    y: int,
    plan: Settlement<S, A>,
    after: ReducedView<T>,
    outcome: Option<Droplet<S>>,
    table: Seq<RelativePoint<W>>,
    take: Ta,
    fill: Fi,
) -> bool {
    exists|worn: ReducedView<T>, carried: Droplet<S>|
        {
            &&& #[trigger] worn_post(before, x, y, plan, worn, carried, table, take)
            &&& deposit_post(worn, after, x, y, plan.shares, fill)
            &&& outcome == Some(carried)
        }
}

/// The field and the droplet after the wearing that a settlement asks for.
pub open spec fn worn_post<T, W, S, A, Ta: Fn(T, W, Droplet<S>) -> (T, Droplet<S>)>(
    before: ReducedView<T>,
    x: int,
    y: int,
    plan: Settlement<S, A>,
    worn: ReducedView<T>,
    carried: Droplet<S>,
    table: Seq<RelativePoint<W>>,
    take: Ta,
) -> bool {
    if plan.erodes {
        wear_post(before, plan.droplet, worn, carried, table, table.len() as int, x, y, take)
    } else {
        worn == before && carried == plan.droplet
    }
}

/// What a droplet that has travelled makes of the field: nothing, if it has
/// stopped or left the part of the grid where four cells surround it;
/// otherwise what its settlement asks for.
pub open spec fn moved_post<
    T,
    W,
    S,
    A,
    Se: Fn(Droplet<S>, Droplet<S>, Corners<T>, Corners<T>) -> Settlement<S, A>,
    Ta: Fn(T, W, Droplet<S>) -> (T, Droplet<S>),
    Fi: Fn(T, A) -> T,
>(
    heights: ReducedView<T>,
    before: ReducedView<T>,
    droplet: Droplet<S>,
    here: Corners<T>,
    moved: Option<Droplet<S>>,
    after: ReducedView<T>,
    outcome: Option<Droplet<S>>,
    table: Seq<RelativePoint<W>>,
    settle: Se,
    take: Ta,
    fill: Fi,
) -> bool {
    match moved {
        None => outcome.is_none() && after == before,
        Some(next) => match corners_at(heights, next.arr_pos_x as int, next.arr_pos_y as int) {
            None => outcome.is_none() && after == before,
            Some(there) => exists|plan: Settlement<S, A>|
                {
                    &&& #[trigger] call_ensures(settle, (droplet, next, here, there), plan)
                    &&& settled_post(
                        before,
                        droplet.arr_pos_x as int,
                        droplet.arr_pos_y as int,
                        plan,
                        after,
                        outcome,
                        table,
                        take,
                        fill,
                    )
                },
        },
    }
}

/// What one step of a droplet's life makes of the field `before`: `after` is
/// the field and `outcome` the droplet as it goes on, or `None` when its life
/// has ended.
pub open spec fn step_post<
    T,
    W,
    S,
    A,
    Tr: Fn(Droplet<S>, Corners<T>) -> Option<Droplet<S>>,
    Se: Fn(Droplet<S>, Droplet<S>, Corners<T>, Corners<T>) -> Settlement<S, A>,
    Ta: Fn(T, W, Droplet<S>) -> (T, Droplet<S>),
    Fi: Fn(T, A) -> T,
>(
    heights: ReducedView<T>,
    before: ReducedView<T>,
    droplet: Droplet<S>,
    after: ReducedView<T>,
    outcome: Option<Droplet<S>>,
    table: Seq<RelativePoint<W>>,
    travel: Tr,
    settle: Se,
    take: Ta,
    fill: Fi,
) -> bool {
    match corners_at(heights, droplet.arr_pos_x as int, droplet.arr_pos_y as int) {
        None => outcome.is_none() && after == before,
        Some(here) => exists|moved: Option<Droplet<S>>|
            {
                &&& #[trigger] call_ensures(travel, (droplet, here), moved)
                &&& moved_post(
                    heights,
                    before,
                    droplet,
                    here,
                    moved,
                    after,
                    outcome,
                    table,
                    settle,
                    take,
                    fill,
                )
            },
    }
}

/// One step of a droplet's life changes no cell of the field but those in
/// reach of the droplet's cell and the four around it: two droplets that are
/// far enough apart do not touch the same cells.
pub proof fn lemma_step_stays_near<
    T,
    W,
    S,
    A,
    Tr: Fn(Droplet<S>, Corners<T>) -> Option<Droplet<S>>,
    Se: Fn(Droplet<S>, Droplet<S>, Corners<T>, Corners<T>) -> Settlement<S, A>,
    Ta: Fn(T, W, Droplet<S>) -> (T, Droplet<S>),
    Fi: Fn(T, A) -> T,
>(
    heights: ReducedView<T>,
    before: ReducedView<T>,
    droplet: Droplet<S>,
    after: ReducedView<T>,
    outcome: Option<Droplet<S>>,
    table: Seq<RelativePoint<W>>,
    travel: Tr,
    settle: Se,
    take: Ta,
    fill: Fi,
    cx: int,
    cy: int,
)
    requires
        before.wf(),
        heights.reduced_n == before.reduced_n,
        step_post(heights, before, droplet, after, outcome, table, travel, settle, take, fill),
        before.covers(cx, cy),
        forall|k: int|
            0 <= k < table.len() ==> !(droplet.arr_pos_x + (#[trigger] table[k]).dx == cx
                && droplet.arr_pos_y + table[k].dy == cy),
        !((cx == droplet.arr_pos_x || cx == droplet.arr_pos_x + 1) && (cy == droplet.arr_pos_y
            || cy == droplet.arr_pos_y + 1)),
    ensures
        after.at(cx, cy) == before.at(cx, cy),
{
    let x = droplet.arr_pos_x as int;
    let y = droplet.arr_pos_y as int;
    match corners_at(heights, x, y) {
        None => {},
        Some(here) => {
            let moved = choose|moved: Option<Droplet<S>>|
                {
                    &&& #[trigger] call_ensures(travel, (droplet, here), moved)
                    &&& moved_post(
                        heights,
                        before,
                        droplet,
                        here,
                        moved,
                        after,
                        outcome,
                        table,
                        settle,
                        take,
                        fill,
                    )
                };
            match moved {
                None => {},
                Some(next) => match corners_at(
                    heights,
                    next.arr_pos_x as int,
                    next.arr_pos_y as int,
                ) {
                    None => {},
                    Some(there) => {
                        let plan = choose|plan: Settlement<S, A>|
                            {
                                &&& #[trigger] call_ensures(
                                    settle,
                                    (droplet, next, here, there),
                                    plan,
                                )
                                &&& settled_post(
                                    before,
                                    x,
                                    y,
                                    plan,
                                    after,
                                    outcome,
                                    table,
                                    take,
                                    fill,
                                )
                            };
                        let (worn, carried) = choose|worn: ReducedView<T>, carried: Droplet<S>|
                            {
                                &&& #[trigger] worn_post(
                                    before,
                                    x,
                                    y,
                                    plan,
                                    worn,
                                    carried,
                                    table,
                                    take,
                                )
                                &&& deposit_post(worn, after, x, y, plan.shares, fill)
                                &&& outcome == Some(carried)
                            };
                        if plan.erodes {
                            lemma_wear_keeps_shape(
                                before,
                                plan.droplet,
                                worn,
                                carried,
                                table,
                                table.len() as int,
                                x,
                                y,
                                take,
                            );
                            lemma_wear_stays_in_reach(
                                before,
                                plan.droplet,
                                worn,
                                carried,
                                table,
                                table.len() as int,
                                x,
                                y,
                                take,
                                cx,
                                cy,
                            );
                        }
                        lemma_deposit_stays_at_corners(
                            worn,
                            after,
                            x,
                            y,
                            plan.shares,
                            fill,
                            cx,
                            cy,
                        );
                    },
                },
            }
        },
    }
}

/// The physics accepts whatever the engine hands to it.
pub open spec fn physics_ready<
    T,
    W,
    S,
    A,
    Tr: Fn(Droplet<S>, Corners<T>) -> Option<Droplet<S>>,
    Se: Fn(Droplet<S>, Droplet<S>, Corners<T>, Corners<T>) -> Settlement<S, A>,
    Ta: Fn(T, W, Droplet<S>) -> (T, Droplet<S>),
    Fi: Fn(T, A) -> T,
>(travel: Tr, settle: Se, take: Ta, fill: Fi) -> bool {
    &&& forall|droplet: Droplet<S>, here: Corners<T>| #[trigger] call_requires(travel, (droplet, here))
    &&& forall|droplet: Droplet<S>, next: Droplet<S>, here: Corners<T>, there: Corners<T>| #[trigger]
        call_requires(settle, (droplet, next, here, there))
    &&& forall|value: T, weight: W, droplet: Droplet<S>| #[trigger]
        call_requires(take, (value, weight, droplet))
    &&& forall|value: T, share: A| #[trigger] call_requires(fill, (value, share))
}

/// One step of a droplet's life on `field`. The droplet runs on the heights of
/// `heights`, or on those of the field itself where no other view is given.
pub fn droplet_step<
    T: Copy,
    W: Copy,
    S: Copy,
    A,
    Tr: Fn(Droplet<S>, Corners<T>) -> Option<Droplet<S>>,
    Se: Fn(Droplet<S>, Droplet<S>, Corners<T>, Corners<T>) -> Settlement<S, A>,
    Ta: Fn(T, W, Droplet<S>) -> (T, Droplet<S>),
    Fi: Fn(T, A) -> T,
>(
    field: &mut ReducedArrayWrapper<T>,
    heights: Option<&ReducedArrayWrapper<T>>,
    droplet: Droplet<S>,
    relative_points_table: &Vec<RelativePoint<W>>,
    travel: &Tr,
    settle: &Se,
    take: &Ta,
    fill: &Fi,
) -> (outcome: Option<Droplet<S>>)
    requires
        old(field).wf(),
        old(field)@.reduced_width() <= i32::MAX,
        match heights {
            Some(other) => other.wf() && other@.reduced_n == old(field)@.reduced_n,
            None => true,
        },
        physics_ready(*travel, *settle, *take, *fill),
    ensures
        final(field).wf(),
        final(field)@.n == old(field)@.n,
        final(field)@.reduced_n == old(field)@.reduced_n,
        final(field)@.backing.same_shape(old(field)@.backing),
        *final(final(field).array) == *final(old(field).array),
        step_post(
            heights_of(
                match heights {
                    Some(other) => Some(other@),
                    None => None,
                },
                old(field)@,
            ),
            old(field)@,
            droplet,
            final(field)@,
            outcome,
            relative_points_table@,
            *travel,
            *settle,
            *take,
            *fill,
        ),
{
    let ghost before = field@;
    let x: usize = droplet.arr_pos_x;
    let y: usize = droplet.arr_pos_y;
    let here = match heights {
        Some(other) => corner_heights(other, x, y),
        None => corner_heights(field, x, y),
    };
    match here {
        None => None,
        Some(here) => {
            match travel(droplet, here) {
                None => None,
                Some(next) => {
                    let there = match heights {
                        Some(other) => corner_heights(other, next.arr_pos_x, next.arr_pos_y),
                        None => corner_heights(field, next.arr_pos_x, next.arr_pos_y),
                    };
                    match there {
                        None => None,
                        Some(there) => {
                            let plan = settle(droplet, next, here, there);
                            let ghost planned = plan;
                            let Settlement { droplet: settled, erodes, shares } = plan;
                            let carried = if erodes {
                                wear_cells(
                                    field,
                                    relative_points_table,
                                    x as i32,
                                    y as i32,
                                    settled,
                                    take,
                                )
                            } else {
                                settled
                            };
                            proof {
                                if erodes {
                                    lemma_wear_keeps_shape(
                                        before,
                                        settled,
                                        field@,
                                        carried,
                                        relative_points_table@,
                                        relative_points_table@.len() as int,
                                        x as int,
                                        y as int,
                                        *take,
                                    );
                                }
                                assert(worn_post(
                                    before,
                                    x as int,
                                    y as int,
                                    planned,
                                    field@,
                                    carried,
                                    relative_points_table@,
                                    *take,
                                ));
                            }
                            deposit(field, x, y, shares, fill);
                            Some(carried)
                        },
                    }
                },
            }
        },
    }
}

/// The link between two steps of a life: a droplet whose life has ended stays
/// ended and changes nothing, and one that goes on takes a step.
pub open spec fn life_link<
    T,
    W,
    S,
    A,
    Tr: Fn(Droplet<S>, Corners<T>) -> Option<Droplet<S>>,
    Se: Fn(Droplet<S>, Droplet<S>, Corners<T>, Corners<T>) -> Settlement<S, A>,
    Ta: Fn(T, W, Droplet<S>) -> (T, Droplet<S>),
    Fi: Fn(T, A) -> T,
>(
    separate: Option<ReducedView<T>>,
    mid: ReducedView<T>,
    previous: Option<Droplet<S>>,
    after: ReducedView<T>,
    outcome: Option<Droplet<S>>,
    table: Seq<RelativePoint<W>>,
    travel: Tr,
    settle: Se,
    take: Ta,
    fill: Fi,
) -> bool {
    match previous {
        None => after == mid && outcome.is_none(),
        Some(droplet) => step_post(
            heights_of(separate, mid),
            mid,
            droplet,
            after,
            outcome,
            table,
            travel,
            settle,
            take,
            fill,
        ),
    }
}

/// What the first `steps` steps of a droplet's life make of the field `start`.
pub open spec fn life_post<
    T,
    W,
    S,
    A,
    Tr: Fn(Droplet<S>, Corners<T>) -> Option<Droplet<S>>,
    Se: Fn(Droplet<S>, Droplet<S>, Corners<T>, Corners<T>) -> Settlement<S, A>,
    Ta: Fn(T, W, Droplet<S>) -> (T, Droplet<S>),
    Fi: Fn(T, A) -> T,
>(
    separate: Option<ReducedView<T>>,
    start: ReducedView<T>,
    droplet: Droplet<S>,
    after: ReducedView<T>,
    outcome: Option<Droplet<S>>,
    steps: nat,
    table: Seq<RelativePoint<W>>,
    travel: Tr,
    settle: Se,
    take: Ta,
    fill: Fi,
) -> bool
    decreases steps,
{
    if steps == 0 {
        after == start && outcome == Some(droplet)
    } else {
        exists|mid: ReducedView<T>, previous: Option<Droplet<S>>|
            {
                &&& #[trigger] life_link(
                    separate,
                    mid,
                    previous,
                    after,
                    outcome,
                    table,
                    travel,
                    settle,
                    take,
                    fill,
                )
                &&& life_post(
                    separate,
                    start,
                    droplet,
                    mid,
                    previous,
                    (steps - 1) as nat,
                    table,
                    travel,
                    settle,
                    take,
                    fill,
                )
            }
    }
}

/// A life that has ended after some steps has ended after any larger number
/// of steps, with the same field.
pub proof fn lemma_life_stays_ended<
    T,
    W,
    S,
    A,
    Tr: Fn(Droplet<S>, Corners<T>) -> Option<Droplet<S>>,
    Se: Fn(Droplet<S>, Droplet<S>, Corners<T>, Corners<T>) -> Settlement<S, A>,
    Ta: Fn(T, W, Droplet<S>) -> (T, Droplet<S>),
    Fi: Fn(T, A) -> T,
>(
    separate: Option<ReducedView<T>>,
    start: ReducedView<T>,
    droplet: Droplet<S>,
    after: ReducedView<T>,
    steps: nat,
    later: nat,
    table: Seq<RelativePoint<W>>,
    travel: Tr,
    settle: Se,
    take: Ta,
    fill: Fi,
)
    requires
        steps <= later,
        life_post(
            separate,
            start,
            droplet,
            after,
            None,
            steps,
            table,
            travel,
            settle,
            take,
            fill,
        ),
    ensures
        life_post(separate, start, droplet, after, None, later, table, travel, settle, take, fill),
    decreases later - steps,
{
    if steps < later {
        lemma_life_stays_ended(
            separate,
            start,
            droplet,
            after,
            steps,
            (later - 1) as nat,
            table,
            travel,
            settle,
            take,
            fill,
        );
        assert(life_link(
            separate,
            after,
            None::<Droplet<S>>,
            after,
            None::<Droplet<S>>,
            table,
            travel,
            settle,
            take,
            fill,
        ));
    }
}

/// The whole life of a droplet on `field`, of at most `lifetime` steps.
/// Returns the droplet as it is after its last step, or `None` if its life
/// ended before.
pub fn run_droplet<
    T: Copy,
    W: Copy,
    S: Copy,
    A,
    Tr: Fn(Droplet<S>, Corners<T>) -> Option<Droplet<S>>,
    Se: Fn(Droplet<S>, Droplet<S>, Corners<T>, Corners<T>) -> Settlement<S, A>,
    Ta: Fn(T, W, Droplet<S>) -> (T, Droplet<S>),
    Fi: Fn(T, A) -> T,
>(
    field: &mut ReducedArrayWrapper<T>,
    heights: Option<&ReducedArrayWrapper<T>>,
    droplet: Droplet<S>,
    lifetime: usize,
    relative_points_table: &Vec<RelativePoint<W>>,
    travel: &Tr,
    settle: &Se,
    take: &Ta,
    fill: &Fi,
) -> (outcome: Option<Droplet<S>>)
    requires
        old(field).wf(),
        old(field)@.reduced_width() <= i32::MAX,
        match heights {
            Some(other) => other.wf() && other@.reduced_n == old(field)@.reduced_n,
            None => true,
        },
        physics_ready(*travel, *settle, *take, *fill),
    ensures
        final(field).wf(),
        final(field)@.n == old(field)@.n,
        final(field)@.reduced_n == old(field)@.reduced_n,
        final(field)@.backing.same_shape(old(field)@.backing),
        *final(final(field).array) == *final(old(field).array),
        life_post(
            match heights {
                Some(other) => Some(other@),
                None => None,
            },
            old(field)@,
            droplet,
            final(field)@,
            outcome,
            lifetime as nat,
            relative_points_table@,
            *travel,
            *settle,
            *take,
            *fill,
        ),
{
    let ghost start = field@;
    let ghost separate = match heights {
        Some(other) => Some(other@),
        None => None,
    };
    let mut current: Option<Droplet<S>> = Some(droplet);
    let mut life: usize = 0;
    while life < lifetime && current.is_some()
        invariant
            life <= lifetime,
            field.wf(),
            field@.reduced_width() <= i32::MAX,
            field@.n == start.n,
            field@.reduced_n == start.reduced_n,
            field@.backing.same_shape(start.backing),
            *final(field.array) == *final(old(field).array),
            match heights {
                Some(other) => other.wf() && other@.reduced_n == field@.reduced_n,
                None => true,
            },
            separate == match heights {
                Some(other) => Some(other@),
                None => None,
            },
            physics_ready(*travel, *settle, *take, *fill),
            life_post(
                separate,
                start,
                droplet,
                field@,
                current,
                life as nat,
                relative_points_table@,
                *travel,
                *settle,
                *take,
                *fill,
            ),
        decreases lifetime - life,
    {
        let ghost mid = field@;
        let ghost previous = current;
        match current {
            Some(living) => {
                current =
                droplet_step(field, heights, living, relative_points_table, travel, settle, take, fill);
            },
            None => {},
        }
        life += 1;
        proof {
            assert(life_link(
                separate,
                mid,
                previous,
                field@,
                current,
                relative_points_table@,
                *travel,
                *settle,
                *take,
                *fill,
            ));
        }
    }
    proof {
        if current.is_none() {
            lemma_life_stays_ended(
                separate,
                start,
                droplet,
                field@,
                life as nat,
                lifetime as nat,
                relative_points_table@,
                *travel,
                *settle,
                *take,
                *fill,
            );
        }
    }
    current
}

/// What one droplet makes of the field `mid`: it starts on the cell
/// `(px, py)`, which has a cell to its right and a cell below it, as the
/// droplet that `spawn` returns for that cell, and lives for at most
/// `lifetime` steps.
pub open spec fn droplet_post<
    T,
    W,
    S,
    A,
    Sp: Fn(u32, u32) -> Droplet<S>,
    Tr: Fn(Droplet<S>, Corners<T>) -> Option<Droplet<S>>,
    Se: Fn(Droplet<S>, Droplet<S>, Corners<T>, Corners<T>) -> Settlement<S, A>,
    Ta: Fn(T, W, Droplet<S>) -> (T, Droplet<S>),
    Fi: Fn(T, A) -> T,
>(
    separate: Option<ReducedView<T>>,
    mid: ReducedView<T>,
    px: u32,
    py: u32,
    droplet: Droplet<S>,
    after: ReducedView<T>,
    outcome: Option<Droplet<S>>,
    lifetime: nat,
    table: Seq<RelativePoint<W>>,
    spawn: Sp,
    travel: Tr,
    settle: Se,
    take: Ta,
    fill: Fi,
) -> bool {
    &&& px < mid.reduced_width() - 1
    &&& py < mid.reduced_width() - 1
    &&& call_ensures(spawn, (px, py), droplet)
    &&& life_post(
        separate,
        mid,
        droplet,
        after,
        outcome,
        lifetime,
        table,
        travel,
        settle,
        take,
        fill,
    )
}

/// A droplet starts in the interior: the cell that is drawn for it has four
/// cells around it, on every view of the logical size.
pub proof fn lemma_start_is_inside<T>(heights: ReducedView<T>, px: u32, py: u32)
    requires
        px < heights.reduced_width() - 1,
        py < heights.reduced_width() - 1,
    ensures
        corners_at(heights, px as int, py as int).is_some(),
{
}

/// What `iterations` droplets, one after the other, make of the field `start`.
pub open spec fn erosion_post<
    T,
    W,
    S,
    A,
    Sp: Fn(u32, u32) -> Droplet<S>,
    Tr: Fn(Droplet<S>, Corners<T>) -> Option<Droplet<S>>,
    Se: Fn(Droplet<S>, Droplet<S>, Corners<T>, Corners<T>) -> Settlement<S, A>,
    Ta: Fn(T, W, Droplet<S>) -> (T, Droplet<S>),
    Fi: Fn(T, A) -> T,
>(
    separate: Option<ReducedView<T>>,
    start: ReducedView<T>,
    after: ReducedView<T>,
    iterations: nat,
    lifetime: nat,
    table: Seq<RelativePoint<W>>,
    spawn: Sp,
    travel: Tr,
    settle: Se,
    take: Ta,
    fill: Fi,
) -> bool
    decreases iterations,
{
    if iterations == 0 {
        after == start
    } else {
        exists|
            mid: ReducedView<T>,
            px: u32,
            py: u32,
            droplet: Droplet<S>,
            outcome: Option<Droplet<S>>,
        |
            {
                &&& #[trigger] droplet_post(
                    separate,
                    mid,
                    px,
                    py,
                    droplet,
                    after,
                    outcome,
                    lifetime,
                    table,
                    spawn,
                    travel,
                    settle,
                    take,
                    fill,
                )
                &&& erosion_post(
                    separate,
                    start,
                    mid,
                    (iterations - 1) as nat,
                    lifetime,
                    table,
                    spawn,
                    travel,
                    settle,
                    take,
                    fill,
                )
            }
    }
}

/// Droplets on `field`, one after the other, each started on a cell that is
/// drawn from the generator.
fn run_droplets<
    T: Copy,
    W: Copy,
    S: Copy,
    A,
    Sp: Fn(u32, u32) -> Droplet<S>,
    Tr: Fn(Droplet<S>, Corners<T>) -> Option<Droplet<S>>,
    Se: Fn(Droplet<S>, Droplet<S>, Corners<T>, Corners<T>) -> Settlement<S, A>,
    Ta: Fn(T, W, Droplet<S>) -> (T, Droplet<S>),
    Fi: Fn(T, A) -> T,
>(
    field: &mut ReducedArrayWrapper<T>,
    heights: Option<&ReducedArrayWrapper<T>>,
    rng: &mut Mcg128Xsl64,
    relative_points_table: &Vec<RelativePoint<W>>,
    number_of_erosion_iterations: u32,
    initial_lifetime: usize,
    spawn: &Sp,
    travel: &Tr,
    settle: &Se,
    take: &Ta,
    fill: &Fi,
)
    requires
        old(field).wf(),
        old(field)@.reduced_width() <= i32::MAX,
        match heights {
            Some(other) => other.wf() && other@.reduced_n == old(field)@.reduced_n,
            None => true,
        },
        forall|px: u32, py: u32| #[trigger] call_requires(*spawn, (px, py)),
        physics_ready(*travel, *settle, *take, *fill),
    ensures
        final(field).wf(),
        final(field)@.n == old(field)@.n,
        final(field)@.reduced_n == old(field)@.reduced_n,
        final(field)@.backing.same_shape(old(field)@.backing),
        *final(final(field).array) == *final(old(field).array),
        erosion_post(
            match heights {
                Some(other) => Some(other@),
                None => None,
            },
            old(field)@,
            final(field)@,
            number_of_erosion_iterations as nat,
            initial_lifetime as nat,
            relative_points_table@,
            *spawn,
            *travel,
            *settle,
            *take,
            *fill,
        ),
{
    let ghost start = field@;
    let ghost separate = match heights {
        Some(other) => Some(other@),
        None => None,
    };
    let array_max_index: u32 = (field.get_reduced_width() - 1) as u32;
    proof {
        vstd::arithmetic::power2::lemma_pow2_pos(field@.reduced_n);
    }
    let mut iteration: u32 = 0;
    while iteration < number_of_erosion_iterations
        invariant
            iteration <= number_of_erosion_iterations,
            field.wf(),
            field@.reduced_width() <= i32::MAX,
            array_max_index == field@.reduced_width() - 1,
            array_max_index >= 1,
            field@.n == start.n,
            field@.reduced_n == start.reduced_n,
            field@.backing.same_shape(start.backing),
            *final(field.array) == *final(old(field).array),
            match heights {
                Some(other) => other.wf() && other@.reduced_n == field@.reduced_n,
                None => true,
            },
            separate == match heights {
                Some(other) => Some(other@),
                None => None,
            },
            forall|px: u32, py: u32| #[trigger] call_requires(*spawn, (px, py)),
            physics_ready(*travel, *settle, *take, *fill),
            erosion_post(
                separate,
                start,
                field@,
                iteration as nat,
                initial_lifetime as nat,
                relative_points_table@,
                *spawn,
                *travel,
                *settle,
                *take,
                *fill,
            ),
        decreases number_of_erosion_iterations - iteration,
    {
        let ghost mid = field@;
        let px: u32 = next_random_number(array_max_index as u64, rng);
        let py: u32 = next_random_number(array_max_index as u64, rng);
        let droplet = spawn(px, py);
        let outcome = run_droplet(
            field,
            heights,
            droplet,
            initial_lifetime,
            relative_points_table,
            travel,
            settle,
            take,
            fill,
        );
        iteration += 1;
        proof {
            assert(droplet_post(
                separate,
                mid,
                px,
                py,
                droplet,
                field@,
                outcome,
                initial_lifetime as nat,
                relative_points_table@,
                *spawn,
                *travel,
                *settle,
                *take,
                *fill,
            ));
        }
    }
}

/// Erodes the terrain: `number_of_erosion_iterations` droplets run on the
/// heights of the view, wear them and fill them.
pub fn erode<
    T: Copy,
    W: Copy,
    S: Copy,
    A,
    Sp: Fn(u32, u32) -> Droplet<S>,
    Tr: Fn(Droplet<S>, Corners<T>) -> Option<Droplet<S>>,
    Se: Fn(Droplet<S>, Droplet<S>, Corners<T>, Corners<T>) -> Settlement<S, A>,
    Ta: Fn(T, W, Droplet<S>) -> (T, Droplet<S>),
    Fi: Fn(T, A) -> T,
>(
    heightmap: &mut ReducedArrayWrapper<T>,
    rng: &mut Mcg128Xsl64,
    relative_points_table: &Vec<RelativePoint<W>>,
    number_of_erosion_iterations: u32,
    initial_lifetime: usize,
    spawn: &Sp,
    travel: &Tr,
    settle: &Se,
    take: &Ta,
    fill: &Fi,
)
    requires
        old(heightmap).wf(),
        old(heightmap)@.reduced_width() <= i32::MAX,
        forall|px: u32, py: u32| #[trigger] call_requires(*spawn, (px, py)),
        physics_ready(*travel, *settle, *take, *fill),
    ensures
        final(heightmap).wf(),
        final(heightmap)@.n == old(heightmap)@.n,
        final(heightmap)@.reduced_n == old(heightmap)@.reduced_n,
        final(heightmap)@.backing.same_shape(old(heightmap)@.backing),
        *final(final(heightmap).array) == *final(old(heightmap).array),
        erosion_post(
            None,
            old(heightmap)@,
            final(heightmap)@,
            number_of_erosion_iterations as nat,
            initial_lifetime as nat,
            relative_points_table@,
            *spawn,
            *travel,
            *settle,
            *take,
            *fill,
        ),
{
    run_droplets(
        heightmap,
        None,
        rng,
        relative_points_table,
        number_of_erosion_iterations,
        initial_lifetime,
        spawn,
        travel,
        settle,
        take,
        fill,
    )
}

/// The view of a map of the logical size that shows the map as it is.
pub open spec fn plain_view<T>(map: GridView<T>, reduced_n: nat) -> ReducedView<T> {
    ReducedView { backing: map, n: reduced_n, reduced_n }
}

/// Erodes a concentration of material that lies on the terrain: the droplets
/// run on the heights of the view, and wear and fill the map, which has the
/// size of the logical grid.
pub fn env_coloration_erosion<
    T: Copy,
    W: Copy,
    S: Copy,
    A,
    Sp: Fn(u32, u32) -> Droplet<S>,
    Tr: Fn(Droplet<S>, Corners<T>) -> Option<Droplet<S>>,
    Se: Fn(Droplet<S>, Droplet<S>, Corners<T>, Corners<T>) -> Settlement<S, A>,
    Ta: Fn(T, W, Droplet<S>) -> (T, Droplet<S>),
    Fi: Fn(T, A) -> T,
>(
    heightmap: &ReducedArrayWrapper<T>,
    rng: &mut Mcg128Xsl64,
    concentration_map: &mut Arr2d<T>,
    relative_points_table: &Vec<RelativePoint<W>>,
    number_of_erosion_iterations: u32,
    initial_lifetime: usize,
    spawn: &Sp,
    travel: &Tr,
    settle: &Se,
    take: &Ta,
    fill: &Fi,
)
    requires
        heightmap.wf(),
        heightmap@.reduced_width() <= i32::MAX,
        old(concentration_map).wf(),
        old(concentration_map)@.is_square(heightmap@.reduced_width()),
        forall|px: u32, py: u32| #[trigger] call_requires(*spawn, (px, py)),
        physics_ready(*travel, *settle, *take, *fill),
    ensures
        final(concentration_map).wf(),
        final(concentration_map)@.same_shape(old(concentration_map)@),
        erosion_post(
            Some(heightmap@),
            plain_view(old(concentration_map)@, heightmap@.reduced_n),
            plain_view(final(concentration_map)@, heightmap@.reduced_n),
            number_of_erosion_iterations as nat,
            initial_lifetime as nat,
            relative_points_table@,
            *spawn,
            *travel,
            *settle,
            *take,
            *fill,
        ),
{
    let reduced_n: u32 = heightmap.get_reduced_n();
    let mut field = ReducedArrayWrapper::new(concentration_map, reduced_n, reduced_n);
    run_droplets(
        &mut field,
        Some(heightmap),
        rng,
        relative_points_table,
        number_of_erosion_iterations,
        initial_lifetime,
        spawn,
        travel,
        settle,
        take,
        fill,
    );
}

} // verus!
