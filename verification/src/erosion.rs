//! What a droplet touches: the disc of offsets around it, the offsets of the
//! disc that fall inside the grid, the cells that it wears and the four cells
//! around it that it reads and fills. The weights of the offsets and the
//! amounts that are taken and added are the caller's; they pass through here
//! untouched.

use vstd::prelude::*;
use crate::reduced::{
    ReducedArrayWrapper,
    ReducedView,
    lemma_scaled_in_range,
    lemma_write_read_round_trip,
};

verus! {

/// An offset from a droplet's cell and the share of the erosion that it takes.
pub struct RelativePoint<W> {
    pub dx: i32,
    pub dy: i32,
    pub weight: W,
}

/// A cell of the grid and the share of the erosion that it takes.
pub struct Point<W> {
    pub x: usize,
    pub y: usize,
    pub weight: W,
}

/// `(dx, dy)` lies strictly inside the circle of radius `radius`: its distance
/// from the centre is less than the radius, so its weight is positive.
pub open spec fn in_disc(radius: int, dx: int, dy: int) -> bool {
    dx * dx + dy * dy < radius * radius
}

/// `(dx, dy)` lies in the square that is scanned for a disc of radius `radius`.
pub open spec fn in_scan(radius: int, dx: int, dy: int) -> bool {
    -radius <= dx <= radius && -radius <= dy <= radius
}

/// `(a, b)` comes before `(c, d)` when the square is scanned column by column.
pub open spec fn scanned_before(a: int, b: int, c: int, d: int) -> bool {
    a < c || (a == c && b < d)
}

/// Some entry of `table` from index `from` on has the offset `(dx, dy)`.
pub open spec fn holds_offset<W>(table: Seq<RelativePoint<W>>, from: int, dx: int, dy: int) -> bool {
    exists|i: int| from <= i < table.len() && (#[trigger] table[i]).dx == dx && table[i].dy == dy
}

/// The entries of `table` from index `from` on are the offsets of the disc that
/// are scanned before `(dx, dy)`: each of them once, in scanning order, each
/// with a weight that `weigh` returns for it.
pub open spec fn disc_scanned<W, F: Fn(i32, i32) -> W>(
    table: Seq<RelativePoint<W>>,
    from: int,
    radius: int,
    weigh: F,
    dx: int,
    dy: int,
) -> bool {
    &&& 0 <= from <= table.len()
    &&& forall|i: int|
        from <= i < table.len() ==> {
            let p = #[trigger] table[i];
            &&& in_scan(radius, p.dx as int, p.dy as int)
            &&& in_disc(radius, p.dx as int, p.dy as int)
            &&& scanned_before(p.dx as int, p.dy as int, dx, dy)
            &&& call_ensures(weigh, (p.dx, p.dy), p.weight)
        }
    &&& forall|i: int, j: int|
        from <= i < j < table.len() ==> scanned_before(
            (#[trigger] table[i]).dx as int,
            table[i].dy as int,
            (#[trigger] table[j]).dx as int,
            table[j].dy as int,
        )
    &&& forall|a: int, b: int|
        in_scan(radius, a, b) && in_disc(radius, a, b) && scanned_before(a, b, dx, dy)
            ==> #[trigger] holds_offset(table, from, a, b)
}

/// The entries of `table` from index `from` on are the offsets of the whole
/// disc of radius `radius`.
pub open spec fn disc_table<W, F: Fn(i32, i32) -> W>(
    table: Seq<RelativePoint<W>>,
    from: int,
    radius: int,
    weigh: F,
) -> bool {
    disc_scanned(table, from, radius, weigh, radius + 1, -radius)
}

/// Appends to the table the offsets that lie strictly inside the circle of
/// radius `radius`, column by column, each with the weight that `weigh` gives
/// it. The entries that the table held stay in front.
pub fn compute_points_in_range<W, F: Fn(i32, i32) -> W>(
    relative_points_table: &mut Vec<RelativePoint<W>>,
    radius: i32,
    weigh: &F,
)
    requires
        forall|dx: i32, dy: i32| #[trigger] call_requires(*weigh, (dx, dy)),
    ensures
        final(relative_points_table)@.len() >= old(relative_points_table)@.len(),
        final(relative_points_table)@.subrange(0, old(relative_points_table)@.len() as int) == old(
            relative_points_table,
        )@,
        disc_table(
            final(relative_points_table)@,
            old(relative_points_table)@.len() as int,
            radius as int,
            *weigh,
        ),
{
    let ghost kept = relative_points_table@;
    let ghost from = kept.len() as int;
    let r: i64 = radius as i64;
    if r <= 0 {
        proof {
            assert forall|a: int, b: int|
                in_scan(r as int, a, b) && in_disc(r as int, a, b) implies false by {
                assert(r * r == 0) by (nonlinear_arith)
                    requires
                        -r <= a <= r,
                        r <= 0,
                ;
            }
        }
        return ;
    }
    let mut dx: i64 = -r;
    while dx <= r
        invariant
            r == radius,
            r > 0,
            from == kept.len(),
            -r <= dx <= r + 1,
            forall|a: i32, b: i32| #[trigger] call_requires(*weigh, (a, b)),
            relative_points_table@.len() >= from,
            relative_points_table@.subrange(0, from) == kept,
            disc_scanned(relative_points_table@, from, r as int, *weigh, dx as int, -r as int),
        decreases r + 1 - dx,
    {
        let mut dy: i64 = -r;
        while dy <= r
            invariant
                r == radius,
                r > 0,
                from == kept.len(),
                -r <= dx <= r,
                -r <= dy <= r + 1,
                forall|a: i32, b: i32| #[trigger] call_requires(*weigh, (a, b)),
                relative_points_table@.len() >= from,
                relative_points_table@.subrange(0, from) == kept,
                disc_scanned(relative_points_table@, from, r as int, *weigh, dx as int, dy as int),
            decreases r + 1 - dy,
        {
            proof {
                assert(0 <= dx * dx <= r * r && 0 <= dy * dy <= r * r && r * r <= 0x3fff_ffff_0000_0001)
                    by (nonlinear_arith)
                    requires
                        -r <= dx <= r,
                        -r <= dy <= r,
                        0 < r <= 0x7fff_ffff,
                ;
            }
            let ghost table = relative_points_table@;
            if dx * dx + dy * dy < r * r {
                let weight = weigh(dx as i32, dy as i32);
                relative_points_table.push(RelativePoint { dx: dx as i32, dy: dy as i32, weight });
                proof {
                    let grown = relative_points_table@;
                    assert forall|a: int, b: int|
                        in_scan(r as int, a, b) && in_disc(r as int, a, b) && scanned_before(
                            a,
                            b,
                            dx as int,
                            dy + 1,
                        ) implies #[trigger] holds_offset(grown, from, a, b) by {
                        if scanned_before(a, b, dx as int, dy as int) {
                            assert(holds_offset(table, from, a, b));
                            let i = choose|i: int|
                                from <= i < table.len() && (#[trigger] table[i]).dx == a
                                    && table[i].dy == b;
                            assert(grown[i].dx == a && grown[i].dy == b);
                        } else {
                            assert(grown[table.len() as int].dx == a);
                        }
                    }
                }
            } else {
                proof {
                    assert forall|a: int, b: int|
                        in_scan(r as int, a, b) && in_disc(r as int, a, b) && scanned_before(
                            a,
                            b,
                            dx as int,
                            dy + 1,
                        ) implies #[trigger] holds_offset(table, from, a, b) by {
                        assert(scanned_before(a, b, dx as int, dy as int));
                    }
                }
            }
            dy += 1;
        }
        proof {
            let table = relative_points_table@;
            assert forall|a: int, b: int|
                in_scan(r as int, a, b) && in_disc(r as int, a, b) && scanned_before(
                    a,
                    b,
                    dx + 1,
                    -r as int,
                ) implies #[trigger] holds_offset(table, from, a, b) by {
                assert(scanned_before(a, b, dx as int, dy as int));
            }
        }
        dx += 1;
    }
}

/// Walks a table of offsets around one cell and hands out those that fall
/// inside a square grid, each as the cell it reaches.
pub struct PointsInRangeIterator<'a, W> {
    relative_points_table: &'a Vec<RelativePoint<W>>,
    height_map_width: usize,
    x: i32,
    y: i32,
    index: usize,
}

/// The offset `p` around `(x, y)` reaches a cell of the square grid of side `width`.
pub open spec fn reaches<W>(p: RelativePoint<W>, width: int, x: int, y: int) -> bool {
    0 <= x + p.dx < width && 0 <= y + p.dy < width
}

/// The cell that the offset `p` around `(x, y)` reaches.
pub open spec fn reached<W>(p: RelativePoint<W>, x: int, y: int) -> Point<W> {
    Point { x: (x + p.dx) as usize, y: (y + p.dy) as usize, weight: p.weight }
}

impl<'a, W: Copy> PointsInRangeIterator<'a, W> {
    /// The table that is walked.
    pub closed spec fn table(&self) -> Seq<RelativePoint<W>> {
        self.relative_points_table@
    }

    /// Side of the grid.
    pub closed spec fn width(&self) -> int {
        self.height_map_width as int
    }

    /// The cell around which the offsets are taken.
    pub closed spec fn center(&self) -> (int, int) {
        (self.x as int, self.y as int)
    }

    /// Number of entries of the table that were passed.
    pub closed spec fn position(&self) -> int {
        self.index as int
    }

    /// A walk from the start of the table.
    pub fn new(
        relative_points_table: &'a Vec<RelativePoint<W>>,
        height_map_width: usize,
        x: i32,
        y: i32,
    ) -> (r: PointsInRangeIterator<'a, W>)
        ensures
            r.table() == relative_points_table@,
            r.width() == height_map_width,
            r.center() == (x as int, y as int),
            r.position() == 0,
    {
        PointsInRangeIterator { relative_points_table, height_map_width, x, y, index: 0 }
    }

    /// The cell reached by the next offset of the table that falls inside the
    /// grid, or `None` when no such offset is left.
    pub fn next(&mut self) -> (r: Option<Point<W>>)
        ensures
            final(self).table() == old(self).table(),
            final(self).width() == old(self).width(),
            final(self).center() == old(self).center(),
            match r {
                Some(point) => {
                    let found = final(self).position() - 1;
                    &&& old(self).position() <= found < old(self).table().len()
                    &&& reaches(
                        old(self).table()[found],
                        old(self).width(),
                        old(self).center().0,
                        old(self).center().1,
                    )
                    &&& point == reached(
                        old(self).table()[found],
                        old(self).center().0,
                        old(self).center().1,
                    )
                    &&& forall|k: int|
                        old(self).position() <= k < found ==> !reaches(
                            #[trigger] old(self).table()[k],
                            old(self).width(),
                            old(self).center().0,
                            old(self).center().1,
                        )
                },
                None => {
                    &&& final(self).position() == if old(self).position() >= old(
                        self,
                    ).table().len() {
                        old(self).position()
                    } else {
                        old(self).table().len() as int
                    }
                    &&& forall|k: int|
                        old(self).position() <= k < old(self).table().len() ==> !reaches(
                            #[trigger] old(self).table()[k],
                            old(self).width(),
                            old(self).center().0,
                            old(self).center().1,
                        )
                },
            },
    {
        while self.index < self.relative_points_table.len()
            invariant
                self.table() == old(self).table(),
                self.width() == old(self).width(),
                self.center() == old(self).center(),
                old(self).position() <= self.position(),
                self.position() <= old(self).table().len() || self.position() == old(
                    self,
                ).position(),
                forall|k: int|
                    old(self).position() <= k < self.position() && k < old(self).table().len()
                        ==> !reaches(
                        #[trigger] old(self).table()[k],
                        old(self).width(),
                        old(self).center().0,
                        old(self).center().1,
                    ),
            decreases self.relative_points_table.len() - self.index,
        {
            let relative_point = &self.relative_points_table[self.index];
            let px: i64 = self.x as i64 + relative_point.dx as i64;
            let py: i64 = self.y as i64 + relative_point.dy as i64;
            let weight = relative_point.weight;
            self.index += 1;
            if 0 <= px && 0 <= py && (px as usize) < self.height_map_width && (py as usize)
                < self.height_map_width {
                return Some(Point { x: px as usize, y: py as usize, weight });
            }
        }
        None
    }
}

/// The values of the four cells around a position: `h00` at `(x, y)`, `h01` at
/// `(x, y + 1)`, `h10` at `(x + 1, y)`, `h11` at `(x + 1, y + 1)`.
#[derive(Clone, Copy)]
pub struct Corners<T> {
    pub h00: T,
    pub h01: T,
    pub h10: T,
    pub h11: T,
}

/// The four cells of the view around `(x, y)`, or `None` when one of them lies
/// outside.
pub open spec fn corners_at<T>(v: ReducedView<T>, x: int, y: int) -> Option<Corners<T>> {
    if 0 <= x && 0 <= y && v.covers(x + 1, y + 1) {
        Some(
            Corners {
                h00: v.at(x, y),
                h01: v.at(x, y + 1),
                h10: v.at(x + 1, y),
                h11: v.at(x + 1, y + 1),
            },
        )
    } else {
        None
    }
}

/// The four cells of the logical grid around `(arr_pos_x, arr_pos_y)`, or
/// `None` when one of them lies outside.
pub fn corner_heights<T: Copy>(
    heightmap: &ReducedArrayWrapper<T>,
    arr_pos_x: usize,
    arr_pos_y: usize,
) -> (r: Option<Corners<T>>)
    requires
        heightmap.wf(),
    ensures
        r == corners_at(heightmap@, arr_pos_x as int, arr_pos_y as int),
{
    let width: usize = heightmap.get_reduced_width();
    if arr_pos_x >= width - 1 || arr_pos_y >= width - 1 {
        return None;
    }
    match (
        heightmap.get(arr_pos_x, arr_pos_y),
        heightmap.get(arr_pos_x, arr_pos_y + 1),
        heightmap.get(arr_pos_x + 1, arr_pos_y),
        heightmap.get(arr_pos_x + 1, arr_pos_y + 1),
    ) {
        (Some(h00), Some(h01), Some(h10), Some(h11)) => Some(
            Corners { h00: *h00, h01: *h01, h10: *h10, h11: *h11 },
        ),
        _ => None,
    }
}

/// What wearing makes of the view `before` and of the load `carried`, once the
/// first `upto` entries of the table were applied around the cell `(x, y)`.
/// Every entry that reaches the grid hands the value of its cell, its weight
/// and the load to `take`, which returns the cell's new value and the new
/// load; an entry that falls outside the grid changes nothing.
pub open spec fn wear_post<T, W, S, F: Fn(T, W, S) -> (T, S)>(
    before: ReducedView<T>,
    carried: S,
    after: ReducedView<T>,
    result: S,
    table: Seq<RelativePoint<W>>,
    upto: int,
    x: int,
    y: int,
    take: F,
) -> bool
    decreases upto,
{
    if upto <= 0 {
        after == before && result == carried
    } else {
        let p = table[upto - 1];
        if reaches(p, before.reduced_width() as int, x, y) {
            exists|mid: ReducedView<T>, held: S, value: T|
                {
                    &&& #[trigger] wear_step(mid, held, value, result, p, x, y, take)
                    &&& wear_post(before, carried, mid, held, table, upto - 1, x, y, take)
                    &&& after == mid.put(x + p.dx, y + p.dy, value)
                }
        } else {
            wear_post(before, carried, after, result, table, upto - 1, x, y, take)
        }
    }
}

/// `take` turns the cell that `p` reaches in `mid`, with the load `held`, into
/// `value`, with the load `result`.
pub open spec fn wear_step<T, W, S, F: Fn(T, W, S) -> (T, S)>(
    mid: ReducedView<T>,
    held: S,
    value: T,
    result: S,
    p: RelativePoint<W>,
    x: int,
    y: int,
    take: F,
) -> bool {
    call_ensures(take, (mid.at(x + p.dx, y + p.dy), p.weight, held), (value, result))
}

/// Entries that fall outside the grid do not change the state of wearing.
pub proof fn lemma_wear_skips<T, W, S, F: Fn(T, W, S) -> (T, S)>(
    before: ReducedView<T>,
    carried: S,
    after: ReducedView<T>,
    result: S,
    table: Seq<RelativePoint<W>>,
    from: int,
    upto: int,
    x: int,
    y: int,
    take: F,
)
    requires
        0 <= from <= upto <= table.len(),
        wear_post(before, carried, after, result, table, from, x, y, take),
        forall|k: int|
            from <= k < upto ==> !reaches(#[trigger] table[k], before.reduced_width() as int, x, y),
    ensures
        wear_post(before, carried, after, result, table, upto, x, y, take),
    decreases upto - from,
{
    if from < upto {
        lemma_wear_skips(before, carried, after, result, table, from, upto - 1, x, y, take);
    }
}

/// Wearing leaves the view well-formed, over a grid of the same shape, with
/// the same exponents.
pub proof fn lemma_wear_keeps_shape<T, W, S, F: Fn(T, W, S) -> (T, S)>(
    before: ReducedView<T>,
    carried: S,
    after: ReducedView<T>,
    result: S,
    table: Seq<RelativePoint<W>>,
    upto: int,
    x: int,
    y: int,
    take: F,
)
    requires
        before.wf(),
        0 <= upto <= table.len(),
        wear_post(before, carried, after, result, table, upto, x, y, take),
    ensures
        after.wf(),
        after.n == before.n,
        after.reduced_n == before.reduced_n,
        after.backing.same_shape(before.backing),
    decreases upto,
{
    if upto > 0 {
        let p = table[upto - 1];
        if reaches(p, before.reduced_width() as int, x, y) {
            let (mid, held, value) = choose|mid: ReducedView<T>, held: S, value: T|
                {
                    &&& #[trigger] wear_step(mid, held, value, result, p, x, y, take)
                    &&& wear_post(before, carried, mid, held, table, upto - 1, x, y, take)
                    &&& after == mid.put(x + p.dx, y + p.dy, value)
                };
            lemma_wear_keeps_shape(before, carried, mid, held, table, upto - 1, x, y, take);
            lemma_write_read_round_trip(mid, x + p.dx, y + p.dy, value);
        } else {
            lemma_wear_keeps_shape(before, carried, after, result, table, upto - 1, x, y, take);
        }
    }
}

/// Wearing changes no cell beyond the reach of the table: a position that no
/// applied offset reaches reads as before.
pub proof fn lemma_wear_stays_in_reach<T, W, S, F: Fn(T, W, S) -> (T, S)>(
    before: ReducedView<T>,
    carried: S,
    after: ReducedView<T>,
    result: S,
    table: Seq<RelativePoint<W>>,
    upto: int,
    x: int,
    y: int,
    take: F,
    cx: int,
    cy: int,
)
    requires
        before.wf(),
        0 <= upto <= table.len(),
        wear_post(before, carried, after, result, table, upto, x, y, take),
        before.covers(cx, cy),
        forall|k: int|
            0 <= k < upto ==> !(x + (#[trigger] table[k]).dx == cx && y + table[k].dy == cy),
    ensures
        after.at(cx, cy) == before.at(cx, cy),
    decreases upto,
{
    if upto > 0 {
        let p = table[upto - 1];
        if reaches(p, before.reduced_width() as int, x, y) {
            let (mid, held, value) = choose|mid: ReducedView<T>, held: S, value: T|
                {
                    &&& #[trigger] wear_step(mid, held, value, result, p, x, y, take)
                    &&& wear_post(before, carried, mid, held, table, upto - 1, x, y, take)
                    &&& after == mid.put(x + p.dx, y + p.dy, value)
                };
            lemma_wear_stays_in_reach(
                before,
                carried,
                mid,
                held,
                table,
                upto - 1,
                x,
                y,
                take,
                cx,
                cy,
            );
            lemma_wear_keeps_shape(before, carried, mid, held, table, upto - 1, x, y, take);
            lemma_write_read_round_trip(mid, x + p.dx, y + p.dy, value);
        } else {
            lemma_wear_stays_in_reach(
                before,
                carried,
                after,
                result,
                table,
                upto - 1,
                x,
                y,
                take,
                cx,
                cy,
            );
        }
    }
}

/// Applies the table of offsets around the cell `(x, y)`: every cell that an
/// offset reaches is replaced by what `take` makes of it, in the order of the
/// table, and the load is threaded through.
pub fn wear_cells<T: Copy, W: Copy, S, F: Fn(T, W, S) -> (T, S)>(
    heightmap: &mut ReducedArrayWrapper<T>,
    relative_points_table: &Vec<RelativePoint<W>>,
    x: i32,
    y: i32,
    carried: S,
    take: &F,
) -> (result: S)
    requires
        old(heightmap).wf(),
        forall|value: T, weight: W, held: S| #[trigger] call_requires(*take, (value, weight, held)),
    ensures
        final(heightmap).wf(),
        *final(final(heightmap).array) == *final(old(heightmap).array),
        wear_post(
            old(heightmap)@,
            carried,
            final(heightmap)@,
            result,
            relative_points_table@,
            relative_points_table@.len() as int,
            x as int,
            y as int,
            *take,
        ),
{
    let ghost before = heightmap@;
    let ghost start = carried;
    let ghost table = relative_points_table@;
    let width: usize = heightmap.get_reduced_width();
    let mut points = PointsInRangeIterator::new(relative_points_table, width, x, y);
    let mut carried = carried;
    loop
        invariant
            before.wf(),
            heightmap.wf(),
            heightmap@.n == before.n,
            heightmap@.reduced_n == before.reduced_n,
            *final(heightmap.array) == *final(old(heightmap).array),
            forall|value: T, weight: W, held: S| #[trigger]
                call_requires(*take, (value, weight, held)),
            table == relative_points_table@,
            points.table() == table,
            points.width() == before.reduced_width(),
            points.center() == (x as int, y as int),
            0 <= points.position() <= table.len(),
            wear_post(
                before,
                start,
                heightmap@,
                carried,
                table,
                points.position(),
                x as int,
                y as int,
                *take,
            ),
        ensures
            heightmap.wf(),
            *final(heightmap.array) == *final(old(heightmap).array),
            wear_post(
                before,
                start,
                heightmap@,
                carried,
                table,
                table.len() as int,
                x as int,
                y as int,
                *take,
            ),
        decreases table.len() - points.position(),
    {
        let ghost passed = points.position();
        let ghost mid = heightmap@;
        let ghost held = carried;
        match points.next() {
            Some(point) => {
                let ghost found = points.position() - 1;
                proof {
                    lemma_wear_skips(before, start, mid, held, table, passed, found, x as int, y as int, *take);
                }
                match heightmap.get_mut(point.x, point.y) {
                    Some(cell) => {
                        let (value, load) = take(*cell, point.weight, carried);
                        *cell = value;
                        carried = load;
                        proof {
                            assert(wear_step(mid, held, value, carried, table[found], x as int, y as int, *take));
                        }
                    },
                    None => {
                        proof {
                            assert(false);
                        }
                    },
                }
            },
            None => {
                proof {
                    lemma_wear_skips(
                        before,
                        start,
                        mid,
                        held,
                        table,
                        passed,
                        table.len() as int,
                        x as int,
                        y as int,
                        *take,
                    );
                }
                break ;
            },
        }
    }
    carried
}

/// What depositing makes of the view `before`: the four cells around `(x, y)`
/// hold what `settle` makes of their old values and of their shares of the
/// deposit; every other cell is as it was.
pub open spec fn deposit_post<T, A, F: Fn(T, A) -> T>(
    before: ReducedView<T>,
    after: ReducedView<T>,
    x: int,
    y: int,
    amounts: Corners<A>,
    settle: F,
) -> bool {
    exists|v00: T, v10: T, v01: T, v11: T|
        {
            &&& #[trigger] deposit_values(before, x, y, amounts, settle, v00, v10, v01, v11)
            &&& after == before.put(x, y, v00).put(x + 1, y, v10).put(x, y + 1, v01).put(
                x + 1,
                y + 1,
                v11,
            )
        }
}

/// The four values that `settle` returns for the cells around `(x, y)` of `before`.
pub open spec fn deposit_values<T, A, F: Fn(T, A) -> T>(
    before: ReducedView<T>,
    x: int,
    y: int,
    amounts: Corners<A>,
    settle: F,
    v00: T,
    v10: T,
    v01: T,
    v11: T,
) -> bool {
    &&& call_ensures(settle, (before.at(x, y), amounts.h00), v00)
    &&& call_ensures(settle, (before.at(x + 1, y), amounts.h10), v10)
    &&& call_ensures(settle, (before.at(x, y + 1), amounts.h01), v01)
    &&& call_ensures(settle, (before.at(x + 1, y + 1), amounts.h11), v11)
}

/// Depositing leaves the view well-formed, with the same exponents, and
/// changes no cell but the four around `(x, y)`.
pub proof fn lemma_deposit_stays_at_corners<T, A, F: Fn(T, A) -> T>(
    before: ReducedView<T>,
    after: ReducedView<T>,
    x: int,
    y: int,
    amounts: Corners<A>,
    settle: F,
    cx: int,
    cy: int,
)
    requires
        before.wf(),
        0 <= x,
        0 <= y,
        before.covers(x + 1, y + 1),
        deposit_post(before, after, x, y, amounts, settle),
        before.covers(cx, cy),
        !((cx == x || cx == x + 1) && (cy == y || cy == y + 1)),
    ensures
        after.wf(),
        after.n == before.n,
        after.reduced_n == before.reduced_n,
        after.backing.same_shape(before.backing),
        after.at(cx, cy) == before.at(cx, cy),
{
    let (v00, v10, v01, v11) = choose|v00: T, v10: T, v01: T, v11: T|
        {
            &&& #[trigger] deposit_values(before, x, y, amounts, settle, v00, v10, v01, v11)
            &&& after == before.put(x, y, v00).put(x + 1, y, v10).put(x, y + 1, v01).put(
                x + 1,
                y + 1,
                v11,
            )
        };
    let first = before.put(x, y, v00);
    let second = first.put(x + 1, y, v10);
    let third = second.put(x, y + 1, v01);
    lemma_write_read_round_trip(before, x, y, v00);
    lemma_write_read_round_trip(first, x + 1, y, v10);
    lemma_write_read_round_trip(second, x, y + 1, v01);
    lemma_write_read_round_trip(third, x + 1, y + 1, v11);
}

/// Replaces the cell at a logical position that the view covers.
fn replace<T>(heightmap: &mut ReducedArrayWrapper<T>, x: usize, y: usize, value: T)
    requires
        old(heightmap).wf(),
        old(heightmap)@.covers(x as int, y as int),
    ensures
        final(heightmap).wf(),
        *final(final(heightmap).array) == *final(old(heightmap).array),
        final(heightmap)@ == old(heightmap)@.put(x as int, y as int, value),
{
    match heightmap.get_mut(x, y) {
        Some(cell) => {
            *cell = value;
        },
        None => {},
    }
}

/// Adds to each of the four cells around `(arr_pos_x, arr_pos_y)` its share of
/// a deposit: `h00` to `(x, y)`, `h10` to `(x + 1, y)`, `h01` to `(x, y + 1)`,
/// `h11` to `(x + 1, y + 1)`.
pub fn deposit<T: Copy, A, F: Fn(T, A) -> T>(
    heightmap: &mut ReducedArrayWrapper<T>,
    arr_pos_x: usize,
    arr_pos_y: usize,
    amounts: Corners<A>,
    settle: &F,
)
    requires
        old(heightmap).wf(),
        old(heightmap)@.covers(arr_pos_x + 1, arr_pos_y + 1),
        forall|value: T, amount: A| #[trigger] call_requires(*settle, (value, amount)),
    ensures
        final(heightmap).wf(),
        *final(final(heightmap).array) == *final(old(heightmap).array),
        deposit_post(
            old(heightmap)@,
            final(heightmap)@,
            arr_pos_x as int,
            arr_pos_y as int,
            amounts,
            *settle,
        ),
{
    let ghost before = heightmap@;
    let x: usize = arr_pos_x;
    let y: usize = arr_pos_y;
    proof {
        heightmap.array.lemma_view_bounds();
        lemma_scaled_in_range(before, 0);
    }
    match corner_heights(heightmap, x, y) {
        Some(corners) => {
            let v00 = settle(corners.h00, amounts.h00);
            let v10 = settle(corners.h10, amounts.h10);
            let v01 = settle(corners.h01, amounts.h01);
            let v11 = settle(corners.h11, amounts.h11);
            replace(heightmap, x, y, v00);
            replace(heightmap, x + 1, y, v10);
            replace(heightmap, x, y + 1, v01);
            replace(heightmap, x + 1, y + 1, v11);
            proof {
                assert(deposit_values(before, x as int, y as int, amounts, *settle, v00, v10, v01, v11));
            }
        },
        None => {},
    }
}

} // verus!
