//! Rectangles, and positions seen from one of four directions.

use vstd::prelude::*;

verus! {

/// A rectangle by its four sides, with `top` above `bottom`.
#[derive(Clone, Copy)]
pub struct Rect<T> {
    pub left: T,
    pub right: T,
    pub top: T,
    pub bottom: T,
}

impl Rect<usize> {
    /// `left <= right` and `bottom <= top`.
    pub open spec fn wf(&self) -> bool {
        self.left <= self.right && self.bottom <= self.top
    }

    /// The distance from `left` to `right`.
    pub fn get_width(&self) -> (r: usize)
        requires
            self.wf(),
        ensures
            r == self.right - self.left,
    {
        self.right - self.left
    }

    /// The distance from `bottom` to `top`.
    pub fn get_height(&self) -> (r: usize)
        requires
            self.wf(),
        ensures
            r == self.top - self.bottom,
    {
        self.top - self.bottom
    }
}

/// Where the position `(i, j)`, counted along a direction of travel, lies in a
/// square of side `width`: as it is, transposed, mirrored, or mirrored and
/// transposed.
pub open spec fn pos_with_direction(i: int, j: int, direction: u8, width: int) -> (int, int) {
    if direction == 0 {
        (i, j)
    } else if direction == 1 {
        (j, i)
    } else if direction == 2 {
        (width - i - 1, j)
    } else {
        (j, width - i - 1)
    }
}

/// `pos_with_direction` as a pair of machine integers.
pub fn get_pos_with_direction(i: usize, j: usize, direction: u8, width: usize) -> (r: [usize; 2])
    requires
        direction >= 2 ==> i < width,
    ensures
        (r[0] as int, r[1] as int) == pos_with_direction(
            i as int,
            j as int,
            direction,
            width as int,
        ),
{
    match direction {
        0 => [i, j],
        1 => [j, i],
        2 => [width - i - 1, j],
        _ => [j, width - i - 1],
    }
}

/// As `get_pos_with_direction`, for signed coordinates; `None` for a position
/// outside the square.
pub fn checked_get_pos_with_direction(i: i32, j: i32, direction: u8, width: usize) -> (r: Option<
    [usize; 2],
>)
    ensures
        match r {
            Some(pos) => 0 <= i < width && 0 <= j < width && (pos[0] as int, pos[1] as int)
                == pos_with_direction(i as int, j as int, direction, width as int),
            None => !(0 <= i < width && 0 <= j < width),
        },
{
    if i < 0 || j < 0 || i as usize >= width || j as usize >= width {
        None
    } else {
        Some(get_pos_with_direction(i as usize, j as usize, direction, width))
    }
}

} // verus!
