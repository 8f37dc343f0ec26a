//! A coarse view over a fine grid: logical coordinates are multiplied by a
//! power of two before they reach the backing grid.

use vstd::prelude::*;
use vstd::arithmetic::power2::{pow2, lemma_pow2_pos};
use crate::grid::{Arr2d, GridView, lemma_put_at};
use crate::powers::{two_pow, lemma_pow2_split};

verus! {

/// What a view is, mathematically: the backing grid and the two exponents.
pub struct ReducedView<T> {
    pub backing: GridView<T>,
    pub n: nat,
    pub reduced_n: nat,
}

impl<T> ReducedView<T> {
    /// The backing grid is a square of side `2^n + 1`, and the logical grid is
    /// no finer than it.
    pub open spec fn wf(self) -> bool {
        &&& self.reduced_n <= self.n
        &&& self.backing.wf()
        &&& self.backing.is_square(pow2(self.n) + 1)
    }

    /// Distance in the backing grid between two neighbours of the logical grid.
    pub open spec fn scale(self) -> nat {
        pow2((self.n - self.reduced_n) as nat)
    }

    /// Side of the logical grid.
    pub open spec fn reduced_width(self) -> nat {
        pow2(self.reduced_n) + 1
    }

    /// `(x, y)` names a position of the logical grid.
    pub open spec fn covers(self, x: int, y: int) -> bool {
        0 <= x < self.reduced_width() && 0 <= y < self.reduced_width()
    }

    /// The cell at logical `(x, y)`: the backing cell at `(x * scale, y * scale)`.
    pub open spec fn at(self, x: int, y: int) -> T {
        self.backing.at(x * self.scale(), y * self.scale())
    }

    /// The view after `value` was written at logical `(x, y)`.
    pub open spec fn put(self, x: int, y: int, value: T) -> ReducedView<T> {
        ReducedView {
            backing: self.backing.put(x * self.scale(), y * self.scale(), value),
            n: self.n,
            reduced_n: self.reduced_n,
        }
    }
}

/// A logical coordinate lies in the logical grid exactly when its multiple by
/// the scale lies in the backing grid.
pub proof fn lemma_scaled_in_range<T>(v: ReducedView<T>, x: int)
    requires
        v.wf(),
        0 <= x,
    ensures
        0 < v.scale(),
        0 <= x * v.scale(),
        x < v.reduced_width() <==> x * v.scale() < v.backing.width,
        v.reduced_width() <= v.backing.width,
{
    lemma_pow2_split(v.reduced_n, v.n);
    let s = v.scale() as int;
    let r = pow2(v.reduced_n) as int;
    assert(0 <= x * s) by (nonlinear_arith)
        requires
            0 <= x,
            0 < s,
    ;
    assert(x <= r <==> x * s <= r * s) by (nonlinear_arith)
        requires
            0 <= x,
            0 < s,
            0 < r,
    ;
}

/// Distinct logical positions reach distinct backing positions.
pub proof fn lemma_scaled_injective<T>(v: ReducedView<T>, x1: int, x2: int)
    requires
        v.wf(),
        x1 * v.scale() == x2 * v.scale(),
    ensures
        x1 == x2,
{
    lemma_pow2_pos((v.n - v.reduced_n) as nat);
    let s = v.scale() as int;
    assert(x1 == x2) by (nonlinear_arith)
        requires
            0 < s,
            x1 * s == x2 * s,
    ;
}

/// A value written through the view at a logical position is the value read
/// back through the view at that position, and the value of the backing grid
/// at the scaled position. Every other logical position reads as before.
pub proof fn lemma_write_read_round_trip<T>(v: ReducedView<T>, x: int, y: int, value: T)
    requires
        v.wf(),
        v.covers(x, y),
    ensures
        v.put(x, y, value).wf(),
        v.put(x, y, value).at(x, y) == value,
        v.put(x, y, value).backing.at(x * v.scale(), y * v.scale()) == value,
        forall|x2: int, y2: int|
            v.covers(x2, y2) && !(x2 == x && y2 == y) ==> #[trigger] v.put(x, y, value).at(x2, y2)
                == v.at(x2, y2),
{
    lemma_scaled_in_range(v, x);
    lemma_scaled_in_range(v, y);
    let s = v.scale() as int;
    lemma_put_at(v.backing, x * s, y * s, value, x * s, y * s);
    assert forall|x2: int, y2: int| v.covers(x2, y2) && !(x2 == x && y2 == y) implies #[trigger] v.put(
        x,
        y,
        value,
    ).at(x2, y2) == v.at(x2, y2) by {
        lemma_scaled_in_range(v, x2);
        lemma_scaled_in_range(v, y2);
        lemma_put_at(v.backing, x * s, y * s, value, x2 * s, y2 * s);
        if x2 * s == x * s && y2 * s == y * s {
            lemma_scaled_injective(v, x2, x);
            lemma_scaled_injective(v, y2, y);
        }
    }
}

/// A read/write lens over a square grid of side `2^n_array + 1` that shows the
/// coarser grid of side `2^reduced_n + 1` embedded in it. Writing through the
/// lens writes the backing grid.
pub struct ReducedArrayWrapper<'a, T> {
    pub array: &'a mut Arr2d<T>,
    pub n_array: u32,
    pub reduced_n: u32,
}

impl<'a, T> View for ReducedArrayWrapper<'a, T> {
    type V = ReducedView<T>;

    open spec fn view(&self) -> ReducedView<T> {
        ReducedView {
            backing: self.array@,
            n: self.n_array as nat,
            reduced_n: self.reduced_n as nat,
        }
    }
}

impl<'a, T> ReducedArrayWrapper<'a, T> {
    /// The backing grid is well-formed, a square of side `2^n_array + 1`, and
    /// `reduced_n` is at most `n_array`. `new` establishes this and every
    /// method keeps it; the fields are public so that contracts can speak of
    /// the grid that the borrow leaves behind.
    pub open spec fn wf(&self) -> bool {
        self@.wf()
    }

    /// The lens over `array` with the two exponents. The grid is borrowed for as
    /// long as the lens lives, and holds afterwards what the lens held last.
    pub fn new(array: &'a mut Arr2d<T>, n_array: u32, reduced_n: u32) -> (r: ReducedArrayWrapper<
        'a,
        T,
    >)
        requires
            n_array >= reduced_n,
            old(array).wf(),
            old(array)@.is_square(pow2(n_array as nat) + 1),
        ensures
            r.wf(),
            r@ == (ReducedView {
                backing: old(array)@,
                n: n_array as nat,
                reduced_n: reduced_n as nat,
            }),
            *final(r.array) == *final(array),
    {
        ReducedArrayWrapper { array, n_array, reduced_n }
    }

    /// The cell at logical `(x, y)`, or `None` outside the logical grid.
    pub fn get(&self, x: usize, y: usize) -> (r: Option<&T>)
        requires
            self.wf(),
        ensures
            match r {
                Some(cell) => self@.covers(x as int, y as int) && *cell == self@.at(
                    x as int,
                    y as int,
                ),
                None => !self@.covers(x as int, y as int),
            },
    {
        let scale: usize = self.get_scaling();
        proof {
            lemma_scaled_in_range(self@, x as int);
            lemma_scaled_in_range(self@, y as int);
            self.array.lemma_view_bounds();
        }
        match (x.checked_mul(scale), y.checked_mul(scale)) {
            (Some(bx), Some(by)) => self.array.get(bx, by),
            _ => None,
        }
    }

    /// As `get`, for signed coordinates: a negative coordinate is outside the
    /// logical grid.
    pub fn geti(&self, x: i32, y: i32) -> (r: Option<&T>)
        requires
            self.wf(),
        ensures
            match r {
                Some(cell) => self@.covers(x as int, y as int) && *cell == self@.at(
                    x as int,
                    y as int,
                ),
                None => !self@.covers(x as int, y as int),
            },
    {
        if x < 0 || y < 0 {
            None
        } else {
            self.get(x as usize, y as usize)
        }
    }

    /// A mutable borrow of the cell at logical `(x, y)`, or `None` outside the
    /// logical grid. What is written through it is written to the backing grid.
    pub fn get_mut(&mut self, x: usize, y: usize) -> (r: Option<&mut T>)
        requires
            old(self).wf(),
        ensures
            match r {
                Some(cell) => old(self)@.covers(x as int, y as int) && *cell == old(self)@.at(
                    x as int,
                    y as int,
                ) && final(self)@ == old(self)@.put(x as int, y as int, *final(cell)),
                None => !old(self)@.covers(x as int, y as int) && final(self)@ == old(self)@,
            },
            final(self).wf(),
            *final(final(self).array) == *final(old(self).array),
    {
        let scale: usize = self.get_scaling();
        proof {
            lemma_scaled_in_range(self@, x as int);
            lemma_scaled_in_range(self@, y as int);
            self.array.lemma_view_bounds();
        }
        match (x.checked_mul(scale), y.checked_mul(scale)) {
            (Some(bx), Some(by)) => self.array.get_mut(bx, by),
            _ => None,
        }
    }

    /// The exponent of the logical grid.
    pub fn get_reduced_n(&self) -> (r: u32)
        ensures
            r == self@.reduced_n,
    {
        self.reduced_n
    }

    /// The factor between logical and backing coordinates, `2^(n_array - reduced_n)`.
    pub fn get_scaling(&self) -> (r: usize)
        requires
            self.wf(),
        ensures
            r == self@.scale(),
    {
        proof {
            lemma_pow2_split(self@.reduced_n, self@.n);
            self.array.lemma_view_bounds();
        }
        two_pow(self.n_array - self.reduced_n)
    }

    /// The backing coordinate of a logical coordinate.
    pub fn convert(&self, x: usize) -> (r: usize)
        requires
            self.wf(),
            x * self@.scale() <= usize::MAX,
        ensures
            r == x * self@.scale(),
    {
        x * self.get_scaling()
    }

    /// Side of the logical grid, `2^reduced_n + 1`.
    pub fn get_reduced_width(&self) -> (r: usize)
        requires
            self.wf(),
        ensures
            r == self@.reduced_width(),
    {
        proof {
            lemma_pow2_split(self@.reduced_n, self@.n);
            self.array.lemma_view_bounds();
        }
        two_pow(self.reduced_n) + 1
    }

    /// Whether `(x, y)` names a position of the logical grid.
    pub fn is_position_valid(&self, x: i32, y: i32) -> (r: bool)
        requires
            self.wf(),
        ensures
            r == self@.covers(x as int, y as int),
    {
        let width: usize = self.get_reduced_width();
        0 <= x && 0 <= y && (x as usize) < width && (y as usize) < width
    }
}

} // verus!
