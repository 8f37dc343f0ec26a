//! A rectangular grid stored row by row in one buffer.

use vstd::prelude::*;

verus! {

/// What a grid is, mathematically: its two dimensions and its cells, row by row.
pub struct GridView<T> {
    pub width: nat,
    pub height: nat,
    pub cells: Seq<T>,
}

impl<T> GridView<T> {
    /// The buffer holds exactly one cell per position.
    pub open spec fn wf(self) -> bool {
        self.cells.len() == self.width * self.height
    }

    /// `(x, y)` names a position of the grid.
    pub open spec fn contains(self, x: int, y: int) -> bool {
        0 <= x < self.width && 0 <= y < self.height
    }

    /// Place of `(x, y)` in the buffer.
    pub open spec fn index_of(self, x: int, y: int) -> int {
        y * self.width + x
    }

    /// `(x, y)` names a position of the grid whose place lies inside the
    /// buffer. In a well-formed grid every position is of this kind.
    pub open spec fn holds(self, x: int, y: int) -> bool {
        self.contains(x, y) && 0 <= self.index_of(x, y) < self.cells.len()
    }

    /// The cell at `(x, y)`.
    pub open spec fn at(self, x: int, y: int) -> T {
        self.cells[self.index_of(x, y)]
    }

    /// The grid with the cell at `(x, y)` replaced by `value`.
    pub open spec fn put(self, x: int, y: int, value: T) -> GridView<T> {
        GridView {
            width: self.width,
            height: self.height,
            cells: self.cells.update(self.index_of(x, y), value),
        }
    }

    /// Both grids have the same dimensions.
    pub open spec fn same_shape(self, other: GridView<T>) -> bool {
        self.width == other.width && self.height == other.height
    }

    /// Both dimensions equal `side`.
    pub open spec fn is_square(self, side: nat) -> bool {
        self.width == side && self.height == side
    }
}

/// A position inside a well-formed grid has a place inside its buffer.
pub proof fn lemma_index_in_range<T>(g: GridView<T>, x: int, y: int)
    requires
        g.wf(),
        g.contains(x, y),
    ensures
        0 <= y * g.width,
        0 <= g.index_of(x, y) < g.cells.len(),
{
    let w = g.width as int;
    let h = g.height as int;
    assert(0 <= y * w) by (nonlinear_arith)
        requires
            0 <= y,
            0 <= w,
    ;
    assert(y * w + x < w * h) by (nonlinear_arith)
        requires
            0 <= x < w,
            0 <= y < h,
    ;
}

/// Two positions of a grid that share a place in the buffer are the same position.
pub proof fn lemma_index_injective<T>(g: GridView<T>, x1: int, y1: int, x2: int, y2: int)
    requires
        g.contains(x1, y1),
        g.contains(x2, y2),
        g.index_of(x1, y1) == g.index_of(x2, y2),
    ensures
        x1 == x2,
        y1 == y2,
{
    let w = g.width as int;
    assert(y1 == y2) by (nonlinear_arith)
        requires
            0 <= x1 < w,
            0 <= x2 < w,
            y1 * w + x1 == y2 * w + x2,
    ;
}

/// Reading a grid after one cell was replaced: the new value at that position,
/// the old value everywhere else.
pub proof fn lemma_put_at<T>(g: GridView<T>, x: int, y: int, value: T, x2: int, y2: int)
    requires
        g.wf(),
        g.contains(x, y),
        g.contains(x2, y2),
    ensures
        g.put(x, y, value).wf(),
        g.put(x, y, value).same_shape(g),
        g.put(x, y, value).at(x2, y2) == if x2 == x && y2 == y {
            value
        } else {
            g.at(x2, y2)
        },
{
    lemma_index_in_range(g, x, y);
    lemma_index_in_range(g, x2, y2);
    if g.index_of(x, y) == g.index_of(x2, y2) {
        lemma_index_injective(g, x, y, x2, y2);
    }
}

/// Two well-formed grids of the same shape that agree at every position are
/// the same grid.
pub proof fn lemma_grids_equal<T>(a: GridView<T>, b: GridView<T>)
    requires
        a.wf(),
        b.wf(),
        a.same_shape(b),
        forall|x: int, y: int| a.contains(x, y) ==> #[trigger] a.at(x, y) == b.at(x, y),
    ensures
        a == b,
{
    let w = a.width as int;
    assert forall|k: int| 0 <= k < a.cells.len() implies a.cells[k] == b.cells[k] by {
        assert(w > 0) by (nonlinear_arith)
            requires
                0 <= k < w * a.height,
                w >= 0,
        ;
        vstd::arithmetic::div_mod::lemma_fundamental_div_mod(k, w);
        vstd::arithmetic::div_mod::lemma_mod_bound(k, w);
        let x = k % w;
        let y = k / w;
        assert(0 <= y < a.height) by (nonlinear_arith)
            requires
                0 <= k < w * a.height,
                k == y * w + x,
                0 <= x < w,
        ;
        assert(a.at(x, y) == b.at(x, y));
    }
    assert(a.cells =~= b.cells);
}

/// A fixed-size grid of cells. Positions outside the grid are answered with
/// `None`, never with an error.
///
/// A grid is well-formed when its buffer has one cell per position. Reading
/// and writing single cells is defined for every grid; what works on whole
/// grids asks for well-formed ones.
pub struct Arr2d<T> {
    vector: Vec<T>,
    width: usize,
    height: usize,
}

impl<T> View for Arr2d<T> {
    type V = GridView<T>;

    closed spec fn view(&self) -> GridView<T> {
        GridView { width: self.width as nat, height: self.height as nat, cells: self.vector@ }
    }
}

impl<T> Arr2d<T> {
    /// The buffer has one cell per position. Every constructor establishes this,
    /// and only a caller that resizes the buffer through `get_mut_vec` can undo it.
    pub open spec fn wf(&self) -> bool {
        self@.wf()
    }

    /// The dimensions and the buffer's length are machine integers.
    pub proof fn lemma_view_bounds(&self)
        ensures
            self@.width <= usize::MAX,
            self@.height <= usize::MAX,
            self@.cells.len() <= usize::MAX,
    {
        let n = self.vector.len();
    }

    /// The place of `(x, y)` in the buffer, if the position lies in the grid
    /// and the buffer reaches that far.
    fn place(&self, x: usize, y: usize) -> (r: Option<usize>)
        ensures
            match r {
                Some(index) => self@.holds(x as int, y as int) && index == self@.index_of(
                    x as int,
                    y as int,
                ),
                None => !self@.holds(x as int, y as int),
            },
            self.wf() ==> (r.is_some() <==> self@.contains(x as int, y as int)),
    {
        let length: usize = self.vector.len();
        proof {
            if self.wf() && self@.contains(x as int, y as int) {
                lemma_index_in_range(self@, x as int, y as int);
            }
            assert(0 <= y * self.width) by (nonlinear_arith);
        }
        if x >= self.width || y >= self.height {
            return None;
        }
        match y.checked_mul(self.width) {
            Some(row) => match row.checked_add(x) {
                Some(index) => if index < length {
                    Some(index)
                } else {
                    None
                },
                None => None,
            },
            None => None,
        }
    }

    /// The cell at `(x, y)`, or `None` outside the grid.
    pub fn get(&self, x: usize, y: usize) -> (r: Option<&T>)
        ensures
            match r {
                Some(cell) => self@.holds(x as int, y as int) && *cell == self@.at(
                    x as int,
                    y as int,
                ),
                None => !self@.holds(x as int, y as int),
            },
            self.wf() ==> (r.is_some() <==> self@.contains(x as int, y as int)),
    {
        match self.place(x, y) {
            Some(index) => Some(&self.vector[index]),
            None => None,
        }
    }

    /// As `get`, for signed coordinates: a negative coordinate is outside the grid.
    pub fn geti(&self, x: i32, y: i32) -> (r: Option<&T>)
        ensures
            match r {
                Some(cell) => self@.holds(x as int, y as int) && *cell == self@.at(
                    x as int,
                    y as int,
                ),
                None => !self@.holds(x as int, y as int),
            },
            self.wf() ==> (r.is_some() <==> self@.contains(x as int, y as int)),
    {
        if x < 0 || y < 0 {
            None
        } else {
            self.get(x as usize, y as usize)
        }
    }

    /// A mutable borrow of the cell at `(x, y)`, or `None` outside the grid.
    /// Whatever is written through the borrow is the only change to the grid.
    pub fn get_mut(&mut self, x: usize, y: usize) -> (r: Option<&mut T>)
        ensures
            match r {
                Some(cell) => old(self)@.holds(x as int, y as int) && *cell == old(self)@.at(
                    x as int,
                    y as int,
                ) && final(self)@ == old(self)@.put(x as int, y as int, *final(cell)),
                None => !old(self)@.holds(x as int, y as int) && final(self)@ == old(self)@,
            },
            old(self).wf() ==> (r.is_some() <==> old(self)@.contains(x as int, y as int)),
            old(self).wf() ==> final(self).wf(),
    {
        match self.place(x, y) {
            Some(index) => Some(&mut self.vector[index]),
            None => None,
        }
    }

    /// The buffer, row by row.
    pub fn get_vec(&self) -> (r: &Vec<T>)
        ensures
            r@ == self@.cells,
    {
        &self.vector
    }

    /// A mutable borrow of the buffer. The dimensions stay as they are, so the
    /// grid stays well-formed only if the buffer keeps its length.
    pub fn get_mut_vec(&mut self) -> (r: &mut Vec<T>)
        ensures
            r@ == old(self)@.cells,
            final(self)@ == (GridView {
                width: old(self)@.width,
                height: old(self)@.height,
                cells: final(r)@,
            }),
    {
        &mut self.vector
    }

    /// The number of columns.
    pub fn get_width(&self) -> (r: usize)
        ensures
            r == self@.width,
    {
        self.width
    }

    /// The number of rows.
    pub fn get_height(&self) -> (r: usize)
        ensures
            r == self@.height,
    {
        self.height
    }

    /// The number of cells.
    pub fn get_length(&self) -> (r: usize)
        requires
            self.wf(),
        ensures
            r == self@.width * self@.height,
            r == self@.cells.len(),
    {
        let ghost n = self.vector.len();
        self.width * self.height
    }

    /// The grid of the given dimensions over an existing buffer.
    pub fn from_vec(v: Vec<T>, width: usize, height: usize) -> (r: Arr2d<T>)
        requires
            v@.len() == width * height,
        ensures
            r.wf(),
            r@ == (GridView { width: width as nat, height: height as nat, cells: v@ }),
    {
        Arr2d { vector: v, width, height }
    }
}

impl<T: Clone> Clone for Arr2d<T> {
    /// A grid of the same shape whose cells are clones of this grid's cells.
    fn clone(&self) -> (r: Arr2d<T>)
        ensures
            r@.same_shape(self@),
            r@.cells.len() == self@.cells.len(),
            forall|i: int|
                0 <= i < self@.cells.len() ==> cloned::<T>(self@.cells[i], #[trigger] r@.cells[i]),
    {
        Arr2d { vector: self.vector.clone(), width: self.width, height: self.height }
    }
}

impl<T: Copy> Arr2d<T> {
    /// The grid of the given dimensions with `value` in every cell.
    pub fn init_with_value(width: usize, height: usize, value: T) -> (r: Arr2d<T>)
        requires
            width * height <= usize::MAX,
        ensures
            r.wf(),
            r@.width == width,
            r@.height == height,
            forall|i: int| 0 <= i < r@.cells.len() ==> r@.cells[i] == value,
    {
        let length: usize = width * height;
        let mut v: Vec<T> = Vec::with_capacity(length);
        let mut i: usize = 0;
        while i < length
            invariant
                i <= length,
                v@.len() == i,
                forall|j: int| 0 <= j < i ==> v@[j] == value,
            decreases length - i,
        {
            v.push(value);
            i += 1;
        }
        Arr2d { vector: v, width, height }
    }
}

impl<T: Copy + Default> Arr2d<T> {
    /// The grid of the given dimensions with the default value of the cell
    /// type, which is zero for a number, in every cell.
    pub fn zeros(width: usize, height: usize) -> (r: Arr2d<T>)
        requires
            width * height <= usize::MAX,
        ensures
            r.wf(),
            r@.width == width,
            r@.height == height,
            exists|zero: T|
                #[trigger] call_ensures(T::default, (), zero) && forall|i: int|
                    0 <= i < r@.cells.len() ==> r@.cells[i] == zero,
    {
        let zero = T::default();
        Arr2d::init_with_value(width, height, zero)
    }
}

} // verus!
