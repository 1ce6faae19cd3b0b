//! Contain implementation of Vec2D, a 2D matrix represented by a Vec.

use std::ops::{Index, IndexMut};
use vstd::prelude::*;
use vstd::std_specs::cmp::PartialEqSpec;
use vstd::std_specs::iter::IteratorSpec;

verus! {

/// The mathematical content of a two-dimensional matrix: its shape and its
/// cells, line after line.
pub struct Grid<T> {
    pub height: nat,
    pub width: nat,
    pub cells: Seq<T>,
}

/// Row `y`, column `x` lies at position `y * w + x` of a line-after-line layout,
/// and that position gives both coordinates back.
pub proof fn lemma_flat_index(y: int, x: int, h: int, w: int)
    requires
        0 <= y < h,
        0 <= x < w,
    ensures
        0 <= y * w + x < h * w,
        (y * w + x) / w == y,
        (y * w + x) % w == x,
{
    assert(0 <= y * w && y * w + w <= h * w) by (nonlinear_arith)
        requires
            0 <= y < h,
            0 < w,
    ;
    vstd::arithmetic::div_mod::lemma_fundamental_div_mod_converse(y * w + x, w, y, x);
}

/// Position `i` of a line-after-line layout lies at row `i / w`, column `i % w`.
pub proof fn lemma_flat_coordinates(i: int, h: int, w: int)
    requires
        0 <= i < h * w,
        0 <= h,
        0 <= w,
    ensures
        0 < w,
        0 <= i / w < h,
        0 <= i % w < w,
        (i / w) * w + i % w == i,
{
    assert(0 < w) by (nonlinear_arith)
        requires
            0 <= i < h * w,
            0 <= w,
    ;
    vstd::arithmetic::div_mod::lemma_fundamental_div_mod(i, w);
    vstd::arithmetic::div_mod::lemma_mod_bound(i, w);
    assert(0 <= i / w < h) by (nonlinear_arith)
        requires
            0 <= i < h * w,
            0 < w,
            i == w * (i / w) + i % w,
            0 <= i % w < w,
    ;
    assert((i / w) * w == w * (i / w)) by (nonlinear_arith);
}

impl<T> Grid<T> {
    /// The cells fill the shape exactly.
    pub open spec fn wf(self) -> bool {
        self.cells.len() == self.height * self.width
    }

    pub open spec fn in_bounds(self, y: int, x: int) -> bool {
        0 <= y < self.height && 0 <= x < self.width
    }

    /// The cell at row `y`, column `x`.
    pub open spec fn at(self, y: int, x: int) -> T {
        self.cells[y * self.width + x]
    }

    /// Row `y` as a sequence.
    pub open spec fn row(self, y: int) -> Seq<T> {
        self.cells.subrange(y * self.width, (y + 1) * self.width)
    }

    /// The matrix of the given shape whose cell at `(y, x)` is `f(y, x)`.
    pub open spec fn from_fn(height: nat, width: nat, f: spec_fn(int, int) -> T) -> Grid<T> {
        Grid {
            height,
            width,
            cells: Seq::new(height * width, |i: int| f(i / width as int, i % width as int)),
        }
    }

    /// Mirror image along the vertical axis: each row reversed.
    pub open spec fn reflected(self) -> Grid<T> {
        Grid::from_fn(self.height, self.width, |y: int, x: int| self.at(y, self.width - 1 - x))
    }

    /// Quarter turn anticlockwise: the shape is swapped, and the new cell
    /// `(y, x)` is the old cell `(x, width - 1 - y)`.
    pub open spec fn rotated(self) -> Grid<T> {
        Grid::from_fn(self.width, self.height, |y: int, x: int| self.at(x, self.width - 1 - y))
    }

    /// The window of the given shape whose upper left corner is `(y, x)`, read
    /// with both axes wrapping around. Of a matrix without cells it is that
    /// matrix.
    pub open spec fn sub_grid(self, y: int, x: int, height: nat, width: nat) -> Grid<T> {
        if self.cells.len() == 0 {
            Grid { height: self.height, width: self.width, cells: Seq::empty() }
        } else {
            Grid::from_fn(
                height,
                width,
                |dy: int, dx: int| self.at((y + dy) % self.height as int, (x + dx) % self.width as int),
            )
        }
    }

    /// `other` has the shape of `self`, and each of its cells is a clone of the
    /// cell of `self` at the same place.
    pub open spec fn cloned_to(self, other: Grid<T>) -> bool where T: Clone {
        &&& other.height == self.height
        &&& other.width == self.width
        &&& other.cells.len() == self.cells.len()
        &&& forall|k: int| 0 <= k < self.cells.len() ==> cloned(self.cells[k], #[trigger] other.cells[k])
    }

    /// `from_fn` gives a well-formed matrix of the given shape with the given cells.
    pub proof fn lemma_from_fn(height: nat, width: nat, f: spec_fn(int, int) -> T)
        ensures
            Grid::from_fn(height, width, f).wf(),
            Grid::from_fn(height, width, f).height == height,
            Grid::from_fn(height, width, f).width == width,
            forall|y: int, x: int|
                0 <= y < height && 0 <= x < width ==> #[trigger] Grid::from_fn(height, width, f).at(
                    y,
                    x,
                ) == f(y, x),
    {
        let g = Grid::from_fn(height, width, f);
        assert forall|y: int, x: int| 0 <= y < height && 0 <= x < width implies #[trigger] g.at(
            y,
            x,
        ) == f(y, x) by {
            lemma_flat_index(y, x, height as int, width as int);
        }
    }

    /// Two well-formed matrices of one shape that agree cell by cell are equal.
    pub proof fn lemma_ext(self, other: Grid<T>)
        requires
            self.wf(),
            other.wf(),
            self.height == other.height,
            self.width == other.width,
            forall|y: int, x: int| self.in_bounds(y, x) ==> self.at(y, x) == other.at(y, x),
        ensures
            self == other,
    {
        assert forall|i: int| 0 <= i < self.cells.len() implies self.cells[i] == other.cells[i] by {
            lemma_flat_coordinates(i, self.height as int, self.width as int);
            let y = i / self.width as int;
            let x = i % self.width as int;
            assert(self.in_bounds(y, x));
            assert(self.at(y, x) == other.at(y, x));
        }
        assert(self.cells =~= other.cells);
    }

    /// The shape and the cells of the mirror image.
    pub proof fn lemma_reflected(self)
        ensures
            self.reflected().wf(),
            self.reflected().height == self.height,
            self.reflected().width == self.width,
            forall|y: int, x: int|
                self.in_bounds(y, x) ==> #[trigger] self.reflected().at(y, x) == self.at(
                    y,
                    self.width - 1 - x,
                ),
    {
        Grid::lemma_from_fn(
            self.height,
            self.width,
            |y: int, x: int| self.at(y, self.width - 1 - x),
        );
    }

    /// The shape and the cells of the quarter turn.
    pub proof fn lemma_rotated(self)
        ensures
            self.rotated().wf(),
            self.rotated().height == self.width,
            self.rotated().width == self.height,
            forall|y: int, x: int|
                0 <= y < self.width && 0 <= x < self.height ==> #[trigger] self.rotated().at(y, x)
                    == self.at(x, self.width - 1 - y),
    {
        Grid::lemma_from_fn(
            self.width,
            self.height,
            |y: int, x: int| self.at(x, self.width - 1 - y),
        );
    }

    /// The shape and the cells of a window of a matrix that has cells.
    pub proof fn lemma_sub_grid(self, y: int, x: int, height: nat, width: nat)
        requires
            self.cells.len() > 0,
        ensures
            self.sub_grid(y, x, height, width).wf(),
            self.sub_grid(y, x, height, width).height == height,
            self.sub_grid(y, x, height, width).width == width,
            forall|dy: int, dx: int|
                0 <= dy < height && 0 <= dx < width ==> #[trigger] self.sub_grid(
                    y,
                    x,
                    height,
                    width,
                ).at(dy, dx) == self.at((y + dy) % self.height as int, (x + dx) % self.width as int),
    {
        Grid::lemma_from_fn(
            height,
            width,
            |dy: int, dx: int| self.at((y + dy) % self.height as int, (x + dx) % self.width as int),
        );
    }

    /// Where cloning a cell gives an equal cell, a matrix cloned cell by cell
    /// is equal to the one it was cloned from.
    pub proof fn lemma_cloned_equal(self, other: Grid<T>) where T: Clone
        requires
            clone_is_equal::<T>(),
            self.cloned_to(other),
        ensures
            self == other,
    {
        assert forall|k: int| 0 <= k < self.cells.len() implies self.cells[k] == other.cells[k] by {
            assert(cloned(self.cells[k], other.cells[k]));
        }
        assert(self.cells =~= other.cells);
    }
}

/// Cloning a value of the type always gives an equal value.
pub open spec fn clone_is_equal<T: Clone>() -> bool {
    forall|a: T, b: T| cloned(a, b) ==> a == b
}

/// Comparing two values of the type with `==` tells whether they are equal.
pub open spec fn eq_is_equal<T: PartialEq>() -> bool {
    &&& T::obeys_eq_spec()
    &&& forall|a: T, b: T| a.eq_spec(&b) <==> a == b
}

/// Reflecting twice gives the matrix back.
pub proof fn lemma_reflect_involution<T>(g: Grid<T>)
    requires
        g.wf(),
    ensures
        g.reflected().reflected() == g,
{
    let r = g.reflected();
    g.lemma_reflected();
    r.lemma_reflected();
    assert forall|y: int, x: int| g.in_bounds(y, x) implies r.reflected().at(y, x) == g.at(
        y,
        x,
    ) by {
        assert(r.in_bounds(y, g.width - 1 - x));
        assert(r.at(y, g.width - 1 - x) == g.at(y, g.width - 1 - (g.width - 1 - x)));
    }
    r.reflected().lemma_ext(g);
}

/// The cells of the half turn: two quarter turns.
pub proof fn lemma_rotated_twice<T>(g: Grid<T>)
    requires
        g.wf(),
    ensures
        g.rotated().rotated().wf(),
        g.rotated().rotated().height == g.height,
        g.rotated().rotated().width == g.width,
        forall|y: int, x: int|
            g.in_bounds(y, x) ==> #[trigger] g.rotated().rotated().at(y, x) == g.at(
                g.height - 1 - y,
                g.width - 1 - x,
            ),
{
    let a = g.rotated();
    let b = a.rotated();
    g.lemma_rotated();
    a.lemma_rotated();
    assert forall|y: int, x: int| g.in_bounds(y, x) implies #[trigger] b.at(y, x) == g.at(
        g.height - 1 - y,
        g.width - 1 - x,
    ) by {
        assert(b.at(y, x) == a.at(x, a.width - 1 - y));
        assert(a.at(x, g.height - 1 - y) == g.at(g.height - 1 - y, g.width - 1 - x));
    }
}

/// Four quarter turns give the matrix back.
pub proof fn lemma_rotate_four_times<T>(g: Grid<T>)
    requires
        g.wf(),
    ensures
        g.rotated().rotated().rotated().rotated() == g,
{
    let b = g.rotated().rotated();
    lemma_rotated_twice(g);
    lemma_rotated_twice(b);
    let d = b.rotated().rotated();
    assert forall|y: int, x: int| g.in_bounds(y, x) implies d.at(y, x) == g.at(y, x) by {
        assert(d.at(y, x) == b.at(b.height - 1 - y, b.width - 1 - x));
        assert(g.in_bounds(g.height - 1 - y, g.width - 1 - x));
    }
    d.lemma_ext(g);
}

/// Reflecting a quarter turn is the same as turning the mirror image back by a
/// quarter, that is, turning it three quarters on.
pub proof fn lemma_reflect_rotate<T>(g: Grid<T>)
    requires
        g.wf(),
    ensures
        g.rotated().reflected() == g.reflected().rotated().rotated().rotated(),
{
    let left = g.rotated().reflected();
    g.lemma_rotated();
    g.rotated().lemma_reflected();
    let m = g.reflected();
    g.lemma_reflected();
    let m1 = m.rotated();
    m.lemma_rotated();
    lemma_rotated_twice(m1);
    let right = m1.rotated().rotated();
    assert(right == g.reflected().rotated().rotated().rotated());
    assert forall|y: int, x: int| left.in_bounds(y, x) implies left.at(y, x) == right.at(y, x) by {
        // left: reflected quarter turn
        assert(g.rotated().in_bounds(y, g.height - 1 - x));
        assert(left.at(y, x) == g.rotated().at(y, g.height - 1 - x));
        assert(g.rotated().at(y, g.height - 1 - x) == g.at(g.height - 1 - x, g.width - 1 - y));
        // right: half turn of the quarter turn of the mirror image
        assert(m1.in_bounds(y, x));
        assert(right.at(y, x) == m1.at(m1.height - 1 - y, m1.width - 1 - x));
        assert(m1.at(g.width - 1 - y, g.height - 1 - x) == m.at(
            g.height - 1 - x,
            m.width - 1 - (g.width - 1 - y),
        ));
        assert(m.in_bounds(g.height - 1 - x, y));
        assert(m.at(g.height - 1 - x, y) == g.at(g.height - 1 - x, g.width - 1 - y));
    }
    left.lemma_ext(right);
}

/// A 2D matrix represented by a Vec.
/// The Vec contains the values line after line.
#[derive(Eq, Hash, Debug)]
pub struct Vec2D<T> {
    height: usize,
    width: usize,
    data: Vec<T>,
}

impl<T> View for Vec2D<T> {
    type V = Grid<T>;

    closed spec fn view(&self) -> Grid<T> {
        Grid { height: self.height as nat, width: self.width as nat, cells: self.data@ }
    }
}

/// Borrows the part of a vector between two positions for writing, as
/// `&mut v[begin..end]` of the standard library does: the slice holds that part,
/// keeps its length, and what is written to it is what the vector holds there
/// afterwards, the rest of the vector staying as it was.
#[verifier::external_body]
pub(crate) fn vec_range_mut<T>(v: &mut Vec<T>, begin: usize, end: usize) -> (r: &mut [T])
    requires
        begin <= end <= old(v).len(),
    ensures
        r@ == old(v)@.subrange(begin as int, end as int),
        final(r)@.len() == r@.len(),
        final(v)@ == old(v)@.subrange(0, begin as int) + final(r)@ + old(v)@.subrange(
            end as int,
            old(v).len() as int,
        ),
{
    &mut v[begin..end]
}

/// The iterator of the standard library over the cells of a slice, for
/// writing.
#[verifier::external_type_specification]
#[verifier::external_body]
#[verifier::reject_recursive_types(T)]
pub struct ExIterMut<'a, T: 'a>(std::slice::IterMut<'a, T>);

/// Hands out the cells of a vector one after the other for writing, as
/// `iter_mut` of the standard library does. The vector keeps its length;
/// nothing is stated of what is written.
#[verifier::external_body]
pub(crate) fn vec_iter_mut<T>(v: &mut Vec<T>) -> (r: std::slice::IterMut<'_, T>)
    ensures
        final(v)@.len() == old(v)@.len(),
{
    v.iter_mut()
}

impl<T> Vec2D<T> {
    /// The cells fill the shape exactly.
    pub open spec fn wf(&self) -> bool {
        self@.wf()
    }

    /// Each side of the shape is a machine number.
    pub proof fn lemma_shape_fits(&self)
        ensures
            self@.height <= usize::MAX,
            self@.width <= usize::MAX,
    {
    }

    /// Create a matrix given its height and width, that is filled with a value
    pub fn new(height: usize, width: usize, value: &T) -> (r: Vec2D<T>) where T: Clone
        requires
            height * width <= usize::MAX,
        ensures
            r.wf(),
            r@.height == height,
            r@.width == width,
            forall|k: int| 0 <= k < r@.cells.len() ==> cloned(*value, #[trigger] r@.cells[k]),
    {
        let n = height * width;
        let mut data: Vec<T> = Vec::new();
        let mut i: usize = 0;
        while i < n
            invariant
                i <= n,
                data.len() == i,
                forall|k: int| 0 <= k < i ==> cloned(*value, #[trigger] data[k]),
            decreases n - i,
        {
            data.push(value.clone());
            i += 1;
        }
        Vec2D { height, width, data }
    }

    /// Create a Vec2D given a vector representing its data, and the Vec2D size.
    /// The vector should be of the size height*width.
    pub fn from_vec(data: Vec<T>, height: usize, width: usize) -> (r: Vec2D<T>)
        requires
            height * width == data.len(),
        ensures
            r.wf(),
            r@ == (Grid { height: height as nat, width: width as nat, cells: data@ }),
    {
        Vec2D { height, width, data }
    }

    /// Create a Vec2D using a generator function that will be called in all cells.
    pub fn from_generator<F: Fn(usize, usize) -> T>(height: usize, width: usize, generator: F) -> (r:
        Vec2D<T>)
        requires
            height * width <= usize::MAX,
            forall|i: usize, j: usize| i < height && j < width ==> call_requires(generator, (i, j)),
        ensures
            r.wf(),
            r@.height == height,
            r@.width == width,
            forall|i: usize, j: usize|
                i < height && j < width ==> call_ensures(generator, (i, j), #[trigger] r@.at(
                    i as int,
                    j as int,
                )),
    {
        let mut data: Vec<T> = Vec::new();
        let mut i: usize = 0;
        while i < height
            invariant
                i <= height,
                height * width <= usize::MAX,
                data.len() == i * width,
                forall|a: usize, b: usize| a < height && b < width ==> call_requires(generator, (a, b)),
                forall|a: usize, b: usize|
                    a < i && b < width ==> call_ensures(
                        generator,
                        (a, b),
                        #[trigger] data@[a * width + b],
                    ),
            decreases height - i,
        {
            let mut j: usize = 0;
            while j < width
                invariant
                    i < height,
                    j <= width,
                    height * width <= usize::MAX,
                    data.len() == i * width + j,
                    forall|a: usize, b: usize|
                        a < height && b < width ==> call_requires(generator, (a, b)),
                    forall|a: usize, b: usize|
                        (a < i && b < width) || (a == i && b < j) ==> call_ensures(
                            generator,
                            (a, b),
                            #[trigger] data@[a * width + b],
                        ),
                decreases width - j,
            {
                let ghost before = data@;
                data.push(generator(i, j));
                proof {
                    assert forall|a: usize, b: usize|
                        (a < i && b < width) || (a == i && b < j + 1) implies call_ensures(
                        generator,
                        (a, b),
                        #[trigger] data@[a * width + b],
                    ) by {
                        if a == i && b == j {
                        } else {
                            lemma_flat_index(a as int, b as int, i + 1, width as int);
                            assert(a * width + b < i * width + j) by (nonlinear_arith)
                                requires
                                    (a < i && b < width) || (a == i && b < j),
                            ;
                            assert(data@[a * width + b] == before[a * width + b]);
                        }
                    }
                }
                j += 1;
            }
            assert((i + 1) * width == i * width + width) by (nonlinear_arith);
            i += 1;
        }
        Vec2D { height, width, data }
    }

    /// Get the Vec2D data as a Vec.
    pub fn into_vec(self) -> (r: Vec<T>)
        ensures
            r@ == self@.cells,
    {
        self.data
    }

    /// Return an iterator on the data contained in the vec2D
    pub fn iter(&self) -> (r: std::slice::Iter<'_, T>)
        ensures
            r.remaining() == self@.cells.as_ref(),
    {
        broadcast use vstd::std_specs::slice::axiom_spec_slice_iter;

        self.data.as_slice().iter()
    }

    /// Return an iterator on the data contained in the vec2D
    pub fn iter_mut(&mut self) -> (r: std::slice::IterMut<'_, T>)
        ensures
            final(self)@.height == old(self)@.height,
            final(self)@.width == old(self)@.width,
            final(self)@.cells.len() == old(self)@.cells.len(),
            old(self).wf() ==> final(self).wf(),
    {
        vec_iter_mut(&mut self.data)
    }

    /// The cells, line after line.
    pub fn as_slice(&self) -> (r: &[T])
        ensures
            r@ == self@.cells,
    {
        self.data.as_slice()
    }

    /// Get the height of the Vec2D.
    pub fn height(&self) -> (r: usize)
        ensures
            r == self@.height,
    {
        self.height
    }

    /// Get the width of the Vec2D.
    pub fn width(&self) -> (r: usize)
        ensures
            r == self@.width,
    {
        self.width
    }

    /// Read the cell at row `y`, column `x`.
    pub fn get(&self, y: usize, x: usize) -> (r: &T)
        requires
            self.wf(),
            y < self@.height,
            x < self@.width,
        ensures
            *r == self@.at(y as int, x as int),
    {
        let len = self.data.len();
        proof {
            lemma_flat_index(y as int, x as int, self.height as int, self.width as int);
        }
        &self.data[y * self.width + x]
    }

    /// Replace the cell at row `y`, column `x`.
    pub fn set(&mut self, y: usize, x: usize, value: T)
        requires
            old(self).wf(),
            y < old(self)@.height,
            x < old(self)@.width,
        ensures
            final(self).wf(),
            final(self)@.height == old(self)@.height,
            final(self)@.width == old(self)@.width,
            final(self)@.cells == old(self)@.cells.update(y * old(self)@.width + x, value),
    {
        let len = self.data.len();
        proof {
            lemma_flat_index(y as int, x as int, self.height as int, self.width as int);
        }
        let k = y * self.width + x;
        self.data[k] = value;
    }

    /// Row `i` of the matrix.
    pub fn row(&self, i: usize) -> (r: &[T])
        requires
            (i + 1) * self@.width <= self@.cells.len(),
        ensures
            r@ == self@.row(i as int),
    {
        let width = self.width;
        let len = self.data.len();
        assert(i * width <= (i + 1) * width && (i + 1) * width == i * width + width)
            by (nonlinear_arith);
        let begin = i * width;
        let end = begin + width;
        vstd::slice::slice_subrange(self.data.as_slice(), begin, end)
    }

    /// Row `i` of the matrix, for writing. The rest of the matrix stays as it
    /// is.
    pub fn row_mut(&mut self, i: usize) -> (r: &mut [T])
        requires
            (i + 1) * old(self)@.width <= old(self)@.cells.len(),
        ensures
            r@ == old(self)@.row(i as int),
            final(r)@.len() == r@.len(),
            final(self)@.height == old(self)@.height,
            final(self)@.width == old(self)@.width,
            final(self)@.cells == old(self)@.cells.subrange(0, i * old(self)@.width) + final(r)@
                + old(self)@.cells.subrange(
                (i + 1) * old(self)@.width,
                old(self)@.cells.len() as int,
            ),
            old(self).wf() ==> final(self).wf(),
    {
        let width = self.width;
        let len = self.data.len();
        assert(i * width <= (i + 1) * width && (i + 1) * width == i * width + width)
            by (nonlinear_arith);
        let begin = i * width;
        let end = begin + width;
        vec_range_mut(&mut self.data, begin, end)
    }

    /// Get the reflection along the x axis.
    pub fn reflected(&self) -> (r: Vec2D<T>) where T: Clone
        requires
            self.wf(),
        ensures
            r.wf(),
            self@.reflected().cloned_to(r@),
            clone_is_equal::<T>() ==> r@ == self@.reflected(),
    {
        let height = self.height;
        let width = self.width;
        let len = self.data.len();
        let ghost model = self@.reflected();
        proof {
            self@.lemma_reflected();
        }
        let mut data: Vec<T> = Vec::new();
        let mut y: usize = 0;
        while y < height
            invariant
                self.wf(),
                height == self.height,
                width == self.width,
                model == self@.reflected(),
                model.wf(),
                model.height == height,
                model.width == width,
                height * width <= usize::MAX,
                y <= height,
                data.len() == y * width,
                data.len() <= model.cells.len(),
                forall|k: int| 0 <= k < data.len() ==> cloned(model.cells[k], #[trigger] data[k]),
            decreases height - y,
        {
            let mut x: usize = 0;
            while x < width
                invariant
                    self.wf(),
                    height == self.height,
                    width == self.width,
                    model == self@.reflected(),
                    model.wf(),
                    model.height == height,
                    model.width == width,
                    height * width <= usize::MAX,
                    y < height,
                    x <= width,
                    data.len() == y * width + x,
                    data.len() <= model.cells.len(),
                forall|k: int| 0 <= k < data.len() ==> cloned(model.cells[k], #[trigger] data[k]),
                decreases width - x,
            {
                proof {
                    self@.lemma_reflected();
                    lemma_flat_index(y as int, width - 1 - x, height as int, width as int);
                    lemma_flat_index(y as int, x as int, height as int, width as int);
                    assert(model.at(y as int, x as int) == self@.at(y as int, width - 1 - x));
                }
                let value = self.data[y * width + (width - 1 - x)].clone();
                data.push(value);
                x += 1;
            }
            assert((y + 1) * width == y * width + width) by (nonlinear_arith);
            y += 1;
        }
        let r = Vec2D { height, width, data };
        proof {
            if clone_is_equal::<T>() {
                model.lemma_cloned_equal(r@);
            }
        }
        r
    }

    /// Get the 90° anticlockwise rotation.
    pub fn rotated(&self) -> (r: Vec2D<T>) where T: Clone
        requires
            self.wf(),
        ensures
            r.wf(),
            self@.rotated().cloned_to(r@),
            clone_is_equal::<T>() ==> r@ == self@.rotated(),
    {
        let height = self.width;
        let width = self.height;
        let len = self.data.len();
        let ghost model = self@.rotated();
        proof {
            self@.lemma_rotated();
            assert(height * width == width * height) by (nonlinear_arith);
        }
        let mut data: Vec<T> = Vec::new();
        let mut y: usize = 0;
        while y < height
            invariant
                self.wf(),
                height == self.width,
                width == self.height,
                model == self@.rotated(),
                model.wf(),
                model.height == height,
                model.width == width,
                height * width <= usize::MAX,
                y <= height,
                data.len() == y * width,
                data.len() <= model.cells.len(),
                forall|k: int| 0 <= k < data.len() ==> cloned(model.cells[k], #[trigger] data[k]),
            decreases height - y,
        {
            let mut x: usize = 0;
            while x < width
                invariant
                    self.wf(),
                    height == self.width,
                    width == self.height,
                    model == self@.rotated(),
                    model.wf(),
                    model.height == height,
                    model.width == width,
                    height * width <= usize::MAX,
                    y < height,
                    x <= width,
                    data.len() == y * width + x,
                    data.len() <= model.cells.len(),
                forall|k: int| 0 <= k < data.len() ==> cloned(model.cells[k], #[trigger] data[k]),
                decreases width - x,
            {
                proof {
                    self@.lemma_rotated();
                    lemma_flat_index(x as int, height - 1 - y, width as int, height as int);
                    lemma_flat_index(y as int, x as int, height as int, width as int);
                    assert(model.at(y as int, x as int) == self@.at(x as int, height - 1 - y));
                }
                let value = self.data[x * height + (height - 1 - y)].clone();
                data.push(value);
                x += 1;
            }
            assert((y + 1) * width == y * width + width) by (nonlinear_arith);
            y += 1;
        }
        let r = Vec2D { height, width, data };
        proof {
            if clone_is_equal::<T>() {
                model.lemma_cloned_equal(r@);
            }
        }
        r
    }

    /// Get a submatrix given its upper leftmost position, and its size.
    /// The matrices are here considered toric.
    pub fn get_sub_vec(&self, y: usize, x: usize, sub_height: usize, sub_width: usize) -> (r: Vec2D<
        T,
    >) where T: Clone
        requires
            self.wf(),
            sub_height <= self@.height,
            sub_width <= self@.width,
        ensures
            r.wf(),
            self@.sub_grid(y as int, x as int, sub_height as nat, sub_width as nat).cloned_to(r@),
            clone_is_equal::<T>() ==> r@ == self@.sub_grid(
                y as int,
                x as int,
                sub_height as nat,
                sub_width as nat,
            ),
    {
        let ghost model = self@.sub_grid(y as int, x as int, sub_height as nat, sub_width as nat);
        if self.data.len() == 0 {
            let r = Vec2D { height: self.height, width: self.width, data: Vec::new() };
            proof {
                assert(r@.cells =~= model.cells);
            }
            return r;
        }
        let height = self.height;
        let width = self.width;
        proof {
            self@.lemma_sub_grid(y as int, x as int, sub_height as nat, sub_width as nat);
            assert(height > 0 && width > 0) by (nonlinear_arith)
                requires
                    height * width > 0,
            ;
            assert(sub_height * sub_width <= height * width) by (nonlinear_arith)
                requires
                    sub_height <= height,
                    sub_width <= width,
            ;
        }
        let y0 = y % height;
        let x0 = x % width;
        let mut data: Vec<T> = Vec::new();
        let mut dy: usize = 0;
        while dy < sub_height
            invariant
                self.wf(),
                height == self.height,
                width == self.width,
                height > 0,
                width > 0,
                sub_height <= height,
                sub_width <= width,
                y0 == y % height,
                x0 == x % width,
                model == self@.sub_grid(y as int, x as int, sub_height as nat, sub_width as nat),
                self@.cells.len() > 0,
                model.wf(),
                model.height == sub_height,
                model.width == sub_width,
                height * width <= usize::MAX,
                dy <= sub_height,
                data.len() == dy * sub_width,
                data.len() <= model.cells.len(),
                forall|k: int| 0 <= k < data.len() ==> cloned(model.cells[k], #[trigger] data[k]),
            decreases sub_height - dy,
        {
            let row = wrapped_sum(y0, dy, height);
            let mut dx: usize = 0;
            while dx < sub_width
                invariant
                    self.wf(),
                    height == self.height,
                    width == self.width,
                    height > 0,
                    width > 0,
                    sub_height <= height,
                    sub_width <= width,
                    y0 == y % height,
                    x0 == x % width,
                    row == (y0 + dy) % height as int,
                    model == self@.sub_grid(y as int, x as int, sub_height as nat, sub_width as nat),
                    self@.cells.len() > 0,
                    model.wf(),
                    model.height == sub_height,
                    model.width == sub_width,
                    height * width <= usize::MAX,
                    dy < sub_height,
                    dx <= sub_width,
                    data.len() == dy * sub_width + dx,
                    data.len() <= model.cells.len(),
                forall|k: int| 0 <= k < data.len() ==> cloned(model.cells[k], #[trigger] data[k]),
                decreases sub_width - dx,
            {
                let column = wrapped_sum(x0, dx, width);
                proof {
                    self@.lemma_sub_grid(y as int, x as int, sub_height as nat, sub_width as nat);
                    vstd::arithmetic::div_mod::lemma_add_mod_noop_right(
                        dy as int,
                        y as int,
                        height as int,
                    );
                    vstd::arithmetic::div_mod::lemma_add_mod_noop_right(
                        dx as int,
                        x as int,
                        width as int,
                    );
                    lemma_flat_index(row as int, column as int, height as int, width as int);
                    lemma_flat_index(dy as int, dx as int, sub_height as int, sub_width as int);
                    assert(model.at(dy as int, dx as int) == self@.at(row as int, column as int));
                }
                let value = self.data[row * width + column].clone();
                data.push(value);
                dx += 1;
            }
            assert((dy + 1) * sub_width == dy * sub_width + sub_width) by (nonlinear_arith);
            dy += 1;
        }
        let r = Vec2D { height: sub_height, width: sub_width, data };
        proof {
            if clone_is_equal::<T>() {
                model.lemma_cloned_equal(r@);
            }
        }
        r
    }
}

/// The sum of two numbers below `modulus`, wrapped around at `modulus`.
fn wrapped_sum(a: usize, b: usize, modulus: usize) -> (r: usize)
    requires
        a < modulus,
        b < modulus,
    ensures
        r == (a + b) % modulus as int,
        r < modulus,
{
    if a >= modulus - b {
        proof {
            vstd::arithmetic::div_mod::lemma_fundamental_div_mod_converse(
                a + b,
                modulus as int,
                1,
                a + b - modulus,
            );
        }
        a - (modulus - b)
    } else {
        proof {
            vstd::arithmetic::div_mod::lemma_small_mod((a + b) as nat, modulus as nat);
        }
        a + b
    }
}

impl<T: Clone> Clone for Vec2D<T> {
    fn clone(&self) -> (r: Self)
        ensures
            self@.cloned_to(r@),
            self.wf() ==> r.wf(),
            clone_is_equal::<T>() ==> r@ == self@,
    {
        let n = self.data.len();
        let mut data: Vec<T> = Vec::new();
        let mut i: usize = 0;
        while i < n
            invariant
                n == self.data.len(),
                i <= n,
                data.len() == i,
                forall|k: int| 0 <= k < i ==> cloned(self.data[k], #[trigger] data[k]),
            decreases n - i,
        {
            data.push(self.data[i].clone());
            i += 1;
        }
        let r = Vec2D { height: self.height, width: self.width, data };
        proof {
            if clone_is_equal::<T>() {
                self@.lemma_cloned_equal(r@);
            }
        }
        r
    }
}

impl<T: PartialEq> PartialEq for Vec2D<T> {
    fn eq(&self, other: &Self) -> (r: bool) {
        if self.height != other.height || self.width != other.width || self.data.len()
            != other.data.len() {
            return false;
        }
        let n = self.data.len();
        let mut i: usize = 0;
        while i < n
            invariant
                n == self.data.len(),
                n == other.data.len(),
                i <= n,
                T::obeys_eq_spec() ==> forall|k: int|
                    0 <= k < i ==> (#[trigger] self.data[k]).eq_spec(&other.data[k]),
            decreases n - i,
        {
            if self.data[i] != other.data[i] {
                proof {
                    if T::obeys_eq_spec() {
                        assert(!self@.cells[i as int].eq_spec(&other@.cells[i as int]));
                    }
                }
                return false;
            }
            i += 1;
        }
        true
    }
}

impl<T: PartialEq> vstd::std_specs::cmp::PartialEqSpecImpl for Vec2D<T> {
    open spec fn obeys_eq_spec() -> bool {
        T::obeys_eq_spec()
    }

    /// Two matrices compare equal when they have one shape and their cells
    /// compare equal place by place.
    open spec fn eq_spec(&self, other: &Self) -> bool {
        &&& self@.height == other@.height
        &&& self@.width == other@.width
        &&& self@.cells.len() == other@.cells.len()
        &&& forall|k: int|
            0 <= k < self@.cells.len() ==> (#[trigger] self@.cells[k]).eq_spec(&other@.cells[k])
    }
}

/// Where `==` on the cells tells whether they are equal, `==` on two matrices
/// tells whether they are equal.
pub proof fn lemma_eq_spec_is_equal<T: PartialEq>(a: Vec2D<T>, b: Vec2D<T>)
    requires
        eq_is_equal::<T>(),
    ensures
        a.eq_spec(&b) <==> a@ == b@,
{
    if a.eq_spec(&b) {
        assert forall|k: int| 0 <= k < a@.cells.len() implies a@.cells[k] == b@.cells[k] by {
            assert(a@.cells[k].eq_spec(&b@.cells[k]));
        }
        assert(a@.cells =~= b@.cells);
    }
    if a@ == b@ {
        assert forall|k: int| 0 <= k < a@.cells.len() implies (#[trigger] a@.cells[k]).eq_spec(
            &b@.cells[k],
        ) by {
            assert(a@.cells[k] == b@.cells[k]);
        }
    }
}

impl<T> vstd::std_specs::core::IndexSpecImpl<usize> for Vec2D<T> {
    open spec fn index_req(&self, i: &usize) -> bool {
        (*i + 1) * self@.width <= self@.cells.len()
    }
}

impl<T> Index<usize> for Vec2D<T> {
    type Output = [T];

    fn index(&self, i: usize) -> (r: &[T])
        ensures
            r@ == self@.row(i as int),
    {
        self.row(i)
    }
}

impl<T> IndexMut<usize> for Vec2D<T> {
    fn index_mut(&mut self, i: usize) -> (r: &mut [T])
        requires
            (i + 1) * old(self)@.width <= old(self)@.cells.len(),
        ensures
            r@ == old(self)@.row(i as int),
            final(r)@.len() == r@.len(),
            final(self)@.height == old(self)@.height,
            final(self)@.width == old(self)@.width,
            final(self)@.cells == old(self)@.cells.subrange(0, i * old(self)@.width) + final(r)@
                + old(self)@.cells.subrange(
                (i + 1) * old(self)@.width,
                old(self)@.cells.len() as int,
            ),
            old(self).wf() ==> final(self).wf(),
    {
        self.row_mut(i)
    }
}

impl<'a, T> IntoIterator for &'a Vec2D<T> {
    type Item = &'a T;

    type IntoIter = std::slice::Iter<'a, T>;

    fn into_iter(self) -> (r: std::slice::Iter<'a, T>)
        ensures
            r.remaining() == self@.cells.as_ref(),
    {
        broadcast use vstd::std_specs::slice::axiom_spec_slice_iter;

        self.data.as_slice().iter()
    }
}

impl<'a, T> IntoIterator for &'a mut Vec2D<T> {
    type Item = &'a mut T;

    type IntoIter = std::slice::IterMut<'a, T>;

    fn into_iter(self) -> (r: std::slice::IterMut<'a, T>)
        ensures
            final(self)@.height == old(self)@.height,
            final(self)@.width == old(self)@.width,
            final(self)@.cells.len() == old(self)@.cells.len(),
            old(self).wf() ==> final(self).wf(),
    {
        vec_iter_mut(&mut self.data)
    }
}

} // verus!
