//! Contains the Vec3D implementation, a 3D matrix represented by a Vec.

use crate::utils::vec2d::{
    clone_is_equal, lemma_flat_coordinates, lemma_flat_index, vec_iter_mut, vec_range_mut,
};
use std::ops::{Index, IndexMut};
use vstd::prelude::*;
use vstd::std_specs::iter::IteratorSpec;

verus! {

/// The mathematical content of a three-dimensional matrix: its shape and its
/// cells. The last coordinate runs fastest.
pub struct Grid3<T> {
    pub depth: nat,
    pub height: nat,
    pub width: nat,
    pub cells: Seq<T>,
}

impl<T> Grid3<T> {
    /// The cells fill the shape exactly.
    pub open spec fn wf(self) -> bool {
        self.cells.len() == self.depth * self.height * self.width
    }

    pub open spec fn in_bounds(self, i: int, j: int, k: int) -> bool {
        0 <= i < self.depth && 0 <= j < self.height && 0 <= k < self.width
    }

    /// The position of the cell `(i, j, k)` among the cells.
    pub open spec fn flat(self, i: int, j: int, k: int) -> int {
        k + self.width * (j + i * self.height)
    }

    /// The cell at `(i, j, k)`.
    pub open spec fn at(self, i: int, j: int, k: int) -> T {
        self.cells[self.flat(i, j, k)]
    }

    /// The cells `(i, j, 0)`, `(i, j, 1)`, ... as a sequence.
    pub open spec fn row(self, i: int, j: int) -> Seq<T> {
        self.cells.subrange(self.flat(i, j, 0), self.flat(i, j, 0) + self.width)
    }

    /// A cell inside the shape has a position among the cells, and the
    /// position gives the three coordinates back.
    pub proof fn lemma_flat(self, i: int, j: int, k: int)
        requires
            self.wf(),
            self.in_bounds(i, j, k),
        ensures
            0 <= self.flat(i, j, k) < self.cells.len(),
            self.flat(i, j, k) % self.width as int == k,
            (self.flat(i, j, k) / self.width as int) % self.height as int == j,
            (self.flat(i, j, k) / self.width as int) / self.height as int == i,
            self.flat(i, j, 0) + self.width <= self.cells.len(),
            0 <= j + i * self.height < self.depth * self.height,
    {
        let r = i * self.height + j;
        lemma_flat_index(i, j, self.depth as int, self.height as int);
        lemma_flat_index(r, k, (self.depth * self.height) as int, self.width as int);
        lemma_flat_index(r, 0, (self.depth * self.height) as int, self.width as int);
        assert(self.width * (j + i * self.height) == r * self.width) by (nonlinear_arith)
            requires
                r == i * self.height + j,
        ;
        assert(r * self.width + self.width <= (self.depth * self.height) * self.width)
            by (nonlinear_arith)
            requires
                0 <= r < self.depth * self.height,
                0 <= self.width,
        ;
    }

    /// Every position among the cells is the position of one cell inside the
    /// shape.
    pub proof fn lemma_coordinates(self, n: int)
        requires
            self.wf(),
            0 <= n < self.cells.len(),
        ensures
            self.in_bounds(
                (n / self.width as int) / self.height as int,
                (n / self.width as int) % self.height as int,
                n % self.width as int,
            ),
            self.flat(
                (n / self.width as int) / self.height as int,
                (n / self.width as int) % self.height as int,
                n % self.width as int,
            ) == n,
    {
        lemma_flat_coordinates(n, (self.depth * self.height) as int, self.width as int);
        let r = n / self.width as int;
        lemma_flat_coordinates(r, self.depth as int, self.height as int);
        let i = r / self.height as int;
        let j = r % self.height as int;
        assert(self.width * (j + i * self.height) == r * self.width) by (nonlinear_arith)
            requires
                i * self.height + j == r,
        ;
    }

    /// A row inside the shape holds one cell for each last coordinate.
    pub proof fn lemma_row(self, i: int, j: int)
        requires
            self.wf(),
            0 <= i < self.depth,
            0 <= j < self.height,
        ensures
            0 <= self.flat(i, j, 0),
            self.flat(i, j, 0) + self.width <= self.cells.len(),
            self.row(i, j).len() == self.width,
            forall|k: int| 0 <= k < self.width ==> #[trigger] self.row(i, j)[k] == self.at(i, j, k),
    {
        if self.width > 0 {
            self.lemma_flat(i, j, 0);
        } else {
            assert(self.flat(i, j, 0) == 0) by (nonlinear_arith)
                requires
                    self.width == 0,
                    self.flat(i, j, 0) == 0 + self.width * (j + i * self.height),
            ;
        }
    }

    /// The matrix with the cell at `(i, j, k)` replaced by `value`.
    pub open spec fn with(self, i: int, j: int, k: int, value: T) -> Grid3<T> {
        Grid3 { cells: self.cells.update(self.flat(i, j, k), value), ..self }
    }

    /// Replacing one cell changes that cell in its row and leaves every other
    /// row as it is.
    pub proof fn lemma_with(self, i: int, j: int, k: int, value: T)
        requires
            self.wf(),
            self.in_bounds(i, j, k),
        ensures
            self.with(i, j, k, value).wf(),
            self.with(i, j, k, value).row(i, j) == self.row(i, j).update(k, value),
            forall|a: int, b: int|
                0 <= a < self.depth && 0 <= b < self.height && (a != i || b != j)
                    ==> #[trigger] self.with(i, j, k, value).row(a, b) == self.row(a, b),
            forall|a: int, b: int, c: int|
                self.in_bounds(a, b, c) ==> #[trigger] self.with(i, j, k, value).at(a, b, c) == (if a
                    == i && b == j && c == k {
                    value
                } else {
                    self.at(a, b, c)
                }),
    {
        let after = self.with(i, j, k, value);
        self.lemma_flat(i, j, k);
        self.lemma_row(i, j);
        assert(after.row(i, j) =~= self.row(i, j).update(k, value));
        assert forall|a: int, b: int|
            0 <= a < self.depth && 0 <= b < self.height && (a != i || b != j) implies #[trigger] after.row(
            a,
            b,
        ) == self.row(a, b) by {
            self.lemma_row(a, b);
            assert forall|c: int| 0 <= c < self.width implies after.row(a, b)[c] == self.row(a, b)[c] by {
                if self.flat(a, b, c) == self.flat(i, j, k) {
                    self.lemma_flat_injective(a, b, c, i, j, k);
                }
            }
            assert(after.row(a, b) =~= self.row(a, b));
        }
        assert forall|a: int, b: int, c: int| self.in_bounds(a, b, c) implies #[trigger] after.at(
            a,
            b,
            c,
        ) == (if a == i && b == j && c == k {
            value
        } else {
            self.at(a, b, c)
        }) by {
            self.lemma_flat(a, b, c);
            if self.flat(a, b, c) == self.flat(i, j, k) {
                self.lemma_flat_injective(a, b, c, i, j, k);
            }
        }
    }

    /// Two different cells inside the shape have different positions.
    pub proof fn lemma_flat_injective(self, i1: int, j1: int, k1: int, i2: int, j2: int, k2: int)
        requires
            self.wf(),
            self.in_bounds(i1, j1, k1),
            self.in_bounds(i2, j2, k2),
            self.flat(i1, j1, k1) == self.flat(i2, j2, k2),
        ensures
            i1 == i2,
            j1 == j2,
            k1 == k2,
    {
        self.lemma_flat(i1, j1, k1);
        self.lemma_flat(i2, j2, k2);
    }
}

/// A 3D matrix represented by a Vec.
#[derive(PartialEq, Eq, Hash, Debug)]
pub struct Vec3D<T> {
    depth: usize,
    height: usize,
    width: usize,
    data: Vec<T>,
}

impl<T> View for Vec3D<T> {
    type V = Grid3<T>;

    closed spec fn view(&self) -> Grid3<T> {
        Grid3 {
            depth: self.depth as nat,
            height: self.height as nat,
            width: self.width as nat,
            cells: self.data@,
        }
    }
}

impl<T> Vec3D<T> {
    /// The cells fill the shape exactly.
    pub open spec fn wf(&self) -> bool {
        self@.wf()
    }

    /// Each side of the shape is a machine number.
    pub proof fn lemma_shape_fits(&self)
        ensures
            self@.depth <= usize::MAX,
            self@.height <= usize::MAX,
            self@.width <= usize::MAX,
    {
    }

    /// Create a matrix given its height and width, that is filled with a value
    pub fn new(depth: usize, height: usize, width: usize, value: &T) -> (r: Vec3D<T>) where T: Clone
        requires
            depth * height * width <= usize::MAX,
        ensures
            r.wf(),
            r@.depth == depth,
            r@.height == height,
            r@.width == width,
            forall|n: int| 0 <= n < r@.cells.len() ==> cloned(*value, #[trigger] r@.cells[n]),
            clone_is_equal::<T>() ==> r@.cells == Seq::new(
                (depth * height * width) as nat,
                |n: int| *value,
            ),
    {
        let total = cells_of(depth, height, width);
        let mut data: Vec<T> = Vec::new();
        let mut n: usize = 0;
        while n < total
            invariant
                n <= total,
                data.len() == n,
                forall|m: int| 0 <= m < n ==> cloned(*value, #[trigger] data[m]),
            decreases total - n,
        {
            data.push(value.clone());
            n += 1;
        }
        proof {
            if clone_is_equal::<T>() {
                assert(data@ =~= Seq::new((depth * height * width) as nat, |n: int| *value));
            }
        }
        Vec3D { depth, height, width, data }
    }

    /// Create a Vec3D given a vector representing its data, and the Vec3D size.
    /// The vector should be of the size height*width*depth.
    pub fn from_vec(data: Vec<T>, depth: usize, height: usize, width: usize) -> (r: Vec3D<T>)
        requires
            depth * height * width == data.len(),
        ensures
            r.wf(),
            r@ == (Grid3 {
                depth: depth as nat,
                height: height as nat,
                width: width as nat,
                cells: data@,
            }),
    {
        Vec3D { depth, height, width, data }
    }

    /// Create a Vec2D using a generator function that will be called in all cells.
    pub fn new_generator<F: Fn(usize, usize, usize) -> T>(
        depth: usize,
        height: usize,
        width: usize,
        generator: F,
    ) -> (r: Vec3D<T>)
        requires
            depth * height * width <= usize::MAX,
            forall|i: usize, j: usize, k: usize|
                i < depth && j < height && k < width ==> call_requires(generator, (i, j, k)),
        ensures
            r.wf(),
            r@.depth == depth,
            r@.height == height,
            r@.width == width,
            forall|i: usize, j: usize, k: usize|
                i < depth && j < height && k < width ==> call_ensures(
                    generator,
                    (i, j, k),
                    #[trigger] r@.at(i as int, j as int, k as int),
                ),
    {
        let ghost shape = Grid3::<T> {
            depth: depth as nat,
            height: height as nat,
            width: width as nat,
            cells: Seq::empty(),
        };
        let mut data: Vec<T> = Vec::new();
        let mut i: usize = 0;
        assert(shape.flat(0, 0, 0) == 0) by (nonlinear_arith)
            requires
                shape.height == height,
                shape.width == width,
        ;
        while i < depth
            invariant
                i <= depth,
                depth * height * width <= usize::MAX,
                shape.depth == depth,
                shape.height == height,
                shape.width == width,
                data.len() == shape.flat(i as int, 0, 0),
                forall|a: usize, b: usize, c: usize|
                    a < depth && b < height && c < width ==> call_requires(generator, (a, b, c)),
                forall|a: usize, b: usize, c: usize|
                    a < i && b < height && c < width ==> call_ensures(
                        generator,
                        (a, b, c),
                        #[trigger] data@[shape.flat(a as int, b as int, c as int)],
                    ),
            decreases depth - i,
        {
            let mut j: usize = 0;
            while j < height
                invariant
                    i < depth,
                    j <= height,
                    depth * height * width <= usize::MAX,
                    shape.depth == depth,
                    shape.height == height,
                    shape.width == width,
                    data.len() == shape.flat(i as int, j as int, 0),
                    forall|a: usize, b: usize, c: usize|
                        a < depth && b < height && c < width ==> call_requires(generator, (a, b, c)),
                    forall|a: usize, b: usize, c: usize|
                        (a < i && b < height && c < width) || (a == i && b < j && c < width)
                            ==> call_ensures(
                            generator,
                            (a, b, c),
                            #[trigger] data@[shape.flat(a as int, b as int, c as int)],
                        ),
                decreases height - j,
            {
                let mut k: usize = 0;
                while k < width
                    invariant
                        i < depth,
                        j < height,
                        k <= width,
                        depth * height * width <= usize::MAX,
                        shape.depth == depth,
                        shape.height == height,
                        shape.width == width,
                        data.len() == shape.flat(i as int, j as int, k as int),
                        forall|a: usize, b: usize, c: usize|
                            a < depth && b < height && c < width ==> call_requires(
                                generator,
                                (a, b, c),
                            ),
                        forall|a: usize, b: usize, c: usize|
                            (a < i && b < height && c < width) || (a == i && b < j && c < width) || (a
                                == i && b == j && c < k) ==> call_ensures(
                                generator,
                                (a, b, c),
                                #[trigger] data@[shape.flat(a as int, b as int, c as int)],
                            ),
                    decreases width - k,
                {
                    let ghost before = data@;
                    data.push(generator(i, j, k));
                    proof {
                        assert forall|a: usize, b: usize, c: usize|
                            (a < i && b < height && c < width) || (a == i && b < j && c < width) || (a
                                == i && b == j && c < k + 1) implies call_ensures(
                            generator,
                            (a, b, c),
                            #[trigger] data@[shape.flat(a as int, b as int, c as int)],
                        ) by {
                            if a == i && b == j && c == k {
                            } else {
                                lemma_flat_order(
                                    height as int,
                                    width as int,
                                    a as int,
                                    b as int,
                                    c as int,
                                    i as int,
                                    j as int,
                                    k as int,
                                );
                                assert(data@[shape.flat(a as int, b as int, c as int)]
                                    == before[shape.flat(a as int, b as int, c as int)]);
                            }
                        }
                    }
                    k += 1;
                }
                assert(shape.flat(i as int, j + 1, 0) == shape.flat(i as int, j as int, width as int))
                    by (nonlinear_arith)
                    requires
                        shape.height == height,
                        shape.width == width,
                ;
                j += 1;
            }
            assert(shape.flat(i + 1, 0, 0) == shape.flat(i as int, height as int, 0))
                by (nonlinear_arith)
                requires
                    shape.height == height,
                    shape.width == width,
            ;
            i += 1;
        }
        proof {
            assert(shape.flat(depth as int, 0, 0) == depth * height * width) by (nonlinear_arith)
                requires
                    shape.height == height,
                    shape.width == width,
            ;
        }
        let r = Vec3D { depth, height, width, data };
        proof {
            assert forall|i: usize, j: usize, k: usize|
                i < depth && j < height && k < width implies call_ensures(
                generator,
                (i, j, k),
                #[trigger] r@.at(i as int, j as int, k as int),
            ) by {
                assert(r@.flat(i as int, j as int, k as int) == shape.flat(
                    i as int,
                    j as int,
                    k as int,
                ));
            }
        }
        r
    }

    /// Return an iterator on the data contained in the vec3D
    pub fn iter(&self) -> (r: std::slice::Iter<'_, T>)
        ensures
            r.remaining() == self@.cells.as_ref(),
    {
        broadcast use vstd::std_specs::slice::axiom_spec_slice_iter;

        self.data.as_slice().iter()
    }

    /// Return an iterator on the data contained in the vec3D
    pub fn iter_mut(&mut self) -> (r: std::slice::IterMut<'_, T>)
        ensures
            final(self)@.depth == old(self)@.depth,
            final(self)@.height == old(self)@.height,
            final(self)@.width == old(self)@.width,
            final(self)@.cells.len() == old(self)@.cells.len(),
            old(self).wf() ==> final(self).wf(),
    {
        vec_iter_mut(&mut self.data)
    }

    /// Get the Vec3D data as a Vec.
    pub fn into_vec(self) -> (r: Vec<T>)
        ensures
            r@ == self@.cells,
    {
        self.data
    }

    /// Get the size of the first dimension.
    pub fn depth(&self) -> (r: usize)
        ensures
            r == self@.depth,
    {
        self.depth
    }

    /// Get the size of the second dimension.
    pub fn height(&self) -> (r: usize)
        ensures
            r == self@.height,
    {
        self.height
    }

    /// Get the size of the third dimension.
    pub fn width(&self) -> (r: usize)
        ensures
            r == self@.width,
    {
        self.width
    }

    /// Read the cell at `(i, j, k)`.
    pub fn get(&self, i: usize, j: usize, k: usize) -> (r: &T)
        requires
            self.wf(),
            self@.flat(i as int, j as int, k as int) < self@.cells.len(),
        ensures
            *r == self@.at(i as int, j as int, k as int),
    {
        let len = self.data.len();
        proof {
            lemma_flat_fits(
                self.depth as int,
                self.height as int,
                self.width as int,
                i as int,
                j as int,
                k as int,
            );
        }
        &self.data[k + self.width * (j + i * self.height)]
    }

    /// The cell at `(i, j, k)`, for writing. The other cells stay as they are.
    pub fn get_mut(&mut self, i: usize, j: usize, k: usize) -> (r: &mut T)
        requires
            old(self).wf(),
            old(self)@.flat(i as int, j as int, k as int) < old(self)@.cells.len(),
        ensures
            *r == old(self)@.at(i as int, j as int, k as int),
            final(self).wf(),
            final(self)@.depth == old(self)@.depth,
            final(self)@.height == old(self)@.height,
            final(self)@.width == old(self)@.width,
            final(self)@.cells == old(self)@.cells.update(
                old(self)@.flat(i as int, j as int, k as int),
                *final(r),
            ),
    {
        let len = self.data.len();
        proof {
            lemma_flat_fits(
                self.depth as int,
                self.height as int,
                self.width as int,
                i as int,
                j as int,
                k as int,
            );
        }
        let n = k + self.width * (j + i * self.height);
        &mut self.data[n]
    }

    /// The cells `(i, j, 0)`, `(i, j, 1)`, ... as a slice.
    pub fn row(&self, i: usize, j: usize) -> (r: &[T])
        requires
            self@.flat(i as int, j as int, 0) + self@.width <= self@.cells.len(),
            1 + j + i * self@.height <= usize::MAX,
        ensures
            r@ == self@.row(i as int, j as int),
    {
        let len = self.data.len();
        let width = self.width;
        proof {
            lemma_row_fits(self.height as int, width as int, i as int, j as int, len as int);
        }
        let begin = width * (j + i * self.height);
        let end = width * (1 + j + i * self.height);
        vstd::slice::slice_subrange(self.data.as_slice(), begin, end)
    }

    /// The cells `(i, j, 0)`, `(i, j, 1)`, ... as a slice, for writing. The
    /// other cells stay as they are.
    pub fn row_mut(&mut self, i: usize, j: usize) -> (r: &mut [T])
        requires
            old(self)@.flat(i as int, j as int, 0) + old(self)@.width <= old(self)@.cells.len(),
            1 + j + i * old(self)@.height <= usize::MAX,
        ensures
            r@ == old(self)@.row(i as int, j as int),
            final(r)@.len() == r@.len(),
            final(self)@.depth == old(self)@.depth,
            final(self)@.height == old(self)@.height,
            final(self)@.width == old(self)@.width,
            final(self)@.cells == old(self)@.cells.subrange(
                0,
                old(self)@.flat(i as int, j as int, 0),
            ) + final(r)@ + old(self)@.cells.subrange(
                old(self)@.flat(i as int, j as int, 0) + old(self)@.width,
                old(self)@.cells.len() as int,
            ),
            old(self).wf() ==> final(self).wf(),
    {
        let len = self.data.len();
        let width = self.width;
        proof {
            lemma_row_fits(self.height as int, width as int, i as int, j as int, len as int);
        }
        let begin = width * (j + i * self.height);
        let end = width * (1 + j + i * self.height);
        vec_range_mut(&mut self.data, begin, end)
    }
}

/// The number of cells of a shape.
fn cells_of(depth: usize, height: usize, width: usize) -> (r: usize)
    requires
        depth * height * width <= usize::MAX,
    ensures
        r == depth * height * width,
{
    if depth == 0 || height == 0 || width == 0 {
        assert(depth * height * width == 0) by (nonlinear_arith)
            requires
                depth == 0 || height == 0 || width == 0,
        ;
        0
    } else {
        assert(depth * height <= depth * height * width) by (nonlinear_arith)
            requires
                width >= 1,
                depth >= 0,
                height >= 0,
        ;
        depth * height * width
    }
}

/// In the order of the cells `(a, b, c)` comes before `(i, j, k)` when it is
/// smaller in the first coordinate in which the two differ.
proof fn lemma_flat_order(
    height: int,
    width: int,
    a: int,
    b: int,
    c: int,
    i: int,
    j: int,
    k: int,
)
    requires
        0 <= a,
        0 <= b < height,
        0 <= c < width,
        0 <= j,
        0 <= k,
        a < i || (a == i && b < j) || (a == i && b == j && c < k),
    ensures
        0 <= c + width * (b + a * height) < k + width * (j + i * height),
{
    assert(0 <= b + a * height) by (nonlinear_arith)
        requires
            0 <= a,
            0 <= b,
            0 <= height,
    ;
    assert(b + a * height < j + i * height || (b + a * height == j + i * height && c < k))
        by (nonlinear_arith)
        requires
            0 <= b < height,
            0 <= j,
            a < i || (a == i && b < j) || (a == i && b == j && c < k),
    ;
    assert(c + width * (b + a * height) < k + width * (j + i * height)) by (nonlinear_arith)
        requires
            0 <= c < width,
            0 <= k,
            b + a * height < j + i * height || (b + a * height == j + i * height && c < k),
    ;
    assert(0 <= width * (b + a * height)) by (nonlinear_arith)
        requires
            0 <= b + a * height,
            0 < width,
    ;
}

/// Where the position of a cell lies among the cells of a shape, none of
/// the steps that compute it leaves the range of the positions.
proof fn lemma_flat_fits(depth: int, height: int, width: int, i: int, j: int, k: int)
    requires
        0 <= depth,
        0 <= height,
        0 <= width,
        0 <= i,
        0 <= j,
        0 <= k,
        k + width * (j + i * height) < depth * height * width,
    ensures
        0 <= i * height <= j + i * height,
        j + i * height <= width * (j + i * height),
        width * (j + i * height) <= k + width * (j + i * height),
{
    assert(0 < width) by (nonlinear_arith)
        requires
            0 <= k + width * (j + i * height) < depth * height * width,
            0 <= width,
            0 <= depth * height,
    ;
    assert(0 <= i * height) by (nonlinear_arith)
        requires
            0 <= i,
            0 <= height,
    ;
    assert(j + i * height <= width * (j + i * height)) by (nonlinear_arith)
        requires
            0 < width,
            0 <= j + i * height,
    ;
}

/// Where a row lies among the cells, none of the steps that compute its two
/// ends leaves the range of the positions.
proof fn lemma_row_fits(height: int, width: int, i: int, j: int, len: int)
    requires
        0 <= height,
        0 <= width,
        0 <= i,
        0 <= j,
        width * (j + i * height) + width <= len,
    ensures
        width * (1 + j + i * height) == width * (j + i * height) + width,
        0 <= width * (j + i * height),
        0 <= i * height,
{
    assert(width * (1 + j + i * height) == width * (j + i * height) + width) by (nonlinear_arith);
    assert(0 <= i * height) by (nonlinear_arith)
        requires
            0 <= i,
            0 <= height,
    ;
    assert(0 <= width * (j + i * height)) by (nonlinear_arith)
        requires
            0 <= width,
            0 <= j + i * height,
    ;
}

impl<T: Clone> Clone for Vec3D<T> {
    fn clone(&self) -> (r: Self)
        ensures
            r@.depth == self@.depth,
            r@.height == self@.height,
            r@.width == self@.width,
            r@.cells.len() == self@.cells.len(),
            forall|n: int| 0 <= n < self@.cells.len() ==> cloned(self@.cells[n], #[trigger] r@.cells[n]),
            clone_is_equal::<T>() ==> r@ == self@,
    {
        let len = self.data.len();
        let mut data: Vec<T> = Vec::new();
        let mut n: usize = 0;
        while n < len
            invariant
                len == self.data.len(),
                n <= len,
                data.len() == n,
                forall|m: int| 0 <= m < n ==> cloned(self.data[m], #[trigger] data[m]),
            decreases len - n,
        {
            data.push(self.data[n].clone());
            n += 1;
        }
        proof {
            if clone_is_equal::<T>() {
                assert(data@ =~= self.data@);
            }
        }
        Vec3D { depth: self.depth, height: self.height, width: self.width, data }
    }
}

impl<T> vstd::std_specs::core::IndexSpecImpl<(usize, usize)> for Vec3D<T> {
    open spec fn index_req(&self, at: &(usize, usize)) -> bool {
        &&& self@.flat(at.0 as int, at.1 as int, 0) + self@.width <= self@.cells.len()
        &&& 1 + at.1 + at.0 * self@.height <= usize::MAX
    }
}

impl<T> Index<(usize, usize)> for Vec3D<T> {
    type Output = [T];

    fn index(&self, at: (usize, usize)) -> (r: &[T])
        ensures
            r@ == self@.row(at.0 as int, at.1 as int),
    {
        self.row(at.0, at.1)
    }
}

impl<T> IndexMut<(usize, usize)> for Vec3D<T> {
    fn index_mut(&mut self, at: (usize, usize)) -> (r: &mut [T])
        requires
            old(self)@.flat(at.0 as int, at.1 as int, 0) + old(self)@.width <= old(self)@.cells.len(),
            1 + at.1 + at.0 * old(self)@.height <= usize::MAX,
        ensures
            r@ == old(self)@.row(at.0 as int, at.1 as int),
            final(r)@.len() == r@.len(),
            final(self)@.depth == old(self)@.depth,
            final(self)@.height == old(self)@.height,
            final(self)@.width == old(self)@.width,
            final(self)@.cells == old(self)@.cells.subrange(
                0,
                old(self)@.flat(at.0 as int, at.1 as int, 0),
            ) + final(r)@ + old(self)@.cells.subrange(
                old(self)@.flat(at.0 as int, at.1 as int, 0) + old(self)@.width,
                old(self)@.cells.len() as int,
            ),
            old(self).wf() ==> final(self).wf(),
    {
        self.row_mut(at.0, at.1)
    }
}

impl<'a, T> IntoIterator for &'a Vec3D<T> {
    type Item = &'a T;

    type IntoIter = std::slice::Iter<'a, T>;

    fn into_iter(self) -> (r: std::slice::Iter<'a, T>)
        ensures
            r.remaining() == self@.cells.as_ref(),
    {
        broadcast use vstd::std_specs::slice::axiom_spec_slice_iter;

        self.data.as_slice().iter()
    }
}

impl<'a, T> IntoIterator for &'a mut Vec3D<T> {
    type Item = &'a mut T;

    type IntoIter = std::slice::IterMut<'a, T>;

    fn into_iter(self) -> (r: std::slice::IterMut<'a, T>)
        ensures
            final(self)@.depth == old(self)@.depth,
            final(self)@.height == old(self)@.height,
            final(self)@.width == old(self)@.width,
            final(self)@.cells.len() == old(self)@.cells.len(),
            old(self).wf() ==> final(self).wf(),
    {
        vec_iter_mut(&mut self.data)
    }
}

} // verus!
