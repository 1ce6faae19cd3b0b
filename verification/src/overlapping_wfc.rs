//! Contains the OverlappingWFC struct, which is used to apply the overlapping WFC on a 2D image

use crate::direction::{lemma_opposite, DirArray, Direction};
use crate::propagator::{
    compatible_list, distinct, may_follow, table_distinct, table_symmetric, table_wf, Compatibility,
};
use crate::utils::vec2d::{clone_is_equal, eq_is_equal, lemma_eq_spec_is_equal, Grid, Vec2D};
use crate::wave::Ban;
use crate::wfc::WFC;
use vstd::prelude::*;
use vstd::std_specs::cmp::PartialEqSpec;

verus! {

/// The available options used for overlappingWFC
#[derive(Clone, Copy, Debug)]
pub struct OverlappingWFCOptions {
    pub periodic_input: bool,
    pub periodic_output: bool,
    pub out_height: usize,
    pub out_width: usize,
    pub symmetry: usize,
    pub pattern_size: usize,
    pub ground: bool,
}

/// Whether the cell `(y, x)` of a pattern lies on the neighbour of the
/// pattern in direction `d` too, where it is the cell `(y - dy, x - dx)`.
pub open spec fn overlaps<T>(a: Grid<T>, d: Direction, y: int, x: int) -> bool {
    &&& a.in_bounds(y, x)
    &&& a.in_bounds(y - d.dy(), x - d.dx())
}

/// Pattern `b` can be the neighbour of pattern `a` in direction `d`: where
/// the two lie on each other, shifted by one cell, they agree.
pub open spec fn agrees<T>(a: Grid<T>, b: Grid<T>, d: Direction) -> bool {
    forall|y: int, x: int| #[trigger]
        overlaps(a, d, y, x) ==> a.at(y, x) == b.at(y - d.dy(), x - d.dx())
}

/// If `b` can be the neighbour of `a` in a direction, `a` can be the
/// neighbour of `b` in the opposite direction.
pub proof fn lemma_agrees_symmetric<T>(a: Grid<T>, b: Grid<T>, d: Direction)
    requires
        a.height == b.height,
        a.width == b.width,
    ensures
        agrees(a, b, d) <==> agrees(b, a, d.opposite()),
{
    let e = d.opposite();
    lemma_opposite(d);
    if agrees(a, b, d) {
        assert forall|y: int, x: int| #[trigger] overlaps(b, e, y, x) implies b.at(y, x) == a.at(
            y - e.dy(),
            x - e.dx(),
        ) by {
            assert(overlaps(a, d, y + d.dy(), x + d.dx()));
        }
    }
    if agrees(b, a, e) {
        assert forall|y: int, x: int| #[trigger] overlaps(a, d, y, x) implies a.at(y, x) == b.at(
            y - d.dy(),
            x - d.dx(),
        ) by {
            assert(overlaps(b, e, y - d.dy(), x - d.dx()));
        }
    }
}

/// Check if pattern1 is compatible with pattern2, when pattern2 is the neighbor
/// in direction dir of pattern1.
pub fn is_compatible<T: PartialEq>(pattern1: &Vec2D<T>, pattern2: &Vec2D<T>, dir: Direction) -> (r:
    bool)
    requires
        pattern1.wf(),
        pattern2.wf(),
        pattern1@.width == pattern2@.width,
        pattern1@.height == pattern2@.height,
        pattern1@.height >= 1,
        pattern1@.width >= 1,
    ensures
        eq_is_equal::<T>() ==> r == agrees(pattern1@, pattern2@, dir),
{
    let height = pattern1.height();
    let width = pattern1.width();
    let (y_min, y_max, x_min, x_max) = match dir {
        Direction::Down => (0, height - 1, 0, width),
        Direction::Up => (1, height, 0, width),
        Direction::Left => (0, height, 0, width - 1),
        Direction::Right => (0, height, 1, width),
    };
    let mut y = y_min;
    while y < y_max
        invariant
            pattern1.wf(),
            pattern2.wf(),
            pattern1@.width == pattern2@.width,
            pattern1@.height == pattern2@.height,
            height == pattern1@.height,
            width == pattern1@.width,
            y_min <= y,
            y_min == (if dir.dy() > 0 {
                1int
            } else {
                0int
            }),
            y_max == (if dir.dy() < 0 {
                height - 1
            } else {
                height as int
            }),
            x_min == (if dir.dx() > 0 {
                1int
            } else {
                0int
            }),
            x_max == (if dir.dx() < 0 {
                width - 1
            } else {
                width as int
            }),
            eq_is_equal::<T>() ==> forall|a: int, b: int|
                a < y && #[trigger] overlaps(pattern1@, dir, a, b) ==> pattern1@.at(a, b)
                    == pattern2@.at(a - dir.dy(), b - dir.dx()),
        decreases y_max - y,
    {
        let mut x = x_min;
        while x < x_max
            invariant
                pattern1.wf(),
                pattern2.wf(),
                pattern1@.width == pattern2@.width,
                pattern1@.height == pattern2@.height,
                height == pattern1@.height,
                width == pattern1@.width,
                y_min <= y < y_max,
                x_min <= x,
                y_min == (if dir.dy() > 0 {
                    1int
                } else {
                    0int
                }),
                y_max == (if dir.dy() < 0 {
                    height - 1
                } else {
                    height as int
                }),
                x_min == (if dir.dx() > 0 {
                    1int
                } else {
                    0int
                }),
                x_max == (if dir.dx() < 0 {
                    width - 1
                } else {
                    width as int
                }),
                eq_is_equal::<T>() ==> forall|a: int, b: int|
                    (a < y || (a == y && b < x)) && #[trigger] overlaps(pattern1@, dir, a, b)
                        ==> pattern1@.at(a, b) == pattern2@.at(a - dir.dy(), b - dir.dx()),
            decreases x_max - x,
        {
            let (y2, x2) = match dir {
                Direction::Down => (y + 1, x),
                Direction::Up => (y - 1, x),
                Direction::Left => (y, x + 1),
                Direction::Right => (y, x - 1),
            };
            if *pattern1.get(y, x) != *pattern2.get(y2, x2) {
                proof {
                    if eq_is_equal::<T>() {
                        assert(overlaps(pattern1@, dir, y as int, x as int));
                        assert(!pattern1@.at(y as int, x as int).eq_spec(
                            &pattern2@.at(y2 as int, x2 as int),
                        ));
                    }
                }
                return false;
            }
            proof {
                if eq_is_equal::<T>() {
                    assert(pattern1@.at(y as int, x as int).eq_spec(
                        &pattern2@.at(y2 as int, x2 as int),
                    ));
                }
            }
            x += 1;
        }
        y += 1;
    }
    true
}

/// The list lists, in growing order, the numbers below `n` of which `keep`
/// holds, and nothing else.
pub open spec fn lists_exactly(list: Seq<usize>, n: int, keep: spec_fn(int) -> bool) -> bool {
    &&& forall|i: int, j: int| 0 <= i < j < list.len() ==> list[i] < list[j]
    &&& forall|i: int| 0 <= i < list.len() ==> (#[trigger] list[i]) < n && keep(list[i] as int)
    &&& forall|b: usize| b < n && keep(b as int) ==> #[trigger] list.contains(b)
}

/// The patterns that can be the neighbour of `patterns[a]` in direction `d`.
fn compatible_with<T: PartialEq>(patterns: &[Vec2D<T>], a: usize, d: Direction) -> (r: Vec<usize>)
    requires
        a < patterns@.len(),
        same_shape(patterns@),
    ensures
        forall|i: int| 0 <= i < r.len() ==> (#[trigger] r[i]) < patterns@.len(),
        eq_is_equal::<T>() ==> lists_exactly(
            r@,
            patterns@.len() as int,
            |b: int| agrees(patterns@[a as int]@, patterns@[b]@, d),
        ),
{
    let ghost keep = |b: int| agrees(patterns@[a as int]@, patterns@[b]@, d);
    let n = patterns.len();
    let mut list: Vec<usize> = Vec::new();
    let mut id: usize = 0;
    while id < n
        invariant
            id <= n,
            n == patterns@.len(),
            a < n,
            same_shape(patterns@),
            keep == (|b: int| agrees(patterns@[a as int]@, patterns@[b]@, d)),
            forall|i: int| 0 <= i < list.len() ==> (#[trigger] list[i]) < id,
            eq_is_equal::<T>() ==> lists_exactly(list@, id as int, keep),
        decreases n - id,
    {
        let fits = is_compatible(&patterns[a], &patterns[id], d);
        let ghost before = list@;
        if fits {
            list.push(id);
        }
        proof {
            lemma_usize_fits(id);
            if eq_is_equal::<T>() {
                assert(fits == keep(id as int));
                assert forall|b: usize| b < id + 1 && keep(b as int) implies #[trigger] list@.contains(
                    b,
                ) by {
                    if b < id {
                        assert(before.contains(b));
                        let i = choose|i: int| 0 <= i < before.len() && before[i] == b;
                        assert(list@[i] == b);
                    } else {
                        assert(list@[list.len() - 1] == id);
                    }
                }
            }
        }
        id += 1;
    }
    list
}

/// A machine number is itself as a number.
proof fn lemma_usize_fits(n: usize)
    ensures
        (n as int) as usize == n,
{
}

/// All patterns are well formed and of one shape that holds a cell.
pub open spec fn same_shape<T>(patterns: Seq<Vec2D<T>>) -> bool {
    forall|i: int, j: int|
        0 <= i < patterns.len() && 0 <= j < patterns.len() ==> {
            &&& (#[trigger] patterns[i]).wf()
            &&& patterns[i]@.height == (#[trigger] patterns[j])@.height
            &&& patterns[i]@.width == patterns[j]@.width
            &&& patterns[i]@.height >= 1
            &&& patterns[i]@.width >= 1
        }
}

/// The table lists for each pattern and direction, in growing order,
/// exactly the patterns that can be its neighbour in that direction.
pub open spec fn tabulates<T>(table: Seq<DirArray<Vec<usize>>>, patterns: Seq<Vec2D<T>>) -> bool {
    &&& table.len() == patterns.len()
    &&& forall|a: int, d: Direction|
        0 <= a < patterns.len() ==> lists_exactly(
            #[trigger] compatible_list(table, a, d),
            patterns.len() as int,
            |b: int| agrees(patterns[a]@, patterns[b]@, d),
        )
}

/// A table that lists exactly the neighbours that agree names each pattern
/// once at most, and names `b` for `a` exactly when it names `a` for `b` in
/// the opposite direction.
pub proof fn lemma_tabulates_symmetric<T>(table: Seq<DirArray<Vec<usize>>>, patterns: Seq<Vec2D<T>>)
    requires
        same_shape(patterns),
        tabulates(table, patterns),
    ensures
        table_wf(table, patterns.len()),
        table_distinct(table),
        table_symmetric(table),
{
    let n = patterns.len() as int;
    assert forall|p: int, d: Direction, k: int|
        0 <= p < n && 0 <= k < compatible_list(table, p, d).len() implies #[trigger] compatible_list(
        table,
        p,
        d,
    )[k] < n by {
        assert(lists_exactly(
            compatible_list(table, p, d),
            n,
            |b: int| agrees(patterns[p]@, patterns[b]@, d),
        ));
    }
    assert forall|p: int, d: Direction| 0 <= p < table.len() implies distinct(
        #[trigger] compatible_list(table, p, d),
    ) by {
        assert(lists_exactly(
            compatible_list(table, p, d),
            n,
            |b: int| agrees(patterns[p]@, patterns[b]@, d),
        ));
    }
    assert forall|p: usize, q: usize, d: Direction| p < table.len() && q < table.len() implies (
    #[trigger] may_follow(table, p, d, q) <==> may_follow(table, q, d.opposite(), p)) by {
        let e = d.opposite();
        let forth = compatible_list(table, p as int, d);
        let back = compatible_list(table, q as int, e);
        assert(lists_exactly(forth, n, |b: int| agrees(patterns[p as int]@, patterns[b]@, d)));
        assert(lists_exactly(back, n, |b: int| agrees(patterns[q as int]@, patterns[b]@, e)));
        assert(patterns[p as int].wf() && patterns[q as int].wf());
        lemma_agrees_symmetric(patterns[p as int]@, patterns[q as int]@, d);
        if forth.contains(q) {
            let i = choose|i: int| 0 <= i < forth.len() && forth[i] == q;
            assert(agrees(patterns[p as int]@, patterns[forth[i] as int]@, d));
            assert(back.contains(p));
        }
        if back.contains(p) {
            let i = choose|i: int| 0 <= i < back.len() && back[i] == p;
            assert(agrees(patterns[q as int]@, patterns[back[i] as int]@, e));
            assert(forth.contains(q));
        }
    }
}

/// Precompute the is_compatible function for a set of patterns.
pub fn precompute_compatible<T: PartialEq>(patterns: &[Vec2D<T>]) -> (r: Compatibility)
    requires
        same_shape(patterns@),
    ensures
        table_wf(r@, patterns@.len()),
        eq_is_equal::<T>() ==> tabulates(r@, patterns@),
        eq_is_equal::<T>() ==> table_distinct(r@) && table_symmetric(r@),
{
    let n = patterns.len();
    let mut table: Compatibility = Vec::new();
    let mut a: usize = 0;
    while a < n
        invariant
            a <= n,
            n == patterns@.len(),
            same_shape(patterns@),
            table.len() == a,
            forall|p: int, d: Direction, k: int|
                0 <= p < a && 0 <= k < compatible_list(table@, p, d).len()
                    ==> #[trigger] compatible_list(table@, p, d)[k] < n,
            eq_is_equal::<T>() ==> forall|p: int, d: Direction|
                0 <= p < a ==> lists_exactly(
                    #[trigger] compatible_list(table@, p, d),
                    n as int,
                    |b: int| agrees(patterns@[p]@, patterns@[b]@, d),
                ),
        decreases n - a,
    {
        let down = compatible_with(patterns, a, Direction::Down);
        let left = compatible_with(patterns, a, Direction::Left);
        let right = compatible_with(patterns, a, Direction::Right);
        let up = compatible_with(patterns, a, Direction::Up);
        let ghost before = table@;
        let entry = DirArray::from_values(down, left, right, up);
        table.push(entry);
        proof {
            assert forall|p: int, d: Direction| 0 <= p < a implies compatible_list(table@, p, d)
                == compatible_list(before, p, d) by {
                assert(table@[p] == before[p]);
            }
            assert forall|d: Direction| #[trigger]
                compatible_list(table@, a as int, d) == (match d {
                    Direction::Down => down@,
                    Direction::Left => left@,
                    Direction::Right => right@,
                    Direction::Up => up@,
                }) by {
                assert(table@[a as int] == entry);
            }
            assert forall|p: int, d: Direction, k: int|
                0 <= p < a + 1 && 0 <= k < compatible_list(table@, p, d).len() implies #[trigger] compatible_list(
                table@,
                p,
                d,
            )[k] < n by {
                if p < a {
                    assert(compatible_list(before, p, d)[k] < n);
                }
            }
            if eq_is_equal::<T>() {
                assert forall|p: int, d: Direction| 0 <= p < a + 1 implies lists_exactly(
                    #[trigger] compatible_list(table@, p, d),
                    n as int,
                    |b: int| agrees(patterns@[p]@, patterns@[b]@, d),
                ) by {
                    if p < a {
                        assert(lists_exactly(
                            compatible_list(before, p, d),
                            n as int,
                            |b: int| agrees(patterns@[p]@, patterns@[b]@, d),
                        ));
                    }
                }
            }
        }
        a += 1;
    }
    proof {
        if eq_is_equal::<T>() {
            lemma_tabulates_symmetric(table@, patterns@);
        }
    }
    table
}

/// The number of images of a window that are taken as patterns: the window
/// alone, with its mirror image, with those of its quarter turn, or with
/// those of all four turns.
pub open spec fn variants_of(symmetry: usize) -> nat {
    if symmetry <= 1 {
        1
    } else if symmetry <= 2 {
        2
    } else if symmetry <= 4 {
        4
    } else {
        8
    }
}

/// Image `v` of a window: an even `v` is the window turned by `v / 2`
/// quarters, and the odd `v` after it is the mirror image of that.
pub open spec fn variant<T>(g: Grid<T>, v: int) -> Grid<T> {
    if v == 0 {
        g
    } else if v == 1 {
        g.reflected()
    } else if v == 2 {
        g.rotated()
    } else if v == 3 {
        g.rotated().reflected()
    } else if v == 4 {
        g.rotated().rotated()
    } else if v == 5 {
        g.rotated().rotated().reflected()
    } else if v == 6 {
        g.rotated().rotated().rotated()
    } else {
        g.rotated().rotated().rotated().reflected()
    }
}

/// What a scan for patterns reads: the input, whether it wraps around, the
/// side of a window and the symmetry.
pub struct Scan<T> {
    pub input: Grid<T>,
    pub periodic: bool,
    pub size: nat,
    pub symmetry: usize,
}

impl<T> Scan<T> {
    /// The number of rows in which a window starts.
    pub open spec fn rows(self) -> int {
        if self.periodic {
            self.input.height as int
        } else {
            self.input.height - self.size + 1
        }
    }

    /// The number of columns in which a window starts.
    pub open spec fn cols(self) -> int {
        if self.periodic {
            self.input.width as int
        } else {
            self.input.width - self.size + 1
        }
    }

    /// The number of images that the scan meets.
    pub open spec fn total(self) -> int {
        self.rows() * self.cols() * variants_of(self.symmetry)
    }

    /// The window that starts at `(i, j)`.
    pub open spec fn window(self, i: int, j: int) -> Grid<T> {
        self.input.sub_grid(i, j, self.size, self.size)
    }

    /// The image that the scan meets at position `n`: the windows come row
    /// after row, and each of them with its images in their order.
    pub open spec fn occurrence(self, n: int) -> Grid<T> {
        let images = variants_of(self.symmetry) as int;
        let origin = n / images;
        variant(self.window(origin / self.cols(), origin % self.cols()), n % images)
    }

    /// How often the scan meets `g` among its first `upto` images.
    pub open spec fn occurrences(self, g: Grid<T>, upto: nat) -> nat
        decreases upto,
    {
        if upto == 0 {
            0
        } else {
            self.occurrences(g, (upto - 1) as nat) + if self.occurrence(upto - 1) == g {
                1nat
            } else {
                0nat
            }
        }
    }

    /// An image that the scan has not met yet was met no times.
    pub proof fn lemma_occurrences_none(self, g: Grid<T>, upto: nat)
        requires
            forall|n: int| 0 <= n < upto ==> self.occurrence(n) != g,
        ensures
            self.occurrences(g, upto) == 0,
        decreases upto,
    {
        if upto > 0 {
            self.lemma_occurrences_none(g, (upto - 1) as nat);
        }
    }

    /// An image is met no more often than images were met, and one that was
    /// met at all was met at some position.
    pub proof fn lemma_occurrences_some(self, g: Grid<T>, upto: nat)
        ensures
            self.occurrences(g, upto) <= upto,
            self.occurrences(g, upto) > 0 ==> exists|n: int|
                0 <= n < upto && #[trigger] self.occurrence(n) == g,
        decreases upto,
    {
        if upto > 0 {
            self.lemma_occurrences_some(g, (upto - 1) as nat);
            if self.occurrences(g, upto) > 0 {
                if self.occurrence(upto - 1) == g {
                } else {
                    let n = choose|n: int| 0 <= n < upto - 1 && #[trigger] self.occurrence(n) == g;
                    assert(self.occurrence(n) == g);
                }
            }
        }
    }

    /// The position at which the scan meets image `v` of the window at
    /// `(i, j)`.
    pub proof fn lemma_position(self, i: int, j: int, v: int)
        requires
            0 <= i < self.rows(),
            0 <= j < self.cols(),
            0 <= v < variants_of(self.symmetry),
        ensures
            0 <= (i * self.cols() + j) * variants_of(self.symmetry) + v < self.total(),
            self.occurrence((i * self.cols() + j) * variants_of(self.symmetry) + v) == variant(
                self.window(i, j),
                v,
            ),
    {
        let images = variants_of(self.symmetry) as int;
        crate::utils::vec2d::lemma_flat_index(i, j, self.rows(), self.cols());
        crate::utils::vec2d::lemma_flat_index(
            i * self.cols() + j,
            v,
            self.rows() * self.cols(),
            images,
        );
    }
}

/// What holds of the list of patterns after the scan has met its first
/// `done` images: every pattern is an image that was met, patterns come in
/// the order in which they were first met, none comes twice, and each comes
/// with the number of times that it was met.
pub open spec fn tallied<T>(scan: Scan<T>, list: Seq<(Vec2D<T>, usize)>, done: nat) -> bool {
    &&& forall|k: int, m: int| 0 <= k < m < list.len() ==> (#[trigger] list[k]).0@ != (#[trigger] list[m]).0@
    &&& forall|k: int|
        0 <= k < list.len() ==> (#[trigger] list[k]).1 == scan.occurrences(list[k].0@, done)
            && list[k].1 >= 1
    &&& forall|n: int|
        0 <= n < done ==> exists|k: int|
            0 <= k < list.len() && (#[trigger] list[k]).0@ == #[trigger] scan.occurrence(n)
    &&& forall|k: int, m: int|
        0 <= k < m < list.len() ==> #[trigger] met_before(scan, done, list[k].0@, list[m].0@)
}

/// Among its first `done` images the scan meets `a` before it ever meets `b`.
pub open spec fn met_before<T>(scan: Scan<T>, done: nat, a: Grid<T>, b: Grid<T>) -> bool {
    exists|n: int|
        0 <= n < done && #[trigger] scan.occurrence(n) == a && forall|earlier: int|
            0 <= earlier <= n ==> #[trigger] scan.occurrence(earlier) != b
}

/// Every pattern of the list is a well-formed square of the given side.
pub open spec fn squares<T>(list: Seq<(Vec2D<T>, usize)>, size: nat) -> bool {
    forall|k: int|
        0 <= k < list.len() ==> {
            &&& (#[trigger] list[k]).0.wf()
            &&& list[k].0@.height == size
            &&& list[k].0@.width == size
        }
}

/// Count one more image: where the list holds it already, its number grows
/// by one, else it comes last with the number one.
fn tally<T: PartialEq>(
    list: &mut Vec<(Vec2D<T>, usize)>,
    image: Vec2D<T>,
    Ghost(scan): Ghost<Scan<T>>,
    Ghost(done): Ghost<nat>,
    Ghost(exact): Ghost<bool>,
)
    requires
        image.wf(),
        image@.height == scan.size,
        image@.width == scan.size,
        squares(old(list)@, scan.size),
        done < usize::MAX,
        old(list).len() <= done,
        forall|k: int| 0 <= k < old(list).len() ==> (#[trigger] old(list)[k]).1 <= done,
        eq_is_equal::<T>() && exact ==> tallied(scan, old(list)@, done) && image@
            == scan.occurrence(done as int),
    ensures
        squares(final(list)@, scan.size),
        1 <= final(list).len() <= done + 1,
        forall|k: int| 0 <= k < final(list).len() ==> (#[trigger] final(list)[k]).1 <= done + 1,
        eq_is_equal::<T>() && exact ==> tallied(scan, final(list)@, done + 1),
{
    let ghost lawful = eq_is_equal::<T>() && exact;
    let ghost before = list@;
    let n = list.len();
    let mut k: usize = 0;
    while k < n
        invariant
            k <= n,
            n == list.len(),
            list@ == before,
            lawful == (eq_is_equal::<T>() && exact),
            image.wf(),
            image@.height == scan.size,
            image@.width == scan.size,
            squares(before, scan.size),
            done < usize::MAX,
            n <= done,
            forall|i: int| 0 <= i < before.len() ==> (#[trigger] before[i]).1 <= done,
            lawful ==> tallied(scan, before, done) && image@ == scan.occurrence(done as int),
            lawful ==> forall|i: int| 0 <= i < k ==> (#[trigger] before[i]).0@ != image@,
        decreases n - k,
    {
        if list[k].0 == image {
            proof {
                if lawful {
                    lemma_eq_spec_is_equal(list[k as int].0, image);
                    assert(before[k as int].0@ == image@);
                }
            }
            let slot = &mut list[k];
            slot.1 = slot.1 + 1;
            proof {
                assert forall|i: int| 0 <= i < list.len() implies (#[trigger] list[i]).0
                    == before[i].0 by {}
                assert forall|i: int| 0 <= i < list.len() implies {
                    &&& (#[trigger] list[i]).0.wf()
                    &&& list[i].0@.height == scan.size
                    &&& list[i].0@.width == scan.size
                } by {
                    assert(list[i].0 == before[i].0);
                }
                assert forall|i: int| 0 <= i < list.len() implies (#[trigger] list[i]).1 <= done
                    + 1 by {
                    assert(before[i].1 <= done);
                }
                if lawful {
                    assert forall|i: int| 0 <= i < list.len() implies (#[trigger] list[i]).1
                        == scan.occurrences(list[i].0@, done + 1) && list[i].1 >= 1 by {
                        assert(before[i].1 == scan.occurrences(before[i].0@, done));
                        if i != k {
                            if i < k {
                                assert(before[i].0@ != before[k as int].0@);
                            } else {
                                assert(before[k as int].0@ != before[i].0@);
                            }
                        }
                    }
                    assert forall|m: int| 0 <= m < done + 1 implies exists|i: int|
                        0 <= i < list.len() && (#[trigger] list[i]).0@ == #[trigger] scan.occurrence(
                            m,
                        ) by {
                        if m < done {
                            let i = choose|i: int|
                                0 <= i < before.len() && (#[trigger] before[i]).0@
                                    == scan.occurrence(m);
                            assert(list[i].0@ == scan.occurrence(m));
                        } else {
                            assert(list[k as int].0@ == scan.occurrence(m));
                        }
                    }
                    assert forall|i: int, m: int| 0 <= i < m < list.len() implies #[trigger] met_before(
                        scan,
                        (done + 1) as nat,
                        list[i].0@,
                        list[m].0@,
                    ) by {
                        assert(before[i].0 == list[i].0 && before[m].0 == list[m].0);
                        assert(met_before(scan, done, before[i].0@, before[m].0@));
                        let a = choose|a: int|
                            0 <= a < done && #[trigger] scan.occurrence(a) == before[i].0@
                                && forall|earlier: int|
                                0 <= earlier <= a ==> #[trigger] scan.occurrence(earlier)
                                    != before[m].0@;
                        assert(scan.occurrence(a) == list[i].0@);
                    }
                    assert forall|i: int, m: int| 0 <= i < m < list.len() implies (#[trigger] list[i]).0@
                        != (#[trigger] list[m]).0@ by {
                        assert(before[i].0@ != before[m].0@);
                    }
                }
            }
            return ;
        } else {
            proof {
                if lawful {
                    lemma_eq_spec_is_equal(list[k as int].0, image);
                }
            }
        }
        k += 1;
    }
    list.push((image, 1));
    proof {
        if lawful {
            assert forall|m: int| 0 <= m < done implies scan.occurrence(m) != image@ by {
                let i = choose|i: int|
                    0 <= i < before.len() && (#[trigger] before[i]).0@ == scan.occurrence(m);
                assert(before[i].0@ != image@);
            }
            scan.lemma_occurrences_none(image@, done);
            assert forall|i: int| 0 <= i < list.len() implies (#[trigger] list[i]).1
                == scan.occurrences(list[i].0@, done + 1) && list[i].1 >= 1 by {
                if i < n {
                    assert(list[i] == before[i]);
                    assert(before[i].1 == scan.occurrences(before[i].0@, done));
                    assert(before[i].0@ != image@);
                }
            }
            assert forall|m: int| 0 <= m < done + 1 implies exists|i: int|
                0 <= i < list.len() && (#[trigger] list[i]).0@ == #[trigger] scan.occurrence(m) by {
                if m < done {
                    let i = choose|i: int|
                        0 <= i < before.len() && (#[trigger] before[i]).0@ == scan.occurrence(m);
                    assert(list[i] == before[i]);
                    assert(list[i].0@ == scan.occurrence(m));
                } else {
                    assert(list[n as int].0@ == scan.occurrence(m));
                }
            }
            assert forall|i: int, m: int| 0 <= i < m < list.len() implies (#[trigger] list[i]).0@
                != (#[trigger] list[m]).0@ by {
                assert(list[i] == before[i]);
                if m < n {
                    assert(list[m] == before[m]);
                    assert(before[i].0@ != before[m].0@);
                } else {
                    assert(before[i].0@ != image@);
                }
            }
            assert forall|i: int, m: int| 0 <= i < m < list.len() implies #[trigger] met_before(
                scan,
                (done + 1) as nat,
                list[i].0@,
                list[m].0@,
            ) by {
                assert(list[i] == before[i]);
                if m < n {
                    assert(list[m] == before[m]);
                    assert(met_before(scan, done, before[i].0@, before[m].0@));
                    let a = choose|a: int|
                        0 <= a < done && #[trigger] scan.occurrence(a) == before[i].0@ && forall|
                            earlier: int,
                        |
                            0 <= earlier <= a ==> #[trigger] scan.occurrence(earlier)
                                != before[m].0@;
                    assert(scan.occurrence(a) == list[i].0@);
                } else {
                    scan.lemma_occurrences_some(before[i].0@, done);
                    assert(before[i].1 == scan.occurrences(before[i].0@, done));
                    let a = choose|a: int| 0 <= a < done && #[trigger] scan.occurrence(a) == before[i].0@;
                    assert(scan.occurrence(a) == list[i].0@);
                }
            }
        }
        assert forall|i: int| 0 <= i < list.len() implies {
            &&& (#[trigger] list[i]).0.wf()
            &&& list[i].0@.height == scan.size
            &&& list[i].0@.width == scan.size
        } by {
            if i < n {
                assert(list[i] == before[i]);
            }
        }
        assert forall|i: int| 0 <= i < list.len() implies (#[trigger] list[i]).1 <= done + 1 by {
            if i < n {
                assert(list[i] == before[i]);
            }
        }
    }
}

/// Count the images of one window, each in its turn.
fn tally_window<T: Clone + PartialEq>(
    list: &mut Vec<(Vec2D<T>, usize)>,
    window: Vec2D<T>,
    symmetry: usize,
    Ghost(scan): Ghost<Scan<T>>,
    Ghost(i): Ghost<int>,
    Ghost(j): Ghost<int>,
)
    requires
        window.wf(),
        window@.height == scan.size,
        window@.width == scan.size,
        scan.symmetry == symmetry,
        0 <= i < scan.rows(),
        0 <= j < scan.cols(),
        scan.total() <= usize::MAX,
        squares(old(list)@, scan.size),
        old(list).len() <= (i * scan.cols() + j) * variants_of(symmetry),
        forall|k: int|
            0 <= k < old(list).len() ==> (#[trigger] old(list)[k]).1 <= (i * scan.cols() + j)
                * variants_of(symmetry),
        eq_is_equal::<T>() && clone_is_equal::<T>() ==> tallied(
            scan,
            old(list)@,
            ((i * scan.cols() + j) * variants_of(symmetry)) as nat,
        ) && window@ == scan.window(i, j),
    ensures
        squares(final(list)@, scan.size),
        1 <= final(list).len() <= (i * scan.cols() + j + 1) * variants_of(symmetry),
        forall|k: int|
            0 <= k < final(list).len() ==> (#[trigger] final(list)[k]).1 <= (i * scan.cols() + j + 1)
                * variants_of(symmetry),
        eq_is_equal::<T>() && clone_is_equal::<T>() ==> tallied(
            scan,
            final(list)@,
            ((i * scan.cols() + j + 1) * variants_of(symmetry)) as nat,
        ),
{
    let ghost images = variants_of(symmetry) as int;
    let ghost first = (i * scan.cols() + j) * images;
    let ghost exact = clone_is_equal::<T>();
    proof {
        assert((i * scan.cols() + j + 1) * images == first + images) by (nonlinear_arith)
            requires
                first == (i * scan.cols() + j) * images,
        ;
        assert(0 <= first) by (nonlinear_arith)
            requires
                first == (i * scan.cols() + j) * images,
                0 <= i,
                0 <= j,
                0 <= scan.cols(),
                0 <= images,
        ;
        scan.lemma_position(i, j, 0);
        if images > 1 {
            scan.lemma_position(i, j, 1);
        }
        if images > 2 {
            scan.lemma_position(i, j, 2);
            scan.lemma_position(i, j, 3);
        }
        if images > 4 {
            scan.lemma_position(i, j, 4);
            scan.lemma_position(i, j, 5);
            scan.lemma_position(i, j, 6);
            scan.lemma_position(i, j, 7);
        }
        window@.lemma_reflected();
        window@.lemma_rotated();
    }
    // We only support symmetry of size 1, 2, 4 and 8
    if symmetry <= 1 {
        tally(list, window, Ghost(scan), Ghost(first as nat), Ghost(exact));
    } else {
        let mirrored = window.reflected();
        if symmetry <= 2 {
            tally(list, window, Ghost(scan), Ghost(first as nat), Ghost(exact));
            tally(list, mirrored, Ghost(scan), Ghost((first + 1) as nat), Ghost(exact));
        } else {
            let quarter = window.rotated();
            proof {
                quarter@.lemma_reflected();
                quarter@.lemma_rotated();
            }
            let quarter_mirrored = quarter.reflected();
            if symmetry <= 4 {
                tally(list, window, Ghost(scan), Ghost(first as nat), Ghost(exact));
                tally(list, mirrored, Ghost(scan), Ghost((first + 1) as nat), Ghost(exact));
                tally(list, quarter, Ghost(scan), Ghost((first + 2) as nat), Ghost(exact));
                tally(list, quarter_mirrored, Ghost(scan), Ghost((first + 3) as nat), Ghost(exact));
            } else {
                let half = quarter.rotated();
                proof {
                    half@.lemma_reflected();
                    half@.lemma_rotated();
                }
                let half_mirrored = half.reflected();
                let three = half.rotated();
                proof {
                    three@.lemma_reflected();
                }
                let three_mirrored = three.reflected();
                tally(list, window, Ghost(scan), Ghost(first as nat), Ghost(exact));
                tally(list, mirrored, Ghost(scan), Ghost((first + 1) as nat), Ghost(exact));
                tally(list, quarter, Ghost(scan), Ghost((first + 2) as nat), Ghost(exact));
                tally(list, quarter_mirrored, Ghost(scan), Ghost((first + 3) as nat), Ghost(exact));
                tally(list, half, Ghost(scan), Ghost((first + 4) as nat), Ghost(exact));
                tally(list, half_mirrored, Ghost(scan), Ghost((first + 5) as nat), Ghost(exact));
                tally(list, three, Ghost(scan), Ghost((first + 6) as nat), Ghost(exact));
                tally(list, three_mirrored, Ghost(scan), Ghost((first + 7) as nat), Ghost(exact));
            }
        }
    }
}

/// Get the list of patterns in the input, as well as the number of time they appear in the input.
///
/// The windows of the input are read row after row, each with as many of
/// its images as the symmetry asks for. The patterns come in the order in
/// which they are first met.
pub fn get_patterns<T>(input: &Vec2D<T>, periodic: bool, pattern_size: usize, symmetry: usize) -> (r:
    Vec<(Vec2D<T>, usize)>) where T: Clone + PartialEq
    requires
        input.wf(),
        1 <= pattern_size <= input@.height,
        pattern_size <= input@.width,
        (Scan { input: input@, periodic, size: pattern_size as nat, symmetry }).total()
            <= usize::MAX,
    ensures
        squares(r@, pattern_size as nat),
        1 <= r.len() <= (Scan {
            input: input@,
            periodic,
            size: pattern_size as nat,
            symmetry,
        }).total(),
        eq_is_equal::<T>() && clone_is_equal::<T>() ==> tallied(
            Scan { input: input@, periodic, size: pattern_size as nat, symmetry },
            r@,
            (Scan { input: input@, periodic, size: pattern_size as nat, symmetry }).total() as nat,
        ),
{
    let ghost scan = Scan { input: input@, periodic, size: pattern_size as nat, symmetry };
    let ghost images = variants_of(symmetry) as int;
    let ghost lawful = eq_is_equal::<T>() && clone_is_equal::<T>();
    let mut patterns: Vec<(Vec2D<T>, usize)> = Vec::new();

    let max_i = if periodic {
        input.height()
    } else {
        input.height() - pattern_size + 1
    };

    let max_j = if periodic {
        input.width()
    } else {
        input.width() - pattern_size + 1
    };

    proof {
        assert(input@.cells.len() > 0) by (nonlinear_arith)
            requires
                input@.cells.len() == input@.height * input@.width,
                input@.height >= 1,
                input@.width >= 1,
        ;
        assert(0 * scan.cols() * images == 0) by (nonlinear_arith);
    }
    let mut i: usize = 0;
    while i < max_i
        invariant
            i <= max_i,
            max_i == scan.rows(),
            max_j == scan.cols(),
            max_j >= 1,
            images == variants_of(symmetry),
            input.wf(),
            input@.cells.len() > 0,
            scan == (Scan { input: input@, periodic, size: pattern_size as nat, symmetry }),
            1 <= pattern_size <= input@.height,
            pattern_size <= input@.width,
            scan.total() <= usize::MAX,
            lawful == (eq_is_equal::<T>() && clone_is_equal::<T>()),
            squares(patterns@, scan.size),
            patterns.len() <= i * scan.cols() * images,
            i > 0 ==> patterns.len() >= 1,
            forall|k: int| 0 <= k < patterns.len() ==> (#[trigger] patterns[k]).1 <= i * scan.cols() * images,
            lawful ==> tallied(scan, patterns@, (i * scan.cols() * images) as nat),
        decreases max_i - i,
    {
        let mut j: usize = 0;
        proof {
            assert((i * scan.cols() + 0) * images == i * scan.cols() * images) by (nonlinear_arith);
        }
        while j < max_j
            invariant
                i < max_i,
                j <= max_j,
                max_i == scan.rows(),
                max_j == scan.cols(),
                images == variants_of(symmetry),
                input.wf(),
                input@.cells.len() > 0,
                scan == (Scan { input: input@, periodic, size: pattern_size as nat, symmetry }),
                1 <= pattern_size <= input@.height,
                pattern_size <= input@.width,
                scan.total() <= usize::MAX,
                lawful == (eq_is_equal::<T>() && clone_is_equal::<T>()),
                squares(patterns@, scan.size),
                patterns.len() <= (i * scan.cols() + j) * images,
                i > 0 || j > 0 ==> patterns.len() >= 1,
                forall|k: int|
                    0 <= k < patterns.len() ==> (#[trigger] patterns[k]).1 <= (i * scan.cols() + j)
                        * images,
                lawful ==> tallied(scan, patterns@, ((i * scan.cols() + j) * images) as nat),
            decreases max_j - j,
        {
            let pattern = input.get_sub_vec(i, j, pattern_size, pattern_size);
            proof {
                input@.lemma_sub_grid(i as int, j as int, pattern_size as nat, pattern_size as nat);
            }
            tally_window(&mut patterns, pattern, symmetry, Ghost(scan), Ghost(i as int), Ghost(j as int));
            j += 1;
        }
        proof {
            assert((i * scan.cols() + max_j) * images == (i + 1) * scan.cols() * images)
                by (nonlinear_arith)
                requires
                    max_j == scan.cols(),
            ;
        }
        i += 1;
    }
    patterns
}

/// Get the middle bottommost pattern of the input.
/// If the input is toric, then this pattern is the one having only one pixel
/// in the bottom, and options.pattern_size - 1 pixels in the top
pub fn get_ground_pattern<T: Clone>(input: &Vec2D<T>, options: &OverlappingWFCOptions) -> (r: Vec2D<
    T,
>)
    requires
        input.wf(),
        1 <= options.pattern_size <= input@.height,
        options.pattern_size <= input@.width,
    ensures
        r.wf(),
        r@.height == options.pattern_size,
        r@.width == options.pattern_size,
        ground_window(input@, *options).cloned_to(r@),
        clone_is_equal::<T>() ==> r@ == ground_window(input@, *options),
{
    proof {
        assert(input@.cells.len() > 0) by (nonlinear_arith)
            requires
                input@.cells.len() == input@.height * input@.width,
                input@.height >= 1,
                input@.width >= 1,
        ;
        input@.lemma_sub_grid(
            ground_row(input@, *options),
            ground_column(input@, *options),
            options.pattern_size as nat,
            options.pattern_size as nat,
        );
    }
    if options.periodic_input {
        input.get_sub_vec(
            input.height() - 1,
            (input.width() - options.pattern_size) / 2,
            options.pattern_size,
            options.pattern_size,
        )
    } else {
        input.get_sub_vec(
            input.height() - options.pattern_size,
            (input.width() - options.pattern_size) / 2,
            options.pattern_size,
            options.pattern_size,
        )
    }
}

/// The row in which the ground pattern starts: the last row of a toric
/// input, and the last row in which a window fits of another.
pub open spec fn ground_row<T>(input: Grid<T>, options: OverlappingWFCOptions) -> int {
    if options.periodic_input {
        input.height - 1
    } else {
        input.height - options.pattern_size
    }
}

/// The column in which the ground pattern starts: the middle one.
pub open spec fn ground_column<T>(input: Grid<T>, options: OverlappingWFCOptions) -> int {
    (input.width - options.pattern_size) / 2
}

/// The ground pattern of an input: the window at the middle of its bottom.
pub open spec fn ground_window<T>(input: Grid<T>, options: OverlappingWFCOptions) -> Grid<T> {
    input.sub_grid(
        ground_row(input, options),
        ground_column(input, options),
        options.pattern_size as nat,
        options.pattern_size as nat,
    )
}

/// Part a list of patterns with their numbers into the patterns and the
/// numbers.
fn unzip<T>(list: Vec<(Vec2D<T>, usize)>) -> (r: (Vec<Vec2D<T>>, Vec<usize>))
    ensures
        r.0.len() == list.len(),
        r.1.len() == list.len(),
        forall|k: int| 0 <= k < list.len() ==> #[trigger] list[k] == (r.0[k], r.1[k]),
{
    let mut patterns: Vec<Vec2D<T>> = Vec::new();
    let mut weights: Vec<usize> = Vec::new();
    for entry in it: list.into_iter()
        invariant
            patterns.len() == it.index(),
            weights.len() == it.index(),
            forall|k: int| 0 <= k < it.index() ==> #[trigger] it.seq()[k] == (patterns[k], weights[k]),
    {
        let (pattern, weight) = entry;
        patterns.push(pattern);
        weights.push(weight);
    }
    (patterns, weights)
}

/// Where an image comes from when the output does not wrap around: row or
/// column `i` of the image is read from the pattern at `i` at offset 0 while
/// `i` is below the side of a pattern, and from the last offset of the
/// pattern that ends at `i` after that.
pub open spec fn source_of(i: int, size: int) -> (int, int) {
    if i < size {
        (i, 0)
    } else {
        (i - size + 1, size - 1)
    }
}

/// Class used for the overlapping WFC
pub struct OverlappingWFC<T> {
    options: OverlappingWFCOptions,
    wfc: WFC,
    patterns: Vec<Vec2D<T>>,
    weights: Vec<usize>,
}

impl<T> OverlappingWFC<T> {
    /// The options that the object was made with.
    pub closed spec fn options_view(&self) -> OverlappingWFCOptions {
        self.options
    }

    /// The solver that the object owns.
    pub closed spec fn wfc_view(&self) -> WFC {
        self.wfc
    }

    /// The patterns, each at the place of its number.
    pub closed spec fn patterns_view(&self) -> Seq<Vec2D<T>> {
        self.patterns@
    }

    /// The number of times that each pattern occurs in the input.
    pub closed spec fn weights_view(&self) -> Seq<usize> {
        self.weights@
    }

    /// The patterns with their numbers of occurrences.
    pub open spec fn tally_view(&self) -> Seq<(Vec2D<T>, usize)> {
        Seq::new(
            self.patterns_view().len(),
            |k: int| (self.patterns_view()[k], self.weights_view()[k]),
        )
    }

    /// The solver is at rest, its wave has the shape of the output and one
    /// entry for each pattern, and the patterns are squares of the side that
    /// the options name.
    pub open spec fn wf(&self) -> bool {
        &&& self.wfc_view().wf()
        &&& self.wfc_view().propagator_view().wave_view()@.depth == self.options_view().out_height
        &&& self.wfc_view().propagator_view().wave_view()@.height == self.options_view().out_width
        &&& self.wfc_view().propagator_view().wave_view()@.width == self.patterns_view().len()
        &&& self.weights_view().len() == self.patterns_view().len()
        &&& 1 <= self.options_view().pattern_size <= self.options_view().out_height
        &&& self.options_view().pattern_size <= self.options_view().out_width
        &&& forall|k: int|
            0 <= k < self.patterns_view().len() ==> {
                &&& (#[trigger] self.patterns_view()[k]).wf()
                &&& self.patterns_view()[k]@.height == self.options_view().pattern_size
                &&& self.patterns_view()[k]@.width == self.options_view().pattern_size
            }
    }

    /// The symbol of the image at `(i, j)`, given the pattern of each cell.
    pub open spec fn pixel(&self, ids: Grid<usize>, i: int, j: int) -> T {
        if self.options_view().periodic_output {
            self.patterns_view()[ids.at(i, j) as int]@.at(0, 0)
        } else {
            let row = source_of(i, self.options_view().pattern_size as int);
            let column = source_of(j, self.options_view().pattern_size as int);
            self.patterns_view()[ids.at(row.0, column.0) as int]@.at(row.1, column.1)
        }
    }

    /// The patterns, each at the place of its number.
    pub fn patterns(&self) -> (r: &Vec<Vec2D<T>>)
        ensures
            r@ == self.patterns_view(),
    {
        &self.patterns
    }

    /// The number of times that each pattern occurs in the input.
    pub fn weights(&self) -> (r: &Vec<usize>)
        ensures
            r@ == self.weights_view(),
    {
        &self.weights
    }

    /// The options that the object was made with.
    pub fn options(&self) -> (r: OverlappingWFCOptions)
        ensures
            r == self.options_view(),
    {
        self.options
    }

    /// Get the underlying solver
    pub fn wfc(&mut self) -> (r: &mut WFC)
        ensures
            *r == old(self).wfc_view(),
            final(self).wfc_view() == *final(r),
            final(self).options_view() == old(self).options_view(),
            final(self).patterns_view() == old(self).patterns_view(),
            final(self).weights_view() == old(self).weights_view(),
    {
        &mut self.wfc
    }

    /// What the options ask of the ground: in the bottom row of the wave
    /// no pattern but `ground` can be placed, and in every other row `ground`
    /// cannot.
    pub open spec fn pinned(&self, ground: int) -> bool {
        let wave = self.wfc_view().propagator_view().wave_view();
        &&& forall|j: int, p: int|
            0 <= j < wave@.height && 0 <= p < wave@.width && p != ground ==> !#[trigger] wave.allows(
                wave@.depth - 1,
                j,
                p,
            )
        &&& forall|i: int, j: int|
            0 <= i < wave@.depth - 1 && 0 <= j < wave@.height ==> !#[trigger] wave.allows(
                i,
                j,
                ground,
            )
    }

    /// The removals that the ground asks for in a wave of the given height:
    /// those of every pattern but `ground` from the bottom row, and those of
    /// `ground` from every other row.
    pub open spec fn ground_requests(height: usize, ground: usize) -> Set<Ban> {
        Set::new(
            |ban: Ban|
                (ban.0 + 1 == height && ban.2 != ground) || (ban.0 + 1 < height && ban.2 == ground),
        )
    }

    /// Whether the wave is one in which nothing was removed yet, and of which
    /// the wave of the solver came out by removals that the ground asked for
    /// or that were forced.
    pub open spec fn grounded_from(&self, start: &crate::wave::Wave, ground: usize) -> bool {
        let propagator = self.wfc_view().propagator_view();
        &&& start.journal().len() == 0
        &&& forall|y: int, x: int, p: int| start.in_bounds(y, x, p) ==> start.allows(y, x, p)
        &&& propagator.wave_view().shrinks_from(start)
        &&& propagator.justified(start, Self::ground_requests(self.options_view().out_height, ground))
    }

    /// The scan that reads the patterns of an input under the options.
    pub open spec fn scan_of(input: Grid<T>, options: OverlappingWFCOptions) -> Scan<T> {
        Scan {
            input,
            periodic: options.periodic_input,
            size: options.pattern_size as nat,
            symmetry: options.symmetry,
        }
    }

    /// Read the patterns of the input, work out which of them can stand next
    /// to each other, and make the solver for an output of the shape that the
    /// options name. With the option `ground`, the ground is initialized too.
    pub fn new(input: Vec2D<T>, options: OverlappingWFCOptions, seed: [u8; 16]) -> (r:
        OverlappingWFC<T>) where T: Clone + PartialEq
        requires
            input.wf(),
            1 <= options.pattern_size <= options.out_height,
            options.pattern_size <= options.out_width,
            options.pattern_size <= input@.height,
            options.pattern_size <= input@.width,
            Self::scan_of(input@, options).total() <= usize::MAX,
            options.out_height * options.out_width * Self::scan_of(input@, options).total()
                <= usize::MAX,
            options.ground ==> eq_is_equal::<T>() && clone_is_equal::<T>(),
        ensures
            r.wf(),
            r.options_view() == options,
            r.wfc_view().propagator_view().toric() == options.periodic_output,
            eq_is_equal::<T>() && clone_is_equal::<T>() ==> tallied(
                Self::scan_of(input@, options),
                r.tally_view(),
                Self::scan_of(input@, options).total() as nat,
            ),
            eq_is_equal::<T>() ==> tabulates(
                r.wfc_view().propagator_view().table(),
                r.patterns_view(),
            ) && r.wfc_view().propagator_view().consistent(),
            !options.ground ==> forall|y: int, x: int, p: int|
                r.wfc_view().propagator_view().wave_view().in_bounds(y, x, p) ==> r.wfc_view().allows(
                    y,
                    x,
                    p,
                ),
            options.ground ==> exists|ground: usize, start: crate::wave::Wave|
                {
                    &&& ground < r.patterns_view().len()
                    &&& r.patterns_view()[ground as int]@ == ground_window(input@, options)
                    &&& r.pinned(ground as int)
                    &&& #[trigger] r.grounded_from(&start, ground)
                },
    {
        let ghost scan = Self::scan_of(input@, options);
        let list = get_patterns(
            &input,
            options.periodic_input,
            options.pattern_size,
            options.symmetry,
        );
        let ghost listed = list@;
        let (patterns, weights) = unzip(list);
        proof {
            assert forall|i: int, j: int|
                0 <= i < patterns@.len() && 0 <= j < patterns@.len() implies {
                &&& (#[trigger] patterns@[i]).wf()
                &&& patterns@[i]@.height == (#[trigger] patterns@[j])@.height
                &&& patterns@[i]@.width == patterns@[j]@.width
                &&& patterns@[i]@.height >= 1
                &&& patterns@[i]@.width >= 1
            } by {
                assert(listed[i] == (patterns[i], weights[i]));
                assert(listed[j] == (patterns[j], weights[j]));
            }
            assert(options.out_height * options.out_width * patterns.len() <= usize::MAX)
                by (nonlinear_arith)
                requires
                    options.out_height * options.out_width * scan.total() <= usize::MAX,
                    0 <= patterns.len() <= scan.total(),
            ;
        }
        let compatible = precompute_compatible(patterns.as_slice());

        let wfc = WFC::new(
            options.periodic_output,
            seed,
            patterns.len(),
            compatible,
            options.out_height,
            options.out_width,
        );

        let mut r = OverlappingWFC { options, wfc, patterns, weights };
        proof {
            assert(r.tally_view() =~= listed);
            assert forall|k: int| 0 <= k < r.patterns_view().len() implies {
                &&& (#[trigger] r.patterns_view()[k]).wf()
                &&& r.patterns_view()[k]@.height == options.pattern_size
                &&& r.patterns_view()[k]@.width == options.pattern_size
            } by {
                assert(listed[k] == (patterns[k], weights[k]));
            }
        }
        if options.ground {
            let ghost solver = r.wfc_view();
            let ghost start = solver.propagator_view().wave_view();
            proof {
                assert forall|y: int, x: int, p: int| start.in_bounds(y, x, p) implies start.allows(
                    y,
                    x,
                    p,
                ) by {
                    assert(solver.allows(y, x, p));
                }
                assert(solver.propagator_view().consistent());
            }
            let ground = r.init_ground(&input);
            proof {
                assert(start.journal().len() == 0);
                assert(r.wfc_view().propagator_view().wave_view().shrinks_from(&start));
                assert(r.wfc_view().propagator_view().justified(
                    &start,
                    Self::ground_requests(r.options_view().out_height, ground),
                ));
                assert(r.grounded_from(&start, ground));
            }
        }
        r
    }

    /// Initialize the ground, given the ground pattern
    fn init_ground(&mut self, input: &Vec2D<T>) -> (ground_id: usize) where T: Clone + PartialEq
        requires
            old(self).wf(),
            input.wf(),
            old(self).options_view().pattern_size <= input@.height,
            old(self).options_view().pattern_size <= input@.width,
            Self::scan_of(input@, old(self).options_view()).total() <= usize::MAX,
            eq_is_equal::<T>(),
            clone_is_equal::<T>(),
            tallied(
                Self::scan_of(input@, old(self).options_view()),
                old(self).tally_view(),
                Self::scan_of(input@, old(self).options_view()).total() as nat,
            ),
        ensures
            final(self).wf(),
            final(self).options_view() == old(self).options_view(),
            final(self).patterns_view() == old(self).patterns_view(),
            final(self).weights_view() == old(self).weights_view(),
            final(self).wfc_view().propagator_view().same_frame(
                &old(self).wfc_view().propagator_view(),
            ),
            final(self).wfc_view().propagator_view().wave_view().shrinks_from(
                &old(self).wfc_view().propagator_view().wave_view(),
            ),
            old(self).wfc_view().propagator_view().consistent()
                ==> final(self).wfc_view().propagator_view().consistent()
                && final(self).wfc_view().propagator_view().justified(
                &old(self).wfc_view().propagator_view().wave_view(),
                Self::ground_requests(final(self).options_view().out_height, ground_id),
            ),
            ground_id < final(self).patterns_view().len(),
            final(self).patterns_view()[ground_id as int]@ == ground_window(
                input@,
                final(self).options_view(),
            ),
            final(self).pinned(ground_id as int),
    {
        let ground = get_ground_pattern(input, &self.options);
        let n = self.patterns.len();
        let ghost scan = Self::scan_of(input@, self.options);
        let ghost start = self.wfc.propagator_view();
        proof {
            // The ground pattern is a window that the scan has met.
            let row = ground_row(input@, self.options);
            let column = ground_column(input@, self.options);
            scan.lemma_position(row, column, 0);
            let at = (row * scan.cols() + column) * variants_of(scan.symmetry) + 0;
            assert(scan.occurrence(at) == ground@);
            let k = choose|k: int|
                0 <= k < self.tally_view().len() && (#[trigger] self.tally_view()[k]).0@
                    == scan.occurrence(at);
            assert(self.patterns@[k]@ == ground@);
            start.wave_view().lemma_shrinks_from_self();
        }
        let mut ground_id: usize = 0;
        while ground_id < n && !(self.patterns[ground_id] == ground)
            invariant
                ground_id <= n,
                n == self.patterns.len(),
                eq_is_equal::<T>(),
                forall|k: int| 0 <= k < ground_id ==> (#[trigger] self.patterns@[k])@ != ground@,
            decreases n - ground_id,
        {
            proof {
                lemma_eq_spec_is_equal(self.patterns@[ground_id as int], ground);
            }
            ground_id += 1;
        }
        proof {
            if ground_id < n {
                lemma_eq_spec_is_equal(self.patterns@[ground_id as int], ground);
            }
        }
        let height = self.options.out_height;
        let width = self.options.out_width;
        let mut j: usize = 0;
        while j < width
            invariant
                j <= width,
                ground_id < n,
                n == self.patterns.len(),
                height == self.options.out_height,
                width == self.options.out_width,
                self.wf(),
                self.options == old(self).options,
                self.patterns == old(self).patterns,
                self.weights == old(self).weights,
                start == old(self).wfc.propagator_view(),
                self.wfc.propagator_view().same_frame(&start),
                self.wfc.propagator_view().wave_view().shrinks_from(&start.wave_view()),
                start.consistent() ==> self.wfc.propagator_view().consistent()
                    && self.wfc.propagator_view().justified(
                    &start.wave_view(),
                    Self::ground_requests(height, ground_id),
                ),
                forall|b: int, p: int|
                    0 <= b < j && 0 <= p < n && p != ground_id ==> !#[trigger] self.wfc.allows(height - 1, b, p),
            decreases width - j,
        {
            let mut p: usize = 0;
            while p < n
                invariant
                    j < width,
                    p <= n,
                    ground_id < n,
                    n == self.patterns.len(),
                    height == self.options.out_height,
                    width == self.options.out_width,
                    self.wf(),
                    self.options == old(self).options,
                    self.patterns == old(self).patterns,
                    self.weights == old(self).weights,
                    start == old(self).wfc.propagator_view(),
                    self.wfc.propagator_view().same_frame(&start),
                    self.wfc.propagator_view().wave_view().shrinks_from(&start.wave_view()),
                    start.consistent() ==> self.wfc.propagator_view().consistent()
                    && self.wfc.propagator_view().justified(
                    &start.wave_view(),
                    Self::ground_requests(height, ground_id),
                ),
                    forall|b: int, q: int|
                        ((0 <= b < j && 0 <= q < n) || (b == j && 0 <= q < p)) && q != ground_id
                            ==> !#[trigger] self.wfc.allows(height - 1, b, q),
                decreases n - p,
            {
                if p != ground_id {
                    let ghost before = self.wfc.propagator_view();
                    let ghost solver = self.wfc;
                    self.wfc.propagator().unset(height - 1, j, p);
                    proof {
                        let after = self.wfc.propagator_view();
                        if start.consistent() {
                            after.lemma_justified_twice(
                                &before,
                                &start.wave_view(),
                                Self::ground_requests(height, ground_id),
                                set![(((height - 1) as usize), j, p)],
                                Self::ground_requests(height, ground_id),
                            );
                        }
                        after.wave_view().lemma_shrinks_from_twice(
                            &before.wave_view(),
                            &start.wave_view(),
                        );
                        assert forall|b: int, q: int|
                            ((0 <= b < j && 0 <= q < n) || (b == j && 0 <= q < p + 1)) && q
                                != ground_id implies !#[trigger] self.wfc.allows(height - 1, b, q) by {
                            if !(b == j && q == p) {
                                assert(!solver.allows(height - 1, b, q));
                                assert(after.wave_view().in_bounds(height - 1, b, q));
                            }
                        }
                    }
                }
                p += 1;
            }
            j += 1;
        }

        let mut i: usize = 0;
        while i < height - 1
            invariant
                i <= height - 1,
                ground_id < n,
                n == self.patterns.len(),
                height == self.options.out_height,
                width == self.options.out_width,
                self.wf(),
                self.options == old(self).options,
                self.patterns == old(self).patterns,
                self.weights == old(self).weights,
                start == old(self).wfc.propagator_view(),
                self.wfc.propagator_view().same_frame(&start),
                self.wfc.propagator_view().wave_view().shrinks_from(&start.wave_view()),
                start.consistent() ==> self.wfc.propagator_view().consistent()
                    && self.wfc.propagator_view().justified(
                    &start.wave_view(),
                    Self::ground_requests(height, ground_id),
                ),
                forall|b: int, q: int|
                    0 <= b < width && 0 <= q < n && q != ground_id ==> !#[trigger] self.wfc.allows(
                        height - 1,
                        b,
                        q,
                    ),
                forall|a: int, b: int|
                    0 <= a < i && 0 <= b < width ==> !#[trigger] self.wfc.allows(a, b, ground_id as int),
            decreases height - 1 - i,
        {
            let mut j: usize = 0;
            while j < width
                invariant
                    i < height - 1,
                    j <= width,
                    ground_id < n,
                    n == self.patterns.len(),
                    height == self.options.out_height,
                    width == self.options.out_width,
                    self.wf(),
                    self.options == old(self).options,
                    self.patterns == old(self).patterns,
                    self.weights == old(self).weights,
                    start == old(self).wfc.propagator_view(),
                    self.wfc.propagator_view().same_frame(&start),
                    self.wfc.propagator_view().wave_view().shrinks_from(&start.wave_view()),
                    start.consistent() ==> self.wfc.propagator_view().consistent()
                    && self.wfc.propagator_view().justified(
                    &start.wave_view(),
                    Self::ground_requests(height, ground_id),
                ),
                    forall|b: int, q: int|
                        0 <= b < width && 0 <= q < n && q != ground_id ==> !#[trigger] self.wfc.allows(
                            height - 1,
                            b,
                            q,
                        ),
                    forall|a: int, b: int|
                        (0 <= a < i && 0 <= b < width) || (a == i && 0 <= b < j)
                            ==> !#[trigger] self.wfc.allows(a, b, ground_id as int),
                decreases width - j,
            {
                let ghost before = self.wfc.propagator_view();
                let ghost solver = self.wfc;
                self.wfc.propagator().unset(i, j, ground_id);
                proof {
                    let after = self.wfc.propagator_view();
                    if start.consistent() {
                        after.lemma_justified_twice(
                            &before,
                            &start.wave_view(),
                            Self::ground_requests(height, ground_id),
                            set![(i, j, ground_id)],
                            Self::ground_requests(height, ground_id),
                        );
                    }
                    after.wave_view().lemma_shrinks_from_twice(
                        &before.wave_view(),
                        &start.wave_view(),
                    );
                    assert forall|b: int, q: int|
                        0 <= b < width && 0 <= q < n && q != ground_id implies !#[trigger] self.wfc.allows(
                        height - 1,
                        b,
                        q,
                    ) by {
                        assert(!solver.allows(height - 1, b, q));
                        assert(after.wave_view().in_bounds(height - 1, b, q));
                    }
                    assert forall|a: int, b: int|
                        (0 <= a < i && 0 <= b < width) || (a == i && 0 <= b < j + 1) implies !#[trigger] self.wfc.allows(
                        a,
                        b,
                        ground_id as int,
                    ) by {
                        if !(a == i && b == j) {
                            assert(!solver.allows(a, b, ground_id as int));
                            assert(after.wave_view().in_bounds(a, b, ground_id as int));
                        }
                    }
                }
                j += 1;
            }
            i += 1;
        }
        proof {
            let wave = self.wfc.propagator_view().wave_view();
            assert forall|b: int, q: int|
                0 <= b < wave@.height && 0 <= q < wave@.width && q != ground_id implies !#[trigger] wave.allows(
                wave@.depth - 1,
                b,
                q,
            ) by {
                assert(!self.wfc.allows(height - 1, b, q));
            }
            assert forall|a: int, b: int|
                0 <= a < wave@.depth - 1 && 0 <= b < wave@.height implies !#[trigger] wave.allows(
                a,
                b,
                ground_id as int,
            ) by {
                assert(!self.wfc.allows(a, b, ground_id as int));
            }
        }
        ground_id
    }

    /// Return the result image, given the selected patterns for each cell.
    pub fn to_image(&self, output_patterns: &Vec2D<usize>) -> (r: Vec2D<T>) where T: Clone
        requires
            self.wf(),
            output_patterns.wf(),
            output_patterns@.height == self.options_view().out_height,
            output_patterns@.width == self.options_view().out_width,
            forall|i: int, j: int|
                output_patterns@.in_bounds(i, j) ==> (#[trigger] output_patterns@.at(i, j))
                    < self.patterns_view().len(),
        ensures
            r.wf(),
            r@.height == self.options_view().out_height,
            r@.width == self.options_view().out_width,
            forall|i: int, j: int|
                r@.in_bounds(i, j) ==> cloned(
                    self.pixel(output_patterns@, i, j),
                    #[trigger] r@.at(i, j),
                ),
            clone_is_equal::<T>() ==> forall|i: int, j: int|
                r@.in_bounds(i, j) ==> #[trigger] r@.at(i, j) == self.pixel(output_patterns@, i, j),
    {
        let height = self.options.out_height;
        let width = self.options.out_width;
        let pattern_size = self.options.pattern_size;
        let periodic = self.options.periodic_output;
        let ghost ids = output_patterns@;
        let mut data: Vec<T> = Vec::new();
        let mut i: usize = 0;
        while i < height
            invariant
                self.wf(),
                output_patterns.wf(),
                ids == output_patterns@,
                ids.height == height,
                ids.width == width,
                forall|a: int, b: int|
                    ids.in_bounds(a, b) ==> (#[trigger] ids.at(a, b)) < self.patterns_view().len(),
                height == self.options.out_height,
                width == self.options.out_width,
                pattern_size == self.options.pattern_size,
                periodic == self.options.periodic_output,
                i <= height,
                data.len() == i * width,
                forall|a: int, b: int|
                    0 <= a < i && 0 <= b < width ==> cloned(
                        self.pixel(ids, a, b),
                        #[trigger] data@[a * width + b],
                    ),
            decreases height - i,
        {
            let mut j: usize = 0;
            while j < width
                invariant
                    self.wf(),
                    output_patterns.wf(),
                    ids == output_patterns@,
                    ids.height == height,
                    ids.width == width,
                    forall|a: int, b: int|
                        ids.in_bounds(a, b) ==> (#[trigger] ids.at(a, b)) < self.patterns_view().len(),
                    height == self.options.out_height,
                    width == self.options.out_width,
                    pattern_size == self.options.pattern_size,
                    periodic == self.options.periodic_output,
                    i < height,
                    j <= width,
                    data.len() == i * width + j,
                    forall|a: int, b: int|
                        (0 <= a < i && 0 <= b < width) || (a == i && 0 <= b < j) ==> cloned(
                            self.pixel(ids, a, b),
                            #[trigger] data@[a * width + b],
                        ),
                decreases width - j,
            {
                let (i2, di) = if periodic || i < pattern_size {
                    (i, 0)
                } else {
                    (i - pattern_size + 1, pattern_size - 1)
                };
                let (j2, dj) = if periodic || j < pattern_size {
                    (j, 0)
                } else {
                    (j - pattern_size + 1, pattern_size - 1)
                };
                let id = *output_patterns.get(i2, j2);
                proof {
                    assert(ids.in_bounds(i2 as int, j2 as int));
                    assert(ids.at(i2 as int, j2 as int) < self.patterns_view().len());
                    assert(self.patterns_view()[id as int].wf());
                }
                let value = self.patterns[id].get(di, dj).clone();
                let ghost before = data@;
                data.push(value);
                proof {
                    assert forall|a: int, b: int|
                        (0 <= a < i && 0 <= b < width) || (a == i && 0 <= b < j + 1) implies cloned(
                        self.pixel(ids, a, b),
                        #[trigger] data@[a * width + b],
                    ) by {
                        if a == i && b == j {
                        } else {
                            crate::utils::vec2d::lemma_flat_index(a, b, i + 1, width as int);
                            assert(a * width + b < i * width + j) by (nonlinear_arith)
                                requires
                                    (0 <= a < i && 0 <= b < width) || (a == i && 0 <= b < j),
                            ;
                            assert(data@[a * width + b] == before[a * width + b]);
                        }
                    }
                }
                j += 1;
            }
            assert((i + 1) * width == i * width + width) by (nonlinear_arith);
            i += 1;
        }
        let r = Vec2D::from_vec(data, height, width);
        proof {
            assert forall|a: int, b: int| r@.in_bounds(a, b) implies cloned(
                self.pixel(output_patterns@, a, b),
                #[trigger] r@.at(a, b),
            ) by {
                assert(cloned(self.pixel(ids, a, b), data@[a * width + b]));
            }
        }
        r
    }
}

} // verus!
