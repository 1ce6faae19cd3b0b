//! Contain the Wave struct, that keep track of main wave structure,
//! which is the possible patterns for each cell, and how many are left in it

use crate::utils::vec2d::Vec2D;
use crate::utils::vec3d::{Grid3, Vec3D};
use rand::Rng;
use rand_xorshift::XorShiftRng;
use std::ops::Index;
use vstd::prelude::*;

verus! {

/// The number of `true` entries of a sequence.
pub open spec fn count_true(s: Seq<bool>) -> nat
    decreases s.len(),
{
    if s.len() == 0 {
        0
    } else {
        count_true(s.drop_last()) + if s.last() {
            1nat
        } else {
            0nat
        }
    }
}

/// No more entries are `true` than there are entries, and all of them are
/// exactly when the number is the length.
pub proof fn lemma_count_true_bounds(s: Seq<bool>)
    ensures
        count_true(s) <= s.len(),
        count_true(s) == s.len() <==> (forall|i: int| 0 <= i < s.len() ==> s[i]),
        count_true(s) == 0 <==> (forall|i: int| 0 <= i < s.len() ==> !s[i]),
    decreases s.len(),
{
    if s.len() > 0 {
        let t = s.drop_last();
        lemma_count_true_bounds(t);
        if count_true(s) == s.len() {
            assert forall|i: int| 0 <= i < s.len() implies s[i] by {
                if i < t.len() {
                    assert(t[i]);
                }
            }
        }
        if forall|i: int| 0 <= i < s.len() ==> s[i] {
            assert forall|i: int| 0 <= i < t.len() implies t[i] by {
                assert(s[i]);
            }
        }
        if count_true(s) == 0 {
            assert forall|i: int| 0 <= i < s.len() implies !s[i] by {
                if i < t.len() {
                    assert(!t[i]);
                }
            }
        }
        if forall|i: int| 0 <= i < s.len() ==> !s[i] {
            assert forall|i: int| 0 <= i < t.len() implies !t[i] by {
                assert(!s[i]);
            }
        }
    }
}

/// Writing `value` over entry `i` changes the number of `true` entries by
/// the difference between the new and the old entry.
pub proof fn lemma_count_true_update(s: Seq<bool>, i: int, value: bool)
    requires
        0 <= i < s.len(),
    ensures
        count_true(s.update(i, value)) + (if s[i] {
            1nat
        } else {
            0nat
        }) == count_true(s) + (if value {
            1nat
        } else {
            0nat
        }),
    decreases s.len(),
{
    let u = s.update(i, value);
    if i == s.len() - 1 {
        assert(u.drop_last() =~= s.drop_last());
    } else {
        lemma_count_true_update(s.drop_last(), i, value);
        assert(u.drop_last() =~= s.drop_last().update(i, value));
    }
}

/// A sequence with exactly one `true` entry has it at one place only.
pub proof fn lemma_count_true_one(s: Seq<bool>, i: int, j: int)
    requires
        count_true(s) == 1,
        0 <= i < s.len(),
        0 <= j < s.len(),
        s[i],
        s[j],
    ensures
        i == j,
{
    if i != j {
        lemma_count_true_update(s, i, false);
        let u = s.update(i, false);
        lemma_count_true_bounds(u);
        assert(u[j]);
    }
}

/// Error for some operations dealing with the wave.
/// Impossible mean that there is a contradiction in the wave, and no solution exists.
/// Finished mean that every cell is determined
#[derive(Debug, PartialEq, Eq, Clone, Copy, Structural)]
pub enum WaveError {
    Impossible,
    Finished,
}

/// The xorshift generator of the crate `rand_xorshift`: a value that only
/// that crate reads and steps.
#[verifier::external_type_specification]
#[verifier::external_body]
pub struct ExXorShiftRng(XorShiftRng);

/// Takes the next number from the generator, as `Rng::gen::<i32>` of the crate
/// `rand` does. Any `i32` may come out: nothing is stated of it.
#[verifier::external_body]
fn draw(rng_gen: &mut XorShiftRng) -> (r: i32) {
    rng_gen.gen()
}

/// The rank of the entropy of a cell: a smaller rank stands for a smaller
/// entropy and equal ranks for equal entropies, `u32::MAX` stands for an
/// entropy above every number, and `None` for a cell whose entropy is no number.
pub type Rank = Option<u32>;

/// The best cell that a scan for the smallest rank has met so far, with the
/// number that was drawn for it.
#[derive(Debug, Clone, Copy)]
pub struct Lead {
    pub rank: u32,
    pub draw: i32,
    pub cell: Option<(usize, usize)>,
}

impl Lead {
    /// The lead before any cell was met: the largest rank and the largest
    /// draw.
    pub open spec fn spec_start() -> Lead {
        Lead { rank: u32::MAX, draw: i32::MAX, cell: None }
    }

    /// A cell takes the lead with a smaller rank, or with the same rank and a
    /// smaller draw.
    pub open spec fn yields_to(self, rank: u32, draw: i32) -> bool {
        rank < self.rank || (rank == self.rank && draw < self.draw)
    }

    /// The lead after the cell `(y, x)` with the given rank and draw was met.
    pub open spec fn spec_challenge(self, y: usize, x: usize, rank: u32, draw: i32) -> Lead {
        if self.yields_to(rank, draw) {
            Lead { rank, draw, cell: Some((y, x)) }
        } else {
            self
        }
    }

    /// The lead before any cell was met.
    #[verifier::when_used_as_spec(spec_start)]
    pub fn start() -> (r: Lead)
        ensures
            r == Lead::spec_start(),
    {
        Lead { rank: u32::MAX, draw: i32::MAX, cell: None }
    }

    /// Meet the cell `(y, x)` with the given rank and draw.
    #[verifier::when_used_as_spec(spec_challenge)]
    pub fn challenge(self, y: usize, x: usize, rank: u32, draw: i32) -> (r: Lead)
        ensures
            r == self.spec_challenge(y, x, rank, draw),
    {
        if rank < self.rank || (rank == self.rank && draw < self.draw) {
            Lead { rank, draw, cell: Some((y, x)) }
        } else {
            self
        }
    }
}

/// One removal of a pattern from a cell: the row, the column and the
/// pattern.
pub type Ban = (usize, usize, usize);

/// Contains the list of valid patterns for each cell.
/// Also, contains for each cell how many patterns are valid in it.
pub struct Wave {
    /// The wave data. data[index][pattern] is true if the pattern can be placed in the cell index
    data: Vec3D<bool>,
    /// The number of possible patterns of each cell
    n_patterns: Vec2D<usize>,
    /// The removals made since the journal was last taken, oldest first
    journal: Vec<Ban>,
}

impl View for Wave {
    type V = Grid3<bool>;

    /// The wave as a matrix of rows, columns and patterns: the cell
    /// `(y, x, p)` tells whether pattern `p` can be placed in `(y, x)`.
    closed spec fn view(&self) -> Grid3<bool> {
        self.data@
    }
}

impl Wave {
    /// The number of patterns that the memo holds for cell `(y, x)`.
    pub closed spec fn noted(&self, y: int, x: int) -> nat {
        self.n_patterns@.at(y, x) as nat
    }

    /// The removals made since the journal was last taken, oldest first.
    pub closed spec fn journal(&self) -> Seq<Ban> {
        self.journal@
    }

    /// Whether pattern `p` can be placed in cell `(y, x)`.
    pub open spec fn allows(&self, y: int, x: int, p: int) -> bool {
        self@.at(y, x, p)
    }

    /// The number of patterns that can be placed in cell `(y, x)`.
    pub open spec fn count(&self, y: int, x: int) -> nat {
        count_true(self@.row(y, x))
    }

    /// The number of pairs of a cell and a pattern that can be placed in it.
    pub open spec fn total(&self) -> nat {
        count_true(self@.cells)
    }

    pub open spec fn in_bounds(&self, y: int, x: int, p: int) -> bool {
        self@.in_bounds(y, x, p)
    }

    pub closed spec fn memo_wf(&self) -> bool {
        &&& self.data.wf()
        &&& self.n_patterns.wf()
        &&& self.n_patterns@.height == self.data@.depth
        &&& self.n_patterns@.width == self.data@.height
        &&& self.data@.depth * self.data@.height <= usize::MAX
    }

    /// The wave fills its shape, and the memo of every cell holds the number
    /// of patterns that can be placed in it.
    pub open spec fn wf(&self) -> bool {
        &&& self@.wf()
        &&& self.memo_wf()
        &&& forall|y: int, x: int|
            0 <= y < self@.depth && 0 <= x < self@.height ==> #[trigger] self.noted(y, x)
                == self.count(y, x)
    }

    /// Where the wave is well formed, no cell can take more patterns than
    /// there are, and the rows of the wave are its cells.
    pub proof fn lemma_count(&self, y: int, x: int)
        requires
            self.wf(),
            0 <= y < self@.depth,
            0 <= x < self@.height,
        ensures
            self.count(y, x) <= self@.width,
            self.count(y, x) == 0 <==> (forall|p: int| 0 <= p < self@.width ==> !self.allows(y, x, p)),
            self.count(y, x) == self@.width <==> (forall|p: int|
                0 <= p < self@.width ==> self.allows(y, x, p)),
    {
        let row = self@.row(y, x);
        self@.lemma_row(y, x);
        lemma_count_true_bounds(row);
        if forall|p: int| 0 <= p < self@.width ==> !self.allows(y, x, p) {
            assert forall|p: int| 0 <= p < row.len() implies !row[p] by {
                assert(!self.allows(y, x, p));
            }
        }
        if forall|p: int| 0 <= p < self@.width ==> self.allows(y, x, p) {
            assert forall|p: int| 0 <= p < row.len() implies row[p] by {
                assert(self.allows(y, x, p));
            }
        }
        if count_true(row) == 0 {
            assert forall|p: int| 0 <= p < self@.width implies !self.allows(y, x, p) by {
                assert(!row[p]);
            }
        }
        if count_true(row) == row.len() {
            assert forall|p: int| 0 <= p < self@.width implies self.allows(y, x, p) by {
                assert(row[p]);
            }
        }
    }

    /// Whether the removal names a pattern of a cell of the wave.
    pub open spec fn holds(&self, ban: Ban) -> bool {
        self.in_bounds(ban.0 as int, ban.1 as int, ban.2 as int)
    }

    /// Whether the pattern that the removal names can be placed in its cell.
    pub open spec fn permits(&self, ban: Ban) -> bool {
        self.allows(ban.0 as int, ban.1 as int, ban.2 as int)
    }

    /// The wave came out of `before` by removals alone, and its journal
    /// continues that of `before` with exactly those removals, each once.
    pub open spec fn shrinks_from(&self, before: &Wave) -> bool {
        &&& self@.depth == before@.depth
        &&& self@.height == before@.height
        &&& self@.width == before@.width
        &&& forall|y: int, x: int, p: int|
            self.in_bounds(y, x, p) && self.allows(y, x, p) ==> before.allows(y, x, p)
        &&& before.journal().len() <= self.journal().len()
        &&& self.journal().subrange(0, before.journal().len() as int) == before.journal()
        &&& forall|k: int|
            before.journal().len() <= k < self.journal().len() ==> {
                let ban = #[trigger] self.journal()[k];
                &&& self.holds(ban)
                &&& before.permits(ban)
                &&& !self.permits(ban)
            }
        &&& forall|k: int, m: int|
            before.journal().len() <= k < m < self.journal().len() ==> self.journal()[k]
                != self.journal()[m]
        &&& forall|ban: Ban|
            self.holds(ban) && before.permits(ban) && !self.permits(ban) ==> exists|k: int|
                before.journal().len() <= k < self.journal().len() && #[trigger] self.journal()[k]
                    == ban
    }

    /// A wave came out of itself by no removal.
    pub proof fn lemma_shrinks_from_self(&self)
        ensures
            self.shrinks_from(self),
    {
        assert(self.journal().subrange(0, self.journal().len() as int) =~= self.journal());
    }

    /// Where a wave came out of `before` by removals, and `self` is that wave
    /// after one more call of `unset`, `self` came out of `before` by removals.
    pub proof fn lemma_shrinks_from_step(&self, middle: &Wave, before: &Wave, ban: Ban)
        requires
            middle.wf(),
            middle.shrinks_from(before),
            middle.holds(ban),
            self@ == middle@.with(ban.0 as int, ban.1 as int, ban.2 as int, false),
            self.journal() == (if middle.permits(ban) {
                middle.journal().push(ban)
            } else {
                middle.journal()
            }),
        ensures
            self.shrinks_from(before),
    {
        middle@.lemma_with(ban.0 as int, ban.1 as int, ban.2 as int, false);
        let n0 = before.journal().len() as int;
        let n1 = middle.journal().len() as int;
        assert(self.journal().subrange(0, n0) =~= middle.journal().subrange(0, n0));
        assert forall|y: int, x: int, p: int| self.in_bounds(y, x, p) implies self@.at(y, x, p) == (
        if y == ban.0 && x == ban.1 && p == ban.2 {
            false
        } else {
            middle@.at(y, x, p)
        }) by {
            assert(self@.at(y, x, p) == middle@.with(
                ban.0 as int,
                ban.1 as int,
                ban.2 as int,
                false,
            ).at(y, x, p));
        }
        assert forall|other: Ban|
            self.holds(other) && before.permits(other) && !self.permits(other) implies exists|
            k: int,
        |
            n0 <= k < self.journal().len() && #[trigger] self.journal()[k] == other by {
            if !middle.permits(other) {
                let k = choose|k: int| n0 <= k < n1 && #[trigger] middle.journal()[k] == other;
                assert(self.journal()[k] == other);
            } else {
                assert(other == ban);
                assert(self.journal()[n1] == other);
            }
        }
        assert forall|k: int| n0 <= k < self.journal().len() implies {
            let other = #[trigger] self.journal()[k];
            &&& self.holds(other)
            &&& before.permits(other)
            &&& !self.permits(other)
        } by {
            let other = self.journal()[k];
            if k < n1 {
                assert(middle.journal()[k] == other);
                assert(middle.holds(other));
                assert(!middle.permits(other));
            } else {
                assert(other == ban);
            }
        }
        assert forall|k: int, m: int| n0 <= k < m < self.journal().len() implies self.journal()[k]
            != self.journal()[m] by {
            if m < n1 {
                assert(middle.journal()[k] != middle.journal()[m]);
            } else {
                let other = middle.journal()[k];
                assert(self.journal()[k] == other);
                assert(!middle.permits(other));
                assert(self.journal()[m] == ban);
            }
        }
    }

    /// Coming out by removals carries over two steps.
    pub proof fn lemma_shrinks_from_twice(&self, middle: &Wave, before: &Wave)
        requires
            self.shrinks_from(middle),
            middle.shrinks_from(before),
        ensures
            self.shrinks_from(before),
    {
        let n0 = before.journal().len() as int;
        let n1 = middle.journal().len() as int;
        assert forall|k: int| 0 <= k < n1 implies self.journal()[k] == middle.journal()[k] by {
            assert(self.journal().subrange(0, n1)[k] == middle.journal()[k]);
        }
        assert(self.journal().subrange(0, n0) =~= middle.journal().subrange(0, n0));
        assert forall|other: Ban|
            self.holds(other) && before.permits(other) && !self.permits(other) implies exists|
            k: int,
        |
            n0 <= k < self.journal().len() && #[trigger] self.journal()[k] == other by {
            if !middle.permits(other) {
                let k = choose|k: int| n0 <= k < n1 && #[trigger] middle.journal()[k] == other;
                assert(self.journal()[k] == other);
            } else {
                let k = choose|k: int|
                    n1 <= k < self.journal().len() && #[trigger] self.journal()[k] == other;
                assert(self.journal()[k] == other);
            }
        }
        assert forall|k: int| n0 <= k < self.journal().len() implies {
            let other = #[trigger] self.journal()[k];
            &&& self.holds(other)
            &&& before.permits(other)
            &&& !self.permits(other)
        } by {
            let other = self.journal()[k];
            if k < n1 {
                assert(middle.journal()[k] == other);
                assert(middle.holds(other));
                assert(!middle.permits(other));
            } else {
                assert(middle.permits(other));
            }
        }
        assert forall|k: int, m: int| n0 <= k < m < self.journal().len() implies self.journal()[k]
            != self.journal()[m] by {
            if m < n1 {
                assert(middle.journal()[k] != middle.journal()[m]);
            } else if k < n1 {
                let other = middle.journal()[k];
                assert(self.journal()[k] == other);
                assert(!middle.permits(other));
                assert(middle.permits(self.journal()[m]));
            }
        }
    }

    /// Removing a pattern that a cell can take makes the number of pairs of
    /// a cell and a pattern one smaller.
    pub proof fn lemma_total_after_unset(&self, i: int, j: int, p: int)
        requires
            self.wf(),
            self.in_bounds(i, j, p),
        ensures
            count_true(self@.with(i, j, p, false).cells) + (if self.allows(i, j, p) {
                1nat
            } else {
                0nat
            }) == self.total(),
    {
        self@.lemma_flat(i, j, p);
        lemma_count_true_update(self@.cells, self@.flat(i, j, p), false);
    }

    /// The numbers of rows, of columns and of patterns are machine numbers.
    pub proof fn lemma_shape_fits(&self)
        ensures
            self@.depth <= usize::MAX,
            self@.height <= usize::MAX,
            self@.width <= usize::MAX,
    {
        self.data.lemma_shape_fits();
    }

    /// Create a new wave where every pattern can be in every cell.
    pub fn new(height: usize, width: usize, n_patterns: usize) -> (r: Self)
        requires
            n_patterns > 0,
            height * width * n_patterns <= usize::MAX,
        ensures
            r.wf(),
            r@.depth == height,
            r@.height == width,
            r@.width == n_patterns,
            forall|y: int, x: int, p: int| r.in_bounds(y, x, p) ==> r.allows(y, x, p),
            r.journal() == Seq::<Ban>::empty(),
    {
        let data = Vec3D::new(height, width, n_patterns, &true);
        proof {
            assert(height * width <= usize::MAX) by (nonlinear_arith)
                requires
                    height * width * n_patterns <= usize::MAX,
                    n_patterns > 0,
            ;
        }
        let noted = Vec2D::new(height, width, &n_patterns);
        let r = Wave { data, n_patterns: noted, journal: Vec::new() };
        proof {
            r.lemma_all_allowed();
        }
        r
    }

    /// A wave whose every entry is `true` and whose memo holds the number of
    /// patterns for every cell is well formed.
    proof fn lemma_all_allowed(&self)
        requires
            self.memo_wf(),
            forall|n: int| 0 <= n < self@.cells.len() ==> #[trigger] self@.cells[n],
            forall|n: int|
                0 <= n < self.n_patterns@.cells.len() ==> #[trigger] self.n_patterns@.cells[n]
                    == self@.width,
        ensures
            self.wf(),
            forall|y: int, x: int, p: int| self.in_bounds(y, x, p) ==> self.allows(y, x, p),
    {
        assert forall|y: int, x: int, p: int| self.in_bounds(y, x, p) implies self.allows(
            y,
            x,
            p,
        ) by {
            self@.lemma_flat(y, x, p);
        }
        assert forall|y: int, x: int| 0 <= y < self@.depth && 0 <= x < self@.height implies #[trigger] self.noted(
            y,
            x,
        ) == self.count(y, x) by {
            let row = self@.row(y, x);
            self@.lemma_row(y, x);
            lemma_count_true_bounds(row);
            assert forall|p: int| 0 <= p < row.len() implies row[p] by {
                assert(self.allows(y, x, p));
            }
            crate::utils::vec2d::lemma_flat_index(
                y,
                x,
                self.n_patterns@.height as int,
                self.n_patterns@.width as int,
            );
        }
    }

    /// Set every element in the wave to true
    pub fn reset(&mut self)
        requires
            old(self).wf(),
        ensures
            final(self).wf(),
            final(self)@.depth == old(self)@.depth,
            final(self)@.height == old(self)@.height,
            final(self)@.width == old(self)@.width,
            forall|y: int, x: int, p: int|
                final(self).in_bounds(y, x, p) ==> final(self).allows(y, x, p),
            final(self).journal() == Seq::<Ban>::empty(),
    {
        let height = self.data.depth();
        let width = self.data.height();
        let n_patterns = self.data.width();
        let ghost shape = self.data@;
        let mut y: usize = 0;
        while y < height
            invariant
                y <= height,
                self.memo_wf(),
                self.data@.depth == height,
                self.data@.height == width,
                self.data@.width == n_patterns,
                shape.depth == height,
                shape.height == width,
                shape.width == n_patterns,
                shape.wf(),
                forall|a: int, b: int, c: int|
                    0 <= a < y && 0 <= b < width && 0 <= c < n_patterns ==> #[trigger] self.data@.cells[shape.flat(
                        a,
                        b,
                        c,
                    )],
                forall|a: int, b: int|
                    0 <= a < y && 0 <= b < width ==> #[trigger] self.n_patterns@.at(a, b)
                        == n_patterns,
            decreases height - y,
        {
            let mut x: usize = 0;
            while x < width
                invariant
                    y < height,
                    x <= width,
                    self.memo_wf(),
                    self.data@.depth == height,
                    self.data@.height == width,
                    self.data@.width == n_patterns,
                    shape.depth == height,
                    shape.height == width,
                    shape.width == n_patterns,
                    shape.wf(),
                    forall|a: int, b: int, c: int|
                        ((0 <= a < y && 0 <= b < width) || (a == y && 0 <= b < x)) && 0 <= c
                            < n_patterns ==> #[trigger] self.data@.cells[shape.flat(a, b, c)],
                    forall|a: int, b: int|
                        (0 <= a < y && 0 <= b < width) || (a == y && 0 <= b < x)
                            ==> #[trigger] self.n_patterns@.at(a, b) == n_patterns,
                decreases width - x,
            {
                let mut p: usize = 0;
                while p < n_patterns
                    invariant
                        y < height,
                        x < width,
                        p <= n_patterns,
                        self.memo_wf(),
                        self.data@.depth == height,
                        self.data@.height == width,
                        self.data@.width == n_patterns,
                        shape.depth == height,
                        shape.height == width,
                        shape.width == n_patterns,
                        shape.wf(),
                        forall|a: int, b: int, c: int|
                            (((0 <= a < y && 0 <= b < width) || (a == y && 0 <= b < x)) && 0 <= c
                                < n_patterns) || (a == y && b == x && 0 <= c < p)
                                ==> #[trigger] self.data@.cells[shape.flat(a, b, c)],
                        forall|a: int, b: int|
                            (0 <= a < y && 0 <= b < width) || (a == y && 0 <= b < x)
                                ==> #[trigger] self.n_patterns@.at(a, b) == n_patterns,
                    decreases n_patterns - p,
                {
                    proof {
                        self.data@.lemma_flat(y as int, x as int, p as int);
                    }
                    let ghost before = self.data@;
                    *self.data.get_mut(y, x, p) = true;
                    proof {
                        assert forall|a: int, b: int, c: int|
                            (((0 <= a < y && 0 <= b < width) || (a == y && 0 <= b < x)) && 0 <= c
                                < n_patterns) || (a == y && b == x && 0 <= c < p + 1) implies #[trigger] self.data@.cells[shape.flat(
                            a,
                            b,
                            c,
                        )] by {
                            assert(shape.flat(a, b, c) == before.flat(a, b, c));
                            shape.lemma_flat(a, b, c);
                            if a == y && b == x && c == p {
                            } else {
                                assert(before.cells[shape.flat(a, b, c)]);
                            }
                        }
                    }
                    p += 1;
                }
                let ghost before = self.n_patterns@;
                self.n_patterns.set(y, x, n_patterns);
                proof {
                    crate::utils::vec2d::lemma_flat_index(
                        y as int,
                        x as int,
                        height as int,
                        width as int,
                    );
                    assert forall|a: int, b: int|
                        (0 <= a < y && 0 <= b < width) || (a == y && 0 <= b < x + 1) implies #[trigger] self.n_patterns@.at(
                        a,
                        b,
                    ) == n_patterns by {
                        crate::utils::vec2d::lemma_flat_index(a, b, height as int, width as int);
                        if a == y && b == x {
                        } else {
                            assert(before.at(a, b) == n_patterns);
                        }
                    }
                }
                x += 1;
            }
            y += 1;
        }
        self.journal = Vec::new();
        proof {
            assert forall|n: int| 0 <= n < self@.cells.len() implies #[trigger] self@.cells[n] by {
                self@.lemma_coordinates(n);
                let a = (n / self@.width as int) / self@.height as int;
                let b = (n / self@.width as int) % self@.height as int;
                let c = n % self@.width as int;
                assert(self.data@.cells[shape.flat(a, b, c)]);
            }
            assert forall|n: int|
                0 <= n < self.n_patterns@.cells.len() implies #[trigger] self.n_patterns@.cells[n]
                == self@.width by {
                crate::utils::vec2d::lemma_flat_coordinates(n, height as int, width as int);
                assert(self.n_patterns@.at(n / width as int, n % width as int) == n_patterns);
            }
            self.lemma_all_allowed();
        }
    }

    /// Return true if pattern can be placed in cell (i, j).
    pub fn get(&self, i: usize, j: usize, pattern: usize) -> (r: bool)
        requires
            self.wf(),
            self.in_bounds(i as int, j as int, pattern as int),
        ensures
            r == self.allows(i as int, j as int, pattern as int),
    {
        proof {
            self@.lemma_flat(i as int, j as int, pattern as int);
        }
        *self.data.get(i, j, pattern)
    }

    /// Remove pattern from the wave on cell (i, j).
    /// This means that pattern cannot be placed in cell (i, j).
    pub fn unset(&mut self, i: usize, j: usize, pattern: usize)
        requires
            old(self).wf(),
            old(self).in_bounds(i as int, j as int, pattern as int),
        ensures
            final(self).wf(),
            final(self)@ == old(self)@.with(i as int, j as int, pattern as int, false),
            forall|y: int, x: int, p: int|
                old(self).in_bounds(y, x, p) ==> #[trigger] final(self).allows(y, x, p) == (old(self).allows(
                    y,
                    x,
                    p,
                ) && !(y == i && x == j && p == pattern)),
            final(self).journal() == (if old(self).allows(i as int, j as int, pattern as int) {
                old(self).journal().push((i, j, pattern))
            } else {
                old(self).journal()
            }),
    {
        proof {
            self@.lemma_flat(i as int, j as int, pattern as int);
            self@.lemma_with(i as int, j as int, pattern as int, false);
            self@.lemma_row(i as int, j as int);
            lemma_count_true_update(self@.row(i as int, j as int), pattern as int, false);
        }
        if *self.data.get(i, j, pattern) {
            let ghost before = *self;
            *self.data.get_mut(i, j, pattern) = false;
            let n = *self.n_patterns.get(i, j);
            assert(before.noted(i as int, j as int) == before.count(i as int, j as int));
            self.n_patterns.set(i, j, n - 1);
            self.journal.push((i, j, pattern));
            proof {
                assert forall|y: int, x: int|
                    0 <= y < self@.depth && 0 <= x < self@.height implies #[trigger] self.noted(y, x)
                    == self.count(y, x) by {
                    crate::utils::vec2d::lemma_flat_index(
                        y,
                        x,
                        self@.depth as int,
                        self@.height as int,
                    );
                    crate::utils::vec2d::lemma_flat_index(
                        i as int,
                        j as int,
                        self@.depth as int,
                        self@.height as int,
                    );
                    assert(before.noted(y, x) == before.count(y, x));
                    if y == i && x == j {
                    } else {
                        assert(self@.row(y, x) == before@.row(y, x));
                    }
                }
            }
        } else {
            assert(self@.cells =~= self@.with(i as int, j as int, pattern as int, false).cells);
        }
    }

    /// The number of patterns that can be placed in cell (i, j).
    pub fn n_patterns(&self, i: usize, j: usize) -> (r: usize)
        requires
            self.wf(),
            i < self@.depth,
            j < self@.height,
        ensures
            r == self.count(i as int, j as int),
    {
        assert(self.noted(i as int, j as int) == self.count(i as int, j as int));
        *self.n_patterns.get(i, j)
    }

    /// Hand out the removals made since the journal was last taken, oldest
    /// first, and start a new journal.
    pub fn take_journal(&mut self) -> (r: Vec<Ban>)
        requires
            old(self).wf(),
        ensures
            final(self).wf(),
            final(self)@ == old(self)@,
            r@ == old(self).journal(),
            final(self).journal() == Seq::<Ban>::empty(),
    {
        let mut journal: Vec<Ban> = Vec::new();
        std::mem::swap(&mut journal, &mut self.journal);
        proof {
            assert forall|y: int, x: int|
                0 <= y < self@.depth && 0 <= x < self@.height implies #[trigger] self.noted(y, x)
                == self.count(y, x) by {
                assert(old(self).noted(y, x) == old(self).count(y, x));
            }
        }
        journal
    }

    /// A cell that the search for the smallest entropy considers: one that
    /// can still take two patterns or more and whose entropy has a rank.
    pub open spec fn undecided(&self, ranks: crate::utils::vec2d::Grid<Rank>, y: int, x: int) -> bool {
        &&& 0 <= y < self@.depth
        &&& 0 <= x < self@.height
        &&& self.count(y, x) >= 2
        &&& ranks.at(y, x) is Some
    }

    /// Find a cell of the smallest entropy among those that can still take
    /// two patterns or more, given the rank of the entropy of every cell.
    ///
    /// A cell that can take no pattern makes the wave `Impossible`. Among
    /// cells of one rank the generator decides: a number is drawn for each
    /// cell whose rank is not above the lead, and the smaller draw wins.
    /// The search starts from the lead `Lead::start()`, so a cell of rank
    /// `u32::MAX` is chosen only with a draw below `i32::MAX`; with no cell
    /// chosen the wave is `Finished`.
    pub fn get_min_entropy(&self, ranks: &Vec2D<Rank>, rng_gen: &mut XorShiftRng) -> (r: Result<
        (usize, usize),
        WaveError,
    >)
        requires
            self.wf(),
            ranks.wf(),
            ranks@.height == self@.depth,
            ranks@.width == self@.height,
        ensures
            r == Err::<(usize, usize), WaveError>(WaveError::Impossible) <==> exists|y: int, x: int|
                0 <= y < self@.depth && 0 <= x < self@.height && #[trigger] self.count(y, x) == 0,
            r matches Ok((y, x)) ==> {
                &&& self.undecided(ranks@, y as int, x as int)
                &&& forall|a: int, b: int| #[trigger]
                    self.undecided(ranks@, a, b) ==> ranks@.at(y as int, x as int).unwrap()
                        <= ranks@.at(a, b).unwrap()
            },
            r == Err::<(usize, usize), WaveError>(WaveError::Finished) ==> forall|a: int, b: int| #[trigger]
                self.undecided(ranks@, a, b) ==> ranks@.at(a, b) == Some(u32::MAX),
            (forall|y: int, x: int|
                0 <= y < self@.depth && 0 <= x < self@.height ==> #[trigger] self.count(y, x) != 0)
                && (exists|a: int, b: int| #[trigger]
                self.undecided(ranks@, a, b) && ranks@.at(a, b) != Some(u32::MAX)) ==> r is Ok,
    {
        let height = self.height();
        let width = self.width();
        let mut lead = Lead::start();
        let mut i: usize = 0;
        while i < height
            invariant
                self.wf(),
                ranks.wf(),
                ranks@.height == self@.depth,
                ranks@.width == self@.height,
                height == self@.depth,
                width == self@.height,
                i <= height,
                forall|a: int, b: int| 0 <= a < i && 0 <= b < width ==> #[trigger] self.count(a, b) != 0,
                forall|a: int, b: int|
                    a < i && #[trigger] self.undecided(ranks@, a, b) ==> lead.rank <= ranks@.at(
                        a,
                        b,
                    ).unwrap(),
                lead.cell matches Some((y, x)) ==> self.undecided(ranks@, y as int, x as int)
                    && ranks@.at(y as int, x as int) == Some(lead.rank),
                lead.cell is None ==> lead.rank == u32::MAX,
            decreases height - i,
        {
            let mut j: usize = 0;
            while j < width
                invariant
                    self.wf(),
                    ranks.wf(),
                    ranks@.height == self@.depth,
                    ranks@.width == self@.height,
                    height == self@.depth,
                    width == self@.height,
                    i < height,
                    j <= width,
                    forall|a: int, b: int|
                        (0 <= a < i && 0 <= b < width) || (a == i && 0 <= b < j)
                            ==> #[trigger] self.count(a, b) != 0,
                    forall|a: int, b: int|
                        (a < i || (a == i && b < j)) && #[trigger] self.undecided(ranks@, a, b)
                            ==> lead.rank <= ranks@.at(a, b).unwrap(),
                    lead.cell matches Some((y, x)) ==> self.undecided(ranks@, y as int, x as int)
                        && ranks@.at(y as int, x as int) == Some(lead.rank),
                    lead.cell is None ==> lead.rank == u32::MAX,
                decreases width - j,
            {
                let n = self.n_patterns(i, j);
                if n == 0 {
                    return Err(WaveError::Impossible);
                }
                if n != 1 {
                    match *ranks.get(i, j) {
                        Some(rank) => {
                            if rank <= lead.rank {
                                let number = draw(rng_gen);
                                lead = lead.challenge(i, j, rank, number);
                            }
                        },
                        None => {},
                    }
                }
                j += 1;
            }
            i += 1;
        }
        match lead.cell {
            Some(cell) => Ok(cell),
            None => {
                proof {
                    assert forall|y: int, x: int|
                        0 <= y < self@.depth && 0 <= x < self@.height implies #[trigger] self.count(
                        y,
                        x,
                    ) != 0 by {}
                }
                Err(WaveError::Finished)
            },
        }
    }

    /// The patterns of cell (i, j): entry `p` tells whether pattern `p` can be
    /// placed in it.
    pub fn cell(&self, i: usize, j: usize) -> (r: &[bool])
        requires
            self.wf(),
            i < self@.depth,
            j < self@.height,
        ensures
            r@ == self@.row(i as int, j as int),
    {
        proof {
            self@.lemma_row(i as int, j as int);
            if self@.width > 0 {
                self@.lemma_flat(i as int, j as int, 0);
            }
            assert(1 + j + i * self@.height <= self@.depth * self@.height) by (nonlinear_arith)
                requires
                    i < self@.depth,
                    j < self@.height,
            ;
        }
        self.data.row(i, j)
    }

    /// Get the wave height
    pub fn height(&self) -> (r: usize)
        ensures
            r == self@.depth,
    {
        self.data.depth()
    }

    /// Get the wave width
    pub fn width(&self) -> (r: usize)
        ensures
            r == self@.height,
    {
        self.data.height()
    }

    /// Get the number of patterns of the wave
    pub fn patterns(&self) -> (r: usize)
        ensures
            r == self@.width,
    {
        self.data.width()
    }
}

impl vstd::std_specs::core::IndexSpecImpl<(usize, usize)> for Wave {
    open spec fn index_req(&self, at: &(usize, usize)) -> bool {
        &&& self.wf()
        &&& at.0 < self@.depth
        &&& at.1 < self@.height
    }
}

impl Index<(usize, usize)> for Wave {
    type Output = [bool];

    fn index(&self, at: (usize, usize)) -> (r: &[bool])
        ensures
            r@ == self@.row(at.0 as int, at.1 as int),
    {
        self.cell(at.0, at.1)
    }
}

} // verus!
