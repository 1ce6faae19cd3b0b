//! The solver: it owns the propagator and the random number generator, picks
//! the cell to decide next and collapses it to one pattern.

use crate::propagator::{table_distinct, table_symmetric, table_wf, Compatibility, Propagator};
use crate::utils::vec2d::Vec2D;
use crate::wave::{lemma_count_true_one, Ban, Rank, WaveError};
use rand::SeedableRng;
use rand_xorshift::XorShiftRng;
use vstd::prelude::*;

verus! {

/// Makes the generator that a seed stands for, as `XorShiftRng::from_seed` of
/// the crate `rand_xorshift` does. Nothing is stated of the generator.
#[verifier::external_body]
fn seeded(seed: [u8; 16]) -> (r: XorShiftRng) {
    XorShiftRng::from_seed(seed)
}

pub struct WFC {
    /// The random number generator
    rng_gen: XorShiftRng,
    /// The propagator, that is used to propagate the information
    propagator: Propagator,
}

impl WFC {
    /// The propagator that the solver owns.
    pub closed spec fn propagator_view(&self) -> Propagator {
        self.propagator
    }

    /// The random number generator that the solver owns.
    pub closed spec fn generator(&self) -> XorShiftRng {
        self.rng_gen
    }

    /// The solver is at rest.
    pub open spec fn wf(&self) -> bool {
        self.propagator_view().wf()
    }

    /// Whether pattern `p` can be placed in cell `(y, x)`.
    pub open spec fn allows(&self, y: int, x: int, p: int) -> bool {
        self.propagator_view().wave_view().allows(y, x, p)
    }

    /// Create the object containing all the information to perform the WFC
    /// algorithm.
    pub fn new(
        is_toric: bool,
        seed: [u8; 16],
        n_patterns: usize,
        patterns_compatibility: Compatibility,
        height: usize,
        width: usize,
    ) -> (r: Self)
        requires
            n_patterns > 0,
            height * width * n_patterns <= usize::MAX,
            table_wf(patterns_compatibility@, n_patterns as nat),
        ensures
            r.wf(),
            r.propagator_view().wave_view()@.depth == height,
            r.propagator_view().wave_view()@.height == width,
            r.propagator_view().wave_view()@.width == n_patterns,
            r.propagator_view().toric() == is_toric,
            r.propagator_view().table() == patterns_compatibility@,
            r.propagator_view().wave_view().journal() == Seq::<Ban>::empty(),
            forall|y: int, x: int, p: int|
                r.propagator_view().wave_view().in_bounds(y, x, p) ==> r.allows(y, x, p),
            table_distinct(patterns_compatibility@) && table_symmetric(patterns_compatibility@)
                ==> r.propagator_view().consistent(),
    {
        let propagator = Propagator::new(height, width, n_patterns, patterns_compatibility, is_toric);
        WFC { rng_gen: seeded(seed), propagator }
    }

    /// Restart WFC.
    pub fn restart(&mut self, seed: [u8; 16])
        requires
            old(self).wf(),
        ensures
            final(self).wf(),
            final(self).propagator_view().same_frame(&old(self).propagator_view()),
            final(self).propagator_view().wave_view().journal() == Seq::<Ban>::empty(),
            forall|y: int, x: int, p: int|
                final(self).propagator_view().wave_view().in_bounds(y, x, p) ==> final(self).allows(
                    y,
                    x,
                    p,
                ),
            table_distinct(old(self).propagator_view().table()) && table_symmetric(
                old(self).propagator_view().table(),
            ) ==> final(self).propagator_view().consistent(),
    {
        self.propagator.reset();
        self.rng_gen = seeded(seed);
    }

    /// Get the underlying propagator
    pub fn propagator(&mut self) -> (r: &mut Propagator)
        ensures
            *r == old(self).propagator_view(),
            final(self).propagator_view() == *final(r),
    {
        &mut self.propagator
    }

    /// Get the random number generator
    pub fn rng(&mut self) -> (r: &mut XorShiftRng)
        ensures
            *r == old(self).generator(),
            final(self).generator() == *final(r),
            final(self).propagator_view() == old(self).propagator_view(),
    {
        &mut self.rng_gen
    }

    /// The removals that a collapse of the cell `(y, x)` asks for: those of
    /// all patterns but the chosen one.
    pub open spec fn others(y: usize, x: usize, chosen_pattern: usize) -> Set<Ban> {
        Set::new(|ban: Ban| ban.0 == y && ban.1 == x && ban.2 != chosen_pattern)
    }

    /// The first half of a step of the WFC algorithm: find the cell of the
    /// smallest entropy that is not decided yet, given the rank of the entropy
    /// of every cell. The wave stays as it is.
    pub fn observe(&mut self, ranks: &Vec2D<Rank>) -> (r: Result<(usize, usize), WaveError>)
        requires
            old(self).wf(),
            ranks.wf(),
            ranks@.height == old(self).propagator_view().wave_view()@.depth,
            ranks@.width == old(self).propagator_view().wave_view()@.height,
        ensures
            final(self).propagator_view() == old(self).propagator_view(),
            r == Err::<(usize, usize), WaveError>(WaveError::Impossible) <==> exists|y: int, x: int|
                0 <= y < ranks@.height && 0 <= x < ranks@.width && #[trigger] old(self).propagator_view().wave_view().count(y, x) == 0,
            r matches Ok((y, x)) ==> {
                &&& old(self).propagator_view().wave_view().undecided(ranks@, y as int, x as int)
                &&& forall|a: int, b: int| #[trigger]
                    old(self).propagator_view().wave_view().undecided(ranks@, a, b) ==> ranks@.at(
                        y as int,
                        x as int,
                    ).unwrap() <= ranks@.at(a, b).unwrap()
            },
            r == Err::<(usize, usize), WaveError>(WaveError::Finished) ==> forall|a: int, b: int| #[trigger]
                old(self).propagator_view().wave_view().undecided(ranks@, a, b) ==> ranks@.at(a, b)
                    == Some(u32::MAX),
            (forall|y: int, x: int|
                0 <= y < ranks@.height && 0 <= x < ranks@.width ==> #[trigger] old(self).propagator_view().wave_view().count(y, x) != 0) && (exists|a: int, b: int| #[trigger]
                old(self).propagator_view().wave_view().undecided(ranks@, a, b) && ranks@.at(a, b)
                    != Some(u32::MAX)) ==> r is Ok,
    {
        self.propagator.wave().get_min_entropy(ranks, &mut self.rng_gen)
    }

    /// The second half of a step of the WFC algorithm: leave to the cell
    /// `(y, x)` the chosen pattern alone, and propagate the information.
    pub fn collapse(&mut self, y: usize, x: usize, chosen_pattern: usize)
        requires
            old(self).wf(),
            y < old(self).propagator_view().wave_view()@.depth,
            x < old(self).propagator_view().wave_view()@.height,
        ensures
            final(self).wf(),
            final(self).propagator_view().same_frame(&old(self).propagator_view()),
            final(self).propagator_view().wave_view().shrinks_from(
                &old(self).propagator_view().wave_view(),
            ),
            forall|k: int|
                0 <= k < old(self).propagator_view().wave_view()@.width && k != chosen_pattern
                    ==> !final(self).allows(y as int, x as int, k),
            old(self).propagator_view().consistent() ==> final(self).propagator_view().consistent()
                && final(self).propagator_view().justified(
                &old(self).propagator_view().wave_view(),
                Self::others(y, x, chosen_pattern),
            ),
    {
        let n_patterns = self.propagator.wave().patterns();
        let ghost requested = Self::others(y, x, chosen_pattern);
        let ghost start = self.propagator;
        proof {
            start.wave_view().lemma_shrinks_from_self();
        }
        let mut k: usize = 0;
        while k < n_patterns
            invariant
                k <= n_patterns,
                self.propagator.wf(),
                self.propagator.same_frame(&start),
                start == old(self).propagator,
                n_patterns == start.wave_view()@.width,
                y < start.wave_view()@.depth,
                x < start.wave_view()@.height,
                self.propagator.wave_view().shrinks_from(&start.wave_view()),
                forall|i: int|
                    0 <= i < k && i != chosen_pattern ==> !self.propagator.wave_view().allows(
                        y as int,
                        x as int,
                        i,
                    ),
                start.consistent() ==> self.propagator.consistent() && self.propagator.justified(
                    &start.wave_view(),
                    requested,
                ),
                requested == Self::others(y, x, chosen_pattern),
            decreases n_patterns - k,
        {
            if k != chosen_pattern {
                let ghost before = self.propagator;
                self.propagator.unset(y, x, k);
                proof {
                    if start.consistent() {
                        self.propagator.lemma_justified_twice(
                            &before,
                            &start.wave_view(),
                            requested,
                            set![(y, x, k)],
                            requested,
                        );
                    }
                    self.propagator.wave_view().lemma_shrinks_from_twice(
                        &before.wave_view(),
                        &start.wave_view(),
                    );
                    assert forall|i: int|
                        0 <= i < k + 1 && i != chosen_pattern implies !self.propagator.wave_view().allows(
                        y as int,
                        x as int,
                        i,
                    ) by {
                        if i < k {
                            assert(!before.wave_view().allows(y as int, x as int, i));
                            assert(self.propagator.wave_view().in_bounds(y as int, x as int, i));
                        }
                    }
                }
            }
            k += 1;
        }
    }

    /// If every cell in the wave is decided, return the values decided in
    /// each cell.
    pub fn to_output(&self) -> (r: Option<Vec2D<usize>>)
        requires
            self.wf(),
        ensures
            r is Some <==> (forall|y: int, x: int|
                0 <= y < self.propagator_view().wave_view()@.depth && 0 <= x
                    < self.propagator_view().wave_view()@.height
                    ==> #[trigger] self.propagator_view().wave_view().count(y, x) == 1),
            r matches Some(grid) ==> {
                &&& grid.wf()
                &&& grid@.height == self.propagator_view().wave_view()@.depth
                &&& grid@.width == self.propagator_view().wave_view()@.height
                &&& forall|y: int, x: int|
                    0 <= y < grid@.height && 0 <= x < grid@.width ==> {
                        &&& (#[trigger] grid@.at(y, x)) < self.propagator_view().wave_view()@.width
                        &&& self.allows(y, x, grid@.at(y, x) as int)
                    }
                &&& forall|y: int, x: int, p: int|
                    0 <= y < grid@.height && 0 <= x < grid@.width && 0 <= p
                        < self.propagator_view().wave_view()@.width && #[trigger] self.allows(y, x, p)
                        ==> p == grid@.at(y, x)
            },
    {
        let wave = self.propagator.wave();
        let height = wave.height();
        let width = wave.width();
        let n_patterns = wave.patterns();
        let mut data: Vec<usize> = Vec::new();
        let mut i: usize = 0;
        while i < height
            invariant
                wave.wf(),
                *wave == self.propagator_view().wave_view(),
                height == wave@.depth,
                width == wave@.height,
                n_patterns == wave@.width,
                i <= height,
                data.len() == i * width,
                forall|a: int, b: int| 0 <= a < i && 0 <= b < width ==> #[trigger] wave.count(a, b) == 1,
                forall|a: int, b: int|
                    0 <= a < i && 0 <= b < width ==> (#[trigger] data@[a * width + b]) < n_patterns
                        && wave.allows(a, b, data@[a * width + b] as int),
            decreases height - i,
        {
            let mut j: usize = 0;
            while j < width
                invariant
                    wave.wf(),
                    *wave == self.propagator_view().wave_view(),
                    height == wave@.depth,
                    width == wave@.height,
                    n_patterns == wave@.width,
                    i < height,
                    j <= width,
                    data.len() == i * width + j,
                    forall|a: int, b: int|
                        (0 <= a < i && 0 <= b < width) || (a == i && 0 <= b < j)
                            ==> #[trigger] wave.count(a, b) == 1,
                    forall|a: int, b: int|
                        (0 <= a < i && 0 <= b < width) || (a == i && 0 <= b < j) ==> (
                        #[trigger] data@[a * width + b]) < n_patterns && wave.allows(
                            a,
                            b,
                            data@[a * width + b] as int,
                        ),
                decreases width - j,
            {
                if wave.n_patterns(i, j) != 1 {
                    return None;
                }
                proof {
                    wave.lemma_count(i as int, j as int);
                }
                let mut p: usize = 0;
                while p < n_patterns && !wave.get(i, j, p)
                    invariant
                        wave.wf(),
                        height == wave@.depth,
                        width == wave@.height,
                        n_patterns == wave@.width,
                        i < height,
                        j < width,
                        p <= n_patterns,
                        forall|c: int| 0 <= c < p ==> !wave.allows(i as int, j as int, c),
                    decreases n_patterns - p,
                {
                    p += 1;
                }
                let ghost before = data@;
                data.push(p);
                proof {
                    assert forall|a: int, b: int|
                        (0 <= a < i && 0 <= b < width) || (a == i && 0 <= b < j + 1) implies (
                    #[trigger] data@[a * width + b]) < n_patterns && wave.allows(
                        a,
                        b,
                        data@[a * width + b] as int,
                    ) by {
                        if a == i && b == j {
                        } else {
                            crate::utils::vec2d::lemma_flat_index(a, b, i + 1, width as int);
                            assert(a * width + b < i * width + j) by (nonlinear_arith)
                                requires
                                    (0 <= a < i && 0 <= b < width) || (a == i && 0 <= b < j),
                            ;
                            assert(data@[a * width + b] == before[a * width + b]);
                        }
                    }
                }
                j += 1;
            }
            assert((i + 1) * width == i * width + width) by (nonlinear_arith);
            i += 1;
        }
        let grid = Vec2D::from_vec(data, height, width);
        proof {
            assert forall|y: int, x: int, p: int|
                0 <= y < grid@.height && 0 <= x < grid@.width && 0 <= p < wave@.width && #[trigger] self.allows(
                    y,
                    x,
                    p,
                ) implies p == grid@.at(y, x) by {
                let row = wave@.row(y, x);
                wave@.lemma_row(y, x);
                assert(wave.count(y, x) == 1);
                assert(grid@.at(y, x) == data@[y * width + x]);
                assert(wave.allows(y, x, grid@.at(y, x) as int));
                lemma_count_true_one(row, p, grid@.at(y, x) as int);
            }
        }
        Some(grid)
    }
}

} // verus!
