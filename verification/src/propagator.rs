//! Contain the Propagator stuct, that propagates information through the wave.

use crate::direction::{lemma_opposite, DirArray, Direction};
use crate::utils::vec3d::Vec3D;
use crate::wave::{Ban, Wave};
use vstd::prelude::*;

verus! {

/// For each pattern and each direction, the list of the patterns that can
/// be placed next to it in that direction.
pub type Compatibility = Vec<DirArray<Vec<usize>>>;

/// The list of the patterns that can be placed in direction `d` of pattern `p`.
pub open spec fn compatible_list(table: Seq<DirArray<Vec<usize>>>, p: int, d: Direction) -> Seq<
    usize,
> {
    table[p].at(d)@
}

/// The table has one entry for each of `n` patterns and names no other
/// pattern.
pub open spec fn table_wf(table: Seq<DirArray<Vec<usize>>>, n: nat) -> bool {
    &&& table.len() == n
    &&& forall|p: int, d: Direction, k: int|
        0 <= p < n && 0 <= k < compatible_list(table, p, d).len() ==> #[trigger] compatible_list(
            table,
            p,
            d,
        )[k] < n
}

/// The cell that lies one step in direction `d` of `(y, x)` in a grid of the
/// given shape: with wrapping on a toric grid, and none beyond the border of
/// another.
pub open spec fn neighbor(height: int, width: int, toric: bool, y: int, x: int, d: Direction)
    -> Option<(int, int)> {
    let ny = y + d.dy();
    let nx = x + d.dx();
    if toric {
        Some(((ny + height) % height, (nx + width) % width))
    } else if 0 <= ny < height && 0 <= nx < width {
        Some((ny, nx))
    } else {
        None
    }
}

/// The neighbour of a cell of the grid is a cell of the grid.
pub proof fn lemma_neighbor_in_grid(height: int, width: int, toric: bool, y: int, x: int, d: Direction)
    requires
        0 <= y < height,
        0 <= x < width,
    ensures
        neighbor(height, width, toric, y, x, d) matches Some((ny, nx)) ==> 0 <= ny < height && 0
            <= nx < width,
{
    if toric {
        vstd::arithmetic::div_mod::lemma_mod_bound(y + d.dy() + height, height);
        vstd::arithmetic::div_mod::lemma_mod_bound(x + d.dx() + width, width);
    }
}

/// The neighbour of a cell, case by case: one step along the axis of the
/// direction, around the edge on a toric grid.
pub proof fn lemma_neighbor_cases(height: int, width: int, toric: bool, y: int, x: int, d: Direction)
    requires
        0 <= y < height,
        0 <= x < width,
    ensures
        neighbor(height, width, toric, y, x, d) == (match d {
            Direction::Down => if y > 0 {
                Some((y - 1, x))
            } else if toric {
                Some((height - 1, x))
            } else {
                None
            },
            Direction::Up => if y + 1 < height {
                Some((y + 1, x))
            } else if toric {
                Some((0int, x))
            } else {
                None
            },
            Direction::Left => if x > 0 {
                Some((y, x - 1))
            } else if toric {
                Some((y, width - 1))
            } else {
                None
            },
            Direction::Right => if x + 1 < width {
                Some((y, x + 1))
            } else if toric {
                Some((y, 0int))
            } else {
                None
            },
        }),
{
    let h = height;
    let w = width;
    vstd::arithmetic::div_mod::lemma_fundamental_div_mod_converse(y + h, h, 1, y);
    vstd::arithmetic::div_mod::lemma_fundamental_div_mod_converse(x + w, w, 1, x);
    if y > 0 {
        vstd::arithmetic::div_mod::lemma_fundamental_div_mod_converse(y - 1 + h, h, 1, y - 1);
    } else {
        vstd::arithmetic::div_mod::lemma_fundamental_div_mod_converse(y - 1 + h, h, 0, h - 1);
    }
    if y + 1 < h {
        vstd::arithmetic::div_mod::lemma_fundamental_div_mod_converse(y + 1 + h, h, 1, y + 1);
    } else {
        vstd::arithmetic::div_mod::lemma_fundamental_div_mod_converse(y + 1 + h, h, 2, 0);
    }
    if x > 0 {
        vstd::arithmetic::div_mod::lemma_fundamental_div_mod_converse(x - 1 + w, w, 1, x - 1);
    } else {
        vstd::arithmetic::div_mod::lemma_fundamental_div_mod_converse(x - 1 + w, w, 0, w - 1);
    }
    if x + 1 < w {
        vstd::arithmetic::div_mod::lemma_fundamental_div_mod_converse(x + 1 + w, w, 1, x + 1);
    } else {
        vstd::arithmetic::div_mod::lemma_fundamental_div_mod_converse(x + 1 + w, w, 2, 0);
    }
}

/// A cell is the neighbour of another in a direction exactly when the other
/// is its neighbour in the opposite direction.
pub proof fn lemma_neighbor_back(
    height: int,
    width: int,
    toric: bool,
    y1: int,
    x1: int,
    y2: int,
    x2: int,
    d: Direction,
)
    requires
        0 <= y1 < height,
        0 <= x1 < width,
        0 <= y2 < height,
        0 <= x2 < width,
    ensures
        neighbor(height, width, toric, y1, x1, d) == Some((y2, x2)) <==> neighbor(
            height,
            width,
            toric,
            y2,
            x2,
            d.opposite(),
        ) == Some((y1, x1)),
{
    lemma_neighbor_cases(height, width, toric, y1, x1, d);
    lemma_neighbor_cases(height, width, toric, y2, x2, d.opposite());
}

/// The number of entries of `list` that `alive` marks: each entry is the
/// number of a pattern, and `alive` tells of each pattern whether it counts.
pub open spec fn support(list: Seq<usize>, alive: Seq<bool>) -> nat
    decreases list.len(),
{
    if list.len() == 0 {
        0
    } else {
        support(list.drop_last(), alive) + if alive[list.last() as int] {
            1nat
        } else {
            0nat
        }
    }
}

/// No entry of the list occurs twice.
pub open spec fn distinct(list: Seq<usize>) -> bool {
    forall|i: int, j: int| 0 <= i < j < list.len() ==> list[i] != list[j]
}

/// Two markings that agree on the entries of a list give the same number.
pub proof fn lemma_support_agree(list: Seq<usize>, a: Seq<bool>, b: Seq<bool>)
    requires
        forall|k: int| 0 <= k < list.len() ==> a[#[trigger] list[k] as int] == b[list[k] as int],
    ensures
        support(list, a) == support(list, b),
    decreases list.len(),
{
    if list.len() > 0 {
        let rest = list.drop_last();
        assert forall|k: int| 0 <= k < rest.len() implies a[#[trigger] rest[k] as int]
            == b[rest[k] as int] by {
            assert(rest[k] == list[k]);
        }
        lemma_support_agree(rest, a, b);
        assert(list.last() == list[list.len() - 1]);
    }
}

/// Unmarking one pattern that occurs in a list without repetitions makes the
/// number one smaller.
pub proof fn lemma_support_drop(list: Seq<usize>, a: Seq<bool>, b: Seq<bool>, at: int)
    requires
        distinct(list),
        0 <= at < list.len(),
        a[list[at] as int],
        !b[list[at] as int],
        forall|k: int|
            0 <= k < list.len() && k != at ==> a[#[trigger] list[k] as int] == b[list[k] as int],
    ensures
        support(list, a) == support(list, b) + 1,
    decreases list.len(),
{
    let rest = list.drop_last();
    assert(list.last() == list[list.len() - 1]);
    if at == list.len() - 1 {
        assert forall|k: int| 0 <= k < rest.len() implies a[#[trigger] rest[k] as int]
            == b[rest[k] as int] by {
            assert(rest[k] == list[k]);
        }
        lemma_support_agree(rest, a, b);
    } else {
        assert forall|k: int| 0 <= k < rest.len() && k != at implies a[#[trigger] rest[k] as int]
            == b[rest[k] as int] by {
            assert(rest[k] == list[k]);
        }
        assert(rest[at] == list[at]);
        assert(distinct(rest)) by {
            assert forall|i: int, j: int| 0 <= i < j < rest.len() implies rest[i] != rest[j] by {
                assert(rest[i] == list[i] && rest[j] == list[j]);
            }
        }
        lemma_support_drop(rest, a, b, at);
    }
}

/// The number is that of all entries where every entry is marked; where
/// the number is not zero, some entry is marked.
pub proof fn lemma_support_bounds(list: Seq<usize>, alive: Seq<bool>)
    ensures
        support(list, alive) <= list.len(),
        (forall|k: int| 0 <= k < list.len() ==> alive[#[trigger] list[k] as int]) ==> support(
            list,
            alive,
        ) == list.len(),
        support(list, alive) > 0 ==> exists|k: int|
            0 <= k < list.len() && alive[#[trigger] list[k] as int],
    decreases list.len(),
{
    if list.len() > 0 {
        let rest = list.drop_last();
        lemma_support_bounds(rest, alive);
        assert(list.last() == list[list.len() - 1]);
        if forall|k: int| 0 <= k < list.len() ==> alive[#[trigger] list[k] as int] {
            assert forall|k: int| 0 <= k < rest.len() implies alive[#[trigger] rest[k] as int] by {
                assert(rest[k] == list[k]);
            }
        }
        if support(list, alive) > 0 {
            if alive[list.last() as int] {
                assert(alive[list[list.len() - 1] as int]);
            } else {
                let k = choose|k: int| 0 <= k < rest.len() && alive[#[trigger] rest[k] as int];
                assert(rest[k] == list[k]);
            }
        }
    }
}

/// A list with a marked entry has a number that is not zero.
pub proof fn lemma_support_marked(list: Seq<usize>, alive: Seq<bool>, at: int)
    requires
        0 <= at < list.len(),
        alive[list[at] as int],
    ensures
        support(list, alive) >= 1,
    decreases list.len(),
{
    assert(list.last() == list[list.len() - 1]);
    if at < list.len() - 1 {
        let rest = list.drop_last();
        assert(rest[at] == list[at]);
        lemma_support_marked(rest, alive, at);
    }
}

/// No list of the table names a pattern twice.
pub open spec fn table_distinct(table: Seq<DirArray<Vec<usize>>>) -> bool {
    forall|p: int, d: Direction|
        0 <= p < table.len() ==> distinct(#[trigger] compatible_list(table, p, d))
}

/// Pattern `q` can be placed in direction `d` of pattern `p` exactly when `p`
/// can be placed in the opposite direction of `q`.
pub open spec fn table_symmetric(table: Seq<DirArray<Vec<usize>>>) -> bool {
    forall|p: usize, q: usize, d: Direction|
        p < table.len() && q < table.len() ==> (#[trigger] may_follow(table, p, d, q)
            <==> may_follow(table, q, d.opposite(), p))
}

/// Whether the table lets pattern `q` stand in direction `d` of pattern `p`.
pub open spec fn may_follow(table: Seq<DirArray<Vec<usize>>>, p: usize, d: Direction, q: usize)
    -> bool {
    compatible_list(table, p as int, d).contains(q)
}

/// Compute the neighbour of a cell.
fn neighbor_of(height: usize, width: usize, toric: bool, y: usize, x: usize, d: Direction) -> (r:
    Option<(usize, usize)>)
    requires
        y < height,
        x < width,
    ensures
        match neighbor(height as int, width as int, toric, y as int, x as int, d) {
            Some((ny, nx)) => r == Some((ny as usize, nx as usize)) && 0 <= ny < height && 0 <= nx
                < width,
            None => r is None,
        },
{
    proof {
        lemma_neighbor_cases(height as int, width as int, toric, y as int, x as int, d);
    }
    match d {
        Direction::Down => if y > 0 {
            Some((y - 1, x))
        } else if toric {
            Some((height - 1, x))
        } else {
            None
        },
        Direction::Up => if y + 1 < height {
            Some((y + 1, x))
        } else if toric {
            Some((0, x))
        } else {
            None
        },
        Direction::Left => if x > 0 {
            Some((y, x - 1))
        } else if toric {
            Some((y, width - 1))
        } else {
            None
        },
        Direction::Right => if x + 1 < width {
            Some((y, x + 1))
        } else if toric {
            Some((y, 0))
        } else {
            None
        },
    }
}

/// How far the propagation of one removal has come: the removal, the
/// number of directions that are done, and the number of entries of the list
/// of the next direction that are done.
struct Progress {
    ban: Ban,
    dir: int,
    k: int,
}

impl Progress {
    /// Whether the removal was already reported to pattern `q` of the
    /// neighbour in direction `d`.
    spec fn done(self, table: Seq<DirArray<Vec<usize>>>, q: int, d: Direction) -> bool {
        d.index() < self.dir || (d.index() == self.dir && exists|i: int|
            0 <= i < self.k && #[trigger] compatible_list(table, self.ban.2 as int, d)[i] == q)
    }
}

/// Propagator is a wrapper around Wave, that ensure that the constraints between
/// neighbors are respected.
pub struct Propagator {
    /// The wave we propagate information in.
    wave: Wave,
    /// Is the wave toric.
    is_toric: bool,
    /// patterns_compatibility[pattern1][dir] lists the patterns that can be
    /// placed in direction dir of pattern1.
    patterns_compatibility: Compatibility,
    /// compatible[y][x][pattern][dir] contains the number of patterns that can
    /// still be placed in the cell from which (y, x) lies in direction dir,
    /// and next to which pattern can stand in (y, x). If wave[y][x][pattern]
    /// is false, then compatible[y][x][pattern] has every element null.
    compatible: Vec3D<DirArray<usize>>,
    /// The set of tuples (y, x, pattern) that should be propagated.
    /// Such a tuple should be propagated if wave[y][x][pattern] is set to false.
    propagating_queue: Vec<Ban>,
}

impl Propagator {
    /// The wave that the propagator owns.
    pub closed spec fn wave_view(&self) -> Wave {
        self.wave
    }

    /// Whether the grid wraps around.
    pub closed spec fn toric(&self) -> bool {
        self.is_toric
    }

    /// The table of the patterns that can stand next to each other.
    pub closed spec fn table(&self) -> Seq<DirArray<Vec<usize>>> {
        self.patterns_compatibility@
    }

    /// The counter of cell `(y, x)`, pattern `p` and direction `d`.
    pub closed spec fn supports(&self, y: int, x: int, p: int, d: Direction) -> nat {
        self.compatible@.at(y, x, p).at(d) as nat
    }

    /// The removals that wait to be propagated.
    pub closed spec fn pending(&self) -> Seq<Ban> {
        self.propagating_queue@
    }

    pub closed spec fn counters_wf(&self) -> bool {
        &&& self.compatible.wf()
        &&& self.compatible@.depth == self.wave@.depth
        &&& self.compatible@.height == self.wave@.height
        &&& self.compatible@.width == self.wave@.width
    }

    /// What holds of the propagator also while removals wait to be
    /// propagated.
    pub open spec fn inv(&self) -> bool {
        &&& self.wave_view().wf()
        &&& self.counters_wf()
        &&& table_wf(self.table(), self.wave_view()@.width)
        &&& forall|k: int| 0 <= k < self.pending().len() ==> self.wave_view().holds(#[trigger] self.pending()[k])
    }

    /// The propagator is at rest: its parts fit together and no removal waits
    /// to be propagated.
    pub open spec fn wf(&self) -> bool {
        &&& self.inv()
        &&& self.pending().len() == 0
    }

    /// The number of rows, of columns and of patterns, and the table and the
    /// kind of grid, are those of `before`.
    pub open spec fn same_frame(&self, before: &Propagator) -> bool {
        &&& self.wave_view()@.depth == before.wave_view()@.depth
        &&& self.wave_view()@.height == before.wave_view()@.height
        &&& self.wave_view()@.width == before.wave_view()@.width
        &&& self.toric() == before.toric()
        &&& self.table() == before.table()
    }

    /// The cell from which `(y, x)` lies in direction `d`, if there is one.
    pub open spec fn source(&self, y: int, x: int, d: Direction) -> Option<(int, int)> {
        neighbor(
            self.wave_view()@.depth as int,
            self.wave_view()@.height as int,
            self.toric(),
            y,
            x,
            d.opposite(),
        )
    }

    /// What the counter of `(y, x)`, `p` and `d` has to be: the number of
    /// patterns that can still be placed in the cell from which `(y, x)` lies in
    /// direction `d` and in direction `d` of which `p` can stand. Where the grid
    /// has no such cell, it is the number that the counter started with.
    pub open spec fn expected_support(&self, y: int, x: int, p: int, d: Direction) -> nat {
        match self.source(y, x, d) {
            Some((sy, sx)) => support(
                compatible_list(self.table(), p, d.opposite()),
                self.wave_view()@.row(sy, sx),
            ),
            None => Self::initial_support(self.table(), p, d),
        }
    }

    /// The table is symmetric and without repetitions, every counter of a
    /// pattern that can still be placed holds what it has to, and none of them
    /// has come down to zero.
    pub open spec fn consistent(&self) -> bool {
        &&& table_distinct(self.table())
        &&& table_symmetric(self.table())
        &&& forall|y: int, x: int, p: int, d: Direction|
            self.wave_view().in_bounds(y, x, p) && self.wave_view().allows(y, x, p)
                ==> #[trigger] self.supports(y, x, p, d) == self.expected_support(y, x, p, d)
        &&& forall|y: int, x: int, p: int, d: Direction|
            self.wave_view().in_bounds(y, x, p) && self.wave_view().allows(y, x, p) ==> (
            #[trigger] self.supports(y, x, p, d) > 0 || Self::initial_support(self.table(), p, d)
                == 0)
    }

    /// Whether the removal of `v` from `(sy, sx)` waits to be propagated.
    spec fn waits(&self, sy: int, sx: int, v: int) -> bool {
        exists|k: int|
            0 <= k < self.pending().len() && {
                let ban = #[trigger] self.pending()[k];
                ban.0 == sy && ban.1 == sx && ban.2 == v
            }
    }

    /// Whether pattern `v` of cell `(sy, sx)` still counts for the counter of
    /// pattern `target` and direction `d` of the neighbour: it can be placed,
    /// or its removal was not yet reported to that counter.
    spec fn alive_at(
        &self,
        cur: Option<Progress>,
        sy: int,
        sx: int,
        target: int,
        d: Direction,
        v: int,
    ) -> bool {
        ||| self.wave.allows(sy, sx, v)
        ||| self.waits(sy, sx, v)
        ||| (cur matches Some(c) && c.ban.0 == sy && c.ban.1 == sx && c.ban.2 == v && !c.done(
            self.table(),
            target,
            d,
        ))
    }

    spec fn alive(
        &self,
        cur: Option<Progress>,
        sy: int,
        sx: int,
        target: int,
        d: Direction,
    ) -> Seq<bool> {
        Seq::new(self.wave@.width, |v: int| self.alive_at(cur, sy, sx, target, d, v))
    }

    spec fn expected(&self, cur: Option<Progress>, y: int, x: int, p: int, d: Direction)
        -> nat {
        match self.source(y, x, d) {
            Some((sy, sx)) => support(
                compatible_list(self.table(), p, d.opposite()),
                self.alive(cur, sy, sx, p, d),
            ),
            None => Self::initial_support(self.table(), p, d),
        }
    }

    /// What holds of the counters while the removal `cur` is being propagated
    /// and others wait.
    spec fn cinv(&self, cur: Option<Progress>) -> bool {
        &&& table_distinct(self.table())
        &&& table_symmetric(self.table())
        &&& forall|k: int| 0 <= k < self.pending().len() ==> !self.wave.permits(#[trigger] self.pending()[k])
        &&& forall|k: int, m: int|
            0 <= k < m < self.pending().len() ==> self.pending()[k] != self.pending()[m]
        &&& cur matches Some(c) ==> {
            &&& self.wave.holds(c.ban)
            &&& !self.wave.permits(c.ban)
            &&& !self.waits(c.ban.0 as int, c.ban.1 as int, c.ban.2 as int)
            &&& 0 <= c.dir <= 4
            &&& 0 <= c.k
        }
        &&& forall|y: int, x: int, p: int, d: Direction|
            self.wave.in_bounds(y, x, p) && self.wave.allows(y, x, p) ==> #[trigger] self.supports(
                y,
                x,
                p,
                d,
            ) == self.expected(cur, y, x, p, d)
        &&& forall|y: int, x: int, p: int, d: Direction|
            self.wave.in_bounds(y, x, p) && self.wave.allows(y, x, p) ==> (#[trigger] self.supports(
                y,
                x,
                p,
                d,
            ) > 0 || Self::initial_support(self.table(), p, d) == 0)
    }

    /// At rest the counters hold what they have to exactly when they do so
    /// with no removal in propagation.
    proof fn lemma_consistent_at_rest(&self)
        requires
            self.wf(),
        ensures
            self.consistent() <==> self.cinv(None),
    {
        assert forall|y: int, x: int, p: int, d: Direction|
            self.wave.in_bounds(y, x, p) implies self.expected(None, y, x, p, d)
            == self.expected_support(y, x, p, d) by {
            lemma_neighbor_in_grid(
                self.wave@.depth as int,
                self.wave@.height as int,
                self.is_toric,
                y,
                x,
                d.opposite(),
            );
            match self.source(y, x, d) {
                Some((sy, sx)) => {
                    let list = compatible_list(self.table(), p, d.opposite());
                    let a = self.alive(None, sy, sx, p, d);
                    let b = self.wave@.row(sy, sx);
                    self.wave@.lemma_row(sy, sx);
                    assert forall|k: int| 0 <= k < list.len() implies a[#[trigger] list[k] as int]
                        == b[list[k] as int] by {
                        assert(list[k] < self.wave@.width);
                        assert(!self.waits(sy, sx, list[k] as int));
                    }
                    lemma_support_agree(list, a, b);
                },
                None => {},
            }
        }
        if self.consistent() {
            assert forall|y: int, x: int, p: int, d: Direction|
                self.wave.in_bounds(y, x, p) && self.wave.allows(y, x, p) implies #[trigger] self.supports(
                y,
                x,
                p,
                d,
            ) == self.expected(None, y, x, p, d) by {
                assert(self.supports(y, x, p, d) == self.expected_support(y, x, p, d));
            }
        }
        if self.cinv(None) {
            assert forall|y: int, x: int, p: int, d: Direction|
                self.wave.in_bounds(y, x, p) && self.wave.allows(y, x, p) implies #[trigger] self.supports(
                y,
                x,
                p,
                d,
            ) == self.expected_support(y, x, p, d) by {
                assert(self.supports(y, x, p, d) == self.expected(None, y, x, p, d));
            }
        }
    }

    /// The counters of the two propagators agree, but perhaps for those of
    /// the pattern and cell that `ban` names.
    spec fn counters_kept(&self, before: &Propagator, ban: Ban) -> bool {
        forall|y: int, x: int, p: int, d: Direction|
            before.wave.in_bounds(y, x, p) && !(y == ban.0 && x == ban.1 && p == ban.2)
                ==> #[trigger] self.supports(y, x, p, d) == before.supports(y, x, p, d)
    }

    /// The counters of the two propagators agree.
    spec fn counters_same(&self, before: &Propagator) -> bool {
        forall|y: int, x: int, p: int, d: Direction|
            before.wave.in_bounds(y, x, p) ==> #[trigger] self.supports(y, x, p, d)
                == before.supports(y, x, p, d)
    }

    /// A counter has to hold the same in two states in which the same
    /// patterns of the cell behind it count for it.
    proof fn lemma_expected_kept(
        &self,
        before: &Propagator,
        ca: Option<Progress>,
        cb: Option<Progress>,
        y: int,
        x: int,
        p: int,
        d: Direction,
    )
        requires
            before.inv(),
            self.same_frame(before),
            before.wave.in_bounds(y, x, p),
            match before.source(y, x, d) {
                Some((sy, sx)) => forall|v: int|
                    0 <= v < before.wave@.width && compatible_list(
                        before.table(),
                        p,
                        d.opposite(),
                    ).contains(v as usize) ==> #[trigger] self.alive_at(ca, sy, sx, p, d, v)
                        == before.alive_at(cb, sy, sx, p, d, v),
                None => true,
            },
        ensures
            self.expected(ca, y, x, p, d) == before.expected(cb, y, x, p, d),
    {
        match before.source(y, x, d) {
            Some((sy, sx)) => {
                let list = compatible_list(before.table(), p, d.opposite());
                let a = self.alive(ca, sy, sx, p, d);
                let b = before.alive(cb, sy, sx, p, d);
                before.wave.lemma_shape_fits();
                assert forall|k: int| 0 <= k < list.len() implies a[#[trigger] list[k] as int]
                    == b[list[k] as int] by {
                    assert(list[k] < before.wave@.width);
                    assert(list.contains(list[k]));
                    assert((list[k] as int) as usize == list[k]);
                    assert(self.alive_at(ca, sy, sx, p, d, list[k] as int) == before.alive_at(
                        cb,
                        sy,
                        sx,
                        p,
                        d,
                        list[k] as int,
                    ));
                }
                lemma_support_agree(list, a, b);
            },
            None => {},
        }
    }

    /// After a removal is put in the queue behind the others, exactly it and
    /// those wait.
    proof fn lemma_waits_push(&self, before: &Propagator, ban: Ban)
        requires
            self.pending() == before.pending().push(ban),
        ensures
            forall|y: int, x: int, p: int| #[trigger]
                self.waits(y, x, p) <==> (before.waits(y, x, p) || (y == ban.0 && x == ban.1 && p
                    == ban.2)),
    {
        let n = before.pending().len() as int;
        assert forall|y: int, x: int, p: int| #[trigger]
            self.waits(y, x, p) <==> (before.waits(y, x, p) || (y == ban.0 && x == ban.1 && p
                == ban.2)) by {
            if before.waits(y, x, p) {
                let k = choose|k: int|
                    0 <= k < before.pending().len() && {
                        let b = #[trigger] before.pending()[k];
                        b.0 == y && b.1 == x && b.2 == p
                    };
                assert(self.pending()[k] == before.pending()[k]);
            }
            if y == ban.0 && x == ban.1 && p == ban.2 {
                assert(self.pending()[n] == ban);
            }
            if self.waits(y, x, p) {
                let k = choose|k: int|
                    0 <= k < self.pending().len() && {
                        let b = #[trigger] self.pending()[k];
                        b.0 == y && b.1 == x && b.2 == p
                    };
                if k < n {
                    assert(before.pending()[k] == self.pending()[k]);
                }
            }
        }
    }

    /// Removing a pattern that can be placed and putting the removal in the
    /// queue keeps the counters of all other patterns right.
    proof fn lemma_cinv_ban(&self, before: &Propagator, cur: Option<Progress>, ban: Ban)
        requires
            before.inv(),
            before.cinv(cur),
            before.wave.holds(ban),
            before.wave.permits(ban),
            self.same_frame(before),
            self.wave@ == before.wave@.with(ban.0 as int, ban.1 as int, ban.2 as int, false),
            self.pending() == before.pending().push(ban),
            self.counters_kept(before, ban),
        ensures
            self.cinv(cur),
    {
        before.wave@.lemma_with(ban.0 as int, ban.1 as int, ban.2 as int, false);
        self.lemma_waits_push(before, ban);
        let n = before.pending().len() as int;
        assert forall|y: int, x: int, p: int| before.wave.in_bounds(y, x, p) implies self.wave.allows(
            y,
            x,
            p,
        ) == (if y == ban.0 && x == ban.1 && p == ban.2 {
            false
        } else {
            before.wave.allows(y, x, p)
        }) by {
            assert(self.wave@.at(y, x, p) == before.wave@.with(
                ban.0 as int,
                ban.1 as int,
                ban.2 as int,
                false,
            ).at(y, x, p));
        }
        assert forall|k: int| 0 <= k < self.pending().len() implies !self.wave.permits(
            #[trigger] self.pending()[k],
        ) by {
            let other = self.pending()[k];
            if k < n {
                assert(before.pending()[k] == other);
                assert(before.wave.holds(other));
                assert(!before.wave.permits(other));
            }
        }
        assert forall|k: int, m: int| 0 <= k < m < self.pending().len() implies self.pending()[k]
            != self.pending()[m] by {
            if m < n {
                assert(before.pending()[k] != before.pending()[m]);
            } else {
                assert(!before.wave.permits(before.pending()[k]));
            }
        }
        assert forall|y: int, x: int, p: int, d: Direction|
            self.wave.in_bounds(y, x, p) && self.wave.allows(y, x, p) implies #[trigger] self.supports(
            y,
            x,
            p,
            d,
        ) == self.expected(cur, y, x, p, d) by {
            assert(before.wave.allows(y, x, p));
            assert(self.supports(y, x, p, d) == before.supports(y, x, p, d));
            lemma_neighbor_in_grid(
                before.wave@.depth as int,
                before.wave@.height as int,
                before.is_toric,
                y,
                x,
                d.opposite(),
            );
            match before.source(y, x, d) {
                Some((sy, sx)) => {
                    assert forall|v: int| 0 <= v < before.wave@.width implies #[trigger] self.alive_at(
                        cur,
                        sy,
                        sx,
                        p,
                        d,
                        v,
                    ) == before.alive_at(cur, sy, sx, p, d, v) by {
                        assert(before.wave.in_bounds(sy, sx, v));
                    }
                },
                None => {},
            }
            self.lemma_expected_kept(before, cur, cur, y, x, p, d);
        }
        assert forall|y: int, x: int, p: int, d: Direction|
            self.wave.in_bounds(y, x, p) && self.wave.allows(y, x, p) implies (#[trigger] self.supports(
            y,
            x,
            p,
            d,
        ) > 0 || Self::initial_support(self.table(), p, d) == 0) by {
            assert(before.wave.allows(y, x, p));
            assert(self.supports(y, x, p, d) == before.supports(y, x, p, d));
        }
    }

    /// Taking the last removal out of the queue to propagate it keeps the
    /// counters right.
    proof fn lemma_cinv_pop(&self, before: &Propagator)
        requires
            before.inv(),
            before.cinv(None),
            before.pending().len() > 0,
            self.same_frame(before),
            self.wave@ == before.wave@,
            self.pending() == before.pending().drop_last(),
            self.counters_same(before),
        ensures
            self.cinv(Some(Progress { ban: before.pending().last(), dir: 0, k: 0 })),
    {
        let ban = before.pending().last();
        let cur = Some(Progress { ban, dir: 0, k: 0 });
        let n = self.pending().len() as int;
        assert(before.pending()[n] == ban);
        assert(!before.wave.permits(ban));
        assert forall|y: int, x: int, p: int| #[trigger]
            before.waits(y, x, p) <==> (self.waits(y, x, p) || (y == ban.0 && x == ban.1 && p
                == ban.2)) by {
            if self.waits(y, x, p) {
                let k = choose|k: int|
                    0 <= k < self.pending().len() && {
                        let b = #[trigger] self.pending()[k];
                        b.0 == y && b.1 == x && b.2 == p
                    };
                assert(before.pending()[k] == self.pending()[k]);
            }
            if before.waits(y, x, p) {
                let k = choose|k: int|
                    0 <= k < before.pending().len() && {
                        let b = #[trigger] before.pending()[k];
                        b.0 == y && b.1 == x && b.2 == p
                    };
                if k < n {
                    assert(self.pending()[k] == before.pending()[k]);
                }
            }
        }
        if self.waits(ban.0 as int, ban.1 as int, ban.2 as int) {
            let k = choose|k: int|
                0 <= k < self.pending().len() && {
                    let b = #[trigger] self.pending()[k];
                    b.0 == ban.0 && b.1 == ban.1 && b.2 == ban.2
                };
            assert(before.pending()[k] == self.pending()[k]);
            assert(before.pending()[k] != before.pending()[n]);
        }
        assert forall|k: int| 0 <= k < self.pending().len() implies !self.wave.permits(
            #[trigger] self.pending()[k],
        ) by {
            assert(before.pending()[k] == self.pending()[k]);
            assert(!before.wave.permits(before.pending()[k]));
        }
        assert forall|k: int, m: int| 0 <= k < m < self.pending().len() implies self.pending()[k]
            != self.pending()[m] by {
            assert(before.pending()[k] != before.pending()[m]);
        }
        assert forall|y: int, x: int, p: int, d: Direction|
            self.wave.in_bounds(y, x, p) && self.wave.allows(y, x, p) implies #[trigger] self.supports(
            y,
            x,
            p,
            d,
        ) == self.expected(cur, y, x, p, d) by {
            assert(self.supports(y, x, p, d) == before.supports(y, x, p, d));
            self.lemma_expected_kept(before, cur, None, y, x, p, d);
        }
        assert forall|y: int, x: int, p: int, d: Direction|
            self.wave.in_bounds(y, x, p) && self.wave.allows(y, x, p) implies (#[trigger] self.supports(
            y,
            x,
            p,
            d,
        ) > 0 || Self::initial_support(self.table(), p, d) == 0) by {
            assert(self.supports(y, x, p, d) == before.supports(y, x, p, d));
        }
    }

    /// The list that the propagation of `c` is working on, or the empty list
    /// when no direction is left.
    spec fn current_list(&self, c: Progress) -> Seq<usize> {
        compatible_list(self.table(), c.ban.2 as int, Direction::from_index(c.dir))
    }

    /// Whether the propagation of `c` is about to report to pattern
    /// `current_list(c)[c.k]` of cell `(y2, x2)`.
    spec fn reporting(&self, c: Progress, y2: int, x2: int) -> bool {
        &&& 0 <= c.dir < 4
        &&& 0 <= c.k < self.current_list(c).len()
        &&& neighbor(
            self.wave@.depth as int,
            self.wave@.height as int,
            self.is_toric,
            c.ban.0 as int,
            c.ban.1 as int,
            Direction::from_index(c.dir),
        ) == Some((y2, x2))
    }

    /// What it takes to have reported to one more pattern.
    proof fn lemma_done_step(&self, c: Progress, q: int, d: Direction)
        requires
            0 <= c.k < self.current_list(c).len(),
            0 <= c.dir < 4,
        ensures
            (Progress { k: c.k + 1, ..c }).done(self.table(), q, d) <==> (c.done(self.table(), q, d)
                || (d == Direction::from_index(c.dir) && self.current_list(c)[c.k] == q)),
    {
        let next = Progress { k: c.k + 1, ..c };
        let list = compatible_list(self.table(), c.ban.2 as int, d);
        let d0 = Direction::from_index(c.dir);
        lemma_opposite(d);
        lemma_opposite(d0);
        assert(d0.index() == c.dir);
        assert(d == d0 <==> d.index() == c.dir);
        if d.index() < c.dir {
            assert(c.done(self.table(), q, d));
            assert(next.done(self.table(), q, d));
        } else if d.index() == c.dir {
            assert(list == self.current_list(c));
            if next.done(self.table(), q, d) {
                let i = choose|i: int| 0 <= i < next.k && #[trigger] list[i] == q;
                if i < c.k {
                    assert(c.done(self.table(), q, d));
                } else {
                    assert(i == c.k);
                }
            }
            if c.done(self.table(), q, d) {
                let i = choose|i: int| 0 <= i < c.k && #[trigger] list[i] == q;
                assert(0 <= i < next.k && compatible_list(self.table(), next.ban.2 as int, d)[i]
                    == q);
                assert(next.done(self.table(), q, d));
            }
            if list[c.k] == q {
                assert(0 <= c.k < next.k && compatible_list(self.table(), next.ban.2 as int, d)[c.k]
                    == q);
                assert(next.done(self.table(), q, d));
            }
        } else {
            assert(!c.done(self.table(), q, d));
            assert(!next.done(self.table(), q, d));
        }
    }

    /// While a removal is being reported to a pattern that can still be
    /// placed, the counter of that pattern still counts the removed one: it is
    /// not zero.
    proof fn lemma_counter_positive(&self, c: Progress, y2: int, x2: int)
        requires
            self.inv(),
            self.cinv(Some(c)),
            self.reporting(c, y2, x2),
            self.wave.allows(y2, x2, self.current_list(c)[c.k] as int),
        ensures
            self.supports(y2, x2, self.current_list(c)[c.k] as int, Direction::from_index(c.dir))
                >= 1,
            self.wave.in_bounds(y2, x2, self.current_list(c)[c.k] as int),
    {
        let d = Direction::from_index(c.dir);
        let q = self.current_list(c)[c.k];
        let next = Progress { k: c.k + 1, ..c };
        self.lemma_report(c, y2, x2);
        let list = compatible_list(self.table(), q as int, d.opposite());
        let at = choose|at: int| 0 <= at < list.len() && list[at] == c.ban.2;
        let a = self.alive(Some(c), c.ban.0 as int, c.ban.1 as int, q as int, d);
        let b = self.alive(Some(next), c.ban.0 as int, c.ban.1 as int, q as int, d);
        lemma_support_drop(list, a, b, at);
        assert(self.supports(y2, x2, q as int, d) == self.expected(Some(c), y2, x2, q as int, d));
    }

    /// The facts about one report: where the removal `c` is reported to
    /// pattern `q` of the cell `(y2, x2)`, the counter of `q` counts the
    /// removed pattern before the report and no longer after it, and counts
    /// the same other patterns.
    proof fn lemma_report(&self, c: Progress, y2: int, x2: int)
        requires
            self.inv(),
            self.cinv(Some(c)),
            self.reporting(c, y2, x2),
        ensures
            ({
                let d = Direction::from_index(c.dir);
                let q = self.current_list(c)[c.k];
                let next = Progress { k: c.k + 1, ..c };
                let list = compatible_list(self.table(), q as int, d.opposite());
                let a = self.alive(Some(c), c.ban.0 as int, c.ban.1 as int, q as int, d);
                let b = self.alive(Some(next), c.ban.0 as int, c.ban.1 as int, q as int, d);
                &&& q < self.wave@.width
                &&& 0 <= y2 < self.wave@.depth
                &&& 0 <= x2 < self.wave@.height
                &&& self.source(y2, x2, d) == Some((c.ban.0 as int, c.ban.1 as int))
                &&& distinct(list)
                &&& exists|at: int| 0 <= at < list.len() && list[at] == c.ban.2
                &&& forall|k: int|
                    0 <= k < list.len() ==> (if list[k] == c.ban.2 {
                        a[#[trigger] list[k] as int] && !b[list[k] as int]
                    } else {
                        a[list[k] as int] == b[list[k] as int]
                    })
            }),
    {
        let d = Direction::from_index(c.dir);
        let p = c.ban.2;
        let q = self.current_list(c)[c.k];
        let next = Progress { k: c.k + 1, ..c };
        let height = self.wave@.depth as int;
        let width = self.wave@.height as int;
        lemma_opposite(d);
        self.wave.lemma_shape_fits();
        lemma_neighbor_in_grid(height, width, self.is_toric, c.ban.0 as int, c.ban.1 as int, d);
        lemma_neighbor_back(height, width, self.is_toric, c.ban.0 as int, c.ban.1 as int, y2, x2, d);
        assert(q < self.wave@.width);
        let forward = compatible_list(self.table(), p as int, d);
        assert(forward[c.k] == q);
        assert(may_follow(self.table(), p, d, q));
        assert(may_follow(self.table(), q, d.opposite(), p));
        let list = compatible_list(self.table(), q as int, d.opposite());
        let at = choose|at: int| 0 <= at < list.len() && list[at] == p;
        assert(distinct(list));
        assert(distinct(forward));
        let a = self.alive(Some(c), c.ban.0 as int, c.ban.1 as int, q as int, d);
        let b = self.alive(Some(next), c.ban.0 as int, c.ban.1 as int, q as int, d);
        self.lemma_done_step(c, q as int, d);
        assert(!c.done(self.table(), q as int, d)) by {
            if c.done(self.table(), q as int, d) {
                let i = choose|i: int| 0 <= i < c.k && #[trigger] forward[i] == q;
                assert(forward[i] != forward[c.k]);
            }
        }
        assert(next.done(self.table(), q as int, d));
        assert forall|k: int| 0 <= k < list.len() implies (if list[k] == c.ban.2 {
            a[#[trigger] list[k] as int] && !b[list[k] as int]
        } else {
            a[list[k] as int] == b[list[k] as int]
        }) by {
            assert(list[k] < self.wave@.width);
        }
    }

    /// Counting a report off the counter it was made to keeps the counters
    /// right.
    proof fn lemma_cinv_decrement(&self, before: &Propagator, c: Progress, y2: int, x2: int)
        requires
            before.inv(),
            before.cinv(Some(c)),
            before.reporting(c, y2, x2),
            before.wave.allows(y2, x2, before.current_list(c)[c.k] as int),
            self.same_frame(before),
            self.wave@ == before.wave@,
            self.pending() == before.pending(),
            forall|y: int, x: int, p: int, d: Direction|
                before.wave.in_bounds(y, x, p) && !(y == y2 && x == x2 && p
                    == before.current_list(c)[c.k] && d == Direction::from_index(c.dir))
                    ==> #[trigger] self.supports(y, x, p, d) == before.supports(y, x, p, d),
            self.supports(
                y2,
                x2,
                before.current_list(c)[c.k] as int,
                Direction::from_index(c.dir),
            ) + 1 == before.supports(
                y2,
                x2,
                before.current_list(c)[c.k] as int,
                Direction::from_index(c.dir),
            ),
            self.supports(
                y2,
                x2,
                before.current_list(c)[c.k] as int,
                Direction::from_index(c.dir),
            ) > 0,
        ensures
            self.cinv(Some(Progress { k: c.k + 1, ..c })),
    {
        let d0 = Direction::from_index(c.dir);
        let q = before.current_list(c)[c.k];
        let next = Progress { k: c.k + 1, ..c };
        before.lemma_report(c, y2, x2);
        assert forall|y: int, x: int, p: int| #[trigger]
            self.waits(y, x, p) == before.waits(y, x, p) by {}
        assert forall|y: int, x: int, p: int, d: Direction|
            self.wave.in_bounds(y, x, p) && self.wave.allows(y, x, p) implies #[trigger] self.supports(
            y,
            x,
            p,
            d,
        ) == self.expected(Some(next), y, x, p, d) by {
            if y == y2 && x == x2 && p == q && d == d0 {
                let list = compatible_list(before.table(), q as int, d.opposite());
                let at = choose|at: int| 0 <= at < list.len() && list[at] == c.ban.2;
                let a = before.alive(Some(c), c.ban.0 as int, c.ban.1 as int, q as int, d);
                let b = before.alive(Some(next), c.ban.0 as int, c.ban.1 as int, q as int, d);
                lemma_support_drop(list, a, b, at);
                assert(before.supports(y, x, p, d) == before.expected(Some(c), y, x, p, d));
                let b2 = self.alive(Some(next), c.ban.0 as int, c.ban.1 as int, q as int, d);
                assert(b2 =~= b);
            } else {
                before.lemma_other_counter(c, y2, x2, y, x, p, d);
                assert(self.supports(y, x, p, d) == before.supports(y, x, p, d));
                assert(before.supports(y, x, p, d) == before.expected(Some(c), y, x, p, d));
                match before.source(y, x, d) {
                    Some((sy, sx)) => {
                        assert forall|v: int| 0 <= v < before.wave@.width implies #[trigger] self.alive_at(
                            Some(next),
                            sy,
                            sx,
                            p,
                            d,
                            v,
                        ) == before.alive_at(Some(c), sy, sx, p, d, v) by {
                            assert(before.alive_at(Some(next), sy, sx, p, d, v) == before.alive_at(
                                Some(c),
                                sy,
                                sx,
                                p,
                                d,
                                v,
                            ));
                        }
                    },
                    None => {},
                }
                self.lemma_expected_kept(before, Some(next), Some(c), y, x, p, d);
            }
        }
        assert forall|y: int, x: int, p: int, d: Direction|
            self.wave.in_bounds(y, x, p) && self.wave.allows(y, x, p) implies (#[trigger] self.supports(
            y,
            x,
            p,
            d,
        ) > 0 || Self::initial_support(self.table(), p, d) == 0) by {
            if y == y2 && x == x2 && p == q && d == d0 {
            } else {
                assert(self.supports(y, x, p, d) == before.supports(y, x, p, d));
            }
        }
    }

    /// A report to one counter leaves alone what counts for every other
    /// counter.
    proof fn lemma_other_counter(
        &self,
        c: Progress,
        y2: int,
        x2: int,
        y: int,
        x: int,
        p: int,
        d: Direction,
    )
        requires
            self.inv(),
            self.cinv(Some(c)),
            self.reporting(c, y2, x2),
            self.wave.in_bounds(y, x, p),
            !(y == y2 && x == x2 && p == self.current_list(c)[c.k] && d == Direction::from_index(
                c.dir,
            )),
        ensures
            match self.source(y, x, d) {
                Some((sy, sx)) => forall|v: int|
                    0 <= v < self.wave@.width ==> #[trigger] self.alive_at(
                        Some(Progress { k: c.k + 1, ..c }),
                        sy,
                        sx,
                        p,
                        d,
                        v,
                    ) == self.alive_at(Some(c), sy, sx, p, d, v),
                None => true,
            },
    {
        let d0 = Direction::from_index(c.dir);
        let next = Progress { k: c.k + 1, ..c };
        let height = self.wave@.depth as int;
        let width = self.wave@.height as int;
        lemma_opposite(d);
        lemma_neighbor_in_grid(height, width, self.is_toric, y, x, d.opposite());
        self.lemma_done_step(c, p, d);
        match self.source(y, x, d) {
            Some((sy, sx)) => {
                if sy == c.ban.0 && sx == c.ban.1 && d == d0 {
                    lemma_neighbor_back(
                        height,
                        width,
                        self.is_toric,
                        c.ban.0 as int,
                        c.ban.1 as int,
                        y,
                        x,
                        d,
                    );
                    assert(y == y2 && x == x2);
                }
            },
            None => {},
        }
    }

    /// Passing by a pattern that cannot be placed any more keeps the counters
    /// right.
    proof fn lemma_cinv_skip(&self, c: Progress, y2: int, x2: int)
        requires
            self.inv(),
            self.cinv(Some(c)),
            self.reporting(c, y2, x2),
            !self.wave.allows(y2, x2, self.current_list(c)[c.k] as int),
        ensures
            self.cinv(Some(Progress { k: c.k + 1, ..c })),
    {
        let next = Progress { k: c.k + 1, ..c };
        assert forall|y: int, x: int, p: int, d: Direction|
            self.wave.in_bounds(y, x, p) && self.wave.allows(y, x, p) implies #[trigger] self.supports(
            y,
            x,
            p,
            d,
        ) == self.expected(Some(next), y, x, p, d) by {
            self.lemma_other_counter(c, y2, x2, y, x, p, d);
            assert(self.supports(y, x, p, d) == self.expected(Some(c), y, x, p, d));
            self.lemma_expected_kept(self, Some(next), Some(c), y, x, p, d);
        }
    }

    /// Going on to the next direction keeps the counters right, once the
    /// removal was reported to the whole list of this direction or the cell
    /// has no neighbour in it.
    proof fn lemma_cinv_turn(&self, c: Progress)
        requires
            self.inv(),
            self.cinv(Some(c)),
            0 <= c.dir < 4,
            c.k >= self.current_list(c).len() || neighbor(
                self.wave@.depth as int,
                self.wave@.height as int,
                self.is_toric,
                c.ban.0 as int,
                c.ban.1 as int,
                Direction::from_index(c.dir),
            ) is None,
        ensures
            self.cinv(Some(Progress { dir: c.dir + 1, k: 0, ..c })),
    {
        let d0 = Direction::from_index(c.dir);
        let next = Progress { dir: c.dir + 1, k: 0, ..c };
        let height = self.wave@.depth as int;
        let width = self.wave@.height as int;
        let forward = compatible_list(self.table(), c.ban.2 as int, d0);
        self.wave.lemma_shape_fits();
        assert forall|y: int, x: int, p: int, d: Direction|
            self.wave.in_bounds(y, x, p) && self.wave.allows(y, x, p) implies #[trigger] self.supports(
            y,
            x,
            p,
            d,
        ) == self.expected(Some(next), y, x, p, d) by {
            lemma_opposite(d);
            lemma_neighbor_in_grid(height, width, self.is_toric, y, x, d.opposite());
            assert(self.supports(y, x, p, d) == self.expected(Some(c), y, x, p, d));
            match self.source(y, x, d) {
                Some((sy, sx)) => {
                    let list = compatible_list(self.table(), p, d.opposite());
                    assert forall|v: int|
                        0 <= v < self.wave@.width && list.contains(
                            v as usize,
                        ) implies #[trigger] self.alive_at(Some(next), sy, sx, p, d, v)
                        == self.alive_at(Some(c), sy, sx, p, d, v) by {
                        if sy == c.ban.0 && sx == c.ban.1 && v == c.ban.2 && d == d0 {
                            lemma_neighbor_back(
                                height,
                                width,
                                self.is_toric,
                                c.ban.0 as int,
                                c.ban.1 as int,
                                y,
                                x,
                                d,
                            );
                            assert(may_follow(self.table(), p as usize, d.opposite(), c.ban.2));
                            assert(may_follow(self.table(), c.ban.2, d, p as usize));
                            let i = choose|i: int| 0 <= i < forward.len() && forward[i] == p as usize;
                            assert(0 <= i < c.k && forward[i] == p);
                            assert(c.done(self.table(), p, d));
                        }
                    }
                },
                None => {},
            }
            self.lemma_expected_kept(self, Some(next), Some(c), y, x, p, d);
        }
    }

    /// Once a removal was reported in all four directions, the counters are
    /// right without it.
    proof fn lemma_cinv_finish(&self, c: Progress)
        requires
            self.inv(),
            self.cinv(Some(c)),
            c.dir == 4,
        ensures
            self.cinv(None),
    {
        assert forall|y: int, x: int, p: int, d: Direction|
            self.wave.in_bounds(y, x, p) && self.wave.allows(y, x, p) implies #[trigger] self.supports(
            y,
            x,
            p,
            d,
        ) == self.expected(None, y, x, p, d) by {
            lemma_opposite(d);
            assert(self.supports(y, x, p, d) == self.expected(Some(c), y, x, p, d));
            self.lemma_expected_kept(self, None, Some(c), y, x, p, d);
        }
    }

    /// With every pattern in every cell and every counter at its start, the
    /// counters hold what they have to.
    proof fn lemma_fresh_consistent(&self)
        requires
            self.wf(),
            table_distinct(self.table()),
            table_symmetric(self.table()),
            forall|y: int, x: int, p: int| self.wave.in_bounds(y, x, p) ==> self.wave.allows(y, x, p),
            forall|y: int, x: int, p: int, d: Direction|
                self.wave.in_bounds(y, x, p) ==> #[trigger] self.supports(y, x, p, d)
                    == Self::initial_support(self.table(), p, d),
        ensures
            self.consistent(),
    {
        assert forall|y: int, x: int, p: int, d: Direction|
            self.wave.in_bounds(y, x, p) && self.wave.allows(y, x, p) implies #[trigger] self.supports(
            y,
            x,
            p,
            d,
        ) == self.expected_support(y, x, p, d) by {
            lemma_neighbor_in_grid(
                self.wave@.depth as int,
                self.wave@.height as int,
                self.is_toric,
                y,
                x,
                d.opposite(),
            );
            match self.source(y, x, d) {
                Some((sy, sx)) => {
                    let list = compatible_list(self.table(), p, d.opposite());
                    let row = self.wave@.row(sy, sx);
                    self.wave@.lemma_row(sy, sx);
                    assert forall|k: int| 0 <= k < list.len() implies row[#[trigger] list[k] as int] by {
                        assert(list[k] < self.wave@.width);
                        assert(self.wave.allows(sy, sx, list[k] as int));
                    }
                    lemma_support_bounds(list, row);
                },
                None => {},
            }
        }
    }

    /// The counter that a pattern starts with in a direction: the number of
    /// patterns next to which it can stand from the other side.
    pub open spec fn initial_support(table: Seq<DirArray<Vec<usize>>>, p: int, d: Direction) -> nat {
        compatible_list(table, p, d.opposite()).len()
    }

    /// The counters of one pattern at the start.
    fn initial_counters(table: &Compatibility, pattern: usize) -> (r: DirArray<usize>)
        requires
            pattern < table.len(),
        ensures
            forall|d: Direction| #[trigger] r.at(d) == Self::initial_support(table@, pattern as int, d),
    {
        let entry = &table[pattern];
        let r = DirArray::from_values(
            entry.get(Direction::Up).len(),
            entry.get(Direction::Right).len(),
            entry.get(Direction::Left).len(),
            entry.get(Direction::Down).len(),
        );
        proof {
            assert forall|d: Direction| #[trigger] r.at(d) == Self::initial_support(
                table@,
                pattern as int,
                d,
            ) by {
                lemma_opposite(d);
                match d {
                    Direction::Down => {},
                    Direction::Left => {},
                    Direction::Right => {},
                    Direction::Up => {},
                }
            }
        }
        r
    }

    /// Set the counters of every cell to what they are at the start.
    fn fill_counters(&mut self)
        requires
            old(self).wave.wf(),
            old(self).counters_wf(),
            old(self).patterns_compatibility.len() == old(self).wave@.width,
        ensures
            final(self).wave == old(self).wave,
            final(self).is_toric == old(self).is_toric,
            final(self).patterns_compatibility == old(self).patterns_compatibility,
            final(self).propagating_queue == old(self).propagating_queue,
            final(self).counters_wf(),
            forall|y: int, x: int, p: int, d: Direction|
                final(self).wave.in_bounds(y, x, p) ==> #[trigger] final(self).supports(y, x, p, d)
                    == Self::initial_support(final(self).table(), p, d),
    {
        let height = self.wave.height();
        let width = self.wave.width();
        let n_patterns = self.wave.patterns();
        let ghost shape = self.compatible@;
        let ghost table = self.patterns_compatibility@;
        let mut y: usize = 0;
        while y < height
            invariant
                y <= height,
                self.wave == old(self).wave,
                self.is_toric == old(self).is_toric,
                self.patterns_compatibility == old(self).patterns_compatibility,
                self.propagating_queue == old(self).propagating_queue,
                self.counters_wf(),
                self.patterns_compatibility.len() == n_patterns,
                table == self.patterns_compatibility@,
                height == self.wave@.depth,
                width == self.wave@.height,
                n_patterns == self.wave@.width,
                forall|a: int, b: int, c: int, d: Direction|
                    0 <= a < y && 0 <= b < width && 0 <= c < n_patterns ==> #[trigger] self.supports(
                        a,
                        b,
                        c,
                        d,
                    ) == Self::initial_support(table, c, d),
            decreases height - y,
        {
            let mut x: usize = 0;
            while x < width
                invariant
                    y < height,
                    x <= width,
                    self.wave == old(self).wave,
                    self.is_toric == old(self).is_toric,
                    self.patterns_compatibility == old(self).patterns_compatibility,
                    self.propagating_queue == old(self).propagating_queue,
                    self.counters_wf(),
                    self.patterns_compatibility.len() == n_patterns,
                    table == self.patterns_compatibility@,
                    height == self.wave@.depth,
                    width == self.wave@.height,
                    n_patterns == self.wave@.width,
                    forall|a: int, b: int, c: int, d: Direction|
                        ((0 <= a < y && 0 <= b < width) || (a == y && 0 <= b < x)) && 0 <= c
                            < n_patterns ==> #[trigger] self.supports(a, b, c, d)
                            == Self::initial_support(table, c, d),
                decreases width - x,
            {
                let mut p: usize = 0;
                while p < n_patterns
                    invariant
                        y < height,
                        x < width,
                        p <= n_patterns,
                        self.wave == old(self).wave,
                        self.is_toric == old(self).is_toric,
                        self.patterns_compatibility == old(self).patterns_compatibility,
                        self.propagating_queue == old(self).propagating_queue,
                        self.counters_wf(),
                        self.patterns_compatibility.len() == n_patterns,
                        table == self.patterns_compatibility@,
                        height == self.wave@.depth,
                        width == self.wave@.height,
                        n_patterns == self.wave@.width,
                        forall|a: int, b: int, c: int, d: Direction|
                            (((0 <= a < y && 0 <= b < width) || (a == y && 0 <= b < x)) && 0 <= c
                                < n_patterns) || (a == y && b == x && 0 <= c < p)
                                ==> #[trigger] self.supports(a, b, c, d) == Self::initial_support(
                                table,
                                c,
                                d,
                            ),
                    decreases n_patterns - p,
                {
                    let counters = Self::initial_counters(&self.patterns_compatibility, p);
                    let ghost before = *self;
                    proof {
                        self.compatible@.lemma_flat(y as int, x as int, p as int);
                        self.compatible@.lemma_with(y as int, x as int, p as int, counters);
                    }
                    *self.compatible.get_mut(y, x, p) = counters;
                    proof {
                        assert(self.compatible@ == before.compatible@.with(
                            y as int,
                            x as int,
                            p as int,
                            counters,
                        ));
                        assert forall|a: int, b: int, c: int, d: Direction|
                            (((0 <= a < y && 0 <= b < width) || (a == y && 0 <= b < x)) && 0 <= c
                                < n_patterns) || (a == y && b == x && 0 <= c < p + 1) implies #[trigger] self.supports(
                            a,
                            b,
                            c,
                            d,
                        ) == Self::initial_support(table, c, d) by {
                            assert(before.compatible@.in_bounds(a, b, c));
                            assert(self.compatible@.at(a, b, c) == before.compatible@.with(
                                y as int,
                                x as int,
                                p as int,
                                counters,
                            ).at(a, b, c));
                            if a == y && b == x && c == p {
                            } else {
                                assert(before.supports(a, b, c, d) == Self::initial_support(
                                    table,
                                    c,
                                    d,
                                ));
                            }
                        }
                    }
                    p += 1;
                }
                x += 1;
            }
            y += 1;
        }
    }

    /// Create a new Propagator, given the number of the patterns,
    /// and the possible combinations of pair of patterns.
    pub fn new(
        height: usize,
        width: usize,
        n_patterns: usize,
        patterns_compatibility: Compatibility,
        is_toric: bool,
    ) -> (r: Propagator)
        requires
            n_patterns > 0,
            height * width * n_patterns <= usize::MAX,
            table_wf(patterns_compatibility@, n_patterns as nat),
        ensures
            r.wf(),
            r.wave_view()@.depth == height,
            r.wave_view()@.height == width,
            r.wave_view()@.width == n_patterns,
            r.toric() == is_toric,
            r.table() == patterns_compatibility@,
            r.wave_view().journal() == Seq::<Ban>::empty(),
            forall|y: int, x: int, p: int|
                r.wave_view().in_bounds(y, x, p) ==> r.wave_view().allows(y, x, p),
            forall|y: int, x: int, p: int, d: Direction|
                r.wave_view().in_bounds(y, x, p) ==> #[trigger] r.supports(y, x, p, d)
                    == Self::initial_support(r.table(), p, d),
            table_distinct(patterns_compatibility@) && table_symmetric(patterns_compatibility@)
                ==> r.consistent(),
    {
        let wave = Wave::new(height, width, n_patterns);
        let compatible = Vec3D::new(height, width, n_patterns, &DirArray::new(&0usize));
        let mut r = Propagator {
            wave,
            is_toric,
            patterns_compatibility,
            compatible,
            propagating_queue: Vec::new(),
        };
        r.fill_counters();
        proof {
            if table_distinct(r.table()) && table_symmetric(r.table()) {
                r.lemma_fresh_consistent();
            }
        }
        r
    }

    /// Reset the propagator by setting every element in the wave to true.
    pub fn reset(&mut self)
        requires
            old(self).wf(),
        ensures
            final(self).wf(),
            final(self).wave_view()@.depth == old(self).wave_view()@.depth,
            final(self).wave_view()@.height == old(self).wave_view()@.height,
            final(self).wave_view()@.width == old(self).wave_view()@.width,
            final(self).toric() == old(self).toric(),
            final(self).table() == old(self).table(),
            final(self).wave_view().journal() == Seq::<Ban>::empty(),
            forall|y: int, x: int, p: int|
                final(self).wave_view().in_bounds(y, x, p) ==> final(self).wave_view().allows(y, x, p),
            forall|y: int, x: int, p: int, d: Direction|
                final(self).wave_view().in_bounds(y, x, p) ==> #[trigger] final(self).supports(
                    y,
                    x,
                    p,
                    d,
                ) == Self::initial_support(final(self).table(), p, d),
            table_distinct(old(self).table()) && table_symmetric(old(self).table()) ==> final(self).consistent(),
    {
        self.wave.reset();
        self.fill_counters();
        proof {
            if table_distinct(self.table()) && table_symmetric(self.table()) {
                self.lemma_fresh_consistent();
            }
        }
    }

    /// Return a reference to the owned wave
    pub fn wave(&self) -> (r: &Wave)
        ensures
            *r == self.wave_view(),
    {
        &self.wave
    }

    /// Whether the journal lists, at a position from `from` on and before
    /// `k`, the removal of pattern `v` from cell `(sy, sx)`.
    pub open spec fn removed_before(&self, from: int, k: int, sy: int, sx: int, v: int) -> bool {
        exists|m: int|
            from <= m < k && m < self.wave_view().journal().len() && {
                let ban = #[trigger] self.wave_view().journal()[m];
                ban.0 == sy && ban.1 == sx && ban.2 == v
            }
    }

    /// Whether the removals that the journal lists before position `k` leave
    /// the pattern of `ban` without a supporter behind its cell in direction
    /// `d`: of the patterns that the table lists for it, each was gone from
    /// that cell when `start` was the wave or removed since, and one at least
    /// removed since.
    pub open spec fn starved(&self, start: &Wave, k: int, ban: Ban, d: Direction) -> bool {
        match self.source(ban.0 as int, ban.1 as int, d) {
            None => false,
            Some((sy, sx)) => {
                let list = compatible_list(self.table(), ban.2 as int, d.opposite());
                let from = start.journal().len() as int;
                &&& forall|i: int|
                    0 <= i < list.len() ==> !start.allows(sy, sx, list[i] as int)
                        || #[trigger] self.removed_before(from, k, sy, sx, list[i] as int)
                &&& exists|i: int|
                    0 <= i < list.len() && #[trigger] self.removed_before(
                        from,
                        k,
                        sy,
                        sx,
                        list[i] as int,
                    )
            },
        }
    }

    /// Whether the removals that the journal lists before position `k` force
    /// the removal `ban`: they leave its pattern without a supporter in some
    /// direction.
    pub open spec fn forced(&self, start: &Wave, k: int, ban: Ban) -> bool {
        exists|d: Direction| #[trigger] self.starved(start, k, ban, d)
    }

    /// Every removal that the journal lists since `start` was the wave was
    /// asked for or forced by the removals before it.
    pub open spec fn justified(&self, start: &Wave, requested: Set<Ban>) -> bool {
        forall|k: int|
            start.journal().len() <= k < self.wave_view().journal().len() ==> requested.contains(
                #[trigger] self.wave_view().journal()[k],
            ) || self.forced(start, k, self.wave_view().journal()[k])
    }

    /// Whether the journal lists the removal since `start` was the wave.
    spec fn logged(&self, start: &Wave, ban: Ban) -> bool {
        exists|m: int|
            start.journal().len() <= m < self.wave.journal().len() && #[trigger] self.wave.journal()[m]
                == ban
    }

    /// What holds of the journal while the removal `cur` is being propagated
    /// and others wait: it lists them, and it lists nothing that was not
    /// asked for or forced.
    spec fn jinv(&self, start: &Wave, cur: Option<Progress>, requested: Set<Ban>) -> bool {
        &&& self.justified(start, requested)
        &&& forall|k: int|
            0 <= k < self.pending().len() ==> self.logged(start, #[trigger] self.pending()[k])
        &&& cur matches Some(c) ==> self.logged(start, c.ban)
    }

    /// What forces a removal still does when the journal has grown.
    proof fn lemma_forced_kept(&self, before: &Propagator, start: &Wave, k: int, ban: Ban)
        requires
            self.same_frame(before),
            k <= before.wave.journal().len() <= self.wave.journal().len(),
            self.wave.journal().subrange(0, before.wave.journal().len() as int)
                == before.wave.journal(),
            before.forced(start, k, ban),
        ensures
            self.forced(start, k, ban),
    {
        let d = choose|d: Direction| #[trigger] before.starved(start, k, ban, d);
        let from = start.journal().len() as int;
        let n = before.wave.journal().len() as int;
        assert forall|m: int| 0 <= m < n implies self.wave.journal()[m] == before.wave.journal()[m] by {
            assert(self.wave.journal().subrange(0, n)[m] == self.wave.journal()[m]);
        }
        assert forall|sy: int, sx: int, v: int|
            before.removed_before(from, k, sy, sx, v) implies #[trigger] self.removed_before(
            from,
            k,
            sy,
            sx,
            v,
        ) by {
            let m = choose|m: int|
                from <= m < k && m < before.wave_view().journal().len() && {
                    let b = #[trigger] before.wave_view().journal()[m];
                    b.0 == sy && b.1 == sx && b.2 == v
                };
            assert(self.wave.journal()[m] == before.wave.journal()[m]);
        }
        match self.source(ban.0 as int, ban.1 as int, d) {
            None => {},
            Some((sy, sx)) => {
                let list = compatible_list(self.table(), ban.2 as int, d.opposite());
                assert forall|i: int| 0 <= i < list.len() implies !start.allows(
                    sy,
                    sx,
                    list[i] as int,
                ) || #[trigger] self.removed_before(from, k, sy, sx, list[i] as int) by {
                    if start.allows(sy, sx, list[i] as int) {
                        assert(before.removed_before(from, k, sy, sx, list[i] as int));
                    }
                }
                let i = choose|i: int|
                    0 <= i < list.len() && #[trigger] before.removed_before(
                        from,
                        k,
                        sy,
                        sx,
                        list[i] as int,
                    );
                assert(self.removed_before(from, k, sy, sx, list[i] as int));
            },
        }
        assert(self.starved(start, k, ban, d));
    }

    /// Listing one more removal that was asked for or is forced keeps the
    /// journal right.
    proof fn lemma_jinv_ban(
        &self,
        before: &Propagator,
        start: &Wave,
        cur: Option<Progress>,
        requested: Set<Ban>,
        ban: Ban,
    )
        requires
            before.jinv(start, cur, requested),
            start.journal().len() <= before.wave.journal().len(),
            self.same_frame(before),
            self.wave.journal() == before.wave.journal().push(ban),
            self.pending() == before.pending().push(ban),
            requested.contains(ban) || before.forced(start, before.wave.journal().len() as int, ban),
        ensures
            self.jinv(start, cur, requested),
    {
        let n = before.wave.journal().len() as int;
        assert(self.wave.journal().subrange(0, n) =~= before.wave.journal());
        assert forall|k: int| start.journal().len() <= k < self.wave.journal().len() implies requested.contains(
            #[trigger] self.wave_view().journal()[k],
        ) || self.forced(start, k, self.wave_view().journal()[k]) by {
            let entry = self.wave.journal()[k];
            if k < n {
                assert(entry == before.wave_view().journal()[k]);
                if !requested.contains(entry) {
                    self.lemma_forced_kept(before, start, k, entry);
                }
            } else {
                if !requested.contains(entry) {
                    self.lemma_forced_kept(before, start, k, entry);
                }
            }
        }
        assert forall|k: int| 0 <= k < self.pending().len() implies self.logged(
            start,
            #[trigger] self.pending()[k],
        ) by {
            if k < before.pending().len() {
                let other = before.pending()[k];
                assert(before.logged(start, other));
                let m = choose|m: int|
                    start.journal().len() <= m < before.wave.journal().len()
                        && #[trigger] before.wave.journal()[m] == other;
                assert(self.wave.journal()[m] == other);
            } else {
                assert(self.wave.journal()[n] == ban);
            }
        }
        match cur {
            Some(c) => {
                assert(before.logged(start, c.ban));
                let m = choose|m: int|
                    start.journal().len() <= m < before.wave.journal().len()
                        && #[trigger] before.wave.journal()[m] == c.ban;
                assert(self.wave.journal()[m] == c.ban);
            },
            None => {},
        }
    }

    /// A pattern whose last counted supporter is the removal that is being
    /// reported to it is forced out by the journal.
    proof fn lemma_forced_by_report(&self, start: &Wave, c: Progress, requested: Set<Ban>, y2: int, x2: int)
        requires
            self.inv(),
            self.cinv(Some(c)),
            self.jinv(start, Some(c), requested),
            self.wave.shrinks_from(start),
            self.reporting(c, y2, x2),
            self.wave.allows(y2, x2, self.current_list(c)[c.k] as int),
            self.supports(y2, x2, self.current_list(c)[c.k] as int, Direction::from_index(c.dir))
                == 1,
        ensures
            self.forced(
                start,
                self.wave.journal().len() as int,
                (y2 as usize, x2 as usize, self.current_list(c)[c.k]),
            ),
    {
        let d = Direction::from_index(c.dir);
        let q = self.current_list(c)[c.k];
        let next = Progress { k: c.k + 1, ..c };
        let from = start.journal().len() as int;
        let k = self.wave.journal().len() as int;
        self.wave.lemma_shape_fits();
        self.lemma_report(c, y2, x2);
        let (sy, sx) = (c.ban.0 as int, c.ban.1 as int);
        let list = compatible_list(self.table(), q as int, d.opposite());
        let at = choose|at: int| 0 <= at < list.len() && list[at] == c.ban.2;
        let a = self.alive(Some(c), sy, sx, q as int, d);
        let b = self.alive(Some(next), sy, sx, q as int, d);
        lemma_support_drop(list, a, b, at);
        assert(self.supports(y2, x2, q as int, d) == self.expected(Some(c), y2, x2, q as int, d));
        assert(support(list, b) == 0);
        lemma_support_bounds(list, b);
        let ban = (y2 as usize, x2 as usize, q);
        assert(self.source(ban.0 as int, ban.1 as int, d) == Some((sy, sx)));
        assert forall|i: int| 0 <= i < list.len() implies !start.allows(sy, sx, list[i] as int)
            || #[trigger] self.removed_before(from, k, sy, sx, list[i] as int) by {
            assert(list[i] < self.wave@.width);
            if b[list[i] as int] {
                lemma_support_marked(list, b, i);
            }
            assert(!self.alive_at(Some(next), sy, sx, q as int, d, list[i] as int));
            assert(!self.wave.allows(sy, sx, list[i] as int));
            if start.allows(sy, sx, list[i] as int) {
                let gone = (c.ban.0, c.ban.1, list[i]);
                assert(self.wave.holds(gone) && start.permits(gone) && !self.wave.permits(gone));
                let m = choose|m: int| from <= m < k && #[trigger] self.wave.journal()[m] == gone;
                assert(self.wave_view().journal()[m] == gone);
            }
        }
        assert(self.logged(start, c.ban));
        let m = choose|m: int| from <= m < k && #[trigger] self.wave.journal()[m] == c.ban;
        assert(self.wave_view().journal()[m] == c.ban);
        assert(self.removed_before(from, k, sy, sx, list[at] as int));
        assert(exists|i: int|
            0 <= i < list.len() && #[trigger] self.removed_before(from, k, sy, sx, list[i] as int));
        assert(ban.2 as int == q as int);
        assert(compatible_list(self.table(), ban.2 as int, d.opposite()) == list);
        assert(self.starved(start, k, ban, d));
    }

    /// Taking the last removal out of the queue keeps the journal right.
    proof fn lemma_jinv_pop(&self, before: &Propagator, start: &Wave, requested: Set<Ban>)
        requires
            before.jinv(start, None, requested),
            before.pending().len() > 0,
            self.same_frame(before),
            self.wave == before.wave,
            self.pending() == before.pending().drop_last(),
        ensures
            self.jinv(start, Some(Progress { ban: before.pending().last(), dir: 0, k: 0 }), requested),
    {
        assert forall|k: int| start.journal().len() <= k < self.wave.journal().len() implies requested.contains(
            #[trigger] self.wave_view().journal()[k],
        ) || self.forced(start, k, self.wave_view().journal()[k]) by {
            let entry = self.wave.journal()[k];
            if !requested.contains(entry) {
                assert(self.wave.journal().subrange(0, before.wave.journal().len() as int)
                    =~= before.wave.journal());
                assert(before.forced(start, k, before.wave_view().journal()[k]));
                self.lemma_forced_kept(before, start, k, entry);
            }
        }
        assert forall|k: int| 0 <= k < self.pending().len() implies self.logged(
            start,
            #[trigger] self.pending()[k],
        ) by {
            assert(before.logged(start, before.pending()[k]));
        }
        assert(before.logged(start, before.pending()[before.pending().len() - 1]));
    }

    /// Going on with the propagation of a removal, or being done with it,
    /// keeps the journal right where nothing is removed.
    proof fn lemma_jinv_move(
        &self,
        before: &Propagator,
        start: &Wave,
        cur: Option<Progress>,
        next: Option<Progress>,
        requested: Set<Ban>,
    )
        requires
            before.jinv(start, cur, requested),
            self.same_frame(before),
            self.wave.journal() == before.wave.journal(),
            self.pending() == before.pending(),
            next matches Some(n) ==> cur matches Some(c) && c.ban == n.ban,
        ensures
            self.jinv(start, next, requested),
    {
        assert forall|k: int| start.journal().len() <= k < self.wave.journal().len() implies requested.contains(
            #[trigger] self.wave_view().journal()[k],
        ) || self.forced(start, k, self.wave_view().journal()[k]) by {
            let entry = self.wave.journal()[k];
            if !requested.contains(entry) {
                assert(self.wave.journal().subrange(0, before.wave.journal().len() as int)
                    =~= before.wave.journal());
                assert(before.forced(start, k, before.wave_view().journal()[k]));
                self.lemma_forced_kept(before, start, k, entry);
            }
        }
        assert forall|k: int| 0 <= k < self.pending().len() implies self.logged(
            start,
            #[trigger] self.pending()[k],
        ) by {
            assert(before.logged(start, before.pending()[k]));
        }
        match next {
            Some(n) => {
                assert(before.logged(start, n.ban));
            },
            None => {},
        }
    }

    /// Where the removals up to some wave were asked for or forced, and so
    /// were those from that wave on, all of them were.
    pub proof fn lemma_justified_twice(
        &self,
        middle: &Propagator,
        start: &Wave,
        first: Set<Ban>,
        second: Set<Ban>,
        requested: Set<Ban>,
    )
        requires
            self.inv(),
            self.same_frame(middle),
            middle.wave_view().shrinks_from(start),
            self.wave_view().shrinks_from(&middle.wave_view()),
            middle.justified(start, first),
            self.justified(&middle.wave_view(), second),
            first.subset_of(requested),
            second.subset_of(requested),
        ensures
            self.justified(start, requested),
    {
        let from = start.journal().len() as int;
        let between = middle.wave.journal().len() as int;
        let height = self.wave@.depth as int;
        let width = self.wave@.height as int;
        self.wave.lemma_shape_fits();
        assert forall|m: int| 0 <= m < between implies self.wave.journal()[m]
            == middle.wave.journal()[m] by {
            assert(self.wave.journal().subrange(0, between)[m] == self.wave.journal()[m]);
        }
        assert forall|k: int| from <= k < self.wave.journal().len() implies requested.contains(
            #[trigger] self.wave_view().journal()[k],
        ) || self.forced(start, k, self.wave_view().journal()[k]) by {
            let entry = self.wave.journal()[k];
            if k < between {
                assert(entry == middle.wave_view().journal()[k]);
                if !first.contains(entry) {
                    assert(middle.forced(start, k, entry));
                    self.lemma_forced_kept(middle, start, k, entry);
                }
            } else if !second.contains(entry) {
                assert(self.forced(&middle.wave, k, entry));
                let d = choose|d: Direction| #[trigger] self.starved(&middle.wave, k, entry, d);
                assert(self.wave.holds(entry));
                lemma_neighbor_in_grid(
                    height,
                    width,
                    self.is_toric,
                    entry.0 as int,
                    entry.1 as int,
                    d.opposite(),
                );
                match self.source(entry.0 as int, entry.1 as int, d) {
                    None => {},
                    Some((sy, sx)) => {
                        let list = compatible_list(self.table(), entry.2 as int, d.opposite());
                        assert forall|i: int| 0 <= i < list.len() implies !start.allows(
                            sy,
                            sx,
                            list[i] as int,
                        ) || #[trigger] self.removed_before(from, k, sy, sx, list[i] as int) by {
                            assert(list[i] < self.wave@.width);
                            if start.allows(sy, sx, list[i] as int) {
                                if middle.wave.allows(sy, sx, list[i] as int) {
                                    assert(self.removed_before(between, k, sy, sx, list[i] as int));
                                    let m = choose|m: int|
                                        between <= m < k && m < self.wave_view().journal().len() && {
                                            let b = #[trigger] self.wave_view().journal()[m];
                                            b.0 == sy && b.1 == sx && b.2 == list[i] as int
                                        };
                                    assert(from <= m);
                                } else {
                                    let gone = (sy as usize, sx as usize, list[i]);
                                    assert(middle.wave.holds(gone) && start.permits(gone)
                                        && !middle.wave.permits(gone));
                                    let m = choose|m: int|
                                        from <= m < between && #[trigger] middle.wave.journal()[m]
                                            == gone;
                                    assert(self.wave_view().journal()[m] == gone);
                                }
                            }
                        }
                        let i = choose|i: int|
                            0 <= i < list.len() && #[trigger] self.removed_before(
                                between,
                                k,
                                sy,
                                sx,
                                list[i] as int,
                            );
                        let m = choose|m: int|
                            between <= m < k && m < self.wave_view().journal().len() && {
                                let b = #[trigger] self.wave_view().journal()[m];
                                b.0 == sy && b.1 == sx && b.2 == list[i] as int
                            };
                        assert(from <= m);
                        assert(self.removed_before(from, k, sy, sx, list[i] as int));
                    },
                }
                assert(self.starved(start, k, entry, d));
            }
        }
    }

    /// Whether pattern `p` of cell `(y, x)` has a supporter that `kept` marks
    /// behind the cell in direction `d`, or had none to lose there when
    /// `start` was the wave, or has no cell behind it.
    pub open spec fn backed(
        &self,
        start: &Wave,
        kept: crate::utils::vec3d::Grid3<bool>,
        y: int,
        x: int,
        p: int,
        d: Direction,
    ) -> bool {
        match self.source(y, x, d) {
            None => true,
            Some((sy, sx)) => {
                let list = compatible_list(self.table(), p, d.opposite());
                ||| exists|i: int| 0 <= i < list.len() && kept.at(sy, sx, #[trigger] list[i] as int)
                ||| forall|i: int| 0 <= i < list.len() ==> !start.allows(sy, sx, #[trigger] list[i] as int)
            },
        }
    }

    /// Whether every pattern that `kept` marks in a cell is backed in every
    /// direction.
    pub open spec fn supported(&self, start: &Wave, kept: crate::utils::vec3d::Grid3<bool>) -> bool {
        forall|y: int, x: int, p: int, d: Direction|
            start.in_bounds(y, x, p) && kept.at(y, x, p) ==> #[trigger] self.backed(
                start,
                kept,
                y,
                x,
                p,
                d,
            )
    }

    /// No removal that the journal lists before position `k` is marked by a
    /// choice of patterns that leaves out what was asked to be removed and
    /// in which every pattern is backed.
    proof fn lemma_removed_not_kept(
        &self,
        start: &Wave,
        requested: Set<Ban>,
        kept: crate::utils::vec3d::Grid3<bool>,
        k: int,
    )
        requires
            self.inv(),
            self.wave_view().shrinks_from(start),
            self.justified(start, requested),
            forall|y: int, x: int, p: int|
                start.in_bounds(y, x, p) && kept.at(y, x, p) ==> start.allows(y, x, p),
            forall|ban: Ban|
                requested.contains(ban) && start.holds(ban) ==> !kept.at(
                    ban.0 as int,
                    ban.1 as int,
                    ban.2 as int,
                ),
            self.supported(start, kept),
            start.journal().len() <= k <= self.wave_view().journal().len(),
        ensures
            forall|m: int|
                start.journal().len() <= m < k ==> {
                    let ban = #[trigger] self.wave_view().journal()[m];
                    !kept.at(ban.0 as int, ban.1 as int, ban.2 as int)
                },
        decreases k,
    {
        let from = start.journal().len() as int;
        if k > from {
            self.lemma_removed_not_kept(start, requested, kept, k - 1);
            let entry = self.wave.journal()[k - 1];
            if kept.at(entry.0 as int, entry.1 as int, entry.2 as int) {
                assert(self.wave.holds(entry));
                assert(self.forced(start, k - 1, entry));
                let d = choose|d: Direction| #[trigger] self.starved(start, k - 1, entry, d);
                assert(self.backed(start, kept, entry.0 as int, entry.1 as int, entry.2 as int, d));
                lemma_neighbor_in_grid(
                    self.wave@.depth as int,
                    self.wave@.height as int,
                    self.is_toric,
                    entry.0 as int,
                    entry.1 as int,
                    d.opposite(),
                );
                match self.source(entry.0 as int, entry.1 as int, d) {
                    None => {},
                    Some((sy, sx)) => {
                        let list = compatible_list(self.table(), entry.2 as int, d.opposite());
                        if exists|i: int|
                            0 <= i < list.len() && kept.at(sy, sx, #[trigger] list[i] as int) {
                            let i = choose|i: int|
                                0 <= i < list.len() && kept.at(sy, sx, #[trigger] list[i] as int);
                            assert(list[i] < self.wave@.width);
                            assert(start.allows(sy, sx, list[i] as int));
                            assert(self.removed_before(from, k - 1, sy, sx, list[i] as int));
                            let m = choose|m: int|
                                from <= m < k - 1 && m < self.wave_view().journal().len() && {
                                    let b = #[trigger] self.wave_view().journal()[m];
                                    b.0 == sy && b.1 == sx && b.2 == list[i] as int
                                };
                            assert(false);
                        } else {
                            let i = choose|i: int|
                                0 <= i < list.len() && #[trigger] self.removed_before(
                                    from,
                                    k - 1,
                                    sy,
                                    sx,
                                    list[i] as int,
                                );
                            let m = choose|m: int|
                                from <= m < k - 1 && m < self.wave_view().journal().len() && {
                                    let b = #[trigger] self.wave_view().journal()[m];
                                    b.0 == sy && b.1 == sx && b.2 == list[i] as int
                                };
                            assert(start.permits(self.wave_view().journal()[m]));
                            assert(!start.allows(sy, sx, list[i] as int));
                            assert(false);
                        }
                    },
                }
            }
        }
    }

    /// The wave that removals leave behind is the largest of its kind: it
    /// holds every choice of patterns from the wave `start` that leaves out
    /// what was asked to be removed and in which every pattern is backed.
    pub proof fn lemma_greatest(
        &self,
        start: &Wave,
        requested: Set<Ban>,
        kept: crate::utils::vec3d::Grid3<bool>,
    )
        requires
            self.wf(),
            self.wave_view().shrinks_from(start),
            self.justified(start, requested),
            forall|y: int, x: int, p: int|
                start.in_bounds(y, x, p) && kept.at(y, x, p) ==> start.allows(y, x, p),
            forall|ban: Ban|
                requested.contains(ban) && start.holds(ban) ==> !kept.at(
                    ban.0 as int,
                    ban.1 as int,
                    ban.2 as int,
                ),
            self.supported(start, kept),
        ensures
            forall|y: int, x: int, p: int|
                start.in_bounds(y, x, p) && kept.at(y, x, p) ==> self.wave_view().allows(y, x, p),
    {
        let from = start.journal().len() as int;
        self.lemma_removed_not_kept(start, requested, kept, self.wave.journal().len() as int);
        self.wave.lemma_shape_fits();
        assert forall|y: int, x: int, p: int|
            start.in_bounds(y, x, p) && kept.at(y, x, p) implies self.wave_view().allows(y, x, p) by {
            if !self.wave.allows(y, x, p) {
                let gone = (y as usize, x as usize, p as usize);
                assert(self.wave.holds(gone) && start.permits(gone) && !self.wave.permits(gone));
                let m = choose|m: int|
                    from <= m < self.wave.journal().len() && #[trigger] self.wave.journal()[m]
                        == gone;
                assert(self.wave_view().journal()[m] == gone);
            }
        }
    }

    /// At rest, with counters that hold what they have to, every pattern
    /// that can still be placed is backed by the wave in every direction.
    pub proof fn lemma_supported(&self, start: &Wave)
        requires
            self.wf(),
            self.consistent(),
            start@.depth == self.wave_view()@.depth,
            start@.height == self.wave_view()@.height,
            start@.width == self.wave_view()@.width,
        ensures
            self.supported(start, self.wave_view()@),
    {
        assert forall|y: int, x: int, p: int, d: Direction|
            start.in_bounds(y, x, p) && self.wave@.at(y, x, p) implies #[trigger] self.backed(
            start,
            self.wave@,
            y,
            x,
            p,
            d,
        ) by {
            lemma_neighbor_in_grid(
                self.wave@.depth as int,
                self.wave@.height as int,
                self.is_toric,
                y,
                x,
                d.opposite(),
            );
            match self.source(y, x, d) {
                None => {},
                Some((sy, sx)) => {
                    let list = compatible_list(self.table(), p, d.opposite());
                    let row = self.wave@.row(sy, sx);
                    assert(self.wave.allows(y, x, p));
                    assert(self.supports(y, x, p, d) == self.expected_support(y, x, p, d));
                    assert(self.supports(y, x, p, d) > 0 || Self::initial_support(self.table(), p, d)
                        == 0);
                    if list.len() > 0 {
                        lemma_support_bounds(list, row);
                        let k = choose|k: int| 0 <= k < list.len() && row[#[trigger] list[k] as int];
                        self.wave@.lemma_row(sy, sx);
                        assert(list[k] < self.wave@.width);
                        assert(self.wave@.at(sy, sx, list[k] as int));
                    }
                },
            }
        }
    }

    /// What removals leave behind does not depend on their order: two
    /// propagators at rest that came out of one wave for the same removals
    /// asked for, both with counters that hold what they have to, let the same
    /// patterns be placed.
    pub proof fn lemma_fixpoint_unique(&self, other: &Propagator, start: &Wave, requested: Set<Ban>)
        requires
            self.wf(),
            other.wf(),
            self.same_frame(other),
            self.consistent(),
            other.consistent(),
            self.wave_view().shrinks_from(start),
            other.wave_view().shrinks_from(start),
            self.justified(start, requested),
            other.justified(start, requested),
            forall|ban: Ban|
                requested.contains(ban) && start.holds(ban) ==> !self.wave_view().permits(ban)
                    && !other.wave_view().permits(ban),
        ensures
            forall|y: int, x: int, p: int|
                start.in_bounds(y, x, p) ==> self.wave_view().allows(y, x, p)
                    == other.wave_view().allows(y, x, p),
    {
        self.lemma_supported(start);
        other.lemma_supported(start);
        assert(self.supported(start, other.wave@)) by {
            assert forall|y: int, x: int, p: int, d: Direction|
                start.in_bounds(y, x, p) && other.wave@.at(y, x, p) implies #[trigger] self.backed(
                start,
                other.wave@,
                y,
                x,
                p,
                d,
            ) by {
                assert(other.backed(start, other.wave@, y, x, p, d));
            }
        }
        assert(other.supported(start, self.wave@)) by {
            assert forall|y: int, x: int, p: int, d: Direction|
                start.in_bounds(y, x, p) && self.wave@.at(y, x, p) implies #[trigger] other.backed(
                start,
                self.wave@,
                y,
                x,
                p,
                d,
            ) by {
                assert(self.backed(start, self.wave@, y, x, p, d));
            }
        }
        self.lemma_greatest(start, requested, other.wave@);
        other.lemma_greatest(start, requested, self.wave@);
    }

    /// At rest, the counter of a pattern that can still be placed holds the
    /// number of the patterns that can still be placed in the cell behind it
    /// and next to which the pattern can stand.
    pub proof fn lemma_counters_count(&self, y: int, x: int, p: int, d: Direction)
        requires
            self.wf(),
            self.consistent(),
            self.wave_view().in_bounds(y, x, p),
            self.wave_view().allows(y, x, p),
        ensures
            self.supports(y, x, p, d) == self.expected_support(y, x, p, d),
            self.source(y, x, d) matches Some((sy, sx)) ==> self.supports(y, x, p, d) == support(
                compatible_list(self.table(), p, d.opposite()),
                self.wave_view()@.row(sy, sx),
            ),
    {
    }

    /// At rest, a pattern that can still be placed in a cell finds, in every
    /// direction in which the cell has a neighbour and the table lists anything
    /// for the pattern, a pattern of that list that can still be placed in the
    /// neighbour.
    pub proof fn lemma_arc_consistent(&self, y: int, x: int, p: int, d: Direction)
        requires
            self.wf(),
            self.consistent(),
            self.wave_view().in_bounds(y, x, p),
            self.wave_view().allows(y, x, p),
            compatible_list(self.table(), p, d).len() > 0,
            neighbor(
                self.wave_view()@.depth as int,
                self.wave_view()@.height as int,
                self.toric(),
                y,
                x,
                d,
            ) is Some,
        ensures
            ({
                let next = neighbor(
                    self.wave_view()@.depth as int,
                    self.wave_view()@.height as int,
                    self.toric(),
                    y,
                    x,
                    d,
                ).unwrap();
                exists|k: int|
                    0 <= k < compatible_list(self.table(), p, d).len() && self.wave_view().allows(
                        next.0,
                        next.1,
                        #[trigger] compatible_list(self.table(), p, d)[k] as int,
                    )
            }),
    {
        let back = d.opposite();
        lemma_opposite(d);
        let next = neighbor(
            self.wave@.depth as int,
            self.wave@.height as int,
            self.is_toric,
            y,
            x,
            d,
        ).unwrap();
        lemma_neighbor_in_grid(
            self.wave@.depth as int,
            self.wave@.height as int,
            self.is_toric,
            y,
            x,
            d,
        );
        let list = compatible_list(self.table(), p, d);
        let row = self.wave@.row(next.0, next.1);
        assert(self.source(y, x, back) == Some(next));
        assert(self.supports(y, x, p, back) == self.expected_support(y, x, p, back));
        assert(self.supports(y, x, p, back) > 0 || Self::initial_support(self.table(), p, back)
            == 0);
        lemma_support_bounds(list, row);
        let k = choose|k: int| 0 <= k < list.len() && row[#[trigger] list[k] as int];
        self.wave@.lemma_row(next.0, next.1);
        assert(list[k] < self.wave@.width);
        assert(self.wave.allows(next.0, next.1, list[k] as int));
    }

    /// Read the counter of cell `(y, x)`, pattern `pattern` and direction
    /// `direction`.
    pub fn supporters(&self, y: usize, x: usize, pattern: usize, direction: Direction) -> (r: usize)
        requires
            self.wf(),
            self.wave_view().in_bounds(y as int, x as int, pattern as int),
        ensures
            r == self.supports(y as int, x as int, pattern as int, direction),
    {
        proof {
            self.compatible@.lemma_flat(y as int, x as int, pattern as int);
        }
        *self.compatible.get(y, x, pattern).get(direction)
    }

    /// Tell whether the grid wraps around.
    pub fn is_toric(&self) -> (r: bool)
        ensures
            r == self.toric(),
    {
        self.is_toric
    }

    /// The table of the patterns that can stand next to each other.
    pub fn patterns_compatibility(&self) -> (r: &Compatibility)
        ensures
            r@ == self.table(),
    {
        &self.patterns_compatibility
    }

    /// Hand out the removals made since the journal of the wave was last
    /// taken, oldest first, and start a new journal.
    pub fn take_journal(&mut self) -> (r: Vec<Ban>)
        requires
            old(self).wf(),
        ensures
            final(self).wf(),
            final(self).same_frame(old(self)),
            final(self).wave_view()@ == old(self).wave_view()@,
            r@ == old(self).wave_view().journal(),
            final(self).wave_view().journal() == Seq::<Ban>::empty(),
            old(self).consistent() ==> final(self).consistent(),
    {
        let ghost before = *self;
        let r = self.wave.take_journal();
        proof {
            if before.consistent() {
                assert forall|y: int, x: int, p: int, d: Direction|
                    self.wave.in_bounds(y, x, p) && self.wave.allows(y, x, p) implies #[trigger] self.supports(
                    y,
                    x,
                    p,
                    d,
                ) == self.expected_support(y, x, p, d) by {
                    assert(before.supports(y, x, p, d) == before.expected_support(y, x, p, d));
                    assert(self.source(y, x, d) == before.source(y, x, d));
                }
                assert forall|y: int, x: int, p: int, d: Direction|
                    self.wave.in_bounds(y, x, p) && self.wave.allows(y, x, p) implies (#[trigger] self.supports(
                    y,
                    x,
                    p,
                    d,
                ) > 0 || Self::initial_support(self.table(), p, d) == 0) by {
                    assert(before.supports(y, x, p, d) > 0 || Self::initial_support(
                        before.table(),
                        p,
                        d,
                    ) == 0);
                }
            }
        }
        r
    }

    /// Remove a pattern that can be placed from a cell, clear its counters
    /// and put the removal in the queue.
    fn ban(
        &mut self,
        y: usize,
        x: usize,
        pattern: usize,
        Ghost(cur): Ghost<Option<Progress>>,
        Ghost(start): Ghost<Wave>,
        Ghost(requested): Ghost<Set<Ban>>,
    )
        requires
            old(self).inv(),
            old(self).wave.shrinks_from(&start),
            old(self).wave.in_bounds(y as int, x as int, pattern as int),
            old(self).wave.allows(y as int, x as int, pattern as int),
        ensures
            final(self).inv(),
            final(self).same_frame(old(self)),
            final(self).wave@ == old(self).wave@.with(y as int, x as int, pattern as int, false),
            final(self).wave.journal() == old(self).wave.journal().push((y, x, pattern)),
            final(self).pending() == old(self).pending().push((y, x, pattern)),
            final(self).wave.total() + 1 == old(self).wave.total(),
            final(self).wave.shrinks_from(&old(self).wave),
            final(self).wave.shrinks_from(&start),
            old(self).cinv(cur) ==> final(self).cinv(cur),
            old(self).jinv(&start, cur, requested) && (requested.contains((y, x, pattern))
                || old(self).forced(
                &start,
                old(self).wave.journal().len() as int,
                (y, x, pattern),
            )) ==> final(self).jinv(&start, cur, requested),
    {
        let ghost before = *self;
        proof {
            self.wave.lemma_total_after_unset(y as int, x as int, pattern as int);
            self.compatible@.lemma_flat(y as int, x as int, pattern as int);
        }
        self.wave.unset(y, x, pattern);
        let zero = DirArray::from_values(0usize, 0usize, 0usize, 0usize);
        *self.compatible.get_mut(y, x, pattern) = zero;
        self.propagating_queue.push((y, x, pattern));
        proof {
            before.wave.lemma_shrinks_from_self();
            self.wave.lemma_shrinks_from_step(&before.wave, &before.wave, (y, x, pattern));
            self.wave.lemma_shrinks_from_step(&before.wave, &start, (y, x, pattern));
            before.compatible@.lemma_with(y as int, x as int, pattern as int, zero);
            assert(self.compatible@ == before.compatible@.with(
                y as int,
                x as int,
                pattern as int,
                zero,
            ));
            assert forall|k: int| 0 <= k < self.pending().len() implies self.wave.holds(
                #[trigger] self.pending()[k],
            ) by {
                if k < before.pending().len() {
                    assert(before.wave.holds(before.pending()[k]));
                }
            }
            assert(self.counters_kept(&before, (y, x, pattern))) by {
                assert forall|a: int, b: int, c: int, d: Direction|
                    before.wave.in_bounds(a, b, c) && !(a == y && b == x && c == pattern) implies #[trigger] self.supports(
                    a,
                    b,
                    c,
                    d,
                ) == before.supports(a, b, c, d) by {
                    assert(before.compatible@.in_bounds(a, b, c));
                    assert(self.compatible@.at(a, b, c) == before.compatible@.with(
                        y as int,
                        x as int,
                        pattern as int,
                        zero,
                    ).at(a, b, c));
                }
            }
            if before.cinv(cur) {
                self.lemma_cinv_ban(&before, cur, (y, x, pattern));
            }
            if before.jinv(&start, cur, requested) && (requested.contains((y, x, pattern))
                || before.forced(&start, before.wave.journal().len() as int, (y, x, pattern))) {
                self.lemma_jinv_ban(&before, &start, cur, requested, (y, x, pattern));
            }
        }
    }

    /// Report the removal that is being propagated to pattern `q` of the
    /// neighbour `(y2, x2)` in direction `d`: where the pattern can still be
    /// placed there, it loses one supporter, and with the last one it is
    /// removed itself.
    fn report(
        &mut self,
        y2: usize,
        x2: usize,
        q: usize,
        d: Direction,
        Ghost(c): Ghost<Progress>,
        Ghost(start): Ghost<Wave>,
        Ghost(requested): Ghost<Set<Ban>>,
    )
        requires
            old(self).inv(),
            old(self).wave.shrinks_from(&start),
            old(self).wave.holds(c.ban),
            old(self).reporting(c, y2 as int, x2 as int),
            old(self).current_list(c)[c.k] == q,
            d == Direction::from_index(c.dir),
        ensures
            final(self).inv(),
            final(self).same_frame(old(self)),
            final(self).wave.shrinks_from(&old(self).wave),
            final(self).wave.shrinks_from(&start),
            final(self).wave.total() + final(self).pending().len() == old(self).wave.total()
                + old(self).pending().len(),
            final(self).wave.total() <= old(self).wave.total(),
            old(self).cinv(Some(c)) && old(self).jinv(&start, Some(c), requested)
                ==> final(self).cinv(Some(Progress { k: c.k + 1, ..c })) && final(self).jinv(
                &start,
                Some(Progress { k: c.k + 1, ..c }),
                requested,
            ),
    {
        let ghost before = *self;
        let ghost ok = self.cinv(Some(c)) && self.jinv(&start, Some(c), requested);
        let ghost next = Progress { k: c.k + 1, ..c };
        proof {
            self.wave.lemma_shape_fits();
            self.wave.lemma_shrinks_from_self();
            lemma_neighbor_in_grid(
                self.wave@.depth as int,
                self.wave@.height as int,
                self.is_toric,
                c.ban.0 as int,
                c.ban.1 as int,
                d,
            );
            assert(q < self.wave@.width);
            self.compatible@.lemma_flat(y2 as int, x2 as int, q as int);
        }
        if self.wave.get(y2, x2, q) {
            let mut counters = *self.compatible.get(y2, x2, q);
            let count = *counters.get(d);
            if count == 1 {
                proof {
                    if ok {
                        self.lemma_forced_by_report(&start, c, requested, y2 as int, x2 as int);
                    }
                }
                self.ban(y2, x2, q, Ghost(Some(c)), Ghost(start), Ghost(requested));
                proof {
                    if ok {
                        let ghost middle = *self;
                        self.lemma_cinv_skip(c, y2 as int, x2 as int);
                        self.lemma_jinv_move(&middle, &start, Some(c), Some(next), requested);
                    }
                }
            } else if count > 1 {
                counters.set(d, count - 1);
                *self.compatible.get_mut(y2, x2, q) = counters;
                proof {
                    before.compatible@.lemma_with(y2 as int, x2 as int, q as int, counters);
                    assert(self.compatible@ == before.compatible@.with(
                        y2 as int,
                        x2 as int,
                        q as int,
                        counters,
                    ));
                    assert forall|a: int, b: int, e: int, f: Direction|
                        before.wave.in_bounds(a, b, e) && !(a == y2 && b == x2 && e == q && f
                            == d) implies #[trigger] self.supports(a, b, e, f) == before.supports(
                        a,
                        b,
                        e,
                        f,
                    ) by {
                        assert(before.compatible@.in_bounds(a, b, e));
                        assert(self.compatible@.at(a, b, e) == before.compatible@.with(
                            y2 as int,
                            x2 as int,
                            q as int,
                            counters,
                        ).at(a, b, e));
                        lemma_opposite(f);
                        lemma_opposite(d);
                    }
                    assert(self.compatible@.at(y2 as int, x2 as int, q as int) == counters);
                    assert(self.supports(y2 as int, x2 as int, q as int, d) == count - 1);
                    assert forall|k: int| 0 <= k < self.pending().len() implies self.wave_view().holds(
                        #[trigger] self.pending()[k],
                    ) by {
                        assert(before.wave_view().holds(before.pending()[k]));
                    }
                    if ok {
                        self.lemma_cinv_decrement(&before, c, y2 as int, x2 as int);
                        self.lemma_jinv_move(&before, &start, Some(c), Some(next), requested);
                    }
                }
            } else {
                proof {
                    if ok {
                        before.lemma_counter_positive(c, y2 as int, x2 as int);
                    }
                }
            }
        } else {
            proof {
                if ok {
                    self.lemma_cinv_skip(c, y2 as int, x2 as int);
                    self.lemma_jinv_move(&before, &start, Some(c), Some(next), requested);
                }
            }
        }
    }

    /// Report the removal of `pattern` from `(y1, x1)` to the neighbour in
    /// direction `d`.
    fn propagate_towards(
        &mut self,
        y1: usize,
        x1: usize,
        pattern: usize,
        d: Direction,
        Ghost(start): Ghost<Wave>,
        Ghost(requested): Ghost<Set<Ban>>,
    )
        requires
            old(self).inv(),
            old(self).wave.shrinks_from(&start),
            old(self).wave.in_bounds(y1 as int, x1 as int, pattern as int),
        ensures
            final(self).inv(),
            final(self).same_frame(old(self)),
            final(self).wave.shrinks_from(&old(self).wave),
            final(self).wave.shrinks_from(&start),
            final(self).wave.total() + final(self).pending().len() == old(self).wave.total()
                + old(self).pending().len(),
            final(self).wave.total() <= old(self).wave.total(),
            old(self).cinv(Some(Progress { ban: (y1, x1, pattern), dir: d.index(), k: 0 }))
                && old(self).jinv(
                &start,
                Some(Progress { ban: (y1, x1, pattern), dir: d.index(), k: 0 }),
                requested,
            )
                ==> final(self).cinv(
                Some(Progress { ban: (y1, x1, pattern), dir: d.index() + 1, k: 0 }),
            ) && final(self).jinv(
                &start,
                Some(Progress { ban: (y1, x1, pattern), dir: d.index() + 1, k: 0 }),
                requested,
            ),
    {
        let ghost first = Progress { ban: (y1, x1, pattern), dir: d.index(), k: 0 };
        let ghost last = Progress { ban: (y1, x1, pattern), dir: d.index() + 1, k: 0 };
        let ghost ok = self.cinv(Some(first)) && self.jinv(&start, Some(first), requested);
        let ghost entry = *self;
        proof {
            lemma_opposite(d);
            self.wave.lemma_shrinks_from_self();
        }
        let height = self.wave.height();
        let width = self.wave.width();
        match neighbor_of(height, width, self.is_toric, y1, x1, d) {
            None => {
                proof {
                    if ok {
                        self.lemma_cinv_turn(first);
                        self.lemma_jinv_move(&entry, &start, Some(first), Some(last), requested);
                    }
                }
            },
            Some((y2, x2)) => {
                let n = self.patterns_compatibility[pattern].get(d).len();
                let mut k: usize = 0;
                while k < n
                    invariant
                        k <= n,
                        self.inv(),
                        self.same_frame(&entry),
                        self.wave.shrinks_from(&entry.wave),
                        self.wave.shrinks_from(&start),
                        self.wave.in_bounds(y1 as int, x1 as int, pattern as int),
                        height == self.wave@.depth,
                        width == self.wave@.height,
                        d == Direction::from_index(d.index()),
                        0 <= d.index() < 4,
                        n == compatible_list(self.table(), pattern as int, d).len(),
                        neighbor(
                            height as int,
                            width as int,
                            self.is_toric,
                            y1 as int,
                            x1 as int,
                            d,
                        ) == Some((y2 as int, x2 as int)),
                        self.wave.total() + self.pending().len() == entry.wave.total()
                            + entry.pending().len(),
                        self.wave.total() <= entry.wave.total(),
                        ok ==> self.cinv(
                            Some(Progress { ban: (y1, x1, pattern), dir: d.index(), k: k as int }),
                        ) && self.jinv(
                            &start,
                            Some(Progress { ban: (y1, x1, pattern), dir: d.index(), k: k as int }),
                            requested,
                        ),
                    decreases n - k,
                {
                    let q = self.patterns_compatibility[pattern].get(d)[k];
                    let ghost c = Progress { ban: (y1, x1, pattern), dir: d.index(), k: k as int };
                    let ghost before = *self;
                    self.report(y2, x2, q, d, Ghost(c), Ghost(start), Ghost(requested));
                    proof {
                        self.wave.lemma_shrinks_from_twice(&before.wave, &entry.wave);
                    }
                    k += 1;
                }
                proof {
                    if ok {
                        let ghost here = *self;
                        let ghost c = Progress { ban: (y1, x1, pattern), dir: d.index(), k: k as int };
                        self.lemma_cinv_turn(c);
                        self.lemma_jinv_move(&here, &start, Some(c), Some(last), requested);
                    }
                }
            },
        }
    }

    /// Propagate the information collected by the unset functions.
    fn propagate(&mut self, Ghost(start): Ghost<Wave>, Ghost(requested): Ghost<Set<Ban>>)
        requires
            old(self).inv(),
            old(self).wave.shrinks_from(&start),
        ensures
            final(self).wf(),
            final(self).same_frame(old(self)),
            final(self).wave.shrinks_from(&old(self).wave),
            final(self).wave.shrinks_from(&start),
            old(self).cinv(None) && old(self).jinv(&start, None, requested) ==> final(self).cinv(
                None,
            ) && final(self).jinv(&start, None, requested),
    {
        let ghost ok = self.cinv(None) && self.jinv(&start, None, requested);
        let ghost entry = *self;
        proof {
            self.wave.lemma_shrinks_from_self();
        }
        // We propagate as long as we have things to propagate.
        // (y1, x1) is the cell where pattern was set to false in the wave.
        loop
            invariant
                self.inv(),
                self.same_frame(&entry),
                self.wave.shrinks_from(&entry.wave),
                self.wave.shrinks_from(&start),
                ok ==> self.cinv(None) && self.jinv(&start, None, requested),
            ensures
                self.pending().len() == 0,
            decreases self.wave.total() + self.pending().len(),
        {
            if self.propagating_queue.len() == 0 {
                break ;
            }
            let ghost before = *self;
            match self.propagating_queue.pop() {
                None => {},
                Some((y1, x1, pattern)) => {
                    let ghost ban = (y1, x1, pattern);
                    proof {
                        assert(before.pending()[before.pending().len() - 1] == ban);
                        assert(before.wave.holds(ban));
                        assert forall|k: int| 0 <= k < self.pending().len() implies self.wave.holds(
                            #[trigger] self.pending()[k],
                        ) by {
                            assert(before.wave.holds(before.pending()[k]));
                        }
                        if ok {
                            assert(self.counters_same(&before));
                            self.lemma_cinv_pop(&before);
                            self.lemma_jinv_pop(&before, &start, requested);
                        }
                    }
                    let ghost a = *self;
                    self.propagate_towards(
                        y1,
                        x1,
                        pattern,
                        Direction::Down,
                        Ghost(start),
                        Ghost(requested),
                    );
                    let ghost b = *self;
                    self.propagate_towards(
                        y1,
                        x1,
                        pattern,
                        Direction::Left,
                        Ghost(start),
                        Ghost(requested),
                    );
                    let ghost c = *self;
                    self.propagate_towards(
                        y1,
                        x1,
                        pattern,
                        Direction::Right,
                        Ghost(start),
                        Ghost(requested),
                    );
                    let ghost e = *self;
                    self.propagate_towards(
                        y1,
                        x1,
                        pattern,
                        Direction::Up,
                        Ghost(start),
                        Ghost(requested),
                    );
                    proof {
                        b.wave.lemma_shrinks_from_twice(&a.wave, &entry.wave);
                        c.wave.lemma_shrinks_from_twice(&b.wave, &entry.wave);
                        e.wave.lemma_shrinks_from_twice(&c.wave, &entry.wave);
                        self.wave.lemma_shrinks_from_twice(&e.wave, &entry.wave);
                        if ok {
                            let ghost here = *self;
                            self.lemma_cinv_finish(Progress { ban, dir: 4, k: 0 });
                            self.lemma_jinv_move(
                                &here,
                                &start,
                                Some(Progress { ban, dir: 4, k: 0 }),
                                None,
                                requested,
                            );
                        }
                    }
                },
            }
        }
    }

    /// Remove pattern from the wave on cell (i, j).
    /// This means that pattern cannot be placed in cell (i, j).
    ///
    /// Every pattern that loses its last supporter by this is removed too,
    /// and so on until none is left without one. Where the counters held what
    /// they have to, they do so again, and nothing else was removed.
    pub fn unset(&mut self, y: usize, x: usize, pattern: usize)
        requires
            old(self).wf(),
            old(self).wave_view().in_bounds(y as int, x as int, pattern as int),
        ensures
            final(self).wf(),
            final(self).same_frame(old(self)),
            !final(self).wave_view().allows(y as int, x as int, pattern as int),
            final(self).wave_view().shrinks_from(&old(self).wave_view()),
            !old(self).wave_view().allows(y as int, x as int, pattern as int) ==> {
                &&& final(self).wave_view()@ == old(self).wave_view()@
                &&& final(self).wave_view().journal() == old(self).wave_view().journal()
            },
            old(self).consistent() ==> final(self).consistent() && final(self).justified(
                &old(self).wave_view(),
                set![(y, x, pattern)],
            ),
    {
        let ghost before = *self;
        let ghost requested = set![(y, x, pattern)];
        proof {
            self.wave.lemma_shrinks_from_self();
            self.lemma_consistent_at_rest();
        }
        if self.wave.get(y, x, pattern) {
            self.ban(y, x, pattern, Ghost(None), Ghost(before.wave), Ghost(requested));
            proof {
                before.wave@.lemma_with(y as int, x as int, pattern as int, false);
            }
            self.propagate(Ghost(before.wave), Ghost(requested));
            proof {
                self.lemma_consistent_at_rest();
            }
        }
    }
}

} // verus!
