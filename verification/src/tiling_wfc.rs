//! A WFC algorithm for tiling problems.

use crate::direction::{lemma_opposite, DirArray, Direction};
use crate::overlapping_wfc::lists_exactly;
use crate::propagator::{
    compatible_list, distinct, may_follow, table_distinct, table_symmetric, table_wf, Compatibility,
};
use crate::tile::{generate_action_map, Tile};
use crate::utils::vec2d::{Grid, Vec2D};
use crate::utils::vec3d::Vec3D;
use crate::wave::Ban;
use crate::wfc::WFC;
use vstd::prelude::*;

verus! {

/// Options passed to the tiling WFC.
#[derive(Clone, Copy, Debug)]
pub struct TilingWFCOptions {
    pub is_periodic: bool,
}

/// The number of the first oriented tile of tile `i`: the number of
/// orientations of all tiles before it.
pub open spec fn first_id<T>(tiles: Seq<Tile<T>>, i: int) -> nat
    decreases i,
{
    if i <= 0 {
        0
    } else {
        first_id(tiles, i - 1) + tiles[i - 1].data_view().len()
    }
}

/// The first oriented tiles of the tiles come in growing order.
pub proof fn lemma_first_id_grows<T>(tiles: Seq<Tile<T>>, i: int, j: int)
    requires
        0 <= i <= j,
    ensures
        first_id(tiles, i) <= first_id(tiles, j),
        i < j ==> first_id(tiles, i) + tiles[i].data_view().len() <= first_id(tiles, j),
    decreases j - i,
{
    if i < j {
        lemma_first_id_grows(tiles, i, j - 1);
    }
}

/// The numbers of the oriented tiles are those of the tiles one after the
/// other: `of_id` gives for each number the tile and the orientation, and
/// `ids` for each tile the numbers of its orientations.
pub open spec fn numbered<T>(
    tiles: Seq<Tile<T>>,
    of_id: Seq<(usize, usize)>,
    ids: Seq<Vec<usize>>,
) -> bool {
    &&& of_id.len() == first_id(tiles, tiles.len() as int)
    &&& ids.len() == tiles.len()
    &&& forall|i: int| 0 <= i < tiles.len() ==> (#[trigger] ids[i]).len() == tiles[i].data_view().len()
    &&& forall|i: int, j: int|
        0 <= i < tiles.len() && 0 <= j < tiles[i].data_view().len() ==> {
            &&& #[trigger] ids[i][j] == first_id(tiles, i) + j
            &&& ids[i][j] < of_id.len()
            &&& of_id[ids[i][j] as int] == (i as usize, j as usize)
        }
    &&& names_tiles(tiles, of_id)
}

/// Each number of an oriented tile stands for an orientation of a tile, and
/// is the number that this orientation has.
pub open spec fn names_tiles<T>(tiles: Seq<Tile<T>>, of_id: Seq<(usize, usize)>) -> bool {
    forall|id: int|
        0 <= id < of_id.len() ==> {
            let named = #[trigger] of_id[id];
            &&& named.0 < tiles.len()
            &&& named.1 < tiles[named.0 as int].data_view().len()
            &&& first_id(tiles, named.0 as int) + named.1 == id
        }
}

/// Generate mapping from id to oriented tiles and vice versa.
pub fn generate_oriented_tile_ids<T>(tiles: &[Tile<T>]) -> (r: (Vec<(usize, usize)>, Vec<Vec<usize>>))
    requires
        first_id(tiles@, tiles@.len() as int) <= usize::MAX,
    ensures
        numbered(tiles@, r.0@, r.1@),
{
    let n = tiles.len();
    let mut id_to_oriented_tile: Vec<(usize, usize)> = Vec::new();
    let mut oriented_tile_ids: Vec<Vec<usize>> = Vec::new();
    let mut i: usize = 0;
    while i < n
        invariant
            i <= n,
            n == tiles@.len(),
            first_id(tiles@, n as int) <= usize::MAX,
            id_to_oriented_tile.len() == first_id(tiles@, i as int),
            oriented_tile_ids.len() == i,
            names_tiles(tiles@, id_to_oriented_tile@),
            forall|a: int|
                0 <= a < i ==> (#[trigger] oriented_tile_ids[a]).len() == tiles@[a].data_view().len(),
            forall|a: int, b: int|
                0 <= a < i && 0 <= b < tiles@[a].data_view().len() ==> {
                    &&& #[trigger] oriented_tile_ids[a][b] == first_id(tiles@, a) + b
                    &&& oriented_tile_ids[a][b] < id_to_oriented_tile.len()
                    &&& id_to_oriented_tile[oriented_tile_ids[a][b] as int] == (a as usize, b as usize)
                },
        decreases n - i,
    {
        let count = tiles[i].data().len();
        let ghost base = first_id(tiles@, i as int);
        proof {
            lemma_first_id_grows(tiles@, i as int, n as int);
        }
        let mut ids: Vec<usize> = Vec::new();
        let mut j: usize = 0;
        while j < count
            invariant
                i < n,
                j <= count,
                n == tiles@.len(),
                count == tiles@[i as int].data_view().len(),
                base == first_id(tiles@, i as int),
                base + count <= usize::MAX,
                id_to_oriented_tile.len() == base + j,
                oriented_tile_ids.len() == i,
                names_tiles(tiles@, id_to_oriented_tile@),
                ids.len() == j,
                forall|b: int| 0 <= b < j ==> #[trigger] ids[b] == base + b,
                forall|b: int|
                    0 <= b < j ==> #[trigger] id_to_oriented_tile[base + b] == (i, b as usize),
                forall|a: int|
                    0 <= a < i ==> (#[trigger] oriented_tile_ids[a]).len()
                        == tiles@[a].data_view().len(),
                forall|a: int, b: int|
                    0 <= a < i && 0 <= b < tiles@[a].data_view().len() ==> {
                        &&& #[trigger] oriented_tile_ids[a][b] == first_id(tiles@, a) + b
                        &&& oriented_tile_ids[a][b] < base
                        &&& id_to_oriented_tile[oriented_tile_ids[a][b] as int] == (
                            a as usize,
                            b as usize,
                        )
                    },
            decreases count - j,
        {
            let ghost before = id_to_oriented_tile@;
            ids.push(id_to_oriented_tile.len());
            id_to_oriented_tile.push((i, j));
            proof {
                assert forall|id: int| 0 <= id < id_to_oriented_tile.len() implies {
                    let named = #[trigger] id_to_oriented_tile@[id];
                    &&& named.0 < tiles@.len()
                    &&& named.1 < tiles@[named.0 as int].data_view().len()
                    &&& first_id(tiles@, named.0 as int) + named.1 == id
                } by {
                    if id < before.len() {
                        assert(id_to_oriented_tile@[id] == before[id]);
                    }
                }
            }
            j += 1;
        }
        proof {
            assert forall|a: int, b: int|
                0 <= a < i && 0 <= b < tiles@[a].data_view().len() implies (
            #[trigger] oriented_tile_ids[a][b]) < base by {
                lemma_first_id_grows(tiles@, a, i as int);
            }
        }
        oriented_tile_ids.push(ids);
        proof {
            assert forall|a: int, b: int|
                0 <= a < i + 1 && 0 <= b < tiles@[a].data_view().len() implies {
                &&& #[trigger] oriented_tile_ids[a][b] == first_id(tiles@, a) + b
                &&& oriented_tile_ids[a][b] < id_to_oriented_tile.len()
                &&& id_to_oriented_tile[oriented_tile_ids[a][b] as int] == (a as usize, b as usize)
            } by {
                if a < i {
                    lemma_first_id_grows(tiles@, a, i as int);
                }
            }
        }
        i += 1;
    }
    (id_to_oriented_tile, oriented_tile_ids)
}

/// The direction in which the second tile of a pair of neighbours lies
/// after action `a`: to the right at first, and the turns and the reflection
/// carry it along.
pub open spec fn action_direction(a: int) -> Direction {
    if a == 0 || a == 6 {
        Direction::Right
    } else if a == 1 || a == 7 {
        Direction::Down
    } else if a == 2 || a == 4 {
        Direction::Left
    } else {
        Direction::Up
    }
}

/// The direction in which the second tile of a pair of neighbours lies
/// after an action.
fn direction_after(action: usize) -> (r: Direction)
    requires
        action < 8,
    ensures
        r == action_direction(action as int),
{
    if action == 0 || action == 6 {
        Direction::Right
    } else if action == 1 || action == 7 {
        Direction::Down
    } else if action == 2 || action == 4 {
        Direction::Left
    } else {
        Direction::Up
    }
}

/// The entry names two tiles and an orientation of each.
pub open spec fn neighbor_wf<T>(tiles: Seq<Tile<T>>, entry: [usize; 4]) -> bool {
    &&& entry@[0] < tiles.len()
    &&& entry@[2] < tiles.len()
    &&& entry@[1] < tiles[entry@[0] as int].symmetry_view().orientations()
    &&& entry@[3] < tiles[entry@[2] as int].symmetry_view().orientations()
}

/// Whether the entry of the neighbour list, after action `a`, lets the
/// oriented tile `q` stand in direction `d` of the oriented tile `p`: it
/// names the two in this order and `d` is the direction of the action, or in
/// the other order and `d` is the opposite direction.
pub open spec fn lifts<T>(
    tiles: Seq<Tile<T>>,
    ids: Seq<Vec<usize>>,
    entry: [usize; 4],
    a: int,
    p: int,
    d: Direction,
    q: int,
) -> bool {
    let first = ids[entry@[0] as int][tiles[entry@[0] as int].symmetry_view().action(
        a,
        entry@[1] as int,
    )];
    let second = ids[entry@[2] as int][tiles[entry@[2] as int].symmetry_view().action(
        a,
        entry@[3] as int,
    )];
    ||| (p == first && q == second && d == action_direction(a))
    ||| (p == second && q == first && d == action_direction(a).opposite())
}

/// Whether one of the first `k` entries of the neighbour list, or entry `k`
/// with one of the first `a` actions, lets `q` stand in direction `d` of `p`.
pub open spec fn lifted_upto<T>(
    tiles: Seq<Tile<T>>,
    ids: Seq<Vec<usize>>,
    neighbors: Seq<[usize; 4]>,
    k: int,
    a: int,
    p: int,
    d: Direction,
    q: int,
) -> bool {
    exists|e: int, b: int|
        0 <= e < neighbors.len() && 0 <= b < 8 && (e < k || (e == k && b < a)) && #[trigger] lifts(
            tiles,
            ids,
            neighbors[e],
            b,
            p,
            d,
            q,
        )
}

/// Whether the neighbour list lets the oriented tile `q` stand in direction
/// `d` of the oriented tile `p`.
pub open spec fn lifted<T>(
    tiles: Seq<Tile<T>>,
    ids: Seq<Vec<usize>>,
    neighbors: Seq<[usize; 4]>,
    p: int,
    d: Direction,
    q: int,
) -> bool {
    lifted_upto(tiles, ids, neighbors, neighbors.len() as int, 0, p, d, q)
}

/// What the neighbour list lets stand next to each other is symmetric.
pub proof fn lemma_lifted_symmetric<T>(
    tiles: Seq<Tile<T>>,
    ids: Seq<Vec<usize>>,
    neighbors: Seq<[usize; 4]>,
    p: int,
    d: Direction,
    q: int,
)
    ensures
        lifted(tiles, ids, neighbors, p, d, q) ==> lifted(tiles, ids, neighbors, q, d.opposite(), p),
{
    lemma_opposite(d);
    let n = neighbors.len() as int;
    if lifted(tiles, ids, neighbors, p, d, q) {
        let (e, b) = choose|e: int, b: int|
            0 <= e < neighbors.len() && 0 <= b < 8 && (e < n || (e == n && b < 0)) && #[trigger] lifts(
                tiles,
                ids,
                neighbors[e],
                b,
                p,
                d,
                q,
            );
        lemma_opposite(action_direction(b));
        assert(lifts(tiles, ids, neighbors[e], b, q, d.opposite(), p));
    }
}

/// Generate a propagator given the neighbors list
pub fn generate_propagator<T>(
    neighbors: &[[usize; 4]],
    tiles: &[Tile<T>],
    id_to_oriented_tile: &[(usize, usize)],
    oriented_tile_ids: &[Vec<usize>],
) -> (r: Compatibility)
    requires
        forall|i: int| 0 <= i < tiles@.len() ==> (#[trigger] tiles@[i]).wf(),
        numbered(tiles@, id_to_oriented_tile@, oriented_tile_ids@),
        forall|k: int| 0 <= k < neighbors@.len() ==> neighbor_wf(tiles@, #[trigger] neighbors@[k]),
        id_to_oriented_tile@.len() * 4 * id_to_oriented_tile@.len() <= usize::MAX,
    ensures
        r.len() == id_to_oriented_tile@.len(),
        forall|p: int, d: Direction|
            0 <= p < r.len() ==> lists_exactly(
                #[trigger] compatible_list(r@, p, d),
                r.len() as int,
                |q: int| lifted(tiles@, oriented_tile_ids@, neighbors@, p, d, q),
            ),
        table_wf(r@, r.len() as nat),
        table_distinct(r@),
        table_symmetric(r@),
{
    let nb_oriented_tiles = id_to_oriented_tile.len();
    let ghost n = nb_oriented_tiles as int;
    let ghost ids = oriented_tile_ids@;
    let mut dense_propagator = Vec3D::new(nb_oriented_tiles, 4, nb_oriented_tiles, &false);
    proof {
        assert forall|p: int, d: Direction, q: int| 0 <= p < n && 0 <= q < n implies #[trigger] dense_propagator@.at(
            p,
            d.index(),
            q,
        ) == lifted_upto(tiles@, ids, neighbors@, 0, 0, p, d, q) by {
            lemma_opposite(d);
            dense_propagator@.lemma_flat(p, d.index(), q);
        }
    }

    let mut k: usize = 0;
    while k < neighbors.len()
        invariant
            k <= neighbors@.len(),
            n == nb_oriented_tiles,
            n == id_to_oriented_tile@.len(),
            ids == oriented_tile_ids@,
            forall|i: int| 0 <= i < tiles@.len() ==> (#[trigger] tiles@[i]).wf(),
            numbered(tiles@, id_to_oriented_tile@, ids),
            forall|e: int| 0 <= e < neighbors@.len() ==> neighbor_wf(tiles@, #[trigger] neighbors@[e]),
            dense_propagator.wf(),
            dense_propagator@.depth == n,
            dense_propagator@.height == 4,
            dense_propagator@.width == n,
            forall|p: int, d: Direction, q: int|
                0 <= p < n && 0 <= q < n ==> #[trigger] dense_propagator@.at(p, d.index(), q)
                    == lifted_upto(tiles@, ids, neighbors@, k as int, 0, p, d, q),
        decreases neighbors@.len() - k,
    {
        let neighbor = &neighbors[k];
        let tile1 = neighbor[0];
        let orientation1 = neighbor[1];
        let tile2 = neighbor[2];
        let orientation2 = neighbor[3];
        proof {
            assert(neighbor_wf(tiles@, neighbors@[k as int]));
        }

        let action_map1 = generate_action_map(tiles[tile1].symmetry());
        let action_map2 = generate_action_map(tiles[tile2].symmetry());

        let mut action: usize = 0;
        while action < 8
            invariant
                action <= 8,
                k < neighbors@.len(),
                n == nb_oriented_tiles,
                n == id_to_oriented_tile@.len(),
                ids == oriented_tile_ids@,
                forall|i: int| 0 <= i < tiles@.len() ==> (#[trigger] tiles@[i]).wf(),
                numbered(tiles@, id_to_oriented_tile@, ids),
                neighbor_wf(tiles@, neighbors@[k as int]),
                tile1 == neighbors@[k as int]@[0],
                orientation1 == neighbors@[k as int]@[1],
                tile2 == neighbors@[k as int]@[2],
                orientation2 == neighbors@[k as int]@[3],
                action_map1.len() == 8,
                action_map2.len() == 8,
                forall|a: int|
                    0 <= a < 8 ==> (#[trigger] action_map1[a]).len()
                        == tiles@[tile1 as int].symmetry_view().orientations(),
                forall|a: int|
                    0 <= a < 8 ==> (#[trigger] action_map2[a]).len()
                        == tiles@[tile2 as int].symmetry_view().orientations(),
                forall|a: int, o: int|
                    0 <= a < 8 && 0 <= o < tiles@[tile1 as int].symmetry_view().orientations()
                        ==> #[trigger] action_map1[a][o] == tiles@[tile1 as int].symmetry_view().action(
                        a,
                        o,
                    ) && action_map1[a][o] < tiles@[tile1 as int].symmetry_view().orientations(),
                forall|a: int, o: int|
                    0 <= a < 8 && 0 <= o < tiles@[tile2 as int].symmetry_view().orientations()
                        ==> #[trigger] action_map2[a][o] == tiles@[tile2 as int].symmetry_view().action(
                        a,
                        o,
                    ) && action_map2[a][o] < tiles@[tile2 as int].symmetry_view().orientations(),
                dense_propagator.wf(),
                dense_propagator@.depth == n,
                dense_propagator@.height == 4,
                dense_propagator@.width == n,
                forall|p: int, d: Direction, q: int|
                    0 <= p < n && 0 <= q < n ==> #[trigger] dense_propagator@.at(p, d.index(), q)
                        == lifted_upto(tiles@, ids, neighbors@, k as int, action as int, p, d, q),
            decreases 8 - action,
        {
            let direction = direction_after(action);
            let temp_orientation1 = action_map1[action][orientation1];
            let temp_orientation2 = action_map2[action][orientation2];
            proof {
                assert(tiles@[tile1 as int].wf());
                assert(tiles@[tile2 as int].wf());
                assert(ids[tile1 as int][temp_orientation1 as int] < n);
                assert(ids[tile2 as int][temp_orientation2 as int] < n);
            }
            let oriented_tile_id1 = oriented_tile_ids[tile1][temp_orientation1];
            let oriented_tile_id2 = oriented_tile_ids[tile2][temp_orientation2];
            let ghost before = dense_propagator@;
            proof {
                lemma_opposite(direction);
                before.lemma_flat(
                    oriented_tile_id1 as int,
                    direction.index(),
                    oriented_tile_id2 as int,
                );
                before.lemma_with(
                    oriented_tile_id1 as int,
                    direction.index(),
                    oriented_tile_id2 as int,
                    true,
                );
            }
            *dense_propagator.get_mut(oriented_tile_id1, direction.ordinal(), oriented_tile_id2) =
                true;
            let ghost middle = dense_propagator@;
            proof {
                lemma_opposite(direction.opposite());
                middle.lemma_flat(
                    oriented_tile_id2 as int,
                    direction.opposite().index(),
                    oriented_tile_id1 as int,
                );
                middle.lemma_with(
                    oriented_tile_id2 as int,
                    direction.opposite().index(),
                    oriented_tile_id1 as int,
                    true,
                );
            }
            *dense_propagator.get_mut(
                oriented_tile_id2,
                direction.opposite().ordinal(),
                oriented_tile_id1,
            ) = true;
            proof {
                assert forall|p: int, d: Direction, q: int| 0 <= p < n && 0 <= q < n implies #[trigger] dense_propagator@.at(
                    p,
                    d.index(),
                    q,
                ) == lifted_upto(tiles@, ids, neighbors@, k as int, action + 1, p, d, q) by {
                    lemma_opposite(d);
                    assert(before.in_bounds(p, d.index(), q));
                    assert(middle.at(p, d.index(), q) == before.with(
                        oriented_tile_id1 as int,
                        direction.index(),
                        oriented_tile_id2 as int,
                        true,
                    ).at(p, d.index(), q));
                    assert(dense_propagator@.at(p, d.index(), q) == middle.with(
                        oriented_tile_id2 as int,
                        direction.opposite().index(),
                        oriented_tile_id1 as int,
                        true,
                    ).at(p, d.index(), q));
                    let now = lifts(tiles@, ids, neighbors@[k as int], action as int, p, d, q);
                    assert(before.at(p, d.index(), q) == lifted_upto(
                        tiles@,
                        ids,
                        neighbors@,
                        k as int,
                        action as int,
                        p,
                        d,
                        q,
                    ));
                    assert(dense_propagator@.at(p, d.index(), q) == (before.at(p, d.index(), q)
                        || now)) by {
                        if d.index() == direction.index() {
                            assert(d == direction);
                        }
                        if d.index() == direction.opposite().index() {
                            assert(d == direction.opposite());
                        }
                    }
                    lemma_lifted_step(tiles@, ids, neighbors@, k as int, action as int, p, d, q);
                }
            }
            action += 1;
        }
        proof {
            assert forall|p: int, d: Direction, q: int| 0 <= p < n && 0 <= q < n implies #[trigger] dense_propagator@.at(
                p,
                d.index(),
                q,
            ) == lifted_upto(tiles@, ids, neighbors@, k + 1, 0, p, d, q) by {
                lemma_lifted_turn(tiles@, ids, neighbors@, k as int, p, d, q);
            }
        }
        k += 1;
    }

    // Transform the dense propagator into a sparse one
    let mut table: Compatibility = Vec::new();
    let mut p: usize = 0;
    while p < nb_oriented_tiles
        invariant
            p <= nb_oriented_tiles,
            n == nb_oriented_tiles,
            k == neighbors@.len(),
            ids == oriented_tile_ids@,
            dense_propagator.wf(),
            dense_propagator@.depth == n,
            dense_propagator@.height == 4,
            dense_propagator@.width == n,
            forall|a: int, d: Direction, q: int|
                0 <= a < n && 0 <= q < n ==> #[trigger] dense_propagator@.at(a, d.index(), q) == lifted(
                    tiles@,
                    ids,
                    neighbors@,
                    a,
                    d,
                    q,
                ),
            table.len() == p,
            forall|a: int, d: Direction|
                0 <= a < p ==> lists_exactly(
                    #[trigger] compatible_list(table@, a, d),
                    n,
                    |q: int| lifted(tiles@, ids, neighbors@, a, d, q),
                ),
        decreases nb_oriented_tiles - p,
    {
        let down = marked(
            &dense_propagator,
            p,
            Direction::Down,
            Ghost(|q: int| lifted(tiles@, ids, neighbors@, p as int, Direction::Down, q)),
        );
        let left = marked(
            &dense_propagator,
            p,
            Direction::Left,
            Ghost(|q: int| lifted(tiles@, ids, neighbors@, p as int, Direction::Left, q)),
        );
        let right = marked(
            &dense_propagator,
            p,
            Direction::Right,
            Ghost(|q: int| lifted(tiles@, ids, neighbors@, p as int, Direction::Right, q)),
        );
        let up = marked(
            &dense_propagator,
            p,
            Direction::Up,
            Ghost(|q: int| lifted(tiles@, ids, neighbors@, p as int, Direction::Up, q)),
        );
        let ghost before = table@;
        let entry = DirArray::from_values(down, left, right, up);
        table.push(entry);
        proof {
            assert forall|a: int, d: Direction| 0 <= a < p + 1 implies lists_exactly(
                #[trigger] compatible_list(table@, a, d),
                n,
                |q: int| lifted(tiles@, ids, neighbors@, a, d, q),
            ) by {
                if a < p {
                    assert(table@[a] == before[a]);
                    assert(lists_exactly(
                        compatible_list(before, a, d),
                        n,
                        |q: int| lifted(tiles@, ids, neighbors@, a, d, q),
                    ));
                } else {
                    assert(table@[a] == entry);
                    match d {
                        Direction::Down => {},
                        Direction::Left => {},
                        Direction::Right => {},
                        Direction::Up => {},
                    }
                }
            }
        }
        p += 1;
    }
    proof {
        lemma_lifted_table(tiles@, ids, neighbors@, table@);
    }
    table
}

/// One more action of an entry lets stand next to each other what the
/// actions before did and what this one does.
proof fn lemma_lifted_step<T>(
    tiles: Seq<Tile<T>>,
    ids: Seq<Vec<usize>>,
    neighbors: Seq<[usize; 4]>,
    k: int,
    a: int,
    p: int,
    d: Direction,
    q: int,
)
    requires
        0 <= k < neighbors.len(),
        0 <= a < 8,
    ensures
        lifted_upto(tiles, ids, neighbors, k, a + 1, p, d, q) <==> (lifted_upto(
            tiles,
            ids,
            neighbors,
            k,
            a,
            p,
            d,
            q,
        ) || lifts(tiles, ids, neighbors[k], a, p, d, q)),
{
    if lifted_upto(tiles, ids, neighbors, k, a + 1, p, d, q) {
        let (e, b) = choose|e: int, b: int|
            0 <= e < neighbors.len() && 0 <= b < 8 && (e < k || (e == k && b < a + 1)) && #[trigger] lifts(
                tiles,
                ids,
                neighbors[e],
                b,
                p,
                d,
                q,
            );
        if e == k && b == a {
        } else {
            assert(lifts(tiles, ids, neighbors[e], b, p, d, q));
        }
    }
    if lifted_upto(tiles, ids, neighbors, k, a, p, d, q) {
        let (e, b) = choose|e: int, b: int|
            0 <= e < neighbors.len() && 0 <= b < 8 && (e < k || (e == k && b < a)) && #[trigger] lifts(
                tiles,
                ids,
                neighbors[e],
                b,
                p,
                d,
                q,
            );
        assert(lifts(tiles, ids, neighbors[e], b, p, d, q));
    }
    if lifts(tiles, ids, neighbors[k], a, p, d, q) {
    }
}

/// All eight actions of an entry make the entry done.
proof fn lemma_lifted_turn<T>(
    tiles: Seq<Tile<T>>,
    ids: Seq<Vec<usize>>,
    neighbors: Seq<[usize; 4]>,
    k: int,
    p: int,
    d: Direction,
    q: int,
)
    requires
        0 <= k < neighbors.len(),
    ensures
        lifted_upto(tiles, ids, neighbors, k, 8, p, d, q) <==> lifted_upto(
            tiles,
            ids,
            neighbors,
            k + 1,
            0,
            p,
            d,
            q,
        ),
{
    if lifted_upto(tiles, ids, neighbors, k, 8, p, d, q) {
        let (e, b) = choose|e: int, b: int|
            0 <= e < neighbors.len() && 0 <= b < 8 && (e < k || (e == k && b < 8)) && #[trigger] lifts(
                tiles,
                ids,
                neighbors[e],
                b,
                p,
                d,
                q,
            );
        assert(lifts(tiles, ids, neighbors[e], b, p, d, q));
    }
    if lifted_upto(tiles, ids, neighbors, k + 1, 0, p, d, q) {
        let (e, b) = choose|e: int, b: int|
            0 <= e < neighbors.len() && 0 <= b < 8 && (e < k + 1 || (e == k + 1 && b < 0)) && #[trigger] lifts(
                tiles,
                ids,
                neighbors[e],
                b,
                p,
                d,
                q,
            );
        assert(lifts(tiles, ids, neighbors[e], b, p, d, q));
    }
}

/// A table that lists exactly what the neighbour list lets stand next to
/// each other names each oriented tile once at most and is symmetric.
proof fn lemma_lifted_table<T>(
    tiles: Seq<Tile<T>>,
    ids: Seq<Vec<usize>>,
    neighbors: Seq<[usize; 4]>,
    table: Seq<DirArray<Vec<usize>>>,
)
    requires
        forall|p: int, d: Direction|
            0 <= p < table.len() ==> lists_exactly(
                #[trigger] compatible_list(table, p, d),
                table.len() as int,
                |q: int| lifted(tiles, ids, neighbors, p, d, q),
            ),
    ensures
        table_wf(table, table.len()),
        table_distinct(table),
        table_symmetric(table),
{
    let n = table.len() as int;
    assert forall|p: int, d: Direction, k: int|
        0 <= p < n && 0 <= k < compatible_list(table, p, d).len() implies #[trigger] compatible_list(
        table,
        p,
        d,
    )[k] < n by {
        assert(lists_exactly(
            compatible_list(table, p, d),
            n,
            |q: int| lifted(tiles, ids, neighbors, p, d, q),
        ));
    }
    assert forall|p: int, d: Direction| 0 <= p < table.len() implies distinct(
        #[trigger] compatible_list(table, p, d),
    ) by {
        assert(lists_exactly(
            compatible_list(table, p, d),
            n,
            |q: int| lifted(tiles, ids, neighbors, p, d, q),
        ));
    }
    assert forall|p: usize, q: usize, d: Direction| p < table.len() && q < table.len() implies (
    #[trigger] may_follow(table, p, d, q) <==> may_follow(table, q, d.opposite(), p)) by {
        let e = d.opposite();
        lemma_opposite(d);
        let forth = compatible_list(table, p as int, d);
        let back = compatible_list(table, q as int, e);
        assert(lists_exactly(forth, n, |x: int| lifted(tiles, ids, neighbors, p as int, d, x)));
        assert(lists_exactly(back, n, |x: int| lifted(tiles, ids, neighbors, q as int, e, x)));
        lemma_lifted_symmetric(tiles, ids, neighbors, p as int, d, q as int);
        lemma_lifted_symmetric(tiles, ids, neighbors, q as int, e, p as int);
        if forth.contains(q) {
            let i = choose|i: int| 0 <= i < forth.len() && forth[i] == q;
            assert(lifted(tiles, ids, neighbors, p as int, d, forth[i] as int));
            assert(back.contains(p));
        }
        if back.contains(p) {
            let i = choose|i: int| 0 <= i < back.len() && back[i] == p;
            assert(lifted(tiles, ids, neighbors, q as int, e, back[i] as int));
            assert(forth.contains(q));
        }
    }
}

/// The numbers `q` whose entry `(p, d, q)` of the dense table is set, in
/// growing order.
fn marked(dense: &Vec3D<bool>, p: usize, d: Direction, Ghost(on): Ghost<spec_fn(int) -> bool>) -> (r:
    Vec<usize>)
    requires
        dense.wf(),
        dense@.height == 4,
        p < dense@.depth,
        forall|q: int| 0 <= q < dense@.width ==> #[trigger] dense@.at(p as int, d.index(), q) == on(q),
    ensures
        lists_exactly(r@, dense@.width as int, on),
{
    let n = dense.width();
    let row = d.ordinal();
    let mut list: Vec<usize> = Vec::new();
    let mut q: usize = 0;
    proof {
        lemma_opposite(d);
    }
    while q < n
        invariant
            q <= n,
            n == dense@.width,
            row == d.index(),
            0 <= row < 4,
            dense.wf(),
            dense@.height == 4,
            p < dense@.depth,
            forall|x: int| 0 <= x < dense@.width ==> #[trigger] dense@.at(p as int, d.index(), x)
                == on(x),
            forall|i: int| 0 <= i < list.len() ==> (#[trigger] list[i]) < q,
            lists_exactly(list@, q as int, on),
        decreases n - q,
    {
        proof {
            dense@.lemma_flat(p as int, row as int, q as int);
        }
        let ghost before = list@;
        let set = *dense.get(p, row, q);
        if set {
            list.push(q);
        }
        proof {
            assert(set == on(q as int));
            assert forall|b: usize| b < q + 1 && on(b as int) implies #[trigger] list@.contains(b) by {
                if b < q {
                    assert(before.contains(b));
                    let i = choose|i: int| 0 <= i < before.len() && before[i] == b;
                    assert(list@[i] == b);
                } else {
                    assert(list@[list.len() - 1] == q);
                }
            }
        }
        q += 1;
    }
    list
}

/// The data needed for the WFc algorithm
pub struct TilingWFC<T> {
    /// The problem tiles
    tiles: Vec<Tile<T>>,
    /// Associate an oriented tile id to its tile number, and its orientation
    id_to_oriented_tiles: Vec<(usize, usize)>,
    /// The underlying WFC problem
    wfc: WFC,
}

impl<T: Copy> TilingWFC<T> {
    /// The tiles of the problem.
    pub closed spec fn tiles_view(&self) -> Seq<Tile<T>> {
        self.tiles@
    }

    /// For each number of an oriented tile, the tile and the orientation.
    pub closed spec fn of_id_view(&self) -> Seq<(usize, usize)> {
        self.id_to_oriented_tiles@
    }

    /// The solver that the object owns.
    pub closed spec fn wfc_view(&self) -> WFC {
        self.wfc
    }

    /// The solver is at rest, the tiles are well formed, and the wave has one
    /// entry for each oriented tile.
    pub open spec fn wf(&self) -> bool {
        &&& self.wfc_view().wf()
        &&& forall|i: int| 0 <= i < self.tiles_view().len() ==> (#[trigger] self.tiles_view()[i]).wf()
        &&& names_tiles(self.tiles_view(), self.of_id_view())
        &&& self.wfc_view().propagator_view().wave_view()@.width == self.of_id_view().len()
        &&& table_distinct(self.wfc_view().propagator_view().table())
        &&& table_symmetric(self.wfc_view().propagator_view().table())
    }

    /// The side of a tile: the height of the first orientation of the first
    /// tile.
    pub open spec fn tile_size(&self) -> nat {
        self.tiles_view()[0].data_view()[0]@.height
    }

    /// Every orientation of every tile is a square of the side `tile_size()`.
    pub open spec fn uniform(&self) -> bool {
        forall|t: int, o: int|
            0 <= t < self.tiles_view().len() && 0 <= o < self.tiles_view()[t].data_view().len() ==> {
                &&& (#[trigger] self.tiles_view()[t].data_view()[o])@.height == self.tile_size()
                &&& self.tiles_view()[t].data_view()[o]@.width == self.tile_size()
            }
    }

    /// The symbol at `(row, column)` of the tiling that the oriented tiles
    /// `ids` make up.
    pub open spec fn shown(&self, ids: Grid<usize>, row: int, column: int) -> T {
        let size = self.tile_size() as int;
        let named = self.of_id_view()[ids.at(row / size, column / size) as int];
        self.tiles_view()[named.0 as int].data_view()[named.1 as int]@.at(row % size, column % size)
    }

    /// Create a new structure for a tiling WFC problem
    pub fn new(
        tiles: Vec<Tile<T>>,
        neighbors: &[[usize; 4]],
        height: usize,
        width: usize,
        options: TilingWFCOptions,
        seed: [u8; 16],
    ) -> (r: TilingWFC<T>)
        requires
            tiles.len() > 0,
            forall|i: int| 0 <= i < tiles.len() ==> (#[trigger] tiles[i]).wf(),
            forall|k: int| 0 <= k < neighbors@.len() ==> neighbor_wf(tiles@, #[trigger] neighbors@[k]),
            first_id(tiles@, tiles.len() as int) <= usize::MAX,
            first_id(tiles@, tiles.len() as int) * 4 * first_id(tiles@, tiles.len() as int)
                <= usize::MAX,
            height * width * first_id(tiles@, tiles.len() as int) <= usize::MAX,
        ensures
            r.wf(),
            r.tiles_view() == tiles@,
            r.of_id_view().len() == first_id(tiles@, tiles.len() as int),
            r.wfc_view().propagator_view().wave_view()@.depth == height,
            r.wfc_view().propagator_view().wave_view()@.height == width,
            r.wfc_view().propagator_view().toric() == options.is_periodic,
            r.wfc_view().propagator_view().consistent(),
            r.wfc_view().propagator_view().wave_view().journal() == Seq::<Ban>::empty(),
            forall|y: int, x: int, p: int|
                r.wfc_view().propagator_view().wave_view().in_bounds(y, x, p) ==> r.wfc_view().allows(
                    y,
                    x,
                    p,
                ),
            exists|ids: Seq<Vec<usize>>|
                {
                    &&& #[trigger] numbered(tiles@, r.of_id_view(), ids)
                    &&& forall|p: int, d: Direction|
                        0 <= p < r.of_id_view().len() ==> lists_exactly(
                            #[trigger] compatible_list(r.wfc_view().propagator_view().table(), p, d),
                            r.of_id_view().len() as int,
                            |q: int| lifted(tiles@, ids, neighbors@, p, d, q),
                        )
                },
    {
        let (id_to_oriented_tiles, oriented_tile_ids) = generate_oriented_tile_ids(tiles.as_slice());
        let propagator = generate_propagator(
            neighbors,
            tiles.as_slice(),
            id_to_oriented_tiles.as_slice(),
            oriented_tile_ids.as_slice(),
        );
        proof {
            assert(tiles[0].wf());
            lemma_first_id_grows(tiles@, 0, tiles.len() as int);
            assert(first_id(tiles@, 0) == 0);
        }
        let wfc = WFC::new(
            options.is_periodic,
            seed,
            id_to_oriented_tiles.len(),
            propagator,
            height,
            width,
        );

        let r = TilingWFC { tiles, id_to_oriented_tiles, wfc };
        proof {
            assert(numbered(tiles@, r.of_id_view(), oriented_tile_ids@));
        }
        r
    }

    /// Get the underlying solver
    pub fn wfc(&mut self) -> (r: &mut WFC)
        ensures
            *r == old(self).wfc_view(),
            final(self).wfc_view() == *final(r),
            final(self).tiles_view() == old(self).tiles_view(),
            final(self).of_id_view() == old(self).of_id_view(),
    {
        &mut self.wfc
    }

    /// The tiles of the problem.
    pub fn tiles(&self) -> (r: &Vec<Tile<T>>)
        ensures
            r@ == self.tiles_view(),
    {
        &self.tiles
    }

    /// For each number of an oriented tile, the tile and the orientation.
    pub fn id_to_oriented_tiles(&self) -> (r: &Vec<(usize, usize)>)
        ensures
            r@ == self.of_id_view(),
    {
        &self.id_to_oriented_tiles
    }

    /// Turn the generic WFC result into the concatenation of the tiles
    pub fn id_to_tiling(&self, ids: Vec2D<usize>) -> (r: Vec2D<T>)
        requires
            self.wf(),
            self.tiles_view().len() > 0,
            self.tile_size() >= 1,
            self.uniform(),
            ids.wf(),
            forall|i: int, j: int|
                ids@.in_bounds(i, j) ==> (#[trigger] ids@.at(i, j)) < self.of_id_view().len(),
            self.tile_size() * ids@.height <= usize::MAX,
            self.tile_size() * ids@.width <= usize::MAX,
            (self.tile_size() * ids@.height) * (self.tile_size() * ids@.width) <= usize::MAX,
        ensures
            r.wf(),
            r@.height == self.tile_size() * ids@.height,
            r@.width == self.tile_size() * ids@.width,
            forall|row: int, column: int|
                r@.in_bounds(row, column) ==> #[trigger] r@.at(row, column) == self.shown(
                    ids@,
                    row,
                    column,
                ),
    {
        proof {
            assert(self.tiles@[0].wf());
        }
        let size = self.tiles[0].data()[0].height();
        let rows = ids.height();
        let columns = ids.width();
        let out_height = size * rows;
        let out_width = size * columns;
        let mut data: Vec<T> = Vec::new();
        let mut i: usize = 0;
        proof {
            assert(0 * size == 0) by (nonlinear_arith);
            assert(0 * out_width == 0) by (nonlinear_arith);
        }
        while i < rows
            invariant
                i <= rows,
                self.wf(),
                self.uniform(),
                self.tiles_view().len() > 0,
                ids.wf(),
                size == self.tile_size(),
                size >= 1,
                rows == ids@.height,
                columns == ids@.width,
                out_height == size * rows,
                out_width == size * columns,
                out_height * out_width <= usize::MAX,
                forall|a: int, b: int|
                    ids@.in_bounds(a, b) ==> (#[trigger] ids@.at(a, b)) < self.of_id_view().len(),
                data.len() == (i * size) * out_width,
                forall|row: int, column: int|
                    0 <= row < i * size && 0 <= column < out_width ==> #[trigger] data@[row * out_width
                        + column] == self.shown(ids@, row, column),
            decreases rows - i,
        {
            let mut y: usize = 0;
            proof {
                assert(i * size + size <= size * rows) by (nonlinear_arith)
                    requires
                        i < rows,
                        size >= 1,
                ;
            }
            while y < size
                invariant
                    i < rows,
                    y <= size,
                    self.wf(),
                    self.uniform(),
                    self.tiles_view().len() > 0,
                    ids.wf(),
                    size == self.tile_size(),
                    size >= 1,
                    rows == ids@.height,
                    columns == ids@.width,
                    out_height == size * rows,
                    out_width == size * columns,
                    out_height * out_width <= usize::MAX,
                    i * size + size <= out_height,
                    forall|a: int, b: int|
                        ids@.in_bounds(a, b) ==> (#[trigger] ids@.at(a, b)) < self.of_id_view().len(),
                    data.len() == (i * size + y) * out_width,
                    forall|row: int, column: int|
                        0 <= row < i * size + y && 0 <= column < out_width
                            ==> #[trigger] data@[row * out_width + column] == self.shown(
                            ids@,
                            row,
                            column,
                        ),
                decreases size - y,
            {
                let mut j: usize = 0;
                proof {
                    assert(0 * size == 0) by (nonlinear_arith);
                }
                while j < columns
                    invariant
                        i < rows,
                        y < size,
                        j <= columns,
                        self.wf(),
                        self.uniform(),
                        self.tiles_view().len() > 0,
                        ids.wf(),
                        size == self.tile_size(),
                        size >= 1,
                        rows == ids@.height,
                        columns == ids@.width,
                        out_height == size * rows,
                        out_width == size * columns,
                        out_height * out_width <= usize::MAX,
                        i * size + size <= out_height,
                        forall|a: int, b: int|
                            ids@.in_bounds(a, b) ==> (#[trigger] ids@.at(a, b))
                                < self.of_id_view().len(),
                        data.len() == (i * size + y) * out_width + j * size,
                        forall|row: int, column: int|
                            (0 <= row < i * size + y && 0 <= column < out_width) || (row == i * size
                                + y && 0 <= column < j * size) ==> #[trigger] data@[row * out_width
                                + column] == self.shown(ids@, row, column),
                    decreases columns - j,
                {
                    let id = *ids.get(i, j);
                    proof {
                        assert(ids@.in_bounds(i as int, j as int));
                        assert(ids@.at(i as int, j as int) < self.of_id_view().len());
                    }
                    let (tile_id, orientation) = self.id_to_oriented_tiles[id];
                    proof {
                        let named = self.of_id_view()[id as int];
                        assert(named.0 < self.tiles_view().len());
                        assert(self.tiles_view()[tile_id as int].wf());
                        assert(self.tiles_view()[tile_id as int].data_view()[orientation as int].wf());
                        assert(j * size + size <= size * columns) by (nonlinear_arith)
                            requires
                                j < columns,
                                size >= 1,
                        ;
                    }
                    let oriented = &self.tiles[tile_id].data()[orientation];
                    let mut x: usize = 0;
                    while x < size
                        invariant
                            i < rows,
                            y < size,
                            j < columns,
                            x <= size,
                            self.wf(),
                            self.uniform(),
                            ids.wf(),
                            size == self.tile_size(),
                            size >= 1,
                            rows == ids@.height,
                            columns == ids@.width,
                            out_height == size * rows,
                            out_width == size * columns,
                            out_height * out_width <= usize::MAX,
                            i * size + size <= out_height,
                            j * size + size <= out_width,
                            id == ids@.at(i as int, j as int),
                            (tile_id, orientation) == self.of_id_view()[id as int],
                            tile_id < self.tiles_view().len(),
                            orientation < self.tiles_view()[tile_id as int].data_view().len(),
                            *oriented == self.tiles_view()[tile_id as int].data_view()[orientation as int],
                            oriented.wf(),
                            oriented@.height == size,
                            oriented@.width == size,
                            data.len() == (i * size + y) * out_width + j * size + x,
                            forall|row: int, column: int|
                                (0 <= row < i * size + y && 0 <= column < out_width) || (row == i
                                    * size + y && 0 <= column < j * size + x)
                                    ==> #[trigger] data@[row * out_width + column] == self.shown(
                                    ids@,
                                    row,
                                    column,
                                ),
                        decreases size - x,
                    {
                        let ghost before = data@;
                        let ghost row0 = i * size + y;
                        let ghost column0 = j * size + x;
                        data.push(*oriented.get(y, x));
                        proof {
                            crate::utils::vec2d::lemma_flat_index(
                                i as int,
                                y as int,
                                rows as int,
                                size as int,
                            );
                            crate::utils::vec2d::lemma_flat_index(
                                j as int,
                                x as int,
                                columns as int,
                                size as int,
                            );
                            assert(self.shown(ids@, row0, column0) == oriented@.at(y as int, x as int));
                            assert forall|row: int, column: int|
                                (0 <= row < i * size + y && 0 <= column < out_width) || (row == i
                                    * size + y && 0 <= column < j * size + x + 1) implies #[trigger] data@[row
                                * out_width + column] == self.shown(ids@, row, column) by {
                                if row == row0 && column == column0 {
                                } else {
                                    assert(row * out_width + column < row0 * out_width + column0)
                                        by (nonlinear_arith)
                                        requires
                                            (0 <= row < row0 && 0 <= column < out_width) || (row
                                                == row0 && 0 <= column < column0),
                                            0 <= column0,
                                    ;
                                    assert(0 <= row * out_width + column) by (nonlinear_arith)
                                        requires
                                            0 <= row,
                                            0 <= column,
                                            0 <= out_width,
                                    ;
                                    assert(data@[row * out_width + column] == before[row * out_width
                                        + column]);
                                }
                            }
                        }
                        x += 1;
                    }
                    proof {
                        assert((j + 1) * size == j * size + size) by (nonlinear_arith);
                    }
                    j += 1;
                }
                proof {
                    assert(columns * size == out_width) by (nonlinear_arith)
                        requires
                            out_width == size * columns,
                    ;
                    assert((i * size + y + 1) * out_width == (i * size + y) * out_width + out_width)
                        by (nonlinear_arith);
                }
                y += 1;
            }
            proof {
                assert((i + 1) * size == i * size + size) by (nonlinear_arith);
            }
            i += 1;
        }
        proof {
            assert(rows * size == out_height) by (nonlinear_arith)
                requires
                    out_height == size * rows,
            ;
        }
        let r = Vec2D::from_vec(data, out_height, out_width);
        r
    }

    /// Reset the WFC algorithm
    pub fn restart(&mut self, seed: [u8; 16])
        requires
            old(self).wf(),
        ensures
            final(self).wf(),
            final(self).tiles_view() == old(self).tiles_view(),
            final(self).of_id_view() == old(self).of_id_view(),
            final(self).wfc_view().propagator_view().same_frame(
                &old(self).wfc_view().propagator_view(),
            ),
            final(self).wfc_view().propagator_view().wave_view().journal() == Seq::<Ban>::empty(),
            final(self).wfc_view().propagator_view().consistent(),
            forall|y: int, x: int, p: int|
                final(self).wfc_view().propagator_view().wave_view().in_bounds(y, x, p)
                    ==> final(self).wfc_view().allows(y, x, p),
    {
        self.wfc.restart(seed);
    }
}

} // verus!
