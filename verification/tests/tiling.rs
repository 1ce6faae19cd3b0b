use fast_wfc::direction::{DirArray, Direction};
use fast_wfc::tile::{Symmetry, Tile};
use fast_wfc::tiling_wfc::{
    generate_oriented_tile_ids, generate_propagator, TilingWFC, TilingWFCOptions,
};
use fast_wfc::utils::vec2d::Vec2D;
use fast_wfc::wave::{Rank, WaveError};
use rand::distributions::{Distribution, WeightedIndex};

fn tile(content: [i32; 4], symmetry: Symmetry) -> Tile<i32> {
    Tile::new(Vec2D::from_vec(content.to_vec(), 2, 2), symmetry)
}

#[test]
fn oriented_tiles_are_numbered_tile_after_tile() {
    let tiles = vec![
        tile([1, 2, 3, 4], Symmetry::L),
        tile([5, 5, 5, 5], Symmetry::X),
        tile([6, 7, 6, 7], Symmetry::I),
        tile([1, 2, 3, 4], Symmetry::P),
    ];
    let (id_to_tile, ids) = generate_oriented_tile_ids(&tiles);
    assert_eq!(
        ids,
        vec![vec![0, 1, 2, 3], vec![4], vec![5, 6], vec![7, 8, 9, 10, 11, 12, 13, 14]]
    );
    assert_eq!(id_to_tile.len(), 15);
    assert_eq!(id_to_tile[0], (0, 0));
    assert_eq!(id_to_tile[3], (0, 3));
    assert_eq!(id_to_tile[4], (1, 0));
    assert_eq!(id_to_tile[6], (2, 1));
    assert_eq!(id_to_tile[14], (3, 7));
}

#[test]
fn one_tile_of_each_kind_gives_its_orientations() {
    let (id_to_tile, ids) = generate_oriented_tile_ids(&[tile([1, 2, 3, 4], Symmetry::L)]);
    assert_eq!(id_to_tile, vec![(0, 0), (0, 1), (0, 2), (0, 3)]);
    assert_eq!(ids, vec![vec![0, 1, 2, 3]]);
    let (id_to_tile, ids) = generate_oriented_tile_ids(&[tile([1, 2, 3, 4], Symmetry::P)]);
    assert_eq!(id_to_tile.len(), 8);
    assert_eq!(ids, vec![vec![0, 1, 2, 3, 4, 5, 6, 7]]);
    // the weight of a tile is shared out evenly among its orientations
    let weight: f32 = 3.0;
    let weights: Vec<f32> = id_to_tile.iter().map(|_| weight / 8.0).collect();
    assert_eq!(weights, vec![0.375; 8]);
}

#[test]
fn neighbours_of_plain_tiles_are_lifted_to_every_direction() {
    let tiles = vec![tile([1, 1, 1, 1], Symmetry::X), tile([2, 2, 2, 2], Symmetry::X)];
    let (id_to_tile, ids) = generate_oriented_tile_ids(&tiles);
    let table = generate_propagator(&[[0, 0, 1, 0]], &tiles, &id_to_tile, &ids);
    assert_eq!(table, vec![DirArray::new(&vec![1]), DirArray::new(&vec![0])]);
}

#[test]
fn neighbours_of_an_l_tile_are_lifted_with_its_actions() {
    let tiles = vec![tile([1, 2, 3, 4], Symmetry::L)];
    let (id_to_tile, ids) = generate_oriented_tile_ids(&tiles);
    let table = generate_propagator(&[[0, 0, 0, 1]], &tiles, &id_to_tile, &ids);
    // from_values takes the lists of Down, Left, Right and Up
    assert_eq!(
        table,
        vec![
            DirArray::from_values(vec![3], vec![], vec![1], vec![]),
            DirArray::from_values(vec![2], vec![0], vec![], vec![]),
            DirArray::from_values(vec![], vec![3], vec![], vec![1]),
            DirArray::from_values(vec![], vec![], vec![2], vec![0]),
        ]
    );
}

#[test]
fn lifted_table_is_symmetric() {
    let tiles = vec![
        tile([1, 2, 3, 4], Symmetry::L),
        tile([5, 5, 5, 5], Symmetry::X),
        tile([6, 7, 6, 7], Symmetry::I),
        tile([1, 2, 3, 4], Symmetry::P),
        tile([1, 2, 2, 1], Symmetry::T),
        tile([1, 0, 0, 1], Symmetry::Backslash),
    ];
    let neighbors = [[0, 1, 1, 0], [2, 1, 3, 5], [3, 7, 3, 2], [4, 2, 5, 1], [5, 0, 0, 3]];
    let (id_to_tile, ids) = generate_oriented_tile_ids(&tiles);
    let table = generate_propagator(&neighbors, &tiles, &id_to_tile, &ids);
    assert_eq!(table.len(), 21);
    let mut listed = 0;
    for p in 0..table.len() {
        for d in Direction::directions() {
            for k in 1..table[p][d].len() {
                assert!(table[p][d][k - 1] < table[p][d][k]);
            }
            for q in &table[p][d] {
                assert!(table[*q][d.opposite()].contains(&p));
                listed += 1;
            }
        }
    }
    assert!(listed >= 16);
}

/// The rank of an entropy: ranks are ordered as the entropies are.
fn rank(entropy: f32) -> Rank {
    if entropy.is_nan() {
        None
    } else if entropy == f32::INFINITY {
        Some(u32::MAX)
    } else {
        let bits = (entropy + 0.0).to_bits();
        Some(if bits >> 31 == 1 { !bits } else { bits | (1 << 31) })
    }
}

/// Runs the solver of a tiling: observes and collapses in turn until the
/// wave is decided or impossible.
fn run(tiling: &mut TilingWFC<i32>, tile_weights: &[f32]) -> Option<Vec2D<i32>> {
    let weights: Vec<f32> = tiling
        .id_to_oriented_tiles()
        .iter()
        .map(|(t, _)| tile_weights[*t] / tiling.tiles()[*t].data().len() as f32)
        .collect();
    let wfc = tiling.wfc();
    let height = wfc.propagator().wave().height();
    let width = wfc.propagator().wave().width();
    let mut memo = vec![
        (weights.iter().map(|x| x * x.ln()).sum::<f32>(), weights.iter().sum::<f32>());
        height * width
    ];
    let ids = loop {
        for (y, x, p) in wfc.propagator().take_journal() {
            memo[y * width + x].0 -= weights[p] * weights[p].ln();
            memo[y * width + x].1 -= weights[p];
        }
        let ranks = Vec2D::from_generator(height, width, |y, x| {
            let (plogp_sum, sum) = memo[y * width + x];
            rank(sum.ln() - (plogp_sum / sum))
        });
        match wfc.observe(&ranks) {
            Err(WaveError::Impossible) => break None,
            Err(WaveError::Finished) => break wfc.to_output(),
            Ok((y, x)) => {
                let allowed = wfc.propagator().wave().cell(y, x).to_vec();
                let distribution = WeightedIndex::new(
                    allowed.iter().zip(weights.iter()).map(|(b, w)| if *b { *w } else { 0.0 }),
                )
                .unwrap();
                let chosen = distribution.sample(wfc.rng());
                wfc.collapse(y, x, chosen);
            }
        }
    };
    ids.map(|ids| tiling.id_to_tiling(ids))
}

#[test]
fn tiling_of_two_plain_tiles_alternates() {
    let tiles = vec![tile([1, 1, 1, 1], Symmetry::X), tile([2, 2, 2, 2], Symmetry::X)];
    let options = TilingWFCOptions { is_periodic: false };
    let mut tiling = TilingWFC::new(tiles, &[[0, 0, 1, 0]], 3, 4, options, [1; 16]);
    let image = run(&mut tiling, &[1.0, 2.0]).unwrap();
    assert_eq!(image.height(), 6);
    assert_eq!(image.width(), 8);
    let corner = *image.get(0, 0);
    assert!(corner == 1 || corner == 2);
    for row in 0..6 {
        for column in 0..8 {
            let same = (row / 2 + column / 2) % 2 == 0;
            assert_eq!(*image.get(row, column), if same { corner } else { 3 - corner });
        }
    }
    tiling.restart([1; 16]);
    for y in 0..3 {
        for x in 0..4 {
            assert_eq!(tiling.wfc().propagator().wave().n_patterns(y, x), 2);
        }
    }
    assert_eq!(run(&mut tiling, &[1.0, 2.0]), Some(image));
}

#[test]
fn ids_are_laid_out_as_their_oriented_tiles() {
    let tiles = vec![tile([1, 2, 3, 4], Symmetry::L), tile([5, 5, 5, 5], Symmetry::X)];
    let options = TilingWFCOptions { is_periodic: true };
    let tiling = TilingWFC::new(tiles, &[[0, 0, 1, 0]], 2, 3, options, [1; 16]);
    assert_eq!(
        *tiling.id_to_oriented_tiles(),
        vec![(0, 0), (0, 1), (0, 2), (0, 3), (1, 0)]
    );
    // oriented tiles: 0: 1 2 / 3 4, 1: 2 4 / 1 3, 2: 4 3 / 2 1, 3: 3 1 / 4 2, 4: 5 5 / 5 5
    let ids = Vec2D::from_vec(vec![0, 4, 1, 2, 3, 4], 2, 3);
    let image = tiling.id_to_tiling(ids);
    assert_eq!(image.height(), 4);
    assert_eq!(image.width(), 6);
    assert_eq!(
        image.into_vec(),
        vec![
            1, 2, 5, 5, 2, 4, //
            3, 4, 5, 5, 1, 3, //
            4, 3, 3, 1, 5, 5, //
            2, 1, 4, 2, 5, 5,
        ]
    );
}
