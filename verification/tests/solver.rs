use fast_wfc::direction::DirArray;
use fast_wfc::overlapping_wfc::{OverlappingWFC, OverlappingWFCOptions};
use fast_wfc::utils::vec2d::Vec2D;
use fast_wfc::wave::{Rank, WaveError};
use fast_wfc::wfc::WFC;
use rand::distributions::{Distribution, WeightedIndex};

/// The rank of an entropy: ranks are ordered as the entropies are.
fn rank(entropy: f32) -> Rank {
    if entropy.is_nan() {
        None
    } else if entropy == f32::INFINITY {
        Some(u32::MAX)
    } else {
        let bits = (entropy + 0.0).to_bits();
        Some(if bits >> 31 == 1 { !bits } else { bits | (1 << 31) })
    }
}

/// The sums that the entropy of a cell is worked out from.
#[derive(Clone, Copy)]
struct Memo {
    plogp_sum: f32,
    sum: f32,
}

impl Memo {
    fn entropy(&self) -> f32 {
        self.sum.ln() - (self.plogp_sum / self.sum)
    }
}

/// Runs the solver: observes and collapses in turn until the wave is decided
/// or impossible.
fn run(wfc: &mut WFC, weights: &[f32]) -> Option<Vec2D<usize>> {
    let height = wfc.propagator().wave().height();
    let width = wfc.propagator().wave().width();
    let start = Memo {
        plogp_sum: weights.iter().map(|x| x * x.ln()).sum(),
        sum: weights.iter().sum(),
    };
    let mut memo = vec![start; height * width];
    loop {
        for (y, x, p) in wfc.propagator().take_journal() {
            memo[y * width + x].plogp_sum -= weights[p] * weights[p].ln();
            memo[y * width + x].sum -= weights[p];
        }
        let ranks = Vec2D::from_generator(height, width, |y, x| rank(memo[y * width + x].entropy()));
        match wfc.observe(&ranks) {
            Err(WaveError::Impossible) => return None,
            Err(WaveError::Finished) => return wfc.to_output(),
            Ok((y, x)) => {
                let allowed = wfc.propagator().wave().cell(y, x).to_vec();
                let distribution = WeightedIndex::new(
                    allowed.iter().zip(weights.iter()).map(|(b, w)| if *b { *w } else { 0.0 }),
                )
                .unwrap();
                let chosen = distribution.sample(wfc.rng());
                wfc.collapse(y, x, chosen);
            }
        }
    }
}

fn run_overlapping(wfc: &mut OverlappingWFC<i32>) -> Option<Vec2D<i32>> {
    let weights: Vec<f32> = wfc.weights().iter().map(|w| *w as f32).collect();
    let ids = run(wfc.wfc(), &weights);
    ids.map(|ids| wfc.to_image(&ids))
}

fn checkerboard_options() -> OverlappingWFCOptions {
    OverlappingWFCOptions {
        periodic_input: false,
        periodic_output: false,
        out_height: 4,
        out_width: 4,
        symmetry: 1,
        pattern_size: 2,
        ground: false,
    }
}

#[test]
fn ranks_are_ordered_as_the_entropies() {
    let entropies = [-f32::INFINITY, -2.5, -0.0, 1.0e-20, 0.5, 0.6931472, 10.0, f32::INFINITY];
    for pair in entropies.windows(2) {
        assert!(rank(pair[0]).unwrap() < rank(pair[1]).unwrap());
    }
    assert_eq!(rank(0.0), rank(-0.0));
    assert_eq!(rank(f32::NAN), None);
    assert_eq!(rank(f32::INFINITY), Some(u32::MAX));
}

#[test]
fn checkerboard_is_continued() {
    let input = Vec2D::from_vec(vec![0, 1, 0, 1, 0, 1, 0, 1, 0], 3, 3);
    let mut wfc = OverlappingWFC::new(input, checkerboard_options(), [1; 16]);
    let image = run_overlapping(&mut wfc).unwrap();
    assert_eq!(image.height(), 4);
    assert_eq!(image.width(), 4);
    let a = Vec2D::from_vec(vec![0, 1, 1, 0], 2, 2);
    let b = Vec2D::from_vec(vec![1, 0, 0, 1], 2, 2);
    for i in 0..3 {
        for j in 0..3 {
            let window = Vec2D::from_generator(2, 2, |y, x| *image.get(i + y, j + x));
            assert!(window == a || window == b);
        }
    }
}

#[test]
fn the_same_seed_gives_the_same_output() {
    // 0 0 1 0
    // 0 1 1 0
    // 1 1 0 0
    // 0 0 0 1
    let input = Vec2D::from_vec(vec![0, 0, 1, 0, 0, 1, 1, 0, 1, 1, 0, 0, 0, 0, 0, 1], 4, 4);
    let options = OverlappingWFCOptions {
        periodic_input: true,
        periodic_output: true,
        out_height: 6,
        out_width: 6,
        symmetry: 8,
        pattern_size: 2,
        ground: false,
    };
    let mut outputs = vec![];
    for seed in [[1u8; 16], [1u8; 16], [2u8; 16], [3u8; 16], [4u8; 16]] {
        let mut wfc = OverlappingWFC::new(input.clone(), options, seed);
        outputs.push(run_overlapping(&mut wfc).map(|image| image.into_vec()));
    }
    assert_eq!(outputs[0], outputs[1]);
    assert!(outputs[0].is_some());
    assert!(outputs[2..].iter().any(|other| *other != outputs[0]));
}

#[test]
fn restart_runs_again_from_the_full_wave() {
    let input = Vec2D::from_vec(vec![0, 0, 1, 0, 0, 1, 1, 0, 1, 1, 0, 0, 0, 0, 0, 1], 4, 4);
    let options = OverlappingWFCOptions {
        periodic_input: true,
        periodic_output: true,
        out_height: 5,
        out_width: 5,
        symmetry: 2,
        pattern_size: 2,
        ground: false,
    };
    let mut wfc = OverlappingWFC::new(input, options, [7; 16]);
    let n = wfc.patterns().len();
    let first = run_overlapping(&mut wfc);
    wfc.wfc().restart([7; 16]);
    for y in 0..5 {
        for x in 0..5 {
            assert_eq!(wfc.wfc().propagator().wave().n_patterns(y, x), n);
        }
    }
    assert_eq!(wfc.wfc().propagator().take_journal(), vec![]);
    let second = run_overlapping(&mut wfc);
    assert_eq!(first, second);
}

/// Two patterns, each of which can stand next to itself only.
fn strangers() -> Vec<DirArray<Vec<usize>>> {
    vec![DirArray::new(&vec![0]), DirArray::new(&vec![1])]
}

#[test]
fn neighbours_that_cannot_stand_together_are_a_contradiction() {
    let mut wfc = WFC::new(false, [1; 16], 2, strangers(), 1, 2);
    wfc.propagator().unset(0, 0, 1);
    wfc.propagator().unset(0, 1, 0);
    assert_eq!(run(&mut wfc, &[1.0, 1.0]), None);
    let ranks: Vec2D<Rank> = Vec2D::new(1, 2, &Some(0));
    assert_eq!(wfc.observe(&ranks), Err(WaveError::Impossible));
    assert_eq!(wfc.to_output(), None);
}

#[test]
fn collapse_leaves_the_chosen_pattern_alone() {
    let mut wfc = WFC::new(false, [1; 16], 2, strangers(), 2, 2);
    let ranks: Vec2D<Rank> = Vec2D::from_vec(vec![Some(3), Some(1), Some(2), Some(3)], 2, 2);
    assert_eq!(wfc.observe(&ranks), Ok((0, 1)));
    assert_eq!(wfc.to_output(), None);
    wfc.collapse(0, 1, 1);
    for y in 0..2 {
        for x in 0..2 {
            assert_eq!(wfc.propagator().wave().cell(y, x).to_vec(), vec![false, true]);
        }
    }
    assert_eq!(wfc.observe(&ranks), Err(WaveError::Finished));
    assert_eq!(wfc.to_output(), Some(Vec2D::from_vec(vec![1, 1, 1, 1], 2, 2)));
}

#[test]
fn output_names_the_pattern_of_each_cell() {
    let table: Vec<DirArray<Vec<usize>>> = vec![DirArray::new(&vec![0, 1, 2]); 3];
    let mut wfc = WFC::new(true, [1; 16], 3, table, 2, 2);
    wfc.collapse(0, 0, 2);
    wfc.collapse(0, 1, 0);
    wfc.collapse(1, 0, 1);
    assert_eq!(wfc.to_output(), None);
    wfc.collapse(1, 1, 2);
    assert_eq!(wfc.to_output(), Some(Vec2D::from_vec(vec![2, 0, 1, 2], 2, 2)));
}
