use fast_wfc::utils::vec2d::Vec2D;
use fast_wfc::wave::{Lead, Rank, Wave, WaveError};
use rand::SeedableRng;
use rand_xorshift::XorShiftRng;

fn rng() -> XorShiftRng {
    XorShiftRng::from_seed([1; 16])
}

#[test]
fn new_wave_allows_every_pattern_everywhere() {
    let wave = Wave::new(2, 3, 4);
    assert_eq!(wave.height(), 2);
    assert_eq!(wave.width(), 3);
    assert_eq!(wave.patterns(), 4);
    for i in 0..2 {
        for j in 0..3 {
            assert_eq!(wave.n_patterns(i, j), 4);
            assert_eq!(wave.cell(i, j).to_vec(), vec![true; 4]);
            for p in 0..4 {
                assert!(wave.get(i, j, p));
            }
        }
    }
}

#[test]
fn unset_removes_one_pattern_once() {
    let mut wave = Wave::new(2, 3, 4);
    wave.unset(1, 2, 3);
    assert!(!wave.get(1, 2, 3));
    assert_eq!(wave.n_patterns(1, 2), 3);
    wave.unset(1, 2, 3);
    assert_eq!(wave.n_patterns(1, 2), 3);
    wave.unset(1, 2, 0);
    assert_eq!(wave.cell(1, 2).to_vec(), vec![false, true, true, false]);
    assert_eq!(wave.n_patterns(1, 2), 2);
    // every other cell is as it was
    for i in 0..2 {
        for j in 0..3 {
            if (i, j) != (1, 2) {
                assert_eq!(wave.n_patterns(i, j), 4);
            }
        }
    }
}

#[test]
fn journal_lists_the_removals_in_their_order() {
    let mut wave = Wave::new(2, 2, 3);
    wave.unset(1, 0, 2);
    wave.unset(0, 1, 1);
    wave.unset(1, 0, 2);
    wave.unset(1, 0, 0);
    assert_eq!(wave.take_journal(), vec![(1, 0, 2), (0, 1, 1), (1, 0, 0)]);
    assert_eq!(wave.take_journal(), vec![]);
    assert!(!wave.get(1, 0, 2));
    wave.unset(0, 0, 0);
    assert_eq!(wave.take_journal(), vec![(0, 0, 0)]);
}

#[test]
fn reset_allows_everything_again() {
    let mut wave = Wave::new(2, 2, 3);
    wave.unset(1, 0, 2);
    wave.unset(0, 1, 1);
    wave.reset();
    for i in 0..2 {
        for j in 0..2 {
            assert_eq!(wave.n_patterns(i, j), 3);
            assert_eq!(wave.cell(i, j).to_vec(), vec![true; 3]);
        }
    }
    assert_eq!(wave.take_journal(), vec![]);
}

#[test]
fn number_of_patterns_is_the_number_of_allowed_ones() {
    let mut wave = Wave::new(3, 3, 5);
    let bans = [(0, 0, 1), (0, 0, 3), (2, 1, 4), (2, 1, 4), (1, 1, 0), (0, 0, 0)];
    for (i, j, p) in bans {
        wave.unset(i, j, p);
        for y in 0..3 {
            for x in 0..3 {
                let allowed = (0..5).filter(|q| wave.get(y, x, *q)).count();
                assert_eq!(wave.n_patterns(y, x), allowed);
            }
        }
    }
    assert_eq!(wave.n_patterns(0, 0), 2);
}

#[test]
fn a_cell_without_patterns_makes_the_wave_impossible() {
    let mut wave = Wave::new(2, 2, 2);
    wave.unset(1, 1, 0);
    wave.unset(1, 1, 1);
    let ranks: Vec2D<Rank> = Vec2D::new(2, 2, &Some(5));
    assert_eq!(wave.get_min_entropy(&ranks, &mut rng()), Err(WaveError::Impossible));
}

#[test]
fn a_decided_wave_is_finished() {
    let mut wave = Wave::new(2, 2, 2);
    for i in 0..2 {
        for j in 0..2 {
            wave.unset(i, j, (i + j) % 2);
        }
    }
    let ranks: Vec2D<Rank> = Vec2D::new(2, 2, &Some(5));
    assert_eq!(wave.get_min_entropy(&ranks, &mut rng()), Err(WaveError::Finished));
}

#[test]
fn the_cell_of_the_smallest_rank_is_selected() {
    let mut wave = Wave::new(2, 3, 3);
    // the cell of the smallest rank of all is decided and does not count
    wave.unset(0, 0, 0);
    wave.unset(0, 0, 1);
    let ranks: Vec2D<Rank> =
        Vec2D::from_vec(vec![Some(0), Some(9), Some(7), None, Some(4), Some(8)], 2, 3);
    assert_eq!(wave.get_min_entropy(&ranks, &mut rng()), Ok((1, 1)));
}

#[test]
fn cells_of_one_rank_are_chosen_among() {
    let wave = Wave::new(1, 4, 2);
    let ranks: Vec2D<Rank> = Vec2D::from_vec(vec![Some(9), Some(3), Some(3), Some(3)], 1, 4);
    let mut generator = rng();
    let mut seen = [false; 4];
    for _ in 0..200 {
        match wave.get_min_entropy(&ranks, &mut generator) {
            Ok((0, x)) => seen[x] = true,
            other => panic!("{:?}", other),
        }
    }
    assert_eq!(seen, [false, true, true, true]);
}

#[test]
fn cells_without_rank_are_never_selected() {
    let wave = Wave::new(2, 2, 3);
    let ranks: Vec2D<Rank> = Vec2D::new(2, 2, &None);
    assert_eq!(wave.get_min_entropy(&ranks, &mut rng()), Err(WaveError::Finished));
}

#[test]
fn lead_goes_to_the_smaller_rank_and_then_to_the_smaller_draw() {
    let start = Lead::start();
    assert_eq!(start.rank, u32::MAX);
    assert_eq!(start.draw, i32::MAX);
    assert_eq!(start.cell, None);
    let first = start.challenge(1, 2, 10, 50);
    assert_eq!((first.rank, first.draw, first.cell), (10, 50, Some((1, 2))));
    let worse = first.challenge(0, 0, 11, -5);
    assert_eq!((worse.rank, worse.draw, worse.cell), (10, 50, Some((1, 2))));
    let tie_lost = first.challenge(0, 0, 10, 50);
    assert_eq!(tie_lost.cell, Some((1, 2)));
    let tie_won = first.challenge(0, 0, 10, 49);
    assert_eq!((tie_won.rank, tie_won.draw, tie_won.cell), (10, 49, Some((0, 0))));
    let better = tie_won.challenge(3, 3, 2, i32::MAX);
    assert_eq!((better.rank, better.draw, better.cell), (2, i32::MAX, Some((3, 3))));
    // the largest rank wins against the start with a draw below the largest only
    assert_eq!(start.challenge(0, 0, u32::MAX, i32::MAX).cell, None);
    assert_eq!(start.challenge(0, 0, u32::MAX, i32::MAX - 1).cell, Some((0, 0)));
}

#[test]
fn a_cell_is_read_by_its_row_and_column() {
    let mut wave = Wave::new(2, 2, 3);
    wave.unset(0, 1, 1);
    assert_eq!(wave[(0, 1)].to_vec(), vec![true, false, true]);
    assert_eq!(wave[(1, 0)].to_vec(), vec![true, true, true]);
}
