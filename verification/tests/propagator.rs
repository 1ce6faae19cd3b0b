use fast_wfc::direction::{DirArray, Direction};
use fast_wfc::propagator::Propagator;

/// Two patterns, each of which can stand next to the other only.
fn checkerboard() -> Vec<DirArray<Vec<usize>>> {
    vec![DirArray::new(&vec![1]), DirArray::new(&vec![0])]
}

/// Two patterns that alternate along a row and stay the same along a column.
fn stripes() -> Vec<DirArray<Vec<usize>>> {
    vec![
        DirArray::from_values(vec![0], vec![1], vec![1], vec![0]),
        DirArray::from_values(vec![1], vec![0], vec![0], vec![1]),
    ]
}

/// Three patterns in a ring: in direction Right and Up pattern p is followed
/// by p + 1, in direction Left and Down by p - 1; pattern 0 can also stand
/// next to itself in every direction.
fn ring() -> Vec<DirArray<Vec<usize>>> {
    (0..3usize)
        .map(|p| {
            let next = (p + 1) % 3;
            let previous = (p + 2) % 3;
            let with_self = |q: usize| {
                let mut list = if p == 0 { vec![0, q] } else { vec![q] };
                list.sort();
                list.dedup();
                list
            };
            DirArray::from_values(
                with_self(previous),
                with_self(previous),
                with_self(next),
                with_self(next),
            )
        })
        .collect()
}

fn neighbor(
    height: usize,
    width: usize,
    toric: bool,
    y: usize,
    x: usize,
    d: Direction,
) -> Option<(usize, usize)> {
    let (dy, dx) = d.get_coordinates();
    let (ny, nx) = (y as isize + dy, x as isize + dx);
    if toric {
        Some((
            ((ny + height as isize) % height as isize) as usize,
            ((nx + width as isize) % width as isize) as usize,
        ))
    } else if ny < 0 || nx < 0 || ny >= height as isize || nx >= width as isize {
        None
    } else {
        Some((ny as usize, nx as usize))
    }
}

/// Every counter of a pattern that can be placed holds the number of the
/// patterns that can be placed in the cell behind it and that the table lists.
fn assert_counters_count(propagator: &Propagator, table: &[DirArray<Vec<usize>>]) {
    let wave = propagator.wave();
    let (height, width) = (wave.height(), wave.width());
    for y in 0..height {
        for x in 0..width {
            for p in 0..wave.patterns() {
                if !wave.get(y, x, p) {
                    continue;
                }
                for d in Direction::directions() {
                    let list = &table[p][d.opposite()];
                    let expected =
                        match neighbor(height, width, propagator.is_toric(), y, x, d.opposite()) {
                            Some((sy, sx)) => list.iter().filter(|q| wave.get(sy, sx, **q)).count(),
                            None => list.len(),
                        };
                    assert_eq!(propagator.supporters(y, x, p, d), expected);
                }
            }
        }
    }
}

/// Every pattern that can be placed finds a pattern of its list in each
/// neighbour.
fn assert_arc_consistent(propagator: &Propagator, table: &[DirArray<Vec<usize>>]) {
    let wave = propagator.wave();
    let (height, width) = (wave.height(), wave.width());
    for y in 0..height {
        for x in 0..width {
            for p in 0..wave.patterns() {
                for d in Direction::directions() {
                    if !wave.get(y, x, p) || table[p][d].is_empty() {
                        continue;
                    }
                    if let Some((ny, nx)) = neighbor(height, width, propagator.is_toric(), y, x, d) {
                        assert!(table[p][d].iter().any(|q| wave.get(ny, nx, *q)));
                    }
                }
            }
        }
    }
}

#[test]
fn counters_start_with_the_length_of_the_opposite_list() {
    let table: Vec<DirArray<Vec<usize>>> = vec![
        DirArray::from_values(vec![0, 1], vec![], vec![1], vec![0]),
        DirArray::from_values(vec![0], vec![0], vec![], vec![0, 1]),
    ];
    let propagator = Propagator::new(2, 2, 2, table, false);
    assert_eq!(propagator.supporters(1, 1, 0, Direction::Down), 1);
    assert_eq!(propagator.supporters(1, 1, 0, Direction::Up), 2);
    assert_eq!(propagator.supporters(1, 1, 0, Direction::Left), 1);
    assert_eq!(propagator.supporters(1, 1, 0, Direction::Right), 0);
    assert_eq!(propagator.supporters(0, 1, 1, Direction::Down), 2);
    assert_eq!(propagator.supporters(0, 1, 1, Direction::Up), 1);
    assert_eq!(propagator.supporters(0, 1, 1, Direction::Left), 0);
    assert_eq!(propagator.supporters(0, 1, 1, Direction::Right), 1);
    assert!(!propagator.is_toric());
}

#[test]
fn a_removal_is_propagated_along_a_row() {
    let mut propagator = Propagator::new(1, 4, 2, checkerboard(), false);
    propagator.unset(0, 0, 0);
    let wave = propagator.wave();
    assert_eq!(wave.cell(0, 0).to_vec(), vec![false, true]);
    assert_eq!(wave.cell(0, 1).to_vec(), vec![true, false]);
    assert_eq!(wave.cell(0, 2).to_vec(), vec![false, true]);
    assert_eq!(wave.cell(0, 3).to_vec(), vec![true, false]);
    assert_eq!(
        propagator.take_journal(),
        vec![(0, 0, 0), (0, 1, 1), (0, 2, 0), (0, 3, 1)]
    );
    assert_eq!(propagator.take_journal(), vec![]);
}

#[test]
fn removing_a_removed_pattern_changes_nothing() {
    let mut propagator = Propagator::new(2, 2, 3, ring(), true);
    propagator.unset(0, 0, 1);
    let journal = propagator.take_journal();
    assert!(journal.len() >= 1);
    assert_eq!(journal[0], (0, 0, 1));
    let before: Vec<Vec<bool>> =
        (0..4).map(|c| propagator.wave().cell(c / 2, c % 2).to_vec()).collect();
    propagator.unset(0, 0, 1);
    let after: Vec<Vec<bool>> =
        (0..4).map(|c| propagator.wave().cell(c / 2, c % 2).to_vec()).collect();
    assert_eq!(before, after);
    assert_eq!(propagator.take_journal(), vec![]);
}

#[test]
fn removals_only_shrink_the_wave_and_are_all_in_the_journal() {
    let table = ring();
    let mut propagator = Propagator::new(3, 3, 3, table, false);
    let bans = [(1, 1, 0), (0, 2, 1), (2, 0, 2), (1, 1, 1)];
    for (y, x, p) in bans {
        let mut before = vec![];
        for c in 0..9 {
            before.push(propagator.wave().cell(c / 3, c % 3).to_vec());
        }
        propagator.unset(y, x, p);
        assert!(!propagator.wave().get(y, x, p));
        let journal = propagator.take_journal();
        for c in 0..9 {
            for q in 0..3 {
                let now = propagator.wave().get(c / 3, c % 3, q);
                assert!(!now || before[c][q]);
                let listed = journal.iter().filter(|ban| **ban == (c / 3, c % 3, q)).count();
                assert_eq!(listed, if before[c][q] && !now { 1 } else { 0 });
            }
        }
    }
}

#[test]
fn counters_count_after_every_removal() {
    for toric in [false, true] {
        let table = ring();
        let mut propagator = Propagator::new(3, 4, 3, table.clone(), toric);
        assert_counters_count(&propagator, &table);
        assert_arc_consistent(&propagator, &table);
        for (y, x, p) in [(1, 1, 0), (0, 3, 1), (2, 0, 2), (1, 2, 0), (2, 3, 1)] {
            propagator.unset(y, x, p);
            assert_counters_count(&propagator, &table);
            assert_arc_consistent(&propagator, &table);
        }
    }
}

#[test]
fn counters_count_on_grids_that_wrap_onto_themselves() {
    for (height, width) in [(1, 1), (1, 2), (2, 1), (2, 2), (1, 3)] {
        let table = ring();
        let mut propagator = Propagator::new(height, width, 3, table.clone(), true);
        propagator.unset(0, 0, 1);
        assert_counters_count(&propagator, &table);
        assert_arc_consistent(&propagator, &table);
        propagator.unset(height - 1, width - 1, 2);
        assert_counters_count(&propagator, &table);
        assert_arc_consistent(&propagator, &table);
    }
}

#[test]
fn a_toric_grid_wraps_around() {
    let mut propagator = Propagator::new(1, 4, 2, stripes(), true);
    propagator.unset(0, 3, 1);
    let wave = propagator.wave();
    assert_eq!(wave.cell(0, 3).to_vec(), vec![true, false]);
    assert_eq!(wave.cell(0, 0).to_vec(), vec![false, true]);
    assert_eq!(wave.cell(0, 1).to_vec(), vec![true, false]);
    assert_eq!(wave.cell(0, 2).to_vec(), vec![false, true]);
}

#[test]
fn an_odd_toric_ring_of_stripes_has_no_solution() {
    let mut propagator = Propagator::new(1, 3, 2, stripes(), true);
    propagator.unset(0, 0, 0);
    let empty = (0..3).filter(|x| propagator.wave().n_patterns(0, *x) == 0).count();
    assert!(empty >= 1);
}

#[test]
fn a_pattern_without_neighbours_in_the_table_is_not_removed_at_the_start() {
    let table: Vec<DirArray<Vec<usize>>> =
        vec![DirArray::new(&vec![0]), DirArray::new(&vec![])];
    let mut propagator = Propagator::new(2, 2, 2, table, false);
    assert!(propagator.wave().get(0, 0, 1));
    assert_eq!(propagator.supporters(0, 0, 1, Direction::Up), 0);
    propagator.unset(0, 0, 0);
    // pattern 0 loses its supporter in the neighbours of (0, 0)
    assert_eq!(propagator.wave().cell(0, 0).to_vec(), vec![false, true]);
    assert_eq!(propagator.wave().cell(0, 1).to_vec(), vec![false, true]);
    assert_eq!(propagator.wave().cell(1, 0).to_vec(), vec![false, true]);
    assert_eq!(propagator.wave().cell(1, 1).to_vec(), vec![false, true]);
}

#[test]
fn reset_restores_wave_and_counters() {
    let table = ring();
    let mut propagator = Propagator::new(2, 3, 3, table.clone(), true);
    propagator.unset(0, 0, 0);
    propagator.unset(1, 2, 1);
    propagator.reset();
    for y in 0..2 {
        for x in 0..3 {
            assert_eq!(propagator.wave().n_patterns(y, x), 3);
            for p in 0..3 {
                for d in Direction::directions() {
                    assert_eq!(propagator.supporters(y, x, p, d), table[p][d.opposite()].len());
                }
            }
        }
    }
    assert_eq!(propagator.take_journal(), vec![]);
    assert_eq!(*propagator.patterns_compatibility(), table);
}

#[test]
fn the_order_of_removals_does_not_matter() {
    let bans = [(1, 1, 1), (0, 3, 2), (2, 0, 2), (1, 2, 1)];
    let orders: [[usize; 4]; 4] = [[0, 1, 2, 3], [3, 2, 1, 0], [2, 0, 3, 1], [1, 3, 0, 2]];
    for toric in [false, true] {
        let mut waves = vec![];
        for order in orders {
            let mut propagator = Propagator::new(3, 4, 3, ring(), toric);
            for k in order {
                let (y, x, p) = bans[k];
                propagator.unset(y, x, p);
            }
            let wave: Vec<Vec<bool>> =
                (0..12).map(|c| propagator.wave().cell(c / 4, c % 4).to_vec()).collect();
            waves.push(wave);
        }
        assert_eq!(waves[0], waves[1]);
        assert_eq!(waves[0], waves[2]);
        assert_eq!(waves[0], waves[3]);
        assert!(waves[0].iter().any(|cell| cell.iter().any(|b| *b)));
        assert!(waves[0].iter().any(|cell| cell.iter().any(|b| !*b)));
    }
}

#[test]
fn every_removal_but_the_one_asked_for_is_forced() {
    let table = ring();
    let mut propagator = Propagator::new(2, 3, 3, table.clone(), false);
    propagator.unset(0, 0, 0);
    propagator.take_journal();
    let mut before = vec![];
    for c in 0..6 {
        before.push(propagator.wave().cell(c / 3, c % 3).to_vec());
    }
    propagator.unset(1, 1, 0);
    let journal = propagator.take_journal();
    assert_eq!(journal[0], (1, 1, 0));
    for k in 1..journal.len() {
        let (y, x, p) = journal[k];
        // in some direction, every pattern of the list was gone from the cell
        // behind or is removed earlier in the journal, and one of them is
        let forced = Direction::directions().into_iter().any(|d| {
            match neighbor(2, 3, false, y, x, d.opposite()) {
                None => false,
                Some((sy, sx)) => {
                    let list = &table[p][d.opposite()];
                    let earlier = |q: &usize| journal[..k].contains(&(sy, sx, *q));
                    list.iter().all(|q| !before[sy * 3 + sx][*q] || earlier(q))
                        && list.iter().any(earlier)
                }
            }
        });
        assert!(forced);
    }
}
