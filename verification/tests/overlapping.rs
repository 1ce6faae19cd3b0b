use fast_wfc::direction::Direction;
use fast_wfc::overlapping_wfc::{
    get_ground_pattern, get_patterns, is_compatible, precompute_compatible, OverlappingWFC,
    OverlappingWFCOptions,
};
use fast_wfc::utils::vec2d::Vec2D;

#[test]
fn test_get_patterns() {
    // 0 1 2
    // 3 4 5
    // 6 7 8
    let input = vec![0, 1, 2, 3, 4, 5, 6, 7, 8];
    let input = Vec2D::from_vec(input, 3, 3);

    let patterns = get_patterns(&input, false, 2, 1);
    assert!(patterns
        .iter()
        .find(|(pattern, weight)| pattern.clone().into_vec() == vec![0, 1, 3, 4] && *weight == 1)
        .is_some());
    assert!(patterns
        .iter()
        .find(|(pattern, weight)| pattern.clone().into_vec() == vec![1, 2, 4, 5] && *weight == 1)
        .is_some());
    assert!(patterns
        .iter()
        .find(|(pattern, weight)| pattern.clone().into_vec() == vec![3, 4, 6, 7] && *weight == 1)
        .is_some());
    assert!(patterns
        .iter()
        .find(|(pattern, weight)| pattern.clone().into_vec() == vec![4, 5, 7, 8] && *weight == 1)
        .is_some());

    assert_eq!(patterns.len(), 4);
}

#[test]
fn test_get_patterns_overlapping() {
    // 0 1
    // 2 3
    let input = vec![0, 1, 2, 3];
    let input = Vec2D::from_vec(input, 2, 2);

    let patterns = get_patterns(&input, true, 2, 1);
    assert!(patterns
        .iter()
        .find(|(pattern, weight)| pattern.clone().into_vec() == vec![0, 1, 2, 3] && *weight == 1)
        .is_some());
    assert!(patterns
        .iter()
        .find(|(pattern, weight)| pattern.clone().into_vec() == vec![1, 0, 3, 2] && *weight == 1)
        .is_some());
    assert!(patterns
        .iter()
        .find(|(pattern, weight)| pattern.clone().into_vec() == vec![2, 3, 0, 1] && *weight == 1)
        .is_some());
    assert!(patterns
        .iter()
        .find(|(pattern, weight)| pattern.clone().into_vec() == vec![3, 2, 1, 0] && *weight == 1)
        .is_some());

    assert_eq!(patterns.len(), 4);
}

#[test]
fn test_get_patterns_symmetry_2() {
    // 0 1
    // 2 3
    let input = vec![0, 1, 2, 3];
    let input = Vec2D::from_vec(input, 2, 2);

    let patterns = get_patterns(&input, false, 2, 2);
    assert!(patterns
        .iter()
        .find(|(pattern, weight)| pattern.clone().into_vec() == vec![0, 1, 2, 3] && *weight == 1)
        .is_some());
    assert!(patterns
        .iter()
        .find(|(pattern, weight)| pattern.clone().into_vec() == vec![1, 0, 3, 2] && *weight == 1)
        .is_some());

    assert_eq!(patterns.len(), 2);
}

#[test]
fn test_get_patterns_multiple() {
    // 0 1 0
    // 1 0 1
    // 0 1 0
    let input = vec![0, 1, 0, 1, 0, 1, 0, 1, 0];
    let input = Vec2D::from_vec(input, 3, 3);

    let patterns = get_patterns(&input, false, 2, 1);
    assert!(patterns
        .iter()
        .find(|(pattern, weight)| pattern.clone().into_vec() == vec![0, 1, 1, 0] && *weight == 2)
        .is_some());
    assert!(patterns
        .iter()
        .find(|(pattern, weight)| pattern.clone().into_vec() == vec![1, 0, 0, 1] && *weight == 2)
        .is_some());

    assert_eq!(patterns.len(), 2);
}

#[test]
fn test_is_compatible_true() {
    // 1 2 3
    // 4 5 6
    // 7 8 9
    let pattern1 = vec![1, 2, 3, 4, 5, 6, 7, 8, 9];
    let pattern1 = Vec2D::from_vec(pattern1, 3, 3);

    // 2 3 0
    // 5 6 0
    // 8 9 0
    let pattern2 = vec![2, 3, 0, 5, 6, 0, 8, 9, 0];
    let pattern2 = Vec2D::from_vec(pattern2, 3, 3);

    assert!(is_compatible(&pattern1, &pattern2, Direction::Right))
}

#[test]
fn test_is_compatible_false() {
    // 1 2 3
    // 4 5 6
    // 7 8 9
    let pattern1 = vec![1, 2, 3, 4, 5, 6, 7, 8, 9];
    let pattern1 = Vec2D::from_vec(pattern1, 3, 3);

    // 2 3 0
    // 5 0 0
    // 8 9 0
    let pattern2 = vec![2, 3, 0, 5, 0, 0, 8, 9, 0];
    let pattern2 = Vec2D::from_vec(pattern2, 3, 3);

    assert!(!is_compatible(&pattern1, &pattern2, Direction::Right))
}

#[test]
fn patterns_come_in_the_order_in_which_they_are_first_met() {
    let input = Vec2D::from_vec(vec![0, 1, 2, 3, 4, 5, 6, 7, 8], 3, 3);
    let patterns = get_patterns(&input, false, 2, 1);
    let contents: Vec<Vec<i32>> = patterns.iter().map(|(p, _)| p.clone().into_vec()).collect();
    assert_eq!(
        contents,
        vec![vec![0, 1, 3, 4], vec![1, 2, 4, 5], vec![3, 4, 6, 7], vec![4, 5, 7, 8]]
    );
}

#[test]
fn symmetry_8_counts_every_image_of_a_window() {
    // 0 1
    // 2 3
    let input = Vec2D::from_vec(vec![0, 1, 2, 3], 2, 2);
    let patterns = get_patterns(&input, false, 2, 8);
    let contents: Vec<(Vec<i32>, usize)> =
        patterns.iter().map(|(p, w)| (p.clone().into_vec(), *w)).collect();
    assert_eq!(
        contents,
        vec![
            (vec![0, 1, 2, 3], 1),
            (vec![1, 0, 3, 2], 1),
            (vec![1, 3, 0, 2], 1),
            (vec![3, 1, 2, 0], 1),
            (vec![3, 2, 1, 0], 1),
            (vec![2, 3, 0, 1], 1),
            (vec![2, 0, 3, 1], 1),
            (vec![0, 2, 1, 3], 1),
        ]
    );
}

#[test]
fn symmetric_window_is_counted_once_for_each_image() {
    let input = Vec2D::from_vec(vec![5, 5, 5, 5], 2, 2);
    let patterns = get_patterns(&input, false, 2, 8);
    assert_eq!(patterns.len(), 1);
    assert_eq!(patterns[0].1, 8);
    let patterns = get_patterns(&input, true, 2, 4);
    assert_eq!(patterns.len(), 1);
    assert_eq!(patterns[0].1, 16);
    let patterns = get_patterns(&input, true, 1, 3);
    assert_eq!(patterns.len(), 1);
    assert_eq!(patterns[0].1, 16);
}

#[test]
fn is_compatible_in_each_direction() {
    // 1 2
    // 3 4
    let a = Vec2D::from_vec(vec![1, 2, 3, 4], 2, 2);
    // right neighbour: its left column is the right column of a
    let right = Vec2D::from_vec(vec![2, 9, 4, 9], 2, 2);
    // left neighbour: its right column is the left column of a
    let left = Vec2D::from_vec(vec![9, 1, 9, 3], 2, 2);
    // neighbour in direction Up (row + 1): its top row is the bottom row of a
    let up = Vec2D::from_vec(vec![3, 4, 9, 9], 2, 2);
    // neighbour in direction Down (row - 1): its bottom row is the top row of a
    let down = Vec2D::from_vec(vec![9, 9, 1, 2], 2, 2);
    // The cell (y, x) of a is compared with the cell (y - dy, x - dx) of the other.
    assert!(is_compatible(&a, &right, Direction::Right));
    assert!(is_compatible(&a, &left, Direction::Left));
    assert!(is_compatible(&a, &up, Direction::Up));
    assert!(is_compatible(&a, &down, Direction::Down));
    assert!(!is_compatible(&a, &left, Direction::Right));
    assert!(!is_compatible(&a, &right, Direction::Left));
    assert!(!is_compatible(&a, &down, Direction::Up));
    assert!(!is_compatible(&a, &up, Direction::Down));
}

#[test]
fn patterns_of_side_one_are_compatible_with_everything() {
    let a = Vec2D::from_vec(vec![1], 1, 1);
    let b = Vec2D::from_vec(vec![2], 1, 1);
    for d in Direction::directions() {
        assert!(is_compatible(&a, &b, d));
    }
}

#[test]
fn compatibility_table_is_sorted_and_symmetric() {
    let input = Vec2D::from_vec(vec![0, 1, 0, 2, 1, 0, 1, 1, 2, 0, 1, 0, 0, 2, 2, 1], 4, 4);
    let patterns: Vec<Vec2D<i32>> =
        get_patterns(&input, true, 2, 2).into_iter().map(|(p, _)| p).collect();
    let table = precompute_compatible(&patterns);
    assert_eq!(table.len(), patterns.len());
    let mut some_pair = false;
    for p in 0..patterns.len() {
        for d in Direction::directions() {
            let list = &table[p][d];
            for k in 1..list.len() {
                assert!(list[k - 1] < list[k]);
            }
            for q in 0..patterns.len() {
                let listed = list.contains(&q);
                assert_eq!(listed, is_compatible(&patterns[p], &patterns[q], d));
                assert_eq!(listed, table[q][d.opposite()].contains(&p));
                some_pair = some_pair || listed;
            }
        }
    }
    assert!(some_pair);
}

#[test]
fn compatibility_table_of_the_checkerboard() {
    let input = Vec2D::from_vec(vec![0, 1, 0, 1, 0, 1, 0, 1, 0], 3, 3);
    let patterns: Vec<Vec2D<i32>> =
        get_patterns(&input, false, 2, 1).into_iter().map(|(p, _)| p).collect();
    assert_eq!(patterns[0], Vec2D::from_vec(vec![0, 1, 1, 0], 2, 2));
    assert_eq!(patterns[1], Vec2D::from_vec(vec![1, 0, 0, 1], 2, 2));
    let table = precompute_compatible(&patterns);
    for d in Direction::directions() {
        assert_eq!(table[0][d], vec![1]);
        assert_eq!(table[1][d], vec![0]);
    }
}

fn options(periodic_input: bool, periodic_output: bool, ground: bool) -> OverlappingWFCOptions {
    OverlappingWFCOptions {
        periodic_input,
        periodic_output,
        out_height: 4,
        out_width: 5,
        symmetry: 1,
        pattern_size: 2,
        ground,
    }
}

#[test]
fn ground_pattern_is_the_middle_of_the_bottom() {
    // 0 1 2 3
    // 4 5 6 7
    // 8 9 10 11
    let input = Vec2D::from_vec((0..12).collect(), 3, 4);
    let ground = get_ground_pattern(&input, &options(false, false, true));
    assert_eq!(ground, Vec2D::from_vec(vec![5, 6, 9, 10], 2, 2));
    let ground = get_ground_pattern(&input, &options(true, false, true));
    assert_eq!(ground, Vec2D::from_vec(vec![9, 10, 1, 2], 2, 2));
}

#[test]
fn ground_is_pinned_to_the_bottom_row() {
    // 0 0 0 0
    // 0 0 0 0
    // 0 0 0 0
    // 1 1 1 1
    let input = Vec2D::from_vec(vec![0, 0, 0, 0, 0, 0, 0, 0, 0, 0, 0, 0, 1, 1, 1, 1], 4, 4);
    let mut wfc = OverlappingWFC::new(input, options(false, false, true), [1; 16]);
    let ground = Vec2D::from_vec(vec![0, 0, 1, 1], 2, 2);
    let ground_id = wfc.patterns().iter().position(|p| *p == ground).unwrap();
    let n = wfc.patterns().len();
    assert_eq!(n, 2);
    let propagator = wfc.wfc().propagator();
    let wave = propagator.wave();
    assert_eq!(wave.height(), 4);
    assert_eq!(wave.width(), 5);
    for j in 0..5 {
        for p in 0..n {
            assert_eq!(wave.get(3, j, p), p == ground_id);
        }
        for i in 0..3 {
            assert!(!wave.get(i, j, ground_id));
        }
    }
}

#[test]
fn without_ground_every_pattern_can_be_placed_everywhere() {
    let input = Vec2D::from_vec(vec![0, 0, 0, 0, 0, 0, 0, 0, 0, 0, 0, 0, 1, 1, 1, 1], 4, 4);
    let mut wfc = OverlappingWFC::new(input, options(false, true, false), [1; 16]);
    assert_eq!(wfc.weights().clone(), vec![6, 3]);
    assert!(wfc.wfc().propagator().is_toric());
    let propagator = wfc.wfc().propagator();
    for i in 0..4 {
        for j in 0..5 {
            assert_eq!(propagator.wave().n_patterns(i, j), 2);
        }
    }
}

#[test]
fn image_of_a_periodic_output_reads_the_corner_of_each_pattern() {
    // patterns: [[0,1],[1,0]] and [[1,0],[0,1]]
    let input = Vec2D::from_vec(vec![0, 1, 0, 1, 0, 1, 0, 1, 0], 3, 3);
    let wfc = OverlappingWFC::new(input, options(false, true, false), [1; 16]);
    let ids = Vec2D::from_generator(4, 5, |i, j| (i + j) % 2);
    let image = wfc.to_image(&ids);
    assert_eq!(image, Vec2D::from_generator(4, 5, |i, j| ((i + j) % 2) as i32));
}

#[test]
fn image_of_another_output_reads_the_border_from_the_last_offset() {
    // 0 1 2
    // 3 4 5
    // 6 7 8
    let input = Vec2D::from_vec((0..9).collect(), 3, 3);
    let wfc = OverlappingWFC::new(input, options(false, false, false), [1; 16]);
    // pattern 0: 0 1 / 3 4, pattern 1: 1 2 / 4 5, pattern 2: 3 4 / 6 7, pattern 3: 4 5 / 7 8
    let ids = Vec2D::from_vec(
        vec![0, 1, 2, 3, 0, 1, 2, 3, 0, 1, 2, 3, 0, 1, 2, 3, 0, 1, 2, 3],
        4,
        5,
    );
    let image = wfc.to_image(&ids);
    // Row or column i below 2 reads the pattern at i at offset 0; after that
    // it reads the pattern at i - 1 at offset 1.
    assert_eq!(
        image.into_vec(),
        vec![0, 1, 2, 4, 5, 1, 3, 4, 5, 1, 4, 6, 7, 8, 4, 6, 7, 8, 4, 5]
    );
}
