use fast_wfc::utils::vec2d::Vec2D;
use std::ops::{Index, IndexMut};

#[test]
fn test_get_mut() {
    let mut vec = Vec2D::from_vec(vec![0, 1, 2, 3, 4, 5], 2, 3);
    assert_eq!(vec.index_mut(1)[2], 5);
}

#[test]
fn vec2d_test_get() {
    let vec = Vec2D::from_vec(vec![0, 1, 2, 3, 4, 5], 2, 3);
    assert_eq!(vec.index(1)[2], 5);
}

#[test]
fn test_reflected() {
    let vec = Vec2D::from_vec(vec![0, 1, 2, 3, 4, 5], 2, 3);
    let vec_result = Vec2D::from_vec(vec![2, 1, 0, 5, 4, 3], 2, 3);
    assert_eq!(vec.reflected(), vec_result);
}

#[test]
fn test_reflected_empty() {
    let vec = Vec2D::<usize>::from_vec(vec![], 0, 1);
    let vec_result = Vec2D::<usize>::from_vec(vec![], 0, 1);
    assert_eq!(vec.reflected(), vec_result);
    let vec = Vec2D::<usize>::from_vec(vec![], 1, 0);
    let vec_result = Vec2D::<usize>::from_vec(vec![], 1, 0);
    assert_eq!(vec.reflected(), vec_result);
    let vec = Vec2D::<usize>::from_vec(vec![], 0, 0);
    let vec_result = Vec2D::<usize>::from_vec(vec![], 0, 0);
    assert_eq!(vec.reflected(), vec_result);
}

#[test]
fn test_rotated() {
    let vec = Vec2D::from_vec(vec![0, 1, 2, 3, 4, 5], 2, 3);
    let vec_result = Vec2D::from_vec(vec![2, 5, 1, 4, 0, 3], 3, 2);
    assert_eq!(vec.rotated(), vec_result);
}

#[test]
fn test_rotated_empty() {
    let vec = Vec2D::<usize>::from_vec(vec![], 0, 1);
    let vec_result = Vec2D::<usize>::from_vec(vec![], 1, 0);
    assert_eq!(vec.rotated(), vec_result);
    let vec = Vec2D::<usize>::from_vec(vec![], 1, 0);
    let vec_result = Vec2D::<usize>::from_vec(vec![], 0, 1);
    assert_eq!(vec.rotated(), vec_result);
    let vec = Vec2D::<usize>::from_vec(vec![], 0, 0);
    let vec_result = Vec2D::<usize>::from_vec(vec![], 0, 0);
    assert_eq!(vec.rotated(), vec_result);
}

#[test]
fn writing_through_a_row_changes_that_cell_only() {
    let mut vec = Vec2D::from_vec(vec![0, 1, 2, 3, 4, 5], 2, 3);
    vec.index_mut(1)[2] = 9;
    vec[0][1] = 7;
    assert_eq!(vec.into_vec(), vec![0, 7, 2, 3, 4, 9]);
}

#[test]
fn row_mut_hands_out_the_row_asked_for() {
    let mut vec = Vec2D::from_vec(vec![0, 1, 2, 3, 4, 5, 6, 7], 4, 2);
    assert_eq!(vec.row_mut(2).to_vec(), vec![4, 5]);
    assert_eq!(vec.row(3).to_vec(), vec![6, 7]);
}

#[test]
fn new_fills_with_the_value() {
    let vec = Vec2D::new(2, 3, &8);
    assert_eq!(vec.height(), 2);
    assert_eq!(vec.width(), 3);
    assert_eq!(vec.into_vec(), vec![8; 6]);
}

#[test]
fn from_generator_calls_every_cell_in_row_order() {
    let vec = Vec2D::from_generator(2, 3, |i, j| 10 * i + j);
    assert_eq!(vec.into_vec(), vec![0, 1, 2, 10, 11, 12]);
}

#[test]
fn get_and_set_address_one_cell() {
    let mut vec = Vec2D::from_vec(vec![0, 1, 2, 3, 4, 5], 2, 3);
    assert_eq!(*vec.get(1, 0), 3);
    vec.set(1, 0, 30);
    assert_eq!(vec.into_vec(), vec![0, 1, 2, 30, 4, 5]);
}

#[test]
fn iter_goes_through_the_cells_line_after_line() {
    let vec = Vec2D::from_vec(vec![0, 1, 2, 3, 4, 5], 3, 2);
    let seen: Vec<i32> = vec.iter().map(|x| *x).collect();
    assert_eq!(seen, vec![0, 1, 2, 3, 4, 5]);
}

#[test]
fn sub_vec_wraps_around_both_axes() {
    // 0 1 2
    // 3 4 5
    // 6 7 8
    let vec = Vec2D::from_vec(vec![0, 1, 2, 3, 4, 5, 6, 7, 8], 3, 3);
    assert_eq!(vec.get_sub_vec(0, 0, 2, 2), Vec2D::from_vec(vec![0, 1, 3, 4], 2, 2));
    assert_eq!(vec.get_sub_vec(2, 2, 2, 2), Vec2D::from_vec(vec![8, 6, 2, 0], 2, 2));
    assert_eq!(vec.get_sub_vec(1, 2, 1, 3), Vec2D::from_vec(vec![5, 3, 4], 1, 3));
    assert_eq!(vec.get_sub_vec(5, 7, 1, 1), Vec2D::from_vec(vec![7], 1, 1));
}

#[test]
fn sub_vec_of_an_empty_matrix_is_that_matrix() {
    let vec = Vec2D::<usize>::from_vec(vec![], 0, 3);
    assert_eq!(vec.get_sub_vec(0, 0, 0, 2), Vec2D::<usize>::from_vec(vec![], 0, 3));
}

#[test]
fn reflecting_twice_gives_the_matrix_back() {
    let vec = Vec2D::from_vec(vec![0, 1, 2, 3, 4, 5], 2, 3);
    assert_eq!(vec.reflected().reflected(), vec);
}

#[test]
fn rotating_four_times_gives_the_matrix_back() {
    let vec = Vec2D::from_vec(vec![0, 1, 2, 3, 4, 5], 2, 3);
    assert_eq!(vec.rotated().rotated().rotated().rotated(), vec);
    assert_ne!(vec.rotated().rotated(), vec);
}

#[test]
fn reflecting_a_turn_turns_the_mirror_image_back() {
    let vec = Vec2D::from_vec(vec![0, 1, 2, 3, 4, 5], 2, 3);
    let left = vec.rotated().reflected();
    let right = vec.reflected().rotated().rotated().rotated();
    assert_eq!(left, right);
    assert_eq!(left, Vec2D::from_vec(vec![5, 2, 4, 1, 3, 0], 3, 2));
}

#[test]
fn matrices_of_different_shape_are_different() {
    let a = Vec2D::from_vec(vec![0, 1, 2, 3, 4, 5], 2, 3);
    let b = Vec2D::from_vec(vec![0, 1, 2, 3, 4, 5], 3, 2);
    assert_ne!(a, b);
    assert_eq!(a.clone(), a);
}

#[test]
fn iter_mut_writes_into_the_cells() {
    let mut vec = Vec2D::from_vec(vec![0, 1, 2, 3, 4, 5], 2, 3);
    for cell in vec.iter_mut() {
        *cell += 10;
    }
    for cell in &mut vec {
        *cell *= 2;
    }
    let mut sum = 0;
    for cell in &vec {
        sum += *cell;
    }
    assert_eq!(sum, 150);
    assert_eq!(vec.height(), 2);
    assert_eq!(vec.width(), 3);
    assert_eq!(vec.into_vec(), vec![20, 22, 24, 26, 28, 30]);
}
