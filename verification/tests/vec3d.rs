use fast_wfc::utils::vec3d::Vec3D;

#[test]
fn vec3d_test_get() {
    let vec = Vec3D::from_vec(vec![0, 1, 2, 3, 4, 5, 6, 7, 8, 9, 10, 11], 2, 3, 2);
    assert_eq!(*vec.get(0, 2, 1), 5);
    assert_eq!(*vec.get(1, 0, 1), 7);
}

#[test]
fn vec3d_test_index() {
    let vec = Vec3D::from_vec(vec![0, 1, 2, 3, 4, 5, 6, 7, 8, 9, 10, 11], 2, 3, 2);
    assert_eq!(vec[(0, 2)][1], 5);
    assert_eq!(vec[(1, 0)][1], 7);
}

#[test]
fn vec3d_get_mut_writes_one_cell() {
    let mut vec = Vec3D::from_vec(vec![0, 1, 2, 3, 4, 5, 6, 7, 8, 9, 10, 11], 2, 3, 2);
    *vec.get_mut(1, 1, 0) = 80;
    assert_eq!(vec.into_vec(), vec![0, 1, 2, 3, 4, 5, 6, 7, 80, 9, 10, 11]);
}

#[test]
fn vec3d_row_mut_writes_into_its_row() {
    let mut vec = Vec3D::from_vec(vec![0, 1, 2, 3, 4, 5, 6, 7, 8, 9, 10, 11], 2, 3, 2);
    vec[(1, 2)][0] = 100;
    vec.row_mut(0, 1)[1] = 30;
    assert_eq!(vec.row(1, 2).to_vec(), vec![100, 11]);
    assert_eq!(vec.into_vec(), vec![0, 1, 2, 30, 4, 5, 6, 7, 8, 9, 100, 11]);
}

#[test]
fn vec3d_new_and_shape() {
    let vec = Vec3D::new(2, 3, 4, &true);
    assert_eq!(vec.depth(), 2);
    assert_eq!(vec.height(), 3);
    assert_eq!(vec.width(), 4);
    assert_eq!(vec.into_vec(), vec![true; 24]);
}

#[test]
fn vec3d_new_generator_calls_every_cell_in_order() {
    let vec = Vec3D::new_generator(2, 2, 3, |i, j, k| 100 * i + 10 * j + k);
    assert_eq!(
        vec.into_vec(),
        vec![0, 1, 2, 10, 11, 12, 100, 101, 102, 110, 111, 112]
    );
}

#[test]
fn vec3d_iter_goes_through_the_cells_in_order() {
    let vec = Vec3D::from_vec(vec![5, 6, 7, 8], 1, 2, 2);
    let seen: Vec<i32> = vec.iter().map(|x| *x).collect();
    assert_eq!(seen, vec![5, 6, 7, 8]);
}

#[test]
fn vec3d_iter_mut_writes_into_the_cells() {
    let mut vec = Vec3D::from_vec(vec![1, 2, 3, 4], 2, 1, 2);
    for cell in vec.iter_mut() {
        *cell += 1;
    }
    for cell in &mut vec {
        *cell *= 3;
    }
    let mut seen = vec![];
    for cell in &vec {
        seen.push(*cell);
    }
    assert_eq!(seen, vec![6, 9, 12, 15]);
    assert_eq!((vec.depth(), vec.height(), vec.width()), (2, 1, 2));
}
