use fast_wfc::tile::{
    generate_action_map, generate_oriented, generate_reflection_map, generate_rotation_map,
    Symmetry, Tile,
};
use fast_wfc::utils::vec2d::Vec2D;

#[test]
fn test_generate_oriented() {
    let data = Vec2D::from_vec(vec![1, 2], 1, 2);
    let oriented_data = generate_oriented(data, Symmetry::T);

    assert_eq!(oriented_data[0], Vec2D::from_vec(vec![1, 2], 1, 2));
    assert_eq!(oriented_data[1], Vec2D::from_vec(vec![2, 1], 2, 1));
    assert_eq!(oriented_data[2], Vec2D::from_vec(vec![2, 1], 1, 2));
    assert_eq!(oriented_data[3], Vec2D::from_vec(vec![1, 2], 2, 1));
}

#[test]
fn numbers_of_orientations() {
    assert_eq!(Symmetry::X.nb_of_possible_orientations(), 1);
    assert_eq!(Symmetry::I.nb_of_possible_orientations(), 2);
    assert_eq!(Symmetry::Backslash.nb_of_possible_orientations(), 2);
    assert_eq!(Symmetry::T.nb_of_possible_orientations(), 4);
    assert_eq!(Symmetry::L.nb_of_possible_orientations(), 4);
    assert_eq!(Symmetry::P.nb_of_possible_orientations(), 8);
}

#[test]
fn rotation_and_reflection_maps() {
    assert_eq!(generate_rotation_map(Symmetry::X), vec![0]);
    assert_eq!(generate_rotation_map(Symmetry::I), vec![1, 0]);
    assert_eq!(generate_rotation_map(Symmetry::Backslash), vec![1, 0]);
    assert_eq!(generate_rotation_map(Symmetry::T), vec![1, 2, 3, 0]);
    assert_eq!(generate_rotation_map(Symmetry::L), vec![1, 2, 3, 0]);
    assert_eq!(generate_rotation_map(Symmetry::P), vec![1, 2, 3, 0, 5, 6, 7, 4]);
    assert_eq!(generate_reflection_map(Symmetry::X), vec![0]);
    assert_eq!(generate_reflection_map(Symmetry::I), vec![0, 1]);
    assert_eq!(generate_reflection_map(Symmetry::Backslash), vec![1, 0]);
    assert_eq!(generate_reflection_map(Symmetry::T), vec![0, 3, 2, 1]);
    assert_eq!(generate_reflection_map(Symmetry::L), vec![1, 0, 3, 2]);
    assert_eq!(generate_reflection_map(Symmetry::P), vec![4, 7, 6, 5, 0, 3, 2, 1]);
}

#[test]
fn action_map_of_l() {
    assert_eq!(
        generate_action_map(Symmetry::L),
        vec![
            vec![0, 1, 2, 3],
            vec![1, 2, 3, 0],
            vec![2, 3, 0, 1],
            vec![3, 0, 1, 2],
            vec![1, 0, 3, 2],
            vec![2, 1, 0, 3],
            vec![3, 2, 1, 0],
            vec![0, 3, 2, 1],
        ]
    );
}

#[test]
fn action_map_of_x_and_p() {
    assert_eq!(generate_action_map(Symmetry::X), vec![vec![0]; 8]);
    let p = generate_action_map(Symmetry::P);
    assert_eq!(p[0], vec![0, 1, 2, 3, 4, 5, 6, 7]);
    assert_eq!(p[3], vec![3, 0, 1, 2, 7, 4, 5, 6]);
    assert_eq!(p[4], vec![4, 7, 6, 5, 0, 3, 2, 1]);
    assert_eq!(p[7], vec![7, 6, 5, 4, 3, 2, 1, 0]);
}

#[test]
fn oriented_of_each_kind() {
    // 1 2
    // 3 4
    let data = Vec2D::from_vec(vec![1, 2, 3, 4], 2, 2);
    let quarter = Vec2D::from_vec(vec![2, 4, 1, 3], 2, 2);
    let half = Vec2D::from_vec(vec![4, 3, 2, 1], 2, 2);
    let three = Vec2D::from_vec(vec![3, 1, 4, 2], 2, 2);
    assert_eq!(generate_oriented(data.clone(), Symmetry::X), vec![data.clone()]);
    assert_eq!(
        generate_oriented(data.clone(), Symmetry::I),
        vec![data.clone(), quarter.clone()]
    );
    assert_eq!(
        generate_oriented(data.clone(), Symmetry::Backslash),
        vec![data.clone(), quarter.clone()]
    );
    assert_eq!(
        generate_oriented(data.clone(), Symmetry::L),
        vec![data.clone(), quarter.clone(), half.clone(), three.clone()]
    );
    assert_eq!(
        generate_oriented(data.clone(), Symmetry::P),
        vec![
            data.clone(),
            quarter.clone(),
            half.clone(),
            three.clone(),
            data.reflected(),
            quarter.reflected(),
            half.reflected(),
            three.reflected(),
        ]
    );
    assert_eq!(data.reflected(), Vec2D::from_vec(vec![2, 1, 4, 3], 2, 2));
    assert_eq!(quarter.reflected(), Vec2D::from_vec(vec![4, 2, 3, 1], 2, 2));
}

#[test]
fn tiles_have_as_many_orientations_as_their_symmetry() {
    let data = Vec2D::from_vec(vec![1, 2, 3, 4], 2, 2);
    let l = Tile::new(data.clone(), Symmetry::L);
    assert_eq!(l.data().len(), 4);
    assert_eq!(l.symmetry(), Symmetry::L);
    let p = Tile::new(data.clone(), Symmetry::P);
    assert_eq!(p.data().len(), 8);
    assert_eq!(p.data()[0], data);
    // Each orientation gets the same share of the weight of its tile.
    let weight: f32 = 2.0;
    let shares: Vec<f32> = l.data().iter().map(|_| weight / l.data().len() as f32).collect();
    assert_eq!(shares, vec![0.5, 0.5, 0.5, 0.5]);
}
