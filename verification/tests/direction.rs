use fast_wfc::direction::{DirArray, Direction};
use fast_wfc::direction::Direction::{Down, Left, Right, Up};

#[test]
fn test_get_opposite() {
    assert_eq!(Down.opposite(), Up);
    assert_eq!(Up.opposite(), Down);
    assert_eq!(Left.opposite(), Right);
    assert_eq!(Right.opposite(), Left);
}

#[test]
fn direction_test_index() {
    let mut array = DirArray::new(&3);
    assert_eq!(array[Down], 3);
    array[Up] = 2;
    assert_eq!(array[Up], 2);
}

#[test]
fn test_generator() {
    let array = DirArray::new_generator(|dir| match dir {
        Up => 0,
        Left => 1,
        Down => 2,
        Right => 3,
    });
    assert_eq!(array[Up], 0);
    assert_eq!(array[Left], 1);
    assert_eq!(array[Down], 2);
    assert_eq!(array[Right], 3);
}

#[test]
fn directions_come_in_their_order() {
    assert_eq!(Direction::directions(), [Down, Left, Right, Up]);
    assert_eq!(Down.ordinal(), 0);
    assert_eq!(Left.ordinal(), 1);
    assert_eq!(Right.ordinal(), 2);
    assert_eq!(Up.ordinal(), 3);
}

#[test]
fn unit_vectors() {
    assert_eq!(Down.get_coordinates(), (-1, 0));
    assert_eq!(Up.get_coordinates(), (1, 0));
    assert_eq!(Left.get_coordinates(), (0, -1));
    assert_eq!(Right.get_coordinates(), (0, 1));
}

#[test]
fn opposite_is_an_involution_with_the_negated_vector() {
    for d in Direction::directions() {
        assert_eq!(d.opposite().opposite(), d);
        assert_ne!(d.opposite(), d);
        let (dy, dx) = d.get_coordinates();
        assert_eq!(d.opposite().get_coordinates(), (-dy, -dx));
    }
}

#[test]
fn dir_array_map_applies_to_each_direction() {
    let array = DirArray::from_values(1, 2, 3, 4);
    let doubled = array.map(|v| v * 2);
    assert_eq!(doubled[Down], 2);
    assert_eq!(doubled[Left], 4);
    assert_eq!(doubled[Right], 6);
    assert_eq!(doubled[Up], 8);
}

#[test]
fn dir_array_set_changes_one_direction() {
    let mut array = DirArray::new(&7);
    array.set(Left, 1);
    assert_eq!(*array.get(Down), 7);
    assert_eq!(*array.get(Left), 1);
    assert_eq!(*array.get(Right), 7);
    assert_eq!(*array.get(Up), 7);
}
