use axis_array::AttachAxis;
use axis_array::checked_capacity;
use axis_array::DetachAxis;
use axis_array::Shape;
use axis_array::index_to_position;
use axis_array::position_to_index;
use axis_array::subd;

#[test]
fn test_attach() {
    let a: Vec<usize> = vec![3, 5];

    let a = a.attach_axis(1, 4);

    assert_eq!(a, vec![3, 4, 5]);
}

#[test]
fn test_detach() {
    let a: Vec<usize> = vec![3, 4, 5];

    assert_eq!(a.detach_axis(0), vec![4, 5]);
    assert_eq!(a.detach_axis(1), vec![3, 5]);
    assert_eq!(a.detach_axis(2), vec![3, 4]);
}

#[test]
fn test_attach_detach_round_trip() {
    let a: Vec<usize> = vec![7, 9];

    assert_eq!(a.attach_axis(1, 8).detach_axis(1), a);
    assert_eq!(a.detach_axis(0).attach_axis(0, 7), a);
}

#[test]
fn test_subd_strides() {
    let e: Vec<usize> = vec![3, 4, 5];

    assert_eq!(subd(&e, 0), 1);
    assert_eq!(subd(&e, 1), 3);
    assert_eq!(subd(&e, 2), 12);
    assert_eq!(subd(&e, 3), 60);
    assert_eq!(subd(&e, 9), 60);
}

#[test]
fn test_capacity() {
    // Vec has an inherent capacity method, so the Shape one is named in full
    assert_eq!(Shape::capacity(&vec![3usize, 4, 5]), 60);
    assert_eq!(Shape::capacity(&vec![3usize, 0, 5]), 0);
    let empty: Vec<usize> = vec![];
    assert_eq!(Shape::capacity(&empty), 1);
}

#[test]
fn test_shape_accessors() {
    let mut e: Vec<usize> = vec![3, 4, 5];

    assert_eq!(e.dimensions(), 3);
    assert_eq!(e.get(1), 4);
    e.set(1, 9);
    assert_eq!(e.get(1), 9);
    assert_eq!(e, vec![3, 9, 5]);
}

#[test]
fn test_position_to_index_exact() {
    let e: Vec<usize> = vec![3, 4, 5];

    assert_eq!(position_to_index(&e, &vec![0, 0, 0]), Some(0));
    assert_eq!(position_to_index(&e, &vec![1, 0, 0]), Some(1));
    assert_eq!(position_to_index(&e, &vec![0, 1, 0]), Some(3));
    assert_eq!(position_to_index(&e, &vec![0, 0, 1]), Some(12));
    assert_eq!(position_to_index(&e, &vec![1, 2, 2]), Some(31));
    assert_eq!(position_to_index(&e, &vec![2, 3, 4]), Some(59));
}

#[test]
fn test_position_to_index_out_of_range() {
    let e: Vec<usize> = vec![3, 4, 5];

    assert_eq!(position_to_index(&e, &vec![3, 0, 0]), None);
    assert_eq!(position_to_index(&e, &vec![0, 4, 0]), None);
    assert_eq!(position_to_index(&e, &vec![0, 0, 5]), None);
    assert_eq!(position_to_index(&e, &vec![0, 0]), None);
    assert_eq!(position_to_index(&e, &vec![0, 0, 0, 0]), None);
}

#[test]
fn test_index_to_position_exact() {
    let e: Vec<usize> = vec![3, 4, 5];

    assert_eq!(index_to_position(&e, 0), Some(vec![0, 0, 0]));
    assert_eq!(index_to_position(&e, 31), Some(vec![1, 2, 2]));
    assert_eq!(index_to_position(&e, 59), Some(vec![2, 3, 4]));
    assert_eq!(index_to_position(&e, 60), None);
}

#[test]
fn test_index_round_trip() {
    let e: Vec<usize> = vec![3, 4, 5];

    for i in 0..60 {
        let p = index_to_position(&e, i).unwrap();
        assert_eq!(position_to_index(&e, &p), Some(i));
    }
}

#[test]
fn test_position_round_trip() {
    let e: Vec<usize> = vec![3, 4, 5];

    let p: Vec<usize> = vec![2, 1, 3];
    let i = position_to_index(&e, &p).unwrap();
    assert_eq!(index_to_position(&e, i), Some(p));
}

#[test]
fn test_zero_extent_shape() {
    let e: Vec<usize> = vec![3, 0, 5];

    assert_eq!(index_to_position(&e, 0), None);
    assert_eq!(position_to_index(&e, &vec![0, 0, 0]), None);
}

#[test]
fn test_empty_shape() {
    let e: Vec<usize> = vec![];

    assert_eq!(position_to_index(&e, &vec![]), Some(0));
    assert_eq!(index_to_position(&e, 0), Some(vec![]));
    assert_eq!(index_to_position(&e, 1), None);
}

#[test]
fn test_trait_conversions_match_free_functions() {
    let e: Vec<usize> = vec![2, 6];
    let p: Vec<usize> = vec![1, 4];

    assert_eq!(e.position_to_index(&p), position_to_index(&e, &p));
    assert_eq!(e.index_to_position(9), index_to_position(&e, 9));
}

#[test]
fn test_checked_capacity() {
    assert_eq!(checked_capacity(&vec![3, 4, 5]), Some(60));
    let empty: Vec<usize> = vec![];
    assert_eq!(checked_capacity(&empty), Some(1));
    assert_eq!(checked_capacity(&vec![usize::MAX, 1]), Some(usize::MAX));
    // the product overflows the machine's index range
    assert_eq!(checked_capacity(&vec![usize::MAX, 2]), None);
    // but a zero extent empties the shape whatever the others hold
    assert_eq!(checked_capacity(&vec![usize::MAX, usize::MAX, 0]), Some(0));
}
