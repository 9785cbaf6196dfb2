use axis_array::Positions;
use axis_array::Shape;
use axis_array::position_to_index;

#[test]
fn test_positions_enumerates_whole_shape() {
    let e: Vec<usize> = vec![3, 4, 5];
    let mut positions = Positions::new(e.clone());
    let mut yielded: Vec<Vec<usize>> = Vec::new();

    while let Some(p) = positions.next() {
        yielded.push(p);
    }

    assert_eq!(yielded.len(), 60);
    for (i, p) in yielded.iter().enumerate() {
        // every position satisfies the coordinate bounds ...
        assert_eq!(p.len(), 3);
        for axis in 0..3 {
            assert!(p[axis] < e[axis]);
        }
        // ... and they come in strictly increasing linear-index order
        assert_eq!(position_to_index(&e, p), Some(i));
    }
    // all distinct
    for i in 0..yielded.len() {
        for j in 0..i {
            assert_ne!(yielded[i], yielded[j]);
        }
    }
    // terminated for good
    assert_eq!(positions.next(), None);
    assert_eq!(positions.next(), None);
}

#[test]
fn test_positions_restartable() {
    let e: Vec<usize> = vec![2, 2];

    let mut first = Positions::new(e.clone());
    let mut second = Positions::new(e);
    for _ in 0..4 {
        assert_eq!(first.next(), second.next());
    }
    assert_eq!(first.next(), None);
}

#[test]
fn test_positions_single_axis() {
    let mut positions = Positions::new(vec![2]);

    assert_eq!(positions.next(), Some(vec![0]));
    assert_eq!(positions.next(), Some(vec![1]));
    assert_eq!(positions.next(), None);
}

#[test]
fn test_positions_empty_when_extent_zero() {
    let mut positions = Positions::new(vec![3, 0]);

    assert_eq!(positions.next(), None);
}

#[test]
fn test_positions_of_empty_shape() {
    let mut positions = Positions::new(vec![]);

    assert_eq!(positions.next(), Some(vec![]));
    assert_eq!(positions.next(), None);
}

#[test]
fn test_positions_from_shape_method() {
    let e: Vec<usize> = vec![2, 3];
    let mut positions = e.positions();
    let mut count = 0;

    while let Some(p) = positions.next() {
        assert_eq!(position_to_index(&e, &p), Some(count));
        count += 1;
    }
    assert_eq!(count, 6);
}
