use axis_array::Array;
use axis_array::Positions;

#[test]
fn test_new_and_into_inner() {
    let a = Array::new(vec![2, 2], vec![1u8, 2, 3, 4]);

    assert_eq!(a.shape(), vec![2, 2]);
    assert_eq!(a.into_inner(), vec![1, 2, 3, 4]);
}

#[test]
fn test_filled_is_all_value() {
    let a = Array::filled(vec![3, 4, 5], 0u8);

    assert_eq!(a.shape(), vec![3, 4, 5]);
    let items = a.into_inner();
    assert_eq!(items.len(), 60);
    assert!(items.iter().all(|v| *v == 0));
}

#[test]
fn test_item_row_major_order() {
    // first-listed axis varies fastest: item (1, 0) is the second entry
    let a = Array::new(vec![2, 2], vec![10u8, 11, 12, 13]);

    assert_eq!(a.item(&vec![0, 0]), Some(&10));
    assert_eq!(a.item(&vec![1, 0]), Some(&11));
    assert_eq!(a.item(&vec![0, 1]), Some(&12));
    assert_eq!(a.item(&vec![1, 1]), Some(&13));
}

#[test]
fn test_item_out_of_range() {
    let a = Array::new(vec![2, 2], vec![0u8; 4]);

    assert_eq!(a.item(&vec![2, 0]), None);
    assert_eq!(a.item(&vec![0, 2]), None);
    assert_eq!(a.item(&vec![0]), None);
    assert_eq!(a.item(&vec![0, 0, 0]), None);
}

#[test]
fn test_item_mut_writes_through() {
    let mut a = Array::filled(vec![2, 3], 0u32);

    *a.item_mut(&vec![1, 2]).unwrap() = 77;

    assert_eq!(a.item(&vec![1, 2]), Some(&77));
    // every other position still holds the old value
    let mut positions = Positions::new(vec![2, 3]);
    while let Some(p) = positions.next() {
        if p != vec![1, 2] {
            assert_eq!(a.item(&p), Some(&0));
        }
    }
}

#[test]
fn test_item_mut_out_of_range_leaves_array_unchanged() {
    let mut a = Array::new(vec![2, 2], vec![1u8, 2, 3, 4]);

    assert!(a.item_mut(&vec![2, 0]).is_none());
    assert!(a.item_mut(&vec![0, 0, 0]).is_none());
    assert_eq!(a.into_inner(), vec![1, 2, 3, 4]);
}

#[test]
fn test_zero_capacity_array() {
    let a = Array::new(vec![2, 0], Vec::<u8>::new());

    assert_eq!(a.item(&vec![0, 0]), None);
    assert_eq!(a.shape(), vec![2, 0]);
}

#[test]
fn test_zero_dimensional_array() {
    // an empty shape holds exactly one item, at the empty position
    let mut a = Array::new(vec![], vec![5u8]);

    assert_eq!(a.item(&vec![]), Some(&5));
    *a.item_mut(&vec![]).unwrap() = 9;
    assert_eq!(a.item(&vec![]), Some(&9));
}
