use axis_array::Array;
use axis_array::AttachAxis;
use axis_array::Iter;
use axis_array::IterMut;
use axis_array::Positions;

fn numbered(extents: Vec<usize>, len: usize) -> Array<usize> {
    let items: Vec<usize> = (0..len).collect();
    Array::new(extents, items)
}

#[test]
fn some_test() {
    let mut some_array = Array::filled(vec![3, 4, 5], 0u8);

    let view1 = some_array.axis_mut(1, 2).unwrap();

    assert!(view1.shape() == vec![3, 5]);

    let view2 = view1.axis_mut(0, 2).unwrap();

    assert!(view2.shape() == vec![5]);

    let mut writer = view2.iter_mut();
    while let Some(item) = writer.next(&mut some_array) {
        *item = 7
    }

    let mut reader = view1.iter();
    let mut seen: Vec<u8> = Vec::new();
    while let Some(item) = reader.next(&some_array) {
        seen.push(*item);
    }
    assert!(seen == vec![0, 0, 7, 0, 0, 7, 0, 0, 7, 0, 0, 7, 0, 0, 7u8]);
}

#[test]
fn test_axis_out_of_range() {
    let a = Array::filled(vec![3, 4, 5], 0u8);

    // offset at or past the extent of the chosen axis: no view
    assert!(a.axis(0, 3).is_none());
    assert!(a.axis(1, 4).is_none());
    assert!(a.axis(2, 5).is_none());
    // axis past the dimension count: no view
    assert!(a.axis(3, 0).is_none());
    let mut a = a;
    assert!(a.axis_mut(1, 4).is_none());
    assert!(a.axis_mut(3, 0).is_none());
}

#[test]
fn test_view_shape_detaches_axis() {
    let a = Array::filled(vec![3, 4, 5], 0u8);

    assert_eq!(a.axis(0, 0).unwrap().shape(), vec![4, 5]);
    assert_eq!(a.axis(1, 0).unwrap().shape(), vec![3, 5]);
    assert_eq!(a.axis(2, 0).unwrap().shape(), vec![3, 4]);
}

#[test]
fn test_view_item_matches_host_item() {
    let host = numbered(vec![3, 4, 5], 60);
    let view = host.axis(1, 2).unwrap();

    let mut positions = Positions::new(vec![3, 5]);
    while let Some(q) = positions.next() {
        let host_position = q.attach_axis(1, 2);
        assert_eq!(view.item(&host, &q), host.item(&host_position));
        assert!(view.item(&host, &q).is_some());
    }
}

#[test]
fn test_view_item_out_of_range() {
    let host = Array::filled(vec![3, 4, 5], 0u8);
    let view = host.axis(1, 2).unwrap();

    assert_eq!(view.item(&host, &vec![3, 0]), None);
    assert_eq!(view.item(&host, &vec![0, 5]), None);
    assert_eq!(view.item(&host, &vec![0]), None);
    assert_eq!(view.item(&host, &vec![0, 0, 0]), None);
}

#[test]
fn test_view_mut_write_visible_in_host() {
    let mut host = Array::filled(vec![3, 4, 5], 0u16);
    let view = host.axis_mut(1, 2).unwrap();

    *view.item_mut(&mut host, &vec![2, 4]).unwrap() = 99;

    let host_position = vec![2usize, 4].attach_axis(1, 2);
    assert_eq!(host_position, vec![2, 2, 4]);
    assert_eq!(host.item(&host_position), Some(&99));
    // reading back through the view observes the same value
    assert_eq!(view.item(&host, &vec![2, 4]), Some(&99));
}

#[test]
fn test_view_mut_item_mut_out_of_range() {
    let mut host = Array::filled(vec![2, 2], 1u8);
    let view = host.axis_mut(0, 1).unwrap();

    assert!(view.item_mut(&mut host, &vec![2]).is_none());
    assert!(view.item_mut(&mut host, &vec![0, 0]).is_none());
    assert_eq!(host.into_inner(), vec![1, 1, 1, 1]);
}

#[test]
fn test_iter_reads_view_in_order() {
    let host = numbered(vec![2, 3], 6);
    let view = host.axis(0, 1).unwrap();

    // view of axis 0 at offset 1: items (1, b) for b in 0..3
    let mut iter = Iter::new(&view);
    let mut seen: Vec<usize> = Vec::new();
    while let Some(item) = iter.next(&host) {
        seen.push(*item);
    }
    assert_eq!(seen, vec![1, 3, 5]);
}

#[test]
fn test_view_mut_shared_read_side() {
    let host = numbered(vec![2, 3], 6);
    let mut host = host;
    let view = host.axis_mut(1, 1).unwrap();

    // a mutable view still answers shared reads: items (a, 1) for a in 0..2
    assert_eq!(view.item(&host, &vec![0]), Some(&2));
    assert_eq!(view.item(&host, &vec![1]), Some(&3));
    let mut reader = view.iter();
    let mut seen: Vec<usize> = Vec::new();
    while let Some(item) = reader.next(&host) {
        seen.push(*item);
    }
    assert_eq!(seen, vec![2, 3]);
}

#[test]
fn test_iter_mut_updates_every_view_item() {
    let mut host = Array::filled(vec![2, 3], 0u8);
    let view = host.axis_mut(1, 0).unwrap();

    let mut writer = IterMut::new(&view);
    while let Some(item) = writer.next(&mut host) {
        *item = 5;
    }

    let mut positions = Positions::new(vec![2, 3]);
    while let Some(p) = positions.next() {
        let expected = if p[1] == 0 { 5 } else { 0 };
        assert_eq!(host.item(&p), Some(&expected));
    }
}

#[test]
fn test_nested_projection_end_to_end() {
    // a 3x4x5 array of bytes defaulted to 0
    let mut host = Array::filled(vec![3, 4, 5], 0u8);

    // projecting axis 1 at offset 2 yields a 3x5 view
    let view1 = host.axis_mut(1, 2).unwrap();
    assert_eq!(view1.shape(), vec![3, 5]);

    // projecting that view's axis 0 at offset 2 yields a 5-length view
    let view2 = view1.axis_mut(0, 2).unwrap();
    assert_eq!(view2.shape(), vec![5]);

    // setting every item of the final view to 7 ...
    let mut writer = view2.iter_mut();
    while let Some(item) = writer.next(&mut host) {
        *item = 7;
    }

    // ... leaves 7 at exactly the positions (2, 2, c), and 0 elsewhere
    let mut positions = Positions::new(vec![3, 4, 5]);
    let mut sevens = 0;
    while let Some(p) = positions.next() {
        let expected = if p[0] == 2 && p[1] == 2 { 7 } else { 0 };
        if expected == 7 {
            sevens += 1;
        }
        assert_eq!(host.item(&p), Some(&expected));
    }
    assert_eq!(sevens, 5);
}
