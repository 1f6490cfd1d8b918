use legion_transform::dynamic_array::DynamicArray8;

#[test]
fn push_len_iter() {
    let mut dynamic_array = DynamicArray8::new();

    // Will cause an overflow after the first 8
    for i in 0..16 {
        dynamic_array.push(i);
        assert_eq!(dynamic_array.len(), i + 1);
        assert_eq!(dynamic_array.iter(), (0..i + 1).collect::<Vec<_>>());
    }
}

#[test]
fn remove_len_iter() {
    let mut dynamic_array = DynamicArray8::new();

    // Will not overflow
    let count = 6_usize;
    for i in 0..count {
        dynamic_array.push(i);
    }

    assert_eq!(dynamic_array.len(), count);

    for i in (0..count).rev() {
        dynamic_array.remove_element(&i);
        assert_eq!(dynamic_array.len(), i);
        assert_eq!(dynamic_array.iter(), (0..i).collect::<Vec<_>>());
    }

    assert_eq!(dynamic_array.len(), 0);

    // Will overflow
    let count = 16_usize;
    for i in 0..count {
        dynamic_array.push(i);
    }

    assert_eq!(dynamic_array.len(), count);

    for i in (0..count).rev() {
        dynamic_array.remove_element(&i);
        assert_eq!(dynamic_array.len(), i);
        assert_eq!(dynamic_array.iter(), (0..i).collect::<Vec<_>>());
    }

    assert_eq!(dynamic_array.len(), 0);
}

#[test]
fn with_single_element() {
    let arr = DynamicArray8::with(7);
    assert_eq!(arr.len(), 1);
    assert_eq!(arr.iter(), vec![7]);
}

#[test]
fn remove_absent_element() {
    let mut arr = DynamicArray8::with(3);
    arr.push(5);
    arr.remove_element(&9);
    assert_eq!(arr.iter(), vec![3, 5]);
}

#[test]
fn remove_swaps_last_into_hole() {
    let mut arr = DynamicArray8::new();
    arr.push(1);
    arr.push(2);
    arr.push(3);
    // Inline storage swap-removes: the last element fills the hole.
    arr.remove_element(&1);
    assert_eq!(arr.iter(), vec![3, 2]);
}
