use typestore::vec_cell::VecCell;

#[test]
fn test_push_get_set() {
    let mut vec_cell = VecCell::new();
    vec_cell.push(1);
    assert_eq!(vec_cell.get(0), 1);
    vec_cell.push(2);
    assert_eq!(vec_cell.get(0), 1);
    assert_eq!(vec_cell.get(1), 2);
    vec_cell.set(0, 3);
    assert_eq!(vec_cell.get(0), 3);
    assert_eq!(vec_cell.get(1), 2);
}

#[test]
fn test_zst() {
    let mut vec_cell = VecCell::new();
    vec_cell.push(());
    assert_eq!(vec_cell.get(0), ());
    vec_cell.push(());
    assert_eq!(vec_cell.get(1), ());
}

#[test]
fn vec_cell_set_keeps_neighbours() {
    let mut vec_cell = VecCell::new();
    for i in 0u32..10 {
        vec_cell.push(i);
    }
    vec_cell.set(4, 100);
    for i in 0u32..10 {
        let expected = if i == 4 { 100 } else { i };
        assert_eq!(vec_cell.get(i as usize), expected);
    }
}
