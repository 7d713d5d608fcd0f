use cache_locality::{add_columns, merge_columns, split_columns, NamedColumns};

fn plus_f32(a: f32, b: f32) -> f32 {
    a + b
}

#[test]
fn split_columns_reads_each_column() {
    let data = vec![1.0f32, 2.0, 3.0, 4.0, 5.0, 6.0];
    let cols = split_columns(&data, 3);
    assert_eq!(cols, vec![vec![1.0, 4.0], vec![2.0, 5.0], vec![3.0, 6.0]]);
}

#[test]
fn split_columns_of_empty_matrix() {
    let data: Vec<f32> = Vec::new();
    let cols = split_columns(&data, 2);
    assert_eq!(cols, vec![Vec::<f32>::new(), Vec::new()]);
}

#[test]
fn add_columns_composes_in_order() {
    let mut cols = vec![vec![1.0f32, 10.0], vec![2.0, 20.0]];
    add_columns(&mut cols, &[(0, 1), (1, 0)], plus_f32);
    assert_eq!(cols, vec![vec![3.0, 30.0], vec![5.0, 50.0]]);
}

#[test]
fn add_columns_keeps_the_shorter_length() {
    let mut cols = vec![vec![1u32, 2, 3], vec![10, 20]];
    add_columns(&mut cols, &[(0, 1)], |a: u32, b: u32| a.wrapping_add(b));
    assert_eq!(cols, vec![vec![11, 22], vec![10, 20]]);
}

#[test]
fn merge_columns_writes_rows() {
    let mut data = vec![0.0f32; 6];
    let cols = vec![vec![1.0f32, 4.0], vec![2.0, 5.0], vec![3.0, 6.0]];
    merge_columns(&mut data, &cols, 3);
    assert_eq!(data, vec![1.0, 2.0, 3.0, 4.0, 5.0, 6.0]);
}

#[test]
fn named_columns_hold_only_named_columns() {
    let data = vec![1.0f32, 2.0, 3.0, 4.0, 5.0, 6.0, 7.0, 8.0];
    let named = NamedColumns::split(&data, &[(3, 1), (1, 1)], 4);
    assert_eq!(named.get(0), None);
    assert_eq!(named.get(1), Some(&vec![2.0, 6.0]));
    assert_eq!(named.get(2), None);
    assert_eq!(named.get(3), Some(&vec![4.0, 8.0]));
}

#[test]
fn named_columns_add_then_merge() {
    let mut data = vec![1.0f32, 2.0, 3.0, 4.0, 5.0, 6.0, 7.0, 8.0];
    let adds = [(3, 1), (1, 1)];
    let mut named = NamedColumns::split(&data, &adds, 4);
    named.add(&adds, plus_f32);
    assert_eq!(named.get(3), Some(&vec![6.0, 14.0]));
    assert_eq!(named.get(1), Some(&vec![4.0, 12.0]));
    named.merge_into(&mut data, 4);
    assert_eq!(data, vec![1.0, 4.0, 3.0, 6.0, 5.0, 12.0, 7.0, 14.0]);
}

#[test]
fn named_columns_of_no_operations() {
    let mut data = vec![1.0f32, 2.0, 3.0, 4.0];
    let mut named = NamedColumns::split(&data, &[], 2);
    assert_eq!(named.get(0), None);
    named.add(&[], plus_f32);
    named.merge_into(&mut data, 2);
    assert_eq!(data, vec![1.0, 2.0, 3.0, 4.0]);
}
