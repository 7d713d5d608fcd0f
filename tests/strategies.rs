use cache_locality::{by_cols, by_cols_smart, by_rows, by_rows_transposed, random_operations};
use rand::rngs::StdRng;
use rand::{Rng, SeedableRng};

fn plus_f32(a: f32, b: f32) -> f32 {
    a + b
}

/// Runs all four strategies on copies of `data` and returns their results in
/// the order rows, rows transposed, cols, cols smart.
fn run_all(data: &[f32], ops: &[(usize, usize)], n_cols: usize) -> [Vec<f32>; 4] {
    let mut rows = data.to_vec();
    by_rows(&mut rows, ops, n_cols, plus_f32);
    let mut rows_transposed = data.to_vec();
    by_rows_transposed(&mut rows_transposed, ops, n_cols, plus_f32);
    let mut cols = data.to_vec();
    by_cols(&mut cols, ops, n_cols, plus_f32);
    let mut cols_smart = data.to_vec();
    by_cols_smart(&mut cols_smart, ops, n_cols, plus_f32);
    [rows, rows_transposed, cols, cols_smart]
}

fn assert_all_equal(results: &[Vec<f32>; 4], expected: &[f32]) {
    for result in results.iter() {
        assert_eq!(result.as_slice(), expected);
    }
}

#[test]
fn order_sensitivity_one_row() {
    let results = run_all(&[1.0, 2.0], &[(0, 1), (1, 0)], 2);
    assert_all_equal(&results, &[3.0, 5.0]);
}

#[test]
fn order_sensitivity_reversed_list() {
    let results = run_all(&[1.0, 2.0], &[(1, 0), (0, 1)], 2);
    assert_all_equal(&results, &[4.0, 3.0]);
}

#[test]
fn order_sensitivity_every_row() {
    let data = [1.0, 2.0, 10.0, 20.0, -1.0, 0.5];
    let results = run_all(&data, &[(0, 1), (1, 0)], 2);
    assert_all_equal(&results, &[3.0, 5.0, 30.0, 50.0, -0.5, 0.0]);
}

#[test]
fn self_add_single_column() {
    let results = run_all(&[5.0], &[(0, 0)], 1);
    assert_all_equal(&results, &[10.0]);
}

#[test]
fn self_add_doubles_only_its_column() {
    let data = [1.0, 2.0, 3.0, 4.0, 5.0, 6.0];
    let results = run_all(&data, &[(1, 1)], 3);
    assert_all_equal(&results, &[1.0, 4.0, 3.0, 4.0, 10.0, 6.0]);
}

#[test]
fn no_operations_leaves_matrix_unchanged() {
    let data = [0.25, 0.5, 0.75, 1.0, 1.25, 1.5, 1.75, 2.0, 2.25, 2.5, 2.75, 3.0];
    let results = run_all(&data, &[], 4);
    assert_all_equal(&results, &data);
}

#[test]
fn no_operations_on_random_matrix() {
    let mut rng = StdRng::seed_from_u64(11);
    let data: Vec<f32> = (0..35).map(|_| rng.gen::<f32>()).collect();
    let results = run_all(&data, &[], 5);
    assert_all_equal(&results, &data);
}

#[test]
fn sparse_matches_full_on_two_of_hundred_columns() {
    let n_cols = 100;
    let n_rows = 40;
    let data: Vec<f32> = (0..n_rows * n_cols).map(|i| (i % 17) as f32 * 0.125).collect();
    let ops = [(7, 42), (42, 7), (7, 7), (42, 42), (7, 42)];
    let mut full = data.clone();
    by_cols(&mut full, &ops, n_cols, plus_f32);
    let mut sparse = data.clone();
    by_cols_smart(&mut sparse, &ops, n_cols, plus_f32);
    assert_eq!(full, sparse);
    for r in 0..n_rows {
        for c in 0..n_cols {
            if c != 7 && c != 42 {
                assert_eq!(sparse[r * n_cols + c], data[r * n_cols + c]);
            }
        }
        let mut a = data[r * n_cols + 7];
        let mut b = data[r * n_cols + 42];
        a = a + b;
        b = b + a;
        a = a + a;
        b = b + b;
        a = a + b;
        assert_eq!(sparse[r * n_cols + 7], a);
        assert_eq!(sparse[r * n_cols + 42], b);
    }
}

#[test]
fn single_cell_doubled_ten_times() {
    let ops = vec![(0, 0); 10];
    let results = run_all(&[1.5], &ops, 1);
    assert_all_equal(&results, &[1536.0]);
}

#[test]
fn single_cell_doubled_three_times() {
    let ops = vec![(0, 0); 3];
    let results = run_all(&[-0.75], &ops, 1);
    assert_all_equal(&results, &[-6.0]);
}

#[test]
fn later_operation_reads_intermediate_value() {
    let data = [1.0, 10.0, 100.0];
    let ops = [(1, 2), (0, 1), (2, 0)];
    let results = run_all(&data, &ops, 3);
    assert_all_equal(&results, &[111.0, 110.0, 211.0]);
}

#[test]
fn strategies_agree_on_random_workload() {
    let mut rng = StdRng::seed_from_u64(2024);
    let n_rows = 64;
    let n_cols = 13;
    let data: Vec<f32> = (0..n_rows * n_cols).map(|_| rng.gen::<f32>()).collect();
    let ops = random_operations(&mut rng, n_cols, 200);
    let results = run_all(&data, &ops, n_cols);
    let reference = results[0].clone();
    assert_all_equal(&results, &reference);
    assert_ne!(reference, data);
}

#[test]
fn strategies_agree_with_many_columns_few_operations() {
    let mut rng = StdRng::seed_from_u64(99);
    let n_rows = 25;
    let n_cols = 100;
    let data: Vec<f32> = (0..n_rows * n_cols).map(|_| rng.gen::<f32>()).collect();
    let ops = random_operations(&mut rng, n_cols, 4);
    let results = run_all(&data, &ops, n_cols);
    let reference = results[0].clone();
    assert_all_equal(&results, &reference);
}

#[test]
fn integer_elements_with_wrapping_addition() {
    let plus = |a: u8, b: u8| a.wrapping_add(b);
    let data: Vec<u8> = vec![200, 100, 1, 2];
    let ops = [(0, 1), (1, 0)];
    let mut rows = data.clone();
    by_rows(&mut rows, &ops, 2, plus);
    let mut rows_transposed = data.clone();
    by_rows_transposed(&mut rows_transposed, &ops, 2, plus);
    let mut cols = data.clone();
    by_cols(&mut cols, &ops, 2, plus);
    let mut cols_smart = data.clone();
    by_cols_smart(&mut cols_smart, &ops, 2, plus);
    let expected: Vec<u8> = vec![44, 144, 3, 5];
    assert_eq!(rows, expected);
    assert_eq!(rows_transposed, expected);
    assert_eq!(cols, expected);
    assert_eq!(cols_smart, expected);
}

#[test]
fn empty_matrix_stays_empty() {
    let results = run_all(&[], &[(0, 1), (1, 1)], 2);
    assert_all_equal(&results, &[]);
}

#[test]
fn random_operations_have_length_and_range() {
    let mut rng = StdRng::seed_from_u64(7);
    let ops = random_operations(&mut rng, 5, 300);
    assert_eq!(ops.len(), 300);
    assert!(ops.iter().all(|&(a, b)| a < 5 && b < 5));
    assert!(ops.iter().any(|&(a, _)| a == 0));
    assert!(ops.iter().any(|&(_, b)| b == 4));
}

#[test]
fn random_operations_single_column() {
    let mut rng = StdRng::seed_from_u64(3);
    let ops = random_operations(&mut rng, 1, 6);
    assert_eq!(ops, vec![(0, 0); 6]);
}

#[test]
fn random_operations_none_requested() {
    let mut rng = StdRng::seed_from_u64(5);
    assert!(random_operations(&mut rng, 10, 0).is_empty());
}
