use vstd::prelude::*;

use crate::columns::{add_columns, merge_columns, split_columns, NamedColumns};
use crate::model::{
    add_column, apply_ops, column, column_views, columns_of, is_addition, is_matrix,
    lemma_apply_len, lemma_apply_step, lemma_call_sum, lemma_columns_commute,
    lemma_columns_determine, lemma_position, lemma_restrict_commutes, lemma_row_fits,
    lemma_rows_times_cols, lemma_untouched, named_columns, ops_in_range, ops_within,
};

verus! {

/// Applies every operation to one row before moving on to the next row.
pub fn by_rows<T: Copy, F: Fn(T, T) -> T>(
    data: &mut Vec<T>,
    adds: &[(usize, usize)],
    n_cols: usize,
    plus: F,
)
    requires
        is_matrix(old(data).len() as int, n_cols as int),
        ops_in_range(adds@, n_cols as int),
        is_addition(plus),
    ensures
        final(data)@ == apply_ops(old(data)@, n_cols as int, adds@, plus),
{
    let ghost m = data@;
    let ghost n = n_cols as int;
    let ghost done = apply_ops(m, n, adds@, plus);
    let n_rows = data.len() / n_cols;
    proof {
        lemma_rows_times_cols(data.len() as int, n);
        lemma_apply_len(m, n, adds@, plus);
    }
    let mut r: usize = 0;
    while r < n_rows
        invariant
            0 <= r <= n_rows,
            n == n_cols as int,
            n_cols > 0,
            n_rows * n_cols == m.len(),
            m.len() <= usize::MAX,
            ops_in_range(adds@, n),
            is_addition(plus),
            done == apply_ops(m, n, adds@, plus),
            done.len() == m.len(),
            data@.len() == m.len(),
            forall|i: int|
                0 <= i < m.len() ==> #[trigger] data@[i] == if i < r * n {
                    done[i]
                } else {
                    m[i]
                },
        decreases n_rows - r,
    {
        proof {
            lemma_row_fits(n, n_rows as int, r as int);
            assert(adds@.take(0) =~= Seq::<(usize, usize)>::empty());
        }
        let base = r * n_cols;
        let mut j: usize = 0;
        while j < adds.len()
            invariant
                0 <= j <= adds.len(),
                0 <= r < n_rows,
                base == r * n,
                base + n <= m.len(),
                n == n_cols as int,
                n_cols > 0,
                m.len() <= usize::MAX,
                ops_in_range(adds@, n),
                is_addition(plus),
                done == apply_ops(m, n, adds@, plus),
                data@.len() == m.len(),
                forall|i: int|
                    0 <= i < m.len() ==> #[trigger] data@[i] == if i < base {
                        done[i]
                    } else if i < base + n {
                        apply_ops(m, n, adds@.take(j as int), plus)[i]
                    } else {
                        m[i]
                    },
            decreases adds.len() - j,
        {
            let (column_a, column_b) = adds[j];
            let ghost prev = apply_ops(m, n, adds@.take(j as int), plus);
            proof {
                lemma_apply_len(m, n, adds@.take(j as int), plus);
                lemma_apply_step(m, n, adds@, plus, j as int);
                assert(adds@[j as int] == (column_a, column_b));
                lemma_position(n, r as int, column_a as int);
            }
            let sum = plus(data[base + column_a], data[base + column_b]);
            proof {
                lemma_call_sum(plus, data@[base + column_a], data@[base + column_b], sum);
            }
            data.set(base + column_a, sum);
            proof {
                assert forall|i: int| 0 <= i < m.len() implies #[trigger] data@[i] == if i
                    < base {
                    done[i]
                } else if i < base + n {
                    apply_ops(m, n, adds@.take(j + 1), plus)[i]
                } else {
                    m[i]
                } by {
                    if base <= i < base + n {
                        lemma_position(n, r as int, i - base);
                    }
                }
            }
            j = j + 1;
        }
        proof {
            assert(adds@.take(adds@.len() as int) =~= adds@);
            assert((r + 1) * n == r * n + n) by (nonlinear_arith);
        }
        r = r + 1;
    }
}

/// Applies the operations one at a time, each to every row before the next
/// operation starts.
pub fn by_rows_transposed<T: Copy, F: Fn(T, T) -> T>(
    data: &mut Vec<T>,
    adds: &[(usize, usize)],
    n_cols: usize,
    plus: F,
)
    requires
        is_matrix(old(data).len() as int, n_cols as int),
        ops_in_range(adds@, n_cols as int),
        is_addition(plus),
    ensures
        final(data)@ == apply_ops(old(data)@, n_cols as int, adds@, plus),
{
    let ghost m = data@;
    let ghost n = n_cols as int;
    let n_rows = data.len() / n_cols;
    proof {
        lemma_rows_times_cols(data.len() as int, n);
    }
    let mut j: usize = 0;
    while j < adds.len()
        invariant
            0 <= j <= adds.len(),
            n == n_cols as int,
            n_cols > 0,
            n_rows * n_cols == m.len(),
            m.len() <= usize::MAX,
            ops_in_range(adds@, n),
            is_addition(plus),
            data@ == apply_ops(m, n, adds@.take(j as int), plus),
        decreases adds.len() - j,
    {
        let (column_a, column_b) = adds[j];
        let ghost prev = data@;
        let ghost next = add_column(prev, n, (column_a, column_b), plus);
        proof {
            lemma_apply_len(m, n, adds@.take(j as int), plus);
            lemma_apply_step(m, n, adds@, plus, j as int);
            assert(adds@[j as int] == (column_a, column_b));
        }
        let mut r: usize = 0;
        while r < n_rows
            invariant
                0 <= r <= n_rows,
                n == n_cols as int,
                n_cols > 0,
                n_rows * n_cols == m.len(),
                m.len() <= usize::MAX,
            m.len() <= usize::MAX,
                prev.len() == m.len(),
                column_a < n_cols,
                column_b < n_cols,
                is_addition(plus),
                next == add_column(prev, n, (column_a, column_b), plus),
                data@.len() == prev.len(),
                forall|i: int|
                    0 <= i < prev.len() ==> #[trigger] data@[i] == if i < r * n {
                        next[i]
                    } else {
                        prev[i]
                    },
            decreases n_rows - r,
        {
            proof {
                lemma_row_fits(n, n_rows as int, r as int);
                lemma_position(n, r as int, column_a as int);
            }
            let base = r * n_cols;
            let sum = plus(data[base + column_a], data[base + column_b]);
            proof {
                lemma_call_sum(plus, data@[base + column_a], data@[base + column_b], sum);
            }
            data.set(base + column_a, sum);
            proof {
                assert forall|i: int| 0 <= i < prev.len() implies #[trigger] data@[i] == if i < (r
                    + 1) * n {
                    next[i]
                } else {
                    prev[i]
                } by {
                    assert((r + 1) * n == r * n + n) by (nonlinear_arith);
                    if base <= i < base + n {
                        lemma_position(n, r as int, i - base);
                    }
                }
            }
            r = r + 1;
        }
        proof {
            assert(data@ =~= next);
        }
        j = j + 1;
    }
    proof {
        assert(adds@.take(adds@.len() as int) =~= adds@);
    }
}

/// Copies the matrix into one buffer per column, applies each operation as
/// a pass over two column buffers, and copies the columns back into the rows.
pub fn by_cols<T: Copy, F: Fn(T, T) -> T>(
    data: &mut Vec<T>,
    adds: &[(usize, usize)],
    n_cols: usize,
    plus: F,
)
    requires
        is_matrix(old(data).len() as int, n_cols as int),
        ops_in_range(adds@, n_cols as int),
        is_addition(plus),
    ensures
        final(data)@ == apply_ops(old(data)@, n_cols as int, adds@, plus),
{
    let ghost m = data@;
    let ghost n = n_cols as int;
    let ghost done = apply_ops(m, n, adds@, plus);
    let mut cols = split_columns(data, n_cols);
    add_columns(&mut cols, adds, plus);
    proof {
        lemma_columns_commute(m, n, adds@, plus);
        lemma_apply_len(m, n, adds@, plus);
        assert forall|c: int| 0 <= c < n implies (#[trigger] cols@[c])@.len() == m.len() as int
            / n by {
            assert(column_views(cols@)[c as usize] == cols@[c]@);
        }
    }
    merge_columns(data, &cols, n_cols);
    proof {
        lemma_columns_determine(data@, done, n);
    }
}

/// Like `by_cols`, but only the columns that some operation names are copied
/// out, into a map from column index to buffer, and copied back.
pub fn by_cols_smart<T: Copy, F: Fn(T, T) -> T>(
    data: &mut Vec<T>,
    adds: &[(usize, usize)],
    n_cols: usize,
    plus: F,
)
    requires
        is_matrix(old(data).len() as int, n_cols as int),
        ops_in_range(adds@, n_cols as int),
        is_addition(plus),
    ensures
        final(data)@ == apply_ops(old(data)@, n_cols as int, adds@, plus),
{
    let ghost m = data@;
    let ghost n = n_cols as int;
    let ghost done = apply_ops(m, n, adds@, plus);
    let ghost named = named_columns(adds@);
    let mut cols = NamedColumns::split(data, adds, n_cols);
    proof {
        assert forall|j: int| 0 <= j < adds@.len() implies named.contains((#[trigger] adds@[j]).0)
            && named.contains(adds@[j].1) by {}
        assert forall|j: int| 0 <= j < adds@.len() implies columns_of(m, n).dom().contains(
            (#[trigger] adds@[j]).0,
        ) && columns_of(m, n).dom().contains(adds@[j].1) by {}
        assert(ops_within(adds@, cols@.dom()));
    }
    cols.add(adds, plus);
    proof {
        lemma_restrict_commutes(columns_of(m, n), named, adds@, plus);
        lemma_columns_commute(m, n, adds@, plus);
        lemma_apply_len(m, n, adds@, plus);
        assert(cols@ == columns_of(done, n).restrict(named));
    }
    cols.merge_into(data, n_cols);
    proof {
        let merged = columns_of(m, n).union_prefer_right(columns_of(done, n).restrict(named));
        assert forall|c: usize| #[trigger] merged.contains_key(c) implies merged[c] == columns_of(
            done,
            n,
        )[c] by {
            if !named.contains(c) {
                assert forall|r: int| 0 <= r < m.len() as int / n implies column(m, n, c as int)[r]
                    == column(done, n, c as int)[r] by {
                    lemma_rows_times_cols(m.len() as int, n);
                    lemma_row_fits(n, m.len() as int / n, r);
                    lemma_position(n, r, c as int);
                    assert forall|j: int| 0 <= j < adds@.len() implies (#[trigger] adds@[j]).0 != (r
                        * n + c) % n by {
                        if adds@[j].0 == c {
                            assert(named.contains(c));
                        }
                    }
                    lemma_untouched(m, n, adds@, plus, r * n + c);
                }
                assert(column(m, n, c as int) =~= column(done, n, c as int));
            }
        }
        assert(merged =~= columns_of(done, n));
        lemma_columns_determine(data@, done, n);
    }
}

} // verus!
