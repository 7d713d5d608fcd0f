use vstd::prelude::*;

use crate::model::{
    add_column, apply_ops, apply_ops_to_columns, columns_of, is_matrix, lemma_apply_len,
    lemma_columns_commute, lemma_restrict_commutes, named_columns, ops_in_range, sum_of,
};

verus! {

/// The row-major and the columnar views of the work agree: applying the
/// operations to the matrix and then taking its columns gives the buffers that
/// applying them to every column buffer gives, and the buffers of the named
/// columns alone follow the same course. `by_rows` and `by_rows_transposed`
/// work on the matrix, `by_cols` on all of its column buffers and
/// `by_cols_smart` on the named ones, and all four end at `apply_ops`.
pub proof fn lemma_column_views_agree<T, F: Fn(T, T) -> T>(
    m: Seq<T>,
    n_cols: int,
    ops: Seq<(usize, usize)>,
    plus: F,
)
    requires
        is_matrix(m.len() as int, n_cols),
        ops_in_range(ops, n_cols),
    ensures
        columns_of(apply_ops(m, n_cols, ops, plus), n_cols) == apply_ops_to_columns(
            columns_of(m, n_cols),
            ops,
            plus,
        ),
        apply_ops_to_columns(columns_of(m, n_cols).restrict(named_columns(ops)), ops, plus)
            == columns_of(apply_ops(m, n_cols, ops, plus), n_cols).restrict(named_columns(ops)),
{
    let named = named_columns(ops);
    assert forall|j: int| 0 <= j < ops.len() implies named.contains((#[trigger] ops[j]).0)
        && named.contains(ops[j].1) by {}
    assert forall|j: int| 0 <= j < ops.len() implies columns_of(m, n_cols).dom().contains(
        (#[trigger] ops[j]).0,
    ) && columns_of(m, n_cols).dom().contains(ops[j].1) by {}
    lemma_columns_commute(m, n_cols, ops, plus);
    lemma_restrict_commutes(columns_of(m, n_cols), named, ops, plus);
}

/// An empty list of operations leaves the matrix as it is.
pub proof fn lemma_no_operations<T, F: Fn(T, T) -> T>(m: Seq<T>, n_cols: int, plus: F)
    ensures
        apply_ops(m, n_cols, Seq::<(usize, usize)>::empty(), plus) == m,
{
}

/// Operations compose in list order: on a row `[a, b]`, `(0, 1)` followed by
/// `(1, 0)` gives `[a + b, b + (a + b)]`, the second operation reading what the
/// first one wrote.
pub proof fn lemma_order_matters<T, F: Fn(T, T) -> T>(a: T, b: T, plus: F)
    ensures
        apply_ops(seq![a, b], 2, seq![(0usize, 1usize), (1usize, 0usize)], plus) == seq![
            sum_of(plus, a, b),
            sum_of(plus, b, sum_of(plus, a, b)),
        ],
{
    let ops = seq![(0usize, 1usize), (1usize, 0usize)];
    let first = seq![(0usize, 1usize)];
    assert(ops.drop_last() =~= first);
    assert(first.drop_last() =~= Seq::<(usize, usize)>::empty());
    let after_first = add_column(seq![a, b], 2, (0usize, 1usize), plus);
    assert(apply_ops(seq![a, b], 2, Seq::<(usize, usize)>::empty(), plus) == seq![a, b]);
    assert(apply_ops(seq![a, b], 2, first, plus) == after_first);
    assert(apply_ops(seq![a, b], 2, ops, plus) == add_column(after_first, 2, (1usize, 0usize), plus));
    assert(after_first =~= seq![sum_of(plus, a, b), b]);
    assert(add_column(after_first, 2, (1usize, 0usize), plus) =~= seq![
        sum_of(plus, a, b),
        sum_of(plus, b, sum_of(plus, a, b)),
    ]);
}

/// The operation `(k, k)` adds column `k` to itself in every row and leaves
/// the other columns as they are.
pub proof fn lemma_self_add_doubles<T, F: Fn(T, T) -> T>(
    m: Seq<T>,
    n_cols: int,
    k: usize,
    plus: F,
)
    requires
        is_matrix(m.len() as int, n_cols),
        k < n_cols,
    ensures
        apply_ops(m, n_cols, seq![(k, k)], plus) == Seq::new(
            m.len(),
            |i: int|
                if i % n_cols == k {
                    sum_of(plus, m[i], m[i])
                } else {
                    m[i]
                },
        ),
{
    assert(seq![(k, k)].drop_last() =~= Seq::<(usize, usize)>::empty());
    assert(apply_ops(m, n_cols, Seq::<(usize, usize)>::empty(), plus) == m);
    assert(apply_ops(m, n_cols, seq![(k, k)], plus) == add_column(m, n_cols, (k, k), plus));
    assert(apply_ops(m, n_cols, seq![(k, k)], plus) =~= Seq::new(
        m.len(),
        |i: int|
            if i % n_cols == k {
                sum_of(plus, m[i], m[i])
            } else {
                m[i]
            },
    ));
}

/// `v` added to itself `count` times over: `v`, `v + v`, `(v + v) + (v + v)`, ...
pub open spec fn doubled<T, F: Fn(T, T) -> T>(plus: F, v: T, count: nat) -> T
    decreases count,
{
    if count == 0 {
        v
    } else {
        let half = doubled(plus, v, (count - 1) as nat);
        sum_of(plus, half, half)
    }
}

/// On a one-by-one matrix, `count` operations `(0, 0)` double its single
/// value `count` times.
pub proof fn lemma_single_cell_doubling<T, F: Fn(T, T) -> T>(v: T, count: nat, plus: F)
    ensures
        apply_ops(seq![v], 1, Seq::new(count, |j: int| (0usize, 0usize)), plus) == seq![
            doubled(plus, v, count),
        ],
    decreases count,
{
    let ops = Seq::new(count, |j: int| (0usize, 0usize));
    if count > 0 {
        let shorter = Seq::new((count - 1) as nat, |j: int| (0usize, 0usize));
        assert(ops.drop_last() =~= shorter);
        lemma_single_cell_doubling(v, (count - 1) as nat, plus);
        lemma_apply_len(seq![v], 1, shorter, plus);
        assert(add_column(seq![doubled(plus, v, (count - 1) as nat)], 1, (0usize, 0usize), plus)
            =~= seq![doubled(plus, v, count)]);
    }
}

} // verus!
