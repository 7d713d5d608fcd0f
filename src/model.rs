use vstd::prelude::*;

verus! {

/// The value that `plus` returns on `(a, b)`.
pub open spec fn sum_of<T, F: Fn(T, T) -> T>(plus: F, a: T, b: T) -> T {
    choose|r: T| plus.ensures((a, b), r)
}

/// `plus` accepts any two elements and returns one value determined by them.
pub open spec fn is_addition<T, F: Fn(T, T) -> T>(plus: F) -> bool {
    &&& forall|a: T, b: T| #[trigger] plus.requires((a, b))
    &&& forall|a: T, b: T, r: T| #[trigger] plus.ensures((a, b), r) ==> r == sum_of(plus, a, b)
}

/// `len` elements form whole rows of `n_cols` columns.
pub open spec fn is_matrix(len: int, n_cols: int) -> bool {
    n_cols > 0 && len % n_cols == 0
}

/// Every column index named by `ops` lies in `[0, n_cols)`.
pub open spec fn ops_in_range(ops: Seq<(usize, usize)>, n_cols: int) -> bool {
    forall|j: int| 0 <= j < ops.len() ==> (#[trigger] ops[j]).0 < n_cols && ops[j].1 < n_cols
}

/// One operation `(a, b)` on a row-major matrix with `n_cols` columns: in every
/// row, the element of column `a` becomes its sum with the element of column `b`.
pub open spec fn add_column<T, F: Fn(T, T) -> T>(
    m: Seq<T>,
    n_cols: int,
    op: (usize, usize),
    plus: F,
) -> Seq<T> {
    Seq::new(
        m.len(),
        |i: int|
            if i % n_cols == op.0 {
                sum_of(plus, m[i], m[i - op.0 + op.1])
            } else {
                m[i]
            },
    )
}

/// The matrix after every operation of `ops`, in list order, so that a later
/// operation sees what the earlier ones wrote.
pub open spec fn apply_ops<T, F: Fn(T, T) -> T>(
    m: Seq<T>,
    n_cols: int,
    ops: Seq<(usize, usize)>,
    plus: F,
) -> Seq<T>
    decreases ops.len(),
{
    if ops.len() == 0 {
        m
    } else {
        add_column(apply_ops(m, n_cols, ops.drop_last(), plus), n_cols, ops.last(), plus)
    }
}

/// Column `c` of a row-major matrix with `n_cols` columns, top to bottom.
pub open spec fn column<T>(m: Seq<T>, n_cols: int, c: int) -> Seq<T> {
    Seq::new((m.len() as int / n_cols) as nat, |r: int| m[r * n_cols + c])
}

/// A call of `plus` returns `sum_of(plus, a, b)`.
pub proof fn lemma_call_sum<T, F: Fn(T, T) -> T>(plus: F, a: T, b: T, r: T)
    requires
        is_addition(plus),
        plus.ensures((a, b), r),
    ensures
        r == sum_of(plus, a, b),
{
}

/// Row `r`, column `c` sits at `r * n_cols + c`.
pub proof fn lemma_position(n_cols: int, r: int, c: int)
    requires
        n_cols > 0,
        0 <= c < n_cols,
    ensures
        (r * n_cols + c) % n_cols == c,
        (r * n_cols + c) / n_cols == r,
{
    vstd::arithmetic::div_mod::lemma_fundamental_div_mod_converse(r * n_cols + c, n_cols, r, c);
}

/// Rows before row `r` end no later than the matrix does.
pub proof fn lemma_row_fits(n_cols: int, n_rows: int, r: int)
    requires
        n_cols > 0,
        0 <= r < n_rows,
    ensures
        0 <= r * n_cols,
        r * n_cols + n_cols <= n_rows * n_cols,
{
    assert(r * n_cols + n_cols <= n_rows * n_cols) by (nonlinear_arith)
        requires
            n_cols > 0,
            0 <= r < n_rows,
    ;
    assert(0 <= r * n_cols) by (nonlinear_arith)
        requires
            n_cols > 0,
            0 <= r,
    ;
}

/// The number of rows of a matrix times its number of columns is its length.
pub proof fn lemma_rows_times_cols(len: int, n_cols: int)
    requires
        is_matrix(len, n_cols),
        len >= 0,
    ensures
        (len / n_cols) * n_cols == len,
        len / n_cols >= 0,
{
    vstd::arithmetic::div_mod::lemma_fundamental_div_mod(len, n_cols);
    vstd::arithmetic::div_mod::lemma_div_pos_is_pos(len, n_cols);
    assert((len / n_cols) * n_cols == n_cols * (len / n_cols)) by (nonlinear_arith);
}

/// Each element lies in some row, at its column.
pub proof fn lemma_split_index(n_cols: int, i: int)
    requires
        n_cols > 0,
        0 <= i,
    ensures
        i == (i / n_cols) * n_cols + i % n_cols,
        0 <= i % n_cols < n_cols,
        0 <= i / n_cols,
{
    vstd::arithmetic::div_mod::lemma_fundamental_div_mod(i, n_cols);
    vstd::arithmetic::div_mod::lemma_mod_pos_bound(i, n_cols);
    vstd::arithmetic::div_mod::lemma_div_pos_is_pos(i, n_cols);
    assert((i / n_cols) * n_cols == n_cols * (i / n_cols)) by (nonlinear_arith);
}

/// Applying a prefix one operation longer adds that operation.
pub proof fn lemma_apply_step<T, F: Fn(T, T) -> T>(
    m: Seq<T>,
    n_cols: int,
    ops: Seq<(usize, usize)>,
    plus: F,
    j: int,
)
    requires
        0 <= j < ops.len(),
    ensures
        apply_ops(m, n_cols, ops.take(j + 1), plus) == add_column(
            apply_ops(m, n_cols, ops.take(j), plus),
            n_cols,
            ops[j],
            plus,
        ),
{
    assert(ops.take(j + 1).drop_last() =~= ops.take(j));
}

/// The operations keep the matrix's length.
pub proof fn lemma_apply_len<T, F: Fn(T, T) -> T>(
    m: Seq<T>,
    n_cols: int,
    ops: Seq<(usize, usize)>,
    plus: F,
)
    ensures
        apply_ops(m, n_cols, ops, plus).len() == m.len(),
    decreases ops.len(),
{
    if ops.len() > 0 {
        lemma_apply_len(m, n_cols, ops.drop_last(), plus);
    }
}

/// After one operation `(a, b)`, column `a` holds the sums of columns `a` and
/// `b` row by row, and every other column is as it was.
pub proof fn lemma_column_after_op<T, F: Fn(T, T) -> T>(
    m: Seq<T>,
    n_cols: int,
    op: (usize, usize),
    plus: F,
    c: int,
)
    requires
        is_matrix(m.len() as int, n_cols),
        op.0 < n_cols,
        op.1 < n_cols,
        0 <= c < n_cols,
    ensures
        column(add_column(m, n_cols, op, plus), n_cols, c) == if c == op.0 {
            Seq::new(
                column(m, n_cols, c).len(),
                |r: int| sum_of(plus, column(m, n_cols, op.0 as int)[r], column(m, n_cols, op.1 as int)[r]),
            )
        } else {
            column(m, n_cols, c)
        },
{
    let next = add_column(m, n_cols, op, plus);
    let n_rows = m.len() as int / n_cols;
    lemma_rows_times_cols(m.len() as int, n_cols);
    assert forall|r: int| 0 <= r < n_rows implies #[trigger] next[r * n_cols + c] == if c == op.0 {
        sum_of(plus, m[r * n_cols + op.0], m[r * n_cols + op.1])
    } else {
        m[r * n_cols + c]
    } by {
        lemma_row_fits(n_cols, n_rows, r);
        lemma_position(n_cols, r, c);
    }
    if c == op.0 {
        assert(column(next, n_cols, c) =~= Seq::new(
            column(m, n_cols, c).len(),
            |r: int| sum_of(plus, column(m, n_cols, op.0 as int)[r], column(m, n_cols, op.1 as int)[r]),
        ));
    } else {
        assert(column(next, n_cols, c) =~= column(m, n_cols, c));
    }
}

/// An element whose column no operation writes keeps its value.
pub proof fn lemma_untouched<T, F: Fn(T, T) -> T>(
    m: Seq<T>,
    n_cols: int,
    ops: Seq<(usize, usize)>,
    plus: F,
    i: int,
)
    requires
        0 <= i < m.len(),
        forall|j: int| 0 <= j < ops.len() ==> (#[trigger] ops[j]).0 != i % n_cols,
    ensures
        apply_ops(m, n_cols, ops, plus)[i] == m[i],
    decreases ops.len(),
{
    if ops.len() > 0 {
        let rest = ops.drop_last();
        assert forall|j: int| 0 <= j < rest.len() implies (#[trigger] rest[j]).0 != i % n_cols by {
            assert(rest[j] == ops[j]);
        }
        lemma_untouched(m, n_cols, rest, plus, i);
        lemma_apply_len(m, n_cols, rest, plus);
        assert(ops.last() == ops[ops.len() - 1]);
    }
}

/// The columns of a row-major matrix with `n_cols` columns, keyed by index.
pub open spec fn columns_of<T>(m: Seq<T>, n_cols: int) -> Map<usize, Seq<T>> {
    Map::new(|c: usize| c < n_cols, |c: usize| column(m, n_cols, c as int))
}

/// Column buffers held in a vector, keyed by their position.
pub open spec fn column_views<T>(cols: Seq<Vec<T>>) -> Map<usize, Seq<T>> {
    Map::new(|c: usize| c < cols.len(), |c: usize| cols[c as int]@)
}

/// Column buffers held in a map, keyed as in the map.
pub open spec fn named_views<T>(cols: Map<usize, Vec<T>>) -> Map<usize, Seq<T>> {
    Map::new(|c: usize| cols.contains_key(c), |c: usize| cols[c]@)
}

/// One operation `(a, b)` on column buffers: buffer `a` becomes the pairwise
/// sums of buffers `a` and `b`, as long as the shorter of the two.
pub open spec fn add_into_column<T, F: Fn(T, T) -> T>(
    cols: Map<usize, Seq<T>>,
    op: (usize, usize),
    plus: F,
) -> Map<usize, Seq<T>> {
    let a = cols[op.0];
    let b = cols[op.1];
    let len = if a.len() <= b.len() {
        a.len()
    } else {
        b.len()
    };
    cols.insert(op.0, Seq::new(len, |r: int| sum_of(plus, a[r], b[r])))
}

/// Column buffers after every operation of `ops`, in list order.
pub open spec fn apply_ops_to_columns<T, F: Fn(T, T) -> T>(
    cols: Map<usize, Seq<T>>,
    ops: Seq<(usize, usize)>,
    plus: F,
) -> Map<usize, Seq<T>>
    decreases ops.len(),
{
    if ops.len() == 0 {
        cols
    } else {
        add_into_column(apply_ops_to_columns(cols, ops.drop_last(), plus), ops.last(), plus)
    }
}

/// The column indices that `ops` names, on either side of a pair.
pub open spec fn named_columns(ops: Seq<(usize, usize)>) -> Set<usize> {
    Set::new(|k: usize| exists|j: int| 0 <= j < ops.len() && (ops[j].0 == k || ops[j].1 == k))
}

/// Every column index named by `ops` is a key of `keys`.
pub open spec fn ops_within(ops: Seq<(usize, usize)>, keys: Set<usize>) -> bool {
    forall|j: int|
        0 <= j < ops.len() ==> keys.contains((#[trigger] ops[j]).0) && keys.contains(ops[j].1)
}

/// Applying the operations to the rows and then taking the columns is the
/// same as taking the columns and applying the operations to them.
pub proof fn lemma_columns_commute<T, F: Fn(T, T) -> T>(
    m: Seq<T>,
    n_cols: int,
    ops: Seq<(usize, usize)>,
    plus: F,
)
    requires
        is_matrix(m.len() as int, n_cols),
        ops_in_range(ops, n_cols),
    ensures
        columns_of(apply_ops(m, n_cols, ops, plus), n_cols) == apply_ops_to_columns(
            columns_of(m, n_cols),
            ops,
            plus,
        ),
    decreases ops.len(),
{
    if ops.len() > 0 {
        let rest = ops.drop_last();
        assert forall|j: int| 0 <= j < rest.len() implies (#[trigger] rest[j]).0 < n_cols
            && rest[j].1 < n_cols by {
            assert(rest[j] == ops[j]);
        }
        lemma_columns_commute(m, n_cols, rest, plus);
        lemma_apply_len(m, n_cols, rest, plus);
        let prev = apply_ops(m, n_cols, rest, plus);
        let op = ops.last();
        assert(op == ops[ops.len() - 1]);
        let lhs = columns_of(add_column(prev, n_cols, op, plus), n_cols);
        let rhs = add_into_column(columns_of(prev, n_cols), op, plus);
        assert forall|c: usize| #[trigger] lhs.contains_key(c) implies lhs[c] == rhs[c] by {
            lemma_column_after_op(prev, n_cols, op, plus, c as int);
        }
        assert(lhs =~= rhs);
    }
}

/// Operations that name only columns of `keys` act on the columns of `keys`
/// alone: restricting first or afterwards gives the same buffers.
pub proof fn lemma_restrict_commutes<T, F: Fn(T, T) -> T>(
    cols: Map<usize, Seq<T>>,
    keys: Set<usize>,
    ops: Seq<(usize, usize)>,
    plus: F,
)
    requires
        ops_within(ops, keys),
        ops_within(ops, cols.dom()),
    ensures
        apply_ops_to_columns(cols.restrict(keys), ops, plus) == apply_ops_to_columns(
            cols,
            ops,
            plus,
        ).restrict(keys),
    decreases ops.len(),
{
    if ops.len() > 0 {
        let rest = ops.drop_last();
        assert forall|j: int| 0 <= j < rest.len() implies keys.contains((#[trigger] rest[j]).0)
            && keys.contains(rest[j].1) by {
            assert(rest[j] == ops[j]);
        }
        assert forall|j: int| 0 <= j < rest.len() implies cols.dom().contains(
            (#[trigger] rest[j]).0,
        ) && cols.dom().contains(rest[j].1) by {
            assert(rest[j] == ops[j]);
        }
        lemma_restrict_commutes(cols, keys, rest, plus);
        lemma_columns_keys(cols, rest, plus);
        assert(ops.last() == ops[ops.len() - 1]);
        let full = apply_ops_to_columns(cols, rest, plus);
        assert(keys.contains(ops.last().0) && keys.contains(ops.last().1));
        assert(full.dom().contains(ops.last().0) && full.dom().contains(ops.last().1));
        assert(add_into_column(full.restrict(keys), ops.last(), plus) =~= add_into_column(
            full,
            ops.last(),
            plus,
        ).restrict(keys));
    }
}

/// The operations keep the set of column keys.
pub proof fn lemma_columns_keys<T, F: Fn(T, T) -> T>(
    cols: Map<usize, Seq<T>>,
    ops: Seq<(usize, usize)>,
    plus: F,
)
    requires
        ops_within(ops, cols.dom()),
    ensures
        apply_ops_to_columns(cols, ops, plus).dom() == cols.dom(),
    decreases ops.len(),
{
    if ops.len() > 0 {
        let rest = ops.drop_last();
        assert forall|j: int| 0 <= j < rest.len() implies cols.dom().contains(
            (#[trigger] rest[j]).0,
        ) && cols.dom().contains(rest[j].1) by {
            assert(rest[j] == ops[j]);
        }
        lemma_columns_keys(cols, rest, plus);
        assert(ops.last() == ops[ops.len() - 1]);
        assert(apply_ops_to_columns(cols, ops, plus).dom() =~= cols.dom());
    }
}

/// Two matrices of one shape with the same columns are equal.
pub proof fn lemma_columns_determine<T>(x: Seq<T>, y: Seq<T>, n_cols: int)
    requires
        is_matrix(x.len() as int, n_cols),
        n_cols <= usize::MAX,
        x.len() == y.len(),
        columns_of(x, n_cols) == columns_of(y, n_cols),
    ensures
        x == y,
{
    assert forall|i: int| 0 <= i < x.len() implies x[i] == y[i] by {
        lemma_split_index(n_cols, i);
        let r = i / n_cols;
        let c = (i % n_cols) as usize;
        assert(c == i % n_cols);
        lemma_rows_times_cols(x.len() as int, n_cols);
        assert(r < x.len() as int / n_cols) by (nonlinear_arith)
            requires
                i == r * n_cols + c,
                0 <= c < n_cols,
                i < x.len(),
                (x.len() as int / n_cols) * n_cols == x.len(),
                n_cols > 0,
        ;
        assert(columns_of(x, n_cols).contains_key(c));
        assert(columns_of(x, n_cols)[c] == column(x, n_cols, c as int));
        assert(columns_of(y, n_cols)[c] == column(y, n_cols, c as int));
        assert(column(x, n_cols, c as int)[r] == x[r * n_cols + c]);
        assert(column(y, n_cols, c as int)[r] == y[r * n_cols + c]);
    }
    assert(x =~= y);
}

} // verus!
