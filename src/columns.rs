use vstd::prelude::*;

use std::collections::HashMap;

use vstd::seq_lib::lemma_seq_contains_after_push;

use crate::model::{
    named_columns, named_views, ops_within,
    add_into_column, apply_ops_to_columns, column, column_views, columns_of, is_addition,
    is_matrix, lemma_call_sum, lemma_row_fits, lemma_rows_times_cols, ops_in_range, sum_of,
};

verus! {

/// Copies each column of a row-major matrix into a buffer of its own,
/// reading the matrix row by row.
pub fn split_columns<T: Copy>(data: &Vec<T>, n_cols: usize) -> (cols: Vec<Vec<T>>)
    requires
        is_matrix(data@.len() as int, n_cols as int),
    ensures
        cols@.len() == n_cols,
        column_views(cols@) == columns_of(data@, n_cols as int),
{
    let ghost m = data@;
    let ghost n = n_cols as int;
    let n_rows = data.len() / n_cols;
    proof {
        lemma_rows_times_cols(data.len() as int, n);
    }
    let mut cols: Vec<Vec<T>> = Vec::new();
    let mut c: usize = 0;
    while c < n_cols
        invariant
            0 <= c <= n_cols,
            cols@.len() == c,
            forall|k: int| 0 <= k < c ==> (#[trigger] cols@[k])@.len() == 0,
        decreases n_cols - c,
    {
        cols.push(Vec::new());
        c = c + 1;
    }
    let mut r: usize = 0;
    while r < n_rows
        invariant
            0 <= r <= n_rows,
            n == n_cols as int,
            n_cols > 0,
            n_rows * n_cols == m.len(),
            n_rows == m.len() as int / n,
            m.len() <= usize::MAX,
            data@ == m,
            cols@.len() == n_cols,
            forall|k: int| 0 <= k < n ==> (#[trigger] cols@[k])@ == column(m, n, k).take(r as int),
        decreases n_rows - r,
    {
        proof {
            lemma_row_fits(n, n_rows as int, r as int);
        }
        let base = r * n_cols;
        let mut c: usize = 0;
        while c < n_cols
            invariant
                0 <= c <= n_cols,
                0 <= r < n_rows,
                base == r * n,
                base + n <= m.len(),
                n == n_cols as int,
                n_rows == m.len() as int / n,
                m.len() <= usize::MAX,
                data@ == m,
                cols@.len() == n_cols,
                forall|k: int|
                    0 <= k < n ==> (#[trigger] cols@[k])@ == column(m, n, k).take(
                        if k < c {
                            r + 1
                        } else {
                            r as int
                        },
                    ),
            decreases n_cols - c,
        {
            let element = data[base + c];
            cols[c].push(element);
            proof {
                assert(column(m, n, c as int).take(r + 1) =~= column(m, n, c as int).take(
                    r as int,
                ).push(element));
            }
            c = c + 1;
        }
        r = r + 1;
    }
    proof {
        assert forall|k: usize| k < n_cols implies column_views(cols@)[k] == columns_of(m, n)[k] by {
            assert(column(m, n, k as int).take(n_rows as int) =~= column(m, n, k as int));
        }
        assert(column_views(cols@) =~= columns_of(m, n));
    }
    cols
}

/// Applies each operation `(a, b)` to column buffers: buffer `a` is replaced
/// by the pairwise sums of buffers `a` and `b`.
pub fn add_columns<T: Copy, F: Fn(T, T) -> T>(
    cols: &mut Vec<Vec<T>>,
    adds: &[(usize, usize)],
    plus: F,
)
    requires
        ops_in_range(adds@, old(cols)@.len() as int),
        is_addition(plus),
    ensures
        final(cols)@.len() == old(cols)@.len(),
        column_views(final(cols)@) == apply_ops_to_columns(column_views(old(cols)@), adds@, plus),
{
    let ghost start = column_views(cols@);
    let mut j: usize = 0;
    while j < adds.len()
        invariant
            0 <= j <= adds.len(),
            cols@.len() == old(cols)@.len(),
            start == column_views(old(cols)@),
            ops_in_range(adds@, cols@.len() as int),
            is_addition(plus),
            column_views(cols@) == apply_ops_to_columns(start, adds@.take(j as int), plus),
        decreases adds.len() - j,
    {
        let (column_a, column_b) = adds[j];
        let ghost prev = column_views(cols@);
        proof {
            assert(adds@[j as int] == (column_a, column_b));
            assert(adds@.take(j + 1).drop_last() =~= adds@.take(j as int));
            assert(prev[column_a] == cols@[column_a as int]@);
            assert(prev[column_b] == cols@[column_b as int]@);
        }
        let len = if cols[column_a].len() <= cols[column_b].len() {
            cols[column_a].len()
        } else {
            cols[column_b].len()
        };
        let mut new_col: Vec<T> = Vec::with_capacity(len);
        let mut r: usize = 0;
        while r < len
            invariant
                0 <= r <= len,
                len <= cols@[column_a as int]@.len(),
                len <= cols@[column_b as int]@.len(),
                column_a < cols@.len(),
                column_b < cols@.len(),
                is_addition(plus),
                new_col@.len() == r,
                forall|k: int|
                    0 <= k < r ==> #[trigger] new_col@[k] == sum_of(
                        plus,
                        cols@[column_a as int]@[k],
                        cols@[column_b as int]@[k],
                    ),
            decreases len - r,
        {
            let sum = plus(cols[column_a][r], cols[column_b][r]);
            proof {
                lemma_call_sum(
                    plus,
                    cols@[column_a as int]@[r as int],
                    cols@[column_b as int]@[r as int],
                    sum,
                );
            }
            new_col.push(sum);
            r = r + 1;
        }
        cols.set(column_a, new_col);
        proof {
            let next = add_into_column(prev, (column_a, column_b), plus);
            assert(next[column_a] =~= cols@[column_a as int]@);
            assert(column_views(cols@) =~= next);
        }
        j = j + 1;
    }
    proof {
        assert(adds@.take(adds@.len() as int) =~= adds@);
    }
}

/// Writes column buffers back into a row-major matrix: element `r` of buffer
/// `c` goes to row `r`, column `c`.
pub fn merge_columns<T: Copy>(data: &mut Vec<T>, cols: &Vec<Vec<T>>, n_cols: usize)
    requires
        is_matrix(old(data)@.len() as int, n_cols as int),
        cols@.len() == n_cols,
        forall|c: int|
            0 <= c < n_cols ==> (#[trigger] cols@[c])@.len() == old(data)@.len() as int
                / n_cols as int,
    ensures
        final(data)@.len() == old(data)@.len(),
        columns_of(final(data)@, n_cols as int) == column_views(cols@),
{
    let ghost m = data@;
    let ghost n = n_cols as int;
    let n_rows = data.len() / n_cols;
    proof {
        lemma_rows_times_cols(data.len() as int, n);
    }
    let mut r: usize = 0;
    while r < n_rows
        invariant
            0 <= r <= n_rows,
            n == n_cols as int,
            n_cols > 0,
            n_rows * n_cols == m.len(),
            n_rows == m.len() as int / n,
            m.len() <= usize::MAX,
            data@.len() == m.len(),
            cols@.len() == n_cols,
            forall|c: int| 0 <= c < n ==> (#[trigger] cols@[c])@.len() == n_rows,
            forall|r2: int, c: int|
                0 <= r2 < r && 0 <= c < n ==> #[trigger] data@[r2 * n + c] == (
                #[trigger] cols@[c])@[r2],
        decreases n_rows - r,
    {
        proof {
            lemma_row_fits(n, n_rows as int, r as int);
        }
        let base = r * n_cols;
        let mut c: usize = 0;
        while c < n_cols
            invariant
                0 <= c <= n_cols,
                0 <= r < n_rows,
                base == r * n,
                base + n <= m.len(),
                n == n_cols as int,
                n_cols > 0,
                n_rows == m.len() as int / n,
                m.len() <= usize::MAX,
                data@.len() == m.len(),
                cols@.len() == n_cols,
                forall|c2: int| 0 <= c2 < n ==> (#[trigger] cols@[c2])@.len() == n_rows,
                forall|r2: int, c2: int|
                    0 <= r2 < r && 0 <= c2 < n ==> #[trigger] data@[r2 * n + c2] == (
                    #[trigger] cols@[c2])@[r2],
                forall|c2: int| 0 <= c2 < c ==> data@[base + c2] == (#[trigger] cols@[c2])@[r as int],
            decreases n_cols - c,
        {
            let element = cols[c][r];
            let ghost before = data@;
            data.set(base + c, element);
            proof {
                assert forall|r2: int, c2: int| 0 <= r2 < r && 0 <= c2 < n implies #[trigger] data@[r2
                    * n + c2] == (#[trigger] cols@[c2])@[r2] by {
                    lemma_row_fits(n, r as int, r2);
                    assert(before[r2 * n + c2] == cols@[c2]@[r2]);
                }
            }
            c = c + 1;
        }
        proof {
            assert forall|r2: int, c2: int| 0 <= r2 < r + 1 && 0 <= c2 < n implies #[trigger] data@[r2
                * n + c2] == (#[trigger] cols@[c2])@[r2] by {
                if r2 == r {
                    assert(data@[base + c2] == cols@[c2]@[r as int]);
                }
            }
        }
        r = r + 1;
    }
    proof {
        assert forall|c: usize| c < n_cols implies columns_of(data@, n)[c] == column_views(cols@)[c] by {
            assert(column(data@, n, c as int) =~= cols@[c as int]@);
        }
        assert(columns_of(data@, n) =~= column_views(cols@));
    }
}

/// Buffers for the columns that a list of operations names, keyed by
/// column index, with the keys in the order in which they were first named.
pub struct NamedColumns<T> {
    keys: Vec<usize>,
    columns: HashMap<usize, Vec<T>>,
}

impl<T: Copy> View for NamedColumns<T> {
    type V = Map<usize, Seq<T>>;

    closed spec fn view(&self) -> Map<usize, Seq<T>> {
        named_views(self.columns@)
    }
}

impl<T: Copy> NamedColumns<T> {
    /// The key list holds exactly the keys of the map.
    pub closed spec fn wf(&self) -> bool {
        forall|k: usize| self.columns@.contains_key(k) <==> self.keys@.contains(k)
    }

    /// Copies out of a row-major matrix the columns that `adds` names, and no
    /// other.
    pub fn split(data: &Vec<T>, adds: &[(usize, usize)], n_cols: usize) -> (r: Self)
        requires
            is_matrix(data@.len() as int, n_cols as int),
            ops_in_range(adds@, n_cols as int),
        ensures
            r.wf(),
            r@ == columns_of(data@, n_cols as int).restrict(named_columns(adds@)),
    {
        broadcast use vstd::std_specs::hash::group_hash_axioms;

        let ghost m = data@;
        let ghost n = n_cols as int;
        let n_rows = data.len() / n_cols;
        proof {
            lemma_rows_times_cols(data.len() as int, n);
        }
        // Find the columns which appear in the adds
        let mut columns: HashMap<usize, Vec<T>> = HashMap::new();
        let mut keys: Vec<usize> = Vec::new();
        let mut j: usize = 0;
        while j < adds.len()
            invariant
                0 <= j <= adds.len(),
                ops_in_range(adds@, n),
                forall|k: usize| columns@.contains_key(k) <==> keys@.contains(k),
                forall|k: usize|
                    columns@.contains_key(k) <==> #[trigger] named_columns(
                        adds@.take(j as int),
                    ).contains(k),
                forall|t: int| 0 <= t < keys@.len() ==> (#[trigger] keys@[t]) < n,
            decreases adds.len() - j,
        {
            let (column_a, column_b) = adds[j];
            if !columns.contains_key(&column_a) {
                columns.insert(column_a, Vec::new());
                let ghost before = keys@;
                keys.push(column_a);
                proof {
                    assert forall|k: usize| columns@.contains_key(k) <==> keys@.contains(k) by {
                        lemma_seq_contains_after_push(before, column_a, k);
                    }
                }
            }
            if !columns.contains_key(&column_b) {
                columns.insert(column_b, Vec::new());
                let ghost before = keys@;
                keys.push(column_b);
                proof {
                    assert forall|k: usize| columns@.contains_key(k) <==> keys@.contains(k) by {
                        lemma_seq_contains_after_push(before, column_b, k);
                    }
                }
            }
            proof {
                let prefix = adds@.take(j as int);
                let longer = adds@.take(j + 1);
                assert(longer[j as int] == (column_a, column_b));
                assert forall|k: usize| columns@.contains_key(k) <==> #[trigger] named_columns(
                    longer,
                ).contains(k) by {
                    if named_columns(prefix).contains(k) {
                        let w = choose|w: int|
                            0 <= w < prefix.len() && (prefix[w].0 == k || prefix[w].1 == k);
                        assert(longer[w] == prefix[w]);
                    }
                    if named_columns(longer).contains(k) && k != column_a && k != column_b {
                        let w = choose|w: int|
                            0 <= w < longer.len() && (longer[w].0 == k || longer[w].1 == k);
                        assert(prefix[w] == longer[w]);
                        assert(named_columns(prefix).contains(k));
                    }
                }
            }
            j = j + 1;
        }
        proof {
            assert(adds@.take(adds@.len() as int) =~= adds@);
        }
        let ghost dom = columns@.dom();
        // Split the named columns out of the rows
        let mut t: usize = 0;
        while t < keys.len()
            invariant
                0 <= t <= keys@.len(),
                n == n_cols as int,
                n_cols > 0,
                n_rows * n_cols == m.len(),
                n_rows == m.len() as int / n,
                m.len() <= usize::MAX,
                data@ == m,
                columns@.dom() == dom,
                forall|k: usize| dom.contains(k) <==> keys@.contains(k),
                forall|t2: int| 0 <= t2 < keys@.len() ==> (#[trigger] keys@[t2]) < n,
                forall|t2: int|
                    0 <= t2 < t ==> columns@[#[trigger] keys@[t2]]@ == column(
                        m,
                        n,
                        keys@[t2] as int,
                    ),
            decreases keys@.len() - t,
        {
            let k = keys[t];
            let mut column_buf: Vec<T> = Vec::with_capacity(n_rows);
            let mut r: usize = 0;
            while r < n_rows
                invariant
                    0 <= r <= n_rows,
                    k < n_cols,
                    n == n_cols as int,
                    n_rows * n_cols == m.len(),
                    n_rows == m.len() as int / n,
                    m.len() <= usize::MAX,
                    data@ == m,
                    column_buf@ == column(m, n, k as int).take(r as int),
                decreases n_rows - r,
            {
                proof {
                    lemma_row_fits(n, n_rows as int, r as int);
                }
                let element = data[r * n_cols + k];
                column_buf.push(element);
                proof {
                    assert(column(m, n, k as int).take(r + 1) =~= column(m, n, k as int).take(
                        r as int,
                    ).push(element));
                }
                r = r + 1;
            }
            proof {
                assert(column(m, n, k as int).take(n_rows as int) =~= column(m, n, k as int));
            }
            columns.insert(k, column_buf);
            proof {
                assert(columns@.dom() =~= dom);
            }
            t = t + 1;
        }
        let r = NamedColumns { keys, columns };
        proof {
            let want = columns_of(m, n).restrict(named_columns(adds@));
            assert forall|k: usize| #[trigger] want.contains_key(k) implies r@[k] == want[k] by {
                let t2 = choose|t2: int| 0 <= t2 < r.keys@.len() && r.keys@[t2] == k;
            }
            assert(r@ =~= want);
        }
        r
    }

    /// The buffer of column `k`, if `k` is one of the named columns.
    pub fn get(&self, k: usize) -> (r: Option<&Vec<T>>)
        ensures
            match r {
                Some(v) => self@.contains_key(k) && v@ == self@[k],
                None => !self@.contains_key(k),
            },
    {
        broadcast use vstd::std_specs::hash::group_hash_axioms;

        self.columns.get(&k)
    }

    /// Applies each operation `(a, b)` to the buffers: buffer `a` is replaced
    /// by the pairwise sums of buffers `a` and `b`.
    pub fn add<F: Fn(T, T) -> T>(&mut self, adds: &[(usize, usize)], plus: F)
        requires
            old(self).wf(),
            ops_within(adds@, old(self)@.dom()),
            is_addition(plus),
        ensures
            final(self).wf(),
            final(self)@ == apply_ops_to_columns(old(self)@, adds@, plus),
    {
        broadcast use vstd::std_specs::hash::group_hash_axioms;

        let ghost start = self@;
        let ghost dom = self.columns@.dom();
        let mut j: usize = 0;
        while j < adds.len()
            invariant
                0 <= j <= adds.len(),
                self.wf(),
                self.columns@.dom() == dom,
                start.dom() == dom,
                ops_within(adds@, dom),
                is_addition(plus),
                self@ == apply_ops_to_columns(start, adds@.take(j as int), plus),
            decreases adds.len() - j,
        {
            let (column_a, column_b) = adds[j];
            let ghost prev = self@;
            proof {
                assert(adds@[j as int] == (column_a, column_b));
                assert(adds@.take(j + 1).drop_last() =~= adds@.take(j as int));
            }
            let col_a = self.columns.get(&column_a).unwrap();
            let col_b = self.columns.get(&column_b).unwrap();
            let len = if col_a.len() <= col_b.len() {
                col_a.len()
            } else {
                col_b.len()
            };
            let mut new_col: Vec<T> = Vec::with_capacity(len);
            let mut r: usize = 0;
            while r < len
                invariant
                    0 <= r <= len,
                    len <= col_a@.len(),
                    len <= col_b@.len(),
                    is_addition(plus),
                    new_col@.len() == r,
                    forall|k: int|
                        0 <= k < r ==> #[trigger] new_col@[k] == sum_of(plus, col_a@[k], col_b@[k]),
                decreases len - r,
            {
                let sum = plus(col_a[r], col_b[r]);
                proof {
                    lemma_call_sum(plus, col_a@[r as int], col_b@[r as int], sum);
                }
                new_col.push(sum);
                r = r + 1;
            }
            let ghost sums = new_col@;
            self.columns.insert(column_a, new_col);
            proof {
                let next = add_into_column(prev, (column_a, column_b), plus);
                assert(next[column_a] =~= sums);
                assert(self@ =~= next);
                assert(self.columns@.dom() =~= dom);
            }
            j = j + 1;
        }
        proof {
            assert(adds@.take(adds@.len() as int) =~= adds@);
        }
    }

    /// Writes the buffers back into a row-major matrix: element `r` of the
    /// buffer keyed `c` goes to row `r`, column `c`. The other columns keep
    /// their values.
    pub fn merge_into(&self, data: &mut Vec<T>, n_cols: usize)
        requires
            self.wf(),
            is_matrix(old(data)@.len() as int, n_cols as int),
            forall|k: usize|
                #[trigger] self@.contains_key(k) ==> k < n_cols && self@[k].len()
                    == old(data)@.len() as int / n_cols as int,
        ensures
            final(data)@.len() == old(data)@.len(),
            columns_of(final(data)@, n_cols as int) == columns_of(
                old(data)@,
                n_cols as int,
            ).union_prefer_right(self@),
    {
        broadcast use vstd::std_specs::hash::group_hash_axioms;

        let ghost m = data@;
        let ghost n = n_cols as int;
        let ghost dom = self.columns@.dom();
        let n_rows = data.len() / n_cols;
        proof {
            lemma_rows_times_cols(data.len() as int, n);
        }
        proof {
            assert forall|k: usize| #[trigger] dom.contains(k) implies k < n && self@[k].len()
                == n_rows by {
                assert(self@.contains_key(k));
            }
        }
        let mut r: usize = 0;
        while r < n_rows
            invariant
                0 <= r <= n_rows,
                n == n_cols as int,
                n_cols > 0,
                n_rows * n_cols == m.len(),
                n_rows == m.len() as int / n,
                m.len() <= usize::MAX,
                data@.len() == m.len(),
                self.wf(),
                dom == self.columns@.dom(),
                forall|k: usize| #[trigger] dom.contains(k) ==> k < n && self@[k].len() == n_rows,
                forall|r2: int, c: usize|
                    0 <= r2 < n_rows && c < n ==> #[trigger] data@[r2 * n + c] == if r2 < r
                        && dom.contains(c) {
                        self@[c][r2]
                    } else {
                        m[r2 * n + c]
                    },
            decreases n_rows - r,
        {
            proof {
                lemma_row_fits(n, n_rows as int, r as int);
            }
            let base = r * n_cols;
            let mut t: usize = 0;
            while t < self.keys.len()
                invariant
                    0 <= t <= self.keys@.len(),
                    0 <= r < n_rows,
                    n_rows * n_cols == m.len(),
                    base == r * n,
                    base + n <= m.len(),
                    n == n_cols as int,
                    n_cols > 0,
                    n_rows == m.len() as int / n,
                    m.len() <= usize::MAX,
                    data@.len() == m.len(),
                    self.wf(),
                    dom == self.columns@.dom(),
                    forall|k: usize|
                        #[trigger] dom.contains(k) ==> k < n && self@[k].len() == n_rows,
                    forall|r2: int, c: usize|
                        0 <= r2 < n_rows && c < n ==> #[trigger] data@[r2 * n + c] == if (r2 < r
                            && dom.contains(c)) || (r2 == r && self.keys@.take(t as int).contains(
                            c,
                        )) {
                            self@[c][r2]
                        } else {
                            m[r2 * n + c]
                        },
                decreases self.keys@.len() - t,
            {
                let k = self.keys[t];
                proof {
                    assert(self.keys@.contains(k));
                }
                let col = self.columns.get(&k).unwrap();
                let element = col[r];
                let ghost before = data@;
                proof {
                    assert(self@.contains_key(k));
                    assert(col@ == self@[k]);
                    assert(element == self@[k][r as int]);
                }
                data.set(base + k, element);
                proof {
                    assert(self.keys@.take(t + 1) =~= self.keys@.take(t as int).push(k));
                    assert forall|r2: int, c: usize| 0 <= r2 < n_rows && c < n implies #[trigger] data@[r2
                        * n + c] == if (r2 < r && dom.contains(c)) || (r2 == r && self.keys@.take(
                        t + 1,
                    ).contains(c)) {
                        self@[c][r2]
                    } else {
                        m[r2 * n + c]
                    } by {
                        lemma_seq_contains_after_push(self.keys@.take(t as int), k, c);
                        lemma_row_fits(n, n_rows as int, r2);
                        if r2 != r {
                            if r2 < r {
                                lemma_row_fits(n, r as int, r2);
                            } else {
                                lemma_row_fits(n, r2, r as int);
                            }
                            assert(r2 * n + c != base + k);
                            assert(data@[r2 * n + c] == before[r2 * n + c]);
                        } else if c != k {
                            assert(r2 * n == base);
                            assert(r2 * n + c != base + k);
                            assert(data@[r2 * n + c] == before[r2 * n + c]);
                            assert(self.keys@.take(t + 1).contains(c) == self.keys@.take(t as int).contains(c));
                        } else {
                            assert(r2 * n + c == base + k);
                            assert(data@[base + k] == element);
                            assert(self.keys@.take(t + 1).contains(c));
                        }
                        assert(before[r2 * n + c] == if (r2 < r && dom.contains(c)) || (r2 == r
                            && self.keys@.take(t as int).contains(c)) {
                            self@[c][r2]
                        } else {
                            m[r2 * n + c]
                        });
                    }
                }
                t = t + 1;
            }
            proof {
                assert(self.keys@.take(self.keys@.len() as int) =~= self.keys@);
            }
            r = r + 1;
        }
        proof {
            let want = columns_of(m, n).union_prefer_right(self@);
            assert forall|c: usize| #[trigger] want.contains_key(c) implies columns_of(data@, n)[c]
                == want[c] by {
                if dom.contains(c) {
                    assert(column(data@, n, c as int) =~= self@[c]);
                } else {
                    assert(column(data@, n, c as int) =~= column(m, n, c as int));
                }
            }
            assert(columns_of(data@, n) =~= want);
        }
    }
}

} // verus!
