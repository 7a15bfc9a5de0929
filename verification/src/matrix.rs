//! A growable task-by-resource table of unit counts, with the column sums
//! that the accounting invariants are stated over.

use vstd::prelude::*;

verus! {

/// Every row of `m` has exactly `cols` entries.
pub open spec fn rectangular(m: Seq<Seq<nat>>, cols: nat) -> bool {
    forall|t: int| 0 <= t < m.len() ==> (#[trigger] m[t]).len() == cols
}

/// The sum of column `r` over all rows of `m`.
pub open spec fn col_sum(m: Seq<Seq<nat>>, r: int) -> nat
    decreases m.len(),
{
    if m.len() == 0 {
        0
    } else {
        col_sum(m.drop_last(), r) + m.last()[r]
    }
}

/// `m` with the cell at row `t`, column `r` replaced by `v`.
pub open spec fn with_cell(m: Seq<Seq<nat>>, t: int, r: int, v: nat) -> Seq<Seq<nat>> {
    m.update(t, m[t].update(r, v))
}

/// `m` with a zero appended to every row.
pub open spec fn with_zero_col(m: Seq<Seq<nat>>) -> Seq<Seq<nat>> {
    Seq::new(m.len(), |t: int| m[t].push(0nat))
}

/// `m` with column `r` set to zero in every row.
pub open spec fn with_cleared_col(m: Seq<Seq<nat>>, r: int) -> Seq<Seq<nat>> {
    Seq::new(m.len(), |t: int| m[t].update(r, 0nat))
}

/// A row of `cols` zeros.
pub open spec fn zero_row(cols: nat) -> Seq<nat> {
    Seq::new(cols, |r: int| 0nat)
}

/// `m` extended with zero rows until it has at least `n` rows.
pub open spec fn with_rows(m: Seq<Seq<nat>>, n: nat, cols: nat) -> Seq<Seq<nat>> {
    if m.len() >= n {
        m
    } else {
        Seq::new(n, |t: int| if t < m.len() { m[t] } else { zero_row(cols) })
    }
}

/// Two tables that agree on column `r` have the same sum there.
proof fn lemma_col_sum_agree(a: Seq<Seq<nat>>, b: Seq<Seq<nat>>, r: int)
    requires
        a.len() == b.len(),
        forall|t: int| 0 <= t < a.len() ==> a[t][r] == b[t][r],
    ensures
        col_sum(a, r) == col_sum(b, r),
    decreases a.len(),
{
    if a.len() > 0 {
        lemma_col_sum_agree(a.drop_last(), b.drop_last(), r);
    }
}

/// Replacing one row changes a column's sum by the difference in that row.
proof fn lemma_col_sum_update(m: Seq<Seq<nat>>, t: int, row: Seq<nat>, r: int)
    requires
        0 <= t < m.len(),
    ensures
        col_sum(m.update(t, row), r) == col_sum(m, r) - m[t][r] + row[r],
    decreases m.len(),
{
    let u = m.update(t, row);
    if t == m.len() - 1 {
        assert(u.drop_last() =~= m.drop_last());
    } else {
        assert(u.drop_last() =~= m.drop_last().update(t, row));
        lemma_col_sum_update(m.drop_last(), t, row, r);
    }
}

/// A single cell never exceeds the sum of its column.
pub proof fn lemma_col_sum_bound(m: Seq<Seq<nat>>, t: int, r: int)
    requires
        0 <= t < m.len(),
    ensures
        m[t][r] <= col_sum(m, r),
    decreases m.len(),
{
    if t < m.len() - 1 {
        lemma_col_sum_bound(m.drop_last(), t, r);
    }
}

/// A column of zeros sums to zero.
proof fn lemma_col_sum_zero(m: Seq<Seq<nat>>, r: int)
    requires
        forall|t: int| 0 <= t < m.len() ==> m[t][r] == 0,
    ensures
        col_sum(m, r) == 0,
    decreases m.len(),
{
    if m.len() > 0 {
        lemma_col_sum_zero(m.drop_last(), r);
    }
}

/// Changing one cell changes its column's sum by the difference and leaves
/// every other column's sum as it was.
pub proof fn lemma_col_sum_with_cell(m: Seq<Seq<nat>>, t: int, r: int, v: nat, c: int)
    requires
        0 <= t < m.len(),
        0 <= r < m[t].len(),
        0 <= c < m[t].len(),
    ensures
        c == r ==> col_sum(with_cell(m, t, r, v), c) == col_sum(m, c) - m[t][r] + v,
        c != r ==> col_sum(with_cell(m, t, r, v), c) == col_sum(m, c),
{
    lemma_col_sum_update(m, t, m[t].update(r, v), c);
}

/// Appending zero rows changes no column sum.
pub proof fn lemma_col_sum_with_rows(m: Seq<Seq<nat>>, n: nat, cols: nat, r: int)
    requires
        0 <= r < cols,
    ensures
        col_sum(with_rows(m, n, cols), r) == col_sum(m, r),
    decreases n,
{
    if m.len() < n {
        let big = with_rows(m, n, cols);
        let prev = with_rows(m, (n - 1) as nat, cols);
        assert(big.drop_last() =~= prev);
        lemma_col_sum_with_rows(m, (n - 1) as nat, cols, r);
    }
}

/// Appending a zero column leaves the sums of the old columns as they were,
/// and the new column sums to zero.
pub proof fn lemma_col_sum_with_zero_col(m: Seq<Seq<nat>>, cols: nat, r: int)
    requires
        rectangular(m, cols),
        0 <= r <= cols,
    ensures
        r < cols ==> col_sum(with_zero_col(m), r) == col_sum(m, r),
        r == cols ==> col_sum(with_zero_col(m), r) == 0,
{
    let z = with_zero_col(m);
    if r < cols {
        lemma_col_sum_agree(z, m, r);
    } else {
        lemma_col_sum_zero(z, r);
    }
}

/// Clearing a column makes its sum zero and leaves the other sums as they
/// were.
pub proof fn lemma_col_sum_with_cleared_col(m: Seq<Seq<nat>>, cols: nat, r: int, c: int)
    requires
        rectangular(m, cols),
        0 <= r < cols,
        0 <= c < cols,
    ensures
        c == r ==> col_sum(with_cleared_col(m, r), c) == 0,
        c != r ==> col_sum(with_cleared_col(m, r), c) == col_sum(m, c),
{
    let z = with_cleared_col(m, r);
    if c == r {
        lemma_col_sum_zero(z, c);
    } else {
        lemma_col_sum_agree(z, m, c);
    }
}

/// A table of counts with one row per task and one column per resource.
/// Rows and columns only ever grow.
pub struct Matrix {
    rows: Vec<Vec<usize>>,
    cols: usize,
}

impl Matrix {
    /// The table as a sequence of rows.
    pub closed spec fn view(&self) -> Seq<Seq<nat>> {
        Seq::new(
            self.rows@.len(),
            |t: int| Seq::new(self.rows@[t]@.len(), |r: int| self.rows@[t]@[r] as nat),
        )
    }

    /// The number of columns.
    pub closed spec fn cols(&self) -> nat {
        self.cols as nat
    }

    /// The table is rectangular, and every count fits a machine word.
    pub open spec fn wf(&self) -> bool {
        &&& rectangular(self@, self.cols())
        &&& self@.len() <= usize::MAX
        &&& self.cols() <= usize::MAX
        &&& forall|t: int, r: int|
            0 <= t < self@.len() && 0 <= r < self.cols() ==> #[trigger] self@[t][r] <= usize::MAX
    }

    /// A table with no rows and `cols` columns.
    pub fn new(cols: usize) -> (m: Matrix)
        ensures
            m.wf(),
            m@ == Seq::<Seq<nat>>::empty(),
            m.cols() == cols,
    {
        let m = Matrix { rows: Vec::new(), cols };
        assert(m@ =~= Seq::<Seq<nat>>::empty());
        m
    }

    /// The number of rows.
    pub fn num_rows(&self) -> (n: usize)
        ensures
            n == self@.len(),
    {
        self.rows.len()
    }

    /// The number of columns.
    pub fn num_cols(&self) -> (n: usize)
        ensures
            n == self.cols(),
    {
        self.cols
    }

    /// The count at row `t`, column `r`.
    pub fn get(&self, t: usize, r: usize) -> (v: usize)
        requires
            self.wf(),
            t < self@.len(),
            r < self.cols(),
        ensures
            v == self@[t as int][r as int],
    {
        assert(self@[t as int].len() == self.cols());
        self.rows[t][r]
    }

    /// Replaces the count at row `t`, column `r` by `v`.
    pub fn set(&mut self, t: usize, r: usize, v: usize)
        requires
            old(self).wf(),
            t < old(self)@.len(),
            r < old(self).cols(),
        ensures
            final(self).wf(),
            final(self).cols() == old(self).cols(),
            final(self)@ == with_cell(old(self)@, t as int, r as int, v as nat),
    {
        assert(self@[t as int].len() == self.cols());
        self.rows[t][r] = v;
        assert(self@ =~~= with_cell(old(self)@, t as int, r as int, v as nat));
        assert(rectangular(self@, self.cols())) by {
            assert forall|i: int| 0 <= i < self@.len() implies (#[trigger] self@[i]).len()
                == self.cols() by {
                assert(old(self)@[i].len() == self.cols());
            }
        }
    }

    /// Appends one row of zeros.
    pub fn push_zero_row(&mut self)
        requires
            old(self).wf(),
        ensures
            final(self).wf(),
            final(self).cols() == old(self).cols(),
            final(self)@ == old(self)@.push(zero_row(old(self).cols())),
    {
        let row = vec![0usize; self.cols];
        self.rows.push(row);
        assert(self.rows@.len() == self.rows.len());
        assert(self@ =~~= old(self)@.push(zero_row(old(self).cols())));
        assert(rectangular(self@, self.cols())) by {
            assert forall|i: int| 0 <= i < self@.len() implies (#[trigger] self@[i]).len()
                == self.cols() by {
                if i < old(self)@.len() {
                    assert(old(self)@[i].len() == self.cols());
                }
            }
        }
        assert forall|i: int, r: int|
            0 <= i < self@.len() && 0 <= r < self.cols() implies #[trigger] self@[i][r]
            <= usize::MAX by {}
    }

    /// Appends rows of zeros until there are at least `n` rows.
    pub fn ensure_rows(&mut self, n: usize)
        requires
            old(self).wf(),
        ensures
            final(self).wf(),
            final(self).cols() == old(self).cols(),
            final(self)@ == with_rows(old(self)@, n as nat, old(self).cols()),
    {
        while self.rows.len() < n
            invariant
                self.wf(),
                self.cols() == old(self).cols(),
                old(self)@.len() <= self@.len(),
                old(self)@.len() < n ==> self@.len() <= n,
                old(self)@.len() >= n ==> self@ == old(self)@,
                self@ == with_rows(old(self)@, self@.len(), old(self).cols()),
            decreases n - self.rows.len(),
        {
            self.push_zero_row();
            assert(self@ =~= with_rows(old(self)@, self@.len(), old(self).cols()));
        }
    }

    /// Appends one column of zeros.
    pub fn push_zero_col(&mut self)
        requires
            old(self).wf(),
            old(self).cols() < usize::MAX,
        ensures
            final(self).wf(),
            final(self).cols() == old(self).cols() + 1,
            final(self)@ == with_zero_col(old(self)@),
    {
        let mut t: usize = 0;
        while t < self.rows.len()
            invariant
                t <= self.rows@.len(),
                self.cols == old(self).cols,
                self.rows@.len() == old(self).rows@.len(),
                old(self).wf(),
                forall|i: int|
                    0 <= i < t ==> (#[trigger] self.rows@[i])@ == old(self).rows@[i]@.push(0usize),
                forall|i: int|
                    t <= i < self.rows@.len() ==> (#[trigger] self.rows@[i])@ == old(
                        self,
                    ).rows@[i]@,
            decreases self.rows.len() - t,
        {
            self.rows[t].push(0);
            t += 1;
        }
        self.cols += 1;
        assert(self@ =~~= with_zero_col(old(self)@)) by {
            assert forall|i: int| 0 <= i < self@.len() implies #[trigger] self@[i] =~= with_zero_col(
                old(self)@,
            )[i] by {
                assert(self.rows@[i]@ == old(self).rows@[i]@.push(0usize));
            }
        }
        assert(self.wf()) by {
            assert forall|i: int| 0 <= i < self@.len() implies (#[trigger] self@[i]).len()
                == self.cols() by {
                assert(old(self)@[i].len() == old(self).cols());
            }
            assert forall|i: int, r: int|
                0 <= i < self@.len() && 0 <= r < self.cols() implies #[trigger] self@[i][r]
                <= usize::MAX by {}
        }
    }

    /// Sets column `r` to zero in every row.
    pub fn clear_col(&mut self, r: usize)
        requires
            old(self).wf(),
            r < old(self).cols(),
        ensures
            final(self).wf(),
            final(self).cols() == old(self).cols(),
            final(self)@ == with_cleared_col(old(self)@, r as int),
    {
        let mut t: usize = 0;
        while t < self.rows.len()
            invariant
                t <= self.rows@.len(),
                self.cols == old(self).cols,
                r < self.cols,
                self.rows@.len() == old(self).rows@.len(),
                old(self).wf(),
                forall|i: int|
                    0 <= i < t ==> (#[trigger] self.rows@[i])@ == old(self).rows@[i]@.update(
                        r as int,
                        0usize,
                    ),
                forall|i: int|
                    t <= i < self.rows@.len() ==> (#[trigger] self.rows@[i])@ == old(
                        self,
                    ).rows@[i]@,
            decreases self.rows.len() - t,
        {
            assert(old(self)@[t as int].len() == old(self).cols());
            self.rows[t][r] = 0;
            t += 1;
        }
        assert(self@ =~~= with_cleared_col(old(self)@, r as int)) by {
            assert forall|i: int| 0 <= i < self@.len() implies #[trigger] self@[i]
                =~= with_cleared_col(old(self)@, r as int)[i] by {
                assert(self.rows@[i]@ == old(self).rows@[i]@.update(r as int, 0usize));
            }
        }
        assert(self.wf()) by {
            assert forall|i: int| 0 <= i < self@.len() implies (#[trigger] self@[i]).len()
                == self.cols() by {
                assert(old(self)@[i].len() == old(self).cols());
            }
            assert forall|i: int, c: int|
                0 <= i < self@.len() && 0 <= c < self.cols() implies #[trigger] self@[i][c]
                <= usize::MAX by {}
        }
    }
}

} // verus!
