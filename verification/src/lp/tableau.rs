//! A dense simplex tableau over exact rationals.
use vstd::prelude::*;
use crate::linear::rational::{
    Rational, div_ok, mul_ok, sub_ok, rat_div, rat_lt, rat_mul, rat_sub, lemma_lt_trans,
};
use crate::linear::expr::rat_zero;

verus! {

/// A dense simplex tableau for exact rational LP solving.
///
/// Layout:
/// - Row 0: objective row (reduced costs, last element = current objective value)
/// - Rows 1..m: constraint rows (coefficients, last element = RHS)
/// - Columns 0..n-1: structural (decision) variables
/// - Last column: RHS / objective value
///
/// `basic[row]` = column of the basic variable of constraint row `row`
/// (1-indexed); `basic[0]` is unused.
#[derive(Debug, Clone)]
pub struct Tableau {
    /// Number of structural (decision) variables.
    pub num_struct: usize,
    /// Number of constraints = rows - 1.
    pub num_constraints: usize,
    /// Total columns = num_struct + num_constraints + 1 (RHS).
    pub num_cols: usize,
    /// The tableau data: `data[row][col]`.
    pub data: Vec<Vec<Rational>>,
    /// `basic[row]` = column index of the basic variable in constraint row `row`.
    pub basic: Vec<Option<usize>>,
}

/// A positive rational.
pub open spec fn rat_pos(r: Rational) -> bool {
    r.spec_num() > 0
}

/// The row after dividing by the pivot value.
pub open spec fn scaled_row(row: Seq<Rational>, pv: Rational) -> Seq<Rational> {
    Seq::new(row.len(), |j: int| rat_div(row[j], pv))
}

/// `row - f * prow`, element by element.
pub open spec fn eliminated_row(row: Seq<Rational>, f: Rational, prow: Seq<Rational>) -> Seq<Rational> {
    Seq::new(row.len(), |j: int| rat_sub(row[j], rat_mul(f, prow[j])))
}

/// The data after pivoting on `(r, c)`.
pub open spec fn pivoted(d: Seq<Seq<Rational>>, r: int, c: int) -> Seq<Seq<Rational>> {
    let prow = scaled_row(d[r], d[r][c]);
    Seq::new(d.len(), |i: int|
        if i == r {
            prow
        } else if d[i][c].spec_num() == 0 {
            d[i]
        } else {
            eliminated_row(d[i], d[i][c], prow)
        }
    )
}

/// Every step of `row - f * prow` stays within `i64`.
pub open spec fn row_op_ok(row: Seq<Rational>, f: Rational, prow: Seq<Rational>) -> bool {
    forall|j: int| 0 <= j < row.len() ==> {
        &&& mul_ok(f, #[trigger] prow[j])
        &&& sub_ok(row[j], rat_mul(f, prow[j]))
    }
}

/// Every entry of `row` can be divided by `pv`.
pub open spec fn row_div_ok(row: Seq<Rational>, pv: Rational) -> bool {
    forall|j: int| 0 <= j < row.len() ==> div_ok(#[trigger] row[j], pv)
}

/// Every operation of a pivot on `(r, c)` stays within `i64`.
pub open spec fn pivot_ok(d: Seq<Seq<Rational>>, r: int, c: int) -> bool {
    &&& row_div_ok(d[r], d[r][c])
    &&& forall|i: int| 0 <= i < d.len() && i != r && d[i][c].spec_num() != 0 ==>
        row_op_ok(#[trigger] d[i], d[i][c], scaled_row(d[r], d[r][c]))
}

impl Tableau {
    /// The tableau's cells.
    pub open spec fn cells(&self) -> Seq<Seq<Rational>> {
        self.data@.map_values(|row: Vec<Rational>| row@)
    }

    /// Shape invariant: dimensions agree with the counts.
    pub open spec fn wf(&self) -> bool {
        &&& self.num_cols == self.num_struct + self.num_constraints + 1
        &&& self.cells().len() == self.num_constraints + 1
        &&& forall|i: int| 0 <= i < self.cells().len() ==> (#[trigger] self.cells()[i]).len() == self.num_cols
        &&& self.basic@.len() == self.num_constraints + 1
    }

    /// Create a new all-zero tableau for a standard-form LP.
    ///
    /// `num_struct` = number of structural variables; `num_constraints` = number of rows.
    pub fn new(num_struct: usize, num_constraints: usize) -> (t: Self)
        requires
            num_struct + num_constraints + 1 <= usize::MAX,
        ensures
            t.wf(),
            t.num_struct == num_struct,
            t.num_constraints == num_constraints,
            forall|i: int, j: int| 0 <= i < t.cells().len() && 0 <= j < t.num_cols ==> t.cells()[i][j] == rat_zero(),
            forall|i: int| 0 <= i < t.basic@.len() ==> t.basic@[i] is None,
    {
        let num_cols = num_struct + num_constraints + 1;
        let total_rows = num_constraints + 1;
        let mut data: Vec<Vec<Rational>> = Vec::new();
        let mut basic: Vec<Option<usize>> = Vec::new();
        let mut i: usize = 0;
        while i < total_rows
            invariant
                i <= total_rows,
                total_rows == num_constraints + 1,
                data@.len() == i,
                basic@.len() == i,
                forall|k: int| 0 <= k < i ==> (#[trigger] data@[k])@.len() == num_cols,
                forall|k: int, j: int| 0 <= k < i && 0 <= j < num_cols ==> data@[k]@[j] == rat_zero(),
                forall|k: int| 0 <= k < i ==> basic@[k] is None,
            decreases total_rows - i,
        {
            let mut row: Vec<Rational> = Vec::new();
            let mut j: usize = 0;
            while j < num_cols
                invariant
                    j <= num_cols,
                    row@.len() == j,
                    forall|k: int| 0 <= k < j ==> row@[k] == rat_zero(),
                decreases num_cols - j,
            {
                row.push(Rational::zero());
                j = j + 1;
            }
            data.push(row);
            basic.push(None);
            i = i + 1;
        }
        let t = Tableau { num_struct, num_constraints, num_cols, data, basic };
        assert forall|k: int| 0 <= k < t.cells().len() implies (#[trigger] t.cells()[k]).len() == t.num_cols by {
            assert(t.cells()[k] == t.data@[k]@);
        }
        assert forall|k: int, j: int| 0 <= k < t.cells().len() && 0 <= j < t.num_cols implies t.cells()[k][j] == rat_zero() by {
            assert(t.cells()[k] == t.data@[k]@);
        }
        t
    }

    /// Set which variable is basic in a constraint row (1-indexed).
    pub fn set_basic(&mut self, row: usize, col: usize)
        requires
            row < old(self).basic@.len(),
        ensures
            final(self).basic@ == old(self).basic@.update(row as int, Some(col)),
            final(self).cells() == old(self).cells(),
            final(self).num_struct == old(self).num_struct,
            final(self).num_constraints == old(self).num_constraints,
            final(self).num_cols == old(self).num_cols,
    {
        self.basic.set(row, Some(col));
    }

    /// Number of rows (objective + constraints).
    pub fn num_rows(&self) -> (n: usize)
        requires
            self.wf(),
        ensures
            n == self.num_constraints + 1,
            n == self.cells().len(),
    {
        self.num_constraints + 1
    }

    /// Get a reference to a cell.
    pub fn get(&self, row: usize, col: usize) -> (r: &Rational)
        requires
            self.wf(),
            row < self.cells().len(),
            col < self.num_cols,
        ensures
            *r == self.cells()[row as int][col as int],
    {
        assert(self.cells()[row as int] == self.data@[row as int]@);
        &self.data[row][col]
    }

    /// A mutable reference to a cell: the tableau afterwards holds at
    /// `(row, col)` whatever the reference ends with.
    pub fn get_mut(&mut self, row: usize, col: usize) -> (r: &mut Rational)
        requires
            old(self).wf(),
            row < old(self).cells().len(),
            col < old(self).num_cols,
        ensures
            *r == old(self).cells()[row as int][col as int],
            final(self).cells() == old(self).cells().update(
                row as int,
                old(self).cells()[row as int].update(col as int, *final(r)),
            ),
            final(self).basic@ == old(self).basic@,
            final(self).num_struct == old(self).num_struct,
            final(self).num_constraints == old(self).num_constraints,
            final(self).num_cols == old(self).num_cols,
    {
        assert(old(self).cells()[row as int] == old(self).data@[row as int]@);
        &mut self.data[row][col]
    }

    /// A mutable reference to a full row: the tableau afterwards holds as
    /// that row whatever the reference ends with.
    pub fn row_mut(&mut self, row: usize) -> (r: &mut [Rational])
        requires
            old(self).wf(),
            row < old(self).cells().len(),
        ensures
            r@ == old(self).cells()[row as int],
            final(self).cells() == old(self).cells().update(row as int, final(r)@),
            final(self).basic@ == old(self).basic@,
            final(self).num_struct == old(self).num_struct,
            final(self).num_constraints == old(self).num_constraints,
            final(self).num_cols == old(self).num_cols,
    {
        assert(old(self).cells()[row as int] == old(self).data@[row as int]@);
        self.data[row].as_mut_slice()
    }

    /// Replace the cell at `(row, col)`.
    pub fn set_cell(&mut self, row: usize, col: usize, value: Rational)
        requires
            old(self).wf(),
            row < old(self).cells().len(),
            col < old(self).num_cols,
        ensures
            final(self).wf(),
            final(self).cells() == old(self).cells().update(
                row as int,
                old(self).cells()[row as int].update(col as int, value),
            ),
            final(self).basic@ == old(self).basic@,
            final(self).num_struct == old(self).num_struct,
            final(self).num_constraints == old(self).num_constraints,
            final(self).num_cols == old(self).num_cols,
    {
        let ghost before = self.cells();
        let mut r = copy_row(self.data[row].as_slice());
        assert(r@ == before[row as int]);
        r.set(col, value);
        self.data.set(row, r);
        assert(self.cells() =~= before.update(row as int, before[row as int].update(col as int, value)));
    }

    /// Get a reference to a full row.
    pub fn row(&self, row: usize) -> (r: &[Rational])
        requires
            self.wf(),
            row < self.cells().len(),
        ensures
            r@ == self.cells()[row as int],
    {
        assert(self.cells()[row as int] == self.data@[row as int]@);
        self.data[row].as_slice()
    }

    /// The RHS value for a row (objective row included).
    pub fn rhs(&self, row: usize) -> (r: &Rational)
        requires
            self.wf(),
            row < self.cells().len(),
        ensures
            *r == self.cells()[row as int][self.num_cols - 1],
    {
        self.get(row, self.num_cols - 1)
    }

    /// RHS value for constraint `i` (row `i + 1`).
    pub fn constraint_rhs(&self, constraint: usize) -> (r: &Rational)
        requires
            self.wf(),
            constraint < self.num_constraints,
        ensures
            *r == self.cells()[constraint + 1][self.num_cols - 1],
    {
        self.get(constraint + 1, self.num_cols - 1)
    }

    /// Set the coefficient of column `col` in constraint `constraint` (row `constraint + 1`).
    pub fn set_coeff(&mut self, constraint: usize, col: usize, value: Rational)
        requires
            old(self).wf(),
            constraint < old(self).num_constraints,
            col < old(self).num_cols,
        ensures
            final(self).wf(),
            final(self).cells() == old(self).cells().update(
                constraint + 1,
                old(self).cells()[constraint + 1].update(col as int, value),
            ),
            final(self).basic@ == old(self).basic@,
            final(self).num_struct == old(self).num_struct,
            final(self).num_constraints == old(self).num_constraints,
            final(self).num_cols == old(self).num_cols,
    {
        self.set_cell(constraint + 1, col, value);
    }

    /// Set the RHS for a constraint.
    pub fn set_rhs(&mut self, constraint: usize, value: Rational)
        requires
            old(self).wf(),
            constraint < old(self).num_constraints,
        ensures
            final(self).wf(),
            final(self).cells() == old(self).cells().update(
                constraint + 1,
                old(self).cells()[constraint + 1].update(old(self).num_cols - 1, value),
            ),
            final(self).basic@ == old(self).basic@,
            final(self).num_struct == old(self).num_struct,
            final(self).num_constraints == old(self).num_constraints,
            final(self).num_cols == old(self).num_cols,
    {
        let c = self.num_cols - 1;
        self.set_cell(constraint + 1, c, value);
    }

    /// Set the objective-row coefficient of a column.
    pub fn set_obj_coeff(&mut self, col: usize, value: Rational)
        requires
            old(self).wf(),
            col < old(self).num_cols,
        ensures
            final(self).wf(),
            final(self).cells() == old(self).cells().update(0, old(self).cells()[0].update(col as int, value)),
            final(self).basic@ == old(self).basic@,
            final(self).num_struct == old(self).num_struct,
            final(self).num_constraints == old(self).num_constraints,
            final(self).num_cols == old(self).num_cols,
    {
        self.set_cell(0, col, value);
    }

    /// Replace a whole row.
    pub fn replace_row(&mut self, row: usize, values: Vec<Rational>)
        requires
            old(self).wf(),
            row < old(self).cells().len(),
            values@.len() == old(self).num_cols,
        ensures
            final(self).wf(),
            final(self).cells() == old(self).cells().update(row as int, values@),
            final(self).basic@ == old(self).basic@,
            final(self).num_struct == old(self).num_struct,
            final(self).num_constraints == old(self).num_constraints,
            final(self).num_cols == old(self).num_cols,
    {
        let ghost before = self.cells();
        let ghost vals = values@;
        self.data.set(row, values);
        assert(self.cells() =~= before.update(row as int, vals));
    }

    /// Perform a pivot: make `entering_col` basic in `leaving_row` (a constraint row).
    ///
    /// The pivot row is divided by the pivot value; every other row with a
    /// non-zero entry in the entering column has the scaled pivot row,
    /// times that entry, subtracted.
    pub fn pivot(&mut self, leaving_row: usize, entering_col: usize)
        requires
            old(self).wf(),
            1 <= leaving_row < old(self).cells().len(),
            entering_col < old(self).num_cols,
            old(self).cells()[leaving_row as int][entering_col as int].spec_num() != 0,
            pivot_ok(old(self).cells(), leaving_row as int, entering_col as int),
        ensures
            final(self).wf(),
            final(self).cells() == pivoted(old(self).cells(), leaving_row as int, entering_col as int),
            final(self).basic@ == old(self).basic@.update(leaving_row as int, Some(entering_col)),
            final(self).num_struct == old(self).num_struct,
            final(self).num_constraints == old(self).num_constraints,
            final(self).num_cols == old(self).num_cols,
    {
        let ghost d = old(self).cells();
        let ghost r = leaving_row as int;
        let ghost c = entering_col as int;
        let pivot_val = *self.get(leaving_row, entering_col);
        let ghost prow = scaled_row(d[r], pivot_val);
        // Divide the pivot row by the pivot value.
        let mut new_prow: Vec<Rational> = Vec::new();
        let mut col: usize = 0;
        while col < self.num_cols
            invariant
                self.wf(),
                self.cells() == d,
                pivot_ok(d, r, c),
                pivot_val == d[r][c],
                r == leaving_row,
                r < d.len(),
                col <= self.num_cols,
                new_prow@.len() == col,
                forall|j: int| 0 <= j < col ==> new_prow@[j] == rat_div(d[r][j], pivot_val),
            decreases self.num_cols - col,
        {
            let x = *self.get(leaving_row, col);
            new_prow.push(x.div_exact(pivot_val));
            col = col + 1;
        }
        assert(new_prow@ =~= prow);
        // Eliminate the entering column from all other rows.
        let mut new_data: Vec<Vec<Rational>> = Vec::new();
        let nrows = self.num_rows();
        let mut row: usize = 0;
        while row < nrows
            invariant
                self.wf(),
                self.cells() == d,
                pivot_ok(d, r, c),
                nrows == d.len(),
                r == leaving_row,
                c == entering_col,
                r < d.len(),
                c < self.num_cols,
                new_prow@ == prow,
                prow == scaled_row(d[r], d[r][c]),
                row <= nrows,
                new_data@.len() == row,
                forall|i: int| 0 <= i < row ==> (#[trigger] new_data@[i])@ == pivoted(d, r, c)[i],
            decreases nrows - row,
        {
            if row == leaving_row {
                new_data.push(copy_row(new_prow.as_slice()));
            } else {
                let factor = *self.get(row, entering_col);
                if factor.is_zero() {
                    new_data.push(copy_row(self.row(row)));
                } else {
                    let src = self.row(row);
                    let mut out: Vec<Rational> = Vec::new();
                    let mut j: usize = 0;
                    while j < src.len()
                        invariant
                            j <= src@.len(),
                            src@ == d[row as int],
                            src@.len() == self.num_cols,
                            pivot_ok(d, r, c),
                            row != r,
                            row < d.len(),
                            factor == d[row as int][c],
                            factor.spec_num() != 0,
                            d[r].len() == src@.len(),
                            new_prow@ == prow,
                            prow == scaled_row(d[r], d[r][c]),
                            out@.len() == j,
                            forall|k: int| 0 <= k < j ==> out@[k] == rat_sub(d[row as int][k], rat_mul(factor, prow[k])),
                        decreases src@.len() - j,
                    {
                        assert(src@[j as int] == d[row as int][j as int]);
                        assert(new_prow@[j as int] == prow[j as int]);
                        assert(row_op_ok(d[row as int], d[row as int][c], prow));
                        assert(mul_ok(d[row as int][c], prow[j as int]));
                        let p = factor.mul_exact(new_prow[j]);
                        out.push(src[j].sub_exact(p));
                        j = j + 1;
                    }
                    assert(out@ =~= eliminated_row(d[row as int], d[row as int][c], prow));
                    new_data.push(out);
                }
            }
            row = row + 1;
        }
        self.data = new_data;
        assert(self.cells() =~= pivoted(d, r, c));
        self.basic.set(leaving_row, Some(entering_col));
    }

    /// Whether a pivot on `(row, col)` is possible: the pivot entry is
    /// non-zero and every step of the pivot stays within `i64`.
    pub fn can_pivot(&self, row: usize, col: usize) -> (b: bool)
        requires
            self.wf(),
            1 <= row < self.cells().len(),
            col < self.num_cols,
        ensures
            b == (self.cells()[row as int][col as int].spec_num() != 0
                && pivot_ok(self.cells(), row as int, col as int)),
    {
        let ghost d = self.cells();
        let ghost r = row as int;
        let ghost c = col as int;
        let pv = *self.get(row, col);
        if pv.is_zero() {
            return false;
        }
        let mut prow: Vec<Rational> = Vec::new();
        let mut j: usize = 0;
        while j < self.num_cols
            invariant
                self.wf(),
                self.cells() == d,
                r == row,
                c == col,
                r < d.len(),
                pv == d[r][c],
                j <= self.num_cols,
                prow@.len() == j,
                row_div_ok(d[r].take(j as int), pv),
                forall|k: int| 0 <= k < j ==> prow@[k] == rat_div(d[r][k], pv),
            decreases self.num_cols - j,
        {
            let x = *self.get(row, j);
            assert(d[r].take(j as int + 1) =~= d[r].take(j as int).push(x));
            match x.checked_div(pv) {
                None => {
                    assert(d[r][j as int] == x);
                    assert(!div_ok(d[r][j as int], pv));
                    assert(!row_div_ok(d[r], d[r][c]));
                    return false;
                },
                Some(q) => {
                    prow.push(q);
                },
            }
            j = j + 1;
        }
        assert(d[r].take(j as int) =~= d[r]);
        assert(prow@ =~= scaled_row(d[r], pv));
        let nrows = self.num_rows();
        let mut i: usize = 0;
        while i < nrows
            invariant
                self.wf(),
                self.cells() == d,
                r == row,
                c == col,
                r < d.len(),
                c < self.num_cols,
                pv == d[r][c],
                nrows == d.len(),
                i <= nrows,
                prow@ == scaled_row(d[r], pv),
                row_div_ok(d[r], pv),
                forall|a: int| 0 <= a < i && a != r && d[a][c].spec_num() != 0 ==>
                    row_op_ok(#[trigger] d[a], d[a][c], scaled_row(d[r], d[r][c])),
            decreases nrows - i,
        {
            let f = *self.get(i, col);
            if i != row && !f.is_zero() {
                let ok = row_op_fits(self.row(i), f, prow.as_slice());
                if !ok {
                    return false;
                }
            }
            i = i + 1;
        }
        true
    }

    /// Pivot on `(row, col)` when [`Self::can_pivot`] allows it; otherwise leave
    /// the tableau unchanged. Returns whether the pivot was made.
    pub fn try_pivot(&mut self, row: usize, col: usize) -> (ok: bool)
        requires
            old(self).wf(),
            1 <= row < old(self).cells().len(),
            col < old(self).num_cols,
        ensures
            final(self).wf(),
            ok == (old(self).cells()[row as int][col as int].spec_num() != 0
                && pivot_ok(old(self).cells(), row as int, col as int)),
            ok ==> final(self).cells() == pivoted(old(self).cells(), row as int, col as int),
            ok ==> final(self).basic@ == old(self).basic@.update(row as int, Some(col)),
            !ok ==> final(self).cells() == old(self).cells(),
            !ok ==> final(self).basic@ == old(self).basic@,
            final(self).num_struct == old(self).num_struct,
            final(self).num_constraints == old(self).num_constraints,
            final(self).num_cols == old(self).num_cols,
    {
        if self.can_pivot(row, col) {
            self.pivot(row, col);
            true
        } else {
            false
        }
    }

    /// Whether every ratio of the minimum-ratio test on `col` can be formed.
    pub fn can_ratio_test(&self, col: usize) -> (b: bool)
        requires
            self.wf(),
            col < self.num_cols,
        ensures
            b == leaving_ok(self.cells(), col as int, self.num_cols - 1),
    {
        let ghost d = self.cells();
        let nrows = self.num_rows();
        let last = self.num_cols - 1;
        let mut i: usize = 1;
        while i < nrows
            invariant
                self.wf(),
                self.cells() == d,
                nrows == d.len(),
                last == self.num_cols - 1,
                col < self.num_cols,
                1 <= i <= nrows,
                forall|k: int| 1 <= k < i && rat_pos(#[trigger] d[k][col as int]) ==> div_ok(d[k][last as int], d[k][col as int]),
            decreases nrows - i,
        {
            let a = *self.get(i, col);
            if a.is_positive() {
                let b = *self.get(i, last);
                if b.checked_div(a).is_none() {
                    assert(rat_pos(d[i as int][col as int]));
                    return false;
                }
            }
            i = i + 1;
        }
        true
    }

    /// Find the entering column: the first column (RHS excluded) whose
    /// objective-row entry is positive and largest. `None` when no entry is positive.
    pub fn find_entering(&self) -> (r: Option<usize>)
        requires
            self.wf(),
            self.num_cols >= 1,
        ensures
            is_entering(self.cells()[0], self.num_cols - 1, r),
    {
        let mut best_col: Option<usize> = None;
        let mut best_val = Rational::zero();
        let mut col: usize = 0;
        let last = self.num_cols - 1;
        let ghost obj = self.cells()[0];
        while col < last
            invariant
                self.wf(),
                obj == self.cells()[0],
                last == self.num_cols - 1,
                col <= last,
                is_entering(obj.take(col as int), col as int, best_col),
                best_col matches Some(b) ==> best_val == obj[b as int],
            decreases last - col,
        {
            let val = *self.get(0, col);
            let ghost pre = obj.take(col as int);
            assert(obj.take(col as int + 1) =~= pre.push(val));
            if val.is_positive() && (best_col.is_none() || best_val.less_than(&val)) {
                proof {
                    if let Some(b) = best_col {
                        assert forall|k: int| 0 <= k < col && rat_pos(#[trigger] obj[k]) implies rat_lt(obj[k], val) by {
                            assert(pre[k] == obj[k]);
                            if k < b {
                                lemma_lt_trans(obj[k], obj[b as int], val);
                            } else if k > b {
                                lemma_lt_trans(obj[k], obj[b as int], val);
                            }
                        }
                    } else {
                        assert forall|k: int| 0 <= k < col implies !rat_pos(#[trigger] obj[k]) by {
                            assert(pre[k] == obj[k]);
                        }
                    }
                }
                best_col = Some(col);
                best_val = val;
            } else {
                proof {
                    if let Some(b) = best_col {
                        assert(pre[b as int] == obj[b as int]);
                        assert forall|k: int| 0 <= k < b && rat_pos(#[trigger] obj[k]) implies rat_lt(obj[k], obj[b as int]) by {
                            assert(pre[k] == obj[k]);
                        }
                        assert forall|k: int| b < k < col + 1 && rat_pos(#[trigger] obj[k]) implies !rat_lt(obj[b as int], obj[k]) by {
                            assert(pre.push(val)[k] == obj[k]);
                        }
                    } else {
                        assert forall|k: int| 0 <= k < col + 1 implies !rat_pos(#[trigger] obj[k]) by {
                            assert(pre.push(val)[k] == obj[k]);
                        }
                    }
                }
            }
            col = col + 1;
        }
        proof {
            assert(obj.take(last as int) =~= obj.take(last as int));
            lemma_entering_take(obj, last as int, best_col);
        }
        best_col
    }

    /// Find the leaving row by the minimum-ratio test on `entering_col`:
    /// among constraint rows with a positive entry, the first with the
    /// smallest `rhs / entry`. Returns the row and its basic column; `None`
    /// when no entry is positive (unbounded) or the row has no basic column.
    pub fn find_leaving(&self, entering_col: usize) -> (res: Option<(usize, usize)>)
        requires
            self.wf(),
            entering_col < self.num_cols,
            leaving_ok(self.cells(), entering_col as int, self.num_cols - 1),
        ensures
            match leaving_row_of(self.cells(), entering_col as int, self.num_cols - 1) {
                None => res is None,
                Some(b) => match self.basic@[b] {
                    None => res is None,
                    Some(col) => res == Some((b as usize, col)),
                },
            },
            res matches Some((r, _)) ==> 1 <= r < self.cells().len(),
    {
        let mut best_row: Option<usize> = None;
        let mut best_ratio = Rational::zero();
        let nrows = self.num_rows();
        let last = self.num_cols - 1;
        let ghost d = self.cells();
        let mut row: usize = 1;
        while row < nrows
            invariant
                self.wf(),
                d == self.cells(),
                nrows == d.len(),
                last == self.num_cols - 1,
                entering_col < self.num_cols,
                leaving_ok(d, entering_col as int, last as int),
                1 <= row <= nrows,
                best_row == scan_leaving(d, entering_col as int, last as int, row as int),
                best_row matches Some(b) ==> 1 <= b < row,
                best_row matches Some(b) ==> best_ratio == rat_div(d[b as int][last as int], d[b as int][entering_col as int]),
            decreases nrows - row,
        {
            let a = *self.get(row, entering_col);
            if a.is_positive() {
                let rhs = *self.get(row, last);
                let ratio = rhs.div_exact(a);
                if best_row.is_none() || ratio.less_than(&best_ratio) {
                    best_row = Some(row);
                    best_ratio = ratio;
                }
            }
            row = row + 1;
        }
        match best_row {
            None => None,
            Some(b) => match self.basic[b] {
                None => None,
                Some(col) => Some((b, col)),
            },
        }
    }

    /// Current objective value (row 0, last column).
    pub fn objective_value(&self) -> (r: Rational)
        requires
            self.wf(),
        ensures
            r == self.cells()[0][self.num_cols - 1],
    {
        *self.get(0, self.num_cols - 1)
    }

    /// The value of a column's variable: the RHS of the first constraint row
    /// where it is basic, zero when it is non-basic.
    pub fn variable_value(&self, col: usize) -> (r: Rational)
        requires
            self.wf(),
        ensures
            r == value_of_column(self.cells(), self.basic@, col, self.num_cols - 1),
    {
        let nrows = self.num_rows();
        let mut row: usize = 1;
        while row < nrows
            invariant
                self.wf(),
                nrows == self.cells().len(),
                1 <= row <= nrows,
                forall|k: int| 1 <= k < row ==> self.basic@[k] != Some(col),
            decreases nrows - row,
        {
            if self.basic[row] == Some(col) {
                return *self.get(row, self.num_cols - 1);
            }
            row = row + 1;
        }
        Rational::zero()
    }
}

/// A fresh copy of a row.
pub(crate) fn copy_row(src: &[Rational]) -> (r: Vec<Rational>)
    ensures
        r@ == src@,
{
    let mut out: Vec<Rational> = Vec::new();
    let mut j: usize = 0;
    while j < src.len()
        invariant
            j <= src@.len(),
            out@ == src@.take(j as int),
        decreases src@.len() - j,
    {
        out.push(src[j]);
        j = j + 1;
    }
    assert(src@.take(src@.len() as int) =~= src@);
    out
}

/// Whether every step of `row - f * prow` stays within `i64`.
fn row_op_fits(row: &[Rational], f: Rational, prow: &[Rational]) -> (b: bool)
    requires
        prow@.len() == row@.len(),
    ensures
        b == row_op_ok(row@, f, prow@),
{
    let mut k: usize = 0;
    while k < row.len()
        invariant
            prow@.len() == row@.len(),
            k <= row@.len(),
            row_op_ok(row@.take(k as int), f, prow@),
        decreases row@.len() - k,
    {
        assert(row@.take(k as int + 1) =~= row@.take(k as int).push(row@[k as int]));
        match f.checked_mul(prow[k]) {
            None => {
                assert(!mul_ok(f, prow@[k as int]));
                return false;
            },
            Some(p) => {
                if row[k].checked_sub(p).is_none() {
                    assert(!sub_ok(row@[k as int], rat_mul(f, prow@[k as int])));
                    return false;
                }
            },
        }
        k = k + 1;
    }
    assert(row@.take(k as int) =~= row@);
    true
}

/// `r` is the entering column for an objective row restricted to its first
/// `n` entries: the first of the largest positive entries, or `None` when no
/// entry is positive.
pub open spec fn is_entering(obj: Seq<Rational>, n: int, r: Option<usize>) -> bool {
    match r {
        None => forall|k: int| 0 <= k < n ==> !rat_pos(#[trigger] obj[k]),
        Some(j) => {
            &&& 0 <= j < n
            &&& rat_pos(obj[j as int])
            &&& forall|k: int| 0 <= k < j && rat_pos(#[trigger] obj[k]) ==> rat_lt(obj[k], obj[j as int])
            &&& forall|k: int| j < k < n && rat_pos(#[trigger] obj[k]) ==> !rat_lt(obj[j as int], obj[k])
        },
    }
}

proof fn lemma_entering_take(obj: Seq<Rational>, n: int, r: Option<usize>)
    requires
        0 <= n <= obj.len(),
        is_entering(obj.take(n), n, r),
    ensures
        is_entering(obj, n, r),
{
    match r {
        None => {
            assert forall|k: int| 0 <= k < n implies !rat_pos(#[trigger] obj[k]) by {
                assert(obj.take(n)[k] == obj[k]);
            }
        },
        Some(j) => {
            assert(obj.take(n)[j as int] == obj[j as int]);
            assert forall|k: int| 0 <= k < j && rat_pos(#[trigger] obj[k]) implies rat_lt(obj[k], obj[j as int]) by {
                assert(obj.take(n)[k] == obj[k]);
            }
            assert forall|k: int| j < k < n && rat_pos(#[trigger] obj[k]) implies !rat_lt(obj[j as int], obj[k]) by {
                assert(obj.take(n)[k] == obj[k]);
            }
        },
    }
}

/// Every ratio of the minimum-ratio test can be formed.
pub open spec fn leaving_ok(d: Seq<Seq<Rational>>, c: int, last: int) -> bool {
    forall|i: int| 1 <= i < d.len() && rat_pos(#[trigger] d[i][c]) ==> div_ok(d[i][last], d[i][c])
}

/// The row chosen by the ratio test over constraint rows `1 .. upto`.
pub open spec fn scan_leaving(d: Seq<Seq<Rational>>, c: int, last: int, upto: int) -> Option<usize>
    decreases upto,
{
    if upto <= 1 {
        None
    } else {
        let prev = scan_leaving(d, c, last, upto - 1);
        let i = upto - 1;
        if rat_pos(d[i][c]) && (prev is None || rat_lt(
            rat_div(d[i][last], d[i][c]),
            rat_div(d[prev->0 as int][last], d[prev->0 as int][c]),
        )) {
            Some(i as usize)
        } else {
            prev
        }
    }
}

/// The row chosen by the ratio test over all constraint rows.
pub open spec fn leaving_row_of(d: Seq<Seq<Rational>>, c: int, last: int) -> Option<int> {
    match scan_leaving(d, c, last, d.len() as int) {
        None => None,
        Some(b) => Some(b as int),
    }
}

/// The value of column `col`: RHS of the first constraint row where it is basic, else zero.
pub open spec fn value_of_column(d: Seq<Seq<Rational>>, basic: Seq<Option<usize>>, col: usize, last: int) -> Rational {
    if exists|k: int| 1 <= k < d.len() && basic[k] == Some(col) {
        let k = choose|k: int| 1 <= k < d.len() && basic[k] == Some(col)
            && forall|m: int| 1 <= m < k ==> basic[m] != Some(col);
        d[k][last]
    } else {
        rat_zero()
    }
}

} // verus!
