//! The distance-matrix engine: the cost table, the recurrence that
//! defines every cell, and the computation that fills the table.

use crate::text::push_cells;
use crate::text::spec_body_lines;
use crate::text::spec_header_cols;
use crate::text::spec_render;
use crate::text::spec_row_line;
use vstd::arithmetic::mul::lemma_mul_inequality;
use vstd::prelude::*;

verus! {

/// The smallest of three values.
pub open spec fn min3(a: int, b: int, c: int) -> int {
    if a <= b && a <= c {
        a
    } else if b <= c {
        b
    } else {
        c
    }
}

/// The minimum cumulative cost of transforming the first `j` characters of
/// `from` into the first `i` characters of `to`.
///
/// Row 0 and column 0 are the base cases; both grow by `ins` per step,
/// mirroring the engine, which charges the insertion cost for both
/// degenerate transformations. A cell with equal characters costs nothing
/// beyond its diagonal neighbour; otherwise it is the cheapest of the
/// three edits.
pub open spec fn edit_cost(
    from: Seq<char>,
    to: Seq<char>,
    ins: int,
    del: int,
    sub: int,
    i: int,
    j: int,
) -> int
    recommends
        0 <= i <= to.len(),
        0 <= j <= from.len(),
    decreases i + j,
{
    if i <= 0 && j <= 0 {
        0
    } else if i <= 0 {
        j * ins
    } else if j <= 0 {
        i * ins
    } else if from[j - 1] == to[i - 1] {
        edit_cost(from, to, ins, del, sub, i - 1, j - 1)
    } else {
        min3(
            edit_cost(from, to, ins, del, sub, i - 1, j) + ins,
            edit_cost(from, to, ins, del, sub, i, j - 1) + del,
            edit_cost(from, to, ins, del, sub, i - 1, j - 1) + sub,
        )
    }
}

/// Every cell of the table is bounded by a straight line: the cheapest way
/// to reach cell `(i, j)` can never cost more than walking there through
/// the base cases, which charge `ins` per step.
pub proof fn lemma_edit_cost_bound(
    from: Seq<char>,
    to: Seq<char>,
    ins: int,
    del: int,
    sub: int,
    i: int,
    j: int,
)
    requires
        0 <= ins,
        0 <= i,
        0 <= j,
    ensures
        edit_cost(from, to, ins, del, sub, i, j) <= (i + j) * ins,
    decreases i + j,
{
    if i <= 0 && j <= 0 {
        assert((i + j) * ins == 0) by (nonlinear_arith)
            requires
                i == 0,
                j == 0,
        ;
    } else if i <= 0 {
        assert(j * ins == (i + j) * ins);
    } else if j <= 0 {
        assert(i * ins == (i + j) * ins);
    } else if from[j - 1] == to[i - 1] {
        lemma_edit_cost_bound(from, to, ins, del, sub, i - 1, j - 1);
        assert((i + j - 2) * ins <= (i + j) * ins) by (nonlinear_arith)
            requires
                0 <= ins,
        ;
    } else {
        lemma_edit_cost_bound(from, to, ins, del, sub, i - 1, j);
        assert((i + j - 1) * ins + ins == (i + j) * ins) by (nonlinear_arith);
    }
}

/// Optional cost overrides; a field left `None` falls back to the default
/// (insertion 1, deletion 1, substitution 2).
#[derive(Clone, Copy)]
pub struct DistanceOptions {
    pub insertion_cost: Option<u8>,
    pub deletion_cost: Option<u8>,
    pub substitution_cost: Option<u8>,
}

/// The insertion cost that a call with these options uses.
pub open spec fn insertion_cost_of(options: Option<DistanceOptions>) -> u8 {
    match options {
        None => 1u8,
        Some(o) => match o.insertion_cost {
            None => 1u8,
            Some(c) => c,
        },
    }
}

/// The deletion cost that a call with these options uses.
pub open spec fn deletion_cost_of(options: Option<DistanceOptions>) -> u8 {
    match options {
        None => 1u8,
        Some(o) => match o.deletion_cost {
            None => 1u8,
            Some(c) => c,
        },
    }
}

/// The substitution cost that a call with these options uses.
pub open spec fn substitution_cost_of(options: Option<DistanceOptions>) -> u8 {
    match options {
        None => 2u8,
        Some(o) => match o.substitution_cost {
            None => 2u8,
            Some(c) => c,
        },
    }
}

/// A bound on the sequence lengths and costs under which the table can be
/// filled in `u8` arithmetic. Every cell is at most `(row + column) * ins`
/// (see [`lemma_edit_cost_bound`]), so these three conditions keep each of
/// the candidate sums the fill step computes within `u8::MAX`.
pub open spec fn costs_fit(from_len: int, to_len: int, ins: int, del: int, sub: int) -> bool {
    &&& (to_len + from_len) * ins <= u8::MAX
    &&& (to_len >= 1 && from_len >= 1) ==> (to_len + from_len - 1) * ins + del <= u8::MAX
    &&& (to_len >= 1 && from_len >= 1) ==> (to_len + from_len - 2) * ins + sub <= u8::MAX
}

/// The cost table for one pair of sequences, together with the sequences
/// themselves. Created zero-filled, then filled in place by
/// [`DistanceMatrix::get_distance`].
pub struct DistanceMatrix {
    from: Vec<char>,
    to: Vec<char>,
    matrix: Vec<Vec<u8>>,
}

impl DistanceMatrix {
    /// The source sequence.
    pub closed spec fn from_seq(&self) -> Seq<char> {
        self.from@
    }

    /// The target sequence.
    pub closed spec fn to_seq(&self) -> Seq<char> {
        self.to@
    }

    /// The value held by cell `(i, j)` of the table.
    pub closed spec fn cell(&self, i: int, j: int) -> u8 {
        self.matrix@[i]@[j]
    }

    /// The table has one row per target prefix and one column per source
    /// prefix: `to.len() + 1` rows, each of `from.len() + 1` cells.
    pub closed spec fn wf(&self) -> bool {
        &&& self.matrix@.len() == self.to@.len() + 1
        &&& forall|i: int|
            0 <= i < self.matrix@.len() ==> (#[trigger] self.matrix@[i])@.len() == self.from@.len()
                + 1
    }

    /// The table as a sequence of rows.
    pub open spec fn table(&self) -> Seq<Seq<u8>> {
        Seq::new(
            (self.to_seq().len() + 1) as nat,
            |i: int| Seq::new((self.from_seq().len() + 1) as nat, |j: int| self.cell(i, j)),
        )
    }

    /// Allocates the zero-filled table for `from` and `to`, sized
    /// `(to.len() + 1)` rows by `(from.len() + 1)` columns.
    pub fn new(from: &str, to: &str) -> (result: Self)
        ensures
            result.wf(),
            result.from_seq() == from@,
            result.to_seq() == to@,
            forall|i: int, j: int|
                0 <= i <= to@.len() && 0 <= j <= from@.len() ==> #[trigger] result.cell(i, j) == 0,
    {
        let from_chars = chars_of(from);
        let to_chars = chars_of(to);
        let width = from_chars.len();
        let height = to_chars.len();

        let mut matrix: Vec<Vec<u8>> = Vec::new();
        matrix.push(zero_row(width));
        let mut i: usize = 0;
        while i < height
            invariant
                matrix@.len() == i + 1,
                i <= height,
                forall|r: int|
                    0 <= r < i + 1 ==> (#[trigger] matrix@[r])@ == Seq::new(
                        (width + 1) as nat,
                        |c: int| 0u8,
                    ),
            decreases height - i,
        {
            matrix.push(zero_row(width));
            i = i + 1;
        }

        let result = DistanceMatrix { from: from_chars, to: to_chars, matrix };
        proof {
            assert forall|i: int, j: int|
                0 <= i <= to@.len() && 0 <= j <= from@.len() implies #[trigger] result.cell(i, j)
                == 0 by {
                assert(result.matrix@[i]@ == Seq::new((width + 1) as nat, |c: int| 0u8));
            }
            assert forall|i: int| 0 <= i < result.matrix@.len() implies (
            #[trigger] result.matrix@[i])@.len() == result.from@.len() + 1 by {
                assert(result.matrix@[i]@ == Seq::new((width + 1) as nat, |c: int| 0u8));
            }
        }
        result
    }

    /// Fills the table in place under the given costs and returns the
    /// minimum edit distance: the bottom-right cell, the cost of
    /// transforming all of `from` into all of `to`.
    ///
    /// Cost fields left unset fall back to the defaults (insertion 1,
    /// deletion 1, substitution 2). Afterwards every cell `(i, j)` holds
    /// exactly [`edit_cost`] of the prefix pair `(i, j)`.
    pub fn get_distance(&mut self, options: Option<DistanceOptions>) -> (r: u8)
        requires
            old(self).wf(),
            old(self).cell(0, 0) == 0,
            costs_fit(
                old(self).from_seq().len() as int,
                old(self).to_seq().len() as int,
                insertion_cost_of(options) as int,
                deletion_cost_of(options) as int,
                substitution_cost_of(options) as int,
            ),
        ensures
            final(self).wf(),
            final(self).from_seq() == old(self).from_seq(),
            final(self).to_seq() == old(self).to_seq(),
            forall|i: int, j: int|
                0 <= i <= old(self).to_seq().len() && 0 <= j <= old(self).from_seq().len()
                    ==> #[trigger] final(self).cell(i, j) == edit_cost(
                    old(self).from_seq(),
                    old(self).to_seq(),
                    insertion_cost_of(options) as int,
                    deletion_cost_of(options) as int,
                    substitution_cost_of(options) as int,
                    i,
                    j,
                ),
            r == edit_cost(
                old(self).from_seq(),
                old(self).to_seq(),
                insertion_cost_of(options) as int,
                deletion_cost_of(options) as int,
                substitution_cost_of(options) as int,
                old(self).to_seq().len() as int,
                old(self).from_seq().len() as int,
            ),
    {
        let (insertion_cost, deletion_cost, substitution_cost): (u8, u8, u8) = match options {
            None => (1, 1, 2),
            Some(o) => (
                o.insertion_cost.unwrap_or(1),
                o.deletion_cost.unwrap_or(1),
                o.substitution_cost.unwrap_or(2),
            ),
        };
        let ghost fs: Seq<char> = self.from@;
        let ghost ts: Seq<char> = self.to@;
        let ghost ins: int = insertion_cost as int;
        let ghost del: int = deletion_cost as int;
        let ghost sub: int = substitution_cost as int;

        let rows = self.matrix.len();
        let first_row = &self.matrix[0];
        let cols = first_row.len();

        // Base cases along row 0: the cost of building each prefix of
        // `from` out of nothing, one insertion at a time.
        let mut j: usize = 1;
        while j < cols
            invariant
                self.wf(),
                self.from@ == fs,
                self.to@ == ts,
                rows == ts.len() + 1,
                cols == fs.len() + 1,
                1 <= j <= cols,
                ins == insertion_cost as int,
                del == deletion_cost as int,
                sub == substitution_cost as int,
                costs_fit(fs.len() as int, ts.len() as int, ins, del, sub),
                forall|c: int| 0 <= c < j ==> self.matrix@[0]@[c] == edit_cost(fs, ts, ins, del, sub, 0, c),
            decreases cols - j,
        {
            proof {
                let jj = j as int;
                assert(self.matrix@[0]@[jj - 1] == edit_cost(fs, ts, ins, del, sub, 0, jj - 1));
                lemma_mul_inequality(jj, ts.len() + fs.len() as int, ins);
                assert((jj - 1) * ins + ins == jj * ins) by (nonlinear_arith);
            }
            let v = self.matrix[0][j - 1] + insertion_cost;
            self.matrix[0][j] = v;
            proof {
                let jj = j as int;
                assert(self.matrix@[0]@[jj] == edit_cost(fs, ts, ins, del, sub, 0, jj));
            }
            j = j + 1;
        }

        // Base cases along column 0: the engine charges the insertion cost
        // here as well, so an empty `from` degenerates to the same line.
        let mut i: usize = 1;
        while i < rows
            invariant
                self.wf(),
                self.from@ == fs,
                self.to@ == ts,
                rows == ts.len() + 1,
                cols == fs.len() + 1,
                1 <= i <= rows,
                ins == insertion_cost as int,
                del == deletion_cost as int,
                sub == substitution_cost as int,
                costs_fit(fs.len() as int, ts.len() as int, ins, del, sub),
                forall|c: int| 0 <= c < cols ==> self.matrix@[0]@[c] == edit_cost(fs, ts, ins, del, sub, 0, c),
                forall|rr: int| 0 <= rr < i ==> self.matrix@[rr]@[0] == edit_cost(fs, ts, ins, del, sub, rr, 0),
            decreases rows - i,
        {
            proof {
                let ii = i as int;
                assert(self.matrix@[ii - 1]@[0] == edit_cost(fs, ts, ins, del, sub, ii - 1, 0));
                lemma_mul_inequality(ii, ts.len() + fs.len() as int, ins);
                assert((ii - 1) * ins + ins == ii * ins) by (nonlinear_arith);
            }
            let v = self.matrix[i - 1][0] + insertion_cost;
            self.matrix[i][0] = v;
            proof {
                let ii = i as int;
                assert(self.matrix@[ii]@[0] == edit_cost(fs, ts, ins, del, sub, ii, 0));
            }
            i = i + 1;
        }

        // Fill the interior row by row; every neighbour a cell depends on
        // is already final when the cell is written.
        let mut i: usize = 1;
        while i < rows
            invariant
                self.wf(),
                self.from@ == fs,
                self.to@ == ts,
                rows == ts.len() + 1,
                cols == fs.len() + 1,
                1 <= i <= rows,
                ins == insertion_cost as int,
                del == deletion_cost as int,
                sub == substitution_cost as int,
                costs_fit(fs.len() as int, ts.len() as int, ins, del, sub),
                forall|c: int| 0 <= c < cols ==> self.matrix@[0]@[c] == edit_cost(fs, ts, ins, del, sub, 0, c),
                forall|rr: int| 0 <= rr < rows ==> self.matrix@[rr]@[0] == edit_cost(fs, ts, ins, del, sub, rr, 0),
                forall|rr: int, c: int|
                    1 <= rr < i && 1 <= c < cols ==> self.matrix@[rr]@[c] == edit_cost(fs, ts, ins, del, sub, rr, c),
            decreases rows - i,
        {
            let mut j: usize = 1;
            while j < cols
                invariant
                    self.wf(),
                    self.from@ == fs,
                    self.to@ == ts,
                    rows == ts.len() + 1,
                    cols == fs.len() + 1,
                    1 <= i < rows,
                    1 <= j <= cols,
                    ins == insertion_cost as int,
                    del == deletion_cost as int,
                    sub == substitution_cost as int,
                    costs_fit(fs.len() as int, ts.len() as int, ins, del, sub),
                    forall|c: int| 0 <= c < cols ==> self.matrix@[0]@[c] == edit_cost(fs, ts, ins, del, sub, 0, c),
                    forall|rr: int| 0 <= rr < rows ==> self.matrix@[rr]@[0] == edit_cost(fs, ts, ins, del, sub, rr, 0),
                    forall|rr: int, c: int|
                        1 <= rr < i && 1 <= c < cols ==> self.matrix@[rr]@[c] == edit_cost(fs, ts, ins, del, sub, rr, c),
                    forall|c: int|
                        1 <= c < j ==> self.matrix@[i as int]@[c] == edit_cost(fs, ts, ins, del, sub, i as int, c),
                decreases cols - j,
            {
                proof {
                    let ii = i as int;
                    let jj = j as int;
                    let total = ts.len() + fs.len() as int;
                    lemma_edit_cost_bound(fs, ts, ins, del, sub, ii - 1, jj);
                    lemma_edit_cost_bound(fs, ts, ins, del, sub, ii, jj - 1);
                    lemma_edit_cost_bound(fs, ts, ins, del, sub, ii - 1, jj - 1);
                    lemma_mul_inequality(ii - 1 + jj, total, ins);
                    lemma_mul_inequality(ii + jj - 1, total - 1, ins);
                    lemma_mul_inequality(ii + jj - 2, total - 2, ins);
                    assert((total - 1) * ins + ins == total * ins) by (nonlinear_arith);
                }
                let insertion = self.matrix[i - 1][j] + insertion_cost;
                let deletion = self.matrix[i][j - 1] + deletion_cost;
                let replacement = self.matrix[i - 1][j - 1] + substitution_cost;

                let is_same_letter = self.from[j - 1] == self.to[i - 1];

                let min_cost = if is_same_letter {
                    self.matrix[i - 1][j - 1]
                } else {
                    let lower = if insertion <= deletion {
                        insertion
                    } else {
                        deletion
                    };
                    if lower <= replacement {
                        lower
                    } else {
                        replacement
                    }
                };

                self.matrix[i][j] = min_cost;
                j = j + 1;
            }
            i = i + 1;
        }

        proof {
            assert forall|a: int, b: int|
                0 <= a <= ts.len() && 0 <= b <= fs.len() implies #[trigger] self.cell(a, b)
                == edit_cost(fs, ts, ins, del, sub, a, b) by {
                assert(self.cell(a, b) == self.matrix@[a]@[b]);
            }
        }
        // The accumulated minimum cost sits in the last cell of the last row.
        self.matrix[rows - 1][cols - 1]
    }

    /// One row of [`DistanceMatrix::table`] is the view of the stored row.
    proof fn lemma_row_view(&self, i: int)
        requires
            self.wf(),
            0 <= i < self.matrix@.len(),
        ensures
            self.table()[i] == self.matrix@[i]@,
    {
        assert(self.table()[i] =~= self.matrix@[i]@);
    }

    /// The table as text: a header line listing the source characters in
    /// order, then one line per table row — the base row labelled `#`, the
    /// others labelled with the target characters in order, every cell
    /// value followed by one space. Reading the table does not change it.
    pub fn render(&self) -> (r: String)
        requires
            self.wf(),
        ensures
            r@ == spec_render(self.from_seq(), self.to_seq(), self.table()),
    {
        let ghost fs: Seq<char> = self.from@;
        let ghost ts: Seq<char> = self.to@;
        let mut s = String::new();

        s.push(' ');
        s.push(' ');
        s.push('#');
        proof {
            assert(fs.take(0).len() == 0);
            assert(s@ =~= spec_header_cols(fs.take(0)));
        }
        let from_len = self.from.len();
        let mut k: usize = 0;
        while k < from_len
            invariant
                k <= from_len,
                from_len == fs.len(),
                fs == self.from@,
                s@ == spec_header_cols(fs.take(k as int)),
            decreases from_len - k,
        {
            s.push(' ');
            s.push(self.from[k]);
            proof {
                let kk = k as int;
                assert(fs.take(kk + 1).drop_last() =~= fs.take(kk));
                assert(fs.take(kk + 1).last() == fs[kk]);
                assert(s@ =~= spec_header_cols(fs.take(kk + 1)));
            }
            k = k + 1;
        }
        proof {
            assert(fs.take(fs.len() as int) =~= fs);
        }
        s.push('\n');

        s.push('#');
        s.push(' ');
        push_cells(&mut s, &self.matrix[0]);
        s.push('\n');
        let ghost prefix: Seq<char> = s@;
        proof {
            self.lemma_row_view(0);
            assert(prefix =~= spec_header_cols(fs) + seq!['\n'] + spec_row_line(
                '#',
                self.table()[0],
            ));
        }

        let to_len = self.to.len();
        let mut i: usize = 0;
        while i < to_len
            invariant
                self.wf(),
                i <= to_len,
                to_len == ts.len(),
                fs == self.from@,
                ts == self.to@,
                prefix == spec_header_cols(fs) + seq!['\n'] + spec_row_line('#', self.table()[0]),
                s@ == prefix + spec_body_lines(ts.take(i as int), self.table().take(i as int + 1)),
            decreases to_len - i,
        {
            proof {
                assert(spec_body_lines(ts.take(0), self.table().take(1)) =~= Seq::<char>::empty());
            }
            s.push(self.to[i]);
            s.push(' ');
            push_cells(&mut s, &self.matrix[i + 1]);
            s.push('\n');
            proof {
                let ii = i as int;
                self.lemma_row_view(ii + 1);
                assert(ts.take(ii + 1).drop_last() =~= ts.take(ii));
                assert(ts.take(ii + 1).last() == ts[ii]);
                assert(self.table().take(ii + 2).drop_last() =~= self.table().take(ii + 1));
                assert(self.table().take(ii + 2).last() == self.table()[ii + 1]);
                assert(s@ =~= prefix + spec_body_lines(ts.take(ii + 1), self.table().take(ii + 2)));
            }
            i = i + 1;
        }
        proof {
            assert(spec_body_lines(ts.take(0), self.table().take(1)) =~= Seq::<char>::empty());
            assert(ts.take(ts.len() as int) =~= ts);
            assert(self.table().take(ts.len() as int + 1) =~= self.table());
            assert(s@ =~= spec_render(fs, ts, self.table()));
        }
        s
    }

    /// Number of rows of the table: the target length plus one.
    pub fn num_rows(&self) -> (r: usize)
        requires
            self.wf(),
        ensures
            r == self.to_seq().len() + 1,
    {
        self.matrix.len()
    }

    /// Number of columns of the table: the source length plus one.
    pub fn num_cols(&self) -> (r: usize)
        requires
            self.wf(),
        ensures
            r == self.from_seq().len() + 1,
    {
        let row = &self.matrix[0];
        row.len()
    }

    /// Reads one cell of the table.
    pub fn cell_at(&self, i: usize, j: usize) -> (r: u8)
        requires
            self.wf(),
            i <= self.to_seq().len(),
            j <= self.from_seq().len(),
        ensures
            r == self.cell(i as int, j as int),
    {
        self.matrix[i][j]
    }
}

/// The characters of a string, in order, as a vector.
fn chars_of(s: &str) -> (result: Vec<char>)
    ensures
        result@ == s@,
{
    let len = s.unicode_len();
    let mut result: Vec<char> = Vec::new();
    let mut k: usize = 0;
    while k < len
        invariant
            k <= len,
            len == s@.len(),
            result@ == s@.take(k as int),
        decreases len - k,
    {
        result.push(s.get_char(k));
        proof {
            assert(result@ =~= s@.take(k as int + 1));
        }
        k = k + 1;
    }
    proof {
        assert(result@ =~= s@);
    }
    result
}

/// A row of `width + 1` zero cells.
fn zero_row(width: usize) -> (result: Vec<u8>)
    ensures
        result@ == Seq::new((width + 1) as nat, |c: int| 0u8),
{
    let mut result: Vec<u8> = Vec::new();
    result.push(0);
    proof {
        assert(result@ =~= Seq::new(1 as nat, |c: int| 0u8));
    }
    let mut k: usize = 0;
    while k < width
        invariant
            k <= width,
            result@ == Seq::new((k + 1) as nat, |c: int| 0u8),
        decreases width - k,
    {
        result.push(0);
        proof {
            assert(result@ =~= Seq::new((k + 2) as nat, |c: int| 0u8));
        }
        k = k + 1;
    }
    result
}

} // verus!
