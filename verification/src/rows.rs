//! Rows: a wrapper that buffers exactly `cols` scanner cells per step and
//! checks that a line end follows, yielding a whole row or an error value.

use crate::cell::Cell;
use crate::scan::{
    spec_skip_state, spec_step, Csv, CsvIterItem, IterState, SpecItem,
};
use vstd::prelude::*;

verus! {

/// Errors a [`CsvRowIter`] step can yield instead of a row.
///
/// An error does not stop the iteration: the scanner's cursor has already
/// moved past the offending boundary, and the caller chooses whether to keep
/// pulling from there or to abort.
#[derive(Debug, Clone, Copy, PartialEq, Eq, Structural)]
pub enum RowIterError {
    /// A line ended before the expected number of columns was read.
    ColumnCountSmallerThanExpected {
        /// The number of columns a row must have.
        expected: usize,
        /// The number of cells the row actually held.
        actual: usize,
    },
    /// A further cell appeared where a line end was expected.
    ColumnCountLargerThanExpected {
        /// The number of columns a row must have.
        expected: usize,
    },
}

/// An iterator over fixed-arity rows, created by [`Csv::into_rows`].
pub struct CsvRowIter<'a> {
    /// The underlying scanner.
    pub csv: Csv<'a>,
    /// The fixed number of columns of every row.
    pub cols: usize,
}

/// What one row step concludes: pulling `need` more cells from state `st`
/// with `acc` already collected, then demanding a line end.
pub ghost enum RowOutcome {
    /// The scanner ran out before the cells were complete: the truncated
    /// tail is dropped silently and the row stream ends.
    Exhausted { st: IterState },
    /// A line end came after only `actual` cells.
    TooFew { actual: int, st: IterState },
    /// No line end followed the completed cells.
    TooMany { st: IterState },
    /// A complete row: the offset pairs of its cells, in scan order.
    Row { cells: Seq<(int, int)>, st: IterState },
}

/// The outcome of one [`CsvRowIter::next`] step, as [`RowOutcome`] tells it,
/// together with the scanner state left behind.
pub open spec fn spec_row(buf: Seq<u8>, sep: u8, st: IterState, need: nat, acc: Seq<(int, int)>) -> RowOutcome
    decreases need,
{
    let (item, st2) = spec_step(buf, sep, st);
    if need == 0 {
        match item {
            Some(SpecItem::LineEnd) => RowOutcome::Row { cells: acc, st: st2 },
            _ => RowOutcome::TooMany { st: st2 },
        }
    } else {
        match item {
            None => RowOutcome::Exhausted { st: st2 },
            Some(SpecItem::LineEnd) => RowOutcome::TooFew { actual: acc.len() as int, st: st2 },
            Some(SpecItem::Cell { lo, hi }) => spec_row(
                buf,
                sep,
                st2,
                (need - 1) as nat,
                acc.push((lo, hi)),
            ),
        }
    }
}

impl<'a> Csv<'a> {
    /// Wraps this scanner into an iterator that yields rows of exactly
    /// `cols` cells each.
    pub fn into_rows(self, cols: usize) -> (r: CsvRowIter<'a>)
        ensures
            r.csv == self,
            r.cols == cols,
    {
        CsvRowIter { csv: self, cols }
    }
}

impl<'a> CsvRowIter<'a> {
    /// The underlying scanner is well formed.
    pub open spec fn wf(self) -> bool {
        self.csv.wf()
    }

    /// Skips the first `n` rows by newline search, without recognizing
    /// cells; see [`Csv::skip_rows`].
    pub fn skip(self, n: usize) -> (r: Self)
        requires
            self.wf(),
        ensures
            r.wf(),
            r.cols == self.cols,
            r.csv.buf@ == self.csv.buf@,
            r.csv.sep == self.csv.sep,
            r.csv.state == spec_skip_state(self.csv.buf@, self.csv.state, n as nat),
    {
        CsvRowIter { csv: self.csv.skip_rows(n), cols: self.cols }
    }

    /// Pulls the next row: exactly `cols` cells followed by a line end, or
    /// the error [`spec_row`] assigns to this position, or `None` once the
    /// scanner is exhausted.
    #[verifier::loop_isolation(false)]
    pub fn next(&mut self) -> (r: Option<Result<Vec<Cell<'a>>, RowIterError>>)
        requires
            old(self).wf(),
        ensures
            final(self).wf(),
            final(self).cols == old(self).cols,
            final(self).csv.buf@ == old(self).csv.buf@,
            final(self).csv.sep == old(self).csv.sep,
            ({
                let out = spec_row(
                    old(self).csv.buf@,
                    old(self).csv.sep,
                    old(self).csv.state,
                    old(self).cols as nat,
                    Seq::empty(),
                );
                match out {
                    RowOutcome::Exhausted { st } => r is None && final(self).csv.state == st,
                    RowOutcome::TooFew { actual, st } => final(self).csv.state == st
                        && r == Some(Result::<Vec<Cell<'a>>, RowIterError>::Err(
                        RowIterError::ColumnCountSmallerThanExpected {
                            expected: old(self).cols,
                            actual: actual as usize,
                        },
                    )),
                    RowOutcome::TooMany { st } => final(self).csv.state == st
                        && r == Some(Result::<Vec<Cell<'a>>, RowIterError>::Err(
                        RowIterError::ColumnCountLargerThanExpected { expected: old(self).cols },
                    )),
                    RowOutcome::Row { cells, st } => final(self).csv.state == st && (r matches Some(
                        Ok(row),
                    ) && row@.len() == old(self).cols && row@.len() == cells.len() && forall|k: int|
                        0 <= k < cells.len() ==> (#[trigger] row@[k]).buf@
                            == old(self).csv.buf@.subrange(cells[k].0, cells[k].1)),
                }
            }),
    {
        let ghost buf = self.csv.buf@;
        let ghost sep = self.csv.sep;
        let ghost st0 = self.csv.state;
        let cols = self.cols;
        let mut row: Vec<Cell<'a>> = Vec::new();
        let ghost mut pairs: Seq<(int, int)> = Seq::empty();
        let mut i: usize = 0;
        while i < cols
            invariant
                i <= cols,
                row@.len() == i,
                pairs.len() == i,
                self.cols == cols,
                self.csv.wf(),
                self.csv.buf@ == buf,
                self.csv.sep == sep,
                spec_row(buf, sep, st0, cols as nat, Seq::empty()) == spec_row(
                    buf,
                    sep,
                    self.csv.state,
                    (cols - i) as nat,
                    pairs,
                ),
                forall|k: int| 0 <= k < i ==> (#[trigger] row@[k]).buf@ == buf.subrange(
                    pairs[k].0,
                    pairs[k].1,
                ),
            decreases cols - i,
        {
            let ghost st_pre = self.csv.state;
            match self.csv.next() {
                Some(CsvIterItem::Cell(cell)) => {
                    proof {
                        let (item, st2) = spec_step(buf, sep, st_pre);
                        pairs = pairs.push((item->Some_0->lo, item->Some_0->hi));
                    }
                    row.push(cell);
                    i = i + 1;
                },
                Some(CsvIterItem::LineEnd) => {
                    return Some(
                        Err(
                            RowIterError::ColumnCountSmallerThanExpected {
                                expected: cols,
                                actual: i,
                            },
                        ),
                    );
                },
                None => {
                    return None;
                },
            }
        }
        match self.csv.next() {
            Some(CsvIterItem::LineEnd) => Some(Ok(row)),
            _ => Some(
                Err(RowIterError::ColumnCountLargerThanExpected { expected: cols }),
            ),
        }
    }
}

} // verus!
