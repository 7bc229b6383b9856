//! The scanning state machine: a `Csv` walks its buffer one separator, quote
//! or newline at a time and yields a flat stream of cells and line ends.

use crate::search::{find3_from, find_from, lemma_find3_props, spec_find, spec_find3};
use vstd::prelude::*;

verus! {

/// The quote mark. Only structural when a quoted run opens; doubled inside a
/// quoted cell it stands for one literal quote.
pub const QUOTE: u8 = 34;

/// Line feed, accepted as a line terminator on its own or after a carriage
/// return.
pub const LF: u8 = 10;

/// Carriage return, stripped from a cell when it closes a CRLF terminator.
pub const CR: u8 = 13;

/// The default separator, a comma.
pub const COMMA: u8 = 44;

/// Where the scanner stands in its buffer.
#[derive(Clone, Copy, Debug, PartialEq, Eq, Structural)]
pub enum IterState {
    /// The next item is the cell starting at this offset.
    Cell(usize),
    /// The next item is the line end at this offset.
    LineEnd(usize),
    /// The buffer is exhausted; every further scan yields nothing.
    Done,
}

/// A stateful CSV scanner over a borrowed byte buffer.
pub struct Csv<'a> {
    /// The scanned buffer. Never copied; cells borrow from it.
    pub buf: &'a [u8],
    /// The separator byte between cells of a row.
    pub sep: u8,
    /// The cursor.
    pub state: IterState,
}

/// An item yielded by [`Csv::next`]: either a cell or a line break.
pub enum CsvIterItem<'a> {
    /// The row continues with a cell.
    Cell(crate::cell::Cell<'a>),
    /// The row ends with a line break.
    LineEnd,
}

/// What one scan for a cell concludes, starting inside the cell.
pub ghost enum ScanNext {
    /// No further structural byte: the stream ends silently.
    Finished,
    /// A cell with raw bytes `[lo, hi)` ends at the structural byte `at`;
    /// `nl` tells whether that byte is a line feed.
    Emit { lo: int, hi: int, nl: bool, at: int },
}

/// One step of the in-cell state machine, scanning `buf` at `cur` for a cell
/// that began at `start`. `padding` is 1 once the cell has opened with a
/// quote at its very first byte, and `quoted` holds inside a quoted run,
/// where separators and newlines are content.
pub open spec fn scan_at(buf: Seq<u8>, sep: u8, start: int, cur: int, padding: int, quoted: bool) -> ScanNext
    decreases buf.len() - cur,
{
    if cur < 0 || cur >= buf.len() {
        ScanNext::Finished
    } else if quoted {
        if buf[cur] == QUOTE {
            scan_at(buf, sep, start, cur + 1, padding, false)
        } else {
            scan_at(buf, sep, start, cur + 1, padding, true)
        }
    } else {
        if buf[cur] == QUOTE {
            scan_at(buf, sep, start, cur + 1, if cur == start { 1int } else { padding }, true)
        } else if buf[cur] == sep || buf[cur] == LF {
            let nl = buf[cur] == LF;
            let crlf: int = if nl && cur != 0 && buf[cur - 1] == CR {
                1
            } else {
                0
            };
            ScanNext::Emit { lo: start + padding, hi: cur - padding - crlf, nl, at: cur }
        } else {
            scan_at(buf, sep, start, cur + 1, padding, false)
        }
    }
}

/// A scanner item, by the offsets of what it covers.
pub ghost enum SpecItem {
    /// A cell whose raw bytes are `buf[lo..hi]`.
    Cell { lo: int, hi: int },
    /// A line break.
    LineEnd,
}

/// The item that one call of [`Csv::next`] yields from state `st`, if any,
/// and the state it leaves behind.
pub open spec fn spec_step(buf: Seq<u8>, sep: u8, st: IterState) -> (Option<SpecItem>, IterState) {
    match st {
        IterState::Cell(start) => match scan_at(buf, sep, start as int, start as int, 0, false) {
            ScanNext::Finished => (None, IterState::Done),
            ScanNext::Emit { lo, hi, nl, at } => (
                Some(SpecItem::Cell { lo, hi }),
                if nl {
                    IterState::LineEnd(at as usize)
                } else {
                    IterState::Cell((at + 1) as usize)
                },
            ),
        },
        IterState::LineEnd(pos) => (Some(SpecItem::LineEnd), IterState::Cell((pos + 1) as usize)),
        IterState::Done => (None, IterState::Done),
    }
}

/// Repositioning `from` past `n` further newline bytes: the offset just after
/// the `n`-th one, or `None` when fewer than `n` newlines remain.
pub open spec fn skip_lines(buf: Seq<u8>, from: int, n: nat) -> Option<int>
    decreases n,
{
    if n == 0 {
        Some(from)
    } else {
        match spec_find(buf, LF, from) {
            None => None,
            Some(j) => skip_lines(buf, j + 1, (n - 1) as nat),
        }
    }
}

/// The state [`Csv::skip_rows`] leaves behind: the cell just after the `n`-th
/// newline at or after `from`, or `Done` when the newlines run out.
pub open spec fn skip_to_state(buf: Seq<u8>, from: int, n: nat) -> IterState {
    match skip_lines(buf, from, n) {
        Some(p) => IterState::Cell(p as usize),
        None => IterState::Done,
    }
}

/// The state [`Csv::skip_rows`] leaves behind, from any starting state.
pub open spec fn spec_skip_state(buf: Seq<u8>, st: IterState, n: nat) -> IterState {
    match st {
        IterState::Cell(s) => skip_to_state(buf, s as int, n),
        IterState::LineEnd(p) => skip_to_state(buf, p + 1, n),
        IterState::Done => IterState::Done,
    }
}

impl<'a> Csv<'a> {
    /// The scanner's cursor is inside the buffer, a pending line end really
    /// sits on a newline byte, and a cell never starts right after a bare
    /// carriage return. Constructors establish this and every step keeps it.
    pub open spec fn wf(self) -> bool {
        &&& self.sep != CR
        &&& match self.state {
            IterState::Cell(start) => start <= self.buf@.len() && (start == 0
                || self.buf@[start as int - 1] != CR),
            IterState::LineEnd(pos) => pos < self.buf@.len() && self.buf@[pos as int] == LF,
            IterState::Done => true,
        }
    }

    /// Creates a scanner over `buf` with the default comma separator.
    pub fn new(buf: &'a [u8]) -> (r: Csv<'a>)
        ensures
            r.wf(),
            r.buf@ == buf@,
            r.sep == COMMA,
            r.state == IterState::Cell(0usize),
    {
        Csv { buf, sep: COMMA, state: IterState::Cell(0) }
    }

    /// Creates a scanner over `buf` with the given separator byte.
    ///
    /// A carriage return cannot separate cells: it would collide with CRLF
    /// line terminators.
    pub fn with_separator(buf: &'a [u8], sep: u8) -> (r: Csv<'a>)
        requires
            sep != CR,
        ensures
            r.wf(),
            r.buf@ == buf@,
            r.sep == sep,
            r.state == IterState::Cell(0usize),
    {
        Csv { buf, sep, state: IterState::Cell(0) }
    }

    /// Yields the next cell or line end, or `None` once the buffer — or an
    /// unterminated tail of it — is exhausted.
    pub fn next(&mut self) -> (r: Option<CsvIterItem<'a>>)
        requires
            old(self).wf(),
        ensures
            final(self).wf(),
            final(self).buf@ == old(self).buf@,
            final(self).sep == old(self).sep,
            ({
                let (item, st2) = spec_step(old(self).buf@, old(self).sep, old(self).state);
                &&& final(self).state == st2
                &&& match item {
                    None => r is None,
                    Some(SpecItem::LineEnd) => r matches Some(CsvIterItem::LineEnd),
                    Some(SpecItem::Cell { lo, hi }) => r matches Some(CsvIterItem::Cell(c))
                        && c.buf@ == old(self).buf@.subrange(lo, hi),
                }
            }),
    {
        match self.state {
            IterState::Done => None,
            IterState::LineEnd(pos) => {
                let blen = self.buf.len();
                assert(pos < blen);
                self.state = IterState::Cell(pos + 1);
                Some(CsvIterItem::LineEnd)
            },
            IterState::Cell(start) => self.scan_cell(start),
        }
    }

    /// Scans the cell starting at `start` as [`spec_step`] describes.
    #[verifier::loop_isolation(false)]
    fn scan_cell(&mut self, start: usize) -> (r: Option<CsvIterItem<'a>>)
        requires
            old(self).wf(),
            old(self).state == IterState::Cell(start),
        ensures
            final(self).wf(),
            final(self).buf@ == old(self).buf@,
            final(self).sep == old(self).sep,
            ({
                let (item, st2) = spec_step(old(self).buf@, old(self).sep, old(self).state);
                &&& final(self).state == st2
                &&& match item {
                    None => r is None,
                    Some(SpecItem::LineEnd) => r matches Some(CsvIterItem::LineEnd),
                    Some(SpecItem::Cell { lo, hi }) => r matches Some(CsvIterItem::Cell(c))
                        && c.buf@ == old(self).buf@.subrange(lo, hi),
                }
            }),
    {
        let buf = self.buf;
        let blen = buf.len();
        assert(blen == buf@.len());
        let mut cursor: usize = start;
        let mut padding: usize = 0;
        let mut quoted = false;
        loop
            invariant
                start <= cursor <= buf@.len(),
                padding == 0 || padding == 1,
                quoted ==> (padding == 1 ==> cursor >= start + 1),
                !quoted ==> (padding == 1 ==> cursor >= start + 2 && (cursor == start + 2
                    ==> buf@[start as int + 1] == QUOTE)),
                scan_at(buf@, self.sep, start as int, cursor as int, padding as int, quoted)
                    == scan_at(buf@, self.sep, start as int, start as int, 0, false),
                *self == *old(self),
            decreases buf@.len() - cursor,
        {
            if !quoted {
                match find3_from(buf, self.sep, LF, QUOTE, cursor) {
                    None => {
                        proof {
                            lemma_find3_props(buf@, self.sep, LF, QUOTE, cursor as int);
                            lemma_scan_at_skip(
                                buf@,
                                self.sep,
                                start as int,
                                cursor as int,
                                buf@.len() as int,
                                padding as int,
                                false,
                            );
                        }
                        self.state = IterState::Done;
                        return None;
                    },
                    Some(i) => {
                        proof {
                            lemma_find3_props(buf@, self.sep, LF, QUOTE, cursor as int);
                            lemma_scan_at_skip(
                                buf@,
                                self.sep,
                                start as int,
                                cursor as int,
                                i as int,
                                padding as int,
                                false,
                            );
                        }
                        let c = buf[i];
                        if c == QUOTE {
                            if i == start {
                                padding = 1;
                            }
                            quoted = true;
                            cursor = i + 1;
                        } else {
                            let is_crlf = c == LF && i != 0 && buf[i - 1] == CR;
                            let padding_end = padding + if is_crlf {
                                1usize
                            } else {
                                0usize
                            };
                            proof {
                                if padding == 1 && is_crlf && i == start + 2 {
                                    assert(buf@[start as int + 1] == QUOTE);
                                    assert(buf@[i as int - 1] == CR);
                                }
                            }
                            let cell = crate::cell::Cell {
                                buf: &buf[(start + padding)..(i - padding_end)],
                            };
                            self.state = if c == LF {
                                IterState::LineEnd(i)
                            } else {
                                IterState::Cell(i + 1)
                            };
                            return Some(CsvIterItem::Cell(cell));
                        }
                    },
                }
            } else {
                match find_from(buf, QUOTE, cursor) {
                    None => {
                        proof {
                            lemma_find3_props(buf@, QUOTE, QUOTE, QUOTE, cursor as int);
                            lemma_scan_at_skip(
                                buf@,
                                self.sep,
                                start as int,
                                cursor as int,
                                buf@.len() as int,
                                padding as int,
                                true,
                            );
                        }
                        self.state = IterState::Done;
                        return None;
                    },
                    Some(j) => {
                        proof {
                            lemma_find3_props(buf@, QUOTE, QUOTE, QUOTE, cursor as int);
                            lemma_scan_at_skip(
                                buf@,
                                self.sep,
                                start as int,
                                cursor as int,
                                j as int,
                                padding as int,
                                true,
                            );
                        }
                        quoted = false;
                        cursor = j + 1;
                    },
                }
            }
        }
    }

    /// Skips the first `n` rows by searching for bare newline bytes, without
    /// recognizing cells or quoting. Fewer than `n` newlines left means the
    /// scanner is done.
    #[verifier::loop_isolation(false)]
    pub fn skip_rows(self, n: usize) -> (r: Csv<'a>)
        requires
            self.wf(),
        ensures
            r.wf(),
            r.buf@ == self.buf@,
            r.sep == self.sep,
            r.state == spec_skip_state(self.buf@, self.state, n as nat),
    {
        let mut csv = self;
        let buf = csv.buf;
        let blen = buf.len();
        assert(blen == buf@.len());
        let mut start: usize = match csv.state {
            IterState::Cell(s) => s,
            IterState::LineEnd(p) => p + 1,
            IterState::Done => {
                return csv;
            },
        };
        let ghost start0: int = start as int;
        let mut k: usize = 0;
        while k < n
            invariant
                k <= n,
                start <= buf@.len(),
                start == 0 || buf@[start as int - 1] != CR,
                csv.buf == self.buf,
                csv.buf == buf,
                csv.sep == self.sep,
                skip_lines(buf@, start0, n as nat) == skip_lines(buf@, start as int, (n - k) as nat),
                spec_skip_state(buf@, self.state, n as nat) == skip_to_state(buf@, start0, n as nat),
            decreases n - k,
        {
            match find_from(buf, LF, start) {
                Some(j) => {
                    proof {
                        lemma_find3_props(buf@, LF, LF, LF, start as int);
                    }
                    start = j + 1;
                    k = k + 1;
                },
                None => {
                    csv.state = IterState::Done;
                    return csv;
                },
            }
        }
        csv.state = IterState::Cell(start);
        csv
    }
}

/// Scanning is unmoved by stepping over bytes that it does not stop at:
/// outside a quoted run, bytes that are no separator, newline or quote; in a
/// quoted run, bytes that are no quote.
pub proof fn lemma_scan_at_skip(buf: Seq<u8>, sep: u8, start: int, cur: int, to: int, padding: int, quoted: bool)
    requires
        0 <= cur <= to <= buf.len(),
        quoted ==> forall|j: int| cur <= j < to ==> buf[j] != QUOTE,
        !quoted ==> forall|j: int| cur <= j < to ==> buf[j] != sep && buf[j] != LF && buf[j]
            != QUOTE,
    ensures
        scan_at(buf, sep, start, cur, padding, quoted) == scan_at(buf, sep, start, to, padding, quoted),
    decreases to - cur,
{
    if cur < to {
        lemma_scan_at_skip(buf, sep, start, cur + 1, to, padding, quoted);
    }
}

} // verus!
