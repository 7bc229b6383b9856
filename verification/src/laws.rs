//! The scanner's global laws: its item stream as one sequence, splitting as
//! a reference model for unquoted buffers, and the row-skipping fast path's
//! agreement with plain iteration.

use crate::scan::{
    scan_at, skip_lines, skip_to_state, spec_step, IterState, ScanNext, SpecItem, CR, LF, QUOTE,
};
use crate::search::{lemma_find3_from_witness, lemma_find3_props, spec_find, spec_find3};
use vstd::prelude::*;

verus! {

/// A scanner item by content alone: a cell's raw bytes, or a line end.
pub ghost enum CsvToken {
    /// A cell with these raw bytes.
    Field(Seq<u8>),
    /// A line end.
    Terminator,
}

/// An upper bound on how many steps the scanner can still take from `st`.
pub open spec fn stream_measure(buf: Seq<u8>, st: IterState) -> int {
    match st {
        IterState::Cell(s) => if s <= buf.len() {
            2 * (buf.len() - s) + 2
        } else {
            0
        },
        IterState::LineEnd(p) => if p < buf.len() {
            2 * (buf.len() - p) + 1
        } else {
            2 * (buf.len() as int) + 3
        },
        IterState::Done => 0,
    }
}

/// A cell scan that emits does so at a structural byte at or after the
/// cursor, inside the buffer.
pub proof fn lemma_scan_at_emit_bounds(buf: Seq<u8>, sep: u8, start: int, cur: int, padding: int, quoted: bool)
    requires
        0 <= cur,
    ensures
        match scan_at(buf, sep, start, cur, padding, quoted) {
            ScanNext::Finished => true,
            ScanNext::Emit { lo, hi, nl, at } => cur <= at < buf.len() && (nl <==> buf[at] == LF)
                && (!nl ==> buf[at] == sep),
        },
    decreases buf.len() - cur,
{
    if 0 <= cur < buf.len() {
        if quoted {
            lemma_scan_at_emit_bounds(buf, sep, start, cur + 1, padding, false);
            lemma_scan_at_emit_bounds(buf, sep, start, cur + 1, padding, true);
        } else {
            lemma_scan_at_emit_bounds(
                buf,
                sep,
                start,
                cur + 1,
                if cur == start {
                    1int
                } else {
                    padding
                },
                true,
            );
            lemma_scan_at_emit_bounds(buf, sep, start, cur + 1, padding, false);
        }
    }
}

/// One scanner step strictly shrinks the measure whenever it yields an item.
pub proof fn lemma_step_measure(buf: Seq<u8>, sep: u8, st: IterState)
    requires
        buf.len() <= usize::MAX,
    ensures
        ({
            let (item, st2) = spec_step(buf, sep, st);
            item is Some ==> 0 <= stream_measure(buf, st2) < stream_measure(buf, st)
        }),
{
    match st {
        IterState::Cell(s) => {
            lemma_scan_at_emit_bounds(buf, sep, s as int, s as int, 0, false);
        },
        IterState::LineEnd(_) => {
        },
        IterState::Done => {
        },
    }
}

#[via_fn]
proof fn scan_items_decreases(buf: Seq<u8>, sep: u8, st: IterState) {
    lemma_step_measure(buf, sep, st);
}

/// Everything the scanner still yields from state `st`, in order, by
/// content: the whole remaining stream of cells and line ends.
pub open spec fn scan_items(buf: Seq<u8>, sep: u8, st: IterState) -> Seq<CsvToken>
    decreases stream_measure(buf, st),
        when buf.len() <= usize::MAX
        via scan_items_decreases
{
    let step = spec_step(buf, sep, st);
    match step.0 {
        None => Seq::empty(),
        Some(SpecItem::Cell { lo, hi }) => seq![CsvToken::Field(buf.subrange(lo, hi))]
            + scan_items(buf, sep, step.1),
        Some(SpecItem::LineEnd) => seq![CsvToken::Terminator] + scan_items(buf, sep, step.1),
    }
}

/// `items` with everything up to and including the `n`-th line end dropped;
/// empty when fewer than `n` line ends remain.
pub open spec fn after_lines(items: Seq<CsvToken>, n: nat) -> Seq<CsvToken>
    decreases n, items.len(),
{
    if n == 0 {
        items
    } else if items.len() == 0 {
        Seq::empty()
    } else if items[0] is Terminator {
        after_lines(items.skip(1), (n - 1) as nat)
    } else {
        after_lines(items.skip(1), n)
    }
}

/// With no quote mark ahead of the cursor, a cell scan emits exactly at the
/// first separator or newline, with the cell running from the cursor there.
pub proof fn lemma_scan_at_unquoted(buf: Seq<u8>, sep: u8, cur: int)
    requires
        0 <= cur <= buf.len(),
        forall|j: int| cur <= j < buf.len() ==> buf[j] != QUOTE,
    ensures
        match spec_find3(buf, sep, LF, QUOTE, cur) {
            None => scan_at(buf, sep, cur, cur, 0, false) == ScanNext::Finished,
            Some(i) => ({
                let nl = buf[i] == LF;
                let crlf: int = if nl && i != 0 && buf[i - 1] == CR {
                    1
                } else {
                    0
                };
                scan_at(buf, sep, cur, cur, 0, false) == ScanNext::Emit {
                    lo: cur,
                    hi: i - crlf,
                    nl,
                    at: i,
                }
            }),
        },
{
    lemma_find3_props(buf, sep, LF, QUOTE, cur);
    match spec_find3(buf, sep, LF, QUOTE, cur) {
        None => {
            crate::scan::lemma_scan_at_skip(buf, sep, cur, cur, buf.len() as int, 0, false);
        },
        Some(i) => {
            crate::scan::lemma_scan_at_skip(buf, sep, cur, cur, i, 0, false);
            assert(buf[i] != QUOTE);
        },
    }
}

/// A step of the split reference model: the first separator or newline at or
/// after `from`, ignoring quoting entirely.
pub open spec fn split_find(b: Seq<u8>, sep: u8, from: int) -> Option<int> {
    spec_find3(b, sep, LF, sep, from)
}

#[via_fn]
proof fn split_tokens_from_decreases(b: Seq<u8>, sep: u8, from: int) {
    if 0 <= from <= b.len() {
        lemma_find3_props(b, sep, LF, sep, from);
    }
}

/// Splitting `b` on the separator and newline bytes, from `from` on: each
/// stretch up to a separator or newline is a field (a CRLF's carriage return
/// is stripped), each newline also a terminator, and a trailing stretch with
/// no separator or newline after it is dropped.
pub open spec fn split_tokens_from(b: Seq<u8>, sep: u8, from: int) -> Seq<CsvToken>
    decreases b.len() - from,
        via split_tokens_from_decreases
{
    match split_find(b, sep, from) {
        None => Seq::empty(),
        Some(i) => {
            let crlf: int = if b[i] == LF && i != 0 && b[i - 1] == CR {
                1
            } else {
                0
            };
            let field = CsvToken::Field(b.subrange(from, i - crlf));
            if b[i] == LF {
                seq![field, CsvToken::Terminator] + split_tokens_from(b, sep, i + 1)
            } else {
                seq![field] + split_tokens_from(b, sep, i + 1)
            }
        },
    }
}

/// On a buffer with no quote mark ahead of the cursor, the scanner's items
/// are exactly those of splitting on the separator and newline bytes.
pub proof fn lemma_unquoted_scan_is_split(buf: Seq<u8>, sep: u8, start: int)
    requires
        buf.len() <= usize::MAX,
        0 <= start <= buf.len(),
        sep != CR,
        start == 0 || buf[start - 1] != CR,
        forall|j: int| start <= j < buf.len() ==> buf[j] != QUOTE,
    ensures
        scan_items(buf, sep, IterState::Cell(start as usize)) =~= split_tokens_from(buf, sep, start),
    decreases buf.len() - start,
{
    lemma_scan_at_unquoted(buf, sep, start);
    lemma_find3_props(buf, sep, LF, QUOTE, start);
    match spec_find3(buf, sep, LF, QUOTE, start) {
        None => {
            lemma_find3_from_witness(buf, sep, LF, sep, start, None);
        },
        Some(i) => {
            lemma_find3_from_witness(buf, sep, LF, sep, start, Some(i));
            assert(split_find(buf, sep, start) == Some(i));
            let st: IterState = IterState::Cell(start as usize);
            let step = spec_step(buf, sep, st);
            if buf[i] == LF {
                assert(step.1 == IterState::LineEnd(i as usize));
                lemma_unquoted_scan_is_split(buf, sep, i + 1);
                assert(scan_items(buf, sep, IterState::LineEnd(i as usize))
                    =~= seq![CsvToken::Terminator] + scan_items(
                    buf,
                    sep,
                    IterState::Cell((i + 1) as usize),
                ));
                assert(scan_items(buf, sep, st) =~= split_tokens_from(buf, sep, start));
            } else {
                assert(step.1 == IterState::Cell((i + 1) as usize));
                lemma_unquoted_scan_is_split(buf, sep, i + 1);
                assert(scan_items(buf, sep, st) =~= split_tokens_from(buf, sep, start));
            }
        },
    }
}

/// Consuming through the first newline: dropping one line's worth of items
/// from the stream at `cur` leaves the stream just past that newline.
proof fn lemma_line_consumed(buf: Seq<u8>, sep: u8, cur: int, j: int, n: nat)
    requires
        buf.len() <= usize::MAX,
        0 <= cur <= j < buf.len(),
        buf[j] == LF,
        forall|t: int| cur <= t < j ==> buf[t] != LF,
        forall|t: int| cur <= t < buf.len() ==> buf[t] != QUOTE,
        n >= 1,
    ensures
        after_lines(scan_items(buf, sep, IterState::Cell(cur as usize)), n) == after_lines(
            scan_items(buf, sep, IterState::Cell((j + 1) as usize)),
            (n - 1) as nat,
        ),
    decreases j - cur,
{
    lemma_scan_at_unquoted(buf, sep, cur);
    lemma_find3_props(buf, sep, LF, QUOTE, cur);
    match spec_find3(buf, sep, LF, QUOTE, cur) {
        None => {
            assert(false);
        },
        Some(i) => {
            assert(i <= j);
            let st: IterState = IterState::Cell(cur as usize);
            let head = scan_items(buf, sep, st);
            if buf[i] == LF {
                assert(i == j);
                let rest = scan_items(buf, sep, IterState::Cell((j + 1) as usize));
                let le = scan_items(buf, sep, IterState::LineEnd(j as usize));
                assert(le =~= seq![CsvToken::Terminator] + rest);
                assert(head =~= seq![CsvToken::Field(head[0]->Field_0)] + le);
                assert(head.len() >= 2 && head[0] is Field && head[1] is Terminator);
                assert(head.skip(1) =~= le);
                assert(le.skip(1) =~= rest);
                assert(after_lines(head, n) == after_lines(le, n));
                assert(after_lines(le, n) == after_lines(rest, (n - 1) as nat));
            } else {
                let mid = scan_items(buf, sep, IterState::Cell((i + 1) as usize));
                assert(head =~= seq![CsvToken::Field(head[0]->Field_0)] + mid);
                assert(head[0] is Field);
                assert(head.skip(1) =~= mid);
                assert(after_lines(head, n) == after_lines(mid, n));
                lemma_line_consumed(buf, sep, i + 1, j, n);
            }
        },
    }
}

/// With no newline ahead, the stream holds cells only, no line end.
proof fn lemma_no_newline_no_terminator(buf: Seq<u8>, sep: u8, cur: int)
    requires
        buf.len() <= usize::MAX,
        0 <= cur <= buf.len(),
        forall|t: int| cur <= t < buf.len() ==> buf[t] != LF,
        forall|t: int| cur <= t < buf.len() ==> buf[t] != QUOTE,
    ensures
        forall|k: int|
            0 <= k < scan_items(buf, sep, IterState::Cell(cur as usize)).len() ==> (#[trigger] scan_items(
                buf,
                sep,
                IterState::Cell(cur as usize),
            )[k]) is Field,
    decreases buf.len() - cur,
{
    lemma_scan_at_unquoted(buf, sep, cur);
    lemma_find3_props(buf, sep, LF, QUOTE, cur);
    match spec_find3(buf, sep, LF, QUOTE, cur) {
        None => {
        },
        Some(i) => {
            assert(buf[i] == sep && buf[i] != LF);
            lemma_no_newline_no_terminator(buf, sep, i + 1);
            let head = scan_items(buf, sep, IterState::Cell(cur as usize));
            let mid = scan_items(buf, sep, IterState::Cell((i + 1) as usize));
            assert(head =~= seq![CsvToken::Field(head[0]->Field_0)] + mid);
            assert forall|k: int| 0 <= k < head.len() implies head[k] is Field by {
                if k > 0 {
                    assert(head[k] == mid[k - 1]);
                }
            }
        },
    }
}

/// Dropping a line from a stream of cells alone empties it.
proof fn lemma_after_lines_all_fields(items: Seq<CsvToken>, n: nat)
    requires
        n >= 1,
        forall|k: int| 0 <= k < items.len() ==> items[k] is Field,
    ensures
        after_lines(items, n) == Seq::<CsvToken>::empty(),
    decreases items.len(),
{
    if items.len() > 0 {
        lemma_after_lines_all_fields(items.skip(1), n);
    }
}

/// Skipping `n` rows and then iterating yields exactly the items that
/// iterating from the start yields after the first `n` complete lines'
/// worth of cells and line ends — and nothing at all once `n` goes past the
/// number of complete lines. Holds wherever no quote mark lies ahead of the
/// cursor; a quoted cell may swallow newline bytes that the byte-level skip
/// still counts, and the two ways then part.
pub proof fn lemma_skip_rows_matches_iteration(buf: Seq<u8>, sep: u8, start: int, n: nat)
    requires
        buf.len() <= usize::MAX,
        0 <= start <= buf.len(),
        sep != CR,
        start == 0 || buf[start - 1] != CR,
        forall|j: int| start <= j < buf.len() ==> buf[j] != QUOTE,
    ensures
        scan_items(buf, sep, skip_to_state(buf, start, n)) =~= after_lines(
            scan_items(buf, sep, IterState::Cell(start as usize)),
            n,
        ),
    decreases n,
{
    if n > 0 {
        lemma_find3_props(buf, LF, LF, LF, start);
        match spec_find(buf, LF, start) {
            Some(j) => {
                lemma_line_consumed(buf, sep, start, j, n);
                lemma_skip_rows_matches_iteration(buf, sep, j + 1, (n - 1) as nat);
                assert(skip_lines(buf, start, n) == skip_lines(buf, j + 1, (n - 1) as nat));
            },
            None => {
                assert(skip_lines(buf, start, n) is None);
                lemma_no_newline_no_terminator(buf, sep, start);
                lemma_after_lines_all_fields(
                    scan_items(buf, sep, IterState::Cell(start as usize)),
                    n,
                );
            },
        }
    }
}

/// `b` with every newline byte written as a CRLF pair instead.
pub open spec fn with_crlf(b: Seq<u8>) -> Seq<u8>
    decreases b.len(),
{
    if b.len() == 0 {
        Seq::empty()
    } else if b[0] == LF {
        seq![CR, LF] + with_crlf(b.skip(1))
    } else {
        seq![b[0]] + with_crlf(b.skip(1))
    }
}

/// Rewriting newlines grows the buffer by at most one byte per newline.
proof fn lemma_with_crlf_len(b: Seq<u8>)
    ensures
        b.len() <= with_crlf(b).len() <= 2 * b.len(),
    decreases b.len(),
{
    if b.len() > 0 {
        lemma_with_crlf_len(b.skip(1));
    }
}

/// A byte other than the carriage return absent from `b` is absent from the
/// rewriting too.
proof fn lemma_with_crlf_absent(t: Seq<u8>, x: u8)
    requires
        x != CR,
        forall|j: int| 0 <= j < t.len() ==> t[j] != x,
    ensures
        forall|j: int| 0 <= j < with_crlf(t).len() ==> (#[trigger] with_crlf(t)[j]) != x,
    decreases t.len(),
{
    if t.len() > 0 {
        assert(forall|j: int| 0 <= j < t.skip(1).len() ==> t.skip(1)[j] != x);
        lemma_with_crlf_absent(t.skip(1), x);
        let w = with_crlf(t);
        let head: int = if t[0] == LF {
            2
        } else {
            1
        };
        assert forall|j: int| 0 <= j < w.len() implies w[j] != x by {
            if j >= head {
                assert(w[j] == with_crlf(t.skip(1))[j - head]);
            }
        }
    }
}

/// The rewriting passes a newline-free stretch through unchanged and then
/// carries on behind it.
proof fn lemma_with_crlf_take(t: Seq<u8>, d: int)
    requires
        0 <= d <= t.len(),
        forall|j: int| 0 <= j < d ==> t[j] != LF,
    ensures
        with_crlf(t) =~= t.take(d) + with_crlf(t.skip(d)),
    decreases d,
{
    if d == 0 {
        assert(t.take(0) =~= Seq::<u8>::empty());
        assert(t.skip(0) =~= t);
    } else {
        assert(t[0] != LF);
        lemma_with_crlf_take(t.skip(1), d - 1);
        assert(t.skip(1).take(d - 1) =~= t.take(d).skip(1));
        assert(t.skip(1).skip(d - 1) =~= t.skip(d));
        assert(with_crlf(t) =~= t.take(d) + with_crlf(t.skip(d)));
    }
}

/// Splitting is blind to whether newlines are spelled LF or CRLF: two
/// buffers that agree after the cursor up to that spelling split alike.
proof fn lemma_crlf_split_align(b: Seq<u8>, w: Seq<u8>, sep: u8, p: int, q: int)
    requires
        sep != CR,
        sep != LF,
        forall|j: int| 0 <= j < b.len() ==> b[j] != CR,
        0 <= p <= b.len(),
        0 <= q <= w.len(),
        w.skip(q) =~= with_crlf(b.skip(p)),
        q == 0 || w[q - 1] != CR,
    ensures
        split_tokens_from(w, sep, q) =~= split_tokens_from(b, sep, p),
    decreases b.len() - p,
{
    let t = b.skip(p);
    lemma_find3_props(b, sep, LF, sep, p);
    match split_find(b, sep, p) {
        None => {
            assert(forall|j: int| 0 <= j < t.len() ==> t[j] != sep && t[j] != LF);
            lemma_with_crlf_absent(t, sep);
            lemma_with_crlf_absent(t, LF);
            assert forall|j: int| q <= j < w.len() implies w[j] != sep && w[j] != LF && w[j]
                != sep by {
                assert(w[j] == with_crlf(t)[j - q]);
            }
            lemma_find3_from_witness(w, sep, LF, sep, q, None);
        },
        Some(i) => {
            let d = i - p;
            assert(forall|j: int| 0 <= j < d ==> t[j] == b[p + j]);
            lemma_with_crlf_take(t, d);
            let tail = t.skip(d);
            assert(tail[0] == b[i]);
            assert(tail =~= b.skip(i));
            assert(tail.skip(1) =~= b.skip(i + 1));
            if b[i] == sep {
                let rhs = seq![sep] + with_crlf(tail.skip(1));
                assert(with_crlf(tail) =~= rhs);
                let whole = t.take(d) + rhs;
                assert(w.skip(q) =~= whole);
                assert forall|k: int| 0 <= k < whole.len() implies w[q + k] == whole[k] by {
                    assert(w.skip(q)[k] == w[q + k]);
                }
                assert(d < whole.len());
                assert(w[q + d] == whole[d]);
                assert(whole[d] == rhs[0]);
                assert(w[q + d] == sep);
                assert forall|j: int| q <= j < q + d implies w[j] != sep && w[j] != LF && w[j]
                    != sep by {
                    assert(w[j] == whole[j - q]);
                    assert(whole[j - q] == t.take(d)[j - q]);
                    assert(t.take(d)[j - q] == b[p + (j - q)]);
                }
                lemma_find3_from_witness(w, sep, LF, sep, q, Some(q + d));
                assert(w.subrange(q, q + d) =~= b.subrange(p, i)) by {
                    assert forall|k: int| 0 <= k < d implies w.subrange(q, q + d)[k] == b.subrange(
                        p,
                        i,
                    )[k] by {
                        assert(w[q + k] == whole[k]);
                        assert(whole[k] == t.take(d)[k]);
                    }
                }
                assert(w.skip(q + d + 1) =~= with_crlf(b.skip(i + 1))) by {
                    assert(with_crlf(tail.skip(1)) == with_crlf(b.skip(i + 1)));
                    assert(w.skip(q).len() == whole.len());
                    assert forall|k: int| 0 <= k < with_crlf(b.skip(i + 1)).len() implies #[trigger] w.skip(
                        q + d + 1,
                    )[k] == with_crlf(b.skip(i + 1))[k] by {
                        assert(w.skip(q + d + 1)[k] == w[q + d + 1 + k]);
                        assert(w[q + d + 1 + k] == whole[d + 1 + k]);
                        assert(whole[d + 1 + k] == rhs[1 + k]);
                        assert(rhs[1 + k] == with_crlf(tail.skip(1))[k]);
                    }
                }
                lemma_crlf_split_align(b, w, sep, i + 1, q + d + 1);
                assert(split_tokens_from(w, sep, q) =~= split_tokens_from(b, sep, p));
            } else {
                assert(b[i] == LF);
                let rhs = seq![CR, LF] + with_crlf(tail.skip(1));
                assert(with_crlf(tail) =~= rhs);
                let whole = t.take(d) + rhs;
                assert(w.skip(q) =~= whole);
                assert forall|k: int| 0 <= k < whole.len() implies w[q + k] == whole[k] by {
                    assert(w.skip(q)[k] == w[q + k]);
                }
                assert(d + 1 < whole.len());
                assert(w[q + d] == whole[d]);
                assert(whole[d] == rhs[0]);
                assert(w[q + d] == CR);
                assert(w[q + d + 1] == whole[d + 1]);
                assert(whole[d + 1] == rhs[1]);
                assert(w[q + d + 1] == LF);
                assert forall|j: int| q <= j < q + d + 1 implies w[j] != sep && w[j] != LF && w[j]
                    != sep by {
                    if j < q + d {
                        assert(w[j] == whole[j - q]);
                        assert(whole[j - q] == t.take(d)[j - q]);
                        assert(t.take(d)[j - q] == b[p + (j - q)]);
                    }
                }
                lemma_find3_from_witness(w, sep, LF, sep, q, Some(q + d + 1));
                assert(w.subrange(q, q + d) =~= b.subrange(p, i)) by {
                    assert forall|k: int| 0 <= k < d implies w.subrange(q, q + d)[k] == b.subrange(
                        p,
                        i,
                    )[k] by {
                        assert(w[q + k] == whole[k]);
                        assert(whole[k] == t.take(d)[k]);
                    }
                }
                assert(i == 0 || b[i - 1] != CR);
                assert(w.skip(q + d + 2) =~= with_crlf(b.skip(i + 1))) by {
                    assert(with_crlf(tail.skip(1)) == with_crlf(b.skip(i + 1)));
                    assert(w.skip(q).len() == whole.len());
                    assert forall|k: int| 0 <= k < with_crlf(b.skip(i + 1)).len() implies #[trigger] w.skip(
                        q + d + 2,
                    )[k] == with_crlf(b.skip(i + 1))[k] by {
                        assert(w.skip(q + d + 2)[k] == w[q + d + 2 + k]);
                        assert(w[q + d + 2 + k] == whole[d + 2 + k]);
                        assert(whole[d + 2 + k] == rhs[2 + k]);
                        assert(rhs[2 + k] == with_crlf(tail.skip(1))[k]);
                    }
                }
                lemma_crlf_split_align(b, w, sep, i + 1, q + d + 2);
                assert(split_tokens_from(w, sep, q) =~= split_tokens_from(b, sep, p));
            }
        },
    }
}

/// CRLF and LF line terminators are interchangeable: writing every newline
/// of a quote-free, CR-free buffer as CRLF leaves the scanner's cells and
/// line boundaries exactly as they were.
pub proof fn lemma_crlf_matches_lf(b: Seq<u8>, sep: u8)
    requires
        2 * b.len() <= usize::MAX,
        sep != CR,
        sep != LF,
        forall|j: int| 0 <= j < b.len() ==> b[j] != CR && b[j] != QUOTE,
    ensures
        scan_items(with_crlf(b), sep, IterState::Cell(0usize)) =~= scan_items(
            b,
            sep,
            IterState::Cell(0usize),
        ),
{
    let w = with_crlf(b);
    lemma_with_crlf_len(b);
    assert(b.skip(0) =~= b);
    assert(w.skip(0) =~= with_crlf(b.skip(0)));
    lemma_crlf_split_align(b, w, sep, 0, 0);
    assert(forall|j: int| 0 <= j < b.len() ==> b[j] != QUOTE);
    lemma_with_crlf_absent(b, QUOTE);
    lemma_unquoted_scan_is_split(b, sep, 0);
    lemma_unquoted_scan_is_split(w, sep, 0);
}

} // verus!
