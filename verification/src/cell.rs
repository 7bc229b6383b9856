//! Cells: a borrowed raw byte slice of the buffer, decoded to text only on
//! demand — UTF-8 validation plus unquoting of doubled quote marks.

use crate::scan::QUOTE;
use vstd::prelude::*;
use vstd::string::StringSliceAdditionalSpecFns;
use vstd::utf8::{
    decode_first_codepoint, decode_utf8, encode_utf8, encode_utf8_decode_utf8,
    is_leading_byte_width_1, length_of_first_scalar, pop_first_scalar, valid_first_scalar,
    valid_utf8,
};

verus! {

/// A cell in a CSV row: the raw, possibly still quoted bytes of one field.
///
/// Equality, ordering and hashing go by the raw bytes, so a quoted and an
/// unquoted spelling of the same logical value are distinct cells.
#[derive(Debug, Clone, Hash, Ord)]
pub struct Cell<'a> {
    /// The raw bytes, borrowed from the scanned buffer. Quote delimiters and
    /// a CRLF's carriage return are already stripped from the ends, but
    /// doubled quotes inside are kept as they stand.
    pub buf: &'a [u8],
}

/// Byte-for-byte equality of two slices.
#[verifier::loop_isolation(false)]
fn bytes_equal(a: &[u8], b: &[u8]) -> (r: bool)
    ensures
        r <==> a@ == b@,
{
    if a.len() != b.len() {
        return false;
    }
    let mut i: usize = 0;
    while i < a.len()
        invariant
            i <= a@.len(),
            a@.len() == b@.len(),
            forall|j: int| 0 <= j < i ==> a@[j] == b@[j],
        decreases a@.len() - i,
    {
        if a[i] != b[i] {
            return false;
        }
        i = i + 1;
    }
    proof {
        assert(a@ =~= b@);
    }
    true
}

impl<'a> PartialEq for Cell<'a> {
    fn eq(&self, other: &Self) -> (r: bool) {
        bytes_equal(self.buf, other.buf)
    }
}

impl<'a> Eq for Cell<'a> {

}

impl<'a> vstd::std_specs::cmp::PartialEqSpecImpl for Cell<'a> {
    open spec fn obeys_eq_spec() -> bool {
        true
    }

    open spec fn eq_spec(&self, other: &Cell<'a>) -> bool {
        self.buf@ == other.buf@
    }
}

/// Lexicographic order on byte sequences: the order of the raw slices.
pub open spec fn bytes_cmp(a: Seq<u8>, b: Seq<u8>) -> core::cmp::Ordering
    decreases a.len(),
{
    if a.len() == 0 && b.len() == 0 {
        core::cmp::Ordering::Equal
    } else if a.len() == 0 {
        core::cmp::Ordering::Less
    } else if b.len() == 0 {
        core::cmp::Ordering::Greater
    } else if a[0] < b[0] {
        core::cmp::Ordering::Less
    } else if a[0] > b[0] {
        core::cmp::Ordering::Greater
    } else {
        bytes_cmp(a.skip(1), b.skip(1))
    }
}

/// Lexicographic comparison of two slices, as std orders them.
#[verifier::loop_isolation(false)]
fn bytes_compare(a: &[u8], b: &[u8]) -> (r: core::cmp::Ordering)
    ensures
        r == bytes_cmp(a@, b@),
{
    let mut i: usize = 0;
    proof {
        assert(a@.skip(0) =~= a@);
        assert(b@.skip(0) =~= b@);
    }
    loop
        invariant
            i <= a@.len(),
            i <= b@.len(),
            bytes_cmp(a@, b@) == bytes_cmp(a@.skip(i as int), b@.skip(i as int)),
        decreases a@.len() - i,
    {
        if i >= a.len() {
            if i >= b.len() {
                return core::cmp::Ordering::Equal;
            }
            return core::cmp::Ordering::Less;
        }
        if i >= b.len() {
            return core::cmp::Ordering::Greater;
        }
        if a[i] < b[i] {
            return core::cmp::Ordering::Less;
        }
        if a[i] > b[i] {
            return core::cmp::Ordering::Greater;
        }
        proof {
            assert(a@.skip(i as int).skip(1) =~= a@.skip(i as int + 1));
            assert(b@.skip(i as int).skip(1) =~= b@.skip(i as int + 1));
        }
        i = i + 1;
    }
}

impl<'a> PartialOrd for Cell<'a> {
    fn partial_cmp(&self, other: &Self) -> (r: Option<core::cmp::Ordering>) {
        Some(bytes_compare(self.buf, other.buf))
    }
}

impl<'a> vstd::std_specs::cmp::PartialOrdSpecImpl for Cell<'a> {
    open spec fn obeys_partial_cmp_spec() -> bool {
        true
    }

    open spec fn partial_cmp_spec(&self, other: &Cell<'a>) -> Option<core::cmp::Ordering> {
        Some(bytes_cmp(self.buf@, other.buf@))
    }
}

/// The raw bytes of a cell were not valid UTF-8.
#[derive(Debug, Clone, Copy, PartialEq, Eq, Structural)]
pub struct Utf8Error;

/// A decoded cell value: borrowed straight from the buffer when no unquoting
/// was needed, owned — one allocation — when doubled quotes were collapsed.
#[derive(Debug)]
pub enum CellValue<'a> {
    /// The cell's text, borrowed without allocation.
    Borrowed(&'a str),
    /// The cell's unquoted text, in fresh storage.
    Owned(String),
}

/// `s` with every leftmost, non-overlapping doubled quote mark collapsed to
/// a single quote mark.
pub open spec fn dequote_chars(s: Seq<char>) -> Seq<char>
    decreases s.len(),
{
    if s.len() >= 2 && s[0] == '"' && s[1] == '"' {
        seq!['"'] + dequote_chars(s.skip(2))
    } else if s.len() >= 1 {
        seq![s[0]] + dequote_chars(s.skip(1))
    } else {
        Seq::<char>::empty()
    }
}

/// Relies on `core::str::from_utf8`: it succeeds exactly on the valid UTF-8
/// byte sequences, and the string it returns is over those same bytes.
#[verifier::external_body]
fn utf8_to_str<'a>(b: &'a [u8]) -> (r: Option<&'a str>)
    ensures
        r is Some <==> valid_utf8(b@),
        r matches Some(s) ==> encode_utf8(s@) == b@,
{
    core::str::from_utf8(b).ok()
}

/// Relies on `str::replace` with the doubled-quote pattern: every leftmost,
/// non-overlapping `""` becomes one `"`; everything else is kept as it is.
#[verifier::external_body]
fn dequote_str(s: &str) -> (r: String)
    ensures
        r@ == dequote_chars(s@),
{
    s.replace("\"\"", "\"")
}

impl<'a> Cell<'a> {
    /// Decodes the cell: validates the raw bytes as UTF-8 and, when the text
    /// opens with a quote mark, collapses doubled quote marks across it.
    ///
    /// Returns a borrowed view — no allocation — when no unquoting applies,
    /// and an owned string otherwise.
    pub fn try_as_str(&self) -> (r: Result<CellValue<'a>, Utf8Error>)
        ensures
            r is Ok <==> valid_utf8(self.buf@),
            r matches Ok(v) ==> ({
                let chars = decode_utf8(self.buf@);
                if self.buf@.len() > 0 && self.buf@[0] == QUOTE {
                    v matches CellValue::Owned(s) && s@ == dequote_chars(chars)
                } else {
                    v matches CellValue::Borrowed(s) && s@ == chars
                }
            }),
    {
        match utf8_to_str(self.buf) {
            None => Err(Utf8Error),
            Some(s) => {
                proof {
                    encode_utf8_decode_utf8(s@);
                    assert(s.spec_bytes() == encode_utf8(s@));
                }
                let bs = s.as_bytes();
                if bs.len() > 0 && bs[0] == QUOTE {
                    Ok(CellValue::Owned(dequote_str(s)))
                } else {
                    Ok(CellValue::Borrowed(s))
                }
            },
        }
    }
}

/// An ASCII digit, upper-case letter or lower-case letter.
pub open spec fn is_ascii_alnum(b: u8) -> bool {
    (48 <= b <= 57) || (65 <= b <= 90) || (97 <= b <= 122)
}

/// Each byte read as one character: the decoding of a pure-ASCII buffer.
pub open spec fn ascii_chars_of(b: Seq<u8>) -> Seq<char> {
    Seq::new(b.len(), |i: int| b[i] as char)
}

/// A sequence of bytes below 0x80 is valid UTF-8 and decodes byte for byte.
pub proof fn lemma_ascii_decodes_to_itself(b: Seq<u8>)
    requires
        forall|i: int| 0 <= i < b.len() ==> b[i] < 0x80,
    ensures
        valid_utf8(b),
        decode_utf8(b) =~= ascii_chars_of(b),
    decreases b.len(),
{
    if b.len() > 0 {
        let x = b[0];
        assert(x & 0x7f == x) by (bit_vector)
            requires
                x < 0x80,
        ;
        assert(valid_first_scalar(b));
        assert(length_of_first_scalar(b) == 1);
        assert(pop_first_scalar(b) =~= b.skip(1));
        lemma_ascii_decodes_to_itself(b.skip(1));
        assert(decode_first_codepoint(b) == x as u32);
        assert((x as u32) as char == x as char);
        assert(decode_utf8(b) =~= ascii_chars_of(b));
    }
}

/// Decoding a cell of plain ASCII letters and digits — no separator, quote
/// or newline can be among them — yields exactly those characters, through
/// the borrowed, allocation-free branch of [`Cell::try_as_str`].
pub proof fn lemma_plain_cell_decodes_to_itself(b: Seq<u8>)
    requires
        forall|i: int| 0 <= i < b.len() ==> is_ascii_alnum(b[i]),
    ensures
        valid_utf8(b),
        decode_utf8(b) =~= ascii_chars_of(b),
        b.len() > 0 ==> b[0] != QUOTE,
{
    lemma_ascii_decodes_to_itself(b);
}

} // verus!
