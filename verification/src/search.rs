//! Byte searching: a specification of "first occurrence", and searches over
//! slices carried out by the `memchr` crate behind trusted wrappers.

use vstd::prelude::*;

verus! {

/// First index at or after `from` in `s` whose byte is `b1`, `b2` or `b3`.
pub open spec fn spec_find3(s: Seq<u8>, b1: u8, b2: u8, b3: u8, from: int) -> Option<int>
    decreases s.len() - from,
{
    if from < 0 || from >= s.len() {
        None
    } else if s[from] == b1 || s[from] == b2 || s[from] == b3 {
        Some(from)
    } else {
        spec_find3(s, b1, b2, b3, from + 1)
    }
}

/// First index at or after `from` in `s` whose byte is `b`.
pub open spec fn spec_find(s: Seq<u8>, b: u8, from: int) -> Option<int> {
    spec_find3(s, b, b, b, from)
}

/// What `spec_find3` returns, spelled out: the found index holds one of the
/// three bytes and nothing before it does.
pub proof fn lemma_find3_props(s: Seq<u8>, b1: u8, b2: u8, b3: u8, from: int)
    requires
        0 <= from <= s.len(),
    ensures
        match spec_find3(s, b1, b2, b3, from) {
            Some(i) => from <= i < s.len() && (s[i] == b1 || s[i] == b2 || s[i] == b3)
                && forall|j: int| from <= j < i ==> s[j] != b1 && s[j] != b2 && s[j] != b3,
            None => forall|j: int| from <= j < s.len() ==> s[j] != b1 && s[j] != b2 && s[j] != b3,
        },
    decreases s.len() - from,
{
    if from < s.len() && !(s[from] == b1 || s[from] == b2 || s[from] == b3) {
        lemma_find3_props(s, b1, b2, b3, from + 1);
    }
}

/// An index with the first-occurrence property is what `spec_find3` returns.
pub proof fn lemma_find3_from_witness(s: Seq<u8>, b1: u8, b2: u8, b3: u8, from: int, r: Option<int>)
    requires
        0 <= from <= s.len(),
        match r {
            Some(i) => from <= i < s.len() && (s[i] == b1 || s[i] == b2 || s[i] == b3)
                && forall|j: int| from <= j < i ==> s[j] != b1 && s[j] != b2 && s[j] != b3,
            None => forall|j: int| from <= j < s.len() ==> s[j] != b1 && s[j] != b2 && s[j] != b3,
        },
    ensures
        spec_find3(s, b1, b2, b3, from) == r,
    decreases s.len() - from,
{
    if from < s.len() && !(s[from] == b1 || s[from] == b2 || s[from] == b3) {
        lemma_find3_from_witness(s, b1, b2, b3, from + 1, r);
    }
}

/// Relies on `memchr::memchr3`: the index of the first occurrence of any of
/// the three needle bytes in the haystack, or `None` when none occurs.
#[verifier::external_body]
fn memchr3_first(b1: u8, b2: u8, b3: u8, hay: &[u8]) -> (r: Option<usize>)
    ensures
        match r {
            Some(i) => i < hay@.len() && (hay@[i as int] == b1 || hay@[i as int] == b2
                || hay@[i as int] == b3)
                && forall|j: int| 0 <= j < i ==> hay@[j] != b1 && hay@[j] != b2 && hay@[j] != b3,
            None => forall|j: int| 0 <= j < hay@.len() ==> hay@[j] != b1 && hay@[j] != b2
                && hay@[j] != b3,
        },
{
    memchr::memchr3(b1, b2, b3, hay)
}

/// Relies on `memchr::memchr`: the index of the first occurrence of the
/// needle byte in the haystack, or `None` when it does not occur.
#[verifier::external_body]
fn memchr_first(b: u8, hay: &[u8]) -> (r: Option<usize>)
    ensures
        match r {
            Some(i) => i < hay@.len() && hay@[i as int] == b
                && forall|j: int| 0 <= j < i ==> hay@[j] != b,
            None => forall|j: int| 0 <= j < hay@.len() ==> hay@[j] != b,
        },
{
    memchr::memchr(b, hay)
}

/// First index at or after `from` in `s` holding `b1`, `b2` or `b3`.
pub fn find3_from(s: &[u8], b1: u8, b2: u8, b3: u8, from: usize) -> (r: Option<usize>)
    requires
        from <= s@.len(),
    ensures
        match r {
            Some(i) => spec_find3(s@, b1, b2, b3, from as int) == Some(i as int)
                && from <= i < s@.len(),
            None => spec_find3(s@, b1, b2, b3, from as int) is None,
        },
{
    let sub = &s[from..s.len()];
    match memchr3_first(b1, b2, b3, sub) {
        Some(i) => {
            proof {
                assert forall|j: int| from <= j < from + i implies s@[j] != b1 && s@[j] != b2
                    && s@[j] != b3 by {
                    assert(sub@[j - from] == s@[j]);
                }
                assert(s@[from + i] == sub@[i as int]);
                lemma_find3_from_witness(s@, b1, b2, b3, from as int, Some(from + i));
            }
            Some(from + i)
        },
        None => {
            proof {
                assert forall|j: int| from <= j < s@.len() implies s@[j] != b1 && s@[j] != b2
                    && s@[j] != b3 by {
                    assert(sub@[j - from] == s@[j]);
                }
                lemma_find3_from_witness(s@, b1, b2, b3, from as int, None);
            }
            None
        },
    }
}

/// First index at or after `from` in `s` holding `b`.
pub fn find_from(s: &[u8], b: u8, from: usize) -> (r: Option<usize>)
    requires
        from <= s@.len(),
    ensures
        match r {
            Some(i) => spec_find(s@, b, from as int) == Some(i as int) && from <= i < s@.len(),
            None => spec_find(s@, b, from as int) is None,
        },
{
    let sub = &s[from..s.len()];
    match memchr_first(b, sub) {
        Some(i) => {
            proof {
                assert forall|j: int| from <= j < from + i implies s@[j] != b by {
                    assert(sub@[j - from] == s@[j]);
                }
                assert(s@[from + i] == sub@[i as int]);
                lemma_find3_from_witness(s@, b, b, b, from as int, Some(from + i));
            }
            Some(from + i)
        },
        None => {
            proof {
                assert forall|j: int| from <= j < s@.len() implies s@[j] != b by {
                    assert(sub@[j - from] == s@[j]);
                }
                lemma_find3_from_witness(s@, b, b, b, from as int, None);
            }
            None
        },
    }
}

} // verus!
