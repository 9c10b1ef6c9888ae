//! Forward byte scans: locating the field separator and the line
//! terminator inside a byte slice, without copying.

use vstd::prelude::*;

verus! {

/// The line-terminator byte, `\n`.
pub const TERMINATOR: u8 = 10;

/// The field-separator byte, `;`.
pub const SEPARATOR: u8 = 59;

/// Index of the first occurrence of `needle` in `s`, if there is one.
pub open spec fn find_spec(s: Seq<u8>, needle: u8) -> Option<int>
    decreases s.len(),
{
    if s.len() == 0 {
        None
    } else if s[0] == needle {
        Some(0int)
    } else {
        match find_spec(s.subrange(1, s.len() as int), needle) {
            Some(i) => Some(i + 1),
            None => None,
        }
    }
}

/// `find_spec` returns the first index holding `needle`, or `None` when
/// `needle` does not occur.
pub proof fn lemma_find_spec(s: Seq<u8>, needle: u8)
    ensures
        match find_spec(s, needle) {
            Some(i) => 0 <= i < s.len() && s[i] == needle && (forall|j: int|
                0 <= j < i ==> s[j] != needle),
            None => forall|j: int| 0 <= j < s.len() ==> s[j] != needle,
        },
    decreases s.len(),
{
    if s.len() > 0 && s[0] != needle {
        let t = s.subrange(1, s.len() as int);
        lemma_find_spec(t, needle);
        assert(forall|j: int| 0 <= j < t.len() ==> t[j] == s[j + 1]);
        match find_spec(t, needle) {
            Some(i) => {
                assert forall|j: int| 0 <= j < i + 1 implies s[j] != needle by {
                    if j > 0 {
                        assert(t[j - 1] != needle);
                    }
                }
            },
            None => {
                assert forall|j: int| 0 <= j < s.len() implies s[j] != needle by {
                    if j > 0 {
                        assert(t[j - 1] != needle);
                    }
                }
            },
        }
    }
}

/// Relies on `memchr::memchr`: returns the index of the first occurrence
/// of `needle` in `haystack`, or `None` if it does not occur.
#[verifier::external_body]
pub(crate) fn find_byte(haystack: &[u8], needle: u8) -> (r: Option<usize>)
    ensures
        match r {
            Some(i) => i < haystack@.len() && haystack@[i as int] == needle && (forall|j: int|
                0 <= j < i ==> haystack@[j] != needle),
            None => forall|j: int| 0 <= j < haystack@.len() ==> haystack@[j] != needle,
        },
{
    memchr::memchr(needle, haystack)
}

/// Index of the first separator byte in `line`, or `None` if the line
/// has no separator.
pub fn find_separator(line: &[u8]) -> (r: Option<usize>)
    ensures
        match (r, find_spec(line@, SEPARATOR)) {
            (Some(i), Some(j)) => i == j,
            (None, None) => true,
            _ => false,
        },
{
    let r = find_byte(line, SEPARATOR);
    proof {
        lemma_find_spec(line@, SEPARATOR);
    }
    r
}

/// Index of the first terminator byte in `s`, or `None` if absent.
pub fn find_terminator(s: &[u8]) -> (r: Option<usize>)
    ensures
        match (r, find_spec(s@, TERMINATOR)) {
            (Some(i), Some(j)) => i == j,
            (None, None) => true,
            _ => false,
        },
{
    let r = find_byte(s, TERMINATOR);
    proof {
        lemma_find_spec(s@, TERMINATOR);
    }
    r
}

} // verus!
