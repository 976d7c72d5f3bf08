//! Byte-search primitives.
//!
//! Every field-location and line-iteration step of the scanner rests on two
//! operations: finding the first occurrence of a byte and finding the first
//! occurrence of a substring.  Both are delegated to SIMD-accelerated
//! routines of the `memchr` crate through trusted wrappers whose contracts
//! state exactly the first-occurrence semantics that the crate documents.

use vstd::prelude::*;
use vstd::string::StringSliceAdditionalSpecFns;

verus! {

/// Index of the first occurrence of byte `c` in `s`, if any.
pub open spec fn seq_find(s: Seq<u8>, c: u8) -> Option<int>
    decreases s.len(),
{
    if s.len() == 0 {
        None
    } else if s[0] == c {
        Some(0int)
    } else {
        match seq_find(s.drop_first(), c) {
            None => None,
            Some(i) => Some(i + 1),
        }
    }
}

/// `seq_find` returns the first occurrence: a hit is in bounds, holds `c`,
/// and nothing before it does; a miss means no position holds `c`.
pub proof fn lemma_seq_find(s: Seq<u8>, c: u8)
    ensures
        match seq_find(s, c) {
            Some(i) => 0 <= i < s.len() && s[i] == c && (forall|j: int| 0 <= j < i ==> s[j] != c),
            None => forall|j: int| 0 <= j < s.len() ==> s[j] != c,
        },
    decreases s.len(),
{
    if s.len() == 0 {
    } else if s[0] == c {
    } else {
        lemma_seq_find(s.drop_first(), c);
        assert(forall|j: int| 1 <= j < s.len() ==> s[j] == s.drop_first()[j - 1]);
    }
}

/// A position that holds `c` with nothing before it is what `seq_find` returns.
pub proof fn lemma_seq_find_first(s: Seq<u8>, c: u8, i: int)
    requires
        0 <= i < s.len(),
        s[i] == c,
        forall|j: int| 0 <= j < i ==> s[j] != c,
    ensures
        seq_find(s, c) == Some(i),
{
    lemma_seq_find(s, c);
}

/// If no position holds `c`, `seq_find` misses.
pub proof fn lemma_seq_find_none(s: Seq<u8>, c: u8)
    requires
        forall|j: int| 0 <= j < s.len() ==> s[j] != c,
    ensures
        seq_find(s, c) is None,
{
    lemma_seq_find(s, c);
}

/// Relies on `memchr::memchr`: returns the index of the first occurrence of
/// `needle` in `haystack`, or `None` when the byte does not occur.
#[verifier::external_body]
pub fn find_byte(needle: u8, haystack: &[u8]) -> (r: Option<usize>)
    ensures
        match r {
            Some(i) => i < haystack@.len() && haystack@[i as int] == needle && (forall|j: int|
                0 <= j < i ==> haystack@[j] != needle),
            None => forall|j: int| 0 <= j < haystack@.len() ==> haystack@[j] != needle,
        },
{
    memchr::memchr(needle, haystack)
}

/// The needle `n` occurs in `s` at position `i`.
pub open spec fn is_match_at(s: Seq<u8>, n: Seq<u8>, i: int) -> bool {
    0 <= i && i + n.len() <= s.len() && s.subrange(i, i + n.len()) == n
}

/// Index of the first occurrence of the substring `n` in `s`, if any.
pub open spec fn seq_find_sub(s: Seq<u8>, n: Seq<u8>) -> Option<int>
    decreases s.len(),
{
    if n.len() > s.len() {
        None
    } else if s.subrange(0, n.len() as int) == n {
        Some(0int)
    } else if s.len() == 0 {
        None
    } else {
        match seq_find_sub(s.drop_first(), n) {
            None => None,
            Some(i) => Some(i + 1),
        }
    }
}

/// `seq_find_sub` returns the first occurrence of the substring.
pub proof fn lemma_seq_find_sub(s: Seq<u8>, n: Seq<u8>)
    ensures
        match seq_find_sub(s, n) {
            Some(i) => is_match_at(s, n, i) && (forall|j: int| 0 <= j < i ==> !is_match_at(s, n, j)),
            None => forall|j: int| 0 <= j ==> !is_match_at(s, n, j),
        },
    decreases s.len(),
{
    if n.len() > s.len() {
    } else if s.subrange(0, n.len() as int) == n {
    } else if s.len() == 0 {
        assert(forall|j: int| 0 <= j ==> !is_match_at(s, n, j));
    } else {
        lemma_seq_find_sub(s.drop_first(), n);
        assert forall|j: int| 1 <= j implies (#[trigger] is_match_at(s, n, j) <==> is_match_at(
            s.drop_first(),
            n,
            j - 1,
        )) by {
            if j + n.len() <= s.len() {
                assert(s.subrange(j, j + n.len()) =~= s.drop_first().subrange(
                    j - 1,
                    j - 1 + n.len(),
                ));
            }
        }
        assert(!is_match_at(s, n, 0));
        match seq_find_sub(s.drop_first(), n) {
            None => {
                assert forall|j: int| 0 <= j implies !is_match_at(s, n, j) by {
                    if j >= 1 {
                        assert(!is_match_at(s.drop_first(), n, j - 1));
                    }
                }
            },
            Some(i) => {
                assert(is_match_at(s, n, i + 1));
                assert forall|j: int| 0 <= j < i + 1 implies !is_match_at(s, n, j) by {
                    if j >= 1 {
                        assert(!is_match_at(s.drop_first(), n, j - 1));
                    }
                }
            },
        }
    }
}

/// A position where `n` matches with no earlier match is what `seq_find_sub` returns.
pub proof fn lemma_seq_find_sub_first(s: Seq<u8>, n: Seq<u8>, i: int)
    requires
        is_match_at(s, n, i),
        forall|j: int| 0 <= j < i ==> !is_match_at(s, n, j),
    ensures
        seq_find_sub(s, n) == Some(i),
{
    lemma_seq_find_sub(s, n);
}

/// If `n` matches nowhere in `s`, `seq_find_sub` misses.
pub proof fn lemma_seq_find_sub_none(s: Seq<u8>, n: Seq<u8>)
    requires
        forall|j: int| 0 <= j ==> !is_match_at(s, n, j),
    ensures
        seq_find_sub(s, n) is None,
{
    lemma_seq_find_sub(s, n);
}

/// Relies on `memchr::memmem::find`: returns the index of the first
/// occurrence of the substring `needle` in `haystack`, or `None` when the
/// substring does not occur.
#[verifier::external_body]
pub fn find_substr(haystack: &[u8], needle: &[u8]) -> (r: Option<usize>)
    ensures
        match r {
            Some(i) => is_match_at(haystack@, needle@, i as int) && (forall|j: int|
                0 <= j < i ==> !is_match_at(haystack@, needle@, j)),
            None => forall|j: int| 0 <= j ==> !is_match_at(haystack@, needle@, j),
        },
{
    memchr::memmem::find(haystack, needle)
}

/// Whether `n` occurs anywhere in `s`.
pub open spec fn contains_sub(s: Seq<u8>, n: Seq<u8>) -> bool {
    exists|i: int| is_match_at(s, n, i)
}

/// Substring test over the SIMD finder.
pub fn has_substr(haystack: &[u8], needle: &[u8]) -> (r: bool)
    ensures
        r == contains_sub(haystack@, needle@),
{
    let found = find_substr(haystack, needle);
    match found {
        Some(i) => {
            proof {
                assert(is_match_at(haystack@, needle@, i as int));
            }
            true
        },
        None => {
            proof {
                assert(forall|j: int| 0 <= j ==> !is_match_at(haystack@, needle@, j));
                assert(forall|j: int| is_match_at(haystack@, needle@, j) ==> 0 <= j);
            }
            false
        },
    }
}

/// Byte-for-byte equality of two slices.
pub fn bytes_eq(a: &[u8], b: &[u8]) -> (r: bool)
    ensures
        r == (a@ == b@),
{
    if a.len() != b.len() {
        return false;
    }
    let mut i: usize = 0;
    while i < a.len()
        invariant
            i <= a@.len(),
            a@.len() == b@.len(),
            forall|j: int| 0 <= j < i ==> a@[j] == b@[j],
        decreases a@.len() - i,
    {
        if a[i] != b[i] {
            return false;
        }
        i += 1;
    }
    proof {
        assert(a@ =~= b@);
    }
    true
}


/// An upper-case ASCII letter folded to lower case; other bytes unchanged.
pub open spec fn lower_byte(b: u8) -> u8 {
    if 65 <= b <= 90 {
        (b + 32) as u8
    } else {
        b
    }
}

/// ASCII lower-casing of a byte sequence.
pub open spec fn ascii_lower(s: Seq<u8>) -> Seq<u8> {
    Seq::new(s.len(), |i: int| lower_byte(s[i]))
}

/// Fold ASCII upper-case letters of `s` to lower case.
pub fn to_ascii_lower(s: &[u8]) -> (r: Vec<u8>)
    ensures
        r@ == ascii_lower(s@),
{
    let mut out: Vec<u8> = Vec::new();
    let mut i: usize = 0;
    while i < s.len()
        invariant
            i <= s@.len(),
            out@.len() == i,
            forall|j: int| 0 <= j < i ==> out@[j] == lower_byte(s@[j]),
        decreases s@.len() - i,
    {
        let c = s[i];
        if 65 <= c && c <= 90 {
            out.push(c + 32);
        } else {
            out.push(c);
        }
        i += 1;
    }
    proof {
        assert(out@ =~= ascii_lower(s@));
    }
    out
}

/// Whether `s` spells the keyword `k`.
pub fn keyword_matches(s: &[u8], k: &str) -> (r: bool)
    ensures
        r == (s@ == k.spec_bytes()),
{
    bytes_eq(s, k.as_bytes())
}

} // verus!
