//! Status-code filters.
//!
//! A filter is parsed from textual forms such as `>=400`, `<=299`, `>499`,
//! `<300`, `=200`, a bare `404`, or the class shorthand `4xx`, and is then
//! a pure, total predicate over status codes.

use vstd::prelude::*;

use crate::apache::{all_digits, digits_val};
use crate::bytes::{contains_sub, has_substr, keyword_matches};
use crate::time::{ascii_trim, is_ascii_space, trim_spec};

use vstd::string::StringSliceAdditionalSpecFns;

verus! {

/// A filter over HTTP status codes.
#[derive(Clone, Copy, Debug, PartialEq, Eq, Structural)]
pub enum StatusFilter {
    /// Matches every status at or above the bound.
    GreaterOrEqual(u16),
    /// Matches every status at or below the bound.
    LessOrEqual(u16),
    /// Matches one status exactly.
    Equal(u16),
    /// Matches every status in the inclusive range.
    Range(u16, u16),
}

/// Whether a status code passes the filter.
pub open spec fn status_filter_matches(f: StatusFilter, status: u16) -> bool {
    match f {
        StatusFilter::GreaterOrEqual(v) => status >= v,
        StatusFilter::LessOrEqual(v) => status <= v,
        StatusFilter::Equal(v) => status == v,
        StatusFilter::Range(lo, hi) => lo <= status <= hi,
    }
}

/// The value of a nonempty run of decimal digits, when it fits a `u16`.
pub open spec fn parse_u16_spec(t: Seq<u8>) -> Option<u16> {
    if t.len() > 0 && all_digits(t) && digits_val(t) <= u16::MAX {
        Some(digits_val(t) as u16)
    } else {
        None
    }
}

/// Parse a nonempty run of decimal digits into a `u16`.
pub fn parse_u16(t: &[u8]) -> (r: Option<u16>)
    ensures
        r == parse_u16_spec(t@),
{
    if t.len() == 0 {
        return None;
    }
    let mut val: u32 = 0;
    let mut i: usize = 0;
    let n = t.len();
    while i < n
        invariant
            n == t@.len(),
            i <= n,
            all_digits(t@.take(i as int)),
            val <= u16::MAX,
            val == digits_val(t@.take(i as int)),
        decreases n - i,
    {
        let d = t[i];
        if d < 48 || d > 57 {
            proof {
                assert(!crate::apache::is_ascii_digit(t@[i as int]));
                assert(!all_digits(t@));
            }
            return None;
        }
        proof {
            assert(t@.take(i + 1).drop_last() =~= t@.take(i as int));
            assert(t@.take(i + 1).last() == t@[i as int]);
        }
        let next = val * 10 + (d - 48) as u32;
        if next > 65535 {
            proof {
                assert(digits_val(t@.take(i + 1)) > u16::MAX);
                if all_digits(t@) {
                    crate::apache::lemma_digits_prefix(t@, i + 1);
                }
            }
            return None;
        }
        val = next;
        i += 1;
    }
    proof {
        assert(t@.take(n as int) =~= t@);
    }
    Some(val as u16)
}

/// The filter parsed from textual form, over already-trimmed bytes.
///
/// `>N` sharpens to at-least `N+1` and `<N` to at-most `N-1`; at the ends
/// of the `u16` range, where no sharpened bound exists, nothing is
/// returned.  `Nxx` is the class range `N00..=N99`.  A bare number or
/// `=N` matches exactly.
pub open spec fn status_filter_of(t: Seq<u8>) -> Option<StatusFilter> {
    if t.len() >= 2 && t[0] == 62 && t[1] == 61 {
        match parse_u16_spec(trim_spec(t.skip(2))) {
            Some(v) => Some(StatusFilter::GreaterOrEqual(v)),
            None => None,
        }
    } else if t.len() >= 2 && t[0] == 60 && t[1] == 61 {
        match parse_u16_spec(trim_spec(t.skip(2))) {
            Some(v) => Some(StatusFilter::LessOrEqual(v)),
            None => None,
        }
    } else if t.len() >= 1 && t[0] == 62 {
        match parse_u16_spec(trim_spec(t.skip(1))) {
            Some(v) => if v < u16::MAX {
                Some(StatusFilter::GreaterOrEqual((v + 1) as u16))
            } else {
                None
            },
            None => None,
        }
    } else if t.len() >= 1 && t[0] == 60 {
        match parse_u16_spec(trim_spec(t.skip(1))) {
            Some(v) => if v > 0 {
                Some(StatusFilter::LessOrEqual((v - 1) as u16))
            } else {
                None
            },
            None => None,
        }
    } else if t.len() >= 1 && t[0] == 61 {
        match parse_u16_spec(trim_spec(t.skip(1))) {
            Some(v) => Some(StatusFilter::Equal(v)),
            None => None,
        }
    } else if contains_sub(t, seq![120u8, 120u8]) {
        if t.len() >= 1 && crate::apache::is_ascii_digit(t[0]) {
            Some(StatusFilter::Range(((t[0] - 48) * 100) as u16, ((t[0] - 48) * 100 + 99) as u16))
        } else {
            None
        }
    } else {
        match parse_u16_spec(t) {
            Some(v) => Some(StatusFilter::Equal(v)),
            None => None,
        }
    }
}

impl StatusFilter {
    /// Parse a textual status filter, ignoring surrounding whitespace.
    pub fn parse(s: &str) -> (r: Option<StatusFilter>)
        ensures
            r == status_filter_of(trim_spec(s.spec_bytes())),
    {
        let t = ascii_trim(s.as_bytes());
        let n = t.len();
        if n >= 2 && t[0] == 62 && t[1] == 61 {
            let rest = ascii_trim(vstd::slice::slice_subrange(t, 2, n));
            proof {
                assert(t@.subrange(2, n as int) =~= t@.skip(2));
            }
            match parse_u16(rest) {
                Some(v) => Some(StatusFilter::GreaterOrEqual(v)),
                None => None,
            }
        } else if n >= 2 && t[0] == 60 && t[1] == 61 {
            let rest = ascii_trim(vstd::slice::slice_subrange(t, 2, n));
            proof {
                assert(t@.subrange(2, n as int) =~= t@.skip(2));
            }
            match parse_u16(rest) {
                Some(v) => Some(StatusFilter::LessOrEqual(v)),
                None => None,
            }
        } else if n >= 1 && t[0] == 62 {
            let rest = ascii_trim(vstd::slice::slice_subrange(t, 1, n));
            proof {
                assert(t@.subrange(1, n as int) =~= t@.skip(1));
            }
            match parse_u16(rest) {
                Some(v) => if v < 65535 {
                    Some(StatusFilter::GreaterOrEqual(v + 1))
                } else {
                    None
                },
                None => None,
            }
        } else if n >= 1 && t[0] == 60 {
            let rest = ascii_trim(vstd::slice::slice_subrange(t, 1, n));
            proof {
                assert(t@.subrange(1, n as int) =~= t@.skip(1));
            }
            match parse_u16(rest) {
                Some(v) => if v > 0 {
                    Some(StatusFilter::LessOrEqual(v - 1))
                } else {
                    None
                },
                None => None,
            }
        } else if n >= 1 && t[0] == 61 {
            let rest = ascii_trim(vstd::slice::slice_subrange(t, 1, n));
            proof {
                assert(t@.subrange(1, n as int) =~= t@.skip(1));
            }
            match parse_u16(rest) {
                Some(v) => Some(StatusFilter::Equal(v)),
                None => None,
            }
        } else {
            let xx: &'static [u8; 2] = &[120u8, 120u8];
            if has_substr(t, xx.as_slice()) {
                proof {
                    assert(xx@ =~= seq![120u8, 120u8]);
                }
                if n >= 1 && 48 <= t[0] && t[0] <= 57 {
                    let base = (t[0] - 48) as u16 * 100;
                    Some(StatusFilter::Range(base, base + 99))
                } else {
                    None
                }
            } else {
                match parse_u16(t) {
                    Some(v) => Some(StatusFilter::Equal(v)),
                    None => None,
                }
            }
        }
    }

    /// Whether a status code passes the filter.
    pub fn matches(&self, status: u16) -> (r: bool)
        ensures
            r == status_filter_matches(*self, status),
    {
        match self {
            StatusFilter::GreaterOrEqual(v) => status >= *v,
            StatusFilter::LessOrEqual(v) => status <= *v,
            StatusFilter::Equal(v) => status == *v,
            StatusFilter::Range(lo, hi) => status >= *lo && status <= *hi,
        }
    }
}

/// A `>N` filter matches exactly the statuses strictly above `N`: parsing
/// sharpens the bound to `N+1` and matching compares inclusively.
pub proof fn lemma_status_gt_exact(t: Seq<u8>, n: u16, s: u16)
    requires
        t.len() >= 1,
        t[0] == 62,
        !(t.len() >= 2 && t[1] == 61),
        parse_u16_spec(trim_spec(t.skip(1))) == Some(n),
        n < u16::MAX,
    ensures
        status_filter_of(t) is Some,
        status_filter_matches(status_filter_of(t).unwrap(), s) <==> s > n,
{
}

/// An `Nxx` filter matches exactly the statuses of the class: the range
/// `N00..=N99` inclusive.
pub proof fn lemma_status_class_exact(t: Seq<u8>, s: u16)
    requires
        t.len() >= 1,
        crate::apache::is_ascii_digit(t[0]),
        t[0] != 62 && t[0] != 60 && t[0] != 61,
        contains_sub(t, seq![120u8, 120u8]),
    ensures
        status_filter_of(t) is Some,
        status_filter_matches(status_filter_of(t).unwrap(), s) <==> ((t[0] - 48) * 100 <= s <= (
        t[0] - 48) * 100 + 99),
{
}

} // verus!
