//! Timestamp parsing and time-range filtering.
//!
//! Timestamps are folded into a single sortable integer
//! `year*10^10 + month*10^8 + day*10^6 + hour*10^4 + minute*10^2 + second`,
//! used only for comparison.  Both the Apache native form
//! `DD/Mon/YYYY:HH:MM:SS [zone]` and the ISO form `YYYY-MM-DD[THH:MM:SS]`
//! are read; a time-zone suffix is ignored.

use vstd::prelude::*;

use crate::apache::is_ascii_digit;

use vstd::string::StringSliceAdditionalSpecFns;

verus! {

/// The value of two decimal digits, when both bytes are digits.
pub open spec fn two_digit_spec(s: Seq<u8>) -> Option<i32> {
    if s.len() >= 2 && is_ascii_digit(s[0]) && is_ascii_digit(s[1]) {
        Some((((s[0] - 48) * 10 + (s[1] - 48)) as i32))
    } else {
        None
    }
}

/// Parse two decimal digits.
pub fn parse_2digit(b: &[u8]) -> (r: Option<i32>)
    ensures
        r == two_digit_spec(b@),
{
    if b.len() < 2 {
        return None;
    }
    let d0 = b[0];
    let d1 = b[1];
    if 48 <= d0 && d0 <= 57 && 48 <= d1 && d1 <= 57 {
        Some((d0 - 48) as i32 * 10 + (d1 - 48) as i32)
    } else {
        None
    }
}

/// The value of four decimal digits, when all four bytes are digits.
pub open spec fn four_digit_spec(s: Seq<u8>) -> Option<i32> {
    if s.len() >= 4 && is_ascii_digit(s[0]) && is_ascii_digit(s[1]) && is_ascii_digit(s[2])
        && is_ascii_digit(s[3]) {
        Some(
            (((s[0] - 48) * 1000 + (s[1] - 48) * 100 + (s[2] - 48) * 10 + (s[3] - 48)) as i32),
        )
    } else {
        None
    }
}

/// Parse four decimal digits.
pub fn parse_4digit(b: &[u8]) -> (r: Option<i32>)
    ensures
        r == four_digit_spec(b@),
{
    if b.len() < 4 {
        return None;
    }
    let d0 = b[0];
    let d1 = b[1];
    let d2 = b[2];
    let d3 = b[3];
    if 48 <= d0 && d0 <= 57 && 48 <= d1 && d1 <= 57 && 48 <= d2 && d2 <= 57 && 48 <= d3 && d3
        <= 57 {
        Some(
            (d0 - 48) as i32 * 1000 + (d1 - 48) as i32 * 100 + (d2 - 48) as i32 * 10 + (d3
                - 48) as i32,
        )
    } else {
        None
    }
}

/// The month number of a three-letter English month name.
pub open spec fn month_num(a: u8, b: u8, c: u8) -> Option<i32> {
    if a == 74 && b == 97 && c == 110 {
        Some(1i32)  // Jan
    } else if a == 70 && b == 101 && c == 98 {
        Some(2i32)  // Feb
    } else if a == 77 && b == 97 && c == 114 {
        Some(3i32)  // Mar
    } else if a == 65 && b == 112 && c == 114 {
        Some(4i32)  // Apr
    } else if a == 77 && b == 97 && c == 121 {
        Some(5i32)  // May
    } else if a == 74 && b == 117 && c == 110 {
        Some(6i32)  // Jun
    } else if a == 74 && b == 117 && c == 108 {
        Some(7i32)  // Jul
    } else if a == 65 && b == 117 && c == 103 {
        Some(8i32)  // Aug
    } else if a == 83 && b == 101 && c == 112 {
        Some(9i32)  // Sep
    } else if a == 79 && b == 99 && c == 116 {
        Some(10i32)  // Oct
    } else if a == 78 && b == 111 && c == 118 {
        Some(11i32)  // Nov
    } else if a == 68 && b == 101 && c == 99 {
        Some(12i32)  // Dec
    } else {
        None
    }
}

/// Parse a three-letter month name to its number.
pub fn parse_month(a: u8, b: u8, c: u8) -> (r: Option<i32>)
    ensures
        r == month_num(a, b, c),
{
    if a == 74 && b == 97 && c == 110 {
        Some(1)
    } else if a == 70 && b == 101 && c == 98 {
        Some(2)
    } else if a == 77 && b == 97 && c == 114 {
        Some(3)
    } else if a == 65 && b == 112 && c == 114 {
        Some(4)
    } else if a == 77 && b == 97 && c == 121 {
        Some(5)
    } else if a == 74 && b == 117 && c == 110 {
        Some(6)
    } else if a == 74 && b == 117 && c == 108 {
        Some(7)
    } else if a == 65 && b == 117 && c == 103 {
        Some(8)
    } else if a == 83 && b == 101 && c == 112 {
        Some(9)
    } else if a == 79 && b == 99 && c == 116 {
        Some(10)
    } else if a == 78 && b == 111 && c == 118 {
        Some(11)
    } else if a == 68 && b == 101 && c == 99 {
        Some(12)
    } else {
        None
    }
}

/// The sortable encoding of a date and time.
pub open spec fn encode_time(y: int, mo: int, d: int, h: int, mi: int, s: int) -> int {
    y * 10000000000 + mo * 100000000 + d * 1000000 + h * 10000 + mi * 100 + s
}

/// The encoding is monotonic: componentwise-ordered real times encode in
/// the same order, as long as every component stays below its radix.
pub proof fn lemma_encode_monotone(
    y1: int,
    mo1: int,
    d1: int,
    h1: int,
    mi1: int,
    s1: int,
    y2: int,
    mo2: int,
    d2: int,
    h2: int,
    mi2: int,
    s2: int,
)
    requires
        0 <= y1 <= 9999,
        0 <= y2 <= 9999,
        0 <= mo1 < 100,
        0 <= mo2 < 100,
        0 <= d1 < 100,
        0 <= d2 < 100,
        0 <= h1 < 100,
        0 <= h2 < 100,
        0 <= mi1 < 100,
        0 <= mi2 < 100,
        0 <= s1 < 100,
        0 <= s2 < 100,
    ensures
        (encode_time(y1, mo1, d1, h1, mi1, s1) < encode_time(y2, mo2, d2, h2, mi2, s2)) <==> (y1
            < y2 || (y1 == y2 && (mo1 < mo2 || (mo1 == mo2 && (d1 < d2 || (d1 == d2 && (h1 < h2
            || (h1 == h2 && (mi1 < mi2 || (mi1 == mi2 && s1 < s2)))))))))),
{
}

/// An Apache timestamp `DD/Mon/YYYY:HH:MM:SS ...` folded to its sortable
/// encoding, read from fixed positions; the zone suffix is ignored.
pub open spec fn ts_num_of(ts: Seq<u8>) -> Option<i64> {
    if ts.len() < 20 {
        None
    } else {
        match two_digit_spec(ts.subrange(0, 2)) {
            None => None,
            Some(day) => match month_num(ts[3], ts[4], ts[5]) {
                None => None,
                Some(month) => match four_digit_spec(ts.subrange(7, 11)) {
                    None => None,
                    Some(year) => match two_digit_spec(ts.subrange(12, 14)) {
                        None => None,
                        Some(hour) => match two_digit_spec(ts.subrange(15, 17)) {
                            None => None,
                            Some(minute) => match two_digit_spec(ts.subrange(18, 20)) {
                                None => None,
                                Some(second) => Some(
                                    encode_time(
                                        year as int,
                                        month as int,
                                        day as int,
                                        hour as int,
                                        minute as int,
                                        second as int,
                                    ) as i64,
                                ),
                            },
                        },
                    },
                },
            },
        }
    }
}

/// Parse an Apache timestamp to its sortable `i64` encoding.
pub fn parse_timestamp_to_i64(ts: &[u8]) -> (r: Option<i64>)
    ensures
        r == ts_num_of(ts@),
{
    if ts.len() < 20 {
        return None;
    }
    let day = match parse_2digit(vstd::slice::slice_subrange(ts, 0, 2)) {
        Some(v) => v,
        None => {
            return None;
        },
    };
    let month = match parse_month(ts[3], ts[4], ts[5]) {
        Some(v) => v,
        None => {
            return None;
        },
    };
    let year = match parse_4digit(vstd::slice::slice_subrange(ts, 7, 11)) {
        Some(v) => v,
        None => {
            return None;
        },
    };
    let hour = match parse_2digit(vstd::slice::slice_subrange(ts, 12, 14)) {
        Some(v) => v,
        None => {
            return None;
        },
    };
    let minute = match parse_2digit(vstd::slice::slice_subrange(ts, 15, 17)) {
        Some(v) => v,
        None => {
            return None;
        },
    };
    let second = match parse_2digit(vstd::slice::slice_subrange(ts, 18, 20)) {
        Some(v) => v,
        None => {
            return None;
        },
    };
    Some(
        (year as i64) * 10000000000 + (month as i64) * 100000000 + (day as i64) * 1000000 + (
        hour as i64) * 10000 + (minute as i64) * 100 + (second as i64),
    )
}


/// The date and time components read by the Apache timestamp parser.
pub open spec fn ts_components(ts: Seq<u8>) -> (int, int, int, int, int, int) {
    (
        four_digit_spec(ts.subrange(7, 11)).unwrap() as int,
        month_num(ts[3], ts[4], ts[5]).unwrap() as int,
        two_digit_spec(ts.subrange(0, 2)).unwrap() as int,
        two_digit_spec(ts.subrange(12, 14)).unwrap() as int,
        two_digit_spec(ts.subrange(15, 17)).unwrap() as int,
        two_digit_spec(ts.subrange(18, 20)).unwrap() as int,
    )
}

/// Two timestamps that both parse compare numerically exactly as their
/// (year, month, day, hour, minute, second) components compare
/// lexicographically: the encoding preserves the order of real times.
pub proof fn lemma_timestamp_ordering(a: Seq<u8>, b: Seq<u8>)
    requires
        ts_num_of(a) is Some,
        ts_num_of(b) is Some,
    ensures
        ({
            let (y1, mo1, d1, h1, mi1, s1) = ts_components(a);
            let (y2, mo2, d2, h2, mi2, s2) = ts_components(b);
            (ts_num_of(a).unwrap() < ts_num_of(b).unwrap()) <==> (y1 < y2 || (y1 == y2 && (mo1
                < mo2 || (mo1 == mo2 && (d1 < d2 || (d1 == d2 && (h1 < h2 || (h1 == h2 && (mi1
                < mi2 || (mi1 == mi2 && s1 < s2))))))))))
        }),
{
    let (y1, mo1, d1, h1, mi1, s1) = ts_components(a);
    let (y2, mo2, d2, h2, mi2, s2) = ts_components(b);
    lemma_encode_monotone(y1, mo1, d1, h1, mi1, s1, y2, mo2, d2, h2, mi2, s2);
    assert(ts_num_of(a).unwrap() == encode_time(y1, mo1, d1, h1, mi1, s1));
    assert(ts_num_of(b).unwrap() == encode_time(y2, mo2, d2, h2, mi2, s2));
}

/// An ASCII whitespace byte.
pub open spec fn is_ascii_space(b: u8) -> bool {
    b == 32 || b == 9 || b == 10 || b == 13
}

/// `s` without its leading ASCII whitespace.
pub open spec fn trim_left_spec(s: Seq<u8>) -> Seq<u8>
    decreases s.len(),
{
    if s.len() > 0 && is_ascii_space(s[0]) {
        trim_left_spec(s.drop_first())
    } else {
        s
    }
}

/// `s` without its trailing ASCII whitespace.
pub open spec fn trim_right_spec(s: Seq<u8>) -> Seq<u8>
    decreases s.len(),
{
    if s.len() > 0 && is_ascii_space(s.last()) {
        trim_right_spec(s.drop_last())
    } else {
        s
    }
}

/// `s` without leading and trailing ASCII whitespace.
pub open spec fn trim_spec(s: Seq<u8>) -> Seq<u8> {
    trim_right_spec(trim_left_spec(s))
}

/// Whether a byte is ASCII whitespace.
fn is_space_byte(c: u8) -> (r: bool)
    ensures
        r == is_ascii_space(c),
{
    c == 32 || c == 9 || c == 10 || c == 13
}

/// Strip leading and trailing ASCII whitespace.
pub fn ascii_trim(b: &[u8]) -> (r: &[u8])
    ensures
        r@ == trim_spec(b@),
{
    let len = b.len();
    let mut lo: usize = 0;
    proof {
        assert(b@.subrange(0, len as int) =~= b@);
    }
    while lo < len && is_space_byte(b[lo])
        invariant
            len == b@.len(),
            lo <= len,
            trim_left_spec(b@) == trim_left_spec(b@.subrange(lo as int, len as int)),
        decreases len - lo,
    {
        proof {
            let cur = b@.subrange(lo as int, len as int);
            assert(cur.drop_first() =~= b@.subrange(lo + 1, len as int));
        }
        lo += 1;
    }
    proof {
        let cur = b@.subrange(lo as int, len as int);
        if lo < len {
            assert(cur[0] == b@[lo as int]);
        }
        assert(trim_left_spec(b@) == cur);
    }
    let mut hi: usize = len;
    while hi > lo && is_space_byte(b[hi - 1])
        invariant
            len == b@.len(),
            lo <= hi <= len,
            trim_left_spec(b@) == b@.subrange(lo as int, len as int),
            trim_right_spec(b@.subrange(lo as int, len as int)) == trim_right_spec(
                b@.subrange(lo as int, hi as int),
            ),
        decreases hi,
    {
        proof {
            let cur = b@.subrange(lo as int, hi as int);
            assert(cur.last() == b@[hi - 1]);
            assert(cur.drop_last() =~= b@.subrange(lo as int, hi - 1));
        }
        hi -= 1;
    }
    proof {
        let cur = b@.subrange(lo as int, hi as int);
        if hi > lo {
            assert(cur.last() == b@[hi - 1]);
        }
        assert(trim_right_spec(cur) == cur);
    }
    vstd::slice::slice_subrange(b, lo, hi)
}

/// A time input folded to the sortable encoding: ISO `YYYY-MM-DD` with an
/// optional `THH:MM:SS`, else the Apache native form, read from the
/// already-trimmed bytes.
pub open spec fn time_input_num(t: Seq<u8>) -> Option<i64> {
    if t.len() >= 10 && t[4] == 45 {
        match four_digit_spec(t.subrange(0, 4)) {
            None => None,
            Some(year) => match two_digit_spec(t.subrange(5, 7)) {
                None => None,
                Some(month) => match two_digit_spec(t.subrange(8, 10)) {
                    None => None,
                    Some(day) => {
                        if t.len() >= 19 && t[10] == 84 {
                            match two_digit_spec(t.subrange(11, 13)) {
                                None => None,
                                Some(hour) => match two_digit_spec(t.subrange(14, 16)) {
                                    None => None,
                                    Some(minute) => match two_digit_spec(t.subrange(17, 19)) {
                                        None => None,
                                        Some(second) => Some(
                                            encode_time(
                                                year as int,
                                                month as int,
                                                day as int,
                                                hour as int,
                                                minute as int,
                                                second as int,
                                            ) as i64,
                                        ),
                                    },
                                },
                            }
                        } else {
                            Some(
                                encode_time(year as int, month as int, day as int, 0, 0, 0) as i64,
                            )
                        }
                    },
                },
            },
        }
    } else if t.len() >= 20 && t[2] == 47 {
        ts_num_of(t)
    } else {
        None
    }
}

/// Parse a time input in ISO or Apache form, ignoring surrounding
/// whitespace.
pub fn parse_time_input(s: &str) -> (r: Option<i64>)
    ensures
        r == time_input_num(trim_spec(s.spec_bytes())),
{
    let t = ascii_trim(s.as_bytes());
    if t.len() >= 10 && t[4] == 45 {
        let year = match parse_4digit(vstd::slice::slice_subrange(t, 0, 4)) {
            Some(v) => v,
            None => {
                return None;
            },
        };
        let month = match parse_2digit(vstd::slice::slice_subrange(t, 5, 7)) {
            Some(v) => v,
            None => {
                return None;
            },
        };
        let day = match parse_2digit(vstd::slice::slice_subrange(t, 8, 10)) {
            Some(v) => v,
            None => {
                return None;
            },
        };
        if t.len() >= 19 && t[10] == 84 {
            let hour = match parse_2digit(vstd::slice::slice_subrange(t, 11, 13)) {
                Some(v) => v,
                None => {
                    return None;
                },
            };
            let minute = match parse_2digit(vstd::slice::slice_subrange(t, 14, 16)) {
                Some(v) => v,
                None => {
                    return None;
                },
            };
            let second = match parse_2digit(vstd::slice::slice_subrange(t, 17, 19)) {
                Some(v) => v,
                None => {
                    return None;
                },
            };
            Some(
                (year as i64) * 10000000000 + (month as i64) * 100000000 + (day as i64) * 1000000
                    + (hour as i64) * 10000 + (minute as i64) * 100 + (second as i64),
            )
        } else {
            Some((year as i64) * 10000000000 + (month as i64) * 100000000 + (day as i64) * 1000000)
        }
    } else if t.len() >= 20 && t[2] == 47 {
        parse_timestamp_to_i64(t)
    } else {
        None
    }
}

/// An inclusive time-range filter over encoded timestamps.
#[derive(Clone, Copy, Debug)]
pub struct TimeFilter {
    /// Inclusive lower bound.
    pub start: Option<i64>,
    /// Inclusive upper bound.
    pub end: Option<i64>,
}

/// Whether an encoded timestamp lies in the filter's inclusive range.
pub open spec fn time_filter_matches(f: TimeFilter, ts: i64) -> bool {
    &&& match f.start {
        Some(s) => ts >= s,
        None => true,
    }
    &&& match f.end {
        Some(e) => ts <= e,
        None => true,
    }
}

/// The filter built from optional textual bounds, given as bytes:
/// `None` when neither bound parses.
pub open spec fn time_filter_of(sb: Option<Seq<u8>>, eb: Option<Seq<u8>>) -> Option<TimeFilter> {
    let sv = match sb {
        Some(s) => time_input_num(trim_spec(s)),
        None => None,
    };
    let ev = match eb {
        Some(e) => time_input_num(trim_spec(e)),
        None => None,
    };
    if sv is None && ev is None {
        None
    } else {
        Some(TimeFilter { start: sv, end: ev })
    }
}

impl TimeFilter {
    /// Build a filter from optional textual bounds; `None` when neither
    /// bound parses.
    pub fn new(start: Option<&str>, end: Option<&str>) -> (r: Option<TimeFilter>)
        ensures
            r == time_filter_of(
                match start {
                    Some(s) => Some(s.spec_bytes()),
                    None => None,
                },
                match end {
                    Some(e) => Some(e.spec_bytes()),
                    None => None,
                },
            ),
    {
        let start_val = match start {
            Some(s) => parse_time_input(s),
            None => None,
        };
        let end_val = match end {
            Some(e) => parse_time_input(e),
            None => None,
        };
        if start_val.is_none() && end_val.is_none() {
            return None;
        }
        Some(TimeFilter { start: start_val, end: end_val })
    }

    /// Whether an encoded timestamp lies in the inclusive range.
    pub fn matches(&self, ts_i64: i64) -> (r: bool)
        ensures
            r == time_filter_matches(*self, ts_i64),
    {
        if let Some(start) = self.start {
            if ts_i64 < start {
                return false;
            }
        }
        if let Some(end) = self.end {
            if ts_i64 > end {
                return false;
            }
        }
        true
    }
}

} // verus!
