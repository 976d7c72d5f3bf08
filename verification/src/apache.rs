//! Field locator and extractors for the Apache/Nginx combined log format.
//!
//! A line has the shape
//! `IP - - [TIMESTAMP] "METHOD PATH PROTO" STATUS SIZE "REFERER" "USER_AGENT"`.
//! The locator computes the byte offsets of every structural field in a
//! single pass of first-occurrence byte searches; extractors then return
//! the bytes (or parsed integer) of one field without allocating.  Because
//! the status code is located structurally, a `404` embedded in a URL can
//! never be mistaken for a status code.

use vstd::prelude::*;

use crate::bytes::{find_byte, lemma_seq_find_first, lemma_seq_find_none, seq_find};

verus! {

/// Byte offsets of the structural fields of one Apache line.
///
/// A `(0, 0)` pair for referer or user agent records the field as absent.
#[derive(Clone, Copy, PartialEq, Eq, Structural, Debug)]
pub struct FieldOffsets {
    pub ip_end: usize,
    pub timestamp_start: usize,
    pub timestamp_end: usize,
    pub request_start: usize,
    pub request_end: usize,
    pub status_start: usize,
    pub size_start: usize,
    pub size_end: usize,
    pub referer_start: usize,
    pub referer_end: usize,
    pub user_agent_start: usize,
    pub user_agent_end: usize,
}

/// The offsets of one Apache line, as the locator computes them.
///
/// Mirrors the executable search step for step: the IP ends at the first
/// space, the timestamp spans the first bracket pair, the request spans
/// the first quote pair after it, the status is the three bytes two past
/// the closing quote, the size runs to the next space or quote, and the
/// referer and user agent are the next two quote pairs.
pub open spec fn locate_apache(line: Seq<u8>) -> Option<FieldOffsets> {
    let len = line.len() as int;
    if len < 20 {
        None
    } else {
        match seq_find(line, 32u8) {
            None => None,
            Some(ip_end) => match seq_find(line, 91u8) {
                None => None,
                Some(bracket_open) => match seq_find(line.subrange(bracket_open, len), 93u8) {
                    None => None,
                    Some(bracket_rel) => {
                        let ts_start = bracket_open + 1;
                        let ts_end = bracket_open + bracket_rel;
                        match seq_find(line.subrange(ts_end, len), 34u8) {
                            None => None,
                            Some(q1) => {
                                let req_start = ts_end + q1 + 1;
                                match seq_find(line.subrange(req_start, len), 34u8) {
                                    None => None,
                                    Some(q2) => {
                                        let req_end = req_start + q2;
                                        if req_end + 5 > len {
                                            None
                                        } else {
                                            let status_start = req_end + 2;
                                            let size_start = if status_start + 3 < len {
                                                status_start + 4
                                            } else {
                                                len
                                            };
                                            let size_end = size_end_from(line, size_start);
                                            let (referer_start, referer_end) = referer_from(
                                                line,
                                                size_end,
                                            );
                                            let (user_agent_start, user_agent_end) = quoted_from(
                                                line,
                                                referer_end,
                                            );
                                            Some(
                                                FieldOffsets {
                                                    ip_end: ip_end as usize,
                                                    timestamp_start: ts_start as usize,
                                                    timestamp_end: ts_end as usize,
                                                    request_start: req_start as usize,
                                                    request_end: req_end as usize,
                                                    status_start: status_start as usize,
                                                    size_start: size_start as usize,
                                                    size_end: size_end as usize,
                                                    referer_start: referer_start as usize,
                                                    referer_end: referer_end as usize,
                                                    user_agent_start: user_agent_start as usize,
                                                    user_agent_end: user_agent_end as usize,
                                                },
                                            )
                                        }
                                    },
                                }
                            },
                        }
                    },
                },
            },
        }
    }
}

/// End of the size field: the next space after it, else one before the
/// next quote, else the end of the line.
pub open spec fn size_end_from(line: Seq<u8>, size_start: int) -> int {
    let len = line.len() as int;
    if size_start < len {
        match seq_find(line.subrange(size_start, len), 32u8) {
            Some(i) => size_start + i,
            None => match seq_find(line.subrange(size_start, len), 34u8) {
                Some(i) => size_start + i - 1,
                None => len,
            },
        }
    } else {
        len
    }
}

/// The first quoted span at or after `from`, or `(0, 0)` when absent.
pub open spec fn referer_from(line: Seq<u8>, from: int) -> (int, int) {
    let len = line.len() as int;
    if from < len {
        match seq_find(line.subrange(from, len), 34u8) {
            Some(rq1) => {
                let start = from + rq1 + 1;
                match seq_find(line.subrange(start, len), 34u8) {
                    Some(rq2) => (start, start + rq2),
                    None => (0int, 0int),
                }
            },
            None => (0int, 0int),
        }
    } else {
        (0int, 0int)
    }
}

/// The quoted span after a preceding quoted field that ended at `prev_end`,
/// or `(0, 0)` when absent.
pub open spec fn quoted_from(line: Seq<u8>, prev_end: int) -> (int, int) {
    let len = line.len() as int;
    if prev_end > 0 && prev_end + 1 < len {
        match seq_find(line.subrange(prev_end + 1, len), 34u8) {
            Some(u1) => {
                let start = prev_end + 1 + u1 + 1;
                match seq_find(line.subrange(start, len), 34u8) {
                    Some(u2) => (start, start + u2),
                    None => (0int, 0int),
                }
            },
            None => (0int, 0int),
        }
    } else {
        (0int, 0int)
    }
}

/// Bounds that located offsets obey, making every extractor in-bounds.
pub open spec fn offsets_wf(line: Seq<u8>, o: FieldOffsets) -> bool {
    let len = line.len() as int;
    &&& 20 <= len
    &&& o.ip_end < len
    &&& 1 <= o.timestamp_start
    &&& o.timestamp_start <= o.timestamp_end
    &&& o.timestamp_end < len
    &&& o.request_start <= o.request_end
    &&& o.request_end + 5 <= len
    &&& o.status_start == o.request_end + 2
    &&& o.status_start + 3 <= len
    &&& o.size_start <= len
    &&& o.size_end <= len
    &&& (o.referer_start == 0 || o.referer_start <= o.referer_end < len)
    &&& (o.user_agent_start == 0 || o.user_agent_start <= o.user_agent_end < len)
}

/// Located offsets are well formed.
pub proof fn lemma_locate_wf(line: Seq<u8>)
    requires
        line.len() <= usize::MAX,
    ensures
        match locate_apache(line) {
            Some(o) => offsets_wf(line, o),
            None => true,
        },
{
    let len = line.len() as int;
    if len >= 20 {
        crate::bytes::lemma_seq_find(line, 32u8);
        crate::bytes::lemma_seq_find(line, 91u8);
        if let Some(bracket_open) = seq_find(line, 91u8) {
            crate::bytes::lemma_seq_find(line.subrange(bracket_open, len), 93u8);
            if let Some(bracket_rel) = seq_find(line.subrange(bracket_open, len), 93u8) {
                let ts_end = bracket_open + bracket_rel;
                crate::bytes::lemma_seq_find(line.subrange(ts_end, len), 34u8);
                if let Some(q1) = seq_find(line.subrange(ts_end, len), 34u8) {
                    let req_start = ts_end + q1 + 1;
                    crate::bytes::lemma_seq_find(line.subrange(req_start, len), 34u8);
                    if let Some(q2) = seq_find(line.subrange(req_start, len), 34u8) {
                        let req_end = req_start + q2;
                        if req_end + 5 <= len {
                            let status_start = req_end + 2;
                            let size_start = if status_start + 3 < len {
                                status_start + 4
                            } else {
                                len
                            };
                            lemma_size_end_wf(line, size_start);
                            let size_end = size_end_from(line, size_start);
                            lemma_referer_wf(line, size_end);
                            let (rs, re) = referer_from(line, size_end);
                            lemma_quoted_wf(line, re);
                        }
                    }
                }
            }
        }
    }
}

proof fn lemma_size_end_wf(line: Seq<u8>, size_start: int)
    requires
        0 <= size_start <= line.len(),
    ensures
        size_end_from(line, size_start) <= line.len(),
        size_start >= 1 ==> size_end_from(line, size_start) >= 0,
{
    let len = line.len() as int;
    if size_start < len {
        crate::bytes::lemma_seq_find(line.subrange(size_start, len), 32u8);
        crate::bytes::lemma_seq_find(line.subrange(size_start, len), 34u8);
    }
}

proof fn lemma_referer_wf(line: Seq<u8>, from: int)
    requires
        0 <= from <= line.len(),
    ensures
        ({
            let (s, e) = referer_from(line, from);
            (s == 0 && e == 0) || (0 < s <= e < line.len())
        }),
{
    let len = line.len() as int;
    if from < len {
        crate::bytes::lemma_seq_find(line.subrange(from, len), 34u8);
        if let Some(rq1) = seq_find(line.subrange(from, len), 34u8) {
            let start = from + rq1 + 1;
            crate::bytes::lemma_seq_find(line.subrange(start, len), 34u8);
        }
    }
}

proof fn lemma_quoted_wf(line: Seq<u8>, prev_end: int)
    requires
        prev_end < line.len(),
    ensures
        ({
            let (s, e) = quoted_from(line, prev_end);
            (s == 0 && e == 0) || (0 < s <= e < line.len())
        }),
{
    let len = line.len() as int;
    if prev_end > 0 && prev_end + 1 < len {
        crate::bytes::lemma_seq_find(line.subrange(prev_end + 1, len), 34u8);
        if let Some(u1) = seq_find(line.subrange(prev_end + 1, len), 34u8) {
            let start = prev_end + 1 + u1 + 1;
            crate::bytes::lemma_seq_find(line.subrange(start, len), 34u8);
        }
    }
}

/// Locate the structural fields of one Apache line, or `None` for a line
/// that is shorter than 20 bytes or lacks a structural marker.
pub fn find_fields(line: &[u8]) -> (r: Option<FieldOffsets>)
    ensures
        r == locate_apache(line@),
        match r {
            Some(o) => offsets_wf(line@, o),
            None => true,
        },
{
    proof {
        lemma_locate_wf(line@);
    }
    let len = line.len();
    if len < 20 {
        return None;
    }
    let ghost lv = line@;
    let ghost glen = len as int;

    let ip_end = match find_byte(32u8, line) {
        Some(i) => {
            proof {
                lemma_seq_find_first(lv, 32u8, i as int);
            }
            i
        },
        None => {
            proof {
                lemma_seq_find_none(lv, 32u8);
            }
            return None;
        },
    };

    let bracket_open = match find_byte(91u8, line) {
        Some(i) => {
            proof {
                lemma_seq_find_first(lv, 91u8, i as int);
            }
            i
        },
        None => {
            proof {
                lemma_seq_find_none(lv, 91u8);
            }
            return None;
        },
    };

    let after_bracket = vstd::slice::slice_subrange(line, bracket_open, len);
    let bracket_rel = match find_byte(93u8, after_bracket) {
        Some(i) => {
            proof {
                lemma_seq_find_first(lv.subrange(bracket_open as int, glen), 93u8, i as int);
            }
            i
        },
        None => {
            proof {
                lemma_seq_find_none(lv.subrange(bracket_open as int, glen), 93u8);
            }
            return None;
        },
    };
    let timestamp_start = bracket_open + 1;
    let timestamp_end = bracket_open + bracket_rel;

    let after_ts = vstd::slice::slice_subrange(line, timestamp_end, len);
    let q1 = match find_byte(34u8, after_ts) {
        Some(i) => {
            proof {
                lemma_seq_find_first(lv.subrange(timestamp_end as int, glen), 34u8, i as int);
            }
            i
        },
        None => {
            proof {
                lemma_seq_find_none(lv.subrange(timestamp_end as int, glen), 34u8);
            }
            return None;
        },
    };
    let request_start = timestamp_end + q1 + 1;

    let after_req = vstd::slice::slice_subrange(line, request_start, len);
    let q2 = match find_byte(34u8, after_req) {
        Some(i) => {
            proof {
                lemma_seq_find_first(lv.subrange(request_start as int, glen), 34u8, i as int);
            }
            i
        },
        None => {
            proof {
                lemma_seq_find_none(lv.subrange(request_start as int, glen), 34u8);
            }
            return None;
        },
    };
    let request_end = request_start + q2;

    if request_end > len - 5 {
        return None;
    }
    let status_start = request_end + 2;
    let size_start = if status_start + 3 < len {
        status_start + 4
    } else {
        len
    };

    let size_end = if size_start < len {
        let after_size = vstd::slice::slice_subrange(line, size_start, len);
        match find_byte(32u8, after_size) {
            Some(i) => {
                proof {
                    lemma_seq_find_first(lv.subrange(size_start as int, glen), 32u8, i as int);
                }
                size_start + i
            },
            None => {
                proof {
                    lemma_seq_find_none(lv.subrange(size_start as int, glen), 32u8);
                }
                match find_byte(34u8, after_size) {
                    Some(i) => {
                        proof {
                            lemma_seq_find_first(lv.subrange(size_start as int, glen), 34u8, i as int);
                        }
                        size_start + i - 1
                    },
                    None => {
                        proof {
                            lemma_seq_find_none(lv.subrange(size_start as int, glen), 34u8);
                        }
                        len
                    },
                }
            },
        }
    } else {
        len
    };

    let (referer_start, referer_end) = if size_end < len {
        let after = vstd::slice::slice_subrange(line, size_end, len);
        match find_byte(34u8, after) {
            Some(rq1) => {
                proof {
                    lemma_seq_find_first(lv.subrange(size_end as int, glen), 34u8, rq1 as int);
                }
                let ref_start = size_end + rq1 + 1;
                let after2 = vstd::slice::slice_subrange(line, ref_start, len);
                match find_byte(34u8, after2) {
                    Some(rq2) => {
                        proof {
                            lemma_seq_find_first(lv.subrange(ref_start as int, glen), 34u8, rq2 as int);
                        }
                        (ref_start, ref_start + rq2)
                    },
                    None => {
                        proof {
                            lemma_seq_find_none(lv.subrange(ref_start as int, glen), 34u8);
                        }
                        (0usize, 0usize)
                    },
                }
            },
            None => {
                proof {
                    lemma_seq_find_none(lv.subrange(size_end as int, glen), 34u8);
                }
                (0usize, 0usize)
            },
        }
    } else {
        (0usize, 0usize)
    };

    let (user_agent_start, user_agent_end) = if referer_end > 0 && referer_end + 1 < len {
        let after = vstd::slice::slice_subrange(line, referer_end + 1, len);
        match find_byte(34u8, after) {
            Some(u1) => {
                proof {
                    lemma_seq_find_first(lv.subrange(referer_end + 1, glen), 34u8, u1 as int);
                }
                let ua_start = referer_end + 1 + u1 + 1;
                let after2 = vstd::slice::slice_subrange(line, ua_start, len);
                match find_byte(34u8, after2) {
                    Some(u2) => {
                        proof {
                            lemma_seq_find_first(lv.subrange(ua_start as int, glen), 34u8, u2 as int);
                        }
                        (ua_start, ua_start + u2)
                    },
                    None => {
                        proof {
                            lemma_seq_find_none(lv.subrange(ua_start as int, glen), 34u8);
                        }
                        (0usize, 0usize)
                    },
                }
            },
            None => {
                proof {
                    lemma_seq_find_none(lv.subrange(referer_end + 1, glen), 34u8);
                }
                (0usize, 0usize)
            },
        }
    } else {
        (0usize, 0usize)
    };

    Some(
        FieldOffsets {
            ip_end,
            timestamp_start,
            timestamp_end,
            request_start,
            request_end,
            status_start,
            size_start,
            size_end,
            referer_start,
            referer_end,
            user_agent_start,
            user_agent_end,
        },
    )
}

/// An ASCII decimal digit.
pub open spec fn is_ascii_digit(b: u8) -> bool {
    48 <= b <= 57
}

/// The status code read as three explicit digits at `start`, if all three
/// bytes are digits.
pub open spec fn status_code_at(line: Seq<u8>, start: int) -> Option<u16> {
    if 0 <= start && start + 3 <= line.len() && is_ascii_digit(line[start]) && is_ascii_digit(
        line[start + 1],
    ) && is_ascii_digit(line[start + 2]) {
        Some((((line[start] - 48) * 100 + (line[start + 1] - 48) * 10 + (line[start + 2] - 48)) as u16))
    } else {
        None
    }
}

/// Extract the status code (3 digits) as a `u16`.
pub fn extract_status(line: &[u8], offsets: &FieldOffsets) -> (r: Option<u16>)
    ensures
        r == status_code_at(line@, offsets.status_start as int),
{
    let start = offsets.status_start;
    if line.len() < 3 || start > line.len() - 3 {
        return None;
    }
    let s0 = line[start];
    let s1 = line[start + 1];
    let s2 = line[start + 2];
    if 48 <= s0 && s0 <= 57 && 48 <= s1 && s1 <= 57 && 48 <= s2 && s2 <= 57 {
        Some((s0 - 48) as u16 * 100 + (s1 - 48) as u16 * 10 + (s2 - 48) as u16)
    } else {
        None
    }
}

/// Extract the client IP: the bytes before the first space.
pub fn extract_ip<'a>(line: &'a [u8], offsets: &FieldOffsets) -> (r: &'a [u8])
    requires
        offsets.ip_end <= line@.len(),
    ensures
        r@ == line@.subrange(0, offsets.ip_end as int),
{
    vstd::slice::slice_subrange(line, 0, offsets.ip_end)
}

/// Extract the full request line between its quotes.
pub fn extract_request<'a>(line: &'a [u8], offsets: &FieldOffsets) -> (r: &'a [u8])
    requires
        offsets.request_start <= offsets.request_end <= line@.len(),
    ensures
        r@ == line@.subrange(offsets.request_start as int, offsets.request_end as int),
{
    vstd::slice::slice_subrange(line, offsets.request_start, offsets.request_end)
}

/// Extract the raw timestamp bytes between the brackets.
pub fn extract_timestamp<'a>(line: &'a [u8], offsets: &FieldOffsets) -> (r: &'a [u8])
    requires
        offsets.timestamp_start <= offsets.timestamp_end <= line@.len(),
    ensures
        r@ == line@.subrange(offsets.timestamp_start as int, offsets.timestamp_end as int),
{
    vstd::slice::slice_subrange(line, offsets.timestamp_start, offsets.timestamp_end)
}

/// The request method: the first space-separated word of the request.
pub open spec fn method_of(line: Seq<u8>, o: FieldOffsets) -> Seq<u8> {
    let req = line.subrange(o.request_start as int, o.request_end as int);
    match seq_find(req, 32u8) {
        Some(e) => req.subrange(0, e),
        None => req,
    }
}

/// Extract the request method.
pub fn extract_method<'a>(line: &'a [u8], offsets: &FieldOffsets) -> (r: &'a [u8])
    requires
        offsets.request_start <= offsets.request_end <= line@.len(),
    ensures
        r@ == method_of(line@, *offsets),
{
    let req = vstd::slice::slice_subrange(line, offsets.request_start, offsets.request_end);
    match find_byte(32u8, req) {
        Some(e) => {
            proof {
                lemma_seq_find_first(req@, 32u8, e as int);
            }
            vstd::slice::slice_subrange(req, 0, e)
        },
        None => {
            proof {
                lemma_seq_find_none(req@, 32u8);
            }
            req
        },
    }
}

/// The request path: the second space-separated word of the request, or
/// empty when the request has no second word.
pub open spec fn path_of(line: Seq<u8>, o: FieldOffsets) -> Seq<u8> {
    let req = line.subrange(o.request_start as int, o.request_end as int);
    let method_end = match seq_find(req, 32u8) {
        Some(e) => e,
        None => req.len() as int,
    };
    if method_end >= req.len() {
        Seq::empty()
    } else {
        let path_start = method_end + 1;
        let path_end = match seq_find(req.subrange(path_start, req.len() as int), 32u8) {
            Some(i) => path_start + i,
            None => req.len() as int,
        };
        req.subrange(path_start, path_end)
    }
}

/// Extract the request path.
pub fn extract_path<'a>(line: &'a [u8], offsets: &FieldOffsets) -> (r: &'a [u8])
    requires
        offsets.request_start <= offsets.request_end <= line@.len(),
    ensures
        r@ == path_of(line@, *offsets),
{
    let req = vstd::slice::slice_subrange(line, offsets.request_start, offsets.request_end);
    let method_end = match find_byte(32u8, req) {
        Some(e) => {
            proof {
                lemma_seq_find_first(req@, 32u8, e as int);
            }
            e
        },
        None => {
            proof {
                lemma_seq_find_none(req@, 32u8);
            }
            req.len()
        },
    };
    if method_end >= req.len() {
        let empty = vstd::slice::slice_subrange(req, 0, 0);
        proof {
            assert(empty@ =~= Seq::<u8>::empty());
        }
        return empty;
    }
    let path_start = method_end + 1;
    let rest = vstd::slice::slice_subrange(req, path_start, req.len());
    let path_end = match find_byte(32u8, rest) {
        Some(i) => {
            proof {
                lemma_seq_find_first(rest@, 32u8, i as int);
            }
            path_start + i
        },
        None => {
            proof {
                lemma_seq_find_none(rest@, 32u8);
            }
            req.len()
        },
    };
    vstd::slice::slice_subrange(req, path_start, path_end)
}

/// The referer bytes, or the `-` sentinel when the field is absent.
pub open spec fn referer_of(line: Seq<u8>, o: FieldOffsets) -> Seq<u8> {
    if o.referer_start > 0 && o.referer_end > o.referer_start && o.referer_end <= line.len() {
        line.subrange(o.referer_start as int, o.referer_end as int)
    } else {
        seq![45u8]
    }
}

/// Extract the referer field.
pub fn extract_referer<'a>(line: &'a [u8], offsets: &FieldOffsets) -> (r: &'a [u8])
    ensures
        r@ == referer_of(line@, *offsets),
{
    if offsets.referer_start > 0 && offsets.referer_end > offsets.referer_start
        && offsets.referer_end <= line.len() {
        vstd::slice::slice_subrange(line, offsets.referer_start, offsets.referer_end)
    } else {
        let dash: &'static [u8; 1] = &[45u8];
        let r = dash.as_slice();
        proof {
            assert(r@ =~= seq![45u8]);
        }
        r
    }
}

/// The user-agent bytes, or the `-` sentinel when the field is absent.
pub open spec fn user_agent_of(line: Seq<u8>, o: FieldOffsets) -> Seq<u8> {
    if o.user_agent_start > 0 && o.user_agent_end > o.user_agent_start && o.user_agent_end
        <= line.len() {
        line.subrange(o.user_agent_start as int, o.user_agent_end as int)
    } else {
        seq![45u8]
    }
}

/// Extract the user-agent field.
pub fn extract_user_agent<'a>(line: &'a [u8], offsets: &FieldOffsets) -> (r: &'a [u8])
    ensures
        r@ == user_agent_of(line@, *offsets),
{
    if offsets.user_agent_start > 0 && offsets.user_agent_end > offsets.user_agent_start
        && offsets.user_agent_end <= line.len() {
        vstd::slice::slice_subrange(line, offsets.user_agent_start, offsets.user_agent_end)
    } else {
        let dash: &'static [u8; 1] = &[45u8];
        let r = dash.as_slice();
        proof {
            assert(r@ =~= seq![45u8]);
        }
        r
    }
}

/// Every byte of `s` is an ASCII digit.
pub open spec fn all_digits(s: Seq<u8>) -> bool {
    forall|i: int| 0 <= i < s.len() ==> is_ascii_digit(#[trigger] s[i])
}

/// The value of a run of decimal digits.
pub open spec fn digits_val(s: Seq<u8>) -> int
    decreases s.len(),
{
    if s.len() == 0 {
        0
    } else {
        digits_val(s.drop_last()) * 10 + (s.last() - 48)
    }
}

/// A run of digits has a nonnegative value.
pub proof fn lemma_digits_nonneg(s: Seq<u8>)
    requires
        all_digits(s),
    ensures
        digits_val(s) >= 0,
    decreases s.len(),
{
    if s.len() > 0 {
        assert(all_digits(s.drop_last()));
        lemma_digits_nonneg(s.drop_last());
    }
}

/// The value of a digit prefix never exceeds the value of the whole run.
pub proof fn lemma_digits_prefix(s: Seq<u8>, i: int)
    requires
        all_digits(s),
        0 <= i <= s.len(),
    ensures
        digits_val(s.take(i)) <= digits_val(s),
    decreases s.len(),
{
    if i == s.len() {
        assert(s.take(i) =~= s);
    } else {
        assert(all_digits(s.drop_last()));
        lemma_digits_prefix(s.drop_last(), i);
        assert(s.drop_last().take(i) =~= s.take(i));
        lemma_digits_nonneg(s.drop_last());
    }
}

/// The size field parsed from `[a, b)`: `-` is 0; a run of digits is its
/// value when it fits an `i64`; everything else is absent.
pub open spec fn size_at(line: Seq<u8>, a: int, b: int) -> Option<i64> {
    if a >= b || b > line.len() || a < 0 {
        None
    } else {
        let sb = line.subrange(a, b);
        if sb == seq![45u8] {
            Some(0i64)
        } else if all_digits(sb) && digits_val(sb) <= i64::MAX {
            Some(digits_val(sb) as i64)
        } else {
            None
        }
    }
}

/// Extract the size field as an `i64`; `-` is read as 0.
pub fn extract_size(line: &[u8], offsets: &FieldOffsets) -> (r: Option<i64>)
    ensures
        r == size_at(line@, offsets.size_start as int, offsets.size_end as int),
{
    let a = offsets.size_start;
    let b = offsets.size_end;
    if a >= b || b > line.len() {
        return None;
    }
    let sb = vstd::slice::slice_subrange(line, a, b);
    if sb.len() == 1 && sb[0] == 45 {
        proof {
            assert(sb@ =~= seq![45u8]);
        }
        return Some(0);
    }
    proof {
        assert(sb@ != seq![45u8]);
    }
    let mut val: i64 = 0;
    let mut i: usize = 0;
    let n = sb.len();
    while i < n
        invariant
            n == sb@.len(),
            i <= n,
            offsets.size_start < offsets.size_end,
            offsets.size_end <= line@.len(),
            sb@ == line@.subrange(offsets.size_start as int, offsets.size_end as int),
            sb@ != seq![45u8],
            all_digits(sb@.take(i as int)),
            0 <= val,
            val == digits_val(sb@.take(i as int)),
        decreases n - i,
    {
        let d = sb[i];
        if d < 48 || d > 57 {
            proof {
                assert(!is_ascii_digit(sb@[i as int]));
                assert(!all_digits(sb@));
            }
            return None;
        }
        proof {
            assert(sb@.take(i + 1).drop_last() =~= sb@.take(i as int));
            assert(sb@.take(i + 1).last() == sb@[i as int]);
        }
        let step = val.checked_mul(10);
        match step {
            Some(v10) => {
                match v10.checked_add((d - 48) as i64) {
                    Some(v) => {
                        val = v;
                    },
                    None => {
                        proof {
                            assert(digits_val(sb@.take(i + 1)) > i64::MAX);
                            lemma_digits_overflow(sb@, i + 1);
                        }
                        return None;
                    },
                }
            },
            None => {
                proof {
                    assert(digits_val(sb@.take(i + 1)) == val * 10 + (sb@[i as int] - 48));
                    assert(digits_val(sb@.take(i + 1)) > i64::MAX);
                    lemma_digits_overflow(sb@, i + 1);
                }
                return None;
            },
        }
        i += 1;
    }
    proof {
        assert(sb@.take(n as int) =~= sb@);
    }
    Some(val)
}

/// If some digit prefix already exceeds `i64::MAX`, the whole run does,
/// provided the run stays digits; if a later byte is not a digit the run
/// is not all digits either way.
proof fn lemma_digits_overflow(s: Seq<u8>, i: int)
    requires
        0 <= i <= s.len(),
        all_digits(s.take(i)),
        digits_val(s.take(i)) > i64::MAX,
    ensures
        !(all_digits(s) && digits_val(s) <= i64::MAX),
{
    if all_digits(s) {
        lemma_digits_prefix(s, i);
    }
}

} // verus!
