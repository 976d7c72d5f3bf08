//! Grep-like fast paths over raw buffer bytes.
//!
//! These operations trade structural parsing for raw pattern scans: they
//! count or collect around occurrences of `" 4` and `" 5`, extract the
//! first fields of a line without full location, and build lazily
//! extracted records.  They are approximations by design: a quoted field
//! containing `" 4` counts too.

use vstd::prelude::*;

use crate::bytes::{
    find_byte, find_substr, is_match_at, lemma_seq_find_first, lemma_seq_find_none,
    lemma_seq_find_sub, lemma_seq_find_sub_first, lemma_seq_find_sub_none, seq_find, seq_find_sub,
};
use crate::groupmap::{
    bump, gc_count, gc_counts_pos, gc_has_key, gc_keys_unique, gc_total, GroupCount,
};
use crate::lines::{lines_of, split_lines, views_of, LINE_FEED};
use crate::order::{gc_sorted, lemma_gc_permutation, sort_group_counts};
use crate::scan::{
    count_lines, keep_lines, lemma_count_lines_le, lemma_count_lines_step, lemma_keep_lines_step,
    lemma_lines_of_len_le, views_of_vecs,
};

verus! {

/// The greedy non-overlapping occurrence positions of `n` in `s` from
/// `from` on: each found occurrence is skipped whole before the next
/// search.
pub open spec fn scan_positions(s: Seq<u8>, n: Seq<u8>, from: int) -> Seq<int>
    decreases s.len() - from,
    via scan_positions_decreases
{
    if from < 0 || from > s.len() || n.len() == 0 {
        Seq::empty()
    } else {
        match seq_find_sub(s.subrange(from, s.len() as int), n) {
            None => Seq::empty(),
            Some(rel) => {
                let p = from + rel;
                seq![p] + scan_positions(s, n, p + n.len())
            },
        }
    }
}

#[via_fn]
proof fn scan_positions_decreases(s: Seq<u8>, n: Seq<u8>, from: int) {
    if !(from < 0 || from > s.len() || n.len() == 0) {
        lemma_seq_find_sub(s.subrange(from, s.len() as int), n);
    }
}

/// A wrapped difference of a byte and the digit zero, as the fast status
/// read computes it.
pub open spec fn wsub_zero(b: u8) -> u8 {
    if b >= 48 {
        (b - 48) as u8
    } else {
        (b + 208) as u8
    }
}

/// Whether the three bytes after a `" ` occurrence at `p` read as a
/// status at or above `min`: the byte two past the match must exist and
/// be a digit, and the wrapped three-digit read must reach `min`.
pub open spec fn fast_pos_ok(s: Seq<u8>, p: int, min: u16) -> bool {
    &&& p + 4 < s.len()
    &&& crate::apache::is_ascii_digit(s[p + 4])
    &&& (wsub_zero(s[p + 2]) * 100 + wsub_zero(s[p + 3]) * 10 + wsub_zero(s[p + 4])) >= min
}

/// The positions among `ps` whose fast status read reaches `min`.
pub open spec fn ok_positions(s: Seq<u8>, ps: Seq<int>, min: u16) -> Seq<int>
    decreases ps.len(),
{
    if ps.len() == 0 {
        Seq::empty()
    } else {
        ok_positions(s, ps.drop_last(), min) + if fast_pos_ok(s, ps.last(), min) {
            seq![ps.last()]
        } else {
            Seq::empty()
        }
    }
}

/// The start of the line around position `p`: just after the nearest
/// newline before `p`, or the buffer start.
pub open spec fn line_start_of(s: Seq<u8>, p: int) -> int
    decreases p,
{
    if p <= 0 {
        0
    } else if s[p - 1] == LINE_FEED {
        p
    } else {
        line_start_of(s, p - 1)
    }
}

/// The end of the line around position `p`: the next newline at or after
/// `p`, or the buffer end.
pub open spec fn line_end_of(s: Seq<u8>, p: int) -> int {
    match seq_find(s.subrange(p, s.len() as int), LINE_FEED) {
        Some(i) => p + i,
        None => s.len() as int,
    }
}

/// The line around position `p`.
pub open spec fn line_around(s: Seq<u8>, p: int) -> Seq<u8> {
    s.subrange(line_start_of(s, p), line_end_of(s, p))
}

/// Find the greedy occurrence positions of `needle` in `data`.
fn collect_scan_positions(data: &[u8], needle: &[u8]) -> (r: Vec<usize>)
    requires
        needle@.len() >= 1,
    ensures
        r@.len() == scan_positions(data@, needle@, 0).len(),
        forall|i: int|
            0 <= i < r@.len() ==> r@[i] as int == scan_positions(data@, needle@, 0)[i]
                && r@[i] + needle@.len() <= data@.len(),
{
    let ghost full = scan_positions(data@, needle@, 0);
    let mut out: Vec<usize> = Vec::new();
    let mut pos: usize = 0;
    let len = data.len();
    let nlen = needle.len();
    proof {
        assert(full =~= Seq::<int>::empty() + scan_positions(data@, needle@, 0));
    }
    while pos <= len
        invariant
            len == data@.len(),
            nlen == needle@.len(),
            nlen >= 1,
            pos <= len + nlen,
            full == scan_positions(data@, needle@, 0),
            full =~= out@.map_values(|u: usize| u as int) + scan_positions(
                data@,
                needle@,
                pos as int,
            ),
            forall|i: int| 0 <= i < out@.len() ==> out@[i] + nlen <= len,
        ensures
            len == data@.len(),
            nlen == needle@.len(),
            full == scan_positions(data@, needle@, 0),
            full =~= out@.map_values(|u: usize| u as int),
            forall|i: int| 0 <= i < out@.len() ==> out@[i] + nlen <= len,
        decreases len + nlen - pos,
    {
        let rest = vstd::slice::slice_subrange(data, pos, len);
        match find_substr(rest, needle) {
            Some(rel) => {
                proof {
                    lemma_seq_find_sub_first(rest@, needle@, rel as int);
                    assert(is_match_at(rest@, needle@, rel as int));
                }
                let p = pos + rel;
                let ghost prev = out@;
                out.push(p);
                proof {
                    assert(scan_positions(data@, needle@, pos as int) == seq![p as int]
                        + scan_positions(data@, needle@, p + nlen));
                    assert(out@.map_values(|u: usize| u as int) =~= prev.map_values(
                        |u: usize| u as int,
                    ) + seq![p as int]);
                    assert((prev.map_values(|u: usize| u as int) + seq![p as int])
                        + scan_positions(data@, needle@, p + nlen) =~= prev.map_values(
                        |u: usize| u as int,
                    ) + (seq![p as int] + scan_positions(data@, needle@, p + nlen)));
                }
                pos = p + nlen;
            },
            None => {
                proof {
                    lemma_seq_find_sub_none(rest@, needle@);
                    assert(scan_positions(data@, needle@, pos as int) =~= Seq::<int>::empty());
                    assert(out@.map_values(|u: usize| u as int) + Seq::<int>::empty()
                        =~= out@.map_values(|u: usize| u as int));
                }
                break ;
            },
        }
    }
    proof {
        assert forall|i: int| 0 <= i < out@.len() implies out@[i] as int == full[i] by {
            assert(full[i] == out@.map_values(|u: usize| u as int)[i]);
        }
    }
    out
}

/// Count greedy occurrences of `" 4` plus those of `" 5`: the number of
/// lines with a client or server error status, up to quoted-field false
/// positives.
pub fn fast_count_errors(data: &[u8]) -> (r: u64)
    requires
        2 * data@.len() <= u64::MAX,
    ensures
        r as int == scan_positions(data@, seq![34u8, 32u8, 52u8], 0).len() + scan_positions(
            data@,
            seq![34u8, 32u8, 53u8],
            0,
        ).len(),
{
    let pat4: &'static [u8; 3] = &[34u8, 32u8, 52u8];
    let pat5: &'static [u8; 3] = &[34u8, 32u8, 53u8];
    proof {
        assert(pat4@ =~= seq![34u8, 32u8, 52u8]);
        assert(pat5@ =~= seq![34u8, 32u8, 53u8]);
        lemma_scan_positions_count(data@, seq![34u8, 32u8, 52u8], 0);
        lemma_scan_positions_count(data@, seq![34u8, 32u8, 53u8], 0);
    }
    let p4 = collect_scan_positions(data, pat4.as_slice());
    let p5 = collect_scan_positions(data, pat5.as_slice());
    (p4.len() as u64) + (p5.len() as u64)
}

/// Greedy occurrence positions stepping by the needle length are at most
/// a third of the buffer apart, so their count is bounded.
pub proof fn lemma_scan_positions_count(s: Seq<u8>, n: Seq<u8>, from: int)
    requires
        n.len() >= 1,
    ensures
        scan_positions(s, n, from).len() <= s.len() - from || scan_positions(s, n, from).len()
            == 0,
    decreases s.len() - from,
{
    if !(from < 0 || from > s.len() || n.len() == 0) {
        lemma_seq_find_sub(s.subrange(from, s.len() as int), n);
        match seq_find_sub(s.subrange(from, s.len() as int), n) {
            None => {},
            Some(rel) => {
                let p = from + rel;
                lemma_scan_positions_count(s, n, p + n.len());
            },
        }
    }
}

/// The IP field read without location: the bytes before the first space,
/// or the whole line when it has no space.
pub open spec fn fast_ip_of(l: Seq<u8>) -> Seq<u8> {
    match seq_find(l, 32u8) {
        Some(i) => l.subrange(0, i),
        None => l,
    }
}

/// Extract the IP field without full location.
pub fn extract_ip<'a>(line: &'a [u8]) -> (r: &'a [u8])
    ensures
        r@ == fast_ip_of(line@),
{
    match find_byte(32u8, line) {
        Some(i) => {
            proof {
                lemma_seq_find_first(line@, 32u8, i as int);
            }
            vstd::slice::slice_subrange(line, 0, i)
        },
        None => {
            proof {
                lemma_seq_find_none(line@, 32u8);
            }
            line
        },
    }
}

/// The status read from the first `" ` occurrence: three explicit digits
/// right after it, if all three are digits.
pub open spec fn fast_status_of(l: Seq<u8>) -> Option<u16> {
    match seq_find_sub(l, seq![34u8, 32u8]) {
        None => None,
        Some(p) => crate::apache::status_code_at(l, p + 2),
    }
}

/// Extract the status code by pattern search instead of field location.
pub fn extract_status_fast(line: &[u8]) -> (r: Option<u16>)
    ensures
        r == fast_status_of(line@),
{
    let llen = line.len();
    let quote_space: &'static [u8; 2] = &[34u8, 32u8];
    let qs = quote_space.as_slice();
    proof {
        assert(llen == line@.len());
        assert(qs@ =~= seq![34u8, 32u8]);
    }
    match find_substr(line, qs) {
        Some(p) => {
            proof {
                assert(is_match_at(line@, qs@, p as int));
                lemma_seq_find_sub_first(line@, seq![34u8, 32u8], p as int);
                assert(p + 2 <= line@.len());
            }
            let start = p + 2;
            if llen < 3 || start > llen - 3 {
                return None;
            }
            let s0 = line[start];
            let s1 = line[start + 1];
            let s2 = line[start + 2];
            if 48 <= s0 && s0 <= 57 && 48 <= s1 && s1 <= 57 && 48 <= s2 && s2 <= 57 {
                Some((s0 - 48) as u16 * 100 + (s1 - 48) as u16 * 10 + (s2 - 48) as u16)
            } else {
                None
            }
        },
        None => {
            proof {
                lemma_seq_find_sub_none(line@, seq![34u8, 32u8]);
            }
            None
        },
    }
}

/// The request path read without location: the second space-separated
/// word after the first quote.
pub open spec fn fast_path_of(l: Seq<u8>) -> Option<Seq<u8>> {
    match seq_find(l, 34u8) {
        None => None,
        Some(qp) => {
            let start = qp + 1;
            match seq_find(l.subrange(start, l.len() as int), 32u8) {
                None => None,
                Some(sp1) => {
                    let path_start = start + sp1 + 1;
                    let path_end = match seq_find(l.subrange(path_start, l.len() as int), 32u8) {
                        Some(i) => path_start + i,
                        None => l.len() as int,
                    };
                    Some(l.subrange(path_start, path_end))
                },
            }
        },
    }
}

/// Extract the request path by pattern search instead of field location.
pub fn extract_path_fast<'a>(line: &'a [u8]) -> (r: Option<&'a [u8]>)
    ensures
        match r {
            Some(p) => fast_path_of(line@) == Some(p@),
            None => fast_path_of(line@) is None,
        },
{
    let len = line.len();
    let qp = match find_byte(34u8, line) {
        Some(i) => {
            proof {
                lemma_seq_find_first(line@, 34u8, i as int);
            }
            i
        },
        None => {
            proof {
                lemma_seq_find_none(line@, 34u8);
            }
            return None;
        },
    };
    let start = qp + 1;
    let rest = vstd::slice::slice_subrange(line, start, len);
    let sp1 = match find_byte(32u8, rest) {
        Some(i) => {
            proof {
                lemma_seq_find_first(line@.subrange(start as int, len as int), 32u8, i as int);
            }
            i
        },
        None => {
            proof {
                lemma_seq_find_none(line@.subrange(start as int, len as int), 32u8);
            }
            return None;
        },
    };
    let path_start = start + sp1 + 1;
    let rest2 = vstd::slice::slice_subrange(line, path_start, len);
    let path_end = match find_byte(32u8, rest2) {
        Some(i) => {
            proof {
                lemma_seq_find_first(line@.subrange(path_start as int, len as int), 32u8, i as int);
            }
            path_start + i
        },
        None => {
            proof {
                lemma_seq_find_none(line@.subrange(path_start as int, len as int), 32u8);
            }
            len
        },
    };
    Some(vstd::slice::slice_subrange(line, path_start, path_end))
}


/// Filtering one more position.
proof fn lemma_ok_positions_step(s: Seq<u8>, ps: Seq<int>, min: u16, i: int)
    requires
        0 <= i < ps.len(),
    ensures
        ok_positions(s, ps.take(i + 1), min) == ok_positions(s, ps.take(i), min) + if fast_pos_ok(
            s,
            ps[i],
            min,
        ) {
            seq![ps[i]]
        } else {
            Seq::<int>::empty()
        },
{
    assert(ps.take(i + 1).drop_last() =~= ps.take(i));
    assert(ps.take(i + 1).last() == ps[i]);
}

/// Find the start of the line around `p`.
fn find_line_start(data: &[u8], p: usize) -> (r: usize)
    requires
        p <= data@.len(),
    ensures
        r as int == line_start_of(data@, p as int),
        r <= p,
{
    let mut ls = p;
    while ls > 0 && data[ls - 1] != 10
        invariant
            p <= data@.len(),
            ls <= p,
            line_start_of(data@, p as int) == line_start_of(data@, ls as int),
        decreases ls,
    {
        ls -= 1;
    }
    ls
}

/// Find the end of the line around `p`.
fn find_line_end(data: &[u8], p: usize) -> (r: usize)
    requires
        p <= data@.len(),
    ensures
        r as int == line_end_of(data@, p as int),
        p <= r <= data@.len(),
{
    let len = data.len();
    let rest = vstd::slice::slice_subrange(data, p, len);
    match find_byte(10u8, rest) {
        Some(i) => {
            proof {
                lemma_seq_find_first(rest@, 10u8, i as int);
            }
            p + i
        },
        None => {
            proof {
                lemma_seq_find_none(rest@, 10u8);
            }
            len
        },
    }
}

/// Check the fast status read at a scan position.
fn check_fast_pos(data: &[u8], p: usize, min: u16) -> (r: bool)
    requires
        p + 3 <= data@.len(),
    ensures
        r == fast_pos_ok(data@, p as int, min),
{
    let len = data.len();
    if len - p <= 4 {
        return false;
    }
    let d = data[p + 4];
    if d < 48 || d > 57 {
        return false;
    }
    let b2 = data[p + 2];
    let b3 = data[p + 3];
    let w2 = if b2 >= 48 {
        b2 - 48
    } else {
        b2 + 208
    };
    let w3 = if b3 >= 48 {
        b3 - 48
    } else {
        b3 + 208
    };
    let v: u16 = w2 as u16 * 100 + w3 as u16 * 10 + (d - 48) as u16;
    v >= min
}


/// Positions in ascending order: earlier entries sit at or before later
/// ones in the buffer.
pub open spec fn asc_positions(ps: Seq<int>) -> bool {
    forall|i: int, j: int| 0 <= i < j < ps.len() ==> ps[i] <= ps[j]
}

/// Greedy scan positions start at or after `from`, leave room for the
/// needle, and strictly ascend with at least a needle-length gap.
proof fn lemma_scan_positions_props(s: Seq<u8>, n: Seq<u8>, from: int)
    requires
        n.len() >= 1,
    ensures
        ({
            let ps = scan_positions(s, n, from);
            &&& forall|i: int|
                0 <= i < ps.len() ==> from <= #[trigger] ps[i] && ps[i] + n.len() <= s.len()
            &&& forall|i: int, j: int| 0 <= i < j < ps.len() ==> ps[i] + n.len() <= ps[j]
        }),
    decreases s.len() - from,
{
    if !(from < 0 || from > s.len() || n.len() == 0) {
        lemma_seq_find_sub(s.subrange(from, s.len() as int), n);
        match seq_find_sub(s.subrange(from, s.len() as int), n) {
            None => {},
            Some(rel) => {
                let p = from + rel;
                lemma_scan_positions_props(s, n, p + n.len());
                let ps = scan_positions(s, n, from);
                let tail = scan_positions(s, n, p + n.len());
                assert(forall|i: int| 1 <= i < ps.len() ==> ps[i] == tail[i - 1]);
            },
        }
    }
}

/// The ascending merge of two position lists.
pub open spec fn merge_asc(a: Seq<int>, b: Seq<int>) -> Seq<int>
    decreases a.len() + b.len(),
{
    if a.len() == 0 {
        b
    } else if b.len() == 0 {
        a
    } else if a[0] <= b[0] {
        seq![a[0]] + merge_asc(a.drop_first(), b)
    } else {
        seq![b[0]] + merge_asc(a, b.drop_first())
    }
}

/// The merge holds exactly the elements of its inputs and, on ascending
/// inputs, is ascending.
proof fn lemma_merge_asc_props(a: Seq<int>, b: Seq<int>)
    ensures
        merge_asc(a, b).len() == a.len() + b.len(),
        forall|i: int|
            0 <= i < merge_asc(a, b).len() ==> a.contains(#[trigger] merge_asc(a, b)[i])
                || b.contains(merge_asc(a, b)[i]),
        asc_positions(a) && asc_positions(b) ==> asc_positions(merge_asc(a, b)),
    decreases a.len() + b.len(),
{
    let m = merge_asc(a, b);
    if a.len() == 0 {
        assert(forall|i: int| 0 <= i < m.len() ==> b.contains(#[trigger] m[i])) by {
            assert(forall|i: int| 0 <= i < b.len() ==> b.contains(#[trigger] b[i]));
        }
    } else if b.len() == 0 {
        assert(forall|i: int| 0 <= i < m.len() ==> a.contains(#[trigger] a[i]));
    } else {
        let a_first = a[0] <= b[0];
        let ra = if a_first {
            a.drop_first()
        } else {
            a
        };
        let rb = if a_first {
            b
        } else {
            b.drop_first()
        };
        let h = if a_first {
            a[0]
        } else {
            b[0]
        };
        lemma_merge_asc_props(ra, rb);
        let tail = merge_asc(ra, rb);
        assert(m == seq![h] + tail);
        assert forall|i: int|
            0 <= i < m.len() implies a.contains(#[trigger] m[i]) || b.contains(m[i]) by {
            if i == 0 {
                assert(a.contains(a[0]));
                assert(b.contains(b[0]));
            } else {
                assert(m[i] == tail[i - 1]);
                if ra.contains(tail[i - 1]) {
                    let w = choose|w: int| 0 <= w < ra.len() && ra[w] == tail[i - 1];
                    if a_first {
                        assert(a[w + 1] == tail[i - 1]);
                    }
                } else {
                    assert(rb.contains(tail[i - 1]));
                    let w = choose|w: int| 0 <= w < rb.len() && rb[w] == tail[i - 1];
                    if !a_first {
                        assert(b[w + 1] == tail[i - 1]);
                    }
                }
            }
        }
        if asc_positions(a) && asc_positions(b) {
            assert(asc_positions(ra)) by {
                assert(forall|i: int, j: int|
                    0 <= i < j < a.drop_first().len() ==> a.drop_first()[i] == a[i + 1]
                        && a.drop_first()[j] == a[j + 1]);
            }
            assert(asc_positions(rb)) by {
                assert(forall|i: int, j: int|
                    0 <= i < j < b.drop_first().len() ==> b.drop_first()[i] == b[i + 1]
                        && b.drop_first()[j] == b[j + 1]);
            }
            assert forall|i: int, j: int| 0 <= i < j < m.len() implies m[i] <= m[j] by {
                if i == 0 {
                    assert(m[j] == tail[j - 1]);
                    if ra.contains(tail[j - 1]) {
                        let w = choose|w: int| 0 <= w < ra.len() && ra[w] == tail[j - 1];
                        if a_first {
                            assert(ra[w] == a[w + 1]);
                            assert(a[0] <= a[w + 1]);
                        } else {
                            assert(a[0] <= ra[w]) by {
                                if w > 0 {
                                    assert(a[0] <= a[w]);
                                }
                            }
                            assert(h <= a[0]);
                        }
                    } else {
                        assert(rb.contains(tail[j - 1]));
                        let w = choose|w: int| 0 <= w < rb.len() && rb[w] == tail[j - 1];
                        if a_first {
                            assert(b[0] <= rb[w]) by {
                                if w > 0 {
                                    assert(b[0] <= b[w]);
                                }
                            }
                            assert(h <= b[0]);
                        } else {
                            assert(rb[w] == b[w + 1]);
                            assert(b[0] <= b[w + 1]);
                        }
                    }
                } else {
                    assert(m[i] == tail[i - 1]);
                    assert(m[j] == tail[j - 1]);
                }
            }
        }
    }
}

/// Merge two ascending position lists into one.
fn merge_positions(a: &Vec<usize>, b: &Vec<usize>) -> (r: Vec<usize>)
    ensures
        r@.map_values(|u: usize| u as int) == merge_asc(
            a@.map_values(|u: usize| u as int),
            b@.map_values(|u: usize| u as int),
        ),
{
    let ghost sa = a@.map_values(|u: usize| u as int);
    let ghost sb = b@.map_values(|u: usize| u as int);
    let alen = a.len();
    let blen = b.len();
    let mut out: Vec<usize> = Vec::new();
    let mut i: usize = 0;
    let mut j: usize = 0;
    proof {
        assert(sa.skip(0) =~= sa);
        assert(sb.skip(0) =~= sb);
        assert(merge_asc(sa, sb) =~= Seq::<int>::empty() + merge_asc(sa.skip(0), sb.skip(0)));
    }
    while i < alen || j < blen
        invariant
            alen == a@.len(),
            blen == b@.len(),
            sa == a@.map_values(|u: usize| u as int),
            sb == b@.map_values(|u: usize| u as int),
            i <= alen,
            j <= blen,
            merge_asc(sa, sb) =~= out@.map_values(|u: usize| u as int) + merge_asc(
                sa.skip(i as int),
                sb.skip(j as int),
            ),
        decreases alen - i + blen - j,
    {
        let ghost prev = out@;
        let ghost resta = sa.skip(i as int);
        let ghost restb = sb.skip(j as int);
        let take_a = if i < alen {
            if j < blen {
                a[i] <= b[j]
            } else {
                true
            }
        } else {
            false
        };
        if take_a {
            proof {
                assert(resta[0] == sa[i as int]);
                assert(resta.drop_first() =~= sa.skip(i + 1));
                if j < blen {
                    assert(restb[0] == sb[j as int]);
                    assert(merge_asc(resta, restb) == seq![resta[0]] + merge_asc(
                        resta.drop_first(),
                        restb,
                    ));
                } else {
                    assert(restb =~= Seq::<int>::empty());
                    assert(merge_asc(resta, restb) == resta);
                    assert(merge_asc(resta.drop_first(), restb) == resta.drop_first());
                    assert(resta =~= seq![resta[0]] + resta.drop_first());
                }
            }
            out.push(a[i]);
            proof {
                assert(out@.map_values(|u: usize| u as int) =~= prev.map_values(
                    |u: usize| u as int,
                ).push(sa[i as int]));
                assert((prev.map_values(|u: usize| u as int) + (seq![sa[i as int]] + merge_asc(
                    sa.skip(i + 1),
                    restb,
                ))) =~= (prev.map_values(|u: usize| u as int).push(sa[i as int]) + merge_asc(
                    sa.skip(i + 1),
                    restb,
                )));
            }
            i += 1;
        } else {
            proof {
                assert(j < blen);
                assert(restb[0] == sb[j as int]);
                assert(restb.drop_first() =~= sb.skip(j + 1));
                if i < alen {
                    assert(resta[0] == sa[i as int]);
                    assert(merge_asc(resta, restb) == seq![restb[0]] + merge_asc(
                        resta,
                        restb.drop_first(),
                    ));
                } else {
                    assert(resta =~= Seq::<int>::empty());
                    assert(merge_asc(resta, restb) == restb);
                    assert(merge_asc(resta, restb.drop_first()) == restb.drop_first());
                    assert(restb =~= seq![restb[0]] + restb.drop_first());
                }
            }
            out.push(b[j]);
            proof {
                assert(out@.map_values(|u: usize| u as int) =~= prev.map_values(
                    |u: usize| u as int,
                ).push(sb[j as int]));
                assert((prev.map_values(|u: usize| u as int) + (seq![sb[j as int]] + merge_asc(
                    resta,
                    sb.skip(j + 1),
                ))) =~= (prev.map_values(|u: usize| u as int).push(sb[j as int]) + merge_asc(
                    resta,
                    sb.skip(j + 1),
                )));
            }
            j += 1;
        }
    }
    proof {
        assert(sa.skip(alen as int) =~= Seq::<int>::empty());
        assert(sb.skip(blen as int) =~= Seq::<int>::empty());
        assert(merge_asc(Seq::<int>::empty(), Seq::<int>::empty()) =~= Seq::<int>::empty());
        assert(out@.map_values(|u: usize| u as int) + Seq::<int>::empty() =~= out@.map_values(
            |u: usize| u as int,
        ));
    }
    out
}

/// Every kept position is one of the scanned positions.
proof fn lemma_ok_positions_elements(s: Seq<u8>, ps: Seq<int>, min: u16)
    ensures
        forall|i: int|
            0 <= i < ok_positions(s, ps, min).len() ==> ps.contains(
                #[trigger] ok_positions(s, ps, min)[i],
            ),
    decreases ps.len(),
{
    if ps.len() > 0 {
        lemma_ok_positions_elements(s, ps.drop_last(), min);
        let kept = ok_positions(s, ps, min);
        let prev = ok_positions(s, ps.drop_last(), min);
        assert forall|i: int| 0 <= i < kept.len() implies ps.contains(#[trigger] kept[i]) by {
            if i < prev.len() {
                assert(kept[i] == prev[i]);
                assert(ps.drop_last().contains(prev[i]));
                let w = choose|w: int| 0 <= w < ps.drop_last().len() && ps.drop_last()[w] == prev[i];
                assert(ps[w] == prev[i]);
            } else {
                assert(kept[i] == ps.last());
                assert(ps[ps.len() - 1] == ps.last());
            }
        }
    }
}

/// Filtering an ascending position list keeps it ascending.
proof fn lemma_ok_positions_sorted(s: Seq<u8>, ps: Seq<int>, min: u16)
    requires
        asc_positions(ps),
    ensures
        asc_positions(ok_positions(s, ps, min)),
    decreases ps.len(),
{
    if ps.len() > 0 {
        assert(asc_positions(ps.drop_last())) by {
            assert(forall|i: int|
                0 <= i < ps.drop_last().len() ==> ps.drop_last()[i] == ps[i]);
        }
        lemma_ok_positions_sorted(s, ps.drop_last(), min);
        lemma_ok_positions_elements(s, ps.drop_last(), min);
        let kept = ok_positions(s, ps, min);
        let prev = ok_positions(s, ps.drop_last(), min);
        assert forall|i: int, j: int| 0 <= i < j < kept.len() implies kept[i] <= kept[j] by {
            if j < prev.len() {
                assert(kept[i] == prev[i] && kept[j] == prev[j]);
            } else {
                assert(kept[j] == ps.last());
                assert(kept[i] == prev[i]);
                assert(ps.drop_last().contains(prev[i]));
                let w = choose|w: int| 0 <= w < ps.drop_last().len() && ps.drop_last()[w] == prev[i];
                assert(ps[w] == prev[i]);
                assert(ps[w] <= ps[ps.len() - 1]);
            }
        }
    }
}

/// Collect the lines around the positions that pass the fast status
/// check, appending to `out`.
fn collect_ok_lines(data: &[u8], positions: &Vec<usize>, min: u16, out: &mut Vec<Vec<u8>>)
    requires
        forall|i: int|
            0 <= i < positions@.len() ==> #[trigger] positions@[i] + 3 <= data@.len(),
    ensures
        views_of_vecs(final(out)@) == views_of_vecs(old(out)@) + ok_positions(
            data@,
            positions@.map_values(|u: usize| u as int),
            min,
        ).map_values(|p: int| line_around(data@, p)),
{
    let ghost ps = positions@.map_values(|u: usize| u as int);
    let ghost base = old(out)@;
    let n = positions.len();
    let mut i: usize = 0;
    proof {
        assert(ps.take(0) =~= Seq::<int>::empty());
        assert(views_of_vecs(out@) =~= views_of_vecs(base) + ok_positions(data@, ps.take(0), min)
            .map_values(|p: int| line_around(data@, p)));
    }
    while i < n
        invariant
            n == positions@.len(),
            ps == positions@.map_values(|u: usize| u as int),
            forall|j: int| 0 <= j < n ==> #[trigger] positions@[j] + 3 <= data@.len(),
            i <= n,
            views_of_vecs(out@) == views_of_vecs(base) + ok_positions(data@, ps.take(i as int), min)
                .map_values(|p: int| line_around(data@, p)),
        decreases n - i,
    {
        let p = positions[i];
        proof {
            assert(ps[i as int] == p as int);
            lemma_ok_positions_step(data@, ps, min, i as int);
        }
        if check_fast_pos(data, p, min) {
            let ls = find_line_start(data, p);
            let le = find_line_end(data, p);
            let line = vstd::slice::slice_subrange(data, ls, le);
            let copied = vstd::slice::slice_to_vec(line);
            proof {
                assert(copied@ == line_around(data@, p as int));
                assert(views_of_vecs(out@.push(copied)) =~= views_of_vecs(out@) + seq![copied@]);
                assert(ok_positions(data@, ps.take(i + 1), min).map_values(
                    |q: int| line_around(data@, q),
                ) =~= ok_positions(data@, ps.take(i as int), min).map_values(
                    |q: int| line_around(data@, q),
                ) + seq![line_around(data@, p as int)]);
                assert((views_of_vecs(base) + ok_positions(data@, ps.take(i as int), min)
                    .map_values(|q: int| line_around(data@, q))) + seq![copied@]
                    =~= views_of_vecs(base) + (ok_positions(data@, ps.take(i as int), min)
                    .map_values(|q: int| line_around(data@, q)) + seq![copied@]));
            }
            out.push(copied);
        } else {
            proof {
                assert(ok_positions(data@, ps.take(i + 1), min) =~= ok_positions(
                    data@,
                    ps.take(i as int),
                    min,
                ));
            }
        }
        i += 1;
    }
    proof {
        assert(ps.take(n as int) =~= ps);
    }
}

/// Filter by a minimum status using the grep-like scan: the count of
/// passing `" 4` and `" 5` occurrences, and the enclosing line of each,
/// in file position order.
pub fn fast_filter_status(data: &[u8], min_status: u16) -> (r: (u64, Vec<Vec<u8>>))
    ensures
        ({
            let merged = merge_asc(
                scan_positions(data@, seq![34u8, 32u8, 52u8], 0),
                scan_positions(data@, seq![34u8, 32u8, 53u8], 0),
            );
            let kept = ok_positions(data@, merged, min_status);
            &&& r.0 as int == kept.len()
            &&& views_of_vecs(r.1@) == kept.map_values(|p: int| line_around(data@, p))
            &&& asc_positions(kept)
        }),
{
    let pat4: &'static [u8; 3] = &[34u8, 32u8, 52u8];
    let pat5: &'static [u8; 3] = &[34u8, 32u8, 53u8];
    let s4 = pat4.as_slice();
    let s5 = pat5.as_slice();
    proof {
        assert(s4@ =~= seq![34u8, 32u8, 52u8]);
        assert(s5@ =~= seq![34u8, 32u8, 53u8]);
    }
    let p4 = collect_scan_positions(data, s4);
    let p5 = collect_scan_positions(data, s5);
    let ghost sp4 = scan_positions(data@, seq![34u8, 32u8, 52u8], 0);
    let ghost sp5 = scan_positions(data@, seq![34u8, 32u8, 53u8], 0);
    proof {
        assert(p4@.map_values(|u: usize| u as int) =~= sp4);
        assert(p5@.map_values(|u: usize| u as int) =~= sp5);
        lemma_scan_positions_props(data@, seq![34u8, 32u8, 52u8], 0);
        lemma_scan_positions_props(data@, seq![34u8, 32u8, 53u8], 0);
        lemma_merge_asc_props(sp4, sp5);
    }
    let merged = merge_positions(&p4, &p5);
    proof {
        let mv = merged@.map_values(|u: usize| u as int);
        assert(mv == merge_asc(sp4, sp5));
        assert forall|i: int| 0 <= i < merged@.len() implies #[trigger] merged@[i] + 3
            <= data@.len() by {
            assert(mv[i] == merged@[i] as int);
            if sp4.contains(mv[i]) {
                let w = choose|w: int| 0 <= w < sp4.len() && sp4[w] == mv[i];
                assert(sp4[w] + 3 <= data@.len());
            } else {
                assert(sp5.contains(mv[i]));
                let w = choose|w: int| 0 <= w < sp5.len() && sp5[w] == mv[i];
                assert(sp5[w] + 3 <= data@.len());
            }
        }
        assert(asc_positions(mv));
        lemma_ok_positions_sorted(data@, mv, min_status);
    }
    let mut out: Vec<Vec<u8>> = Vec::new();
    proof {
        let mv = merged@.map_values(|u: usize| u as int);
        assert(views_of_vecs(out@) =~= Seq::<Seq<u8>>::empty());
        assert(Seq::<Seq<u8>>::empty() + ok_positions(data@, mv, min_status).map_values(
            |p: int| line_around(data@, p),
        ) =~= ok_positions(data@, mv, min_status).map_values(|p: int| line_around(data@, p)));
    }
    collect_ok_lines(data, &merged, min_status, &mut out);
    proof {
        let kept = ok_positions(data@, merge_asc(sp4, sp5), min_status);
        assert(views_of_vecs(out@) =~= kept.map_values(|p: int| line_around(data@, p)));
        assert(views_of_vecs(out@).len() == out@.len());
    }
    let count = out.len() as u64;
    (count, out)
}

/// Whether a line has a nonempty fast IP prefix.
pub open spec fn fast_ip_pred(k: Seq<u8>) -> spec_fn(Seq<u8>) -> bool {
    |l: Seq<u8>| fast_ip_of(l).len() > 0 && fast_ip_of(l) == k
}

/// How many lines carry the fast IP prefix `k`.
pub open spec fn fast_ip_count_key(lines: Seq<Seq<u8>>, k: Seq<u8>) -> int {
    count_lines(lines, fast_ip_pred(k)) as int
}

/// Group every line by its IP prefix (the bytes before the first space)
/// and count, sorted descending by count with ties broken by ascending
/// key; lines with an empty prefix are skipped.
pub fn fast_group_by_ip(data: &[u8]) -> (r: Vec<GroupCount>)
    ensures
        gc_sorted(r@),
        gc_keys_unique(r@),
        forall|i: int|
            0 <= i < r@.len() ==> #[trigger] r@[i].count as int == fast_ip_count_key(
                lines_of(data@),
                r@[i].key@,
            ) && r@[i].count >= 1,
        forall|k: Seq<u8>|
            #[trigger] gc_has_key(r@, k) == (fast_ip_count_key(lines_of(data@), k) > 0),
{
    let ls = split_lines(data);
    let ghost lv = views_of(ls@);
    let n = ls.len();
    let mut es: Vec<GroupCount> = Vec::new();
    let mut i: usize = 0;
    proof {
        assert(lv.take(0) =~= Seq::<Seq<u8>>::empty());
        lemma_lines_of_len_le(data@);
        assert(gc_total(es@) == 0);
        assert forall|k: Seq<u8>|
            #[trigger] gc_count(es@, k) == count_lines(lv.take(0), fast_ip_pred(k)) by {}
    }
    while i < n
        invariant
            n == ls@.len(),
            lv == views_of(ls@),
            lv == lines_of(data@),
            lv.len() <= data@.len(),
            i <= n,
            gc_keys_unique(es@),
            gc_counts_pos(es@),
            gc_total(es@) <= i,
            forall|k: Seq<u8>|
                #[trigger] gc_count(es@, k) == count_lines(lv.take(i as int), fast_ip_pred(k)),
            forall|k: Seq<u8>|
                #[trigger] gc_has_key(es@, k) == (count_lines(lv.take(i as int), fast_ip_pred(k))
                    > 0),
        decreases n - i,
    {
        let line = ls[i];
        proof {
            assert(lv[i as int] == line@);
        }
        let key = extract_ip(line);
        let ghost before = es@;
        if key.len() > 0 {
            bump(&mut es, key);
            proof {
                assert forall|k: Seq<u8>|
                    #[trigger] gc_count(es@, k) == count_lines(lv.take(i + 1), fast_ip_pred(k)) by {
                    lemma_count_lines_step(lv, fast_ip_pred(k), i as int);
                }
                assert forall|k: Seq<u8>|
                    #[trigger] gc_has_key(es@, k) == (count_lines(lv.take(i + 1), fast_ip_pred(k))
                        > 0) by {
                    lemma_count_lines_step(lv, fast_ip_pred(k), i as int);
                    lemma_count_lines_le(lv.take(i as int), fast_ip_pred(k));
                }
            }
        } else {
            proof {
                assert forall|k: Seq<u8>|
                    #[trigger] gc_count(es@, k) == count_lines(lv.take(i + 1), fast_ip_pred(k)) by {
                    lemma_count_lines_step(lv, fast_ip_pred(k), i as int);
                }
                assert forall|k: Seq<u8>|
                    #[trigger] gc_has_key(es@, k) == (count_lines(lv.take(i + 1), fast_ip_pred(k))
                        > 0) by {
                    lemma_count_lines_step(lv, fast_ip_pred(k), i as int);
                }
            }
        }
        i += 1;
    }
    proof {
        assert(lv.take(n as int) =~= lv);
    }
    let ghost built = es@;
    let sorted = sort_group_counts(es);
    proof {
        lemma_gc_permutation(built, sorted@);
        assert forall|i2: int|
            0 <= i2 < sorted@.len() implies #[trigger] sorted@[i2].count as int == fast_ip_count_key(
                lines_of(data@),
                sorted@[i2].key@,
            ) && sorted@[i2].count >= 1 by {
            assert(built.contains(sorted@[i2]));
            let j = choose|j: int| 0 <= j < built.len() && built[j] == sorted@[i2];
            crate::groupmap::lemma_gc_entry_count(built, j);
        }
    }
    sorted
}

/// One lazily extracted row: only the requested columns are parsed.
#[derive(Debug)]
pub struct LazyRecord {
    /// The IP prefix, when requested.
    pub ip: Option<Vec<u8>>,
    /// The fast-read status, when requested or filtered on.
    pub status: Option<i32>,
    /// The fast-read path, when requested.
    pub path: Option<Vec<u8>>,
    /// The whole line.
    pub raw: Vec<u8>,
}

/// The views of a lazy record's fields.
pub open spec fn lazy_view(r: LazyRecord) -> (
    Option<Seq<u8>>,
    Option<i32>,
    Option<Seq<u8>>,
    Seq<u8>,
) {
    (
        match r.ip {
            Some(v) => Some(v@),
            None => None,
        },
        r.status,
        match r.path {
            Some(v) => Some(v@),
            None => None,
        },
        r.raw@,
    )
}

/// Which lines survive the lazy parse: nonempty, and past the early
/// status filter when one is given.
pub open spec fn lazy_keep_pred(filt: Option<u16>) -> spec_fn(Seq<u8>) -> bool {
    |l: Seq<u8>|
        l.len() > 0 && (match filt {
            Some(m) => match fast_status_of(l) {
                Some(st) => st >= m,
                None => false,
            },
            None => true,
        })
}

/// The lazily extracted fields of one line.
pub open spec fn lazy_of(
    l: Seq<u8>,
    need_ip: bool,
    need_status: bool,
    need_path: bool,
    filt: Option<u16>,
) -> (Option<Seq<u8>>, Option<i32>, Option<Seq<u8>>, Seq<u8>) {
    (
        if need_ip {
            Some(fast_ip_of(l))
        } else {
            None
        },
        if need_status || filt is Some {
            match fast_status_of(l) {
                Some(st) => Some(st as i32),
                None => None,
            }
        } else {
            None
        },
        if need_path {
            fast_path_of(l)
        } else {
            None
        },
        l,
    )
}

/// Parse with lazy field extraction: keep the nonempty lines that pass
/// the early status filter, extracting only the requested columns.
pub fn parse_lazy(
    data: &[u8],
    need_ip: bool,
    need_status: bool,
    need_path: bool,
    status_filter: Option<u16>,
) -> (r: Vec<LazyRecord>)
    ensures
        ({
            let kept = keep_lines(lines_of(data@), lazy_keep_pred(status_filter));
            r@.len() == kept.len() && (forall|i: int|
                0 <= i < r@.len() ==> #[trigger] lazy_view(r@[i]) == lazy_of(
                    kept[i],
                    need_ip,
                    need_status,
                    need_path,
                    status_filter,
                ))
        }),
{
    let ghost pred = lazy_keep_pred(status_filter);
    let ls = split_lines(data);
    let ghost lv = views_of(ls@);
    let n = ls.len();
    let mut out: Vec<LazyRecord> = Vec::new();
    let mut i: usize = 0;
    proof {
        assert(lv.take(0) =~= Seq::<Seq<u8>>::empty());
    }
    while i < n
        invariant
            n == ls@.len(),
            lv == views_of(ls@),
            lv == lines_of(data@),
            i <= n,
            pred == lazy_keep_pred(status_filter),
            out@.len() == keep_lines(lv.take(i as int), pred).len(),
            forall|j: int|
                0 <= j < out@.len() ==> #[trigger] lazy_view(out@[j]) == lazy_of(
                    keep_lines(lv.take(i as int), pred)[j],
                    need_ip,
                    need_status,
                    need_path,
                    status_filter,
                ),
        decreases n - i,
    {
        let line = ls[i];
        proof {
            assert(lv[i as int] == line@);
            lemma_keep_lines_step(lv, pred, i as int);
        }
        let status = extract_status_fast(line);
        let mut keep = line.len() > 0;
        if keep {
            if let Some(m) = status_filter {
                match status {
                    Some(st) => {
                        if st < m {
                            keep = false;
                        }
                    },
                    None => {
                        keep = false;
                    },
                }
            }
        }
        proof {
            assert(keep == pred(lv[i as int]));
        }
        if keep {
            let ip = if need_ip {
                Some(vstd::slice::slice_to_vec(extract_ip(line)))
            } else {
                None
            };
            let status_field: Option<i32> = if need_status || status_filter.is_some() {
                match status {
                    Some(st) => Some(st as i32),
                    None => None,
                }
            } else {
                None
            };
            let path = if need_path {
                match extract_path_fast(line) {
                    Some(pth) => Some(vstd::slice::slice_to_vec(pth)),
                    None => None,
                }
            } else {
                None
            };
            let raw = vstd::slice::slice_to_vec(line);
            let rec = LazyRecord { ip, status: status_field, path, raw };
            proof {
                assert(lazy_view(rec) == lazy_of(
                    line@,
                    need_ip,
                    need_status,
                    need_path,
                    status_filter,
                ));
                assert(keep_lines(lv.take(i + 1), pred) =~= keep_lines(lv.take(i as int), pred)
                    + seq![line@]);
            }
            out.push(rec);
        } else {
            proof {
                assert(keep_lines(lv.take(i + 1), pred) =~= keep_lines(lv.take(i as int), pred));
            }
        }
        i += 1;
    }
    proof {
        assert(lv.take(n as int) =~= lv);
    }
    out
}

} // verus!
