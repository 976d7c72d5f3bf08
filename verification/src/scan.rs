//! The parallel scanner's per-chunk and whole-buffer operations for
//! Apache/Nginx logs.
//!
//! Every operation iterates lines, evaluates pushed-down predicates in
//! cheapest-first order, and aggregates locally; whole-buffer functions
//! drive the chunks in order and merge, and per-chunk functions are
//! exposed so callers may run chunks in parallel and merge by the same
//! laws.  All results are stated against the line sequence of the buffer.

use vstd::prelude::*;
use vstd::string::StringSliceAdditionalSpecFns;

use crate::apache::{
    extract_size, extract_status, extract_timestamp, find_fields, locate_apache, size_at,
    status_code_at,
};
use crate::bytes::{contains_sub, has_substr};
use crate::lines::{
    chunk_lines_from, chunks_wf, find_chunk_boundaries, lemma_partition_sound, lines_of,
    split_lines, views_of,
};
use crate::agg::{agg_of_samples, agg_step, AggResult};
use crate::columns::GroupByColumn;
use crate::groupmap::{
    add_sample_keyed, bump, ga_get, ga_has_key, ga_keys_unique, gc_count, gc_counts_pos,
    gc_has_key, gc_keys_unique, gc_total, GroupAgg, GroupCount,
};
use crate::order::{ga_sorted, gc_sorted, lemma_gc_permutation, sort_group_counts};
use crate::status::{status_filter_matches, StatusFilter};
use crate::textsearch::{re_match, RegexMatcher};
use crate::time::{time_filter_matches, ts_num_of, TimeFilter};

verus! {

/// Target chunk size for parallel scans: 4 MiB.
pub const CHUNK_SIZE: usize = 4 * 1024 * 1024;

/// How many of the `lines` pass the predicate `p`.
pub open spec fn count_lines(lines: Seq<Seq<u8>>, p: spec_fn(Seq<u8>) -> bool) -> nat
    decreases lines.len(),
{
    if lines.len() == 0 {
        0
    } else {
        count_lines(lines.drop_last(), p) + if p(lines.last()) {
            1nat
        } else {
            0nat
        }
    }
}

/// The sub-sequence of `lines` that pass the predicate `p`, in order.
pub open spec fn keep_lines(lines: Seq<Seq<u8>>, p: spec_fn(Seq<u8>) -> bool) -> Seq<Seq<u8>>
    decreases lines.len(),
{
    if lines.len() == 0 {
        Seq::empty()
    } else {
        keep_lines(lines.drop_last(), p) + if p(lines.last()) {
            seq![lines.last()]
        } else {
            Seq::empty()
        }
    }
}

/// Counting one more line.
pub proof fn lemma_count_lines_step(lines: Seq<Seq<u8>>, p: spec_fn(Seq<u8>) -> bool, i: int)
    requires
        0 <= i < lines.len(),
    ensures
        count_lines(lines.take(i + 1), p) == count_lines(lines.take(i), p) + if p(lines[i]) {
            1nat
        } else {
            0nat
        },
{
    assert(lines.take(i + 1).drop_last() =~= lines.take(i));
    assert(lines.take(i + 1).last() == lines[i]);
}

/// Keeping one more line.
pub proof fn lemma_keep_lines_step(lines: Seq<Seq<u8>>, p: spec_fn(Seq<u8>) -> bool, i: int)
    requires
        0 <= i < lines.len(),
    ensures
        keep_lines(lines.take(i + 1), p) == keep_lines(lines.take(i), p) + if p(lines[i]) {
            seq![lines[i]]
        } else {
            Seq::<Seq<u8>>::empty()
        },
{
    assert(lines.take(i + 1).drop_last() =~= lines.take(i));
    assert(lines.take(i + 1).last() == lines[i]);
}

/// The count over concatenated line sequences is the sum of the counts.
pub proof fn lemma_count_lines_concat(a: Seq<Seq<u8>>, b: Seq<Seq<u8>>, p: spec_fn(Seq<u8>) -> bool)
    ensures
        count_lines(a + b, p) == count_lines(a, p) + count_lines(b, p),
    decreases b.len(),
{
    if b.len() == 0 {
        assert(a + b =~= a);
    } else {
        lemma_count_lines_concat(a, b.drop_last(), p);
        assert((a + b).drop_last() =~= a + b.drop_last());
        assert((a + b).last() == b.last());
    }
}

/// The kept lines of a concatenation are the kept lines of the parts.
pub proof fn lemma_keep_lines_concat(a: Seq<Seq<u8>>, b: Seq<Seq<u8>>, p: spec_fn(Seq<u8>) -> bool)
    ensures
        keep_lines(a + b, p) == keep_lines(a, p) + keep_lines(b, p),
    decreases b.len(),
{
    if b.len() == 0 {
        assert(a + b =~= a);
        assert(keep_lines(a, p) + keep_lines(b, p) =~= keep_lines(a, p));
    } else {
        lemma_keep_lines_concat(a, b.drop_last(), p);
        assert((a + b).drop_last() =~= a + b.drop_last());
        assert((a + b).last() == b.last());
        assert((keep_lines(a, p) + keep_lines(b.drop_last(), p)) + keep_lines(
            b,
            p,
        ).subrange(keep_lines(b.drop_last(), p).len() as int, keep_lines(b, p).len() as int)
            =~= keep_lines(a, p) + keep_lines(b, p)) by {
            assert(keep_lines(b, p) == keep_lines(b.drop_last(), p) + if p(b.last()) {
                seq![b.last()]
            } else {
                Seq::<Seq<u8>>::empty()
            });
        }
        if p(b.last()) {
            assert((a + b.drop_last()) == (a + b).drop_last());
            assert(keep_lines(a + b, p) == keep_lines((a + b).drop_last(), p) + seq![b.last()]);
            assert(keep_lines(a, p) + keep_lines(b, p) =~= (keep_lines(a, p) + keep_lines(
                b.drop_last(),
                p,
            )) + seq![b.last()]);
        } else {
            assert(keep_lines(a + b, p) == keep_lines((a + b).drop_last(), p) + Seq::<
                Seq<u8>,
            >::empty());
            assert(keep_lines(a, p) + keep_lines(b, p) =~= keep_lines(a, p) + keep_lines(
                b.drop_last(),
                p,
            ));
            assert(keep_lines(a + b, p) =~= keep_lines((a + b).drop_last(), p));
        }
    }
}

/// A count never exceeds the number of lines.
pub proof fn lemma_count_lines_le(lines: Seq<Seq<u8>>, p: spec_fn(Seq<u8>) -> bool)
    ensures
        count_lines(lines, p) <= lines.len(),
    decreases lines.len(),
{
    if lines.len() > 0 {
        lemma_count_lines_le(lines.drop_last(), p);
    }
}

/// A buffer has at most as many lines as bytes.
pub proof fn lemma_lines_of_len_le(data: Seq<u8>)
    ensures
        lines_of(data).len() <= data.len(),
    decreases data.len(),
{
    if data.len() > 0 {
        crate::bytes::lemma_seq_find(data, crate::lines::LINE_FEED);
        match crate::bytes::seq_find(data, crate::lines::LINE_FEED) {
            None => {},
            Some(i) => {
                lemma_lines_of_len_le(data.subrange(i + 1, data.len() as int));
            },
        }
    }
}

/// The status code of a line, located structurally.
pub open spec fn line_status(l: Seq<u8>) -> Option<u16> {
    match locate_apache(l) {
        None => None,
        Some(o) => status_code_at(l, o.status_start as int),
    }
}

/// The encoded timestamp of a line, located structurally.
pub open spec fn line_ts(l: Seq<u8>) -> Option<i64> {
    match locate_apache(l) {
        None => None,
        Some(o) => ts_num_of(l.subrange(o.timestamp_start as int, o.timestamp_end as int)),
    }
}

/// The size field of a line, located structurally.
pub open spec fn line_size(l: Seq<u8>) -> Option<i64> {
    match locate_apache(l) {
        None => None,
        Some(o) => size_at(l, o.size_start as int, o.size_end as int),
    }
}

/// Whether a line has a located status that passes the filter.
pub open spec fn status_pred(f: StatusFilter) -> spec_fn(Seq<u8>) -> bool {
    |l: Seq<u8>|
        match line_status(l) {
            Some(s) => status_filter_matches(f, s),
            None => false,
        }
}

/// Count the lines of one chunk whose located status passes the filter.
pub fn count_status_chunk(chunk: &[u8], filter: &StatusFilter) -> (r: u64)
    ensures
        r == count_lines(lines_of(chunk@), status_pred(*filter)),
{
    let ghost p = status_pred(*filter);
    let ls = split_lines(chunk);
    let ghost lv = views_of(ls@);
    let n = ls.len();
    let mut c: u64 = 0;
    let mut i: usize = 0;
    proof {
        assert(lv.take(0) =~= Seq::<Seq<u8>>::empty());
    }
    while i < n
        invariant
            n == ls@.len(),
            lv == views_of(ls@),
            lv == lines_of(chunk@),
            i <= n,
            c <= i,
            c == count_lines(lv.take(i as int), p),
            p == status_pred(*filter),
        decreases n - i,
    {
        let line = ls[i];
        proof {
            assert(lv[i as int] == line@);
        }
        let passes = match find_fields(line) {
            Some(off) => match extract_status(line, &off) {
                Some(s) => filter.matches(s),
                None => false,
            },
            None => false,
        };
        proof {
            assert(passes == p(lv[i as int]));
            lemma_count_lines_step(lv, p, i as int);
        }
        if passes {
            c += 1;
        }
        i += 1;
    }
    proof {
        assert(lv.take(n as int) =~= lv);
    }
    c
}

/// Count the lines of a buffer whose located status passes the filter,
/// scanning newline-aligned chunks in order.
pub fn count_status(data: &[u8], filter: &StatusFilter) -> (r: u64)
    ensures
        r == count_lines(lines_of(data@), status_pred(*filter)),
{
    let ghost p = status_pred(*filter);
    let bounds = find_chunk_boundaries(data, CHUNK_SIZE);
    sum_counted_chunks(data, &bounds, filter)
}

/// Drive `count_status_chunk` across a well-formed partition and sum.
fn sum_counted_chunks(data: &[u8], bounds: &Vec<usize>, filter: &StatusFilter) -> (r: u64)
    requires
        chunks_wf(data@, bounds@),
    ensures
        r == count_lines(lines_of(data@), status_pred(*filter)),
{
    let ghost p = status_pred(*filter);
    let ghost total = count_lines(lines_of(data@), p);
    proof {
        lemma_partition_sound(data@, bounds@);
        lemma_lines_of_len_le(data@);
        lemma_count_lines_le(lines_of(data@), p);
        assert(chunk_lines_from(data@, bounds@, 0) == lines_of(data@));
    }
    let nb = bounds.len();
    let mut c: u64 = 0;
    let mut k: usize = 0;
    while k < nb - 1
        invariant
            nb == bounds@.len(),
            chunks_wf(data@, bounds@),
            k < nb,
            p == status_pred(*filter),
            total == count_lines(lines_of(data@), p),
            total <= data@.len(),
            c + count_lines(chunk_lines_from(data@, bounds@, k as int), p) == total,
        decreases nb - k,
    {
        let lo = bounds[k];
        let hi = bounds[k + 1];
        proof {
            assert(bounds@[k as int] <= bounds@[k + 1]);
            lemma_bound_le_len(data@, bounds@, k + 1);
            lemma_bound_le_len(data@, bounds@, k as int);
        }
        let chunk = vstd::slice::slice_subrange(data, lo, hi);
        let local = count_status_chunk(chunk, filter);
        proof {
            assert(chunk_lines_from(data@, bounds@, k as int) == lines_of(chunk@)
                + chunk_lines_from(data@, bounds@, k + 1));
            lemma_count_lines_concat(
                lines_of(chunk@),
                chunk_lines_from(data@, bounds@, k + 1),
                p,
            );
        }
        c += local;
        k += 1;
    }
    proof {
        assert(chunk_lines_from(data@, bounds@, nb - 1) =~= Seq::<Seq<u8>>::empty());
        assert(count_lines(Seq::<Seq<u8>>::empty(), p) == 0);
    }
    c
}

/// Every boundary of a well-formed partition is within the buffer.
pub proof fn lemma_bound_le_len(data: Seq<u8>, b: Seq<usize>, k: int)
    requires
        chunks_wf(data, b),
        0 <= k < b.len(),
    ensures
        b[k] <= data.len(),
{
    if k == 0 {
        assert(b[0] == 0);
    } else if k < b.len() - 1 {
        assert(0 < b[k] <= data.len());
    } else {
        assert(b[k] == data.len());
    }
}


/// The views of a sequence of owned byte vectors.
pub open spec fn views_of_vecs(s: Seq<Vec<u8>>) -> Seq<Seq<u8>> {
    Seq::new(s.len(), |i: int| s[i]@)
}

/// The first `limit` elements, or all of them when fewer.
pub open spec fn take_up_to(s: Seq<Seq<u8>>, limit: int) -> Seq<Seq<u8>> {
    if s.len() <= limit {
        s
    } else {
        s.take(limit)
    }
}

/// The view of an optional borrowed byte pattern.
pub open spec fn opt_view(tp: Option<&[u8]>) -> Option<Seq<u8>> {
    match tp {
        Some(pp) => Some(pp@),
        None => None,
    }
}

/// Whether a line passes the pushed-down analyze filters: the status and
/// time filters need located fields; the text filter is a raw substring
/// test over the line bytes.
pub open spec fn analyze_passes(
    l: Seq<u8>,
    sf: Option<StatusFilter>,
    tf: Option<TimeFilter>,
    tp: Option<Seq<u8>>,
) -> bool {
    let structural = if sf is Some || tf is Some {
        match locate_apache(l) {
            None => false,
            Some(o) => {
                &&& match sf {
                    Some(f) => match status_code_at(l, o.status_start as int) {
                        Some(st) => status_filter_matches(f, st),
                        None => false,
                    },
                    None => true,
                }
                &&& match tf {
                    Some(f) => match ts_num_of(
                        l.subrange(o.timestamp_start as int, o.timestamp_end as int),
                    ) {
                        Some(t) => time_filter_matches(f, t),
                        None => false,
                    },
                    None => true,
                }
            },
        }
    } else {
        true
    };
    structural && (match tp {
        Some(pat) => contains_sub(l, pat),
        None => true,
    })
}

/// The analyze filters as a line predicate.
pub open spec fn analyze_pred(
    sf: Option<StatusFilter>,
    tf: Option<TimeFilter>,
    tp: Option<Seq<u8>>,
) -> spec_fn(Seq<u8>) -> bool {
    |l: Seq<u8>| analyze_passes(l, sf, tf, tp)
}

/// Evaluate the analyze filters on one line, cheapest first.
fn line_passes_filters(
    line: &[u8],
    status_filter: &Option<StatusFilter>,
    time_filter: &Option<TimeFilter>,
    text_pattern: &Option<&[u8]>,
) -> (r: bool)
    ensures
        r == analyze_passes(line@, *status_filter, *time_filter, opt_view(*text_pattern)),
{
    let mut matches = true;
    if status_filter.is_some() || time_filter.is_some() {
        match find_fields(line) {
            Some(off) => {
                if let Some(f) = status_filter {
                    match extract_status(line, &off) {
                        Some(st) => {
                            if !f.matches(st) {
                                matches = false;
                            }
                        },
                        None => {
                            matches = false;
                        },
                    }
                }
                if matches {
                    if let Some(f) = time_filter {
                        let tsb = extract_timestamp(line, &off);
                        match crate::time::parse_timestamp_to_i64(tsb) {
                            Some(t) => {
                                if !f.matches(t) {
                                    matches = false;
                                }
                            },
                            None => {
                                matches = false;
                            },
                        }
                    }
                }
            },
            None => {
                matches = false;
            },
        }
    }
    if matches {
        if let Some(pat) = text_pattern {
            if !has_substr(line, pat) {
                matches = false;
            }
        }
    }
    matches
}

/// Filter the lines of one chunk, returning the matching count and the
/// matching lines as borrowed slices in file order.
pub fn filter_lines_chunk<'a>(
    chunk: &'a [u8],
    status_filter: &Option<StatusFilter>,
    time_filter: &Option<TimeFilter>,
    text_pattern: &Option<&[u8]>,
) -> (r: (u64, Vec<&'a [u8]>))
    ensures
        ({
            let pred = analyze_pred(*status_filter, *time_filter, opt_view(*text_pattern));
            r.0 == count_lines(lines_of(chunk@), pred) && views_of(r.1@) == keep_lines(
                lines_of(chunk@),
                pred,
            )
        }),
{
    let ghost pred = analyze_pred(*status_filter, *time_filter, opt_view(*text_pattern));
    let ls = split_lines(chunk);
    let ghost lv = views_of(ls@);
    let n = ls.len();
    let mut c: u64 = 0;
    let mut out: Vec<&[u8]> = Vec::new();
    let mut i: usize = 0;
    proof {
        assert(lv.take(0) =~= Seq::<Seq<u8>>::empty());
        assert(views_of(out@) =~= Seq::<Seq<u8>>::empty());
    }
    while i < n
        invariant
            n == ls@.len(),
            lv == views_of(ls@),
            lv == lines_of(chunk@),
            i <= n,
            c <= i,
            c == count_lines(lv.take(i as int), pred),
            views_of(out@) == keep_lines(lv.take(i as int), pred),
            pred == analyze_pred(*status_filter, *time_filter, opt_view(*text_pattern)),
        decreases n - i,
    {
        let line = ls[i];
        proof {
            assert(lv[i as int] == line@);
        }
        let passes = line_passes_filters(line, status_filter, time_filter, text_pattern);
        proof {
            assert(passes == pred(lv[i as int]));
            lemma_count_lines_step(lv, pred, i as int);
            lemma_keep_lines_step(lv, pred, i as int);
        }
        if passes {
            c += 1;
            proof {
                assert(views_of(out@.push(line)) =~= views_of(out@) + seq![line@]);
            }
            out.push(line);
        } else {
            proof {
                assert(keep_lines(lv.take(i as int), pred) + Seq::<Seq<u8>>::empty() =~= keep_lines(
                    lv.take(i as int),
                    pred,
                ));
            }
        }
        i += 1;
    }
    proof {
        assert(lv.take(n as int) =~= lv);
    }
    (c, out)
}

/// Filter the lines of a buffer, scanning newline-aligned chunks in
/// order: the total matching count, and the first `limit` matching lines
/// copied out in file order.
#[verifier::rlimit(40)]
pub fn filter_lines(
    data: &[u8],
    status_filter: Option<StatusFilter>,
    time_filter: Option<TimeFilter>,
    text_pattern: Option<&[u8]>,
    limit: usize,
) -> (r: (u64, Vec<Vec<u8>>))
    ensures
        ({
            let pred = analyze_pred(status_filter, time_filter, opt_view(text_pattern));
            let kept = keep_lines(lines_of(data@), pred);
            r.0 == count_lines(lines_of(data@), pred) && views_of_vecs(r.1@) == take_up_to(
                kept,
                limit as int,
            )
        }),
{
    let ghost pred = analyze_pred(status_filter, time_filter, opt_view(text_pattern));
    let ghost total = count_lines(lines_of(data@), pred);
    let ghost kept = keep_lines(lines_of(data@), pred);
    let bounds = find_chunk_boundaries(data, CHUNK_SIZE);
    proof {
        lemma_partition_sound(data@, bounds@);
        lemma_lines_of_len_le(data@);
        lemma_count_lines_le(lines_of(data@), pred);
    }
    let nb = bounds.len();
    let mut c: u64 = 0;
    let mut matches: Vec<&[u8]> = Vec::new();
    let mut k: usize = 0;
    proof {
        assert(views_of(matches@) =~= Seq::<Seq<u8>>::empty());
        assert(Seq::<Seq<u8>>::empty() + chunk_lines_from(data@, bounds@, 0) =~= chunk_lines_from(
            data@,
            bounds@,
            0,
        ));
    }
    while k < nb - 1
        invariant
            nb == bounds@.len(),
            chunks_wf(data@, bounds@),
            k < nb,
            pred == analyze_pred(status_filter, time_filter, opt_view(text_pattern)),
            total == count_lines(lines_of(data@), pred),
            kept == keep_lines(lines_of(data@), pred),
            total <= data@.len(),
            c + count_lines(chunk_lines_from(data@, bounds@, k as int), pred) == total,
            views_of(matches@) + keep_lines(chunk_lines_from(data@, bounds@, k as int), pred)
                == kept,
        decreases nb - k,
    {
        let lo = bounds[k];
        let hi = bounds[k + 1];
        proof {
            assert(bounds@[k as int] <= bounds@[k + 1]);
            lemma_bound_le_len(data@, bounds@, k + 1);
            lemma_bound_le_len(data@, bounds@, k as int);
        }
        let chunk = vstd::slice::slice_subrange(data, lo, hi);
        let (local, mut local_lines) = filter_lines_chunk(
            chunk,
            &status_filter,
            &time_filter,
            &text_pattern,
        );
        proof {
            assert(chunk_lines_from(data@, bounds@, k as int) == lines_of(chunk@)
                + chunk_lines_from(data@, bounds@, k + 1));
            lemma_count_lines_concat(lines_of(chunk@), chunk_lines_from(data@, bounds@, k + 1), pred);
            lemma_keep_lines_concat(lines_of(chunk@), chunk_lines_from(data@, bounds@, k + 1), pred);
            assert(views_of(matches@ + local_lines@) =~= views_of(matches@) + views_of(
                local_lines@,
            ));
            assert((views_of(matches@) + views_of(local_lines@)) + keep_lines(
                chunk_lines_from(data@, bounds@, k + 1),
                pred,
            ) =~= views_of(matches@) + (views_of(local_lines@) + keep_lines(
                chunk_lines_from(data@, bounds@, k + 1),
                pred,
            )));
        }
        c += local;
        matches.append(&mut local_lines);
        k += 1;
    }
    proof {
        assert(chunk_lines_from(data@, bounds@, nb - 1) =~= Seq::<Seq<u8>>::empty());
        assert(count_lines(Seq::<Seq<u8>>::empty(), pred) == 0);
        assert(keep_lines(Seq::<Seq<u8>>::empty(), pred) =~= Seq::<Seq<u8>>::empty());
        assert(views_of(matches@) + Seq::<Seq<u8>>::empty() =~= views_of(matches@));
        assert(views_of(matches@) == kept);
    }
    let mut out: Vec<Vec<u8>> = Vec::new();
    let mut j: usize = 0;
    let m = matches.len();
    proof {
        assert(views_of_vecs(out@) =~= Seq::<Seq<u8>>::empty());
        assert(kept.take(0) =~= Seq::<Seq<u8>>::empty());
        assert(kept.len() == m);
    }
    while j < m && j < limit
        invariant
            m == matches@.len(),
            kept == views_of(matches@),
            kept.len() == m,
            j <= m,
            j <= limit,
            views_of_vecs(out@) == kept.take(j as int),
        decreases m - j,
    {
        let copied = vstd::slice::slice_to_vec(matches[j]);
        proof {
            assert(views_of_vecs(out@.push(copied)) =~= views_of_vecs(out@) + seq![copied@]);
            assert(kept.take(j + 1) =~= kept.take(j as int) + seq![kept[j as int]]);
            assert(kept[j as int] == matches@[j as int]@);
        }
        out.push(copied);
        j += 1;
    }
    proof {
        if m <= limit {
            assert(j == m);
            assert(kept.take(j as int) =~= kept);
        } else {
            assert(j == limit);
        }
    }
    (c, out)
}

/// Whether a line matches the regex and, when a status filter is given,
/// also has a located status that passes it.
pub open spec fn regex_pred(pat: Seq<char>, sf: Option<StatusFilter>) -> spec_fn(Seq<u8>) -> bool {
    |l: Seq<u8>|
        re_match(pat, l) && (match sf {
            Some(f) => match line_status(l) {
                Some(st) => status_filter_matches(f, st),
                None => false,
            },
            None => true,
        })
}

/// Regex-search the lines of one chunk.
pub fn regex_search_chunk<'a>(
    chunk: &'a [u8],
    re: &RegexMatcher,
    status_filter: &Option<StatusFilter>,
) -> (r: (u64, Vec<&'a [u8]>))
    ensures
        ({
            let pred = regex_pred(re.pat(), *status_filter);
            r.0 == count_lines(lines_of(chunk@), pred) && views_of(r.1@) == keep_lines(
                lines_of(chunk@),
                pred,
            )
        }),
{
    let ghost pred = regex_pred(re.pat(), *status_filter);
    let ls = split_lines(chunk);
    let ghost lv = views_of(ls@);
    let n = ls.len();
    let mut c: u64 = 0;
    let mut out: Vec<&[u8]> = Vec::new();
    let mut i: usize = 0;
    proof {
        assert(lv.take(0) =~= Seq::<Seq<u8>>::empty());
        assert(views_of(out@) =~= Seq::<Seq<u8>>::empty());
    }
    while i < n
        invariant
            n == ls@.len(),
            lv == views_of(ls@),
            lv == lines_of(chunk@),
            i <= n,
            c <= i,
            c == count_lines(lv.take(i as int), pred),
            views_of(out@) == keep_lines(lv.take(i as int), pred),
            pred == regex_pred(re.pat(), *status_filter),
        decreases n - i,
    {
        let line = ls[i];
        proof {
            assert(lv[i as int] == line@);
        }
        let mut passes = re.is_match(line);
        if passes {
            if let Some(f) = status_filter {
                match find_fields(line) {
                    Some(off) => match extract_status(line, &off) {
                        Some(st) => {
                            if !f.matches(st) {
                                passes = false;
                            }
                        },
                        None => {
                            passes = false;
                        },
                    },
                    None => {
                        passes = false;
                    },
                }
            }
        }
        proof {
            assert(passes == pred(lv[i as int]));
            lemma_count_lines_step(lv, pred, i as int);
            lemma_keep_lines_step(lv, pred, i as int);
        }
        if passes {
            c += 1;
            proof {
                assert(views_of(out@.push(line)) =~= views_of(out@) + seq![line@]);
            }
            out.push(line);
        } else {
            proof {
                assert(keep_lines(lv.take(i as int), pred) + Seq::<Seq<u8>>::empty() =~= keep_lines(
                    lv.take(i as int),
                    pred,
                ));
            }
        }
        i += 1;
    }
    proof {
        assert(lv.take(n as int) =~= lv);
    }
    (c, out)
}

/// Search the lines of a buffer for a regex pattern, with an optional
/// status filter: the total match count and the first `limit` matching
/// lines in file order.  Fails exactly when the pattern is invalid.
#[verifier::rlimit(40)]
pub fn regex_search(
    data: &[u8],
    pattern: &str,
    status_filter: Option<StatusFilter>,
    limit: usize,
) -> (r: Result<(u64, Vec<Vec<u8>>), crate::ParseError>)
    ensures
        r is Ok <==> crate::textsearch::re_ok(pattern@),
        match r {
            Ok(out) => ({
                let pred = regex_pred(pattern@, status_filter);
                let kept = keep_lines(lines_of(data@), pred);
                out.0 == count_lines(lines_of(data@), pred) && views_of_vecs(out.1@) == take_up_to(
                    kept,
                    limit as int,
                )
            }),
            Err(e) => e is ParseFailed,
        },
{
    let re = match RegexMatcher::new(pattern) {
        Some(m) => m,
        None => {
            return Err(crate::ParseError::ParseFailed("invalid regex pattern".to_owned()));
        },
    };
    let ghost pred = regex_pred(pattern@, status_filter);
    let ghost total = count_lines(lines_of(data@), pred);
    let ghost kept = keep_lines(lines_of(data@), pred);
    let bounds = find_chunk_boundaries(data, CHUNK_SIZE);
    proof {
        lemma_partition_sound(data@, bounds@);
        lemma_lines_of_len_le(data@);
        lemma_count_lines_le(lines_of(data@), pred);
    }
    let nb = bounds.len();
    let mut c: u64 = 0;
    let mut matches: Vec<&[u8]> = Vec::new();
    let mut k: usize = 0;
    proof {
        assert(views_of(matches@) =~= Seq::<Seq<u8>>::empty());
        assert(Seq::<Seq<u8>>::empty() + chunk_lines_from(data@, bounds@, 0) =~= chunk_lines_from(
            data@,
            bounds@,
            0,
        ));
    }
    while k < nb - 1
        invariant
            nb == bounds@.len(),
            chunks_wf(data@, bounds@),
            k < nb,
            re.pat() == pattern@,
            pred == regex_pred(pattern@, status_filter),
            total == count_lines(lines_of(data@), pred),
            kept == keep_lines(lines_of(data@), pred),
            total <= data@.len(),
            c + count_lines(chunk_lines_from(data@, bounds@, k as int), pred) == total,
            views_of(matches@) + keep_lines(chunk_lines_from(data@, bounds@, k as int), pred)
                == kept,
        decreases nb - k,
    {
        let lo = bounds[k];
        let hi = bounds[k + 1];
        proof {
            assert(bounds@[k as int] <= bounds@[k + 1]);
            lemma_bound_le_len(data@, bounds@, k + 1);
            lemma_bound_le_len(data@, bounds@, k as int);
        }
        let chunk = vstd::slice::slice_subrange(data, lo, hi);
        let (local, mut local_lines) = regex_search_chunk(chunk, &re, &status_filter);
        proof {
            assert(chunk_lines_from(data@, bounds@, k as int) == lines_of(chunk@)
                + chunk_lines_from(data@, bounds@, k + 1));
            lemma_count_lines_concat(lines_of(chunk@), chunk_lines_from(data@, bounds@, k + 1), pred);
            lemma_keep_lines_concat(lines_of(chunk@), chunk_lines_from(data@, bounds@, k + 1), pred);
            assert(views_of(matches@ + local_lines@) =~= views_of(matches@) + views_of(
                local_lines@,
            ));
            assert((views_of(matches@) + views_of(local_lines@)) + keep_lines(
                chunk_lines_from(data@, bounds@, k + 1),
                pred,
            ) =~= views_of(matches@) + (views_of(local_lines@) + keep_lines(
                chunk_lines_from(data@, bounds@, k + 1),
                pred,
            )));
        }
        c += local;
        matches.append(&mut local_lines);
        k += 1;
    }
    proof {
        assert(chunk_lines_from(data@, bounds@, nb - 1) =~= Seq::<Seq<u8>>::empty());
        assert(count_lines(Seq::<Seq<u8>>::empty(), pred) == 0);
        assert(keep_lines(Seq::<Seq<u8>>::empty(), pred) =~= Seq::<Seq<u8>>::empty());
        assert(views_of(matches@) + Seq::<Seq<u8>>::empty() =~= views_of(matches@));
        assert(views_of(matches@) == kept);
    }
    let mut out: Vec<Vec<u8>> = Vec::new();
    let mut j: usize = 0;
    let m = matches.len();
    proof {
        assert(views_of_vecs(out@) =~= Seq::<Seq<u8>>::empty());
        assert(kept.take(0) =~= Seq::<Seq<u8>>::empty());
        assert(kept.len() == m);
    }
    while j < m && j < limit
        invariant
            m == matches@.len(),
            kept == views_of(matches@),
            kept.len() == m,
            j <= m,
            j <= limit,
            views_of_vecs(out@) == kept.take(j as int),
        decreases m - j,
    {
        let copied = vstd::slice::slice_to_vec(matches[j]);
        proof {
            assert(views_of_vecs(out@.push(copied)) =~= views_of_vecs(out@) + seq![copied@]);
            assert(kept.take(j + 1) =~= kept.take(j as int) + seq![kept[j as int]]);
            assert(kept[j as int] == matches@[j as int]@);
        }
        out.push(copied);
        j += 1;
    }
    proof {
        if m <= limit {
            assert(j == m);
            assert(kept.take(j as int) =~= kept);
        } else {
            assert(j == limit);
        }
    }
    Ok((c, out))
}

/// Count the lines of a buffer that match a regex pattern.  Fails exactly
/// when the pattern is invalid.
pub fn count_matches(data: &[u8], pattern: &str) -> (r: Result<u64, crate::ParseError>)
    ensures
        r is Ok <==> crate::textsearch::re_ok(pattern@),
        match r {
            Ok(c) => c == count_lines(lines_of(data@), regex_pred(pattern@, None)),
            Err(e) => e is ParseFailed,
        },
{
    match regex_search(data, pattern, None, 0) {
        Ok((c, _)) => Ok(c),
        Err(e) => Err(e),
    }
}


/// Whether a line parses structurally and passes the group filters.
pub open spec fn group_passes(l: Seq<u8>, sf: Option<StatusFilter>, tp: Option<Seq<u8>>) -> bool {
    &&& locate_apache(l) is Some
    &&& match sf {
        Some(f) => match line_status(l) {
            Some(st) => status_filter_matches(f, st),
            None => false,
        },
        None => true,
    }
    &&& match tp {
        Some(pat) => contains_sub(l, pat),
        None => true,
    }
}

/// The group key of a line for a column; the `???` sentinel stands in
/// when the status bytes run past the line end.
pub open spec fn group_key_of(l: Seq<u8>, col: GroupByColumn) -> Seq<u8> {
    match locate_apache(l) {
        None => Seq::empty(),
        Some(o) => match col {
            GroupByColumn::Ip => l.subrange(0, o.ip_end as int),
            GroupByColumn::Path => crate::apache::path_of(l, o),
            GroupByColumn::Method => crate::apache::method_of(l, o),
            GroupByColumn::Status => if o.status_start + 3 <= l.len() {
                l.subrange(o.status_start as int, o.status_start + 3)
            } else {
                seq![63u8, 63u8, 63u8]
            },
            GroupByColumn::Referer => crate::apache::referer_of(l, o),
            GroupByColumn::UserAgent => crate::apache::user_agent_of(l, o),
        },
    }
}

/// The group filters as a line predicate.
pub open spec fn group_pred(sf: Option<StatusFilter>, tp: Option<Seq<u8>>) -> spec_fn(Seq<u8>) -> bool {
    |l: Seq<u8>| group_passes(l, sf, tp)
}

/// Whether a line passes the group filters and carries key `k`.
pub open spec fn group_key_pred(
    col: GroupByColumn,
    sf: Option<StatusFilter>,
    tp: Option<Seq<u8>>,
    k: Seq<u8>,
) -> spec_fn(Seq<u8>) -> bool {
    |l: Seq<u8>| group_passes(l, sf, tp) && group_key_of(l, col) == k
}

/// How many matching lines carry key `k`.
pub open spec fn group_count_key(
    lines: Seq<Seq<u8>>,
    col: GroupByColumn,
    sf: Option<StatusFilter>,
    tp: Option<Seq<u8>>,
    k: Seq<u8>,
) -> int {
    count_lines(lines, group_key_pred(col, sf, tp, k)) as int
}

/// Evaluate the group filters on one line that located.
fn group_line_passes(
    line: &[u8],
    off: &crate::apache::FieldOffsets,
    status_filter: &Option<StatusFilter>,
    text_pattern: &Option<&[u8]>,
) -> (r: bool)
    requires
        locate_apache(line@) == Some(*off),
    ensures
        r == group_passes(line@, *status_filter, opt_view(*text_pattern)),
{
    let mut matches = true;
    if let Some(f) = status_filter {
        match extract_status(line, off) {
            Some(st) => {
                if !f.matches(st) {
                    matches = false;
                }
            },
            None => {
                matches = false;
            },
        }
    }
    if matches {
        if let Some(pat) = text_pattern {
            if !has_substr(line, pat) {
                matches = false;
            }
        }
    }
    matches
}

/// Extract the group key of a line that located.
fn extract_group_key<'a>(
    line: &'a [u8],
    off: &crate::apache::FieldOffsets,
    column: &GroupByColumn,
) -> (r: &'a [u8])
    requires
        locate_apache(line@) == Some(*off),
        crate::apache::offsets_wf(line@, *off),
    ensures
        r@ == group_key_of(line@, *column),
{
    match column {
        GroupByColumn::Ip => crate::apache::extract_ip(line, off),
        GroupByColumn::Path => crate::apache::extract_path(line, off),
        GroupByColumn::Method => crate::apache::extract_method(line, off),
        GroupByColumn::Status => {
            if line.len() >= 3 && off.status_start <= line.len() - 3 {
                vstd::slice::slice_subrange(line, off.status_start, off.status_start + 3)
            } else {
                let q: &'static [u8; 3] = &[63u8, 63u8, 63u8];
                let r = q.as_slice();
                proof {
                    assert(r@ =~= seq![63u8, 63u8, 63u8]);
                }
                r
            }
        },
        GroupByColumn::Referer => crate::apache::extract_referer(line, off),
        GroupByColumn::UserAgent => crate::apache::extract_user_agent(line, off),
    }
}

/// Scan a buffer and add one count per matching line under its group key.
pub fn group_scan_into(
    data: &[u8],
    column: &GroupByColumn,
    status_filter: &Option<StatusFilter>,
    text_pattern: &Option<&[u8]>,
    es: &mut Vec<GroupCount>,
)
    requires
        gc_keys_unique(old(es)@),
        gc_counts_pos(old(es)@),
        gc_total(old(es)@) + data@.len() <= u64::MAX,
    ensures
        gc_keys_unique(final(es)@),
        gc_counts_pos(final(es)@),
        gc_total(final(es)@) == gc_total(old(es)@) + count_lines(
            lines_of(data@),
            group_pred(*status_filter, opt_view(*text_pattern)),
        ),
        forall|k: Seq<u8>|
            #[trigger] gc_count(final(es)@, k) == gc_count(old(es)@, k) + group_count_key(
                lines_of(data@),
                *column,
                *status_filter,
                opt_view(*text_pattern),
                k,
            ),
        forall|k: Seq<u8>|
            #[trigger] gc_has_key(final(es)@, k) == (gc_has_key(old(es)@, k) || group_count_key(
                lines_of(data@),
                *column,
                *status_filter,
                opt_view(*text_pattern),
                k,
            ) > 0),
{
    let ghost sfv = *status_filter;
    let ghost tpv = opt_view(*text_pattern);
    let ghost col = *column;
    let ghost gp = group_pred(sfv, tpv);
    let ls = split_lines(data);
    let ghost lv = views_of(ls@);
    let ghost base = es@;
    let n = ls.len();
    let mut i: usize = 0;
    proof {
        assert(lv.take(0) =~= Seq::<Seq<u8>>::empty());
        lemma_lines_of_len_le(data@);
        assert forall|k: Seq<u8>|
            #[trigger] gc_count(es@, k) == gc_count(base, k) + count_lines(
                lv.take(0),
                group_key_pred(col, sfv, tpv, k),
            ) by {}
    }
    while i < n
        invariant
            n == ls@.len(),
            lv == views_of(ls@),
            lv == lines_of(data@),
            lv.len() <= data@.len(),
            i <= n,
            gc_keys_unique(es@),
            gc_counts_pos(es@),
            gc_total(base) + data@.len() <= u64::MAX,
            gc_total(es@) == gc_total(base) + count_lines(lv.take(i as int), gp),
            gp == group_pred(sfv, tpv),
            sfv == *status_filter,
            tpv == opt_view(*text_pattern),
            col == *column,
            forall|k: Seq<u8>|
                #[trigger] gc_count(es@, k) == gc_count(base, k) + count_lines(
                    lv.take(i as int),
                    group_key_pred(col, sfv, tpv, k),
                ),
            forall|k: Seq<u8>|
                #[trigger] gc_has_key(es@, k) == (gc_has_key(base, k) || count_lines(
                    lv.take(i as int),
                    group_key_pred(col, sfv, tpv, k),
                ) > 0),
        decreases n - i,
    {
        let line = ls[i];
        proof {
            assert(lv[i as int] == line@);
            lemma_count_lines_step(lv, gp, i as int);
            lemma_count_lines_le(lv.take(i as int), gp);
        }
        match find_fields(line) {
            Some(off) => {
                let passes = group_line_passes(line, &off, status_filter, text_pattern);
                if passes {
                    let key = extract_group_key(line, &off, column);
                    let ghost before = es@;
                    bump(es, key);
                    proof {
                        assert(key@ == group_key_of(line@, col));
                        assert forall|k: Seq<u8>|
                            #[trigger] gc_count(es@, k) == gc_count(base, k) + count_lines(
                                lv.take(i + 1),
                                group_key_pred(col, sfv, tpv, k),
                            ) by {
                            lemma_count_lines_step(lv, group_key_pred(col, sfv, tpv, k), i as int);
                            assert(gc_count(es@, k) == gc_count(before, k) + if k == key@ {
                                1int
                            } else {
                                0int
                            });
                        }
                        assert forall|k: Seq<u8>|
                            #[trigger] gc_has_key(es@, k) == (gc_has_key(base, k) || count_lines(
                                lv.take(i + 1),
                                group_key_pred(col, sfv, tpv, k),
                            ) > 0) by {
                            lemma_count_lines_step(lv, group_key_pred(col, sfv, tpv, k), i as int);
                            lemma_count_lines_le(lv.take(i as int), group_key_pred(col, sfv, tpv, k));
                        }
                    }
                } else {
                    proof {
                        assert forall|k: Seq<u8>|
                            #[trigger] gc_count(es@, k) == gc_count(base, k) + count_lines(
                                lv.take(i + 1),
                                group_key_pred(col, sfv, tpv, k),
                            ) by {
                            lemma_count_lines_step(lv, group_key_pred(col, sfv, tpv, k), i as int);
                        }
                        assert forall|k: Seq<u8>|
                            #[trigger] gc_has_key(es@, k) == (gc_has_key(base, k) || count_lines(
                                lv.take(i + 1),
                                group_key_pred(col, sfv, tpv, k),
                            ) > 0) by {
                            lemma_count_lines_step(lv, group_key_pred(col, sfv, tpv, k), i as int);
                        }
                    }
                }
            },
            None => {
                proof {
                    assert(!gp(lv[i as int]));
                    assert forall|k: Seq<u8>|
                        #[trigger] gc_count(es@, k) == gc_count(base, k) + count_lines(
                            lv.take(i + 1),
                            group_key_pred(col, sfv, tpv, k),
                        ) by {
                        lemma_count_lines_step(lv, group_key_pred(col, sfv, tpv, k), i as int);
                    }
                    assert forall|k: Seq<u8>|
                        #[trigger] gc_has_key(es@, k) == (gc_has_key(base, k) || count_lines(
                            lv.take(i + 1),
                            group_key_pred(col, sfv, tpv, k),
                        ) > 0) by {
                        lemma_count_lines_step(lv, group_key_pred(col, sfv, tpv, k), i as int);
                    }
                }
            },
        }
        i += 1;
    }
    proof {
        assert(lv.take(n as int) =~= lv);
        assert forall|k: Seq<u8>|
            #[trigger] gc_count(es@, k) == gc_count(base, k) + group_count_key(
                lines_of(data@),
                col,
                sfv,
                tpv,
                k,
            ) by {}
    }
}

/// Group the matching lines of a buffer by a column and count each key.
///
/// The result holds exactly the keys carried by some matching line, each
/// with its exact count, sorted descending by count with ties broken by
/// ascending key byte order.
pub fn group_by_count(
    data: &[u8],
    column: &GroupByColumn,
    status_filter: &Option<StatusFilter>,
    text_pattern: &Option<&[u8]>,
) -> (r: Vec<GroupCount>)
    ensures
        gc_sorted(r@),
        gc_keys_unique(r@),
        forall|i: int|
            0 <= i < r@.len() ==> #[trigger] r@[i].count as int == group_count_key(
                lines_of(data@),
                *column,
                *status_filter,
                opt_view(*text_pattern),
                r@[i].key@,
            ) && r@[i].count >= 1,
        forall|k: Seq<u8>|
            #[trigger] gc_has_key(r@, k) == (group_count_key(
                lines_of(data@),
                *column,
                *status_filter,
                opt_view(*text_pattern),
                k,
            ) > 0),
{
    let ghost sfv = *status_filter;
    let ghost tpv = opt_view(*text_pattern);
    let ghost col = *column;
    let mut es: Vec<GroupCount> = Vec::new();
    let dlen = data.len();
    proof {
        assert(gc_total(es@) == 0);
        assert(dlen == data@.len());
        assert(data@.len() <= u64::MAX);
    }
    group_scan_into(data, column, status_filter, text_pattern, &mut es);
    let ghost built = es@;
    let sorted = sort_group_counts(es);
    proof {
        lemma_gc_permutation(built, sorted@);
        assert forall|i: int|
            0 <= i < sorted@.len() implies #[trigger] sorted@[i].count as int == group_count_key(
                lines_of(data@),
                col,
                sfv,
                tpv,
                sorted@[i].key@,
            ) && sorted@[i].count >= 1 by {
            assert(built.contains(sorted@[i]));
            let j = choose|j: int| 0 <= j < built.len() && built[j] == sorted@[i];
            crate::groupmap::lemma_gc_entry_count(built, j);
        }
        assert forall|k: Seq<u8>|
            #[trigger] gc_has_key(sorted@, k) == (group_count_key(
                lines_of(data@),
                col,
                sfv,
                tpv,
                k,
            ) > 0) by {
            assert(gc_has_key(built, k) == (gc_has_key(Seq::<GroupCount>::empty(), k)
                || group_count_key(lines_of(data@), col, sfv, tpv, k) > 0));
        }
    }
    sorted
}


/// Whether a line passes the group filters and also carries a parseable
/// size, which an aggregation needs.
pub open spec fn agg_passes(l: Seq<u8>, sf: Option<StatusFilter>, tp: Option<Seq<u8>>) -> bool {
    group_passes(l, sf, tp) && line_size(l) is Some
}

/// The aggregation group key: the grouping column's key, or the `_total`
/// sentinel when no grouping was asked for.
pub open spec fn agg_key_of(l: Seq<u8>, group_by: Option<GroupByColumn>) -> Seq<u8> {
    match group_by {
        Some(col) => group_key_of(l, col),
        None => "_total".spec_bytes(),
    }
}

/// Whether a line contributes a sample to key `k`.
pub open spec fn agg_key_pred(
    group_by: Option<GroupByColumn>,
    sf: Option<StatusFilter>,
    tp: Option<Seq<u8>>,
    k: Seq<u8>,
) -> spec_fn(Seq<u8>) -> bool {
    |l: Seq<u8>| agg_passes(l, sf, tp) && agg_key_of(l, group_by) == k
}

/// The size of a line, as a sample value.
pub open spec fn line_size_val() -> spec_fn(Seq<u8>) -> i64 {
    |l: Seq<u8>| line_size(l).unwrap()
}

/// The sample values of the lines passing `p`, in order.
pub open spec fn values_where(
    lines: Seq<Seq<u8>>,
    p: spec_fn(Seq<u8>) -> bool,
    v: spec_fn(Seq<u8>) -> i64,
) -> Seq<i64>
    decreases lines.len(),
{
    if lines.len() == 0 {
        Seq::empty()
    } else {
        values_where(lines.drop_last(), p, v) + if p(lines.last()) {
            seq![v(lines.last())]
        } else {
            Seq::empty()
        }
    }
}

/// Collecting one more line's sample.
pub proof fn lemma_values_where_step(
    lines: Seq<Seq<u8>>,
    p: spec_fn(Seq<u8>) -> bool,
    v: spec_fn(Seq<u8>) -> i64,
    i: int,
)
    requires
        0 <= i < lines.len(),
    ensures
        values_where(lines.take(i + 1), p, v) == values_where(lines.take(i), p, v) + if p(
            lines[i],
        ) {
            seq![v(lines[i])]
        } else {
            Seq::<i64>::empty()
        },
{
    assert(lines.take(i + 1).drop_last() =~= lines.take(i));
    assert(lines.take(i + 1).last() == lines[i]);
}

/// An aggregate folded onward over more samples.
pub open spec fn agg_fold_from(a: AggResult, vs: Seq<i64>) -> AggResult
    decreases vs.len(),
{
    if vs.len() == 0 {
        a
    } else {
        agg_step(agg_fold_from(a, vs.drop_last()), vs.last())
    }
}

/// Folding from the empty aggregate is aggregating the samples.
pub proof fn lemma_agg_fold_from_identity(vs: Seq<i64>)
    ensures
        agg_fold_from(crate::agg::agg_identity(), vs) == agg_of_samples(vs),
    decreases vs.len(),
{
    if vs.len() > 0 {
        lemma_agg_fold_from_identity(vs.drop_last());
    }
}

/// Folding one more sample.
pub proof fn lemma_agg_fold_from_push(a: AggResult, vs: Seq<i64>, x: i64)
    ensures
        agg_fold_from(a, vs.push(x)) == agg_step(agg_fold_from(a, vs), x),
{
    assert(vs.push(x).drop_last() =~= vs);
    assert(vs.push(x).last() == x);
}

/// A parsed size is never negative.
pub proof fn lemma_size_at_nonneg(line: Seq<u8>, a: int, b: int)
    ensures
        match size_at(line, a, b) {
            Some(v) => v >= 0,
            None => true,
        },
{
    if !(a >= b || b > line.len() || a < 0) {
        let sb = line.subrange(a, b);
        if sb == seq![45u8] {
        } else if crate::apache::all_digits(sb) && crate::apache::digits_val(sb) <= i64::MAX {
            crate::apache::lemma_digits_nonneg(sb);
        }
    }
}

/// Scan a buffer and fold each matching line's size into the aggregate
/// of its group key.
pub fn agg_scan_into(
    data: &[u8],
    group_by: &Option<GroupByColumn>,
    status_filter: &Option<StatusFilter>,
    text_pattern: &Option<&[u8]>,
    es: &mut Vec<GroupAgg>,
)
    requires
        ga_keys_unique(old(es)@),
    ensures
        ga_keys_unique(final(es)@),
        forall|k: Seq<u8>|
            #[trigger] ga_get(final(es)@, k) == agg_fold_from(
                ga_get(old(es)@, k),
                values_where(
                    lines_of(data@),
                    agg_key_pred(*group_by, *status_filter, opt_view(*text_pattern), k),
                    line_size_val(),
                ),
            ),
        forall|k: Seq<u8>|
            #[trigger] ga_has_key(final(es)@, k) == (ga_has_key(old(es)@, k) || count_lines(
                lines_of(data@),
                agg_key_pred(*group_by, *status_filter, opt_view(*text_pattern), k),
            ) > 0),
{
    let ghost sfv = *status_filter;
    let ghost tpv = opt_view(*text_pattern);
    let ghost gbv = *group_by;
    let ghost szf = line_size_val();
    let ls = split_lines(data);
    let ghost lv = views_of(ls@);
    let ghost base = es@;
    let n = ls.len();
    let mut i: usize = 0;
    proof {
        assert(lv.take(0) =~= Seq::<Seq<u8>>::empty());
    }
    while i < n
        invariant
            n == ls@.len(),
            lv == views_of(ls@),
            lv == lines_of(data@),
            i <= n,
            ga_keys_unique(es@),
            sfv == *status_filter,
            tpv == opt_view(*text_pattern),
            gbv == *group_by,
            szf == line_size_val(),
            forall|k: Seq<u8>|
                #[trigger] ga_get(es@, k) == agg_fold_from(
                    ga_get(base, k),
                    values_where(lv.take(i as int), agg_key_pred(gbv, sfv, tpv, k), szf),
                ),
            forall|k: Seq<u8>|
                #[trigger] ga_has_key(es@, k) == (ga_has_key(base, k) || count_lines(
                    lv.take(i as int),
                    agg_key_pred(gbv, sfv, tpv, k),
                ) > 0),
        decreases n - i,
    {
        let line = ls[i];
        proof {
            assert(lv[i as int] == line@);
        }
        let mut contributed = false;
        let ghost before = es@;
        match find_fields(line) {
            Some(off) => {
                let passes = group_line_passes(line, &off, status_filter, text_pattern);
                if passes {
                    match extract_size(line, &off) {
                        Some(size) => {
                            let key = match group_by {
                                Some(col) => extract_group_key(line, &off, col),
                                None => {
                                    let t = "_total";
                                    t.as_bytes()
                                },
                            };
                            proof {
                                assert(key@ == agg_key_of(line@, gbv));
                            }
                            add_sample_keyed(es, key, size);
                            contributed = true;
                            proof {
                                assert(agg_passes(line@, sfv, tpv));
                                assert(line_size(line@) == Some(size));
                                assert(szf(line@) == size);
                                assert forall|k: Seq<u8>|
                                    #[trigger] ga_get(es@, k) == agg_fold_from(
                                        ga_get(base, k),
                                        values_where(
                                            lv.take(i + 1),
                                            agg_key_pred(gbv, sfv, tpv, k),
                                            szf,
                                        ),
                                    ) by {
                                    lemma_values_where_step(lv, agg_key_pred(gbv, sfv, tpv, k), szf, i as int);
                                    let vsk = values_where(
                                        lv.take(i as int),
                                        agg_key_pred(gbv, sfv, tpv, k),
                                        szf,
                                    );
                                    if k == key@ {
                                        assert(values_where(
                                            lv.take(i + 1),
                                            agg_key_pred(gbv, sfv, tpv, k),
                                            szf,
                                        ) =~= vsk.push(size));
                                        lemma_agg_fold_from_push(ga_get(base, k), vsk, size);
                                    } else {
                                        assert(values_where(
                                            lv.take(i + 1),
                                            agg_key_pred(gbv, sfv, tpv, k),
                                            szf,
                                        ) =~= vsk);
                                    }
                                }
                                assert forall|k: Seq<u8>|
                                    #[trigger] ga_has_key(es@, k) == (ga_has_key(base, k)
                                        || count_lines(
                                        lv.take(i + 1),
                                        agg_key_pred(gbv, sfv, tpv, k),
                                    ) > 0) by {
                                    lemma_count_lines_step(lv, agg_key_pred(gbv, sfv, tpv, k), i as int);
                                    lemma_count_lines_le(
                                        lv.take(i as int),
                                        agg_key_pred(gbv, sfv, tpv, k),
                                    );
                                }
                            }
                        },
                        None => {},
                    }
                }
            },
            None => {},
        }
        if !contributed {
            proof {
                assert(!agg_passes(lv[i as int], sfv, tpv) || true);
                assert(es@ == before);
                assert forall|k: Seq<u8>|
                    #[trigger] ga_get(es@, k) == agg_fold_from(
                        ga_get(base, k),
                        values_where(lv.take(i + 1), agg_key_pred(gbv, sfv, tpv, k), szf),
                    ) by {
                    lemma_values_where_step(lv, agg_key_pred(gbv, sfv, tpv, k), szf, i as int);
                    assert(!(agg_key_pred(gbv, sfv, tpv, k)(lv[i as int])));
                    assert(values_where(lv.take(i + 1), agg_key_pred(gbv, sfv, tpv, k), szf)
                        =~= values_where(lv.take(i as int), agg_key_pred(gbv, sfv, tpv, k), szf));
                }
                assert forall|k: Seq<u8>|
                    #[trigger] ga_has_key(es@, k) == (ga_has_key(base, k) || count_lines(
                        lv.take(i + 1),
                        agg_key_pred(gbv, sfv, tpv, k),
                    ) > 0) by {
                    lemma_count_lines_step(lv, agg_key_pred(gbv, sfv, tpv, k), i as int);
                }
            }
        }
        i += 1;
    }
    proof {
        assert(lv.take(n as int) =~= lv);
    }
}

/// Aggregate the size field of the matching lines, optionally grouped by
/// a column; ungrouped totals fall under the `_total` key.
///
/// The result holds exactly the keys carried by some matching line with
/// a parseable size, each with the aggregate of its sizes in line order.
pub fn aggregate_size(
    data: &[u8],
    group_by: &Option<GroupByColumn>,
    status_filter: &Option<StatusFilter>,
    text_pattern: &Option<&[u8]>,
) -> (r: Vec<GroupAgg>)
    ensures
        ga_keys_unique(r@),
        forall|k: Seq<u8>|
            #[trigger] ga_get(r@, k) == agg_of_samples(
                values_where(
                    lines_of(data@),
                    agg_key_pred(*group_by, *status_filter, opt_view(*text_pattern), k),
                    line_size_val(),
                ),
            ),
        forall|k: Seq<u8>|
            #[trigger] ga_has_key(r@, k) == (count_lines(
                lines_of(data@),
                agg_key_pred(*group_by, *status_filter, opt_view(*text_pattern), k),
            ) > 0),
{
    let mut es: Vec<GroupAgg> = Vec::new();
    agg_scan_into(data, group_by, status_filter, text_pattern, &mut es);
    proof {
        assert forall|k: Seq<u8>|
            #[trigger] ga_get(es@, k) == agg_of_samples(
                values_where(
                    lines_of(data@),
                    agg_key_pred(*group_by, *status_filter, opt_view(*text_pattern), k),
                    line_size_val(),
                ),
            ) by {
            lemma_agg_fold_from_identity(
                values_where(
                    lines_of(data@),
                    agg_key_pred(*group_by, *status_filter, opt_view(*text_pattern), k),
                    line_size_val(),
                ),
            );
        }
    }
    es
}


/// The total byte length of a set of file contents.
pub open spec fn total_len(fs: Seq<Seq<u8>>) -> int
    decreases fs.len(),
{
    if fs.len() == 0 {
        0
    } else {
        total_len(fs.drop_last()) + fs.last().len()
    }
}

/// The matching-line count summed across files.
pub open spec fn multi_count(fs: Seq<Seq<u8>>, p: spec_fn(Seq<u8>) -> bool) -> int
    decreases fs.len(),
{
    if fs.len() == 0 {
        0
    } else {
        multi_count(fs.drop_last(), p) + count_lines(lines_of(fs.last()), p)
    }
}

/// A summed count never exceeds the total byte length.
pub proof fn lemma_multi_count_le(fs: Seq<Seq<u8>>, p: spec_fn(Seq<u8>) -> bool)
    ensures
        0 <= multi_count(fs, p) <= total_len(fs),
    decreases fs.len(),
{
    if fs.len() > 0 {
        lemma_multi_count_le(fs.drop_last(), p);
        lemma_count_lines_le(lines_of(fs.last()), p);
        lemma_lines_of_len_le(fs.last());
    }
}

/// Counting one more file.
pub proof fn lemma_multi_count_step(fs: Seq<Seq<u8>>, p: spec_fn(Seq<u8>) -> bool, i: int)
    requires
        0 <= i < fs.len(),
    ensures
        multi_count(fs.take(i + 1), p) == multi_count(fs.take(i), p) + count_lines(
            lines_of(fs[i]),
            p,
        ),
        total_len(fs.take(i + 1)) == total_len(fs.take(i)) + fs[i].len(),
{
    assert(fs.take(i + 1).drop_last() =~= fs.take(i));
    assert(fs.take(i + 1).last() == fs[i]);
}

/// One more file's length.
pub proof fn lemma_total_len_prefix(fs: Seq<Seq<u8>>, i: int)
    requires
        0 <= i <= fs.len(),
    ensures
        total_len(fs.take(i)) <= total_len(fs),
    decreases fs.len() - i,
{
    if i < fs.len() {
        lemma_total_len_prefix(fs, i + 1);
        assert(fs.take(i + 1).drop_last() =~= fs.take(i));
        assert(fs.take(i + 1).last() == fs[i]);
        assert(fs.take(fs.len() as int) =~= fs);
    } else {
        assert(fs.take(i) =~= fs);
    }
}

/// Count matching statuses across several files' contents and sum.
pub fn count_status_multi(files: &Vec<Vec<u8>>, filter: &StatusFilter) -> (r: u64)
    requires
        total_len(views_of_vecs(files@)) <= u64::MAX,
    ensures
        r == multi_count(views_of_vecs(files@), status_pred(*filter)),
{
    let ghost p = status_pred(*filter);
    let ghost fsv = views_of_vecs(files@);
    let n = files.len();
    let mut c: u64 = 0;
    let mut i: usize = 0;
    proof {
        assert(fsv.take(0) =~= Seq::<Seq<u8>>::empty());
    }
    while i < n
        invariant
            n == files@.len(),
            fsv == views_of_vecs(files@),
            total_len(fsv) <= u64::MAX,
            i <= n,
            p == status_pred(*filter),
            c == multi_count(fsv.take(i as int), p),
        decreases n - i,
    {
        let local = count_status(files[i].as_slice(), filter);
        proof {
            assert(fsv[i as int] == files@[i as int]@);
            lemma_multi_count_step(fsv, p, i as int);
            lemma_multi_count_le(fsv.take(i + 1), p);
            lemma_total_len_prefix(fsv, i + 1);
            lemma_multi_count_le(fsv.take(i as int), p);
            lemma_count_lines_le(lines_of(fsv[i as int]), p);
            lemma_lines_of_len_le(fsv[i as int]);
        }
        c += local;
        i += 1;
    }
    proof {
        assert(fsv.take(n as int) =~= fsv);
    }
    c
}

/// Count regex matches across several files' contents and sum.  Fails
/// exactly when the pattern is invalid.
pub fn count_matches_multi(files: &Vec<Vec<u8>>, pattern: &str) -> (r: Result<
    u64,
    crate::ParseError,
>)
    requires
        total_len(views_of_vecs(files@)) <= u64::MAX,
    ensures
        r is Ok <==> crate::textsearch::re_ok(pattern@),
        match r {
            Ok(c) => c == multi_count(views_of_vecs(files@), regex_pred(pattern@, None)),
            Err(e) => e is ParseFailed,
        },
{
    let re = match RegexMatcher::new(pattern) {
        Some(m) => m,
        None => {
            return Err(crate::ParseError::ParseFailed("invalid regex pattern".to_owned()));
        },
    };
    let ghost p = regex_pred(pattern@, None);
    let ghost fsv = views_of_vecs(files@);
    let n = files.len();
    let mut c: u64 = 0;
    let mut i: usize = 0;
    proof {
        assert(fsv.take(0) =~= Seq::<Seq<u8>>::empty());
    }
    while i < n
        invariant
            n == files@.len(),
            fsv == views_of_vecs(files@),
            total_len(fsv) <= u64::MAX,
            i <= n,
            re.pat() == pattern@,
            p == regex_pred(pattern@, None),
            c == multi_count(fsv.take(i as int), p),
        decreases n - i,
    {
        let data = files[i].as_slice();
        let ghost dv = data@;
        let (local, _lines) = count_matches_buffer(data, &re);
        proof {
            assert(fsv[i as int] == files@[i as int]@);
            lemma_multi_count_step(fsv, p, i as int);
            lemma_multi_count_le(fsv.take(i + 1), p);
            lemma_total_len_prefix(fsv, i + 1);
        }
        c += local;
        i += 1;
    }
    proof {
        assert(fsv.take(n as int) =~= fsv);
    }
    Ok(c)
}

/// Count the lines of one buffer matching an already-compiled regex.
fn count_matches_buffer(data: &[u8], re: &RegexMatcher) -> (r: (u64, ()))
    ensures
        r.0 == count_lines(lines_of(data@), regex_pred(re.pat(), None)),
{
    let ghost p = regex_pred(re.pat(), None);
    let none_filter: Option<StatusFilter> = None;
    let ls = split_lines(data);
    let ghost lv = views_of(ls@);
    let n = ls.len();
    let mut c: u64 = 0;
    let mut i: usize = 0;
    proof {
        assert(lv.take(0) =~= Seq::<Seq<u8>>::empty());
        lemma_lines_of_len_le(data@);
    }
    while i < n
        invariant
            n == ls@.len(),
            lv == views_of(ls@),
            lv == lines_of(data@),
            i <= n,
            c <= i,
            p == regex_pred(re.pat(), None),
            c == count_lines(lv.take(i as int), p),
        decreases n - i,
    {
        let line = ls[i];
        proof {
            assert(lv[i as int] == line@);
        }
        let passes = re.is_match(line);
        proof {
            assert(passes == p(lv[i as int]));
            lemma_count_lines_step(lv, p, i as int);
        }
        if passes {
            c += 1;
        }
        i += 1;
    }
    proof {
        assert(lv.take(n as int) =~= lv);
    }
    (c, ())
}

/// The matching count of key `k` summed across files.
pub open spec fn multi_count_key(
    fs: Seq<Seq<u8>>,
    col: GroupByColumn,
    sf: Option<StatusFilter>,
    tp: Option<Seq<u8>>,
    k: Seq<u8>,
) -> int {
    multi_count(fs, group_key_pred(col, sf, tp, k))
}

/// Group and count across several files' contents, merged into one map
/// and sorted like single-file group output.
pub fn group_by_count_multi(
    files: &Vec<Vec<u8>>,
    column: &GroupByColumn,
    status_filter: &Option<StatusFilter>,
    text_pattern: &Option<&[u8]>,
) -> (r: Vec<GroupCount>)
    requires
        total_len(views_of_vecs(files@)) <= u64::MAX,
    ensures
        gc_sorted(r@),
        gc_keys_unique(r@),
        forall|i: int|
            0 <= i < r@.len() ==> #[trigger] r@[i].count as int == multi_count_key(
                views_of_vecs(files@),
                *column,
                *status_filter,
                opt_view(*text_pattern),
                r@[i].key@,
            ) && r@[i].count >= 1,
        forall|k: Seq<u8>|
            #[trigger] gc_has_key(r@, k) == (multi_count_key(
                views_of_vecs(files@),
                *column,
                *status_filter,
                opt_view(*text_pattern),
                k,
            ) > 0),
{
    let ghost sfv = *status_filter;
    let ghost tpv = opt_view(*text_pattern);
    let ghost col = *column;
    let ghost fsv = views_of_vecs(files@);
    let ghost gp = group_pred(sfv, tpv);
    let n = files.len();
    let mut es: Vec<GroupCount> = Vec::new();
    let mut i: usize = 0;
    proof {
        assert(fsv.take(0) =~= Seq::<Seq<u8>>::empty());
        assert(gc_total(es@) == 0);
        assert forall|k: Seq<u8>|
            #[trigger] gc_count(es@, k) == multi_count(
                fsv.take(0),
                group_key_pred(col, sfv, tpv, k),
            ) by {}
    }
    while i < n
        invariant
            n == files@.len(),
            fsv == views_of_vecs(files@),
            total_len(fsv) <= u64::MAX,
            i <= n,
            sfv == *status_filter,
            tpv == opt_view(*text_pattern),
            col == *column,
            gp == group_pred(sfv, tpv),
            gc_keys_unique(es@),
            gc_counts_pos(es@),
            gc_total(es@) == multi_count(fsv.take(i as int), gp),
            forall|k: Seq<u8>|
                #[trigger] gc_count(es@, k) == multi_count(
                    fsv.take(i as int),
                    group_key_pred(col, sfv, tpv, k),
                ),
            forall|k: Seq<u8>|
                #[trigger] gc_has_key(es@, k) == (multi_count(
                    fsv.take(i as int),
                    group_key_pred(col, sfv, tpv, k),
                ) > 0),
        decreases n - i,
    {
        let data = files[i].as_slice();
        proof {
            assert(fsv[i as int] == files@[i as int]@);
            lemma_multi_count_le(fsv.take(i as int), gp);
            lemma_total_len_prefix(fsv, i as int);
            lemma_multi_count_step(fsv, gp, i as int);
            lemma_total_len_prefix(fsv, i + 1);
            lemma_count_lines_le(lines_of(fsv[i as int]), gp);
            lemma_lines_of_len_le(fsv[i as int]);
            assert(total_len(fsv.take(i as int)) + fsv[i as int].len() == total_len(
                fsv.take(i + 1),
            ));
            assert(gc_total(es@) + data@.len() <= u64::MAX);
        }
        let ghost before = es@;
        group_scan_into(data, column, status_filter, text_pattern, &mut es);
        proof {
            assert forall|k: Seq<u8>|
                #[trigger] gc_count(es@, k) == multi_count(
                    fsv.take(i + 1),
                    group_key_pred(col, sfv, tpv, k),
                ) by {
                lemma_multi_count_step(fsv, group_key_pred(col, sfv, tpv, k), i as int);
            }
            assert forall|k: Seq<u8>|
                #[trigger] gc_has_key(es@, k) == (multi_count(
                    fsv.take(i + 1),
                    group_key_pred(col, sfv, tpv, k),
                ) > 0) by {
                lemma_multi_count_step(fsv, group_key_pred(col, sfv, tpv, k), i as int);
                lemma_multi_count_le(fsv.take(i as int), group_key_pred(col, sfv, tpv, k));
                lemma_count_lines_le(lines_of(fsv[i as int]), group_key_pred(col, sfv, tpv, k));
            }
        }
        i += 1;
    }
    proof {
        assert(fsv.take(n as int) =~= fsv);
    }
    let ghost built = es@;
    let sorted = sort_group_counts(es);
    proof {
        lemma_gc_permutation(built, sorted@);
        assert forall|i2: int|
            0 <= i2 < sorted@.len() implies #[trigger] sorted@[i2].count as int == multi_count_key(
                fsv,
                col,
                sfv,
                tpv,
                sorted@[i2].key@,
            ) && sorted@[i2].count >= 1 by {
            assert(built.contains(sorted@[i2]));
            let j = choose|j: int| 0 <= j < built.len() && built[j] == sorted@[i2];
            crate::groupmap::lemma_gc_entry_count(built, j);
        }
    }
    sorted
}

/// The samples for key `k` across files, in file order.
pub open spec fn multi_values(
    fs: Seq<Seq<u8>>,
    group_by: Option<GroupByColumn>,
    sf: Option<StatusFilter>,
    tp: Option<Seq<u8>>,
    k: Seq<u8>,
) -> Seq<i64>
    decreases fs.len(),
{
    if fs.len() == 0 {
        Seq::empty()
    } else {
        multi_values(fs.drop_last(), group_by, sf, tp, k) + values_where(
            lines_of(fs.last()),
            agg_key_pred(group_by, sf, tp, k),
            line_size_val(),
        )
    }
}

/// Every sample a scan collects is a parsed size, hence nonnegative.
pub proof fn lemma_values_nonneg(
    lines: Seq<Seq<u8>>,
    group_by: Option<GroupByColumn>,
    sf: Option<StatusFilter>,
    tp: Option<Seq<u8>>,
    k: Seq<u8>,
)
    ensures
        ({
            let vs = values_where(lines, agg_key_pred(group_by, sf, tp, k), line_size_val());
            forall|i: int| 0 <= i < vs.len() ==> vs[i] >= 0
        }),
    decreases lines.len(),
{
    let p = agg_key_pred(group_by, sf, tp, k);
    let v = line_size_val();
    if lines.len() > 0 {
        lemma_values_nonneg(lines.drop_last(), group_by, sf, tp, k);
        let vs = values_where(lines, p, v);
        let prev = values_where(lines.drop_last(), p, v);
        if p(lines.last()) {
            let l = lines.last();
            match locate_apache(l) {
                Some(o) => {
                    lemma_size_at_nonneg(l, o.size_start as int, o.size_end as int);
                },
                None => {},
            }
            assert(vs =~= prev.push(v(l)));
        } else {
            assert(vs =~= prev);
        }
    }
}

/// Folding onward equals merging with the samples' own aggregate, on
/// nonnegative data.
pub proof fn lemma_agg_fold_from_merge(a: AggResult, vs: Seq<i64>)
    requires
        a.sum >= 0,
        forall|i: int| 0 <= i < vs.len() ==> vs[i] >= 0,
    ensures
        agg_fold_from(a, vs) == crate::agg::agg_merge(a, agg_of_samples(vs)),
    decreases vs.len(),
{
    if vs.len() == 0 {
        crate::agg::lemma_agg_merge_identity(a);
    } else {
        lemma_agg_fold_from_merge(a, vs.drop_last());
        crate::agg::lemma_agg_of_samples_nonneg(vs.drop_last());
        crate::agg::lemma_agg_merge_associative(
            a,
            agg_of_samples(vs.drop_last()),
            AggResult { sum: vs.last(), count: 1u64, min: vs.last(), max: vs.last() },
        );
    }
}

/// Aggregate sizes across several files' contents, merged by the merge
/// law into one map.
pub fn aggregate_size_multi(
    files: &Vec<Vec<u8>>,
    group_by: &Option<GroupByColumn>,
    status_filter: &Option<StatusFilter>,
    text_pattern: &Option<&[u8]>,
) -> (r: Vec<GroupAgg>)
    ensures
        ga_keys_unique(r@),
        forall|k: Seq<u8>|
            #[trigger] ga_get(r@, k) == agg_of_samples(
                multi_values(
                    views_of_vecs(files@),
                    *group_by,
                    *status_filter,
                    opt_view(*text_pattern),
                    k,
                ),
            ),
{
    let ghost sfv = *status_filter;
    let ghost tpv = opt_view(*text_pattern);
    let ghost gbv = *group_by;
    let ghost fsv = views_of_vecs(files@);
    let n = files.len();
    let mut es: Vec<GroupAgg> = Vec::new();
    let mut i: usize = 0;
    proof {
        assert(fsv.take(0) =~= Seq::<Seq<u8>>::empty());
        assert forall|k: Seq<u8>|
            #[trigger] ga_get(es@, k) == agg_of_samples(multi_values(fsv.take(0), gbv, sfv, tpv, k))
            by {}
    }
    while i < n
        invariant
            n == files@.len(),
            fsv == views_of_vecs(files@),
            i <= n,
            sfv == *status_filter,
            tpv == opt_view(*text_pattern),
            gbv == *group_by,
            ga_keys_unique(es@),
            forall|k: Seq<u8>|
                #[trigger] ga_get(es@, k) == agg_of_samples(
                    multi_values(fsv.take(i as int), gbv, sfv, tpv, k),
                ),
        decreases n - i,
    {
        let data = files[i].as_slice();
        proof {
            assert(fsv[i as int] == files@[i as int]@);
        }
        let ghost before = es@;
        agg_scan_into(data, group_by, status_filter, text_pattern, &mut es);
        proof {
            assert forall|k: Seq<u8>|
                #[trigger] ga_get(es@, k) == agg_of_samples(
                    multi_values(fsv.take(i + 1), gbv, sfv, tpv, k),
                ) by {
                let prevvals = multi_values(fsv.take(i as int), gbv, sfv, tpv, k);
                let filevals = values_where(
                    lines_of(fsv[i as int]),
                    agg_key_pred(gbv, sfv, tpv, k),
                    line_size_val(),
                );
                assert(fsv.take(i + 1).drop_last() =~= fsv.take(i as int));
                assert(fsv.take(i + 1).last() == fsv[i as int]);
                assert(multi_values(fsv.take(i + 1), gbv, sfv, tpv, k) == prevvals + filevals);
                lemma_multi_values_nonneg(fsv.take(i as int), gbv, sfv, tpv, k);
                lemma_values_nonneg(lines_of(fsv[i as int]), gbv, sfv, tpv, k);
                crate::agg::lemma_agg_of_samples_nonneg(prevvals);
                lemma_agg_fold_from_merge(ga_get(before, k), filevals);
                crate::agg::lemma_agg_of_samples_concat(prevvals, filevals);
            }
        }
        i += 1;
    }
    proof {
        assert(fsv.take(n as int) =~= fsv);
    }
    es
}

/// Samples across files are nonnegative too.
pub proof fn lemma_multi_values_nonneg(
    fs: Seq<Seq<u8>>,
    group_by: Option<GroupByColumn>,
    sf: Option<StatusFilter>,
    tp: Option<Seq<u8>>,
    k: Seq<u8>,
)
    ensures
        ({
            let vs = multi_values(fs, group_by, sf, tp, k);
            forall|i: int| 0 <= i < vs.len() ==> vs[i] >= 0
        }),
    decreases fs.len(),
{
    if fs.len() > 0 {
        lemma_multi_values_nonneg(fs.drop_last(), group_by, sf, tp, k);
        lemma_values_nonneg(lines_of(fs.last()), group_by, sf, tp, k);
        let prev = multi_values(fs.drop_last(), group_by, sf, tp, k);
        let fv = values_where(lines_of(fs.last()), agg_key_pred(group_by, sf, tp, k), line_size_val());
        let vs = multi_values(fs, group_by, sf, tp, k);
        assert forall|i: int| 0 <= i < vs.len() implies vs[i] >= 0 by {
            if i < prev.len() {
                assert(vs[i] == prev[i]);
            } else {
                assert(vs[i] == fv[i - prev.len()]);
            }
        }
    }
}


/// A one-file multi scan is the single scan of that file: the merge of
/// one partial result is itself.
pub proof fn lemma_multi_count_single(f: Seq<u8>, p: spec_fn(Seq<u8>) -> bool)
    ensures
        multi_count(seq![f], p) == count_lines(lines_of(f), p),
{
    let fs: Seq<Seq<u8>> = seq![f];
    assert(fs.drop_last() =~= Seq::<Seq<u8>>::empty());
    assert(fs.last() == f);
    assert(multi_count(fs, p) == multi_count(fs.drop_last(), p) + count_lines(lines_of(f), p));
    assert(multi_count(Seq::<Seq<u8>>::empty(), p) == 0);
}

} // verus!
