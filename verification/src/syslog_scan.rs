//! Scanner operations for syslog buffers: text filtering, regex search,
//! and grouping by hostname or process.

use vstd::prelude::*;

use crate::bytes::has_substr;
use crate::columns::SyslogGroupBy;
use crate::groupmap::{
    bump, gc_count, gc_counts_pos, gc_has_key, gc_keys_unique, gc_total, GroupCount,
};
use crate::lines::{lines_of, split_lines, views_of};
use crate::order::{gc_sorted, lemma_gc_permutation, sort_group_counts};
use crate::scan::{
    analyze_pred, count_lines, lemma_count_lines_le, lemma_count_lines_step, lemma_lines_of_len_le,
    opt_view, regex_pred, take_up_to, views_of_vecs,
};
use crate::syslog::{extract_hostname, extract_process, find_syslog_fields, locate_syslog};

verus! {

/// Filter syslog lines by an optional substring pattern: the matching
/// count and the first `limit` matching lines in file order.
pub fn filter_lines(data: &[u8], text_pattern: Option<&[u8]>, limit: usize) -> (r: (
    u64,
    Vec<Vec<u8>>,
))
    ensures
        ({
            let pred = analyze_pred(None, None, opt_view(text_pattern));
            let kept = crate::scan::keep_lines(lines_of(data@), pred);
            r.0 == count_lines(lines_of(data@), pred) && views_of_vecs(r.1@) == take_up_to(
                kept,
                limit as int,
            )
        }),
{
    crate::scan::filter_lines(data, None, None, text_pattern, limit)
}

/// Regex-search syslog lines: the match count and the first `limit`
/// matching lines in file order.  Fails exactly when the pattern is
/// invalid.
pub fn regex_search(data: &[u8], pattern: &str, limit: usize) -> (r: Result<
    (u64, Vec<Vec<u8>>),
    crate::ParseError,
>)
    ensures
        r is Ok <==> crate::textsearch::re_ok(pattern@),
        match r {
            Ok(out) => ({
                let pred = regex_pred(pattern@, None);
                let kept = crate::scan::keep_lines(lines_of(data@), pred);
                out.0 == count_lines(lines_of(data@), pred) && views_of_vecs(out.1@) == take_up_to(
                    kept,
                    limit as int,
                )
            }),
            Err(e) => e is ParseFailed,
        },
{
    crate::scan::regex_search(data, pattern, None, limit)
}

/// Whether a syslog line passes the text filter and locates structurally.
pub open spec fn syslog_group_passes(l: Seq<u8>, tp: Option<Seq<u8>>) -> bool {
    &&& match tp {
        Some(pat) => crate::bytes::contains_sub(l, pat),
        None => true,
    }
    &&& locate_syslog(l) is Some
}

/// The syslog group key of a line for a column.
pub open spec fn syslog_key_of(l: Seq<u8>, col: SyslogGroupBy) -> Seq<u8> {
    match locate_syslog(l) {
        None => Seq::empty(),
        Some(o) => match col {
            SyslogGroupBy::Hostname => l.subrange(o.hostname_start as int, o.hostname_end as int),
            SyslogGroupBy::Process => l.subrange(o.process_start as int, o.process_end as int),
        },
    }
}

/// Whether a syslog line passes the filters and carries key `k`.
pub open spec fn syslog_key_pred(
    col: SyslogGroupBy,
    tp: Option<Seq<u8>>,
    k: Seq<u8>,
) -> spec_fn(Seq<u8>) -> bool {
    |l: Seq<u8>| syslog_group_passes(l, tp) && syslog_key_of(l, col) == k
}

/// How many matching syslog lines carry key `k`.
pub open spec fn syslog_count_key(
    lines: Seq<Seq<u8>>,
    col: SyslogGroupBy,
    tp: Option<Seq<u8>>,
    k: Seq<u8>,
) -> int {
    count_lines(lines, syslog_key_pred(col, tp, k)) as int
}

/// Group the matching syslog lines by hostname or process and count each
/// key, sorted descending by count with ties broken by ascending key.
pub fn group_by_count(data: &[u8], column: &SyslogGroupBy, text_pattern: &Option<&[u8]>) -> (r:
    Vec<GroupCount>)
    ensures
        gc_sorted(r@),
        gc_keys_unique(r@),
        forall|i: int|
            0 <= i < r@.len() ==> #[trigger] r@[i].count as int == syslog_count_key(
                lines_of(data@),
                *column,
                opt_view(*text_pattern),
                r@[i].key@,
            ) && r@[i].count >= 1,
        forall|k: Seq<u8>|
            #[trigger] gc_has_key(r@, k) == (syslog_count_key(
                lines_of(data@),
                *column,
                opt_view(*text_pattern),
                k,
            ) > 0),
{
    let ghost tpv = opt_view(*text_pattern);
    let ghost col = *column;
    let ls = split_lines(data);
    let ghost lv = views_of(ls@);
    let n = ls.len();
    let mut es: Vec<GroupCount> = Vec::new();
    let mut i: usize = 0;
    proof {
        assert(lv.take(0) =~= Seq::<Seq<u8>>::empty());
        lemma_lines_of_len_le(data@);
        assert(gc_total(es@) == 0);
        assert forall|k: Seq<u8>|
            #[trigger] gc_count(es@, k) == count_lines(lv.take(0), syslog_key_pred(col, tpv, k))
            by {}
    }
    while i < n
        invariant
            n == ls@.len(),
            lv == views_of(ls@),
            lv == lines_of(data@),
            lv.len() <= data@.len(),
            i <= n,
            tpv == opt_view(*text_pattern),
            col == *column,
            gc_keys_unique(es@),
            gc_counts_pos(es@),
            gc_total(es@) <= i,
            forall|k: Seq<u8>|
                #[trigger] gc_count(es@, k) == count_lines(
                    lv.take(i as int),
                    syslog_key_pred(col, tpv, k),
                ),
            forall|k: Seq<u8>|
                #[trigger] gc_has_key(es@, k) == (count_lines(
                    lv.take(i as int),
                    syslog_key_pred(col, tpv, k),
                ) > 0),
        decreases n - i,
    {
        let line = ls[i];
        proof {
            assert(lv[i as int] == line@);
        }
        let mut text_ok = true;
        if let Some(pat) = text_pattern {
            if !has_substr(line, pat) {
                text_ok = false;
            }
        }
        let mut contributed = false;
        let ghost before = es@;
        if text_ok {
            match find_syslog_fields(line) {
                Some(off) => {
                    let key = match column {
                        SyslogGroupBy::Hostname => extract_hostname(line, &off),
                        SyslogGroupBy::Process => extract_process(line, &off),
                    };
                    proof {
                        assert(key@ == syslog_key_of(line@, col));
                        assert(syslog_group_passes(line@, tpv));
                    }
                    bump(&mut es, key);
                    contributed = true;
                    proof {
                        assert forall|k: Seq<u8>|
                            #[trigger] gc_count(es@, k) == count_lines(
                                lv.take(i + 1),
                                syslog_key_pred(col, tpv, k),
                            ) by {
                            lemma_count_lines_step(lv, syslog_key_pred(col, tpv, k), i as int);
                        }
                        assert forall|k: Seq<u8>|
                            #[trigger] gc_has_key(es@, k) == (count_lines(
                                lv.take(i + 1),
                                syslog_key_pred(col, tpv, k),
                            ) > 0) by {
                            lemma_count_lines_step(lv, syslog_key_pred(col, tpv, k), i as int);
                            lemma_count_lines_le(lv.take(i as int), syslog_key_pred(col, tpv, k));
                        }
                    }
                },
                None => {},
            }
        }
        if !contributed {
            proof {
                assert(es@ == before);
                assert forall|k: Seq<u8>|
                    #[trigger] gc_count(es@, k) == count_lines(
                        lv.take(i + 1),
                        syslog_key_pred(col, tpv, k),
                    ) by {
                    lemma_count_lines_step(lv, syslog_key_pred(col, tpv, k), i as int);
                }
                assert forall|k: Seq<u8>|
                    #[trigger] gc_has_key(es@, k) == (count_lines(
                        lv.take(i + 1),
                        syslog_key_pred(col, tpv, k),
                    ) > 0) by {
                    lemma_count_lines_step(lv, syslog_key_pred(col, tpv, k), i as int);
                }
            }
        }
        i += 1;
    }
    proof {
        assert(lv.take(n as int) =~= lv);
    }
    let ghost built = es@;
    let sorted = sort_group_counts(es);
    proof {
        lemma_gc_permutation(built, sorted@);
        assert forall|i2: int|
            0 <= i2 < sorted@.len() implies #[trigger] sorted@[i2].count as int == syslog_count_key(
                lines_of(data@),
                col,
                tpv,
                sorted@[i2].key@,
            ) && sorted@[i2].count >= 1 by {
            assert(built.contains(sorted@[i2]));
            let j = choose|j: int| 0 <= j < built.len() && built[j] == sorted@[i2];
            crate::groupmap::lemma_gc_entry_count(built, j);
        }
    }
    sorted
}

} // verus!
