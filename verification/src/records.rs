//! Row records for the columnar fallback path.
//!
//! The fallback engine consumes full rows rather than lazily extracted
//! fields.  Each trimmed, non-empty line of a buffer becomes one record;
//! a line the locator rejects becomes an unstructured record carrying
//! only its raw bytes, so no line is lost.

use vstd::prelude::*;

use crate::apache::{
    find_fields, locate_apache, method_of, path_of, referer_of, size_at, status_code_at,
    user_agent_of,
};
use crate::scan::{keep_lines, views_of_vecs};
use crate::syslog::{find_syslog_fields, level_of, locate_syslog, message_of, priority_to_level};
use crate::time::{ascii_trim, trim_spec};

verus! {

/// One parsed Apache row; absent fields hold the `-` sentinel or none.
#[derive(Debug)]
pub struct ApacheRecord {
    pub ip: Vec<u8>,
    pub timestamp: Vec<u8>,
    pub request: Vec<u8>,
    pub method: Option<Vec<u8>>,
    pub path: Option<Vec<u8>>,
    pub status: Option<u16>,
    pub size: Option<i64>,
    pub referer: Option<Vec<u8>>,
    pub user_agent: Option<Vec<u8>>,
    pub raw: Vec<u8>,
}

/// The views of an Apache record's fields.
pub open spec fn apache_record_view(r: ApacheRecord) -> (
    Seq<u8>,
    Seq<u8>,
    Seq<u8>,
    Option<Seq<u8>>,
    Option<Seq<u8>>,
    Option<u16>,
    Option<i64>,
    Option<Seq<u8>>,
    Option<Seq<u8>>,
    Seq<u8>,
) {
    (
        r.ip@,
        r.timestamp@,
        r.request@,
        opt_vec_view(r.method),
        opt_vec_view(r.path),
        r.status,
        r.size,
        opt_vec_view(r.referer),
        opt_vec_view(r.user_agent),
        r.raw@,
    )
}

/// The view of an optional owned byte field.
pub open spec fn opt_vec_view(v: Option<Vec<u8>>) -> Option<Seq<u8>> {
    match v {
        Some(b) => Some(b@),
        None => None,
    }
}

/// The Apache record of one trimmed line: located fields when the line
/// parses, and an unstructured record with the `-` IP sentinel when not.
pub open spec fn apache_record_of(l: Seq<u8>) -> (
    Seq<u8>,
    Seq<u8>,
    Seq<u8>,
    Option<Seq<u8>>,
    Option<Seq<u8>>,
    Option<u16>,
    Option<i64>,
    Option<Seq<u8>>,
    Option<Seq<u8>>,
    Seq<u8>,
) {
    match locate_apache(l) {
        Some(o) => (
            l.subrange(0, o.ip_end as int),
            l.subrange(o.timestamp_start as int, o.timestamp_end as int),
            l.subrange(o.request_start as int, o.request_end as int),
            Some(method_of(l, o)),
            Some(path_of(l, o)),
            status_code_at(l, o.status_start as int),
            size_at(l, o.size_start as int, o.size_end as int),
            Some(referer_of(l, o)),
            Some(user_agent_of(l, o)),
            l,
        ),
        None => (seq![45u8], Seq::empty(), l, None, None, None, None, None, None, l),
    }
}

/// Parse one trimmed Apache line into a record.
pub fn parse_apache_record(line: &[u8]) -> (r: ApacheRecord)
    ensures
        apache_record_view(r) == apache_record_of(line@),
{
    match find_fields(line) {
        Some(off) => {
            let ip = vstd::slice::slice_to_vec(crate::apache::extract_ip(line, &off));
            let timestamp = vstd::slice::slice_to_vec(crate::apache::extract_timestamp(line, &off));
            let request = vstd::slice::slice_to_vec(crate::apache::extract_request(line, &off));
            let method = vstd::slice::slice_to_vec(crate::apache::extract_method(line, &off));
            let path = vstd::slice::slice_to_vec(crate::apache::extract_path(line, &off));
            let status = crate::apache::extract_status(line, &off);
            let size = crate::apache::extract_size(line, &off);
            let referer = vstd::slice::slice_to_vec(crate::apache::extract_referer(line, &off));
            let user_agent = vstd::slice::slice_to_vec(
                crate::apache::extract_user_agent(line, &off),
            );
            let raw = vstd::slice::slice_to_vec(line);
            ApacheRecord {
                ip,
                timestamp,
                request,
                method: Some(method),
                path: Some(path),
                status,
                size,
                referer: Some(referer),
                user_agent: Some(user_agent),
                raw,
            }
        },
        None => {
            let dash: &'static [u8; 1] = &[45u8];
            let ip = vstd::slice::slice_to_vec(dash.as_slice());
            proof {
                assert(ip@ =~= seq![45u8]);
            }
            let raw = vstd::slice::slice_to_vec(line);
            let raw2 = vstd::slice::slice_to_vec(line);
            let timestamp: Vec<u8> = Vec::new();
            ApacheRecord {
                ip,
                timestamp,
                request: raw2,
                method: None,
                path: None,
                status: None,
                size: None,
                referer: None,
                user_agent: None,
                raw,
            }
        },
    }
}

/// A line whose trimmed bytes are non-empty.
pub open spec fn trimmed_nonempty() -> spec_fn(Seq<u8>) -> bool {
    |l: Seq<u8>| trim_spec(l).len() > 0
}

/// The trimmed, non-empty lines of a buffer, in order.
pub open spec fn content_lines(data: Seq<u8>) -> Seq<Seq<u8>> {
    keep_lines(crate::lines::lines_of(data), trimmed_nonempty()).map_values(
        |l: Seq<u8>| trim_spec(l),
    )
}

/// Parse every trimmed, non-empty line of a buffer into an Apache record.
pub fn parse_apache_records(data: &[u8]) -> (r: Vec<ApacheRecord>)
    ensures
        r@.len() == content_lines(data@).len(),
        forall|i: int|
            0 <= i < r@.len() ==> #[trigger] apache_record_view(r@[i]) == apache_record_of(
                content_lines(data@)[i],
            ),
{
    let ghost pred = trimmed_nonempty();
    let ls = crate::lines::split_lines(data);
    let ghost lv = crate::lines::views_of(ls@);
    let n = ls.len();
    let mut out: Vec<ApacheRecord> = Vec::new();
    let mut i: usize = 0;
    proof {
        assert(lv.take(0) =~= Seq::<Seq<u8>>::empty());
    }
    while i < n
        invariant
            n == ls@.len(),
            lv == crate::lines::views_of(ls@),
            lv == crate::lines::lines_of(data@),
            i <= n,
            pred == trimmed_nonempty(),
            out@.len() == keep_lines(lv.take(i as int), pred).len(),
            forall|j: int|
                0 <= j < out@.len() ==> #[trigger] apache_record_view(out@[j]) == apache_record_of(
                    trim_spec(keep_lines(lv.take(i as int), pred)[j]),
                ),
        decreases n - i,
    {
        let line = ls[i];
        proof {
            assert(lv[i as int] == line@);
            crate::scan::lemma_keep_lines_step(lv, pred, i as int);
        }
        let trimmed = ascii_trim(line);
        if trimmed.len() > 0 {
            let rec = parse_apache_record(trimmed);
            proof {
                assert(keep_lines(lv.take(i + 1), pred) =~= keep_lines(lv.take(i as int), pred)
                    + seq![line@]);
            }
            out.push(rec);
        } else {
            proof {
                assert(keep_lines(lv.take(i + 1), pred) =~= keep_lines(lv.take(i as int), pred));
            }
        }
        i += 1;
    }
    proof {
        assert(lv.take(n as int) =~= lv);
        assert forall|i2: int|
            0 <= i2 < out@.len() implies #[trigger] apache_record_view(out@[i2])
            == apache_record_of(content_lines(data@)[i2]) by {
            assert(content_lines(data@)[i2] == trim_spec(keep_lines(lv, pred)[i2]));
        }
    }
    out
}

/// One parsed syslog row.
#[derive(Debug)]
pub struct SyslogRecord {
    pub priority: Option<i32>,
    pub hostname: Vec<u8>,
    pub process: Vec<u8>,
    pub message: Vec<u8>,
    pub level: String,
    pub raw: Vec<u8>,
}

/// The priority digits between a leading `<` and the first `>`, when the
/// line starts with `<` and the digits form a number an `i32` holds.
pub open spec fn syslog_priority_of(l: Seq<u8>) -> Option<i32> {
    if l.len() > 0 && l[0] == 60 {
        match crate::bytes::seq_find(l, 62u8) {
            Some(e) => {
                let digits = l.subrange(1, e);
                if digits.len() > 0 && crate::apache::all_digits(digits) && crate::apache::digits_val(
                    digits,
                ) <= i32::MAX {
                    Some(crate::apache::digits_val(digits) as i32)
                } else {
                    None
                }
            },
            None => None,
        }
    } else {
        None
    }
}

/// Parse the priority prefix of a syslog line.
pub fn parse_syslog_priority(line: &[u8]) -> (r: Option<i32>)
    ensures
        r == syslog_priority_of(line@),
{
    let len = line.len();
    if len == 0 || line[0] != 60 {
        return None;
    }
    let e = match crate::bytes::find_byte(62u8, line) {
        Some(i) => {
            proof {
                crate::bytes::lemma_seq_find_first(line@, 62u8, i as int);
            }
            i
        },
        None => {
            proof {
                crate::bytes::lemma_seq_find_none(line@, 62u8);
            }
            return None;
        },
    };
    let digits = vstd::slice::slice_subrange(line, 1, e);
    if digits.len() == 0 {
        return None;
    }
    let mut val: i32 = 0;
    let mut i: usize = 0;
    let n = digits.len();
    while i < n
        invariant
            n == digits@.len(),
            n > 0,
            i <= n,
            line@.len() > 0,
            line@[0] == 60,
            crate::bytes::seq_find(line@, 62u8) == Some(e as int),
            digits@ == line@.subrange(1, e as int),
            crate::apache::all_digits(digits@.take(i as int)),
            0 <= val,
            val == crate::apache::digits_val(digits@.take(i as int)),
        decreases n - i,
    {
        let d = digits[i];
        if d < 48 || d > 57 {
            proof {
                assert(!crate::apache::is_ascii_digit(digits@[i as int]));
                assert(!crate::apache::all_digits(digits@));
            }
            return None;
        }
        proof {
            assert(digits@.take(i + 1).drop_last() =~= digits@.take(i as int));
            assert(digits@.take(i + 1).last() == digits@[i as int]);
        }
        let step = val.checked_mul(10);
        match step {
            Some(v10) => {
                match v10.checked_add((d - 48) as i32) {
                    Some(v) => {
                        val = v;
                    },
                    None => {
                        proof {
                            assert(crate::apache::digits_val(digits@.take(i + 1)) > i32::MAX);
                            if crate::apache::all_digits(digits@) {
                                crate::apache::lemma_digits_prefix(digits@, i + 1);
                            }
                        }
                        return None;
                    },
                }
            },
            None => {
                proof {
                    assert(crate::apache::digits_val(digits@.take(i + 1)) > i32::MAX);
                    if crate::apache::all_digits(digits@) {
                        crate::apache::lemma_digits_prefix(digits@, i + 1);
                    }
                }
                return None;
            },
        }
        i += 1;
    }
    proof {
        assert(digits@.take(n as int) =~= digits@);
    }
    Some(val)
}

/// The views of a syslog record's fields.
pub open spec fn syslog_record_view(r: SyslogRecord) -> (
    Option<i32>,
    Seq<u8>,
    Seq<u8>,
    Seq<u8>,
    Seq<char>,
    Seq<u8>,
) {
    (r.priority, r.hostname@, r.process@, r.message@, r.level@, r.raw@)
}

/// The syslog record of one trimmed line: located fields when the line
/// parses, and an unstructured record carrying the line as its message
/// when not.
pub open spec fn syslog_record_of(l: Seq<u8>) -> (
    Option<i32>,
    Seq<u8>,
    Seq<u8>,
    Seq<u8>,
    Seq<char>,
    Seq<u8>,
) {
    let pri = syslog_priority_of(l);
    match locate_syslog(l) {
        Some(o) => (
            pri,
            l.subrange(o.hostname_start as int, o.hostname_end as int),
            l.subrange(o.process_start as int, o.process_end as int),
            message_of(l, o),
            level_of(pri),
            l,
        ),
        None => (None, seq![45u8], seq![45u8], l, level_of(None), l),
    }
}

/// Parse one trimmed syslog line into a record.
pub fn parse_syslog_record(line: &[u8]) -> (r: SyslogRecord)
    ensures
        syslog_record_view(r) == syslog_record_of(line@),
{
    match find_syslog_fields(line) {
        Some(off) => {
            let priority = parse_syslog_priority(line);
            let hostname = vstd::slice::slice_to_vec(
                crate::syslog::extract_hostname(line, &off),
            );
            let process = vstd::slice::slice_to_vec(crate::syslog::extract_process(line, &off));
            let message = vstd::slice::slice_to_vec(crate::syslog::extract_message(line, &off));
            let level = priority_to_level(priority);
            let raw = vstd::slice::slice_to_vec(line);
            SyslogRecord { priority, hostname, process, message, level, raw }
        },
        None => {
            let dash: &'static [u8; 1] = &[45u8];
            let hostname = vstd::slice::slice_to_vec(dash.as_slice());
            let process = vstd::slice::slice_to_vec(dash.as_slice());
            proof {
                assert(hostname@ =~= seq![45u8]);
                assert(process@ =~= seq![45u8]);
            }
            let message = vstd::slice::slice_to_vec(line);
            let level = priority_to_level(None);
            let raw = vstd::slice::slice_to_vec(line);
            SyslogRecord { priority: None, hostname, process, message, level, raw }
        },
    }
}

/// Parse every trimmed, non-empty line of a buffer into a syslog record.
pub fn parse_syslog_records(data: &[u8]) -> (r: Vec<SyslogRecord>)
    ensures
        r@.len() == content_lines(data@).len(),
        forall|i: int|
            0 <= i < r@.len() ==> #[trigger] syslog_record_view(r@[i]) == syslog_record_of(
                content_lines(data@)[i],
            ),
{
    let ghost pred = trimmed_nonempty();
    let ls = crate::lines::split_lines(data);
    let ghost lv = crate::lines::views_of(ls@);
    let n = ls.len();
    let mut out: Vec<SyslogRecord> = Vec::new();
    let mut i: usize = 0;
    proof {
        assert(lv.take(0) =~= Seq::<Seq<u8>>::empty());
    }
    while i < n
        invariant
            n == ls@.len(),
            lv == crate::lines::views_of(ls@),
            lv == crate::lines::lines_of(data@),
            i <= n,
            pred == trimmed_nonempty(),
            out@.len() == keep_lines(lv.take(i as int), pred).len(),
            forall|j: int|
                0 <= j < out@.len() ==> #[trigger] syslog_record_view(out@[j]) == syslog_record_of(
                    trim_spec(keep_lines(lv.take(i as int), pred)[j]),
                ),
        decreases n - i,
    {
        let line = ls[i];
        proof {
            assert(lv[i as int] == line@);
            crate::scan::lemma_keep_lines_step(lv, pred, i as int);
        }
        let trimmed = ascii_trim(line);
        if trimmed.len() > 0 {
            let rec = parse_syslog_record(trimmed);
            proof {
                assert(keep_lines(lv.take(i + 1), pred) =~= keep_lines(lv.take(i as int), pred)
                    + seq![line@]);
            }
            out.push(rec);
        } else {
            proof {
                assert(keep_lines(lv.take(i + 1), pred) =~= keep_lines(lv.take(i as int), pred));
            }
        }
        i += 1;
    }
    proof {
        assert(lv.take(n as int) =~= lv);
        assert forall|i2: int|
            0 <= i2 < out@.len() implies #[trigger] syslog_record_view(out@[i2])
            == syslog_record_of(content_lines(data@)[i2]) by {
            assert(content_lines(data@)[i2] == trim_spec(keep_lines(lv, pred)[i2]));
        }
    }
    out
}

} // verus!
