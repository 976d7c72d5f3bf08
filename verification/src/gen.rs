//! Synthetic log line builders.
//!
//! Benchmark inputs are generated from chosen field values; the builders
//! assemble the exact textual shape the locators parse.  The locator
//! exactness law lives here too: on any generated Apache line the
//! structurally located status is the status the builder was given, no
//! matter what digits the URL contains.

use vstd::prelude::*;

use crate::apache::{is_ascii_digit, locate_apache, status_code_at};
use crate::bytes::{lemma_seq_find_first, seq_find};
use crate::scan::line_status;

verus! {

/// The three decimal digits of a status code.
pub open spec fn status_digits(status: u16) -> Seq<u8> {
    seq![(48 + status / 100) as u8, (48 + (status / 10) % 10) as u8, (48 + status % 10) as u8]
}

/// The decimal digits of a nonnegative number.
pub open spec fn dec_digits(n: int) -> Seq<u8>
    decreases n,
{
    if n < 10 {
        seq![(48 + if n >= 0 {
            n
        } else {
            0
        }) as u8]
    } else {
        dec_digits(n / 10).push((48 + n % 10) as u8)
    }
}

/// The ` - - [` marker between the IP and the timestamp.
pub open spec fn ident_marker() -> Seq<u8> {
    seq![32u8, 45u8, 32u8, 45u8, 32u8, 91u8]
}

/// The `] "` separator between the timestamp and the request.
pub open spec fn close_quote() -> Seq<u8> {
    seq![93u8, 32u8, 34u8]
}

/// The ` HTTP/1.1` protocol suffix of the request.
pub open spec fn protocol_suffix() -> Seq<u8> {
    seq![32u8, 72u8, 84u8, 84u8, 80u8, 47u8, 49u8, 46u8, 49u8]
}

/// The `" ` separator between the request and the status.
pub open spec fn quote_space() -> Seq<u8> {
    seq![34u8, 32u8]
}

/// The ` "-" "` run between the size and the user agent: an absent
/// referer and the user agent's opening quote.
pub open spec fn referer_dash() -> Seq<u8> {
    seq![32u8, 34u8, 45u8, 34u8, 32u8, 34u8]
}

/// The request part of a generated line: method, path and protocol.
pub open spec fn request_bytes(method: Seq<u8>, path: Seq<u8>) -> Seq<u8> {
    method + seq![32u8] + path + protocol_suffix()
}

/// A generated Apache combined line.
pub open spec fn apache_line_spec(
    ip: Seq<u8>,
    ts: Seq<u8>,
    method: Seq<u8>,
    path: Seq<u8>,
    status: u16,
    size: int,
    ua: Seq<u8>,
) -> Seq<u8> {
    ip + ident_marker() + ts + close_quote() + request_bytes(method, path) + quote_space()
        + status_digits(status) + seq![32u8] + dec_digits(size) + referer_dash() + ua + seq![34u8]
}

/// Append the decimal digits of a nonnegative number.
fn push_decimal(out: &mut Vec<u8>, n: i64)
    requires
        n >= 0,
    ensures
        final(out)@ == old(out)@ + dec_digits(n as int),
    decreases n,
{
    if n < 10 {
        out.push(48 + (n as u8));
        proof {
            assert(out@ =~= old(out)@ + dec_digits(n as int));
        }
    } else {
        push_decimal(out, n / 10);
        out.push(48 + ((n % 10) as u8));
        proof {
            assert(out@ =~= old(out)@ + dec_digits(n as int));
        }
    }
}

/// Append a byte slice.
fn push_bytes(out: &mut Vec<u8>, b: &[u8])
    ensures
        final(out)@ == old(out)@ + b@,
{
    let mut i: usize = 0;
    while i < b.len()
        invariant
            i <= b@.len(),
            out@ == old(out)@ + b@.take(i as int),
        decreases b@.len() - i,
    {
        proof {
            assert(b@.take(i + 1) =~= b@.take(i as int).push(b@[i as int]));
        }
        out.push(b[i]);
        i += 1;
    }
    proof {
        assert(b@.take(b@.len() as int) =~= b@);
    }
}

/// Build one Apache combined line from chosen field values.
pub fn generate_apache_log(
    ip: &[u8],
    timestamp: &[u8],
    method: &[u8],
    path: &[u8],
    status: u16,
    size: i64,
    user_agent: &[u8],
) -> (r: Vec<u8>)
    requires
        status <= 999,
        size >= 0,
    ensures
        r@ == apache_line_spec(ip@, timestamp@, method@, path@, status, size as int, user_agent@),
{
    let marker: &'static [u8; 6] = &[32u8, 45u8, 32u8, 45u8, 32u8, 91u8];
    let closer: &'static [u8; 3] = &[93u8, 32u8, 34u8];
    let proto: &'static [u8; 9] = &[32u8, 72u8, 84u8, 84u8, 80u8, 47u8, 49u8, 46u8, 49u8];
    let qsp: &'static [u8; 2] = &[34u8, 32u8];
    let refdash: &'static [u8; 6] = &[32u8, 34u8, 45u8, 34u8, 32u8, 34u8];
    proof {
        assert(marker@ =~= ident_marker());
        assert(closer@ =~= close_quote());
        assert(proto@ =~= protocol_suffix());
        assert(qsp@ =~= quote_space());
        assert(refdash@ =~= referer_dash());
    }
    let mut out: Vec<u8> = Vec::new();
    push_bytes(&mut out, ip);
    push_bytes(&mut out, marker.as_slice());
    push_bytes(&mut out, timestamp);
    push_bytes(&mut out, closer.as_slice());
    push_bytes(&mut out, method);
    out.push(32);
    push_bytes(&mut out, path);
    push_bytes(&mut out, proto.as_slice());
    push_bytes(&mut out, qsp.as_slice());
    out.push(48 + (status / 100) as u8);
    out.push(48 + ((status / 10) % 10) as u8);
    out.push(48 + (status % 10) as u8);
    out.push(32);
    push_decimal(&mut out, size);
    push_bytes(&mut out, refdash.as_slice());
    push_bytes(&mut out, user_agent);
    out.push(34);
    proof {
        assert(out@ =~= apache_line_spec(
            ip@,
            timestamp@,
            method@,
            path@,
            status,
            size as int,
            user_agent@,
        ));
    }
    out
}

/// Build one RFC 3164 syslog line from chosen field values.
pub fn generate_syslog(
    timestamp: &[u8],
    hostname: &[u8],
    process: &[u8],
    pid: i64,
    message: &[u8],
) -> (r: Vec<u8>)
    requires
        pid >= 0,
    ensures
        r@ == timestamp@ + seq![32u8] + hostname@ + seq![32u8] + process@ + seq![91u8]
            + dec_digits(pid as int) + seq![93u8, 58u8, 32u8] + message@,
{
    let mut out: Vec<u8> = Vec::new();
    push_bytes(&mut out, timestamp);
    out.push(32);
    push_bytes(&mut out, hostname);
    out.push(32);
    push_bytes(&mut out, process);
    out.push(91);
    push_decimal(&mut out, pid);
    out.push(93);
    out.push(58);
    out.push(32);
    push_bytes(&mut out, message);
    proof {
        assert(out@ =~= timestamp@ + seq![32u8] + hostname@ + seq![32u8] + process@ + seq![91u8]
            + dec_digits(pid as int) + seq![93u8, 58u8, 32u8] + message@);
    }
    out
}

/// A byte sequence free of a given byte.
pub open spec fn free_of(s: Seq<u8>, c: u8) -> bool {
    forall|i: int| 0 <= i < s.len() ==> s[i] != c
}

/// Locator exactness on generated lines: the structurally located status
/// of a generated Apache line is the status the builder was given — in
/// particular a line whose URL contains digits still reads its own
/// status, never one embedded in the URL.
#[verifier::rlimit(100)]
#[verifier::spinoff_prover]
pub proof fn lemma_generated_status_exact(
    ip: Seq<u8>,
    ts: Seq<u8>,
    method: Seq<u8>,
    path: Seq<u8>,
    status: u16,
    size: int,
    ua: Seq<u8>,
)
    requires
        100 <= status <= 999,
        ip.len() > 0,
        free_of(ip, 32),
        free_of(ip, 91),
        free_of(ts, 93),
        ts.len() > 0,
        free_of(method, 34),
        free_of(path, 34),
        free_of(method, 32),
        apache_line_spec(ip, ts, method, path, status, size, ua).len() <= usize::MAX,
    ensures
        line_status(apache_line_spec(ip, ts, method, path, status, size, ua)) == Some(status),
{
    let l = apache_line_spec(ip, ts, method, path, status, size, ua);
    let marker = ident_marker();
    let close = close_quote();
    let req = request_bytes(method, path);
    let quote_sp = quote_space();
    let d3 = status_digits(status);
    let tail = seq![32u8] + dec_digits(size) + referer_dash() + ua + seq![34u8];
    assert(free_of(protocol_suffix(), 34));
    assert(l =~= ip + marker + ts + close + req + quote_sp + d3 + tail);

    let ip_end = ip.len() as int;
    let bo = ip.len() as int + 5;
    let ts_end = bo + 1 + ts.len() as int;
    let req_start = ts_end + 3;
    let req_end = req_start + req.len() as int;
    let status_start = req_end + 2;
    let len = l.len() as int;
    assert(len == req_end + 2 + 3 + tail.len());

    // The first space ends the IP.
    assert(l[ip_end] == 32);
    assert(forall|j: int| 0 <= j < ip_end ==> l[j] == ip[j]);
    lemma_seq_find_first(l, 32u8, ip_end);

    // The first bracket opens the timestamp.
    assert(l[bo] == 91);
    assert(forall|j: int| 0 <= j < ip_end ==> l[j] != 91);
    assert(forall|j: int| ip_end <= j < bo ==> l[j] == marker[j - ip_end]);
    lemma_seq_find_first(l, 91u8, bo);

    // The first closing bracket after it ends the timestamp.
    let after_bo = l.subrange(bo, len);
    assert(forall|j: int| 0 <= j < after_bo.len() ==> after_bo[j] == l[bo + j]);
    assert(after_bo[1 + ts.len() as int] == 93);
    assert(forall|j: int| 1 <= j < 1 + ts.len() ==> after_bo[j] == ts[j - 1]);
    assert(forall|j: int| 0 <= j < 1 + ts.len() ==> after_bo[j] != 93);
    lemma_seq_find_first(after_bo, 93u8, 1 + ts.len() as int);
    assert(seq_find(l.subrange(bo, len), 93u8) == Some(1 + ts.len() as int));

    // The first quote after the timestamp opens the request.
    let after_ts = l.subrange(ts_end, len);
    assert(forall|j: int| 0 <= j < after_ts.len() ==> after_ts[j] == l[ts_end + j]);
    assert(after_ts[2] == 34);
    assert(after_ts[0] == 93 && after_ts[1] == 32);
    lemma_seq_find_first(after_ts, 34u8, 2);

    // The next quote closes the request: the request itself is quote-free.
    let after_req = l.subrange(req_start, len);
    assert(forall|j: int| 0 <= j < after_req.len() ==> after_req[j] == l[req_start + j]);
    assert(forall|j: int| 0 <= j < req.len() ==> l[req_start + j] == req[j]);
    assert(forall|j: int| 0 <= j < method.len() ==> req[j] == method[j]);
    assert(req[method.len() as int] == 32);
    assert(forall|j: int|
        method.len() + 1 <= j < method.len() + 1 + path.len() ==> req[j] == path[j - method.len()
            - 1]);
    assert(forall|j: int|
        method.len() + 1 + path.len() <= j < req.len() ==> req[j] == protocol_suffix()[j
            - method.len() - 1 - path.len()]);
    assert(forall|j: int| 0 <= j < req.len() ==> req[j] != 34);
    assert(after_req[req.len() as int] == 34);
    lemma_seq_find_first(after_req, 34u8, req.len() as int);

    // The line is long enough for the status and its trailers.
    assert(ip.len() + marker.len() >= 7);
    assert(len >= 20) by {
        assert(req.len() >= 10);
        assert(tail.len() >= 8) by {
            assert(dec_digits(size).len() >= 1) by {
                if size >= 10 {
                    assert(dec_digits(size) == dec_digits(size / 10).push((48 + size % 10) as u8));
                }
            }
        }
    }
    assert(req_end + 5 <= len);

    match locate_apache(l) {
        Some(o) => {
            assert(o.status_start == status_start);
            assert(l[status_start] == d3[0]);
            assert(l[status_start + 1] == d3[1]);
            assert(l[status_start + 2] == d3[2]);
            assert(is_ascii_digit(d3[0]) && is_ascii_digit(d3[1]) && is_ascii_digit(d3[2]));
            assert(status_code_at(l, status_start) == Some(status)) by {
                assert((d3[0] - 48) * 100 + (d3[1] - 48) * 10 + (d3[2] - 48) == status);
            }
        },
        None => {
            assert(false);
        },
    }
}

} // verus!
