use log_forensics::agg::AggResult;
use log_forensics::columns::GroupByColumn;
use log_forensics::gen::{generate_apache_log, generate_syslog};
use log_forensics::lines::{find_chunk_boundaries, split_lines};
use log_forensics::plan::{parse_status_filter, QueryBuilder, QueryOp, StatusExpr};
use log_forensics::scan::{count_status, group_by_count};
use log_forensics::status::StatusFilter;
use log_forensics::syslog::find_syslog_fields;
use log_forensics::time::parse_timestamp_to_i64;
use log_forensics::tools::{
    default_format, default_limit, default_sample, default_true, AnalyzeLogsParams, AnalyzeRoute,
    LogForensicsServer, SearchPatternParams, SearchRoute,
};

fn sample_file() -> Vec<u8> {
    let mut data = Vec::new();
    for (status, size) in [(200u16, 120i64), (404, 40), (500, 7), (200, 88)] {
        let line = generate_apache_log(
            b"10.0.0.7",
            b"10/Oct/2024:13:55:36 +0000",
            b"GET",
            b"/items/7",
            status,
            size,
            b"curl/7.68.0",
        );
        data.extend_from_slice(&line);
        data.push(b'\n');
    }
    data
}

// Partition soundness: the lines seen across all chunks are the lines of
// the whole buffer, in order.
#[test]
fn partition_preserves_lines() {
    let data = sample_file();
    let whole: Vec<Vec<u8>> = split_lines(&data).into_iter().map(|l| l.to_vec()).collect();
    for chunk_size in [1usize, 2, 7, 64, 4096] {
        let bounds = find_chunk_boundaries(&data, chunk_size);
        assert_eq!(bounds[0], 0);
        assert_eq!(*bounds.last().unwrap(), data.len());
        let mut collected: Vec<Vec<u8>> = Vec::new();
        for w in bounds.windows(2) {
            let chunk = &data[w[0]..w[1]];
            collected.extend(split_lines(chunk).into_iter().map(|l| l.to_vec()));
        }
        assert_eq!(collected, whole);
    }
}

// Merge laws on concrete aggregates: commutative, associative, identity.
#[test]
fn merge_laws_concrete() {
    let mut a = AggResult::new();
    a.add_sample(3);
    a.add_sample(9);
    let mut b = AggResult::new();
    b.add_sample(4);
    let mut c = AggResult::new();
    c.add_sample(100);
    c.add_sample(1);

    let mut ab = a;
    ab.merge(&b);
    let mut ba = b;
    ba.merge(&a);
    assert_eq!(ab, ba);

    let mut ab_c = ab;
    ab_c.merge(&c);
    let mut bc = b;
    bc.merge(&c);
    let mut a_bc = a;
    a_bc.merge(&bc);
    assert_eq!(ab_c, a_bc);

    let identity = AggResult::new();
    let mut a_id = a;
    a_id.merge(&identity);
    assert_eq!(a_id, a);
    assert_eq!(identity.min, i64::MAX);
    assert_eq!(identity.max, i64::MIN);
    assert_eq!(identity.avg(), 0);
}

// A chunked aggregate equals the single-pass aggregate of the same data.
#[test]
fn chunked_count_equals_whole() {
    let data = sample_file();
    let filter = StatusFilter::parse(">=400").unwrap();
    let whole = count_status(&data, &filter);
    let bounds = find_chunk_boundaries(&data, 3);
    let mut summed = 0u64;
    for w in bounds.windows(2) {
        summed += count_status(&data[w[0]..w[1]], &filter);
    }
    assert_eq!(summed, whole);
    assert_eq!(whole, 2);
}

// Status filter equivalence: `>N` matches exactly the statuses above N,
// and `Nxx` exactly the class.
#[test]
fn status_filter_equivalence() {
    let gt = StatusFilter::parse(">400").unwrap();
    for s in [0u16, 399, 400, 401, 500, 999] {
        assert_eq!(gt.matches(s), s > 400);
    }
    let class = StatusFilter::parse("4xx").unwrap();
    for s in [399u16, 400, 404, 499, 500] {
        assert_eq!(class.matches(s), (400..=499).contains(&s));
    }
    assert!(StatusFilter::parse(">65535").is_none());
    assert!(StatusFilter::parse("<0").is_none());
    assert!(StatusFilter::parse("abc").is_none());
}

// Timestamp ordering: real times in order encode in order.
#[test]
fn timestamp_ordering() {
    let samples: [&[u8]; 5] = [
        b"09/Oct/2024:23:59:59 +0000",
        b"10/Oct/2024:00:00:00 +0000",
        b"10/Oct/2024:13:55:36 +0000",
        b"10/Nov/2024:01:02:03 +0000",
        b"01/Jan/2025:00:00:00 +0000",
    ];
    let parsed: Vec<i64> = samples
        .iter()
        .map(|s| parse_timestamp_to_i64(s).unwrap())
        .collect();
    for w in parsed.windows(2) {
        assert!(w[0] < w[1]);
    }
}

// Idempotence: the same query on the same bytes gives identical output.
#[test]
fn repeated_queries_identical() {
    let data = sample_file();
    let a = group_by_count(&data, &GroupByColumn::Status, &None, &None);
    let b = group_by_count(&data, &GroupByColumn::Status, &None, &None);
    let av: Vec<(Vec<u8>, u64)> = a.into_iter().map(|e| (e.key, e.count)).collect();
    let bv: Vec<(Vec<u8>, u64)> = b.into_iter().map(|e| (e.key, e.count)).collect();
    assert_eq!(av, bv);
}

// Generated lines read back their own fields.
#[test]
fn generator_round_trip() {
    let line = generate_apache_log(
        b"203.0.113.50",
        b"16/Dec/2025:11:26:41 +0000",
        b"POST",
        b"/error/404/page",
        200,
        2326,
        b"Mozilla/5.0",
    );
    let offsets = log_forensics::apache::find_fields(&line).expect("generated line parses");
    assert_eq!(
        log_forensics::apache::extract_status(&line, &offsets),
        Some(200)
    );
    assert_eq!(log_forensics::apache::extract_size(&line, &offsets), Some(2326));
    assert_eq!(log_forensics::apache::extract_path(&line, &offsets), b"/error/404/page");

    let sline = generate_syslog(b"Dec 17 10:30:45", b"server01", b"sshd", 12345, b"hello there");
    let soff = find_syslog_fields(&sline).expect("generated syslog line parses");
    assert_eq!(
        log_forensics::syslog::extract_hostname(&sline, &soff),
        b"server01"
    );
    assert_eq!(log_forensics::syslog::extract_process(&sline, &soff), b"sshd");
    assert_eq!(
        log_forensics::syslog::extract_message(&sline, &soff),
        b"hello there"
    );
}

#[test]
fn fallback_status_expressions() {
    assert_eq!(parse_status_filter(">=400"), Some(StatusExpr::Ge(400)));
    assert_eq!(parse_status_filter("!=200"), Some(StatusExpr::Ne(200)));
    assert_eq!(parse_status_filter("5xx"), Some(StatusExpr::Range(500, 599)));
    assert_eq!(parse_status_filter("301"), Some(StatusExpr::Eq(301)));
    assert_eq!(parse_status_filter("junk"), None);
}

#[test]
fn fallback_plan_shape() {
    let ops = QueryBuilder::new()
        .filter_status(">=400")
        .filter_text("raw", "bot", false)
        .group_by("ip")
        .count()
        .limit(10)
        .into_ops();
    assert_eq!(ops.len(), 5);
    assert!(matches!(ops[0], QueryOp::FilterStatus { .. }));
    assert!(matches!(ops[1], QueryOp::FilterText { .. }));
    assert!(matches!(ops[2], QueryOp::GroupBy { .. }));
    assert!(matches!(ops[3], QueryOp::Sort { .. }));
    assert!(matches!(ops[4], QueryOp::Limit { n: 10 }));
}

#[test]
fn planner_routes() {
    let server = LogForensicsServer::new();
    let params = AnalyzeLogsParams {
        path: "/var/log/access.log".to_owned(),
        format: default_format(),
        filter_status: Some(">=400".to_owned()),
        filter_text: None,
        filter_time_start: None,
        filter_time_end: None,
        group_by: None,
        sort_by: None,
        sort_desc: default_true(),
        limit: default_limit(),
    };
    match server.analyze_route(&params, 1, true) {
        AnalyzeRoute::ApacheSingle { status_filter, .. } => {
            assert!(matches!(status_filter, Some(StatusFilter::GreaterOrEqual(400))));
        }
        _ => panic!("single access log with a status filter takes the fast path"),
    }
    match server.analyze_route(&params, 3, false) {
        AnalyzeRoute::ApacheMultiCount { .. } => {}
        _ => panic!("several files with only a status filter take the multi count path"),
    }

    let with_text = AnalyzeLogsParams {
        filter_text: Some("bot".to_owned()),
        filter_status: params.filter_status.clone(),
        path: params.path.clone(),
        format: params.format.clone(),
        filter_time_start: None,
        filter_time_end: None,
        group_by: None,
        sort_by: None,
        sort_desc: params.sort_desc,
        limit: params.limit,
    };
    // The multi-file count cannot push a text or time filter down, so
    // such a query falls back rather than ignoring the filter.
    assert!(matches!(server.analyze_route(&with_text, 3, false), AnalyzeRoute::Fallback));

    let grouped = AnalyzeLogsParams { group_by: Some("ip".to_owned()), ..params };
    assert!(matches!(server.analyze_route(&grouped, 1, true), AnalyzeRoute::Fallback));

    let sp = SearchPatternParams {
        path: "/var/log/syslog".to_owned(),
        pattern: "error".to_owned(),
        column: None,
        case_sensitive: false,
        format: default_format(),
        limit: default_sample(),
    };
    assert!(matches!(server.search_route(&sp, true), SearchRoute::SyslogFast));
    assert!(matches!(server.search_route(&sp, false), SearchRoute::Fallback));
}
