use log_forensics::columns::GroupByColumn;
use log_forensics::fast::extract_path_fast;
use log_forensics::order::sort_group_aggs;
use log_forensics::scan::{aggregate_size, count_matches_multi, count_status, group_by_count_multi};
use log_forensics::status::StatusFilter;
use log_forensics::time::{parse_2digit, parse_4digit, TimeFilter};
use log_forensics::plan::QueryError;
use log_forensics::tools::{AggregateLogsParams, LogForensicsServer};
use log_forensics::ParseError;

#[test]
fn digit_parsers() {
    assert_eq!(parse_2digit(b"07"), Some(7));
    assert_eq!(parse_2digit(b"7"), None);
    assert_eq!(parse_2digit(b"a7"), None);
    assert_eq!(parse_4digit(b"2024"), Some(2024));
    assert_eq!(parse_4digit(b"20x4"), None);
}

#[test]
fn time_filter_requires_a_bound() {
    assert!(TimeFilter::new(None, None).is_none());
    assert!(TimeFilter::new(Some("garbage"), None).is_none());
    let open_ended = TimeFilter::new(Some("2024-10-10"), None).unwrap();
    assert!(open_ended.matches(99999999999999));
    assert!(!open_ended.matches(0));
}

#[test]
fn fast_path_extraction() {
    let line = b"1.2.3.4 - - [x] \"GET /only HTTP/1.1\" 200 5";
    assert_eq!(extract_path_fast(line), Some(b"/only".as_slice()));
    assert_eq!(extract_path_fast(b"no quotes here"), None);
}

#[test]
fn multi_file_regex_count() {
    let f1 = b"alpha\nbeta\n".to_vec();
    let f2 = b"beta\ngamma\n".to_vec();
    let files = vec![f1, f2];
    assert_eq!(count_matches_multi(&files, "beta").unwrap(), 2);
    match count_matches_multi(&files, "[") {
        Err(ParseError::ParseFailed(_)) => {}
        _ => panic!("invalid pattern must fail"),
    }
}

#[test]
fn multi_file_group_counts_merge() {
    let line = |ip: &str, status: u16| {
        format!(
            "{} - - [10/Oct/2024:13:55:36 +0000] \"GET / HTTP/1.1\" {} 10",
            ip, status
        )
    };
    let f1 = format!("{}\n{}\n", line("9.9.9.9", 200), line("8.8.8.8", 200)).into_bytes();
    let f2 = format!("{}\n", line("9.9.9.9", 404)).into_bytes();
    let files = vec![f1, f2];
    let groups = group_by_count_multi(&files, &GroupByColumn::Ip, &None, &None);
    let got: Vec<(Vec<u8>, u64)> = groups.into_iter().map(|e| (e.key, e.count)).collect();
    assert_eq!(got, vec![(b"9.9.9.9".to_vec(), 2), (b"8.8.8.8".to_vec(), 1)]);
}

#[test]
fn aggregate_sort_by_sum() {
    let line = |path: &str, size: i64| {
        format!(
            "1.1.1.1 - - [10/Oct/2024:13:55:36 +0000] \"GET {} HTTP/1.1\" 200 {}",
            path, size
        )
    };
    let data = format!(
        "{}\n{}\n{}\n",
        line("/small", 10),
        line("/big", 900),
        line("/small", 20)
    )
    .into_bytes();
    let aggs = aggregate_size(&data, &Some(GroupByColumn::Path), &None, &None);
    let sorted = sort_group_aggs(aggs);
    assert_eq!(sorted.len(), 2);
    assert_eq!(sorted[0].key, b"/big".to_vec());
    assert_eq!(sorted[0].agg.sum, 900);
    assert_eq!(sorted[1].key, b"/small".to_vec());
    assert_eq!(sorted[1].agg.sum, 30);
}

#[test]
fn malformed_lines_are_skipped() {
    let data = b"short\n1.1.1.1 - - [10/Oct/2024:13:55:36 +0000] \"GET / HTTP/1.1\" 200 10\n\n".to_vec();
    let any = StatusFilter::parse(">=0").unwrap();
    assert_eq!(count_status(&data, &any), 1);
}

#[test]
fn size_dash_reads_as_zero() {
    let line = b"1.1.1.1 - - [10/Oct/2024:13:55:36 +0000] \"GET / HTTP/1.1\" 204 -";
    let offsets = log_forensics::apache::find_fields(line).expect("parses");
    assert_eq!(log_forensics::apache::extract_size(line, &offsets), Some(0));
    assert_eq!(
        log_forensics::apache::extract_referer(line, &offsets),
        b"-"
    );
}

#[test]
fn referer_and_user_agent_fields() {
    let line = b"1.1.1.1 - - [10/Oct/2024:13:55:36 +0000] \"GET / HTTP/1.1\" 200 5 \"http://from\" \"agent x\"";
    let offsets = log_forensics::apache::find_fields(line).expect("parses");
    assert_eq!(
        log_forensics::apache::extract_referer(line, &offsets),
        b"http://from"
    );
    assert_eq!(
        log_forensics::apache::extract_user_agent(line, &offsets),
        b"agent x"
    );
}

#[test]
fn aggregation_requires_group_by() {
    let server = LogForensicsServer::new();
    let params = AggregateLogsParams {
        path: "/var/log/app.log".to_owned(),
        operation: "count".to_owned(),
        column: None,
        group_by: None,
        filter_text: None,
        format: "json".to_owned(),
        limit: 10,
    };
    match server.build_aggregate_fallback(&params) {
        Err(QueryError::InvalidQuery(_)) => {}
        _ => panic!("aggregation without group_by must be rejected"),
    }
    let unknown = AggregateLogsParams {
        operation: "median".to_owned(),
        group_by: Some("ip".to_owned()),
        ..params
    };
    assert!(server.build_aggregate_fallback(&unknown).is_err());
}

#[test]
fn single_file_multi_scan_agrees() {
    let data = b"1.1.1.1 - - [10/Oct/2024:13:55:36 +0000] \"GET / HTTP/1.1\" 404 10\n".to_vec();
    let filter = StatusFilter::parse("4xx").unwrap();
    let single = count_status(&data, &filter);
    let multi = log_forensics::scan::count_status_multi(&vec![data], &filter);
    assert_eq!(single, multi);
}
