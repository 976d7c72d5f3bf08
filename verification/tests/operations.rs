use log_forensics::agg::AggResult;
use log_forensics::columns::{GroupByColumn, SyslogGroupBy};
use log_forensics::fast::{fast_count_errors, fast_filter_status, fast_group_by_ip, parse_lazy};
use log_forensics::format::{detect_csv_separator, detect_format, LogFormat};
use log_forensics::records::{parse_apache_records, parse_syslog_records};
use log_forensics::scan::{
    aggregate_size, aggregate_size_multi, count_matches, count_status, count_status_multi,
    filter_lines, group_by_count, group_by_count_multi, regex_search,
};
use log_forensics::status::StatusFilter;
use log_forensics::syslog::priority_to_level;
use log_forensics::time::{parse_time_input, parse_timestamp_to_i64, TimeFilter};
use log_forensics::ParseError;

fn apache_line(status: u16, size: i64, path: &str) -> String {
    format!(
        "192.168.1.{} - - [10/Oct/2024:13:55:36 +0000] \"GET {} HTTP/1.1\" {} {}",
        status % 10,
        path,
        status,
        size
    )
}

fn ten_line_file() -> Vec<u8> {
    let statuses = [200u16, 200, 404, 500, 404, 200, 503, 301, 404, 200];
    let mut out = String::new();
    for s in statuses.iter() {
        out.push_str(&apache_line(*s, 100, "/index.html"));
        out.push('\n');
    }
    out.into_bytes()
}

#[test]
fn count_status_over_ten_lines() {
    let data = ten_line_file();
    let ge400 = StatusFilter::parse(">=400").unwrap();
    assert_eq!(count_status(&data, &ge400), 5);
    let eq200 = StatusFilter::parse("200").unwrap();
    assert_eq!(count_status(&data, &eq200), 4);
}

#[test]
fn group_by_status_counts_and_order() {
    let data = ten_line_file();
    let groups = group_by_count(&data, &GroupByColumn::Status, &None, &None);
    let got: Vec<(Vec<u8>, u64)> = groups.into_iter().map(|e| (e.key, e.count)).collect();
    // Descending by count; ties broken by ascending key byte order.
    assert_eq!(
        got,
        vec![
            (b"200".to_vec(), 4),
            (b"404".to_vec(), 3),
            (b"301".to_vec(), 1),
            (b"500".to_vec(), 1),
            (b"503".to_vec(), 1),
        ]
    );
}

#[test]
fn multi_file_count_and_sum() {
    let f1 = format!(
        "{}\n{}\n",
        apache_line(200, 100, "/a"),
        apache_line(500, 200, "/b")
    )
    .into_bytes();
    let f2 = format!(
        "{}\n{}\n",
        apache_line(404, 50, "/c"),
        apache_line(200, 150, "/d")
    )
    .into_bytes();
    let files = vec![f1, f2];
    let ge400 = StatusFilter::parse(">=400").unwrap();
    assert_eq!(count_status_multi(&files, &ge400), 2);

    let aggs = aggregate_size_multi(&files, &None, &None, &None);
    assert_eq!(aggs.len(), 1);
    assert_eq!(aggs[0].key, b"_total".to_vec());
    assert_eq!(aggs[0].agg.sum, 500);
    assert_eq!(aggs[0].agg.count, 4);
    assert_eq!(aggs[0].agg.min, 50);
    assert_eq!(aggs[0].agg.max, 200);
}

#[test]
fn aggregate_grouped_by_method() {
    let data = ten_line_file();
    let aggs = aggregate_size(&data, &Some(GroupByColumn::Method), &None, &None);
    assert_eq!(aggs.len(), 1);
    assert_eq!(aggs[0].key, b"GET".to_vec());
    assert_eq!(aggs[0].agg.count, 10);
    assert_eq!(aggs[0].agg.sum, 1000);
    assert_eq!(aggs[0].agg.avg(), 100);
}

#[test]
fn filter_lines_with_status_and_text() {
    let data = ten_line_file();
    let ge400 = StatusFilter::parse(">=400").unwrap();
    let (count, lines) = filter_lines(&data, Some(ge400), None, None, 3);
    assert_eq!(count, 5);
    assert_eq!(lines.len(), 3);
    let pattern: &[u8] = b" 503 ";
    let (count2, lines2) = filter_lines(&data, None, None, Some(pattern), 50);
    assert_eq!(count2, 1);
    assert_eq!(lines2.len(), 1);
}

#[test]
fn regex_search_counts_and_errors() {
    let data = ten_line_file();
    match regex_search(&data, "GET /index", None, 2) {
        Ok((count, lines)) => {
            assert_eq!(count, 10);
            assert_eq!(lines.len(), 2);
        }
        Err(_) => panic!("valid pattern must compile"),
    }
    match regex_search(&data, "(", None, 2) {
        Ok(_) => panic!("invalid pattern must fail"),
        Err(e) => assert!(matches!(e, ParseError::ParseFailed(_))),
    }
    assert!(count_matches(&data, "50[03]").unwrap() == 2);
}

#[test]
fn fast_paths_agree_on_clean_input() {
    let data = ten_line_file();
    // No quoted field of this input contains a `" 4`-shaped false
    // positive, so the grep-like count equals the structural one.
    let ge400 = StatusFilter::parse(">=400").unwrap();
    assert_eq!(fast_count_errors(&data), count_status(&data, &ge400) as u64);

    let (count, lines) = fast_filter_status(&data, 400);
    assert_eq!(count, 5);
    assert_eq!(lines.len(), 5);
    assert!(lines.iter().all(|l| !l.contains(&b'\n')));
}

#[test]
fn fast_filter_preserves_file_order() {
    // A server error precedes a client error in the file; the returned
    // lines keep that order.
    let data = format!(
        "{}\n{}\n{}\n",
        apache_line(500, 1, "/first"),
        apache_line(200, 2, "/mid"),
        apache_line(404, 3, "/last")
    )
    .into_bytes();
    let (count, lines) = fast_filter_status(&data, 400);
    assert_eq!(count, 2);
    assert_eq!(lines.len(), 2);
    assert!(lines[0].windows(6).any(|w| w == b"/first"));
    assert!(lines[1].windows(5).any(|w| w == b"/last"));
}

#[test]
fn fast_group_by_ip_counts() {
    let data = b"1.1.1.1 x\n2.2.2.2 y\n1.1.1.1 z\n".to_vec();
    let groups = fast_group_by_ip(&data);
    let got: Vec<(Vec<u8>, u64)> = groups.into_iter().map(|e| (e.key, e.count)).collect();
    assert_eq!(got, vec![(b"1.1.1.1".to_vec(), 2), (b"2.2.2.2".to_vec(), 1)]);
}

#[test]
fn parse_lazy_filters_and_extracts() {
    let data = format!(
        "{}\n{}\n\n",
        apache_line(200, 10, "/keep"),
        apache_line(500, 20, "/err")
    )
    .into_bytes();
    let rows = parse_lazy(&data, true, true, true, Some(400));
    assert_eq!(rows.len(), 1);
    assert_eq!(rows[0].status, Some(500));
    assert_eq!(rows[0].path.as_deref(), Some(b"/err".as_slice()));
    let all = parse_lazy(&data, false, false, false, None);
    assert_eq!(all.len(), 2);
    assert_eq!(all[0].ip, None);
}

#[test]
fn syslog_operations() {
    let data = b"Dec 17 10:30:45 server01 sshd[12345]: Accepted password for user\n\
Dec 17 10:30:46 server02 nginx: GET /index.html\n\
Dec 17 10:30:47 server01 sshd[12346]: Failed password for root\n"
        .to_vec();
    let pattern: &[u8] = b"password";
    let (count, lines) = log_forensics::syslog_scan::filter_lines(&data, Some(pattern), 10);
    assert_eq!(count, 2);
    assert_eq!(lines.len(), 2);

    let groups = log_forensics::syslog_scan::group_by_count(&data, &SyslogGroupBy::Hostname, &None);
    let got: Vec<(Vec<u8>, u64)> = groups.into_iter().map(|e| (e.key, e.count)).collect();
    assert_eq!(got, vec![(b"server01".to_vec(), 2), (b"server02".to_vec(), 1)]);

    let (rc, rl) = log_forensics::syslog_scan::regex_search(&data, "Failed", 10).unwrap();
    assert_eq!(rc, 1);
    assert_eq!(rl.len(), 1);
}

#[test]
fn timestamp_parsing_and_time_filter() {
    let ts = parse_timestamp_to_i64(b"10/Oct/2024:13:55:36 +0000").unwrap();
    assert_eq!(ts, 20241010135536);
    assert_eq!(parse_time_input("2024-10-10"), Some(20241010000000));
    assert_eq!(parse_time_input("2024-10-10T13:55:36"), Some(20241010135536));
    assert_eq!(parse_time_input("nonsense"), None);

    let tf = TimeFilter::new(Some("2024-10-10"), Some("2024-10-11")).unwrap();
    assert!(tf.matches(ts));
    let before = parse_timestamp_to_i64(b"09/Oct/2024:23:59:59 +0000").unwrap();
    assert!(!tf.matches(before));
}

#[test]
fn time_filter_over_lines() {
    let data = format!(
        "1.2.3.4 - - [10/Oct/2024:13:55:36 +0000] \"GET /a HTTP/1.1\" 200 10\n\
1.2.3.4 - - [09/Oct/2024:23:59:59 +0000] \"GET /b HTTP/1.1\" 200 10\n"
    )
    .into_bytes();
    let tf = TimeFilter::new(Some("2024-10-10"), Some("2024-10-11")).unwrap();
    let (count, _) = filter_lines(&data, None, Some(tf), None, 10);
    assert_eq!(count, 1);
}

#[test]
fn format_detection() {
    assert_eq!(LogFormat::from_str("Apache"), LogFormat::Apache);
    assert_eq!(LogFormat::from_str("ndjson"), LogFormat::Json);
    assert_eq!(LogFormat::from_str("whatever"), LogFormat::Auto);
    assert_eq!(detect_format("/var/log/data.JSON", None), LogFormat::Json);
    assert_eq!(detect_format("/var/log/data.tsv", None), LogFormat::Csv);
    assert_eq!(
        detect_format("/var/log/app.log", Some(b"{\"level\":\"info\"}")),
        LogFormat::Json
    );
    assert_eq!(
        detect_format(
            "/var/log/app.log",
            Some(b"1.2.3.4 - - [10/Oct/2024:13:55:36 +0000] \"GET / HTTP/1.1\" 200 5")
        ),
        LogFormat::Apache
    );
    assert_eq!(
        detect_format("/var/log/app.log", Some(b"<13>Dec 17 10:30:45 h p: m")),
        LogFormat::Syslog
    );
    assert_eq!(detect_format("/var/log/app.log", Some(b"a,b,c")), LogFormat::Csv);
    assert_eq!(detect_format("noext", None), LogFormat::Auto);
    assert_eq!(detect_csv_separator(b"a\tb"), b'\t');
    assert_eq!(detect_csv_separator(b"a,b"), b',');
}

#[test]
fn group_column_aliases() {
    assert_eq!(GroupByColumn::parse("IP"), Some(GroupByColumn::Ip));
    assert_eq!(GroupByColumn::parse("remote_addr"), Some(GroupByColumn::Ip));
    assert_eq!(GroupByColumn::parse("URI"), Some(GroupByColumn::Path));
    assert_eq!(GroupByColumn::parse("ua"), Some(GroupByColumn::UserAgent));
    assert_eq!(GroupByColumn::parse("bogus"), None);
    assert_eq!(SyslogGroupBy::parse("Host"), Some(SyslogGroupBy::Hostname));
    assert_eq!(SyslogGroupBy::parse("app"), Some(SyslogGroupBy::Process));
    assert_eq!(SyslogGroupBy::parse("bogus"), None);
}

#[test]
fn records_from_buffers() {
    let data = format!("{}\nnot a log line\n", apache_line(200, 2326, "/index.html")).into_bytes();
    let rows = parse_apache_records(&data);
    assert_eq!(rows.len(), 2);
    assert_eq!(rows[0].ip, b"192.168.1.0".to_vec());
    assert_eq!(rows[0].status, Some(200));
    assert_eq!(rows[0].size, Some(2326));
    assert_eq!(rows[1].status, None);
    assert_eq!(rows[1].ip, b"-".to_vec());

    let sdata = b"<134>Dec 17 10:30:45 server01 nginx: GET /index.html\n".to_vec();
    let srows = parse_syslog_records(&sdata);
    assert_eq!(srows.len(), 1);
    assert_eq!(srows[0].priority, Some(134));
    assert_eq!(srows[0].hostname, b"server01".to_vec());
    assert_eq!(srows[0].process, b"nginx".to_vec());
    assert_eq!(srows[0].message, b"GET /index.html".to_vec());
    assert_eq!(srows[0].level, "INFO");
}

#[test]
fn priority_levels() {
    assert_eq!(priority_to_level(Some(134)), "INFO");
    assert_eq!(priority_to_level(Some(0)), "EMERGENCY");
    assert_eq!(priority_to_level(Some(11)), "ERROR");
    assert_eq!(priority_to_level(None), "UNKNOWN");
}

#[test]
fn agg_result_avg() {
    let mut a = AggResult::new();
    assert_eq!(a.avg(), 0);
    a.add_sample(10);
    a.add_sample(5);
    a.add_sample(6);
    assert_eq!(a.avg(), 7);
    assert_eq!(a.min, 5);
    assert_eq!(a.max, 10);
}
