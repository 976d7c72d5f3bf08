use log_forensics::apache::{extract_method, extract_path, extract_size, extract_status, find_fields};
use log_forensics::fast::{extract_ip, extract_status_fast};
use log_forensics::status::StatusFilter;
use log_forensics::syslog::{extract_hostname, extract_process, find_syslog_fields};

#[test]
fn test_extract_ip() {
    let line = b"192.168.1.1 - - [10/Oct/2024:13:55:36 +0000] \"GET /index.html HTTP/1.1\" 200 2326";
    assert_eq!(extract_ip(line), b"192.168.1.1");
}

#[test]
fn test_extract_status_fast() {
    let line = b"192.168.1.1 - - [10/Oct/2024:13:55:36 +0000] \"GET /index.html HTTP/1.1\" 200 2326";
    assert_eq!(extract_status_fast(line), Some(200));

    let line2 = b"192.168.1.1 - - [10/Oct/2024:13:55:36 +0000] \"GET /index.html HTTP/1.1\" 404 123";
    assert_eq!(extract_status_fast(line2), Some(404));
}

#[test]
fn test_find_fields() {
    let line = b"192.168.1.1 - - [10/Oct/2024:13:55:36 +0000] \"GET /index.html HTTP/1.1\" 200 2326";
    let offsets = find_fields(line).expect("Should parse");

    assert_eq!(&line[..offsets.ip_end], b"192.168.1.1");
    assert_eq!(
        &line[offsets.request_start..offsets.request_end],
        b"GET /index.html HTTP/1.1"
    );

    let status = extract_status(line, &offsets);
    assert_eq!(status, Some(200));

    let size = extract_size(line, &offsets);
    assert_eq!(size, Some(2326));
}

#[test]
fn test_extract_method_path() {
    let line = b"192.168.1.1 - - [10/Oct/2024:13:55:36 +0000] \"POST /api/users HTTP/1.1\" 201 100";
    let offsets = find_fields(line).expect("Should parse");

    assert_eq!(extract_method(line, &offsets), b"POST");
    assert_eq!(extract_path(line, &offsets), b"/api/users");
}

#[test]
fn test_status_filter_parse() {
    assert!(matches!(
        StatusFilter::parse(">=400"),
        Some(StatusFilter::GreaterOrEqual(400))
    ));
    assert!(matches!(
        StatusFilter::parse("=200"),
        Some(StatusFilter::Equal(200))
    ));
    assert!(matches!(
        StatusFilter::parse("4xx"),
        Some(StatusFilter::Range(400, 499))
    ));
    assert!(matches!(
        StatusFilter::parse("500"),
        Some(StatusFilter::Equal(500))
    ));
}

#[test]
fn test_no_false_positives() {
    // Valid line with 404 in URL path but status 200
    let line = b"192.168.1.1 - - [10/Oct/2024:13:55:36 +0000] \"GET /error/404/page HTTP/1.1\" 200 100";
    let offsets = find_fields(line).expect("Should parse");
    let status = extract_status(line, &offsets);
    assert_eq!(status, Some(200)); // Should be 200, not 404
}

#[test]
fn test_extract_size() {
    let line = b"192.168.1.1 - - [10/Oct/2024:13:55:36 +0000] \"GET /index.html HTTP/1.1\" 200 12345";
    let offsets = find_fields(line).expect("Should parse");
    let size = extract_size(line, &offsets);
    assert_eq!(size, Some(12345));
}

#[test]
fn test_find_syslog_fields() {
    let line = b"Dec 17 10:30:45 server01 sshd[12345]: Accepted password for user";
    let offsets = find_syslog_fields(line).expect("Should parse");

    assert_eq!(extract_hostname(line, &offsets), b"server01");
    assert_eq!(extract_process(line, &offsets), b"sshd");
}

#[test]
fn test_syslog_with_priority() {
    let line = b"<134>Dec 17 10:30:45 server01 nginx: GET /index.html";
    let offsets = find_syslog_fields(line).expect("Should parse");

    assert_eq!(extract_hostname(line, &offsets), b"server01");
    assert_eq!(extract_process(line, &offsets), b"nginx");
}

#[test]
fn test_syslog_missing_delimiters_rejected() {
    // Fewer than three timestamp spaces.
    assert!(find_syslog_fields(b"a b").is_none());
    assert!(find_syslog_fields(b"Dec 17 10:30:45").is_none());
    // No space after the hostname.
    assert!(find_syslog_fields(b"Dec 17 10:30:45 server01").is_none());
    // No colon after the process.
    assert!(find_syslog_fields(b"Dec 17 10:30:45 server01 sshd").is_none());
    assert!(find_syslog_fields(b"Dec 17 10:30:45 server01 sshd message").is_none());
    assert!(find_syslog_fields(b"").is_none());
}
