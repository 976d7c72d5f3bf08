//! Grouping columns for the two structured formats.
//!
//! Each format family has a closed set of columns a query may group by;
//! parsing accepts common aliases, case-insensitively.

use vstd::prelude::*;

use crate::bytes::{ascii_lower, keyword_matches, to_ascii_lower};

use vstd::string::StringSliceAdditionalSpecFns;

verus! {

/// A column of the Apache format a query may group by.
#[derive(Debug, Clone, Copy, PartialEq, Eq, Structural)]
pub enum GroupByColumn {
    Ip,
    Path,
    Method,
    Status,
    Referer,
    UserAgent,
}

/// The Apache grouping column named by the lower-cased bytes `t`.
pub open spec fn group_col_of(t: Seq<u8>) -> Option<GroupByColumn> {
    if t == "ip".spec_bytes() || t == "remote_addr".spec_bytes() || t == "client".spec_bytes() {
        Some(GroupByColumn::Ip)
    } else if t == "path".spec_bytes() || t == "uri".spec_bytes() || t == "url".spec_bytes() || t
        == "request_path".spec_bytes() {
        Some(GroupByColumn::Path)
    } else if t == "method".spec_bytes() || t == "request_method".spec_bytes() || t
        == "http_method".spec_bytes() {
        Some(GroupByColumn::Method)
    } else if t == "status".spec_bytes() || t == "status_code".spec_bytes() || t
        == "http_status".spec_bytes() {
        Some(GroupByColumn::Status)
    } else if t == "referer".spec_bytes() || t == "referrer".spec_bytes() || t
        == "http_referer".spec_bytes() {
        Some(GroupByColumn::Referer)
    } else if t == "user_agent".spec_bytes() || t == "useragent".spec_bytes() || t
        == "ua".spec_bytes() || t == "http_user_agent".spec_bytes() {
        Some(GroupByColumn::UserAgent)
    } else {
        None
    }
}

impl GroupByColumn {
    /// Parse a column name or one of its aliases, case-insensitively.
    pub fn parse(s: &str) -> (r: Option<GroupByColumn>)
        ensures
            r == group_col_of(ascii_lower(s.spec_bytes())),
    {
        let low = to_ascii_lower(s.as_bytes());
        let t = low.as_slice();
        if keyword_matches(t, "ip") || keyword_matches(t, "remote_addr") || keyword_matches(
            t,
            "client",
        ) {
            Some(GroupByColumn::Ip)
        } else if keyword_matches(t, "path") || keyword_matches(t, "uri") || keyword_matches(
            t,
            "url",
        ) || keyword_matches(t, "request_path") {
            Some(GroupByColumn::Path)
        } else if keyword_matches(t, "method") || keyword_matches(t, "request_method")
            || keyword_matches(t, "http_method") {
            Some(GroupByColumn::Method)
        } else if keyword_matches(t, "status") || keyword_matches(t, "status_code")
            || keyword_matches(t, "http_status") {
            Some(GroupByColumn::Status)
        } else if keyword_matches(t, "referer") || keyword_matches(t, "referrer")
            || keyword_matches(t, "http_referer") {
            Some(GroupByColumn::Referer)
        } else if keyword_matches(t, "user_agent") || keyword_matches(t, "useragent")
            || keyword_matches(t, "ua") || keyword_matches(t, "http_user_agent") {
            Some(GroupByColumn::UserAgent)
        } else {
            None
        }
    }
}

/// A column of the syslog format a query may group by.
#[derive(Debug, Clone, Copy, PartialEq, Eq, Structural)]
pub enum SyslogGroupBy {
    Hostname,
    Process,
}

/// The syslog grouping column named by the lower-cased bytes `t`.
pub open spec fn syslog_col_of(t: Seq<u8>) -> Option<SyslogGroupBy> {
    if t == "hostname".spec_bytes() || t == "host".spec_bytes() || t == "server".spec_bytes() {
        Some(SyslogGroupBy::Hostname)
    } else if t == "process".spec_bytes() || t == "program".spec_bytes() || t
        == "service".spec_bytes() || t == "app".spec_bytes() {
        Some(SyslogGroupBy::Process)
    } else {
        None
    }
}

impl SyslogGroupBy {
    /// Parse a column name or one of its aliases, case-insensitively.
    pub fn parse(s: &str) -> (r: Option<SyslogGroupBy>)
        ensures
            r == syslog_col_of(ascii_lower(s.spec_bytes())),
    {
        let low = to_ascii_lower(s.as_bytes());
        let t = low.as_slice();
        if keyword_matches(t, "hostname") || keyword_matches(t, "host") || keyword_matches(
            t,
            "server",
        ) {
            Some(SyslogGroupBy::Hostname)
        } else if keyword_matches(t, "process") || keyword_matches(t, "program")
            || keyword_matches(t, "service") || keyword_matches(t, "app") {
            Some(SyslogGroupBy::Process)
        } else {
            None
        }
    }
}

} // verus!
