//! The tool surface: parameter records, defaults, and the planner that
//! dispatches each operation to the fast scanner path or to the fallback
//! plan.
//!
//! The dispatch decision and the fallback plan construction live here
//! and are verified; running the scanner on mapped bytes, executing the
//! plan on the engine, and formatting responses are a caller's work.

use vstd::prelude::*;

use crate::agg::AggOp;
use crate::bytes::{ascii_lower, contains_sub, has_substr, keyword_matches, to_ascii_lower};
use crate::columns::{group_col_of, syslog_col_of, GroupByColumn, SyslogGroupBy};
use crate::format::{format_of, LogFormat};
use crate::plan::{
    lemma_ops_view_push, lemma_ops_view_push2, op_view, ops_view, status_expr_of, GroupAggKind,
    OpView, QueryBuilder, QueryError, QueryOp,
};
use crate::status::{status_filter_of, StatusFilter};
use crate::time::{time_filter_of, trim_spec, TimeFilter};

use vstd::string::StringSliceAdditionalSpecFns;
use vstd::utf8::encode_utf8;

verus! {

/// Parameters of the analyze operation.
#[derive(Debug)]
pub struct AnalyzeLogsParams {
    /// Path to a log file or a glob pattern.
    pub path: String,
    /// Format name, `auto` to detect.
    pub format: String,
    /// Status filter text, such as `>=400` or `4xx`.
    pub filter_status: Option<String>,
    /// Substring filter over the line text.
    pub filter_text: Option<String>,
    /// Inclusive start of the time range.
    pub filter_time_start: Option<String>,
    /// Inclusive end of the time range.
    pub filter_time_end: Option<String>,
    /// Column to group by.
    pub group_by: Option<String>,
    /// Column to sort by.
    pub sort_by: Option<String>,
    /// Sort descending.
    pub sort_desc: bool,
    /// Greatest number of rows to return.
    pub limit: u32,
}

/// Parameters of the schema operation.
#[derive(Debug)]
pub struct GetSchemaParams {
    /// Path to a log file.
    pub path: String,
    /// Format name, `auto` to detect.
    pub format: String,
    /// Number of sample rows to include.
    pub sample_rows: u32,
}

/// Parameters of the aggregate operation.
#[derive(Debug)]
pub struct AggregateLogsParams {
    /// Path to a log file or a glob pattern.
    pub path: String,
    /// One of `count`, `sum`, `avg`, `min`, `max`, `unique`.
    pub operation: String,
    /// Column to aggregate.
    pub column: Option<String>,
    /// Column to group by; aggregation requires one.
    pub group_by: Option<String>,
    /// Substring filter over the line text.
    pub filter_text: Option<String>,
    /// Format name, `auto` to detect.
    pub format: String,
    /// Greatest number of rows to return.
    pub limit: u32,
}

/// Parameters of the pattern-search operation.
#[derive(Debug)]
pub struct SearchPatternParams {
    /// Path to a log file or a glob pattern.
    pub path: String,
    /// Regex pattern to search for.
    pub pattern: String,
    /// Column to search in.
    pub column: Option<String>,
    /// Case sensitive search.
    pub case_sensitive: bool,
    /// Format name, `auto` to detect.
    pub format: String,
    /// Greatest number of rows to return.
    pub limit: u32,
}

/// Parameters of the time-analysis operation.
#[derive(Debug)]
pub struct TimeAnalysisParams {
    /// Path to a log file or a glob pattern.
    pub path: String,
    /// One of `minute`, `hour`, `day`.
    pub bucket: String,
    /// Time column to bucket on.
    pub time_column: Option<String>,
    /// What to count per bucket.
    pub count_column: Option<String>,
    /// Substring filter over the line text.
    pub filter_text: Option<String>,
    /// Format name, `auto` to detect.
    pub format: String,
    /// Greatest number of buckets to return.
    pub limit: u32,
}

/// The default format name: `auto`.
pub fn default_format() -> (r: String)
    ensures
        r@ == "auto"@,
{
    "auto".to_owned()
}

/// The default row limit.
pub fn default_limit() -> (r: u32)
    ensures
        r == 50u32,
{
    50
}

/// The default sample size of the schema operation.
pub fn default_sample() -> (r: u32)
    ensures
        r == 5u32,
{
    5
}

/// The default of boolean flags that are on unless disabled.
pub fn default_true() -> (r: bool)
    ensures
        r,
{
    true
}

/// Where the analyze operation runs.
#[derive(Debug)]
pub enum AnalyzeRoute {
    /// Scan one Apache file with pushed-down filters.
    ApacheSingle { status_filter: Option<StatusFilter>, time_filter: Option<TimeFilter> },
    /// Count matching statuses across several Apache files.
    ApacheMultiCount { status_filter: StatusFilter },
    /// Scan one syslog file with the text filter.
    SyslogSingle,
    /// Run the fallback plan.
    Fallback,
}

/// Where the aggregate operation runs.
#[derive(Debug)]
pub enum AggregateRoute {
    /// Group-and-count by an Apache column.
    ApacheGroupCount { column: GroupByColumn },
    /// Aggregate the size field, optionally grouped.
    ApacheAggSize { op: AggOp, group: Option<GroupByColumn> },
    /// Group-and-count by a syslog column on one file.
    SyslogGroupCount { column: SyslogGroupBy },
    /// Run the fallback plan.
    Fallback,
}

/// Where the search operation runs.
#[derive(Debug)]
pub enum SearchRoute {
    /// Regex-scan one Apache file.
    ApacheFast,
    /// Regex-scan one syslog file.
    SyslogFast,
    /// Run the fallback plan.
    Fallback,
}

/// Whether a declared or inferred format targets the Apache scanner: an
/// Apache or Nginx declaration, or an undetected format on a path whose
/// name suggests an access log.
pub open spec fn targets_apache(format: LogFormat, path: Seq<u8>) -> bool {
    format == LogFormat::Apache || format == LogFormat::Nginx || (format == LogFormat::Auto
        && contains_sub(path, "access".spec_bytes()))
}

/// Whether a declared or inferred format targets the syslog scanner.
pub open spec fn targets_syslog(format: LogFormat, path: Seq<u8>) -> bool {
    format == LogFormat::Syslog || (format == LogFormat::Auto && (contains_sub(
        path,
        "syslog".spec_bytes(),
    ) || contains_sub(path, "messages".spec_bytes())))
}

fn is_apache_target(format: &LogFormat, path: &str) -> (r: bool)
    ensures
        r == targets_apache(*format, path.spec_bytes()),
{
    match format {
        LogFormat::Apache => true,
        LogFormat::Nginx => true,
        LogFormat::Auto => has_substr(path.as_bytes(), "access".as_bytes()),
        _ => false,
    }
}

fn is_syslog_target(format: &LogFormat, path: &str) -> (r: bool)
    ensures
        r == targets_syslog(*format, path.spec_bytes()),
{
    match format {
        LogFormat::Syslog => true,
        LogFormat::Auto => has_substr(path.as_bytes(), "syslog".as_bytes()) || has_substr(
            path.as_bytes(),
            "messages".as_bytes(),
        ),
        _ => false,
    }
}

/// The analyze route: the Apache fast path applies without grouping, to
/// one file with any filters, or to several files when the status filter
/// is the only filter, since the multi-file count pushes down nothing
/// else; the syslog fast path applies to one file with at most a text
/// filter; everything else falls back.
pub open spec fn analyze_route_of(
    p: AnalyzeLogsParams,
    n_paths: int,
    single_is_file: bool,
) -> AnalyzeRoute {
    let format = format_of(ascii_lower(encode_utf8(p.format@)));
    let pathb = encode_utf8(p.path@);
    let sf = match p.filter_status {
        Some(s) => status_filter_of(trim_spec(encode_utf8(s@))),
        None => None,
    };
    let tf = time_filter_of(
        match p.filter_time_start {
            Some(s) => Some(encode_utf8(s@)),
            None => None,
        },
        match p.filter_time_end {
            Some(e) => Some(encode_utf8(e@)),
            None => None,
        },
    );
    if targets_apache(format, pathb) && p.group_by is None && n_paths == 1 && single_is_file {
        AnalyzeRoute::ApacheSingle { status_filter: sf, time_filter: tf }
    } else if targets_apache(format, pathb) && p.group_by is None && n_paths > 1 && sf is Some
        && p.filter_text is None && p.filter_time_start is None && p.filter_time_end is None {
        AnalyzeRoute::ApacheMultiCount { status_filter: sf.unwrap() }
    } else if targets_syslog(format, pathb) && p.filter_status is None && p.filter_time_start
        is None && p.filter_time_end is None && p.group_by is None && single_is_file {
        AnalyzeRoute::SyslogSingle
    } else {
        AnalyzeRoute::Fallback
    }
}

/// A server handle carrying no state: every query owns its own maps.
#[derive(Debug)]
pub struct LogForensicsServer {}

impl LogForensicsServer {
    /// Create the server handle.
    pub fn new() -> (r: LogForensicsServer) {
        LogForensicsServer {  }
    }

    /// Decide where the analyze operation runs.  `n_paths` is how many
    /// files the path glob matched, and `single_is_file` whether a single
    /// match is a plain file.
    pub fn analyze_route(
        &self,
        params: &AnalyzeLogsParams,
        n_paths: usize,
        single_is_file: bool,
    ) -> (r: AnalyzeRoute)
        ensures
            r == analyze_route_of(*params, n_paths as int, single_is_file),
    {
        let format = LogFormat::from_str(params.format.as_str());
        let apache = is_apache_target(&format, params.path.as_str());
        let syslog = is_syslog_target(&format, params.path.as_str());
        let sf = match &params.filter_status {
            Some(s) => StatusFilter::parse(s.as_str()),
            None => None,
        };
        let tf = TimeFilter::new(
            match &params.filter_time_start {
                Some(s) => Some(s.as_str()),
                None => None,
            },
            match &params.filter_time_end {
                Some(e) => Some(e.as_str()),
                None => None,
            },
        );
        if apache && params.group_by.is_none() && n_paths == 1 && single_is_file {
            AnalyzeRoute::ApacheSingle { status_filter: sf, time_filter: tf }
        } else if apache && params.group_by.is_none() && n_paths > 1 && sf.is_some()
            && params.filter_text.is_none() && params.filter_time_start.is_none()
            && params.filter_time_end.is_none() {
            match sf {
                Some(f) => AnalyzeRoute::ApacheMultiCount { status_filter: f },
                None => AnalyzeRoute::Fallback,
            }
        } else if syslog && params.filter_status.is_none() && params.filter_time_start.is_none()
            && params.filter_time_end.is_none() && params.group_by.is_none() && single_is_file {
            AnalyzeRoute::SyslogSingle
        } else {
            AnalyzeRoute::Fallback
        }
    }

    /// Decide where the aggregate operation runs.
    pub fn aggregate_route(&self, params: &AggregateLogsParams, single_is_file: bool) -> (r:
        AggregateRoute)
        ensures
            r == aggregate_route_of(*params, single_is_file),
    {
        let format = LogFormat::from_str(params.format.as_str());
        let apache = is_apache_target(&format, params.path.as_str());
        let syslog = is_syslog_target(&format, params.path.as_str());
        let op_low = to_ascii_lower(params.operation.as_str().as_bytes());
        let op = op_low.as_slice();
        if apache {
            let group_col = match &params.group_by {
                Some(g) => GroupByColumn::parse(g.as_str()),
                None => None,
            };
            if keyword_matches(op, "count") {
                if let Some(column) = group_col {
                    return AggregateRoute::ApacheGroupCount { column };
                }
            }
            if keyword_matches(op, "sum") {
                return AggregateRoute::ApacheAggSize { op: AggOp::Sum, group: group_col };
            }
            if keyword_matches(op, "avg") {
                return AggregateRoute::ApacheAggSize { op: AggOp::Avg, group: group_col };
            }
            if keyword_matches(op, "min") {
                return AggregateRoute::ApacheAggSize { op: AggOp::Min, group: group_col };
            }
            if keyword_matches(op, "max") {
                return AggregateRoute::ApacheAggSize { op: AggOp::Max, group: group_col };
            }
        }
        if syslog && keyword_matches(op, "count") && single_is_file {
            let col = match &params.group_by {
                Some(g) => SyslogGroupBy::parse(g.as_str()),
                None => None,
            };
            if let Some(column) = col {
                return AggregateRoute::SyslogGroupCount { column };
            }
        }
        AggregateRoute::Fallback
    }

    /// Decide where the search operation runs.
    pub fn search_route(&self, params: &SearchPatternParams, is_file: bool) -> (r: SearchRoute)
        ensures
            r == search_route_of(*params, is_file),
    {
        let format = LogFormat::from_str(params.format.as_str());
        if is_apache_target(&format, params.path.as_str()) && is_file {
            SearchRoute::ApacheFast
        } else if is_syslog_target(&format, params.path.as_str()) && is_file {
            SearchRoute::SyslogFast
        } else {
            SearchRoute::Fallback
        }
    }

    /// Resolve the schema operation's format hint.
    pub fn schema_format(&self, params: &GetSchemaParams) -> (r: LogFormat)
        ensures
            r == format_of(ascii_lower(encode_utf8(params.format@))),
    {
        LogFormat::from_str(params.format.as_str())
    }
}

/// The aggregate route: counting by a recognized Apache column or
/// aggregating sizes runs on the scanner; counting by a recognized
/// syslog column on one file does too; everything else falls back.
pub open spec fn aggregate_route_of(p: AggregateLogsParams, single_is_file: bool) -> AggregateRoute {
    let format = format_of(ascii_lower(encode_utf8(p.format@)));
    let pathb = encode_utf8(p.path@);
    let op = ascii_lower(encode_utf8(p.operation@));
    let group_col = match p.group_by {
        Some(g) => group_col_of(ascii_lower(encode_utf8(g@))),
        None => None,
    };
    if targets_apache(format, pathb) && op == "count".spec_bytes() && group_col is Some {
        AggregateRoute::ApacheGroupCount { column: group_col.unwrap() }
    } else if targets_apache(format, pathb) && op == "sum".spec_bytes() {
        AggregateRoute::ApacheAggSize { op: AggOp::Sum, group: group_col }
    } else if targets_apache(format, pathb) && op == "avg".spec_bytes() {
        AggregateRoute::ApacheAggSize { op: AggOp::Avg, group: group_col }
    } else if targets_apache(format, pathb) && op == "min".spec_bytes() {
        AggregateRoute::ApacheAggSize { op: AggOp::Min, group: group_col }
    } else if targets_apache(format, pathb) && op == "max".spec_bytes() {
        AggregateRoute::ApacheAggSize { op: AggOp::Max, group: group_col }
    } else if targets_syslog(format, pathb) && op == "count".spec_bytes() && single_is_file && (
    match p.group_by {
        Some(g) => syslog_col_of(ascii_lower(encode_utf8(g@))) is Some,
        None => false,
    }) {
        AggregateRoute::SyslogGroupCount {
            column: syslog_col_of(ascii_lower(encode_utf8(p.group_by.unwrap()@))).unwrap(),
        }
    } else {
        AggregateRoute::Fallback
    }
}

/// The search route: a single file of either structured family runs on
/// the scanner; everything else falls back.
pub open spec fn search_route_of(p: SearchPatternParams, is_file: bool) -> SearchRoute {
    let format = format_of(ascii_lower(encode_utf8(p.format@)));
    let pathb = encode_utf8(p.path@);
    if targets_apache(format, pathb) && is_file {
        SearchRoute::ApacheFast
    } else if targets_syslog(format, pathb) && is_file {
        SearchRoute::SyslogFast
    } else {
        SearchRoute::Fallback
    }
}


/// The fallback text column for a format: JSON and CSV rows have a
/// `message` column, structured rows carry the `raw` line.
pub open spec fn text_column_of(format: LogFormat) -> Seq<char> {
    if format == LogFormat::Json || format == LogFormat::Csv {
        "message"@
    } else {
        "raw"@
    }
}

/// The fallback plan of the analyze operation: the present filters in
/// fixed order, then grouping with a count (or a sort), then the limit.
pub open spec fn analyze_plan_of(p: AnalyzeLogsParams) -> Seq<OpView> {
    let format = format_of(ascii_lower(encode_utf8(p.format@)));
    let s1 = match p.filter_status {
        Some(s) => match status_expr_of(trim_spec(encode_utf8(s@))) {
            Some(e) => seq![OpView::FilterStatus { expr: e }],
            None => Seq::<OpView>::empty(),
        },
        None => Seq::<OpView>::empty(),
    };
    let s2 = s1 + (match p.filter_text {
        Some(t) => seq![
            OpView::FilterText {
                column: text_column_of(format),
                pattern: t@,
                case_sensitive: false,
            },
        ],
        None => Seq::<OpView>::empty(),
    });
    let s3 = s2 + (match p.filter_time_start {
        Some(st) => seq![
            OpView::FilterTimeRange { column: "timestamp"@, start: Some(st@), end: None },
        ],
        None => Seq::<OpView>::empty(),
    });
    let s4 = s3 + (match p.filter_time_end {
        Some(en) => seq![
            OpView::FilterTimeRange { column: "timestamp"@, start: None, end: Some(en@) },
        ],
        None => Seq::<OpView>::empty(),
    });
    let s5 = s4 + (match p.group_by {
        Some(g) => seq![
            OpView::GroupBy { column: g@, agg: GroupAggKind::Count, agg_column: None },
            OpView::Sort { column: "count"@, descending: true },
        ],
        None => match p.sort_by {
            Some(sc) => seq![OpView::Sort { column: sc@, descending: p.sort_desc }],
            None => Seq::<OpView>::empty(),
        },
    });
    s5 + seq![OpView::Limit { n: p.limit }]
}

impl LogForensicsServer {
    /// Build the fallback plan of the analyze operation.
    #[verifier::rlimit(100)]
    #[verifier::spinoff_prover]
    pub fn build_analyze_fallback(&self, params: &AnalyzeLogsParams) -> (r: Vec<QueryOp>)
        ensures
            ops_view(r@) == analyze_plan_of(*params),
    {
        let format = LogFormat::from_str(params.format.as_str());
        let text_col = match format {
            LogFormat::Json => "message",
            LogFormat::Csv => "message",
            _ => "raw",
        };
        let mut qb = QueryBuilder::new();
        proof {
            assert(ops_view(qb.ops@) =~= Seq::<OpView>::empty());
        }
        if let Some(s) = &params.filter_status {
            let ghost prev = qb.ops@;
            qb = qb.filter_status(s.as_str());
            proof {
                if status_expr_of(trim_spec(encode_utf8(s@))) is Some {
                    lemma_ops_view_push(prev, qb.ops@);
                }
            }
        }
        let ghost v1 = ops_view(qb.ops@);
        if let Some(t) = &params.filter_text {
            let ghost prev = qb.ops@;
            qb = qb.filter_text(text_col, t.as_str(), false);
            proof {
                lemma_ops_view_push(prev, qb.ops@);
            }
        }
        let ghost v2 = ops_view(qb.ops@);
        if let Some(st) = &params.filter_time_start {
            let ghost prev = qb.ops@;
            qb = qb.filter_time_range("timestamp", Some(st.as_str()), None);
            proof {
                lemma_ops_view_push(prev, qb.ops@);
            }
        }
        let ghost v3 = ops_view(qb.ops@);
        if let Some(en) = &params.filter_time_end {
            let ghost prev = qb.ops@;
            qb = qb.filter_time_range("timestamp", None, Some(en.as_str()));
            proof {
                lemma_ops_view_push(prev, qb.ops@);
            }
        }
        let ghost v4 = ops_view(qb.ops@);
        if let Some(g) = &params.group_by {
            let ghost prev = qb.ops@;
            qb = qb.group_by(g.as_str()).count();
            proof {
                lemma_ops_view_push2(prev, qb.ops@);
            }
        } else if let Some(sc) = &params.sort_by {
            let ghost prev = qb.ops@;
            qb = qb.sort(sc.as_str(), params.sort_desc);
            proof {
                lemma_ops_view_push(prev, qb.ops@);
            }
        }
        let ghost v5 = ops_view(qb.ops@);
        let ghost prev = qb.ops@;
        qb = qb.limit(params.limit);
        proof {
            lemma_ops_view_push(prev, qb.ops@);
            assert(ops_view(qb.ops@) =~= analyze_plan_of(*params));
        }
        qb.into_ops()
    }

    /// Build the fallback plan of the aggregate operation, or the invalid
    /// query error: aggregation requires a grouping column, and the
    /// operation must be a known one.
    pub fn build_aggregate_fallback(&self, params: &AggregateLogsParams) -> (r: Result<
        Vec<QueryOp>,
        QueryError,
    >)
        ensures
            match aggregate_plan_of(*params) {
                Some(plan) => r matches Ok(ops) && ops_view(ops@) == plan,
                None => r is Err,
            },
    {
        let mut qb = QueryBuilder::new();
        proof {
            assert(ops_view(qb.ops@) =~= Seq::<OpView>::empty());
        }
        if let Some(t) = &params.filter_text {
            let ghost prev = qb.ops@;
            qb = qb.filter_text("message", t.as_str(), false);
            proof {
                lemma_ops_view_push(prev, qb.ops@);
            }
        }
        let group_col = match &params.group_by {
            Some(g) => g,
            None => {
                return Err(
                    QueryError::InvalidQuery("group_by is required for aggregations".to_owned()),
                );
            },
        };
        let op_low = to_ascii_lower(params.operation.as_str().as_bytes());
        let op = op_low.as_slice();
        let gb = qb.group_by(group_col.as_str());
        let ghost prev = gb.ops@;
        let with_agg = if keyword_matches(op, "count") {
            let r = gb.count();
            proof {
                lemma_ops_view_push2(prev, r.ops@);
            }
            r
        } else if keyword_matches(op, "sum") {
            let col = match &params.column {
                Some(c) => c.as_str(),
                None => "size",
            };
            let r = gb.sum(col);
            proof {
                lemma_ops_view_push2(prev, r.ops@);
            }
            r
        } else if keyword_matches(op, "avg") {
            let col = match &params.column {
                Some(c) => c.as_str(),
                None => "size",
            };
            let r = gb.avg(col);
            proof {
                lemma_ops_view_push2(prev, r.ops@);
            }
            r
        } else if keyword_matches(op, "min") {
            let col = match &params.column {
                Some(c) => c.as_str(),
                None => "size",
            };
            let r = gb.min(col);
            proof {
                lemma_ops_view_push(prev, r.ops@);
            }
            r
        } else if keyword_matches(op, "max") {
            let col = match &params.column {
                Some(c) => c.as_str(),
                None => "size",
            };
            let r = gb.max(col);
            proof {
                lemma_ops_view_push(prev, r.ops@);
            }
            r
        } else if keyword_matches(op, "unique") {
            let col = match &params.column {
                Some(c) => c.as_str(),
                None => "ip",
            };
            let r = gb.unique_count(col);
            proof {
                lemma_ops_view_push2(prev, r.ops@);
            }
            r
        } else {
            return Err(QueryError::InvalidQuery("unknown aggregation operation".to_owned()));
        };
        let ghost prev2 = with_agg.ops@;
        let done = with_agg.limit(params.limit);
        proof {
            lemma_ops_view_push(prev2, done.ops@);
            assert(ops_view(done.ops@) =~= aggregate_plan_of(*params).unwrap());
        }
        Ok(done.into_ops())
    }

    /// Build the fallback plan of the search operation.
    pub fn build_search_fallback(&self, params: &SearchPatternParams) -> (r: Vec<QueryOp>)
        ensures
            ops_view(r@) == search_plan_of(*params),
    {
        let format = LogFormat::from_str(params.format.as_str());
        let default_col = match format {
            LogFormat::Json => "message",
            LogFormat::Csv => "message",
            _ => "raw",
        };
        let search_col = match &params.column {
            Some(c) => c.as_str(),
            None => default_col,
        };
        let qb = QueryBuilder::new();
        proof {
            assert(ops_view(qb.ops@) =~= Seq::<OpView>::empty());
        }
        let ghost p0 = qb.ops@;
        let qb = qb.filter_regex(search_col, params.pattern.as_str());
        proof {
            lemma_ops_view_push(p0, qb.ops@);
        }
        let ghost p1 = qb.ops@;
        let qb = qb.limit(params.limit);
        proof {
            lemma_ops_view_push(p1, qb.ops@);
            assert(ops_view(qb.ops@) =~= search_plan_of(*params));
        }
        qb.into_ops()
    }

    /// Build the plan of the time-analysis operation: group by the time
    /// column, count, and limit.
    pub fn build_time_analysis(&self, params: &TimeAnalysisParams) -> (r: Vec<QueryOp>)
        ensures
            ops_view(r@) == time_plan_of(*params),
    {
        let time_col = match &params.time_column {
            Some(c) => c.as_str(),
            None => "timestamp",
        };
        let qb = QueryBuilder::new();
        proof {
            assert(ops_view(qb.ops@) =~= Seq::<OpView>::empty());
        }
        let ghost p0 = qb.ops@;
        let qb = qb.group_by(time_col).count();
        proof {
            lemma_ops_view_push2(p0, qb.ops@);
        }
        let ghost p1 = qb.ops@;
        let qb = qb.limit(params.limit);
        proof {
            lemma_ops_view_push(p1, qb.ops@);
            assert(ops_view(qb.ops@) =~= time_plan_of(*params));
        }
        qb.into_ops()
    }
}

/// The fallback plan of the aggregate operation: the text filter, the
/// grouping with its aggregation, and the limit; absent for a missing
/// grouping column or an unknown operation.
pub open spec fn aggregate_plan_of(p: AggregateLogsParams) -> Option<Seq<OpView>> {
    let op = ascii_lower(encode_utf8(p.operation@));
    let s1 = match p.filter_text {
        Some(t) => seq![
            OpView::FilterText { column: "message"@, pattern: t@, case_sensitive: false },
        ],
        None => Seq::<OpView>::empty(),
    };
    match p.group_by {
        None => None,
        Some(g) => {
            let agg_col = |dflt: Seq<char>|
                match p.column {
                    Some(c) => c@,
                    None => dflt,
                };
            let grouped = if op == "count".spec_bytes() {
                Some(
                    s1 + seq![
                        OpView::GroupBy { column: g@, agg: GroupAggKind::Count, agg_column: None },
                        OpView::Sort { column: "count"@, descending: true },
                    ],
                )
            } else if op == "sum".spec_bytes() {
                Some(
                    s1 + seq![
                        OpView::GroupBy {
                            column: g@,
                            agg: GroupAggKind::Sum,
                            agg_column: Some(agg_col("size"@)),
                        },
                        OpView::Sort { column: "sum"@, descending: true },
                    ],
                )
            } else if op == "avg".spec_bytes() {
                Some(
                    s1 + seq![
                        OpView::GroupBy {
                            column: g@,
                            agg: GroupAggKind::Avg,
                            agg_column: Some(agg_col("size"@)),
                        },
                        OpView::Sort { column: "avg"@, descending: true },
                    ],
                )
            } else if op == "min".spec_bytes() {
                Some(
                    s1 + seq![
                        OpView::GroupBy {
                            column: g@,
                            agg: GroupAggKind::Min,
                            agg_column: Some(agg_col("size"@)),
                        },
                    ],
                )
            } else if op == "max".spec_bytes() {
                Some(
                    s1 + seq![
                        OpView::GroupBy {
                            column: g@,
                            agg: GroupAggKind::Max,
                            agg_column: Some(agg_col("size"@)),
                        },
                    ],
                )
            } else if op == "unique".spec_bytes() {
                Some(
                    s1 + seq![
                        OpView::GroupBy {
                            column: g@,
                            agg: GroupAggKind::UniqueCount,
                            agg_column: Some(agg_col("ip"@)),
                        },
                        OpView::Sort { column: "unique_count"@, descending: true },
                    ],
                )
            } else {
                None
            };
            match grouped {
                Some(ops) => Some(ops + seq![OpView::Limit { n: p.limit }]),
                None => None,
            }
        },
    }
}

/// The fallback plan of the search operation: the regex filter on the
/// requested or default column, then the limit.
pub open spec fn search_plan_of(p: SearchPatternParams) -> Seq<OpView> {
    let format = format_of(ascii_lower(encode_utf8(p.format@)));
    let col = match p.column {
        Some(c) => c@,
        None => text_column_of(format),
    };
    seq![
        OpView::FilterRegex { column: col, pattern: p.pattern@ },
        OpView::Limit { n: p.limit },
    ]
}

/// The plan of the time-analysis operation: group by the time column,
/// count, and limit.
pub open spec fn time_plan_of(p: TimeAnalysisParams) -> Seq<OpView> {
    let col = match p.time_column {
        Some(c) => c@,
        None => "timestamp"@,
    };
    seq![
        OpView::GroupBy { column: col, agg: GroupAggKind::Count, agg_column: None },
        OpView::Sort { column: "count"@, descending: true },
        OpView::Limit { n: p.limit },
    ]
}

} // verus!
