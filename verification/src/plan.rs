//! The dataframe fallback surface, as a verified query plan.
//!
//! The fallback engine is an external collaborator: the library never
//! introspects it.  What the library owns is the translation of query
//! parameters into a plan — an ordered list of relational operations —
//! which an unverified shim then applies to the engine one to one.

use vstd::prelude::*;

use crate::apache::{all_digits, digits_val};
use crate::time::{ascii_trim, trim_spec};

use vstd::string::StringSliceAdditionalSpecFns;

verus! {

/// Errors of the fallback path.
#[derive(Debug)]
pub enum QueryError {
    /// The engine reported a failure.
    EngineError(String),
    /// A parameter combination is not supported.
    InvalidQuery(String),
}

/// A status comparison for the fallback engine's filter expression.
#[derive(Debug, Clone, Copy, PartialEq, Eq, Structural)]
pub enum StatusExpr {
    Ge(i32),
    Le(i32),
    Gt(i32),
    Lt(i32),
    Ne(i32),
    Eq(i32),
    Range(i32, i32),
}

/// One relational operation of the fallback plan.
#[derive(Debug)]
pub enum QueryOp {
    /// Keep rows whose column contains the pattern.
    FilterText { column: String, pattern: String, case_sensitive: bool },
    /// Keep rows whose column matches the regex.
    FilterRegex { column: String, pattern: String },
    /// Keep rows whose status passes the comparison.
    FilterStatus { expr: StatusExpr },
    /// Keep rows whose column lies in the inclusive range.
    FilterTimeRange { column: String, start: Option<String>, end: Option<String> },
    /// Group by a column and aggregate.
    GroupBy { column: String, agg: GroupAggKind, agg_column: Option<String> },
    /// Sort by a column.
    Sort { column: String, descending: bool },
    /// Keep at most `n` rows.
    Limit { n: u32 },
    /// Keep only the named columns.
    Select { columns: Vec<String> },
}

/// The aggregation applied after a grouping.
#[derive(Debug, Clone, Copy, PartialEq, Eq, Structural)]
pub enum GroupAggKind {
    Count,
    Sum,
    Avg,
    Min,
    Max,
    UniqueCount,
}

/// The value of a nonempty digit run, when it fits an `i32`.
pub open spec fn parse_i32_spec(t: Seq<u8>) -> Option<i32> {
    if t.len() > 0 && all_digits(t) && digits_val(t) <= i32::MAX {
        Some(digits_val(t) as i32)
    } else {
        None
    }
}

/// Parse a nonempty run of decimal digits into an `i32`.
pub fn parse_i32_digits(t: &[u8]) -> (r: Option<i32>)
    ensures
        r == parse_i32_spec(t@),
{
    if t.len() == 0 {
        return None;
    }
    let mut val: i32 = 0;
    let mut i: usize = 0;
    let n = t.len();
    while i < n
        invariant
            n == t@.len(),
            i <= n,
            all_digits(t@.take(i as int)),
            0 <= val,
            val == digits_val(t@.take(i as int)),
        decreases n - i,
    {
        let d = t[i];
        if d < 48 || d > 57 {
            proof {
                assert(!crate::apache::is_ascii_digit(t@[i as int]));
                assert(!all_digits(t@));
            }
            return None;
        }
        proof {
            assert(t@.take(i + 1).drop_last() =~= t@.take(i as int));
            assert(t@.take(i + 1).last() == t@[i as int]);
        }
        match val.checked_mul(10) {
            Some(v10) => {
                match v10.checked_add((d - 48) as i32) {
                    Some(v) => {
                        val = v;
                    },
                    None => {
                        proof {
                            assert(digits_val(t@.take(i + 1)) > i32::MAX);
                            if all_digits(t@) {
                                crate::apache::lemma_digits_prefix(t@, i + 1);
                            }
                        }
                        return None;
                    },
                }
            },
            None => {
                proof {
                    assert(digits_val(t@.take(i + 1)) > i32::MAX);
                    if all_digits(t@) {
                        crate::apache::lemma_digits_prefix(t@, i + 1);
                    }
                }
                return None;
            },
        }
        i += 1;
    }
    proof {
        assert(t@.take(n as int) =~= t@);
    }
    Some(val)
}

/// The status expression parsed from textual form, over trimmed bytes:
/// the `Nxx` class shorthand first, then the comparison prefixes, then a
/// bare number as equality.
pub open spec fn status_expr_of(t: Seq<u8>) -> Option<StatusExpr> {
    if t.len() == 3 && t[1] == 120 && t[2] == 120 && crate::apache::is_ascii_digit(t[0]) {
        Some(StatusExpr::Range(((t[0] - 48) * 100) as i32, ((t[0] - 48) * 100 + 99) as i32))
    } else if t.len() >= 2 && t[0] == 62 && t[1] == 61 {
        match parse_i32_spec(trim_spec(t.skip(2))) {
            Some(v) => Some(StatusExpr::Ge(v)),
            None => None,
        }
    } else if t.len() >= 2 && t[0] == 60 && t[1] == 61 {
        match parse_i32_spec(trim_spec(t.skip(2))) {
            Some(v) => Some(StatusExpr::Le(v)),
            None => None,
        }
    } else if t.len() >= 2 && t[0] == 33 && t[1] == 61 {
        match parse_i32_spec(trim_spec(t.skip(2))) {
            Some(v) => Some(StatusExpr::Ne(v)),
            None => None,
        }
    } else if t.len() >= 1 && t[0] == 62 {
        match parse_i32_spec(trim_spec(t.skip(1))) {
            Some(v) => Some(StatusExpr::Gt(v)),
            None => None,
        }
    } else if t.len() >= 1 && t[0] == 60 {
        match parse_i32_spec(trim_spec(t.skip(1))) {
            Some(v) => Some(StatusExpr::Lt(v)),
            None => None,
        }
    } else {
        match parse_i32_spec(t) {
            Some(v) => Some(StatusExpr::Eq(v)),
            None => None,
        }
    }
}

/// Parse a status filter expression for the fallback engine.
pub fn parse_status_filter(filter: &str) -> (r: Option<StatusExpr>)
    ensures
        r == status_expr_of(trim_spec(filter.spec_bytes())),
{
    let t = ascii_trim(filter.as_bytes());
    let n = t.len();
    if n == 3 && t[1] == 120 && t[2] == 120 && 48 <= t[0] && t[0] <= 57 {
        let base = (t[0] - 48) as i32 * 100;
        return Some(StatusExpr::Range(base, base + 99));
    }
    if n >= 2 && t[0] == 62 && t[1] == 61 {
        let rest = ascii_trim(vstd::slice::slice_subrange(t, 2, n));
        proof {
            assert(t@.subrange(2, n as int) =~= t@.skip(2));
        }
        return match parse_i32_digits(rest) {
            Some(v) => Some(StatusExpr::Ge(v)),
            None => None,
        };
    }
    if n >= 2 && t[0] == 60 && t[1] == 61 {
        let rest = ascii_trim(vstd::slice::slice_subrange(t, 2, n));
        proof {
            assert(t@.subrange(2, n as int) =~= t@.skip(2));
        }
        return match parse_i32_digits(rest) {
            Some(v) => Some(StatusExpr::Le(v)),
            None => None,
        };
    }
    if n >= 2 && t[0] == 33 && t[1] == 61 {
        let rest = ascii_trim(vstd::slice::slice_subrange(t, 2, n));
        proof {
            assert(t@.subrange(2, n as int) =~= t@.skip(2));
        }
        return match parse_i32_digits(rest) {
            Some(v) => Some(StatusExpr::Ne(v)),
            None => None,
        };
    }
    if n >= 1 && t[0] == 62 {
        let rest = ascii_trim(vstd::slice::slice_subrange(t, 1, n));
        proof {
            assert(t@.subrange(1, n as int) =~= t@.skip(1));
        }
        return match parse_i32_digits(rest) {
            Some(v) => Some(StatusExpr::Gt(v)),
            None => None,
        };
    }
    if n >= 1 && t[0] == 60 {
        let rest = ascii_trim(vstd::slice::slice_subrange(t, 1, n));
        proof {
            assert(t@.subrange(1, n as int) =~= t@.skip(1));
        }
        return match parse_i32_digits(rest) {
            Some(v) => Some(StatusExpr::Lt(v)),
            None => None,
        };
    }
    match parse_i32_digits(t) {
        Some(v) => Some(StatusExpr::Eq(v)),
        None => None,
    }
}

/// A fallback query under construction: the operations accumulated so
/// far, to be applied to the engine in order.
#[derive(Debug)]
pub struct QueryBuilder {
    /// The accumulated operations.
    pub ops: Vec<QueryOp>,
}

/// A grouping under construction.
#[derive(Debug)]
pub struct GroupByBuilder {
    /// The operations accumulated before the grouping.
    pub ops: Vec<QueryOp>,
    /// The grouping column.
    pub group_col: String,
}

impl QueryBuilder {
    /// Start an empty plan.
    pub fn new() -> (r: QueryBuilder)
        ensures
            r.ops@.len() == 0,
    {
        QueryBuilder { ops: Vec::new() }
    }

    /// Filter by a text pattern in a column.
    pub fn filter_text(self, column: &str, pattern: &str, case_sensitive: bool) -> (r: QueryBuilder)
        ensures
            r.ops@.len() == self.ops@.len() + 1,
            r.ops@.subrange(0, self.ops@.len() as int) == self.ops@,
            (r.ops@.last() matches QueryOp::FilterText { column: c, pattern: p, case_sensitive: cs }
                && c@ == column@ && p@ == pattern@ && cs == case_sensitive),
    {
        let mut ops = self.ops;
        let ghost before = ops@;
        ops.push(
            QueryOp::FilterText {
                column: column.to_owned(),
                pattern: pattern.to_owned(),
                case_sensitive,
            },
        );
        proof {
            assert(ops@.subrange(0, before.len() as int) =~= before);
        }
        QueryBuilder { ops }
    }

    /// Filter by a regex pattern in a column.
    pub fn filter_regex(self, column: &str, pattern: &str) -> (r: QueryBuilder)
        ensures
            r.ops@.len() == self.ops@.len() + 1,
            r.ops@.subrange(0, self.ops@.len() as int) == self.ops@,
            (r.ops@.last() matches QueryOp::FilterRegex { column: c, pattern: p } && c@ == column@
                && p@ == pattern@),
    {
        let mut ops = self.ops;
        let ghost before = ops@;
        ops.push(QueryOp::FilterRegex { column: column.to_owned(), pattern: pattern.to_owned() });
        proof {
            assert(ops@.subrange(0, before.len() as int) =~= before);
        }
        QueryBuilder { ops }
    }

    /// Filter by a status expression; an unparseable expression filters
    /// nothing.
    pub fn filter_status(self, status_filter: &str) -> (r: QueryBuilder)
        ensures
            match status_expr_of(trim_spec(status_filter.spec_bytes())) {
                Some(e) => r.ops@.len() == self.ops@.len() + 1 && r.ops@.subrange(
                    0,
                    self.ops@.len() as int,
                ) == self.ops@ && (r.ops@.last() matches QueryOp::FilterStatus { expr } && expr
                    == e),
                None => r.ops@ == self.ops@,
            },
    {
        match parse_status_filter(status_filter) {
            Some(e) => {
                let mut ops = self.ops;
                let ghost before = ops@;
                ops.push(QueryOp::FilterStatus { expr: e });
                proof {
                    assert(ops@.subrange(0, before.len() as int) =~= before);
                }
                QueryBuilder { ops }
            },
            None => self,
        }
    }

    /// Filter by an inclusive time range on a column.
    pub fn filter_time_range(self, column: &str, start: Option<&str>, end: Option<&str>) -> (r:
        QueryBuilder)
        ensures
            r.ops@.len() == self.ops@.len() + 1,
            r.ops@.subrange(0, self.ops@.len() as int) == self.ops@,
            (r.ops@.last() matches QueryOp::FilterTimeRange { column: c, start: s, end: e } && c@
                == column@ && (match (s, start) {
                (Some(sv), Some(so)) => sv@ == so@,
                (None, None) => true,
                _ => false,
            }) && (match (e, end) {
                (Some(ev), Some(eo)) => ev@ == eo@,
                (None, None) => true,
                _ => false,
            })),
    {
        let mut ops = self.ops;
        let ghost before = ops@;
        let s = match start {
            Some(v) => Some(v.to_owned()),
            None => None,
        };
        let e = match end {
            Some(v) => Some(v.to_owned()),
            None => None,
        };
        ops.push(QueryOp::FilterTimeRange { column: column.to_owned(), start: s, end: e });
        proof {
            assert(ops@.subrange(0, before.len() as int) =~= before);
        }
        QueryBuilder { ops }
    }

    /// Open a grouping by a column.
    pub fn group_by(self, column: &str) -> (r: GroupByBuilder)
        ensures
            r.ops@ == self.ops@,
            r.group_col@ == column@,
    {
        GroupByBuilder { ops: self.ops, group_col: column.to_owned() }
    }

    /// Sort by a column.
    pub fn sort(self, column: &str, descending: bool) -> (r: QueryBuilder)
        ensures
            r.ops@.len() == self.ops@.len() + 1,
            r.ops@.subrange(0, self.ops@.len() as int) == self.ops@,
            (r.ops@.last() matches QueryOp::Sort { column: c, descending: d } && c@ == column@ && d
                == descending),
    {
        let mut ops = self.ops;
        let ghost before = ops@;
        ops.push(QueryOp::Sort { column: column.to_owned(), descending });
        proof {
            assert(ops@.subrange(0, before.len() as int) =~= before);
        }
        QueryBuilder { ops }
    }

    /// Keep at most `n` rows.
    pub fn limit(self, n: u32) -> (r: QueryBuilder)
        ensures
            r.ops@.len() == self.ops@.len() + 1,
            r.ops@.subrange(0, self.ops@.len() as int) == self.ops@,
            (r.ops@.last() matches QueryOp::Limit { n: m } && m == n),
    {
        let mut ops = self.ops;
        let ghost before = ops@;
        ops.push(QueryOp::Limit { n });
        proof {
            assert(ops@.subrange(0, before.len() as int) =~= before);
        }
        QueryBuilder { ops }
    }

    /// Keep only the named columns.
    pub fn select(self, columns: &Vec<String>) -> (r: QueryBuilder)
        ensures
            r.ops@.len() == self.ops@.len() + 1,
            r.ops@.subrange(0, self.ops@.len() as int) == self.ops@,
            (r.ops@.last() matches QueryOp::Select { columns: cs } && cs@.len() == columns@.len()
                && (forall|i: int| 0 <= i < cs@.len() ==> #[trigger] cs@[i]@ == columns@[i]@)),
    {
        let mut ops = self.ops;
        let ghost before = ops@;
        let mut copied: Vec<String> = Vec::new();
        let mut i: usize = 0;
        while i < columns.len()
            invariant
                i <= columns@.len(),
                copied@.len() == i,
                forall|j: int| 0 <= j < i ==> #[trigger] copied@[j]@ == columns@[j]@,
            decreases columns@.len() - i,
        {
            copied.push(columns[i].clone());
            i += 1;
        }
        ops.push(QueryOp::Select { columns: copied });
        proof {
            assert(ops@.subrange(0, before.len() as int) =~= before);
        }
        QueryBuilder { ops }
    }

    /// Finish the plan: the operations to apply, in order.
    pub fn into_ops(self) -> (r: Vec<QueryOp>)
        ensures
            r@ == self.ops@,
    {
        self.ops
    }
}

impl GroupByBuilder {
    /// Count rows per group, sorted descending by count.
    pub fn count(self) -> (r: QueryBuilder)
        ensures
            r.ops@.len() == self.ops@.len() + 2,
            r.ops@.subrange(0, self.ops@.len() as int) == self.ops@,
            (r.ops@[self.ops@.len() as int] matches QueryOp::GroupBy {
                column: c,
                agg: a,
                agg_column: ac,
            } && c@ == self.group_col@ && a == GroupAggKind::Count && ac is None),
            (r.ops@.last() matches QueryOp::Sort { column: sc, descending: d } && sc@
                == "count"@ && d),
    {
        let mut ops = self.ops;
        let ghost before = ops@;
        ops.push(QueryOp::GroupBy { column: self.group_col, agg: GroupAggKind::Count, agg_column: None });
        ops.push(QueryOp::Sort { column: "count".to_owned(), descending: true });
        proof {
            assert(ops@.subrange(0, before.len() as int) =~= before);
        }
        QueryBuilder { ops }
    }

    /// Sum a column per group, sorted descending by the sum.
    pub fn sum(self, column: &str) -> (r: QueryBuilder)
        ensures
            r.ops@.len() == self.ops@.len() + 2,
            r.ops@.subrange(0, self.ops@.len() as int) == self.ops@,
            (r.ops@[self.ops@.len() as int] matches QueryOp::GroupBy {
                column: c,
                agg: a,
                agg_column: ac,
            } && c@ == self.group_col@ && a == GroupAggKind::Sum && (ac matches Some(acv) && acv@
                == column@)),
            (r.ops@.last() matches QueryOp::Sort { column: sc, descending: d } && sc@
                == "sum"@ && d),
    {
        let mut ops = self.ops;
        let ghost before = ops@;
        ops.push(
            QueryOp::GroupBy {
                column: self.group_col,
                agg: GroupAggKind::Sum,
                agg_column: Some(column.to_owned()),
            },
        );
        ops.push(QueryOp::Sort { column: "sum".to_owned(), descending: true });
        proof {
            assert(ops@.subrange(0, before.len() as int) =~= before);
        }
        QueryBuilder { ops }
    }

    /// Average a column per group, sorted descending by the average.
    pub fn avg(self, column: &str) -> (r: QueryBuilder)
        ensures
            r.ops@.len() == self.ops@.len() + 2,
            r.ops@.subrange(0, self.ops@.len() as int) == self.ops@,
            (r.ops@[self.ops@.len() as int] matches QueryOp::GroupBy {
                column: c,
                agg: a,
                agg_column: ac,
            } && c@ == self.group_col@ && a == GroupAggKind::Avg && (ac matches Some(acv) && acv@
                == column@)),
            (r.ops@.last() matches QueryOp::Sort { column: sc, descending: d } && sc@
                == "avg"@ && d),
    {
        let mut ops = self.ops;
        let ghost before = ops@;
        ops.push(
            QueryOp::GroupBy {
                column: self.group_col,
                agg: GroupAggKind::Avg,
                agg_column: Some(column.to_owned()),
            },
        );
        ops.push(QueryOp::Sort { column: "avg".to_owned(), descending: true });
        proof {
            assert(ops@.subrange(0, before.len() as int) =~= before);
        }
        QueryBuilder { ops }
    }

    /// The least value of a column per group.
    pub fn min(self, column: &str) -> (r: QueryBuilder)
        ensures
            r.ops@.len() == self.ops@.len() + 1,
            r.ops@.subrange(0, self.ops@.len() as int) == self.ops@,
            (r.ops@.last() matches QueryOp::GroupBy { column: c, agg: a, agg_column: ac } && c@
                == self.group_col@ && a == GroupAggKind::Min && (ac matches Some(acv) && acv@
                == column@)),
    {
        let mut ops = self.ops;
        let ghost before = ops@;
        ops.push(
            QueryOp::GroupBy {
                column: self.group_col,
                agg: GroupAggKind::Min,
                agg_column: Some(column.to_owned()),
            },
        );
        proof {
            assert(ops@.subrange(0, before.len() as int) =~= before);
        }
        QueryBuilder { ops }
    }

    /// The greatest value of a column per group.
    pub fn max(self, column: &str) -> (r: QueryBuilder)
        ensures
            r.ops@.len() == self.ops@.len() + 1,
            r.ops@.subrange(0, self.ops@.len() as int) == self.ops@,
            (r.ops@.last() matches QueryOp::GroupBy { column: c, agg: a, agg_column: ac } && c@
                == self.group_col@ && a == GroupAggKind::Max && (ac matches Some(acv) && acv@
                == column@)),
    {
        let mut ops = self.ops;
        let ghost before = ops@;
        ops.push(
            QueryOp::GroupBy {
                column: self.group_col,
                agg: GroupAggKind::Max,
                agg_column: Some(column.to_owned()),
            },
        );
        proof {
            assert(ops@.subrange(0, before.len() as int) =~= before);
        }
        QueryBuilder { ops }
    }

    /// Count distinct values of a column per group, sorted descending.
    pub fn unique_count(self, column: &str) -> (r: QueryBuilder)
        ensures
            r.ops@.len() == self.ops@.len() + 2,
            r.ops@.subrange(0, self.ops@.len() as int) == self.ops@,
            (r.ops@[self.ops@.len() as int] matches QueryOp::GroupBy {
                column: c,
                agg: a,
                agg_column: ac,
            } && c@ == self.group_col@ && a == GroupAggKind::UniqueCount && (ac matches Some(acv)
                && acv@ == column@)),
            (r.ops@.last() matches QueryOp::Sort { column: sc, descending: d } && sc@
                == "unique_count"@ && d),
    {
        let mut ops = self.ops;
        let ghost before = ops@;
        ops.push(
            QueryOp::GroupBy {
                column: self.group_col,
                agg: GroupAggKind::UniqueCount,
                agg_column: Some(column.to_owned()),
            },
        );
        ops.push(QueryOp::Sort { column: "unique_count".to_owned(), descending: true });
        proof {
            assert(ops@.subrange(0, before.len() as int) =~= before);
        }
        QueryBuilder { ops }
    }
}


/// The ghost view of one plan operation, over character sequences.
pub enum OpView {
    FilterText { column: Seq<char>, pattern: Seq<char>, case_sensitive: bool },
    FilterRegex { column: Seq<char>, pattern: Seq<char> },
    FilterStatus { expr: StatusExpr },
    FilterTimeRange { column: Seq<char>, start: Option<Seq<char>>, end: Option<Seq<char>> },
    GroupBy { column: Seq<char>, agg: GroupAggKind, agg_column: Option<Seq<char>> },
    Sort { column: Seq<char>, descending: bool },
    Limit { n: u32 },
    Select { columns: Seq<Seq<char>> },
}

/// The view of a plan operation.
pub open spec fn op_view(op: QueryOp) -> OpView {
    match op {
        QueryOp::FilterText { column, pattern, case_sensitive } => OpView::FilterText {
            column: column@,
            pattern: pattern@,
            case_sensitive,
        },
        QueryOp::FilterRegex { column, pattern } => OpView::FilterRegex {
            column: column@,
            pattern: pattern@,
        },
        QueryOp::FilterStatus { expr } => OpView::FilterStatus { expr },
        QueryOp::FilterTimeRange { column, start, end } => OpView::FilterTimeRange {
            column: column@,
            start: match start {
                Some(s) => Some(s@),
                None => None,
            },
            end: match end {
                Some(e) => Some(e@),
                None => None,
            },
        },
        QueryOp::GroupBy { column, agg, agg_column } => OpView::GroupBy {
            column: column@,
            agg,
            agg_column: match agg_column {
                Some(c) => Some(c@),
                None => None,
            },
        },
        QueryOp::Sort { column, descending } => OpView::Sort { column: column@, descending },
        QueryOp::Limit { n } => OpView::Limit { n },
        QueryOp::Select { columns } => OpView::Select {
            columns: Seq::new(columns@.len(), |i: int| columns@[i]@),
        },
    }
}

/// The views of a whole plan.
pub open spec fn ops_view(ops: Seq<QueryOp>) -> Seq<OpView> {
    ops.map_values(|op: QueryOp| op_view(op))
}


/// Appending one operation appends its view.
pub proof fn lemma_ops_view_push(prev: Seq<QueryOp>, cur: Seq<QueryOp>)
    requires
        cur.len() == prev.len() + 1,
        cur.subrange(0, prev.len() as int) == prev,
    ensures
        ops_view(cur) =~= ops_view(prev).push(op_view(cur.last())),
{
    assert forall|i: int| 0 <= i < prev.len() implies cur[i] == prev[i] by {
        assert(cur.subrange(0, prev.len() as int)[i] == cur[i]);
    }
}

/// Appending two operations appends their views.
pub proof fn lemma_ops_view_push2(prev: Seq<QueryOp>, cur: Seq<QueryOp>)
    requires
        cur.len() == prev.len() + 2,
        cur.subrange(0, prev.len() as int) == prev,
    ensures
        ops_view(cur) =~= ops_view(prev).push(op_view(cur[prev.len() as int])).push(
            op_view(cur.last()),
        ),
{
    assert forall|i: int| 0 <= i < prev.len() implies cur[i] == prev[i] by {
        assert(cur.subrange(0, prev.len() as int)[i] == cur[i]);
    }
}

} // verus!
