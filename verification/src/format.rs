//! Log format names and auto-detection.
//!
//! A format may be declared by name, inferred from the file extension, or
//! sniffed from the first non-empty line of content.

use vstd::prelude::*;

use crate::bytes::{ascii_lower, contains_sub, has_substr, keyword_matches, seq_find, to_ascii_lower};

use vstd::string::StringSliceAdditionalSpecFns;

verus! {

/// A supported log format; `Nginx` is treated identically to `Apache`,
/// and `Auto` asks for detection.
#[derive(Debug, Clone, Copy, PartialEq, Eq, Structural)]
pub enum LogFormat {
    Apache,
    Nginx,
    Syslog,
    Json,
    Csv,
    Auto,
}

/// The format named by the lower-cased bytes `t`; unknown names ask for
/// detection.
pub open spec fn format_of(t: Seq<u8>) -> LogFormat {
    if t == "apache".spec_bytes() {
        LogFormat::Apache
    } else if t == "nginx".spec_bytes() {
        LogFormat::Nginx
    } else if t == "syslog".spec_bytes() {
        LogFormat::Syslog
    } else if t == "json".spec_bytes() || t == "jsonl".spec_bytes() || t == "ndjson".spec_bytes() {
        LogFormat::Json
    } else if t == "csv".spec_bytes() || t == "tsv".spec_bytes() {
        LogFormat::Csv
    } else {
        LogFormat::Auto
    }
}

impl LogFormat {
    /// Parse a format name, case-insensitively; unknown names are `Auto`.
    pub fn from_str(s: &str) -> (r: LogFormat)
        ensures
            r == format_of(ascii_lower(s.spec_bytes())),
    {
        let low = to_ascii_lower(s.as_bytes());
        let t = low.as_slice();
        if keyword_matches(t, "apache") {
            LogFormat::Apache
        } else if keyword_matches(t, "nginx") {
            LogFormat::Nginx
        } else if keyword_matches(t, "syslog") {
            LogFormat::Syslog
        } else if keyword_matches(t, "json") || keyword_matches(t, "jsonl") || keyword_matches(
            t,
            "ndjson",
        ) {
            LogFormat::Json
        } else if keyword_matches(t, "csv") || keyword_matches(t, "tsv") {
            LogFormat::Csv
        } else {
            LogFormat::Auto
        }
    }
}

/// The extension of a path: the bytes after the last `.` of the final
/// `/`-separated component, provided the dot is not the component's
/// first byte.
pub open spec fn extension_of(path: Seq<u8>) -> Option<Seq<u8>> {
    let comp_start = match last_index_of(path, 47u8) {
        Some(i) => i + 1,
        None => 0int,
    };
    let comp = path.subrange(comp_start, path.len() as int);
    match last_index_of(comp, 46u8) {
        Some(d) => if d > 0 {
            Some(comp.subrange(d + 1, comp.len() as int))
        } else {
            None
        },
        None => None,
    }
}

/// The index of the last occurrence of `c` in `s`, if any.
pub open spec fn last_index_of(s: Seq<u8>, c: u8) -> Option<int>
    decreases s.len(),
{
    if s.len() == 0 {
        None
    } else if s.last() == c {
        Some(s.len() - 1)
    } else {
        last_index_of(s.drop_last(), c)
    }
}

/// Find the last occurrence of `c` in `s`.
fn find_last_byte(s: &[u8], c: u8) -> (r: Option<usize>)
    ensures
        match r {
            Some(i) => last_index_of(s@, c) == Some(i as int) && i < s@.len(),
            None => last_index_of(s@, c) is None,
        },
{
    let mut i = s.len();
    proof {
        assert(s@.take(i as int) =~= s@);
    }
    while i > 0
        invariant
            i <= s@.len(),
            last_index_of(s@, c) == last_index_of(s@.take(i as int), c),
        decreases i,
    {
        proof {
            assert(s@.take(i as int).last() == s@[i - 1]);
            assert(s@.take(i as int).drop_last() =~= s@.take(i - 1));
        }
        if s[i - 1] == c {
            return Some(i - 1);
        }
        i -= 1;
    }
    proof {
        assert(s@.take(0) =~= Seq::<u8>::empty());
    }
    None
}

/// The format sniffed from the first line of content: JSON starts with a
/// brace; CSV has a comma and no Apache marker; Apache has its marker or
/// a closing quote before a space; syslog has a priority bracket or the
/// `]: ` separator.
pub open spec fn sniff_format(line: Seq<u8>) -> LogFormat {
    if line.len() > 0 && line[0] == 123 {
        LogFormat::Json
    } else if contains_sub(line, seq![44u8]) && !contains_sub(
        line,
        " - - [".spec_bytes(),
    ) {
        LogFormat::Csv
    } else if contains_sub(line, " - - [".spec_bytes()) || contains_sub(
        line,
        seq![34u8, 32u8],
    ) {
        LogFormat::Apache
    } else if (line.len() > 0 && line[0] == 60) || contains_sub(line, "]: ".spec_bytes()) {
        LogFormat::Syslog
    } else {
        LogFormat::Auto
    }
}

/// Sniff the format of a content line.
pub fn sniff_content(line: &[u8]) -> (r: LogFormat)
    ensures
        r == sniff_format(line@),
{
    let comma: &'static [u8; 1] = &[44u8];
    let quote_space: &'static [u8; 2] = &[34u8, 32u8];
    let cm = comma.as_slice();
    let qs = quote_space.as_slice();
    proof {
        assert(cm@ =~= seq![44u8]);
        assert(qs@ =~= seq![34u8, 32u8]);
    }
    let apache_marker = " - - [";
    let syslog_marker = "]: ";
    if line.len() > 0 && line[0] == 123 {
        LogFormat::Json
    } else if has_substr(line, cm) && !has_substr(line, apache_marker.as_bytes()) {
        LogFormat::Csv
    } else if has_substr(line, apache_marker.as_bytes()) || has_substr(line, qs) {
        LogFormat::Apache
    } else if (line.len() > 0 && line[0] == 60) || has_substr(line, syslog_marker.as_bytes()) {
        LogFormat::Syslog
    } else {
        LogFormat::Auto
    }
}

/// The detected format: the extension decides when it names one, the
/// first content line is sniffed otherwise, and without content the
/// format stays undetected.
pub open spec fn detect_spec(path: Seq<u8>, first_line: Option<Seq<u8>>) -> LogFormat {
    let by_ext = match extension_of(path) {
        Some(e) => {
            let le = ascii_lower(e);
            if le == "json".spec_bytes() || le == "jsonl".spec_bytes() || le
                == "ndjson".spec_bytes() {
                Some(LogFormat::Json)
            } else if le == "csv".spec_bytes() || le == "tsv".spec_bytes() {
                Some(LogFormat::Csv)
            } else {
                None
            }
        },
        None => None,
    };
    match by_ext {
        Some(f) => f,
        None => match first_line {
            Some(l) => sniff_format(l),
            None => LogFormat::Auto,
        },
    }
}

/// Detect the format of a file from its name and, when given, the first
/// line of its content.
pub fn detect_format(path: &str, first_line: Option<&[u8]>) -> (r: LogFormat)
    ensures
        r == detect_spec(
            path.spec_bytes(),
            match first_line {
                Some(l) => Some(l@),
                None => None,
            },
        ),
{
    let pb = path.as_bytes();
    let pblen = pb.len();
    let comp_start = match find_last_byte(pb, 47u8) {
        Some(i) => {
            proof {
                assert(i < pb@.len());
                assert(pblen == pb@.len());
            }
            i + 1
        },
        None => 0,
    };
    let comp = vstd::slice::slice_subrange(pb, comp_start, pb.len());
    match find_last_byte(comp, 46u8) {
        Some(d) => {
            if d > 0 {
                let ext = vstd::slice::slice_subrange(comp, d + 1, comp.len());
                let low = to_ascii_lower(ext);
                let t = low.as_slice();
                if keyword_matches(t, "json") || keyword_matches(t, "jsonl") || keyword_matches(
                    t,
                    "ndjson",
                ) {
                    return LogFormat::Json;
                }
                if keyword_matches(t, "csv") || keyword_matches(t, "tsv") {
                    return LogFormat::Csv;
                }
            }
        },
        None => {},
    }
    match first_line {
        Some(l) => sniff_content(l),
        None => LogFormat::Auto,
    }
}

/// The CSV separator: a tab when the header holds one, else a comma.
pub open spec fn csv_separator_of(header: Seq<u8>) -> u8 {
    if seq_find(header, 9u8) is Some {
        9u8
    } else {
        44u8
    }
}

/// Detect the CSV separator from the header line.
pub fn detect_csv_separator(header: &[u8]) -> (r: u8)
    ensures
        r == csv_separator_of(header@),
{
    match crate::bytes::find_byte(9u8, header) {
        Some(i) => {
            proof {
                crate::bytes::lemma_seq_find_first(header@, 9u8, i as int);
            }
            9
        },
        None => {
            proof {
                crate::bytes::lemma_seq_find_none(header@, 9u8);
            }
            44
        },
    }
}

} // verus!
