//! Field locator and extractors for RFC 3164 syslog lines.
//!
//! A line has the shape `<PRI>Mon DD HH:MM:SS HOST PROCESS[PID]: MESSAGE`,
//! the priority part optional.  The locator skips the priority, skips the
//! three whitespace-separated timestamp tokens, and then locates hostname,
//! process and message by byte searches.

use vstd::prelude::*;

use crate::bytes::{find_byte, lemma_seq_find_first, lemma_seq_find_none, seq_find};

verus! {

/// Byte offsets of the structural fields of one syslog line.
#[derive(Clone, Copy, PartialEq, Eq, Structural, Debug)]
pub struct SyslogOffsets {
    pub hostname_start: usize,
    pub hostname_end: usize,
    pub process_start: usize,
    pub process_end: usize,
    pub message_start: usize,
}

/// The position just after the `n`-th space of `s`, if `s` has that many.
pub open spec fn after_n_spaces(s: Seq<u8>, n: nat) -> Option<int>
    decreases n,
{
    if n == 0 {
        Some(0int)
    } else {
        match seq_find(s, 32u8) {
            None => None,
            Some(i) => match after_n_spaces(s.subrange(i + 1, s.len() as int), (n - 1) as nat) {
                None => None,
                Some(j) => Some(i + 1 + j),
            },
        }
    }
}

/// The offsets of one syslog line, as the locator computes them: skip the
/// `<PRI>` prefix, skip three space-separated timestamp tokens, then the
/// hostname runs to the next space, the process to the next `[` or `:`,
/// and the message starts two bytes past the first `:` after the process.
/// Every required delimiter must be present: a line without the three
/// timestamp spaces, without a space after its hostname, or without a
/// colon after its process does not locate.
pub open spec fn locate_syslog(line: Seq<u8>) -> Option<SyslogOffsets> {
    let len = line.len() as int;
    if len == 0 {
        None
    } else {
        let start = if line[0] == 60 {
            match seq_find(line, 62u8) {
                Some(i) => i + 1,
                None => 0int,
            }
        } else {
            0int
        };
        match after_n_spaces(line.subrange(start, len), 3) {
            None => None,
            Some(o) => {
                let hostname_start = start + o;
                if hostname_start >= len {
                    None
                } else {
                    let hostname_end = match seq_find(line.subrange(hostname_start, len), 32u8) {
                        Some(i) => hostname_start + i,
                        None => len,
                    };
                    if hostname_end >= len {
                        None
                    } else {
                        let process_start = hostname_end + 1;
                        match seq_find(line.subrange(process_start, len), 58u8) {
                            None => None,
                            Some(c) => {
                                let colon_pos = process_start + c;
                                let process_end = match seq_find(
                                    line.subrange(process_start, len),
                                    91u8,
                                ) {
                                    Some(b) => if b <= c {
                                        process_start + b
                                    } else {
                                        colon_pos
                                    },
                                    None => colon_pos,
                                };
                                let message_start = if colon_pos + 2 < len {
                                    colon_pos + 2
                                } else {
                                    len
                                };
                                Some(
                                    SyslogOffsets {
                                        hostname_start: hostname_start as usize,
                                        hostname_end: hostname_end as usize,
                                        process_start: process_start as usize,
                                        process_end: process_end as usize,
                                        message_start: message_start as usize,
                                    },
                                )
                            },
                        }
                    }
                }
            },
        }
    }
}

/// Bounds located syslog offsets obey.
pub open spec fn syslog_offsets_wf(line: Seq<u8>, o: SyslogOffsets) -> bool {
    let len = line.len() as int;
    &&& o.hostname_start <= o.hostname_end
    &&& o.hostname_end < len
    &&& o.process_start <= o.process_end
    &&& o.process_end <= len
    &&& o.message_start <= len
}

/// Located syslog offsets are well formed.
pub proof fn lemma_locate_syslog_wf(line: Seq<u8>)
    requires
        line.len() <= usize::MAX,
    ensures
        match locate_syslog(line) {
            Some(o) => syslog_offsets_wf(line, o),
            None => true,
        },
{
    let len = line.len() as int;
    if len > 0 {
        crate::bytes::lemma_seq_find(line, 62u8);
        let start = if line[0] == 60 {
            match seq_find(line, 62u8) {
                Some(i) => i + 1,
                None => 0int,
            }
        } else {
            0int
        };
        lemma_after_n_spaces_bounds(line.subrange(start, len), 3);
        match after_n_spaces(line.subrange(start, len), 3) {
            None => {},
            Some(o) => {
                let hostname_start = start + o;
                if 0 <= hostname_start < len {
                    crate::bytes::lemma_seq_find(line.subrange(hostname_start, len), 32u8);
                    let hostname_end = match seq_find(line.subrange(hostname_start, len), 32u8) {
                        Some(i) => hostname_start + i,
                        None => len,
                    };
                    if hostname_end < len {
                        let process_start = hostname_end + 1;
                        crate::bytes::lemma_seq_find(line.subrange(process_start, len), 91u8);
                        crate::bytes::lemma_seq_find(line.subrange(process_start, len), 58u8);
                    }
                }
            },
        }
    }
}

/// `after_n_spaces` lands inside or just past the sequence.
proof fn lemma_after_n_spaces_bounds(s: Seq<u8>, n: nat)
    ensures
        match after_n_spaces(s, n) {
            Some(o) => 0 <= o <= s.len(),
            None => true,
        },
    decreases n,
{
    if n > 0 {
        crate::bytes::lemma_seq_find(s, 32u8);
        match seq_find(s, 32u8) {
            None => {},
            Some(i) => {
                lemma_after_n_spaces_bounds(s.subrange(i + 1, s.len() as int), (n - 1) as nat);
            },
        }
    }
}

/// Locate the structural fields of one syslog line, or `None` when a
/// required delimiter is missing: the three timestamp spaces, the space
/// after the hostname, or the colon after the process.
pub fn find_syslog_fields(line: &[u8]) -> (r: Option<SyslogOffsets>)
    ensures
        r == locate_syslog(line@),
        match r {
            Some(o) => syslog_offsets_wf(line@, o),
            None => true,
        },
{
    let len = line.len();
    proof {
        assert(len == line@.len());
        lemma_locate_syslog_wf(line@);
    }
    if len == 0 {
        return None;
    }
    let ghost lv = line@;
    let ghost glen = len as int;

    let start = if line[0] == 60 {
        match find_byte(62u8, line) {
            Some(i) => {
                proof {
                    lemma_seq_find_first(lv, 62u8, i as int);
                }
                i + 1
            },
            None => {
                proof {
                    lemma_seq_find_none(lv, 62u8);
                }
                0
            },
        }
    } else {
        0
    };

    let after_start = vstd::slice::slice_subrange(line, start, len);
    let hostname_start = match skip_three_spaces(after_start) {
        Some(o) => start + o,
        None => {
            return None;
        },
    };
    if hostname_start >= len {
        return None;
    }

    let after_host = vstd::slice::slice_subrange(line, hostname_start, len);
    let hostname_end = match find_byte(32u8, after_host) {
        Some(i) => {
            proof {
                lemma_seq_find_first(lv.subrange(hostname_start as int, glen), 32u8, i as int);
            }
            hostname_start + i
        },
        None => {
            proof {
                lemma_seq_find_none(lv.subrange(hostname_start as int, glen), 32u8);
            }
            len
        },
    };
    if hostname_end >= len {
        return None;
    }

    let process_start = hostname_end + 1;
    let after_proc = vstd::slice::slice_subrange(line, process_start, len);
    let bracket = match find_byte(91u8, after_proc) {
        Some(i) => {
            proof {
                lemma_seq_find_first(lv.subrange(process_start as int, glen), 91u8, i as int);
            }
            Some(i)
        },
        None => {
            proof {
                lemma_seq_find_none(lv.subrange(process_start as int, glen), 91u8);
            }
            None
        },
    };
    let colon = match find_byte(58u8, after_proc) {
        Some(i) => {
            proof {
                lemma_seq_find_first(lv.subrange(process_start as int, glen), 58u8, i as int);
            }
            i
        },
        None => {
            proof {
                lemma_seq_find_none(lv.subrange(process_start as int, glen), 58u8);
            }
            return None;
        },
    };
    let colon_pos = process_start + colon;
    let process_end = match bracket {
        Some(b) => if b <= colon {
            process_start + b
        } else {
            colon_pos
        },
        None => colon_pos,
    };
    let message_start = if colon_pos < len && len - colon_pos > 2 {
        colon_pos + 2
    } else {
        len
    };

    Some(SyslogOffsets { hostname_start, hostname_end, process_start, process_end, message_start })
}

/// Skip three space-separated tokens: the position just after the third
/// space, if the slice has three spaces.
fn skip_three_spaces(s: &[u8]) -> (r: Option<usize>)
    ensures
        match r {
            Some(o) => after_n_spaces(s@, 3) == Some(o as int) && o <= s@.len(),
            None => after_n_spaces(s@, 3) is None,
        },
{
    let len = s.len();
    proof {
        reveal_with_fuel(after_n_spaces, 4);
    }
    let i1 = match find_byte(32u8, s) {
        Some(i) => {
            proof {
                lemma_seq_find_first(s@, 32u8, i as int);
            }
            i
        },
        None => {
            proof {
                reveal_with_fuel(after_n_spaces, 4);
                lemma_seq_find_none(s@, 32u8);
            }
            return None;
        },
    };
    let rest1 = vstd::slice::slice_subrange(s, i1 + 1, len);
    let i2 = match find_byte(32u8, rest1) {
        Some(i) => {
            proof {
                lemma_seq_find_first(s@.subrange(i1 + 1, len as int), 32u8, i as int);
            }
            i
        },
        None => {
            proof {
                reveal_with_fuel(after_n_spaces, 4);
                lemma_seq_find_none(s@.subrange(i1 + 1, len as int), 32u8);
            }
            return None;
        },
    };
    let rest2 = vstd::slice::slice_subrange(rest1, i2 + 1, rest1.len());
    let i3 = match find_byte(32u8, rest2) {
        Some(i) => {
            proof {
                lemma_seq_find_first(rest2@, 32u8, i as int);
            }
            i
        },
        None => {
            proof {
                reveal_with_fuel(after_n_spaces, 4);
                lemma_seq_find_none(rest2@, 32u8);
            }
            return None;
        },
    };
    proof {
        reveal_with_fuel(after_n_spaces, 4);
    }
    Some(i1 + 1 + i2 + 1 + i3 + 1)
}

/// Extract the hostname.
pub fn extract_hostname<'a>(line: &'a [u8], offsets: &SyslogOffsets) -> (r: &'a [u8])
    requires
        offsets.hostname_start <= offsets.hostname_end <= line@.len(),
    ensures
        r@ == line@.subrange(offsets.hostname_start as int, offsets.hostname_end as int),
{
    vstd::slice::slice_subrange(line, offsets.hostname_start, offsets.hostname_end)
}

/// Extract the process name.
pub fn extract_process<'a>(line: &'a [u8], offsets: &SyslogOffsets) -> (r: &'a [u8])
    requires
        offsets.process_start <= offsets.process_end <= line@.len(),
    ensures
        r@ == line@.subrange(offsets.process_start as int, offsets.process_end as int),
{
    vstd::slice::slice_subrange(line, offsets.process_start, offsets.process_end)
}

/// The message bytes, empty when the message start ran past the line.
pub open spec fn message_of(line: Seq<u8>, o: SyslogOffsets) -> Seq<u8> {
    if o.message_start < line.len() {
        line.subrange(o.message_start as int, line.len() as int)
    } else {
        Seq::empty()
    }
}

/// Extract the message.
pub fn extract_message<'a>(line: &'a [u8], offsets: &SyslogOffsets) -> (r: &'a [u8])
    ensures
        r@ == message_of(line@, *offsets),
{
    if offsets.message_start < line.len() {
        vstd::slice::slice_subrange(line, offsets.message_start, line.len())
    } else {
        let empty = vstd::slice::slice_subrange(line, 0, 0);
        proof {
            assert(empty@ =~= Seq::<u8>::empty());
        }
        empty
    }
}

/// The severity name of a syslog priority: the low three bits pick the
/// level; a missing or negative priority is unknown.
pub open spec fn level_of(priority: Option<i32>) -> Seq<char> {
    match priority {
        Some(p) => if p >= 0 {
            let sev = p % 8;
            if sev == 0 {
                "EMERGENCY"@
            } else if sev == 1 {
                "ALERT"@
            } else if sev == 2 {
                "CRITICAL"@
            } else if sev == 3 {
                "ERROR"@
            } else if sev == 4 {
                "WARNING"@
            } else if sev == 5 {
                "NOTICE"@
            } else if sev == 6 {
                "INFO"@
            } else {
                "DEBUG"@
            }
        } else {
            "UNKNOWN"@
        },
        None => "UNKNOWN"@,
    }
}

/// Convert a syslog priority to its human-readable severity name.
pub fn priority_to_level(priority: Option<i32>) -> (r: String)
    ensures
        r@ == level_of(priority),
{
    match priority {
        Some(p) => {
            if p >= 0 {
                let sev = p % 8;
                if sev == 0 {
                    "EMERGENCY".to_owned()
                } else if sev == 1 {
                    "ALERT".to_owned()
                } else if sev == 2 {
                    "CRITICAL".to_owned()
                } else if sev == 3 {
                    "ERROR".to_owned()
                } else if sev == 4 {
                    "WARNING".to_owned()
                } else if sev == 5 {
                    "NOTICE".to_owned()
                } else if sev == 6 {
                    "INFO".to_owned()
                } else {
                    "DEBUG".to_owned()
                }
            } else {
                "UNKNOWN".to_owned()
            }
        },
        None => "UNKNOWN".to_owned(),
    }
}

} // verus!
