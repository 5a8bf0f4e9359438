//! Process identity shared by the collectors.

use vstd::prelude::*;
use crate::text::{
    chars_of, fields_of, parse_u32, parse_u32_chars, parse_u64, parse_u64_chars, rsplit_once,
    rsplit_once_char, seqs_of, split_fields, split_once, split_once_char, string_of, trim,
    trim_chars,
};

verus! {

/// A process identity that survives PID reuse: the PID together with the
/// process start time (in clock ticks since boot).
#[derive(Debug, Clone, Copy, PartialEq, Eq, Structural, PartialOrd, Ord, Hash)]
pub struct ProcessKey {
    pub pid: u32,
    pub start_time_ticks: u64,
}

/// The order of process keys: by PID, then by start time.
pub open spec fn key_lt(a: ProcessKey, b: ProcessKey) -> bool {
    a.pid < b.pid || (a.pid == b.pid && a.start_time_ticks < b.start_time_ticks)
}

pub fn key_less(a: ProcessKey, b: ProcessKey) -> (r: bool)
    ensures
        r == key_lt(a, b),
{
    a.pid < b.pid || (a.pid == b.pid && a.start_time_ticks < b.start_time_ticks)
}

/// The identity and command name read from `/proc/<pid>/stat`.
#[derive(Debug, Clone, PartialEq, Eq)]
pub struct ProcessStat {
    pub key: ProcessKey,
    pub comm: String,
}

/// `/proc/<pid>/stat` as procfs documents it: the PID, the command name in
/// parentheses (which may itself hold spaces and parentheses, so it ends at
/// the last `)`), then space-separated fields of which the twentieth after
/// the name is the start time.
pub open spec fn process_stat_spec(input: Seq<char>) -> Option<(ProcessKey, Seq<char>)> {
    match split_once(input, '(') {
        None => None,
        Some((head, tail)) => match rsplit_once(tail, ')') {
            None => None,
            Some((comm, rest)) => {
                let f = fields_of(rest);
                match parse_u32(trim(head)) {
                    None => None,
                    Some(pid) => if f.len() >= 20 && parse_u64(f[19]) is Some {
                        Some(
                            (
                                ProcessKey { pid, start_time_ticks: parse_u64(f[19])->0 },
                                comm,
                            ),
                        )
                    } else {
                        None
                    },
                }
            },
        },
    }
}

pub fn parse_process_stat(input: &str) -> (out: Option<ProcessStat>)
    ensures
        match out {
            Some(s) => process_stat_spec(input@) == Some((s.key, s.comm@)),
            None => process_stat_spec(input@) is None,
        },
{
    let chars = chars_of(input);
    let (head, tail) = match split_once_char(&chars, '(') {
        Some(parts) => parts,
        None => return None,
    };
    let (comm, rest) = match rsplit_once_char(&tail, ')') {
        Some(parts) => parts,
        None => return None,
    };
    let f = split_fields(&rest);
    let ghost fs = seqs_of(f@);
    assert(fs == fields_of(rest@));
    let head_trimmed = trim_chars(&head);
    let pid = match parse_u32_chars(&head_trimmed) {
        Some(v) => v,
        None => return None,
    };
    if f.len() < 20 {
        return None;
    }
    let start = match parse_u64_chars(&f[19]) {
        Some(v) => v,
        None => return None,
    };
    Some(ProcessStat { key: ProcessKey { pid, start_time_ticks: start }, comm: string_of(&comm) })
}

} // verus!
