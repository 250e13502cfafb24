//! Log levels: a message is printed when its level is at least the minimum level.
use vstd::prelude::*;
use vstd::string::StringSliceAdditionalSpecFns;

verus! {

/// A log level: its rank, the terminal color of its messages and its tag.
pub struct Level {
    pub level: u8,
    pub color: u8,
    pub tag: &'static str,
}

impl Level {
    pub fn new(level: u8, color: u8, tag: &'static str) -> (r: Level)
        ensures
            r.level == level,
            r.color == color,
            r.tag == tag,
    {
        Level { level, color, tag }
    }
}

/// The ranks of the levels, from the most to the least important.
pub const KERNEL_LEVEL: u8 = 6;

pub const ERROR_LEVEL: u8 = 5;

pub const WARN_LEVEL: u8 = 4;

pub const INFO_LEVEL: u8 = 3;

pub const DEBUG_LEVEL: u8 = 2;

pub const TRACE_LEVEL: u8 = 1;

/// Whether a message of `level` is printed when the minimum level is `min_level`.
pub fn log_allow(level: &Level, min_level: u8) -> (r: bool)
    ensures
        r == (level.level >= min_level),
{
    level.level >= min_level
}

/// Where a log message comes from: its level, file and line.
pub struct LogMetaInfo {
    pub level: &'static Level,
    pub file: &'static str,
    pub line: u32,
}

impl LogMetaInfo {
    pub fn new(level: &'static Level, file: &'static str, line: u32) -> (r: Self)
        ensures
            r.level == level,
            r.file == file,
            r.line == line,
    {
        Self { level, file, line }
    }
}

/// Whether two byte strings are equal.
fn bytes_eq(a: &[u8], b: &[u8]) -> (r: bool)
    ensures
        r == (a@ == b@),
{
    if a.len() != b.len() {
        return false;
    }
    let mut i: usize = 0;
    while i < a.len()
        invariant
            a@.len() == b@.len(),
            i <= a@.len(),
            forall|j: int| 0 <= j < i ==> a@[j] == b@[j],
        decreases a@.len() - i,
    {
        if a[i] != b[i] {
            return false;
        }
        i = i + 1;
    }
    assert(a@ =~= b@);
    true
}

/// The minimum level that the setting `name` selects: the level of that name, and
/// INFO for no setting or an unknown name.
pub fn log_level(name: Option<&str>) -> (r: u8)
    ensures
        r == (match name {
            Some(s) => if s.spec_bytes() == "ERROR".spec_bytes() {
                ERROR_LEVEL
            } else if s.spec_bytes() == "WARN".spec_bytes() {
                WARN_LEVEL
            } else if s.spec_bytes() == "INFO".spec_bytes() {
                INFO_LEVEL
            } else if s.spec_bytes() == "DEBUG".spec_bytes() {
                DEBUG_LEVEL
            } else if s.spec_bytes() == "TRACE".spec_bytes() {
                TRACE_LEVEL
            } else {
                INFO_LEVEL
            },
            None => INFO_LEVEL,
        }),
{
    match name {
        Some(s) => {
            let bytes = s.as_bytes();
            if bytes_eq(bytes, "ERROR".as_bytes()) {
                ERROR_LEVEL
            } else if bytes_eq(bytes, "WARN".as_bytes()) {
                WARN_LEVEL
            } else if bytes_eq(bytes, "INFO".as_bytes()) {
                INFO_LEVEL
            } else if bytes_eq(bytes, "DEBUG".as_bytes()) {
                DEBUG_LEVEL
            } else if bytes_eq(bytes, "TRACE".as_bytes()) {
                TRACE_LEVEL
            } else {
                INFO_LEVEL
            }
        },
        None => INFO_LEVEL,
    }
}

} // verus!
