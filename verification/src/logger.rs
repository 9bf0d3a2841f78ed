//! Log levels and the text of a log line. Where lines go (console, daily
//! file) and the clock that stamps them belong to the application.

use vstd::prelude::*;

verus! {

/// Severity of a log message, from most to least severe.
#[derive(Debug, Clone, Copy, PartialEq, Eq, Structural, PartialOrd)]
pub enum LogLevel {
    Critical,
    Error,
    Warning,
    Info,
    Verbose,
}

/// The rank of a level: 0 for `Critical` up to 4 for `Verbose`.
pub open spec fn level_rank(l: LogLevel) -> u8 {
    match l {
        LogLevel::Critical => 0,
        LogLevel::Error => 1,
        LogLevel::Warning => 2,
        LogLevel::Info => 3,
        LogLevel::Verbose => 4,
    }
}

/// The level's name as it appears in a log line.
pub open spec fn level_text(l: LogLevel) -> Seq<char> {
    match l {
        LogLevel::Critical => "CRITICAL"@,
        LogLevel::Error => "ERROR"@,
        LogLevel::Warning => "WARNING"@,
        LogLevel::Info => "INFO"@,
        LogLevel::Verbose => "VERBOSE"@,
    }
}

impl LogLevel {
    /// The level's rank, the value stored as the global threshold.
    pub fn rank(self) -> (r: u8)
        ensures
            r == level_rank(self),
    {
        match self {
            LogLevel::Critical => 0,
            LogLevel::Error => 1,
            LogLevel::Warning => 2,
            LogLevel::Info => 3,
            LogLevel::Verbose => 4,
        }
    }

    /// The level's name as it appears in a log line.
    pub fn name(self) -> (r: &'static str)
        ensures
            r@ == level_text(self),
    {
        match self {
            LogLevel::Critical => "CRITICAL",
            LogLevel::Error => "ERROR",
            LogLevel::Warning => "WARNING",
            LogLevel::Info => "INFO",
            LogLevel::Verbose => "VERBOSE",
        }
    }
}

/// A message is written when its level is no less severe than the threshold.
pub fn should_log(level: LogLevel, threshold: u8) -> (r: bool)
    ensures
        r == (level_rank(level) <= threshold),
{
    level.rank() <= threshold
}

/// The line `[timestamp] [LEVEL] message` followed by a newline.
pub open spec fn log_line_text(timestamp: Seq<char>, level: LogLevel, message: Seq<char>) -> Seq<char> {
    seq!['['] + timestamp + "] ["@ + level_text(level) + "] "@ + message + seq!['\n']
}

fn append(out: &mut String, s: &str)
    ensures
        final(out)@ == old(out)@ + s@,
{
    let cs = crate::text::chars_of(s);
    let ghost start = out@;
    let mut i: usize = 0;
    while i < cs.len()
        invariant
            i <= cs@.len(),
            cs@ == s@,
            out@ == start + cs@.take(i as int),
        decreases cs@.len() - i,
    {
        crate::text::push_char(out, cs[i]);
        proof {
            assert(cs@.take(i + 1) =~= cs@.take(i as int).push(cs@[i as int]));
        }
        i = i + 1;
    }
    proof {
        assert(cs@.take(cs@.len() as int) =~= cs@);
    }
}

/// Format one log line: `[timestamp] [LEVEL] message\n`.
pub fn log_line(timestamp: &str, level: LogLevel, message: &str) -> (r: String)
    ensures
        r@ == log_line_text(timestamp@, level, message@),
{
    let mut out = String::new();
    crate::text::push_char(&mut out, '[');
    append(&mut out, timestamp);
    append(&mut out, "] [");
    append(&mut out, level.name());
    append(&mut out, "] ");
    append(&mut out, message);
    crate::text::push_char(&mut out, '\n');
    proof {
        assert(out@ =~= log_line_text(timestamp@, level, message@));
    }
    out
}

/// Levels are ranked from most to least severe, one step apart.
pub proof fn lemma_levels_ordered()
    ensures
        level_rank(LogLevel::Critical) < level_rank(LogLevel::Error),
        level_rank(LogLevel::Error) < level_rank(LogLevel::Warning),
        level_rank(LogLevel::Warning) < level_rank(LogLevel::Info),
        level_rank(LogLevel::Info) < level_rank(LogLevel::Verbose),
        level_rank(LogLevel::Critical) == 0,
        level_rank(LogLevel::Verbose) == 4,
{
}

} // verus!
