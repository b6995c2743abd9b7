//! Which messages are shown.
use crate::text;
use vstd::prelude::*;

verus! {

/// The level of a message.
#[derive(Clone, Copy, PartialEq, Eq, Structural)]
pub enum Level {
    Error,
    Warn,
    Info,
    Debug,
    Trace,
}

/// The last level that is shown.
#[derive(Clone, Copy, PartialEq, Eq, Structural)]
pub enum LevelFilter {
    Off,
    Error,
    Warn,
    Info,
    Debug,
    Trace,
}

/// The place of a level, errors first.
pub open spec fn level_rank(level: Level) -> int {
    match level {
        Level::Error => 1,
        Level::Warn => 2,
        Level::Info => 3,
        Level::Debug => 4,
        Level::Trace => 5,
    }
}

/// How many levels a filter lets through.
pub open spec fn filter_rank(filter: LevelFilter) -> int {
    match filter {
        LevelFilter::Off => 0,
        LevelFilter::Error => 1,
        LevelFilter::Warn => 2,
        LevelFilter::Info => 3,
        LevelFilter::Debug => 4,
        LevelFilter::Trace => 5,
    }
}

/// The filters by rank.
pub open spec fn filter_name(filter: LevelFilter) -> Seq<char> {
    match filter {
        LevelFilter::Off => "OFF"@,
        LevelFilter::Error => "ERROR"@,
        LevelFilter::Warn => "WARN"@,
        LevelFilter::Info => "INFO"@,
        LevelFilter::Debug => "DEBUG"@,
        LevelFilter::Trace => "TRACE"@,
    }
}

/// `c` as a capital, if it is a small ASCII letter.
pub open spec fn upper(c: char) -> char {
    if 'a' <= c <= 'z' {
        (c as u32 - 32) as char
    } else {
        c
    }
}

/// The texts differ at most in the case of ASCII letters.
pub open spec fn same_ignoring_case(a: Seq<char>, b: Seq<char>) -> bool {
    a.len() == b.len() && forall|i: int| 0 <= i < a.len() ==> upper(#[trigger] a[i]) == upper(b[i])
}

/// `log::LevelFilter::from_str` reads the name of a filter in any case.
#[verifier::external_body]
fn filter_from_str(s: &str) -> (r: Option<LevelFilter>)
    ensures
        match r {
            Some(f) => same_ignoring_case(s@, filter_name(f)),
            None => forall|f: LevelFilter| !same_ignoring_case(s@, #[trigger] filter_name(f)),
        },
{
    match s.parse::<log::LevelFilter>() {
        Ok(log::LevelFilter::Off) => Some(LevelFilter::Off),
        Ok(log::LevelFilter::Error) => Some(LevelFilter::Error),
        Ok(log::LevelFilter::Warn) => Some(LevelFilter::Warn),
        Ok(log::LevelFilter::Info) => Some(LevelFilter::Info),
        Ok(log::LevelFilter::Debug) => Some(LevelFilter::Debug),
        Ok(log::LevelFilter::Trace) => Some(LevelFilter::Trace),
        Err(_) => None,
    }
}

/// The filter that a setting asks for; without a setting, or with one that is
/// no filter, messages of information and above are shown.
pub fn filter_of_setting(setting: Option<&str>) -> (r: LevelFilter)
    ensures
        match setting {
            Some(s) => same_ignoring_case(s@, filter_name(r)) || (r == LevelFilter::Info && forall|
                f: LevelFilter,
            |
                !same_ignoring_case(s@, #[trigger] filter_name(f))),
            None => r == LevelFilter::Info,
        },
{
    match setting {
        Some(s) => match filter_from_str(s) {
            Some(f) => f,
            None => LevelFilter::Info,
        },
        None => LevelFilter::Info,
    }
}

/// Shows messages up to a level.
pub struct StderrLogger(pub LevelFilter);

impl StderrLogger {
    /// True when a message of this level is shown.
    pub fn enabled(&self, level: Level) -> (r: bool)
        ensures
            r == (level_rank(level) <= filter_rank(self.0)),
    {
        let l: u8 = match level {
            Level::Error => 1,
            Level::Warn => 2,
            Level::Info => 3,
            Level::Debug => 4,
            Level::Trace => 5,
        };
        let f: u8 = match self.0 {
            LevelFilter::Off => 0,
            LevelFilter::Error => 1,
            LevelFilter::Warn => 2,
            LevelFilter::Info => 3,
            LevelFilter::Debug => 4,
            LevelFilter::Trace => 5,
        };
        l <= f
    }

    /// The line that shows a message, or `None` if it is not shown.
    pub fn line(&self, level: Level, message: &str) -> (r: Option<String>)
        ensures
            match r {
                Some(s) => level_rank(level) <= filter_rank(self.0) && s@ == label(level)
                    + message@,
                None => level_rank(level) > filter_rank(self.0),
            },
    {
        if !self.enabled(level) {
            return None;
        }
        Some(
            match level {
                Level::Error => text::join("[ERROR] ", message),
                Level::Warn => text::join("[WARN ] ", message),
                Level::Info => text::join("[INFO ] ", message),
                Level::Debug => text::join("[DEBUG] ", message),
                Level::Trace => text::join("[TRACE] ", message),
            },
        )
    }
}

/// What precedes a message: its level, five characters wide, in brackets.
pub open spec fn label(level: Level) -> Seq<char> {
    match level {
        Level::Error => "[ERROR] "@,
        Level::Warn => "[WARN ] "@,
        Level::Info => "[INFO ] "@,
        Level::Debug => "[DEBUG] "@,
        Level::Trace => "[TRACE] "@,
    }
}

/// A filter shows the messages of its own level and of all graver ones, and no
/// others. Nothing is shown when it is off.
pub proof fn law_filters_show_graver_messages(level: Level, filter: LevelFilter)
    ensures
        level_rank(Level::Error) < level_rank(Level::Warn) < level_rank(Level::Info) < level_rank(
            Level::Debug,
        ) < level_rank(Level::Trace),
        filter_rank(LevelFilter::Off) < level_rank(level),
        level_rank(Level::Error) == filter_rank(LevelFilter::Error),
        level_rank(Level::Warn) == filter_rank(LevelFilter::Warn),
        level_rank(Level::Info) == filter_rank(LevelFilter::Info),
        level_rank(Level::Debug) == filter_rank(LevelFilter::Debug),
        level_rank(Level::Trace) == filter_rank(LevelFilter::Trace),
        level_rank(level) <= filter_rank(LevelFilter::Trace),
        filter != LevelFilter::Off ==> level_rank(Level::Error) <= filter_rank(filter),
{
}

/// Every label holds the name of its level in brackets, and all are equally
/// wide, so that messages stand below each other.
pub proof fn law_labels_are_equally_wide(level: Level)
    ensures
        label(level).len() == 8,
        label(level)[0] == '[' && label(level)[6] == ']' && label(level)[7] == ' ',
        text::trimmed(label(level).subrange(1, 6)) == match level {
            Level::Error => filter_name(LevelFilter::Error),
            Level::Warn => filter_name(LevelFilter::Warn),
            Level::Info => filter_name(LevelFilter::Info),
            Level::Debug => filter_name(LevelFilter::Debug),
            Level::Trace => filter_name(LevelFilter::Trace),
        },
{
    reveal_strlit("[ERROR] ");
    reveal_strlit("[WARN ] ");
    reveal_strlit("[INFO ] ");
    reveal_strlit("[DEBUG] ");
    reveal_strlit("[TRACE] ");
    reveal_strlit("ERROR");
    reveal_strlit("WARN");
    reveal_strlit("INFO");
    reveal_strlit("DEBUG");
    reveal_strlit("TRACE");
    let none: Seq<char> = Seq::empty();
    let space = seq![' '];
    let inner = label(level).subrange(1, 6);
    match level {
        Level::Error => {
            assert(inner =~= none + "ERROR"@ + none);
            text::law_trimming_finds_the_core(none, "ERROR"@, none);
        },
        Level::Warn => {
            assert(inner =~= none + "WARN"@ + space);
            text::law_trimming_finds_the_core(none, "WARN"@, space);
        },
        Level::Info => {
            assert(inner =~= none + "INFO"@ + space);
            text::law_trimming_finds_the_core(none, "INFO"@, space);
        },
        Level::Debug => {
            assert(inner =~= none + "DEBUG"@ + none);
            text::law_trimming_finds_the_core(none, "DEBUG"@, none);
        },
        Level::Trace => {
            assert(inner =~= none + "TRACE"@ + none);
            text::law_trimming_finds_the_core(none, "TRACE"@, none);
        },
    }
}

} // verus!
