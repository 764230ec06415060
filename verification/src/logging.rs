//! The levels of a log, by name.

use vstd::prelude::*;

verus! {

/// How much of what happens is written to the log.
#[derive(Debug, Clone, Copy, PartialEq, Eq, Structural)]
pub enum LogLevel {
    Off,
    Error,
    Warn,
    Info,
    Debug,
    Trace,
}

/// The text in upper case, as `str::to_uppercase` of the standard library
/// gives it.
pub uninterp spec fn uppercase(text: Seq<char>) -> Seq<char>;

/// Calls `str::to_uppercase` of the standard library, which is not verified
/// here. The contract gives its result a name and claims nothing else of
/// it.
#[verifier::external_body]
fn to_uppercase(text: &str) -> (upper: String)
    ensures
        upper@ == uppercase(text@),
{
    text.to_uppercase()
}

/// The level with the given name in upper case, if there is one.
pub open spec fn level_named(name: Seq<char>) -> Option<LogLevel> {
    if name == "OFF"@ {
        Some(LogLevel::Off)
    } else if name == "ERROR"@ {
        Some(LogLevel::Error)
    } else if name == "WARN"@ {
        Some(LogLevel::Warn)
    } else if name == "INFO"@ {
        Some(LogLevel::Info)
    } else if name == "DEBUG"@ {
        Some(LogLevel::Debug)
    } else if name == "TRACE"@ {
        Some(LogLevel::Trace)
    } else {
        None
    }
}

/// The level with the given name, which must be in upper case.
pub fn level_of(name: &String) -> (level: Option<LogLevel>)
    ensures
        level == level_named(name@),
{
    if *name == String::from_str("OFF") {
        Some(LogLevel::Off)
    } else if *name == String::from_str("ERROR") {
        Some(LogLevel::Error)
    } else if *name == String::from_str("WARN") {
        Some(LogLevel::Warn)
    } else if *name == String::from_str("INFO") {
        Some(LogLevel::Info)
    } else if *name == String::from_str("DEBUG") {
        Some(LogLevel::Debug)
    } else if *name == String::from_str("TRACE") {
        Some(LogLevel::Trace)
    } else {
        None
    }
}

/// The level with the given name, in whatever case it is written.
pub fn parse_level(name: &str) -> (level: Option<LogLevel>)
    ensures
        level == level_named(uppercase(name@)),
{
    let upper = to_uppercase(name);
    level_of(&upper)
}

} // verus!
