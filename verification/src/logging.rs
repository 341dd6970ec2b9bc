//! Log levels and the formatting shared by the two loggers, and the calls
//! into the `log` crate that set the global filter.
use vstd::prelude::*;
use crate::strings::{push_str, string_push};

verus! {

/// The level of a log record, from most to least severe.
#[derive(Clone, Copy, PartialEq, Eq, Structural)]
pub enum Level {
    Error,
    Warn,
    Info,
    Debug,
    Trace,
}

/// The most verbose level that passes, or none.
#[derive(Clone, Copy, PartialEq, Eq, Structural)]
pub enum LevelFilter {
    Off,
    Error,
    Warn,
    Info,
    Debug,
    Trace,
}

/// The rank of a level: 1 for errors up to 5 for traces.
pub open spec fn level_rank(l: Level) -> int {
    match l {
        Level::Error => 1,
        Level::Warn => 2,
        Level::Info => 3,
        Level::Debug => 4,
        Level::Trace => 5,
    }
}

/// The rank of a filter: 0 lets nothing through.
pub open spec fn filter_rank(f: LevelFilter) -> int {
    match f {
        LevelFilter::Off => 0,
        LevelFilter::Error => 1,
        LevelFilter::Warn => 2,
        LevelFilter::Info => 3,
        LevelFilter::Debug => 4,
        LevelFilter::Trace => 5,
    }
}

fn level_number(l: Level) -> (n: u8)
    ensures
        n == level_rank(l),
{
    match l {
        Level::Error => 1,
        Level::Warn => 2,
        Level::Info => 3,
        Level::Debug => 4,
        Level::Trace => 5,
    }
}

fn filter_number(f: LevelFilter) -> (n: u8)
    ensures
        n == filter_rank(f),
{
    match f {
        LevelFilter::Off => 0,
        LevelFilter::Error => 1,
        LevelFilter::Warn => 2,
        LevelFilter::Info => 3,
        LevelFilter::Debug => 4,
        LevelFilter::Trace => 5,
    }
}

/// Whether a record of level `l` passes `filter`: it does when it is at
/// least as severe as the filter allows.
pub fn level_enabled(l: Level, filter: LevelFilter) -> (b: bool)
    ensures
        b == (level_rank(l) <= filter_rank(filter)),
{
    level_number(l) <= filter_number(filter)
}

/// How a level is written in a log line.
pub open spec fn level_name(l: Level) -> Seq<char> {
    match l {
        Level::Error => "ERROR"@,
        Level::Warn => "WARN"@,
        Level::Info => "INFO"@,
        Level::Debug => "DEBUG"@,
        Level::Trace => "TRACE"@,
    }
}

pub fn level_str(l: Level) -> (s: &'static str)
    ensures
        s@ == level_name(l),
{
    match l {
        Level::Error => "ERROR",
        Level::Warn => "WARN",
        Level::Info => "INFO",
        Level::Debug => "DEBUG",
        Level::Trace => "TRACE",
    }
}

/// A log line: the level in brackets, a space, and the message.
pub open spec fn spec_format_line(l: Level, msg: Seq<char>) -> Seq<char> {
    seq!['['] + level_name(l) + seq![']', ' '] + msg
}

pub fn format_line(l: Level, msg: &str) -> (line: String)
    ensures
        line@ == spec_format_line(l, msg@),
{
    let mut line = String::new();
    string_push(&mut line, '[');
    push_str(&mut line, level_str(l));
    string_push(&mut line, ']');
    string_push(&mut line, ' ');
    push_str(&mut line, msg);
    assert(line@ =~= spec_format_line(l, msg@));
    line
}

/// The browser console method a record goes to.
#[derive(Clone, Copy, PartialEq, Eq, Structural)]
pub enum ConsoleMethod {
    Error,
    Warn,
    Info,
    Log,
    Debug,
}

/// The console method for each level: debug records go to `log`, and trace
/// records to `debug`.
pub fn console_method(l: Level) -> (m: ConsoleMethod)
    ensures
        m == match l {
            Level::Error => ConsoleMethod::Error,
            Level::Warn => ConsoleMethod::Warn,
            Level::Info => ConsoleMethod::Info,
            Level::Debug => ConsoleMethod::Log,
            Level::Trace => ConsoleMethod::Debug,
        },
{
    match l {
        Level::Error => ConsoleMethod::Error,
        Level::Warn => ConsoleMethod::Warn,
        Level::Info => ConsoleMethod::Info,
        Level::Debug => ConsoleMethod::Log,
        Level::Trace => ConsoleMethod::Debug,
    }
}

/// A line the worker posted, as the UI thread logs it.
pub fn worker_line(line: &str) -> (r: String)
    ensures
        r@ == "[worker] "@ + line@,
{
    let mut r = String::new();
    push_str(&mut r, "[worker] ");
    push_str(&mut r, line);
    r
}

/// `log::SetLoggerError`, carried opaquely as the result of installing a
/// logger.
#[verifier::external_type_specification]
#[verifier::external_body]
pub struct ExSetLoggerError(log::SetLoggerError);

/// The end of logger set-up: once installing the logger with
/// `log::set_logger` succeeded (`installed`), the global filter to apply is
/// `filter`; a failure is handed back as it came, and then no filter is to be
/// applied.
pub(crate) fn finish_init(installed: Result<(), log::SetLoggerError>, filter: LevelFilter) -> (r: Result<LevelFilter, log::SetLoggerError>)
    ensures
        r is Ok <==> installed is Ok,
        r matches Ok(f) ==> f == filter,
        r matches Err(e) ==> installed == Err::<(), log::SetLoggerError>(e),
{
    match installed {
        Ok(()) => Ok(filter),
        Err(e) => Err(e),
    }
}

/// A record that passes a filter passes every more verbose filter, and
/// errors pass every filter but `Off`.
pub proof fn lemma_filter_monotone(l: Level, f: LevelFilter, g: LevelFilter)
    ensures
        level_rank(l) <= filter_rank(f) && filter_rank(f) <= filter_rank(g) ==> level_rank(l)
            <= filter_rank(g),
        g != LevelFilter::Off ==> level_rank(Level::Error) <= filter_rank(g),
{
}

} // verus!
