//! The worker's logger: records at or above its level go, without a level
//! prefix, to the UI thread, which prefixes them itself; the worker writes
//! nothing to the console.
use vstd::prelude::*;
use crate::logging::{Level, LevelFilter, filter_rank, finish_init, level_enabled, level_rank};

verus! {

/// The level the worker logs at.
pub open spec fn worker_log_level() -> LevelFilter {
    LevelFilter::Info
}

/// The worker logger's state: its level.
pub struct WorkerLogger {
    level: LevelFilter,
}

/// What a logged record turns into: the bare message, posted to the UI
/// thread with its level.
pub struct WorkerRecord {
    pub level: Level,
    pub line: String,
}

impl WorkerLogger {
    pub closed spec fn level(&self) -> LevelFilter {
        self.level
    }

    /// A logger at the worker's level.
    pub fn new() -> (l: Self)
        ensures
            l.level() == worker_log_level(),
    {
        WorkerLogger { level: LevelFilter::Info }
    }

    /// Whether records of level `level` are logged.
    pub fn enabled(&self, level: Level) -> (b: bool)
        ensures
            b == (level_rank(level) <= filter_rank(self.level())),
    {
        level_enabled(level, self.level)
    }

    /// The message posted for a record, when its level is logged.
    pub fn record(&self, level: Level, msg: &str) -> (r: Option<WorkerRecord>)
        ensures
            match r {
                Some(rec) => level_rank(level) <= filter_rank(self.level()) && rec.level == level
                    && rec.line@ == msg@,
                None => level_rank(level) > filter_rank(self.level()),
            },
    {
        if !self.enabled(level) {
            return None;
        }
        Some(WorkerRecord { level, line: String::from_str(msg) })
    }
}

/// Finish setting up the worker's logging once the logger was installed with
/// `log::set_logger` (`installed`): on success, the filter to apply with
/// `log::set_max_level` is the logger's level, Info; a failed installation is
/// handed back as it came, and no filter is to be applied.
pub fn init_logging(installed: Result<(), log::SetLoggerError>) -> (r: Result<LevelFilter, log::SetLoggerError>)
    ensures
        r is Ok <==> installed is Ok,
        r matches Ok(f) ==> f == worker_log_level(),
        r matches Err(e) ==> installed == Err::<(), log::SetLoggerError>(e),
{
    finish_init(installed, LevelFilter::Info)
}

} // verus!
