//! The UI thread's logger: records at or above its level are written to the
//! console and to a page element that shows the newest lines.
use vstd::prelude::*;
use crate::logging::{
    Level, LevelFilter, filter_rank, finish_init, format_line, level_enabled, level_rank,
    spec_format_line,
};
use crate::strings::{push_str, string_push};

verus! {

/// Lines kept in the page's log element.
pub const MAX_LOG_MESSAGES: usize = 1000;

/// The page element that shows the log.
pub const LOG_ELEMENT_ID: &'static str = "log-output";

/// The level the UI thread logs at.
pub open spec fn dom_log_level() -> LevelFilter {
    LevelFilter::Debug
}

/// The text of the log element: each line followed by a line break.
pub open spec fn render_lines(lines: Seq<Seq<char>>) -> Seq<char>
    decreases lines.len(),
{
    if lines.len() == 0 {
        Seq::empty()
    } else {
        render_lines(lines.drop_last()) + lines.last() + seq!['\n']
    }
}

/// The kept lines after `line` was added: the newest `MAX_LOG_MESSAGES`.
pub open spec fn with_line(lines: Seq<Seq<char>>, line: Seq<char>) -> Seq<Seq<char>> {
    let all = lines.push(line);
    if all.len() > MAX_LOG_MESSAGES {
        all.skip(all.len() - MAX_LOG_MESSAGES)
    } else {
        all
    }
}

/// The logger's state: its level and the lines shown in the page.
pub struct DomConsoleLogger {
    level: LevelFilter,
    log_lines: Vec<String>,
}

pub struct DomLoggerModel {
    pub level: LevelFilter,
    pub lines: Seq<Seq<char>>,
}

impl View for DomConsoleLogger {
    type V = DomLoggerModel;

    closed spec fn view(&self) -> DomLoggerModel {
        DomLoggerModel { level: self.level, lines: self.log_lines@.map_values(|l: String| l@) }
    }
}

impl DomConsoleLogger {
    /// A logger at the UI thread's level with no lines yet.
    pub fn new() -> (l: Self)
        ensures
            l@.level == dom_log_level(),
            l@.lines == Seq::<Seq<char>>::empty(),
    {
        let l = DomConsoleLogger { level: LevelFilter::Debug, log_lines: Vec::new() };
        assert(l@.lines =~= Seq::<Seq<char>>::empty());
        l
    }

    /// Whether records of level `level` are logged.
    pub fn enabled(&self, level: Level) -> (b: bool)
        ensures
            b == (level_rank(level) <= filter_rank(self@.level)),
    {
        level_enabled(level, self.level)
    }

    /// The console line for a record, when its level is logged.
    pub fn console_line(&self, level: Level, msg: &str) -> (r: Option<String>)
        ensures
            match r {
                Some(line) => level_rank(level) <= filter_rank(self@.level) && line@
                    == spec_format_line(level, msg@),
                None => level_rank(level) > filter_rank(self@.level),
            },
    {
        if !self.enabled(level) {
            return None;
        }
        Some(format_line(level, msg))
    }

    /// Add a line to the page log, dropping the oldest beyond the limit, and
    /// give back the element's new text.
    pub fn push_line(&mut self, line: String) -> (content: String)
        ensures
            final(self)@ == (DomLoggerModel { lines: with_line(old(self)@.lines, line@), ..old(self)@ }),
            content@ == render_lines(final(self)@.lines),
    {
        let ghost l = line@;
        self.log_lines.push(line);
        let ghost all = old(self)@.lines.push(l);
        assert(self@.lines =~= all);
        assert(all.skip(0) =~= all);
        while self.log_lines.len() > MAX_LOG_MESSAGES
            invariant
                self.level == old(self).level,
                self@.lines.len() <= all.len(),
                self@.lines == all.skip(all.len() - self@.lines.len()),
                self@.lines.len() < all.len() ==> self@.lines.len() >= MAX_LOG_MESSAGES,
            decreases self.log_lines@.len(),
        {
            let ghost before = self@.lines;
            self.log_lines.remove(0);
            assert(self@.lines =~= before.skip(1));
            assert(self@.lines =~= all.skip(all.len() - self@.lines.len()));
        }
        assert(self@.lines =~= with_line(old(self)@.lines, l));
        self.render()
    }

    /// The text of the log element.
    pub fn render(&self) -> (content: String)
        ensures
            content@ == render_lines(self@.lines),
    {
        let mut content = String::new();
        let mut i: usize = 0;
        while i < self.log_lines.len()
            invariant
                i <= self@.lines.len(),
                content@ == render_lines(self@.lines.subrange(0, i as int)),
            decreases self.log_lines@.len() - i,
        {
            let ghost sub = self@.lines.subrange(0, i + 1);
            push_str(&mut content, self.log_lines[i].as_str());
            string_push(&mut content, '\n');
            proof {
                assert(sub.drop_last() =~= self@.lines.subrange(0, i as int));
                assert(sub.last() == self@.lines[i as int]);
            }
            i = i + 1;
        }
        assert(self@.lines.subrange(0, self@.lines.len() as int) =~= self@.lines);
        content
    }
}

/// Finish setting up the UI thread's logging once the logger was installed
/// with `log::set_logger` (`installed`): on success, the filter to apply with
/// `log::set_max_level` is the logger's level, Debug; a failed installation
/// is handed back as it came, and no filter is to be applied.
pub fn init_logging(installed: Result<(), log::SetLoggerError>) -> (r: Result<LevelFilter, log::SetLoggerError>)
    ensures
        r is Ok <==> installed is Ok,
        r matches Ok(f) ==> f == dom_log_level(),
        r matches Err(e) ==> installed == Err::<(), log::SetLoggerError>(e),
{
    finish_init(installed, LevelFilter::Debug)
}

/// The log element shows the newest lines, at most `MAX_LOG_MESSAGES`, in
/// the order they were logged.
pub proof fn lemma_log_lines_newest(lines: Seq<Seq<char>>, line: Seq<char>)
    requires
        lines.len() <= MAX_LOG_MESSAGES,
    ensures
        with_line(lines, line).len() <= MAX_LOG_MESSAGES,
        with_line(lines, line).last() == line,
        lines.len() < MAX_LOG_MESSAGES ==> with_line(lines, line) == lines.push(line),
        lines.len() == MAX_LOG_MESSAGES ==> with_line(lines, line) == lines.drop_first().push(line),
{
    if lines.len() == MAX_LOG_MESSAGES {
        assert(lines.push(line).skip(1) =~= lines.drop_first().push(line));
    }
}

} // verus!
