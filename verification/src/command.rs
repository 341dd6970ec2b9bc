//! The command line of the streaming server: how the streamed command is
//! shown, and the verbosity levels.
use vstd::prelude::*;
use crate::strings::{chars_of, push_str, string_push};

verus! {

/// Characters that are shown without quoting.
pub open spec fn is_plain_char(c: char) -> bool {
    ('a' <= c <= 'z') || ('A' <= c <= 'Z') || ('0' <= c <= '9') || c == '-' || c == '_' || c
        == '.' || c == '/' || c == ':'
}

/// What `format!("{:?}", s)` gives for a string with characters `s`: the
/// Rust debug form, quoted and escaped.
pub uninterp spec fn debug_string(s: Seq<char>) -> Seq<char>;

/// `format!("{:?}", s)` for a `String`: the contract only names the result,
/// `debug_string` of the characters; what that form is, is not stated.
#[verifier::external_body]
fn debug_quote(s: &String) -> (r: String)
    ensures
        r@ == debug_string(s@),
{
    format!("{:?}", s)
}

/// One argument as it is shown: itself when every character is plain, its
/// quoted debug form otherwise.
pub open spec fn shown_arg(s: Seq<char>) -> Seq<char> {
    if forall|i: int| 0 <= i < s.len() ==> is_plain_char(#[trigger] s[i]) {
        s
    } else {
        debug_string(s)
    }
}

/// Words joined with single spaces.
pub open spec fn join_spaced(ws: Seq<Seq<char>>) -> Seq<char>
    decreases ws.len(),
{
    if ws.len() == 0 {
        seq![]
    } else if ws.len() == 1 {
        ws[0]
    } else {
        join_spaced(ws.drop_last()) + seq![' '] + ws.last()
    }
}

/// The command shown as a shell-like line.
pub open spec fn spec_shellish(args: Seq<String>) -> Seq<char> {
    join_spaced(args.map_values(|a: String| shown_arg(a@)))
}

fn is_plain(c: char) -> (b: bool)
    ensures
        b == is_plain_char(c),
{
    ('a' <= c && c <= 'z') || ('A' <= c && c <= 'Z') || ('0' <= c && c <= '9') || c == '-' || c
        == '_' || c == '.' || c == '/' || c == ':'
}

fn shown(arg: &String) -> (r: String)
    ensures
        r@ == shown_arg(arg@),
{
    let cs = chars_of(arg.as_str());
    let mut i: usize = 0;
    while i < cs.len()
        invariant
            i <= cs@.len(),
            cs@ == arg@,
            forall|j: int| 0 <= j < i ==> is_plain_char(cs@[j]),
        decreases cs@.len() - i,
    {
        if !is_plain(cs[i]) {
            return debug_quote(arg);
        }
        i = i + 1;
    }
    arg.clone()
}

/// The models of a list of strings.
pub open spec fn string_views(ws: Seq<String>) -> Seq<Seq<char>> {
    ws.map_values(|w: String| w@)
}

/// The words joined with single spaces.
pub fn join_words(words: &[String]) -> (line: String)
    ensures
        line@ == join_spaced(string_views(words@)),
{
    let mut line = String::new();
    let mut i: usize = 0;
    while i < words.len()
        invariant
            i <= words@.len(),
            line@ == join_spaced(string_views(words@.subrange(0, i as int))),
        decreases words@.len() - i,
    {
        let ghost prev = string_views(words@.subrange(0, i as int));
        let ghost next = string_views(words@.subrange(0, i + 1));
        assert(next.drop_last() =~= prev);
        if i > 0 {
            string_push(&mut line, ' ');
        } else {
            assert(prev.len() == 0);
        }
        push_str(&mut line, words[i].as_str());
        assert(next.last() == words@[i as int]@);
        i = i + 1;
    }
    assert(words@.subrange(0, words@.len() as int) =~= words@);
    line
}

/// The command as a shell-like line for the startup message: each argument
/// as it is shown, joined with spaces.
pub fn shellish_command(command: &[String]) -> (line: String)
    ensures
        line@ == spec_shellish(command@),
{
    let mut shown_args: Vec<String> = Vec::new();
    let mut i: usize = 0;
    while i < command.len()
        invariant
            i <= command@.len(),
            string_views(shown_args@) == command@.subrange(0, i as int).map_values(
                |a: String| shown_arg(a@),
            ),
        decreases command@.len() - i,
    {
        let s = shown(&command[i]);
        let ghost before = string_views(shown_args@);
        shown_args.push(s);
        proof {
            assert(string_views(shown_args@) =~= before.push(shown_arg(command@[i as int]@)));
            assert(command@.subrange(0, i + 1).map_values(|a: String| shown_arg(a@))
                =~= command@.subrange(0, i as int).map_values(|a: String| shown_arg(a@)).push(
                shown_arg(command@[i as int]@),
            ));
        }
        i = i + 1;
    }
    assert(command@.subrange(0, command@.len() as int) =~= command@);
    join_words(shown_args.as_slice())
}

/// Verbosity levels of the streaming server, from least to most verbose.
#[derive(Clone, Copy, Debug, PartialEq, Eq)]
pub enum LogLevel {
    Error,
    Warn,
    Info,
    Debug,
    Trace,
}

impl LogLevel {
    /// The level's rank, from 0 for `Error` to 4 for `Trace`.
    pub open spec fn rank(self) -> nat {
        match self {
            LogLevel::Error => 0,
            LogLevel::Warn => 1,
            LogLevel::Info => 2,
            LogLevel::Debug => 3,
            LogLevel::Trace => 4,
        }
    }

    /// The verbosity count handed to the logger: the level's rank.
    pub fn verbosity(self) -> (v: usize)
        ensures
            v == self.rank(),
    {
        match self {
            LogLevel::Error => 0,
            LogLevel::Warn => 1,
            LogLevel::Info => 2,
            LogLevel::Debug => 3,
            LogLevel::Trace => 4,
        }
    }
}

} // verus!
