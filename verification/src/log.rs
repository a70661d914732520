//! Lines on stderr, mirrored to the kernel log: what one log call writes.
//! The writing itself is the caller's; the kernel log may be closed to it,
//! in which case only the stderr line goes out.

use vstd::prelude::*;

use crate::text::{dec, push_dec, push_str, str_eq};

verus! {

/// The two renderings of one log call.
#[derive(Debug)]
pub struct LogLine {
    /// The line for stderr.
    pub stderr: String,
    /// The same line with its kernel-log priority in front.
    pub kmsg: String,
}

/// The kernel-log priority of a level: `error` 3, `warn` 4, anything else 6.
pub open spec fn priority(level: Seq<char>) -> nat {
    if level == "error"@ {
        3
    } else if level == "warn"@ {
        4
    } else {
        6
    }
}

/// The stderr line of `program` at `level`.
pub open spec fn program_line(program: Seq<char>, level: Seq<char>, text: Seq<char>) -> Seq<char> {
    program + ": "@ + level + ": "@ + text + "\n"@
}

pub open spec fn stderr_line(level: Seq<char>, text: Seq<char>) -> Seq<char> {
    program_line("atrium-server"@, level, text)
}

pub open spec fn kmsg_line(level: Seq<char>, text: Seq<char>) -> Seq<char> {
    "<"@ + dec(priority(level)) + ">"@ + stderr_line(level, text)
}

pub fn kmsg_priority(level: &str) -> (p: u64)
    ensures
        p == priority(level@),
{
    if str_eq(level, "error") {
        3
    } else if str_eq(level, "warn") {
        4
    } else {
        6
    }
}

/// What a log call of `program` at `level` writes for `text`.
pub fn emit_as(program: &str, level: &str, text: &str) -> (l: LogLine)
    ensures
        l.stderr@ == program_line(program@, level@, text@),
        l.kmsg@ == "<"@ + dec(priority(level@)) + ">"@ + program_line(program@, level@, text@),
{
    let mut line = String::new();
    push_str(&mut line, program);
    push_str(&mut line, ": ");
    push_str(&mut line, level);
    push_str(&mut line, ": ");
    push_str(&mut line, text);
    push_str(&mut line, "\n");
    assert(line@ =~= program_line(program@, level@, text@));
    let mut k = String::new();
    push_str(&mut k, "<");
    push_dec(&mut k, kmsg_priority(level));
    push_str(&mut k, ">");
    push_str(&mut k, line.as_str());
    assert(k@ =~= "<"@ + dec(priority(level@)) + ">"@ + program_line(program@, level@, text@));
    LogLine { stderr: line, kmsg: k }
}

/// What a log call of atrium-server at `level` writes for `text`.
pub fn emit(level: &str, text: &str) -> (l: LogLine)
    ensures
        l.stderr@ == stderr_line(level@, text@),
        l.kmsg@ == kmsg_line(level@, text@),
{
    emit_as("atrium-server", level, text)
}

pub fn info(text: &str) -> (l: LogLine)
    ensures
        l.stderr@ == stderr_line("info"@, text@),
        l.kmsg@ == kmsg_line("info"@, text@),
{
    emit("info", text)
}

pub fn warn(text: &str) -> (l: LogLine)
    ensures
        l.stderr@ == stderr_line("warn"@, text@),
        l.kmsg@ == kmsg_line("warn"@, text@),
{
    emit("warn", text)
}

pub fn error(text: &str) -> (l: LogLine)
    ensures
        l.stderr@ == stderr_line("error"@, text@),
        l.kmsg@ == kmsg_line("error"@, text@),
{
    emit("error", text)
}

} // verus!
