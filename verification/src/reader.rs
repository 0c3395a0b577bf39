//! Handling the lines of a log as they are read: line endings, and what a
//! rejected line means for the rest of the input.

use vstd::prelude::*;

use crate::error::ParseError;
use crate::line::{parse_line, record_outcome, spec_parse_line};
use crate::record::LogRecord;

verus! {

/// A line without one trailing `\n`, then without one trailing `\r`.
pub open spec fn spec_trim_line_ending(s: Seq<u8>) -> Seq<u8> {
    let a = if s.len() > 0 && s.last() == 10 {
        s.drop_last()
    } else {
        s
    };
    if a.len() > 0 && a.last() == 13 {
        a.drop_last()
    } else {
        a
    }
}

/// Removes a trailing `\n` and then a trailing `\r`, so that Unix and
/// Windows line endings both go.
pub fn trim_line_ending(line: &mut Vec<u8>)
    ensures
        final(line)@ == spec_trim_line_ending(old(line)@),
{
    if line.len() > 0 && line[line.len() - 1] == 10 {
        line.pop();
    }
    if line.len() > 0 && line[line.len() - 1] == 13 {
        line.pop();
    }
}

/// What the lines read so far from one input mean for the run: whether any
/// was rejected, and whether reading must stop.
pub struct ProcessStatus {
    pub invalid: bool,
    pub stop: bool,
}

impl Default for ProcessStatus {
    fn default() -> (s: ProcessStatus)
        ensures
            !s.invalid,
            !s.stop,
    {
        ProcessStatus { invalid: false, stop: false }
    }
}

impl ProcessStatus {
    /// Takes one line as read, with its line ending: trims the ending and
    /// parses the line. A rejected line marks the input invalid, and stops
    /// the reading unless rejected lines are to be skipped.
    pub fn handle_line(&mut self, line: &mut Vec<u8>, skip_invalid: bool) -> (r: Result<
        LogRecord,
        ParseError,
    >)
        ensures
            final(line)@ == spec_trim_line_ending(old(line)@),
            record_outcome(r) == spec_parse_line(final(line)@),
            final(self).invalid == (old(self).invalid || r is Err),
            final(self).stop == (old(self).stop || (r is Err && !skip_invalid)),
    {
        trim_line_ending(line);
        let result = parse_line(line.as_slice());
        if result.is_err() {
            self.invalid = true;
            if !skip_invalid {
                self.stop = true;
            }
        }
        result
    }
}

/// What the inputs read so far mean for a run of several inputs: whether
/// any of them held a rejected line.
pub struct RunStatus {
    pub invalid: bool,
}

impl RunStatus {
    /// A run before its first input.
    pub fn new() -> (s: RunStatus)
        ensures
            !s.invalid,
    {
        RunStatus { invalid: false }
    }

    /// Takes the status of one finished input: a rejected line in it makes
    /// the run invalid for good. Returns whether the next input is to be read,
    /// which is not so when this input stopped the reading.
    pub fn after_input(&mut self, input: &ProcessStatus) -> (go_on: bool)
        ensures
            final(self).invalid == (old(self).invalid || input.invalid),
            go_on == !input.stop,
    {
        self.invalid = self.invalid || input.invalid;
        !input.stop
    }
}

} // verus!
