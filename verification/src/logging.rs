//! Where a session's log and model-call files go, and how their lines and
//! names are written.
use crate::text::{append_chars, chars_of, decimal, string_of, zero_pad, zero_padded_decimal};
use vstd::prelude::*;

verus! {

/// The session log: its file, the directory of the model-call files, and
/// the number of model calls made so far. It is not cloned: a session has
/// one counter of model calls, shared by whoever logs to it.
#[derive(Debug)]
pub struct SessionLogger {
    pub path: String,
    pub llm_dir: String,
    pub llm_call_counter: usize,
}

/// The session log file for a time stamp.
pub open spec fn session_log_path(stamp: Seq<char>) -> Seq<char> {
    "logs/agent-session-"@ + stamp + ".txt"@
}

/// The directory of the model-call files for a time stamp.
pub open spec fn session_llm_dir(stamp: Seq<char>) -> Seq<char> {
    "logs/"@ + stamp
}

/// A log line: `[time] event: text`.
pub open spec fn log_line(timestamp: Seq<char>, event: Seq<char>, text: Seq<char>) -> Seq<char> {
    "["@ + timestamp + "] "@ + event + ": "@ + text
}

/// The name of a model-call file: the call number as three or more digits,
/// a hyphen, the name.
pub open spec fn artifact_name(call_number: nat, name: Seq<char>) -> Seq<char> {
    zero_pad(decimal(call_number), 3) + "-"@ + name
}

impl SessionLogger {
    /// The log of a session started at the time stamp `stamp`, with no model
    /// call made yet.
    pub fn for_stamp(stamp: &str) -> (r: Self)
        ensures
            r.path@ == session_log_path(stamp@),
            r.llm_dir@ == session_llm_dir(stamp@),
            r.llm_call_counter == 0,
    {
        let mut p = chars_of("logs/agent-session-");
        append_chars(&mut p, chars_of(stamp).as_slice());
        append_chars(&mut p, chars_of(".txt").as_slice());
        let mut d = chars_of("logs/");
        append_chars(&mut d, chars_of(stamp).as_slice());
        SessionLogger {
            path: string_of(p.as_slice()),
            llm_dir: string_of(d.as_slice()),
            llm_call_counter: 0,
        }
    }

    /// The session log file.
    pub fn path(&self) -> (r: &String)
        ensures
            r@ == self.path@,
    {
        &self.path
    }

    /// The directory of the model-call files.
    pub fn llm_dir(&self) -> (r: &String)
        ensures
            r@ == self.llm_dir@,
    {
        &self.llm_dir
    }

    /// Counts a model call and gives its number, starting at one.
    pub fn next_llm_call_number(&mut self) -> (r: usize)
        requires
            old(self).llm_call_counter < usize::MAX,
        ensures
            r == old(self).llm_call_counter + 1,
            final(self).llm_call_counter == r,
            final(self).path == old(self).path,
            final(self).llm_dir == old(self).llm_dir,
    {
        self.llm_call_counter = self.llm_call_counter + 1;
        self.llm_call_counter
    }

    /// A log line for an event.
    pub fn line(&self, timestamp: &str, event: &str, text: &str) -> (r: String)
        ensures
            r@ == log_line(timestamp@, event@, text@),
    {
        let mut v = chars_of("[");
        append_chars(&mut v, chars_of(timestamp).as_slice());
        append_chars(&mut v, chars_of("] ").as_slice());
        append_chars(&mut v, chars_of(event).as_slice());
        append_chars(&mut v, chars_of(": ").as_slice());
        append_chars(&mut v, chars_of(text).as_slice());
        string_of(v.as_slice())
    }

    /// The file name for a model-call file.
    pub fn artifact_file_name(&self, call_number: usize, name: &str) -> (r: String)
        ensures
            r@ == artifact_name(call_number as nat, name@),
    {
        let mut v = zero_padded_decimal(call_number, 3);
        append_chars(&mut v, chars_of("-").as_slice());
        append_chars(&mut v, chars_of(name).as_slice());
        string_of(v.as_slice())
    }
}

} // verus!
