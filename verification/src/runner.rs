//! The protocol with the interpreter process: its errors, how the end of an
//! answer is recognised (a prompt line), and how commands are checked before
//! they are passed on as C strings.
use crate::table::first_index;
use crate::text::{append_chars, chars_of, decimal, decimal_chars, string_of};
use crate::world::lit_string;
use vstd::prelude::*;

verus! {

/// A command and the interpreter's answer to it.
#[derive(Clone, Debug, PartialEq, Eq)]
pub struct CommandResult {
    pub command: String,
    pub output: String,
}

/// What went wrong while talking to the interpreter.
#[derive(Clone, Debug, PartialEq, Eq)]
pub enum RunnerError {
    StoryLoadFailed(String),
    CommandFailed(String),
    ChildExited(String),
    Io(String),
    InvalidUtf8,
    InteriorNul(String),
    MissingChildPipe(&'static str),
    Protocol(String),
}

/// The message an error is reported with.
pub open spec fn runner_error_message(e: RunnerError) -> Seq<char> {
    match e {
        RunnerError::StoryLoadFailed(m) => "story load failed: "@ + m@,
        RunnerError::CommandFailed(m) => "command failed: "@ + m@,
        RunnerError::ChildExited(m) => "Bocfel child exited: "@ + m@,
        RunnerError::Io(m) => m@,
        RunnerError::InvalidUtf8 => "Bocfel output was not valid UTF-8"@,
        RunnerError::InteriorNul(m) => m@,
        RunnerError::MissingChildPipe(pipe) => "Bocfel child missing "@ + pipe@ + " pipe"@,
        RunnerError::Protocol(m) => "Bocfel protocol error: "@ + m@,
    }
}

fn concat3(a: &str, b: &str, c: &str) -> (r: String)
    ensures
        r@ == a@ + b@ + c@,
{
    let mut v = chars_of(a);
    let bv = chars_of(b);
    let cv = chars_of(c);
    append_chars(&mut v, bv.as_slice());
    append_chars(&mut v, cv.as_slice());
    string_of(v.as_slice())
}

impl RunnerError {
    /// The message the error is reported with.
    pub fn message(&self) -> (r: String)
        ensures
            r@ == runner_error_message(*self),
    {
        proof {
            reveal_strlit("");
        }
        match self {
            RunnerError::StoryLoadFailed(m) => {
                let r = concat3("story load failed: ", m.as_str(), "");
                assert(r@ =~= runner_error_message(*self));
                r
            },
            RunnerError::CommandFailed(m) => {
                let r = concat3("command failed: ", m.as_str(), "");
                assert(r@ =~= runner_error_message(*self));
                r
            },
            RunnerError::ChildExited(m) => {
                let r = concat3("Bocfel child exited: ", m.as_str(), "");
                assert(r@ =~= runner_error_message(*self));
                r
            },
            RunnerError::Io(m) => m.clone(),
            RunnerError::InvalidUtf8 => lit_string("Bocfel output was not valid UTF-8"),
            RunnerError::InteriorNul(m) => m.clone(),
            RunnerError::MissingChildPipe(pipe) => concat3("Bocfel child missing ", pipe, " pipe"),
            RunnerError::Protocol(m) => {
                let r = concat3("Bocfel protocol error: ", m.as_str(), "");
                assert(r@ =~= runner_error_message(*self));
                r
            },
        }
    }
}

// ---------------------------------------------------------------------------
// The end of an answer
// ---------------------------------------------------------------------------

/// The length of the output without trailing spaces and tabs.
pub open spec fn without_trailing_blanks(b: Seq<u8>) -> int
    decreases b.len(),
{
    if b.len() > 0 && (b.last() == 32 || b.last() == 9) {
        without_trailing_blanks(b.drop_last())
    } else {
        b.len() as int
    }
}

/// Whether the output ends with a prompt: a `>` (then only spaces or tabs)
/// that starts the output or a line.
pub open spec fn prompt_at_end(b: Seq<u8>) -> bool {
    let i = without_trailing_blanks(b);
    &&& i > 0
    &&& b[i - 1] == 62
    &&& (i == 1 || b[i - 2] == 10 || b[i - 2] == 13)
}

proof fn lemma_without_trailing_blanks(b: Seq<u8>, i: int)
    requires
        0 <= i <= b.len(),
        forall|k: int| i <= k < b.len() ==> (#[trigger] b[k] == 32 || b[k] == 9),
    ensures
        without_trailing_blanks(b) == without_trailing_blanks(b.take(i)),
        0 <= without_trailing_blanks(b) <= b.len(),
    decreases b.len() - i,
{
    lemma_blank_end_bounds(b);
    if i < b.len() {
        assert(b.drop_last().take(i) =~= b.take(i));
        lemma_without_trailing_blanks(b.drop_last(), i);
    } else {
        assert(b.take(i) =~= b);
    }
}

proof fn lemma_blank_end_bounds(b: Seq<u8>)
    ensures
        0 <= without_trailing_blanks(b) <= b.len(),
    decreases b.len(),
{
    if b.len() > 0 {
        lemma_blank_end_bounds(b.drop_last());
    }
}

/// Whether the output read so far ends with a prompt.
pub fn ends_with_prompt(bytes: &[u8]) -> (r: bool)
    ensures
        r == prompt_at_end(bytes@),
{
    let mut index = bytes.len();
    while index > 0 && (bytes[index - 1] == 32 || bytes[index - 1] == 9)
        invariant
            0 <= index <= bytes@.len(),
            forall|k: int| index <= k < bytes@.len() ==> (#[trigger] bytes@[k] == 32 || bytes@[k]
                == 9),
        decreases index,
    {
        index -= 1;
    }
    proof {
        lemma_without_trailing_blanks(bytes@, index as int);
        let t = bytes@.take(index as int);
        assert(!(t.len() > 0 && (t.last() == 32 || t.last() == 9)));
        assert(without_trailing_blanks(t) == index);
    }
    if index == 0 || bytes[index - 1] != 62 {
        return false;
    }
    index == 1 || bytes[index - 2] == 10 || bytes[index - 2] == 13
}

/// Adds a byte of the interpreter's output; whether the output now ends
/// with a prompt.
pub fn push_output_byte(bytes: &mut Vec<u8>, byte: u8) -> (done: bool)
    ensures
        final(bytes)@ == old(bytes)@.push(byte),
        done == prompt_at_end(final(bytes)@),
{
    bytes.push(byte);
    ends_with_prompt(bytes.as_slice())
}

/// `String::from_utf8`: the text the bytes encode, when they are valid UTF-8.
#[verifier::external_body]
fn utf8_text(bytes: Vec<u8>) -> (r: Option<String>)
    ensures
        r is Some <==> vstd::utf8::valid_utf8(bytes@),
        r matches Some(s) ==> s@ == vstd::utf8::decode_utf8(bytes@),
{
    String::from_utf8(bytes).ok()
}

/// The text of a finished answer: an error when the interpreter stopped
/// without any output or the output is not UTF-8.
pub fn finish_output(bytes: Vec<u8>) -> (r: Result<String, RunnerError>)
    ensures
        bytes@.len() == 0 ==> (r matches Err(RunnerError::ChildExited(m)) && m@
            == "Bocfel exited without output"@),
        bytes@.len() > 0 && vstd::utf8::valid_utf8(bytes@) ==> (r matches Ok(s) && s@
            == vstd::utf8::decode_utf8(bytes@)),
        bytes@.len() > 0 && !vstd::utf8::valid_utf8(bytes@) ==> r == Err::<String, RunnerError>(
            RunnerError::InvalidUtf8,
        ),
{
    if bytes.len() == 0 {
        return Err(RunnerError::ChildExited(lit_string("Bocfel exited without output")));
    }
    match utf8_text(bytes) {
        Some(s) => Ok(s),
        None => Err(RunnerError::InvalidUtf8),
    }
}

// ---------------------------------------------------------------------------
// Commands as C strings
// ---------------------------------------------------------------------------

/// A NUL byte.
pub open spec fn is_nul() -> spec_fn(u8) -> bool {
    |b: u8| b == 0
}

/// The message for a NUL byte at `position`.
pub open spec fn interior_nul_message(position: nat) -> Seq<char> {
    "string contains an interior NUL byte at position "@ + decimal(position)
}

/// Checks that a text can be passed to the interpreter as a C string: it
/// may hold no NUL byte; the error names the first one.
pub fn check_c_string(value: &str) -> (r: Result<(), RunnerError>)
    ensures
        match first_index(vstd::utf8::encode_utf8(value@), is_nul()) {
            Some(i) => r matches Err(RunnerError::InteriorNul(m)) && m@ == interior_nul_message(
                i as nat,
            ),
            None => r is Ok,
        },
{
    let bytes = value.as_bytes();
    let ghost bs = bytes@;
    let ghost p = is_nul();
    let mut i: usize = 0;
    while i < bytes.len()
        invariant
            0 <= i <= bs.len(),
            bs == bytes@,
            bs == vstd::utf8::encode_utf8(value@),
            p == is_nul(),
            forall|k: int| 0 <= k < i ==> !p(#[trigger] bs[k]),
        decreases bs.len() - i,
    {
        if bytes[i] == 0 {
            proof {
                crate::table::lemma_first_index_scan(bs, p, i as int);
            }
            let mut m = chars_of("string contains an interior NUL byte at position ");
            let d = decimal_chars(i);
            append_chars(&mut m, d.as_slice());
            return Err(RunnerError::InteriorNul(string_of(m.as_slice())));
        }
        i += 1;
    }
    proof {
        crate::table::lemma_first_index_scan(bs, p, bs.len() as int);
    }
    Ok(())
}

} // verus!
