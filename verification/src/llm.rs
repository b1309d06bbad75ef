//! The agent's replies from the language model, and the texts sent to it or
//! logged about a call.
use crate::text::{
    append_chars, chars_of, decimal, decimal_chars, decimal_chars_u64, string_of, zero_pad,
    zero_padded_decimal,
};
use crate::world::lit_string;
use vstd::prelude::*;

verus! {

/// The action the model asks for.
#[derive(Clone, Debug)]
pub struct AgentAction {
    /// The kind of action; only `game_command` is known.
    pub action_type: String,
    pub command: String,
}

/// What the model asks to remember.
#[derive(Clone, Debug)]
pub struct MemoryUpdate {
    pub location: String,
    pub new_exits: Vec<String>,
    pub new_objects: Vec<String>,
    pub notes: Vec<String>,
}

impl Default for MemoryUpdate {
    fn default() -> (r: Self)
        ensures
            r.location@ == Seq::<char>::empty(),
            r.new_exits@.len() == 0,
            r.new_objects@.len() == 0,
            r.notes@.len() == 0,
    {
        MemoryUpdate {
            location: String::new(),
            new_exits: Vec::new(),
            new_objects: Vec::new(),
            notes: Vec::new(),
        }
    }
}

/// Whether the model considers the task done.
#[derive(Clone, Debug)]
pub struct TaskStatus {
    pub complete: bool,
    pub summary: String,
}

/// One reply of the model.
#[derive(Clone, Debug)]
pub struct AgentReply {
    pub thought: String,
    pub action: AgentAction,
    pub memory_update: MemoryUpdate,
    pub task_status: TaskStatus,
}

/// The prompt for one turn: the task, the recent transcript and the world
/// memory as JSON.
pub open spec fn user_prompt(task: Seq<char>, transcript_tail: Seq<char>, world_json: Seq<char>) -> Seq<
    char,
> {
    "Task:\n"@ + task + "\n\nTranscript (recent):\n"@ + transcript_tail + "\n\nWorld memory JSON:\n"@
        + world_json
}

/// The prompt for one turn, given the world memory already written as JSON.
pub fn user_prompt_text(task: &str, transcript_tail: &str, world_json: &str) -> (r: String)
    ensures
        r@ == user_prompt(task@, transcript_tail@, world_json@),
{
    let mut v = chars_of("Task:\n");
    append_chars(&mut v, chars_of(task).as_slice());
    append_chars(&mut v, chars_of("\n\nTranscript (recent):\n").as_slice());
    append_chars(&mut v, chars_of(transcript_tail).as_slice());
    append_chars(&mut v, chars_of("\n\nWorld memory JSON:\n").as_slice());
    append_chars(&mut v, chars_of(world_json).as_slice());
    string_of(v.as_slice())
}

/// The positions of the first `{` and the last `}` of a text, if both occur.
pub open spec fn brace_bounds(s: Seq<char>) -> Option<(int, int)> {
    if s.contains('{') && s.contains('}') {
        let start = choose|i: int| 0 <= i < s.len() && s[i] == '{' && forall|k: int| 0 <= k < i ==> s[k] != '{';
        let end = choose|j: int| 0 <= j < s.len() && s[j] == '}' && forall|k: int| j < k < s.len() ==> s[k] != '}';
        Some((start, end))
    } else {
        None
    }
}

/// Whether the last `}` comes no earlier than just before the first `{`
/// (a text where it comes earlier cannot be cut).
pub open spec fn braces_in_order(s: Seq<char>) -> bool {
    match brace_bounds(s) {
        Some((start, end)) => start <= end + 1,
        None => true,
    }
}

/// The part of a reply from its first `{` to its last `}`, where a reply
/// that is not JSON as a whole is looked for JSON in; `None` without both
/// braces.
pub fn reply_json_snippet(content: &str) -> (r: Option<String>)
    requires
        braces_in_order(content@),
    ensures
        match brace_bounds(content@) {
            Some((start, end)) => r matches Some(s) && s@ == content@.subrange(start, end + 1),
            None => r is None,
        },
{
    let v = chars_of(content);
    let n = v.len();
    let mut start: usize = 0;
    while start < n && v[start] != '{'
        invariant
            0 <= start <= n == v@.len(),
            forall|k: int| 0 <= k < start ==> v@[k] != '{',
        decreases n - start,
    {
        start += 1;
    }
    if start == n {
        assert(!content@.contains('{'));
        return None;
    }
    let mut end: usize = n;
    while end > 0 && v[end - 1] != '}'
        invariant
            0 <= end <= n == v@.len(),
            forall|k: int| end <= k < n ==> v@[k] != '}',
        decreases end,
    {
        end -= 1;
    }
    if end == 0 {
        assert(!content@.contains('}'));
        return None;
    }
    proof {
        let s = content@;
        assert(s[start as int] == '{');
        assert(s[end - 1] == '}');
        let a = choose|i: int| 0 <= i < s.len() && s[i] == '{' && forall|k: int| 0 <= k < i ==> s[k] != '{';
        let b = choose|j: int| 0 <= j < s.len() && s[j] == '}' && forall|k: int| j < k < s.len() ==> s[k] != '}';
        assert(a == start);
        assert(b == end - 1);
    }
    let mut r: Vec<char> = Vec::new();
    let mut i = start;
    while i < end
        invariant
            start <= i <= end <= n == v@.len(),
            r@ == v@.subrange(start as int, i as int),
        decreases end - i,
    {
        r.push(v[i]);
        i += 1;
        assert(r@ =~= v@.subrange(start as int, i as int));
    }
    Some(string_of(r.as_slice()))
}

/// Names what `format!("{:?}", s)` gives for a text: the text in double
/// quotes with quotes, backslashes and control characters escaped.
pub uninterp spec fn debug_quoted(s: Seq<char>) -> Seq<char>;

/// `<str as Debug>::fmt` through `format!("{:?}")`; the escaping rules are
/// not restated, the result is named by `debug_quoted`.
#[verifier::external_body]
fn debug_string(s: &str) -> (r: String)
    ensures
        r@ == debug_quoted(s@),
{
    format!("{:?}", s)
}

/// A text with every line break replaced by a space.
pub open spec fn one_line(s: Seq<char>) -> Seq<char> {
    s.map_values(|c: char| if c == '\n' { ' ' } else { c })
}

fn one_line_chars(v: &[char]) -> (r: Vec<char>)
    ensures
        r@ == one_line(v@),
{
    let mut r: Vec<char> = Vec::new();
    let mut i: usize = 0;
    while i < v.len()
        invariant
            0 <= i <= v@.len(),
            r@ == one_line(v@.take(i as int)),
        decreases v@.len() - i,
    {
        if v[i] == '\n' {
            r.push(' ');
        } else {
            r.push(v[i]);
        }
        i += 1;
        assert(r@ =~= one_line(v@.take(i as int)));
    }
    assert(v@.take(v@.len() as int) =~= v@);
    r
}

/// The number of a call as three or more digits.
pub open spec fn call_label(call_number: nat) -> Seq<char> {
    zero_pad(decimal(call_number), 3)
}

/// The log line for a failed model call.
pub open spec fn error_summary(
    call_number: nat,
    user_prompt: Seq<char>,
    llm_dir: Seq<char>,
    error: Seq<char>,
) -> Seq<char> {
    "#"@ + call_label(call_number) + " status=error prompt_chars="@ + decimal(user_prompt.len())
        + " error="@ + debug_quoted(error) + " files="@ + llm_dir + "/"@ + call_label(call_number)
        + "-*"@
}

/// The log line for a failed model call.
pub fn compact_error_summary(
    call_number: usize,
    user_prompt: &str,
    logger: &crate::logging::SessionLogger,
    error: &str,
) -> (r: String)
    ensures
        r@ == error_summary(call_number as nat, user_prompt@, logger.llm_dir@, error@),
{
    let label = zero_padded_decimal(call_number, 3);
    let prompt = chars_of(user_prompt);
    let mut v = chars_of("#");
    append_chars(&mut v, label.as_slice());
    append_chars(&mut v, chars_of(" status=error prompt_chars=").as_slice());
    append_chars(&mut v, decimal_chars(prompt.len()).as_slice());
    append_chars(&mut v, chars_of(" error=").as_slice());
    let quoted = debug_string(error);
    append_chars(&mut v, chars_of(quoted.as_str()).as_slice());
    append_chars(&mut v, chars_of(" files=").as_slice());
    append_chars(&mut v, chars_of(logger.llm_dir.as_str()).as_slice());
    append_chars(&mut v, chars_of("/").as_slice());
    append_chars(&mut v, label.as_slice());
    append_chars(&mut v, chars_of("-*").as_slice());
    string_of(v.as_slice())
}

/// `true` or `false`.
pub open spec fn bool_text(b: bool) -> Seq<char> {
    if b {
        "true"@
    } else {
        "false"@
    }
}

/// The token count as text, `unknown` when the answer did not report it.
pub open spec fn tokens_text(total_tokens: Option<u64>) -> Seq<char> {
    match total_tokens {
        Some(t) => decimal(t as nat),
        None => "unknown"@,
    }
}

/// The log line for a successful model call.
pub open spec fn call_summary(
    call_number: nat,
    user_prompt: Seq<char>,
    content: Seq<char>,
    total_tokens: Option<u64>,
    reply: AgentReply,
    llm_dir: Seq<char>,
) -> Seq<char> {
    "#"@ + call_label(call_number) + " status=ok prompt_chars="@ + decimal(user_prompt.len())
        + " answer_chars="@ + decimal(content.len()) + " tokens="@ + tokens_text(total_tokens)
        + " complete="@ + bool_text(reply.task_status.complete) + " action="@
        + reply.action.action_type@ + " command="@ + debug_quoted(one_line(reply.action.command@))
        + " files="@ + llm_dir + "/"@ + call_label(call_number) + "-*"@
}

/// The log line for a successful model call; `total_tokens` is what the
/// answer reported under `usage.total_tokens`.
pub fn compact_call_summary(
    call_number: usize,
    user_prompt: &str,
    content: &str,
    total_tokens: Option<u64>,
    reply: &AgentReply,
    logger: &crate::logging::SessionLogger,
) -> (r: String)
    ensures
        r@ == call_summary(
            call_number as nat,
            user_prompt@,
            content@,
            total_tokens,
            *reply,
            logger.llm_dir@,
        ),
{
    let label = zero_padded_decimal(call_number, 3);
    let prompt = chars_of(user_prompt);
    let answer = chars_of(content);
    let mut v = chars_of("#");
    append_chars(&mut v, label.as_slice());
    append_chars(&mut v, chars_of(" status=ok prompt_chars=").as_slice());
    append_chars(&mut v, decimal_chars(prompt.len()).as_slice());
    append_chars(&mut v, chars_of(" answer_chars=").as_slice());
    append_chars(&mut v, decimal_chars(answer.len()).as_slice());
    append_chars(&mut v, chars_of(" tokens=").as_slice());
    match total_tokens {
        Some(t) => append_chars(&mut v, decimal_chars_u64(t).as_slice()),
        None => append_chars(&mut v, chars_of("unknown").as_slice()),
    }
    append_chars(&mut v, chars_of(" complete=").as_slice());
    if reply.task_status.complete {
        append_chars(&mut v, chars_of("true").as_slice());
    } else {
        append_chars(&mut v, chars_of("false").as_slice());
    }
    append_chars(&mut v, chars_of(" action=").as_slice());
    append_chars(&mut v, chars_of(reply.action.action_type.as_str()).as_slice());
    append_chars(&mut v, chars_of(" command=").as_slice());
    let command = one_line_chars(chars_of(reply.action.command.as_str()).as_slice());
    let command = string_of(command.as_slice());
    let quoted = debug_string(command.as_str());
    append_chars(&mut v, chars_of(quoted.as_str()).as_slice());
    append_chars(&mut v, chars_of(" files=").as_slice());
    append_chars(&mut v, chars_of(logger.llm_dir.as_str()).as_slice());
    append_chars(&mut v, chars_of("/").as_slice());
    append_chars(&mut v, label.as_slice());
    append_chars(&mut v, chars_of("-*").as_slice());
    string_of(v.as_slice())
}

} // verus!
