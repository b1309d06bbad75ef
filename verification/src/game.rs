//! The game side of a session: which commands may be sent, how the game's
//! raw output is cleaned, when a move needs a `look`, and the transcript.
use crate::text::{
    append_chars, chars_of, contains_char, eq_lit, join, join_chars, lines, lowercase_chars,
    lowercase_of, split_lines, string_of, trim, trim_chars, trim_str,
};
use crate::world::{content_lines, content_lines_of, lit_string};
use vstd::prelude::*;

verus! {

// ---------------------------------------------------------------------------
// Commands
// ---------------------------------------------------------------------------

/// Why a game command was refused.
#[derive(Clone, Copy, Debug, PartialEq, Eq, Structural)]
pub enum CommandError {
    /// Nothing but whitespace.
    Empty,
    /// More than one line.
    MultipleLines,
    /// Several commands joined with `;`.
    Batching,
}

impl CommandError {
    /// The message a refused command is reported with.
    pub fn message(&self) -> (r: String)
        ensures
            r@ == command_error_message(*self),
    {
        match self {
            CommandError::Empty => lit_string("game command cannot be empty"),
            CommandError::MultipleLines => lit_string("only one command line is allowed"),
            CommandError::Batching => lit_string("command batching is not allowed"),
        }
    }
}

pub open spec fn command_error_message(e: CommandError) -> Seq<char> {
    match e {
        CommandError::Empty => "game command cannot be empty"@,
        CommandError::MultipleLines => "only one command line is allowed"@,
        CommandError::Batching => "command batching is not allowed"@,
    }
}

/// The command that may be sent for `command`: trimmed, non-empty, one
/// line, no `;`.
pub open spec fn checked_command(command: Seq<char>) -> Result<Seq<char>, CommandError> {
    let t = trim(command);
    if t.len() == 0 {
        Err(CommandError::Empty)
    } else if t.contains('\n') || t.contains('\r') {
        Err(CommandError::MultipleLines)
    } else if t.contains(';') {
        Err(CommandError::Batching)
    } else {
        Ok(t)
    }
}

/// Checks a command before it is sent to the game: the trimmed command when
/// it is a single non-empty line without `;`.
pub fn validate_game_command(command: &str) -> (r: Result<String, CommandError>)
    ensures
        match r {
            Ok(c) => checked_command(command@) == Ok::<Seq<char>, CommandError>(c@),
            Err(e) => checked_command(command@) == Err::<Seq<char>, CommandError>(e),
        },
{
    let v = chars_of(command);
    let t = trim_chars(v.as_slice());
    if t.len() == 0 {
        return Err(CommandError::Empty);
    }
    if contains_char(t.as_slice(), '\n') || contains_char(t.as_slice(), '\r') {
        return Err(CommandError::MultipleLines);
    }
    if contains_char(t.as_slice(), ';') {
        return Err(CommandError::Batching);
    }
    Ok(string_of(t.as_slice()))
}

/// The words and abbreviations the game moves the player with.
pub open spec fn is_movement_word(t: Seq<char>) -> bool {
    ||| t == "n"@
    ||| t == "s"@
    ||| t == "e"@
    ||| t == "w"@
    ||| t == "ne"@
    ||| t == "nw"@
    ||| t == "se"@
    ||| t == "sw"@
    ||| t == "u"@
    ||| t == "d"@
    ||| t == "in"@
    ||| t == "out"@
    ||| t == "north"@
    ||| t == "south"@
    ||| t == "east"@
    ||| t == "west"@
    ||| t == "northeast"@
    ||| t == "northwest"@
    ||| t == "southeast"@
    ||| t == "southwest"@
    ||| t == "up"@
    ||| t == "down"@
}

/// Whether a command, trimmed and lower-cased, is a movement.
pub open spec fn is_movement(command: Seq<char>) -> bool {
    is_movement_word(lowercase_of(trim(command)))
}

/// Whether a command, trimmed and lower-cased, is a movement.
pub fn is_movement_command(command: &str) -> (r: bool)
    ensures
        r == is_movement(command@),
{
    let v = chars_of(command);
    let t = trim_chars(v.as_slice());
    let l = lowercase_chars(t.as_slice());
    let w = l.as_slice();
    eq_lit(w, "n") || eq_lit(w, "s") || eq_lit(w, "e") || eq_lit(w, "w") || eq_lit(w, "ne")
        || eq_lit(w, "nw") || eq_lit(w, "se") || eq_lit(w, "sw") || eq_lit(w, "u") || eq_lit(
        w,
        "d",
    ) || eq_lit(w, "in") || eq_lit(w, "out") || eq_lit(w, "north") || eq_lit(w, "south")
        || eq_lit(w, "east") || eq_lit(w, "west") || eq_lit(w, "northeast") || eq_lit(
        w,
        "northwest",
    ) || eq_lit(w, "southeast") || eq_lit(w, "southwest") || eq_lit(w, "up") || eq_lit(
        w,
        "down",
    )
}

/// Whether the answer to a command needs a `look` to show where the player
/// is: only after a movement, when the answer is empty or a single line that
/// does not end a sentence.
pub open spec fn describe_after_move(observation: Seq<char>, command: Seq<char>) -> bool {
    if !is_movement(command) {
        false
    } else if trim(observation).len() == 0 {
        true
    } else {
        let ls = content_lines(lines(observation));
        if ls.len() == 0 {
            true
        } else if ls.len() > 1 {
            false
        } else {
            let l = ls[0];
            !(l.last() == '.' || l.last() == '!' || l.last() == '?')
        }
    }
}

/// Whether the answer to a command needs a `look` to show where the player is.
pub fn should_describe_after_move(observation: &str, command: &str) -> (r: bool)
    ensures
        r == describe_after_move(observation@, command@),
{
    if !is_movement_command(command) {
        return false;
    }
    let v = chars_of(observation);
    let t = trim_chars(v.as_slice());
    if t.len() == 0 {
        return true;
    }
    let ls = content_lines_of(v.as_slice());
    let ghost lv = ls@.map_values(|w: Vec<char>| w@);
    if ls.len() == 0 {
        return true;
    }
    if ls.len() > 1 {
        return false;
    }
    assert(lv[0] == ls@[0]@);
    proof {
        crate::world::lemma_content_lines_nonempty(lines(observation@));
    }
    let line = &ls[0];
    let c = line[line.len() - 1];
    !(c == '.' || c == '!' || c == '?')
}

// ---------------------------------------------------------------------------
// Cleaning the game's output
// ---------------------------------------------------------------------------

#[verifier::external_type_specification]
#[verifier::external_body]
pub struct ExRegex(regex::Regex);

#[verifier::external_type_specification]
#[verifier::external_body]
pub struct ExRegexError(regex::Error);

/// Names whether `regex::Regex::new` accepts a pattern.
pub uninterp spec fn regex_compiles(pattern: Seq<char>) -> bool;

/// Names what `regex::Regex::replace_all` gives for a pattern, a text and a
/// replacement.
pub uninterp spec fn regex_replace_all_result(
    pattern: Seq<char>,
    text: Seq<char>,
    replacement: Seq<char>,
) -> Seq<char>;

/// A compiled regular expression with the pattern it was compiled from.
pub struct CompiledPattern {
    pattern: String,
    regex: regex::Regex,
}

impl CompiledPattern {
    pub closed spec fn pattern_view(&self) -> Seq<char> {
        self.pattern@
    }
}

/// `regex::Regex::new`: compiles a pattern, which succeeds exactly for the
/// patterns `regex_compiles` names (a valid pattern within the default size
/// limit).
#[verifier::external_body]
fn compile_pattern(pattern: &str) -> (r: Result<CompiledPattern, regex::Error>)
    ensures
        r is Ok <==> regex_compiles(pattern@),
        r matches Ok(p) ==> p.pattern_view() == pattern@,
{
    match regex::Regex::new(pattern) {
        Ok(regex) => Ok(CompiledPattern { pattern: pattern.to_owned(), regex }),
        Err(e) => Err(e),
    }
}

/// `regex::Regex::replace_all`: every non-overlapping match of the pattern
/// in `text` replaced; the result is named by `regex_replace_all_result`.
#[verifier::external_body]
fn replace_all_matches(p: &CompiledPattern, text: &str, replacement: &str) -> (r: String)
    ensures
        r@ == regex_replace_all_result(p.pattern_view(), text@, replacement@),
{
    p.regex.replace_all(text, replacement).into_owned()
}

/// The pattern of ANSI escape sequences (`ESC [`, digits and `;`, a letter).
pub open spec fn ansi_pattern() -> Seq<char> {
    seq!['\x1b', '\\', '[', '[', '0', '-', '9', ';', ']', '*', '[', 'A', '-', 'Z', 'a', '-', 'z', ']']
}

fn ansi_pattern_string() -> (r: String)
    ensures
        r@ == ansi_pattern(),
{
    let mut v: Vec<char> = Vec::new();
    v.push('\x1b');
    v.push('\\');
    v.push('[');
    v.push('[');
    v.push('0');
    v.push('-');
    v.push('9');
    v.push(';');
    v.push(']');
    v.push('*');
    v.push('[');
    v.push('A');
    v.push('-');
    v.push('Z');
    v.push('a');
    v.push('-');
    v.push('z');
    v.push(']');
    assert(v@ =~= ansi_pattern());
    string_of(v.as_slice())
}

/// A text with `\r\n` and every other `\r` turned into `\n`.
pub open spec fn unix_newlines(s: Seq<char>) -> Seq<char>
    decreases s.len(),
{
    if s.len() == 0 {
        s
    } else if s[0] == '\r' && s.len() >= 2 && s[1] == '\n' {
        seq!['\n'] + unix_newlines(s.skip(2))
    } else if s[0] == '\r' {
        seq!['\n'] + unix_newlines(s.skip(1))
    } else {
        seq![s[0]] + unix_newlines(s.skip(1))
    }
}

fn unix_newlines_chars(v: &[char]) -> (r: Vec<char>)
    ensures
        r@ == unix_newlines(v@),
{
    let n = v.len();
    let mut r: Vec<char> = Vec::new();
    let mut i: usize = 0;
    assert(v@.skip(0) =~= v@);
    assert(r@ + unix_newlines(v@) =~= unix_newlines(v@));
    while i < n
        invariant
            0 <= i <= n == v@.len(),
            r@ + unix_newlines(v@.skip(i as int)) == unix_newlines(v@),
        decreases n - i,
    {
        let ghost rest = v@.skip(i as int);
        if v[i] == '\r' && i + 1 < n && v[i + 1] == '\n' {
            assert(rest.skip(2) =~= v@.skip(i + 2));
            r.push('\n');
            i += 2;
        } else {
            assert(rest.skip(1) =~= v@.skip(i + 1));
            if v[i] == '\r' {
                r.push('\n');
            } else {
                r.push(v[i]);
            }
            i += 1;
        }
        assert(r@ + unix_newlines(v@.skip(i as int)) =~= unix_newlines(v@));
    }
    assert(v@.skip(n as int) =~= Seq::<char>::empty());
    r
}

/// The lines without trailing blank lines and bare `>` prompts.
pub open spec fn without_trailing_prompts(ls: Seq<Seq<char>>) -> Seq<Seq<char>>
    decreases ls.len(),
{
    if ls.len() > 0 && (trim(ls.last()) == ">"@ || trim(ls.last()).len() == 0) {
        without_trailing_prompts(ls.drop_last())
    } else {
        ls
    }
}

/// The last step of cleaning: trailing blank lines and prompts dropped, the
/// lines joined with `\n`, the whole trimmed.
pub open spec fn finish_clean(text: Seq<char>) -> Seq<char> {
    trim(join(without_trailing_prompts(lines(text)), seq!['\n']))
}

/// The game's raw output made readable: line breaks unified, ANSI escape
/// sequences removed (when the escape pattern compiles), trailing prompts
/// and blank lines dropped, and the text trimmed.
pub open spec fn cleaned_output(raw: Seq<char>) -> Seq<char> {
    let text = unix_newlines(raw);
    if regex_compiles(ansi_pattern()) {
        finish_clean(regex_replace_all_result(ansi_pattern(), text, seq![]))
    } else {
        finish_clean(text)
    }
}

/// The last step of cleaning, applied to the text the ANSI-escape
/// replacement gave: trailing blank lines and prompts dropped, the lines
/// joined with `\n`, the whole trimmed.
pub fn finish_clean_chars(text: &[char]) -> (r: Vec<char>)
    ensures
        r@ == finish_clean(text@),
{
    let mut ls = split_lines(text);
    let ghost all = ls@.map_values(|w: Vec<char>| w@);
    loop
        invariant
            all == lines(text@),
            without_trailing_prompts(ls@.map_values(|w: Vec<char>| w@)) == without_trailing_prompts(
                all,
            ),
        ensures
            ls@.map_values(|w: Vec<char>| w@) == without_trailing_prompts(all),
        decreases ls@.len(),
    {
        let n = ls.len();
        if n == 0 {
            break;
        }
        let t = trim_chars(ls[n - 1].as_slice());
        let ghost lv = ls@.map_values(|w: Vec<char>| w@);
        assert(lv.last() == ls@[n - 1]@);
        if t.len() == 0 || eq_lit(t.as_slice(), ">") {
            ls.pop();
            assert(ls@.map_values(|w: Vec<char>| w@) =~= lv.drop_last());
        } else {
            break;
        }
    }
    let sep = chars_of("\n");
    proof {
        reveal_strlit("\n");
    }
    assert(sep@ =~= seq!['\n']);
    let joined = join_chars(&ls, sep.as_slice());
    trim_chars(joined.as_slice())
}

/// The game's raw output made readable.
pub fn clean_output(raw: &str) -> (r: String)
    ensures
        r@ == cleaned_output(raw@),
{
    let v = chars_of(raw);
    let text = unix_newlines_chars(v.as_slice());
    let pattern = ansi_pattern_string();
    let stripped = match compile_pattern(pattern.as_str()) {
        Ok(ansi) => {
            let s = string_of(text.as_slice());
            let replaced = replace_all_matches(&ansi, s.as_str(), "");
            proof {
                reveal_strlit("");
            }
            assert(""@ =~= Seq::<char>::empty());
            chars_of(replaced.as_str())
        },
        Err(_) => text,
    };
    let r = finish_clean_chars(stripped.as_slice());
    string_of(r.as_slice())
}

// ---------------------------------------------------------------------------
// Observations and the transcript
// ---------------------------------------------------------------------------

/// What the game showed after a command.
#[derive(Clone, Debug)]
pub struct Observation {
    pub text: String,
}

/// Why a command could not be run.
#[derive(Clone, Debug)]
pub enum GameError {
    Runner(crate::runner::RunnerError),
    InvalidCommand(String),
}

impl GameError {
    /// The message the error is reported with.
    pub fn message(&self) -> (r: String)
        ensures
            r@ == game_error_message(*self),
    {
        match self {
            GameError::Runner(err) => {
                let mut v = chars_of("runner error: ");
                let m = err.message();
                let mv = chars_of(m.as_str());
                append_chars(&mut v, mv.as_slice());
                string_of(v.as_slice())
            },
            GameError::InvalidCommand(msg) => {
                let mut v = chars_of("invalid command: ");
                let mv = chars_of(msg.as_str());
                append_chars(&mut v, mv.as_slice());
                string_of(v.as_slice())
            },
        }
    }
}

impl From<crate::runner::RunnerError> for GameError {
    /// A runner error, as the game error it causes.
    fn from(value: crate::runner::RunnerError) -> (r: Self) {
        GameError::Runner(value)
    }
}

impl vstd::std_specs::convert::FromSpecImpl<crate::runner::RunnerError> for GameError {
    open spec fn obeys_from_spec() -> bool {
        true
    }

    open spec fn from_spec(v: crate::runner::RunnerError) -> GameError {
        GameError::Runner(v)
    }
}

pub open spec fn game_error_message(e: GameError) -> Seq<char> {
    match e {
        GameError::Runner(err) => "runner error: "@ + crate::runner::runner_error_message(err),
        GameError::InvalidCommand(msg) => "invalid command: "@ + msg@,
    }
}

/// The commands sent and what the game answered, in order.
#[derive(Clone, Debug)]
pub struct Transcript {
    pub turns: Vec<(String, String)>,
}

impl View for Transcript {
    type V = Seq<(Seq<char>, Seq<char>)>;

    open spec fn view(&self) -> Seq<(Seq<char>, Seq<char>)> {
        self.turns@.map_values(|t: (String, String)| (t.0@, t.1@))
    }
}

impl Default for Transcript {
    fn default() -> (r: Self)
        ensures
            r@ == Seq::<(Seq<char>, Seq<char>)>::empty(),
    {
        let r = Transcript { turns: Vec::new() };
        assert(r@ =~= Seq::<(Seq<char>, Seq<char>)>::empty());
        r
    }
}

/// The transcript as text: each turn as `> command`, the answer, and a blank line.
pub open spec fn render_turns(turns: Seq<(Seq<char>, Seq<char>)>) -> Seq<char>
    decreases turns.len(),
{
    if turns.len() == 0 {
        seq![]
    } else {
        render_turns(turns.drop_last()) + "> "@ + turns.last().0 + seq!['\n'] + turns.last().1
            + seq!['\n', '\n']
    }
}

impl Transcript {
    /// Records a command and the game's answer.
    pub fn add_turn(&mut self, command: String, output: String)
        ensures
            final(self)@ == old(self)@.push((command@, output@)),
    {
        let ghost before = self@;
        self.turns.push((command, output));
        assert(self@ =~= before.push((command@, output@)));
    }

    /// The transcript as text.
    pub fn render(&self) -> (r: String)
        ensures
            r@ == render_turns(self@),
    {
        let ghost tv = self@;
        let mut body: Vec<char> = Vec::new();
        let mut i: usize = 0;
        assert(tv.take(0) =~= Seq::<(Seq<char>, Seq<char>)>::empty());
        while i < self.turns.len()
            invariant
                0 <= i <= self.turns@.len(),
                tv == self@,
                body@ == render_turns(tv.take(i as int)),
            decreases self.turns@.len() - i,
        {
            assert(tv.take(i + 1).drop_last() =~= tv.take(i as int));
            assert(tv.take(i + 1).last() == (self.turns@[i as int].0@, self.turns@[i as int].1@));
            let prompt = chars_of("> ");
            proof {
                reveal_strlit("> ");
            }
            let cmd = chars_of(self.turns[i].0.as_str());
            let out = chars_of(self.turns[i].1.as_str());
            let ghost before = body@;
            append_chars(&mut body, prompt.as_slice());
            append_chars(&mut body, cmd.as_slice());
            body.push('\n');
            append_chars(&mut body, out.as_slice());
            body.push('\n');
            body.push('\n');
            assert(body@ =~= before + "> "@ + cmd@ + seq!['\n'] + out@ + seq!['\n', '\n']);
            i += 1;
        }
        assert(tv.take(self.turns@.len() as int) =~= tv);
        string_of(body.as_slice())
    }
}

} // verus!
