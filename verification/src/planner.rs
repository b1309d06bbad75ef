//! The depth-first exploration planner: a frontier of untried movement
//! commands per location, the record of blocked moves, and the choice of the
//! next command plan.
use crate::table::{count_bumped, first_index, has_key, lookup, table_insert, KeyedTable};
use crate::text::{
    append_chars, chars_eq, chars_of, chars_starts_with, contains, contains_lit, decimal, decimal_chars, digest_hex,
    digest_hex_chars, eq_lit, join, join_chars, lowercase_chars, lowercase_of, opt_view,
    slice_chars, split_words, starts_with, starts_with_lit, string_of, trim, trim_chars,
    trim_str, words,
};
use crate::world::{
    canon, command_result_in_bounds, observe, observe_in_bounds, opt_str, with_command_result,
    command_words, direction_alias, direction_from_alias, lit_string,
    location_key_from_snapshot, location_snapshot_from_observation, snapshot, strings_contain,
    without_go,
    Exit, ExitView, LocationView, WorldModel, WorldView,
};
use vstd::prelude::*;

verus! {

// ---------------------------------------------------------------------------
// Data
// ---------------------------------------------------------------------------

/// What the planner decided.
#[derive(Clone, Copy, Debug, PartialEq, Eq, Structural)]
pub enum PlannerDecisionKind {
    CommandPlan,
    Complete,
    Blocked,
}

/// Commands to reach a frontier location and try its pending move.
#[derive(Clone, Debug)]
pub struct CommandPlan {
    pub commands: Vec<String>,
    pub route_commands: Vec<String>,
    pub frontier_action_command: String,
    pub start_location_key: String,
    pub frontier_source_location_key: String,
    pub selected_frontier_action_id: String,
    pub reason: String,
}

#[derive(Clone, Debug)]
pub struct PlannerDecision {
    pub kind: PlannerDecisionKind,
    pub plan: Option<CommandPlan>,
    pub reason: String,
}

/// Counters of the planner's work.
#[derive(Clone, Copy, Debug, PartialEq, Eq, Structural)]
pub struct PlannerStats {
    pub turns: usize,
    pub generated_command_plans: usize,
    pub executed_movement_commands: usize,
    pub failed_moves: usize,
}

#[derive(Clone, Copy, Debug, PartialEq, Eq, Structural)]
pub enum FrontierStatus {
    Pending,
    Routing,
    Executing,
    Explored,
    Failed,
    Blocked,
}

/// One movement command to try from one location.
#[derive(Clone, Debug)]
pub struct FrontierAction {
    pub id: String,
    pub source_location_key: String,
    pub command: String,
    pub expected_destination: Option<String>,
    pub status: FrontierStatus,
    pub priority: usize,
    pub reason: String,
    pub discovery_turn: usize,
    pub last_attempted_turn: Option<usize>,
    pub failure_reason: Option<String>,
}

/// A move from a location that the game refused.
#[derive(Clone, Debug)]
pub struct BlockedEdge {
    pub source_location_key: String,
    pub command: String,
    pub turn: u64,
    pub reason: String,
    pub raw_output_hash: String,
}

/// A movement command about to be tried, with what the game showed before it.
#[derive(Clone, Debug)]
pub struct PendingMoveAttempt {
    pub source_location_key: String,
    pub command: String,
    pub previous_observation_signature: String,
    pub frontier_id: Option<String>,
}

/// The exploration planner's state.
#[derive(Clone, Debug)]
pub struct DfsPlanner {
    pub visited_location_keys: Vec<String>,
    pub dfs_stack: Vec<String>,
    pub frontier: Vec<FrontierAction>,
    pub attempted: Vec<(String, String)>,
    /// Refused moves, by source location and then by command.
    pub blocked_edges: KeyedTable<KeyedTable<BlockedEdge>>,
    pub next_frontier_id: usize,
    pub stats: PlannerStats,
}

/// The outcome of an attempted move, to be applied to the planner.
#[derive(Clone, Debug)]
pub struct ObservationUpdate {
    pub attempt: PendingMoveAttempt,
    pub current_location: String,
    pub classification: ObservationClassification,
    pub blocked_reason: Option<String>,
    pub raw_output_hash: String,
}

#[derive(Clone, Copy, Debug, PartialEq, Eq, Structural)]
pub enum ObservationClassification {
    MovedToKnownLocation,
    MovedToNewLocation,
    MovedToSameLocation,
    CommandFailedOrBlocked,
}

/// How the game's answer to a move was read.
#[derive(Clone, Debug)]
pub struct ClassifiedObservation {
    pub classification: ObservationClassification,
    pub blocked_reason: Option<String>,
    pub new_observation_signature: Option<String>,
    pub raw_output_hash: String,
    pub current_location_unchanged: bool,
}

pub struct FrontierActionView {
    pub id: Seq<char>,
    pub source_location_key: Seq<char>,
    pub command: Seq<char>,
    pub expected_destination: Option<Seq<char>>,
    pub status: FrontierStatus,
    pub priority: usize,
    pub reason: Seq<char>,
    pub discovery_turn: usize,
    pub last_attempted_turn: Option<usize>,
    pub failure_reason: Option<Seq<char>>,
}

pub struct BlockedEdgeView {
    pub source_location_key: Seq<char>,
    pub command: Seq<char>,
    pub turn: u64,
    pub reason: Seq<char>,
    pub raw_output_hash: Seq<char>,
}

pub struct AttemptView {
    pub source_location_key: Seq<char>,
    pub command: Seq<char>,
    pub previous_observation_signature: Seq<char>,
    pub frontier_id: Option<Seq<char>>,
}

pub struct PlannerView {
    pub visited_location_keys: Seq<Seq<char>>,
    pub dfs_stack: Seq<Seq<char>>,
    pub frontier: Seq<FrontierActionView>,
    pub attempted: Seq<(Seq<char>, Seq<char>)>,
    pub blocked_edges: Seq<(Seq<char>, Seq<(Seq<char>, BlockedEdgeView)>)>,
    pub next_frontier_id: usize,
    pub stats: PlannerStats,
}

impl View for FrontierAction {
    type V = FrontierActionView;

    open spec fn view(&self) -> FrontierActionView {
        FrontierActionView {
            id: self.id@,
            source_location_key: self.source_location_key@,
            command: self.command@,
            expected_destination: opt_view(self.expected_destination),
            status: self.status,
            priority: self.priority,
            reason: self.reason@,
            discovery_turn: self.discovery_turn,
            last_attempted_turn: self.last_attempted_turn,
            failure_reason: opt_view(self.failure_reason),
        }
    }
}

impl View for BlockedEdge {
    type V = BlockedEdgeView;

    open spec fn view(&self) -> BlockedEdgeView {
        BlockedEdgeView {
            source_location_key: self.source_location_key@,
            command: self.command@,
            turn: self.turn,
            reason: self.reason@,
            raw_output_hash: self.raw_output_hash@,
        }
    }
}

impl View for PendingMoveAttempt {
    type V = AttemptView;

    open spec fn view(&self) -> AttemptView {
        AttemptView {
            source_location_key: self.source_location_key@,
            command: self.command@,
            previous_observation_signature: self.previous_observation_signature@,
            frontier_id: opt_view(self.frontier_id),
        }
    }
}

impl View for DfsPlanner {
    type V = PlannerView;

    open spec fn view(&self) -> PlannerView {
        PlannerView {
            visited_location_keys: self.visited_location_keys.deep_view(),
            dfs_stack: self.dfs_stack.deep_view(),
            frontier: self.frontier@.map_values(|a: FrontierAction| a@),
            attempted: self.attempted@.map_values(|p: (String, String)| (p.0@, p.1@)),
            blocked_edges: self.blocked_edges@,
            next_frontier_id: self.next_frontier_id,
            stats: self.stats,
        }
    }
}


impl View for ObservationUpdate {
    type V = UpdateView;

    open spec fn view(&self) -> UpdateView {
        UpdateView {
            attempt: self.attempt@,
            current_location: self.current_location@,
            classification: self.classification,
            blocked_reason: opt_view(self.blocked_reason),
            raw_output_hash: self.raw_output_hash@,
        }
    }
}

pub struct UpdateView {
    pub attempt: AttemptView,
    pub current_location: Seq<char>,
    pub classification: ObservationClassification,
    pub blocked_reason: Option<Seq<char>>,
    pub raw_output_hash: Seq<char>,
}

pub struct ClassifiedView {
    pub classification: ObservationClassification,
    pub blocked_reason: Option<Seq<char>>,
    pub new_observation_signature: Option<Seq<char>>,
    pub raw_output_hash: Seq<char>,
    pub current_location_unchanged: bool,
}

impl View for ClassifiedObservation {
    type V = ClassifiedView;

    open spec fn view(&self) -> ClassifiedView {
        ClassifiedView {
            classification: self.classification,
            blocked_reason: opt_view(self.blocked_reason),
            new_observation_signature: opt_view(self.new_observation_signature),
            raw_output_hash: self.raw_output_hash@,
            current_location_unchanged: self.current_location_unchanged,
        }
    }
}

// ---------------------------------------------------------------------------
// Text rules
// ---------------------------------------------------------------------------

/// The movement commands every location is explored with, in order.
pub open spec fn canonical_move_names() -> Seq<Seq<char>> {
    seq![
        "north"@,
        "south"@,
        "east"@,
        "west"@,
        "northeast"@,
        "northwest"@,
        "southeast"@,
        "southwest"@,
        "up"@,
        "down"@,
        "in"@,
        "out"@,
    ]
}

/// The movement commands every location is explored with, in order.
pub fn canonical_moves() -> (r: Vec<String>)
    ensures
        r.deep_view() == canonical_move_names(),
{
    let mut r: Vec<String> = Vec::new();
    r.push(lit_string("north"));
    r.push(lit_string("south"));
    r.push(lit_string("east"));
    r.push(lit_string("west"));
    r.push(lit_string("northeast"));
    r.push(lit_string("northwest"));
    r.push(lit_string("southeast"));
    r.push(lit_string("southwest"));
    r.push(lit_string("up"));
    r.push(lit_string("down"));
    r.push(lit_string("in"));
    r.push(lit_string("out"));
    assert(r.deep_view() =~= canonical_move_names());
    r
}

/// The canonical moves a location's exits are known to make (to a known
/// destination); none for an unknown location.
pub open spec fn known_moves(w: WorldView, location: Seq<char>) -> Seq<Seq<char>> {
    match lookup(w.locations, location) {
        Some(l) => route_commands(exit_edges(l.exits)),
        None => seq![],
    }
}

/// The movement a cleaned-up command names: the world's direction words and
/// abbreviations, and `enter building` / `enter cave` for `in`.
pub open spec fn move_alias(t: Seq<char>) -> Option<Seq<char>> {
    if t == "enter building"@ || t == "enter cave"@ {
        Some("in"@)
    } else {
        direction_alias(t)
    }
}

/// The canonical movement command a command stands for, if any: trimmed,
/// lower-cased, without a leading `go `.
pub open spec fn normalize_move(command: Seq<char>) -> Option<Seq<char>> {
    move_alias(without_go(lowercase_of(trim(command))))
}

/// A canonical move normalizes to itself, where lower-casing leaves it as it is.
proof fn lemma_canonical_move_fixed(m: Seq<char>)
    requires
        canonical_move_names().contains(m),
        lowercase_of(m) == m,
    ensures
        normalize_move(m) == Some(m),
{
    reveal_strlit("north");
    reveal_strlit("south");
    reveal_strlit("east");
    reveal_strlit("west");
    reveal_strlit("northeast");
    reveal_strlit("northwest");
    reveal_strlit("southeast");
    reveal_strlit("southwest");
    reveal_strlit("up");
    reveal_strlit("down");
    reveal_strlit("in");
    reveal_strlit("out");
    reveal_strlit("n");
    reveal_strlit("s");
    reveal_strlit("e");
    reveal_strlit("w");
    reveal_strlit("ne");
    reveal_strlit("nw");
    reveal_strlit("se");
    reveal_strlit("sw");
    reveal_strlit("u");
    reveal_strlit("d");
    reveal_strlit("inside");
    reveal_strlit("enter");
    reveal_strlit("outside");
    reveal_strlit("exit");
    reveal_strlit("go ");
    reveal_strlit("enter building");
    reveal_strlit("enter cave");
    let names = canonical_move_names();
    let i = choose|i: int| 0 <= i < names.len() && names[i] == m;
    assert(m.len() > 0 && !crate::text::is_ws(m[0]) && !crate::text::is_ws(m.last()));
    assert(crate::text::trim_start(m) == m);
    assert(crate::text::trim_end(m) == m);
    assert(trim(m) == m);
    assert(!starts_with(m, "go "@)) by {
        if "go "@.len() <= m.len() {
            assert(m.subrange(0, 3)[0] != 'g' || m.subrange(0, 3)[1] != 'o');
        }
    }
    assert(without_go(m) == m);
    assert(m != "enter building"@ && m != "enter cave"@) by {
        assert(m.len() != "enter building"@.len() || m[0] != 'e');
    }
}

/// Normalizing a move twice gives what normalizing it once gives: every
/// normalized move is canonical, and a canonical move normalizes to
/// itself, where lower-casing leaves the canonical moves as they are (as
/// `str::to_lowercase` documents for lower-case ASCII words).
pub proof fn lemma_normalize_move_idempotent(command: Seq<char>)
    requires
        forall|i: int|
            0 <= i < canonical_move_names().len() ==> lowercase_of(#[trigger] canonical_move_names()[i])
                == canonical_move_names()[i],
    ensures
        normalize_move(command) matches Some(m) ==> canonical_move_names().contains(m) && normalize_move(
            m,
        ) == Some(m),
{
    let names = canonical_move_names();
    if let Some(m) = normalize_move(command) {
        assert(names.contains(m)) by {
            if m == "north"@ {
                assert(names[0] == m);
            } else if m == "south"@ {
                assert(names[1] == m);
            } else if m == "east"@ {
                assert(names[2] == m);
            } else if m == "west"@ {
                assert(names[3] == m);
            } else if m == "northeast"@ {
                assert(names[4] == m);
            } else if m == "northwest"@ {
                assert(names[5] == m);
            } else if m == "southeast"@ {
                assert(names[6] == m);
            } else if m == "southwest"@ {
                assert(names[7] == m);
            } else if m == "up"@ {
                assert(names[8] == m);
            } else if m == "down"@ {
                assert(names[9] == m);
            } else if m == "in"@ {
                assert(names[10] == m);
            } else {
                assert(names[11] == m);
            }
        }
        let i = choose|i: int| 0 <= i < names.len() && names[i] == m;
        assert(lowercase_of(names[i]) == names[i]);
        lemma_canonical_move_fixed(m);
    }
}

/// The canonical movement command a command stands for, if any.
pub fn normalize_move_command(command: &str) -> (r: Option<String>)
    ensures
        opt_view(r) == normalize_move(command@),
{
    let t = command_words(command);
    if eq_lit(t.as_slice(), "enter building") || eq_lit(t.as_slice(), "enter cave") {
        Some(lit_string("in"))
    } else {
        direction_from_alias(t.as_slice())
    }
}

/// The planner's name for the world's current location: its trimmed key.
pub fn location_key(world: &WorldModel) -> (r: String)
    ensures
        r@ == trim(world@.current_location),
{
    trim_str(world.current_location.as_str())
}

/// A text with runs of whitespace collapsed to one space, trimmed and
/// lower-cased: the form in which observations are compared.
pub open spec fn signature(text: Seq<char>) -> Seq<char> {
    lowercase_of(trim(join(words(text), seq![' '])))
}

fn signature_chars(text: &[char]) -> (r: Vec<char>)
    ensures
        r@ == signature(text@),
{
    let ws = split_words(text);
    let sep = chars_of(" ");
    proof {
        reveal_strlit(" ");
    }
    assert(sep@ =~= seq![' ']);
    let joined = join_chars(&ws, sep.as_slice());
    let t = trim_chars(joined.as_slice());
    lowercase_chars(t.as_slice())
}

/// A text with runs of whitespace collapsed to one space, trimmed and
/// lower-cased.
pub fn signature_string(text: &str) -> (r: String)
    ensures
        r@ == signature(text@),
{
    let v = chars_of(text);
    let s = signature_chars(v.as_slice());
    string_of(s.as_slice())
}

/// A title and a description as one text, on two lines.
pub open spec fn two_lines(first: Seq<char>, second: Seq<char>) -> Seq<char> {
    first + seq!['\n'] + second
}

fn two_lines_chars(first: &[char], second: &[char]) -> (r: Vec<char>)
    ensures
        r@ == two_lines(first@, second@),
{
    let mut r: Vec<char> = Vec::new();
    append_chars(&mut r, first);
    r.push('\n');
    append_chars(&mut r, second);
    assert(r@ =~= two_lines(first@, second@));
    r
}

/// The signature of an observation: of its location title and description
/// when it shows a location, of the whole text otherwise.
pub open spec fn observation_sig(text: Seq<char>) -> Seq<char> {
    match snapshot(text) {
        Some((title, description)) => signature(two_lines(title, description)),
        None => signature(text),
    }
}

fn observation_signature(text: &str) -> (r: String)
    ensures
        r@ == observation_sig(text@),
{
    match location_snapshot_from_observation(text) {
        Some((title, description)) => {
            let t = chars_of(title.as_str());
            let d = chars_of(description.as_str());
            let both = two_lines_chars(t.as_slice(), d.as_slice());
            let s = signature_chars(both.as_slice());
            string_of(s.as_slice())
        },
        None => {
            let v = chars_of(text);
            let s = signature_chars(v.as_slice());
            string_of(s.as_slice())
        },
    }
}

/// The signature of what the world shows of its current location: its key
/// and recorded description; empty without a current location.
pub open spec fn world_sig(w: WorldView) -> Seq<char> {
    let key = trim(w.current_location);
    if key.len() == 0 {
        seq![]
    } else {
        let description = match lookup(w.locations, key) {
            Some(l) => l.description,
            None => seq![],
        };
        signature(two_lines(key, description))
    }
}

/// The signature of what the world shows of its current location.
pub fn world_observation_signature(world: &WorldModel) -> (r: String)
    ensures
        r@ == world_sig(world@),
{
    let key = location_key(world);
    if key.as_str().is_empty() {
        return String::new();
    }
    let k = chars_of(key.as_str());
    let description = match world.locations.get(key.as_str()) {
        Some(l) => chars_of(l.description.as_str()),
        None => Vec::new(),
    };
    let both = two_lines_chars(k.as_slice(), description.as_slice());
    let s = signature_chars(both.as_slice());
    string_of(s.as_slice())
}

pub open spec fn is_end_punct(c: char) -> bool {
    c == '.' || c == '!' || c == '?'
}

pub open spec fn trim_start_punct(s: Seq<char>) -> Seq<char>
    decreases s.len(),
{
    if s.len() > 0 && is_end_punct(s[0]) {
        trim_start_punct(s.drop_first())
    } else {
        s
    }
}

pub open spec fn trim_end_punct(s: Seq<char>) -> Seq<char>
    decreases s.len(),
{
    if s.len() > 0 && is_end_punct(s.last()) {
        trim_end_punct(s.drop_last())
    } else {
        s
    }
}

/// `s` without `.`, `!` and `?` at either end.
pub open spec fn trim_punct(s: Seq<char>) -> Seq<char> {
    trim_end_punct(trim_start_punct(s))
}

proof fn lemma_trim_start_punct_skip(s: Seq<char>, i: int)
    requires
        0 <= i <= s.len(),
        forall|k: int| 0 <= k < i ==> is_end_punct(#[trigger] s[k]),
    ensures
        trim_start_punct(s) == trim_start_punct(s.subrange(i, s.len() as int)),
    decreases i,
{
    if i > 0 {
        assert(s.drop_first().subrange(i - 1, s.drop_first().len() as int) =~= s.subrange(
            i,
            s.len() as int,
        ));
        lemma_trim_start_punct_skip(s.drop_first(), i - 1);
    } else {
        assert(s.subrange(0, s.len() as int) =~= s);
    }
}

proof fn lemma_trim_end_punct_cut(s: Seq<char>, j: int)
    requires
        0 <= j <= s.len(),
        forall|k: int| j <= k < s.len() ==> is_end_punct(#[trigger] s[k]),
    ensures
        trim_end_punct(s) == trim_end_punct(s.subrange(0, j)),
    decreases s.len() - j,
{
    if j < s.len() {
        assert(s.drop_last().subrange(0, j) =~= s.subrange(0, j));
        lemma_trim_end_punct_cut(s.drop_last(), j);
    } else {
        assert(s.subrange(0, j) =~= s);
    }
}

fn char_is_end_punct(c: char) -> (b: bool)
    ensures
        b == is_end_punct(c),
{
    c == '.' || c == '!' || c == '?'
}

fn trim_punct_chars(v: &[char]) -> (r: Vec<char>)
    ensures
        r@ == trim_punct(v@),
{
    let n = v.len();
    let mut i: usize = 0;
    while i < n && char_is_end_punct(v[i])
        invariant
            0 <= i <= n == v@.len(),
            forall|k: int| 0 <= k < i ==> is_end_punct(#[trigger] v@[k]),
        decreases n - i,
    {
        i += 1;
    }
    proof {
        lemma_trim_start_punct_skip(v@, i as int);
    }
    let mut j: usize = n;
    while j > i && char_is_end_punct(v[j - 1])
        invariant
            0 <= i <= j <= n == v@.len(),
            forall|k: int| j <= k < n ==> is_end_punct(#[trigger] v@[k]),
        decreases j,
    {
        j -= 1;
    }
    let ghost rest = v@.subrange(i as int, n as int);
    proof {
        assert(trim_start_punct(rest) == rest);
        assert forall|k: int| (j - i) <= k < rest.len() implies is_end_punct(#[trigger] rest[k]) by {
            assert(rest[k] == v@[k + i]);
        }
        lemma_trim_end_punct_cut(rest, j - i);
        assert(rest.subrange(0, j - i) =~= v@.subrange(i as int, j as int));
    }
    slice_chars(v, i, j)
}

/// The number of bytes of a text in UTF-8.
pub open spec fn utf8_len(s: Seq<char>) -> nat {
    vstd::utf8::encode_utf8(s).len()
}

/// Whether a short answer opens like one of the game's refusals.
pub open spec fn refusal_opening(n: Seq<char>) -> bool {
    ||| starts_with(n, "there is no way"@)
    ||| starts_with(n, "you are unable to"@)
    ||| starts_with(n, "you can't"@)
    ||| starts_with(n, "but you aren't in anything"@)
    ||| starts_with(n, "the pipes are too small"@)
    ||| starts_with(n, "you don't fit through"@)
}

/// Why an answer shows that a move did not happen, if it does: an empty
/// answer; one of the game's refusals, whole or (within 96 bytes) by its
/// opening; or (within 160 bytes) a hint at the only exit. The answer is read
/// by its signature without `.`, `!` and `?` at either end.
pub open spec fn blocked_reason_of(text: Seq<char>) -> Option<Seq<char>> {
    let n = trim_punct(signature(text));
    if n.len() == 0 {
        Some("empty_response"@)
    } else if n == "you can't go that way"@ || n == "you can't go in that direction"@ || n
        == "nothing happens"@ {
        Some("explicit_blocked_response"@)
    } else if utf8_len(n) <= 96 && refusal_opening(n) {
        Some("explicit_blocked_response"@)
    } else if utf8_len(n) <= 160 && contains(n, "the only exit is to"@) {
        Some("only_exit_response"@)
    } else {
        None
    }
}

fn explicit_blocked_reason(text: &str) -> (r: Option<String>)
    ensures
        opt_view(r) == blocked_reason_of(text@),
{
    let v = chars_of(text);
    let sig = signature_chars(v.as_slice());
    let n = trim_punct_chars(sig.as_slice());
    let ns = string_of(n.as_slice());
    let t = n.as_slice();
    if n.len() == 0 {
        return Some(lit_string("empty_response"));
    }
    if eq_lit(t, "you can't go that way") || eq_lit(t, "you can't go in that direction")
        || eq_lit(t, "nothing happens") {
        return Some(lit_string("explicit_blocked_response"));
    }
    let nstr = ns.as_str();
    let bytes = nstr.as_bytes().len();
    assert(nstr@ == n@);
    assert(bytes == utf8_len(n@));
    let opening = starts_with_lit(t, "there is no way") || starts_with_lit(t, "you are unable to")
        || starts_with_lit(t, "you can't") || starts_with_lit(t, "but you aren't in anything")
        || starts_with_lit(t, "the pipes are too small") || starts_with_lit(
        t,
        "you don't fit through",
    );
    if bytes <= 96 && opening {
        return Some(lit_string("explicit_blocked_response"));
    }
    if bytes <= 160 && contains_lit(t, "the only exit is to") {
        return Some(lit_string("only_exit_response"));
    }
    None
}

/// The digest that identifies a raw game answer.
fn raw_output_hash(text: &str) -> (r: String)
    ensures
        r@ == digest_hex(text@),
{
    let h = digest_hex_chars(text);
    string_of(h.as_slice())
}


// ---------------------------------------------------------------------------
// Frontier generation
// ---------------------------------------------------------------------------

/// Whether the frontier holds an action for `command` from `location`.
pub open spec fn frontier_has(
    f: Seq<FrontierActionView>,
    location: Seq<char>,
    command: Seq<char>,
) -> bool {
    exists|i: int|
        #![trigger f[i]]
        0 <= i < f.len() && f[i].source_location_key == location && f[i].command == command
}

/// Whether a refusal of `command` from `location` is recorded.
pub open spec fn blocked_has(
    b: Seq<(Seq<char>, Seq<(Seq<char>, BlockedEdgeView)>)>,
    location: Seq<char>,
    command: Seq<char>,
) -> bool {
    match lookup(b, location) {
        Some(t) => has_key(t, command),
        None => false,
    }
}

/// The identifier of the frontier action with number `n`.
pub open spec fn frontier_id(n: nat) -> Seq<char> {
    "frontier-"@ + decimal(n)
}

/// A new pending action with number `n`, found on turn `turn`.
pub open spec fn new_action(
    n: usize,
    location: Seq<char>,
    command: Seq<char>,
    turn: usize,
) -> FrontierActionView {
    FrontierActionView {
        id: frontier_id(n as nat),
        source_location_key: location,
        command: command,
        expected_destination: None,
        status: FrontierStatus::Pending,
        priority: (n + 1) as usize,
        reason: "canonical movement frontier"@,
        discovery_turn: turn,
        last_attempted_turn: None,
        failure_reason: None,
    }
}

/// The planner after offering `command` from `location` as a frontier
/// action: unless the frontier already holds it, it was attempted, it is
/// recorded as refused, or it is among the `known` moves (those whose
/// destination the world already records).
pub open spec fn add_move(p: PlannerView, location: Seq<char>, command: Seq<char>, known: Seq<Seq<char>>) -> PlannerView {
    if frontier_has(p.frontier, location, command) || p.attempted.contains((location, command))
        || blocked_has(p.blocked_edges, location, command) || known.contains(command) {
        p
    } else {
        PlannerView {
            frontier: p.frontier.push(
                new_action(p.next_frontier_id, location, command, p.stats.turns),
            ),
            next_frontier_id: (p.next_frontier_id + 1) as usize,
            ..p
        }
    }
}

/// The planner after offering each of `moves` from `location`, in order.
pub open spec fn add_moves(p: PlannerView, location: Seq<char>, moves: Seq<Seq<char>>, known: Seq<Seq<char>>) -> PlannerView
    decreases moves.len(),
{
    if moves.len() == 0 {
        p
    } else {
        add_move(add_moves(p, location, moves.drop_last(), known), location, moves.last(), known)
    }
}

/// The planner after looking at the world: its current location, once
/// known, is visited (and stacked the first time) and offers every canonical
/// move.
pub open spec fn observe_world_view(p: PlannerView, w: WorldView) -> PlannerView {
    let current = trim(w.current_location);
    if current.len() == 0 {
        p
    } else {
        let p1 = if p.visited_location_keys.contains(current) {
            p
        } else {
            PlannerView {
                visited_location_keys: p.visited_location_keys.push(current),
                dfs_stack: p.dfs_stack.push(current),
                ..p
            }
        };
        add_moves(p1, current, canonical_move_names(), known_moves(w, current))
    }
}

/// Room for the frontier numbers one look at the world can hand out.
pub open spec fn ids_in_bounds(p: PlannerView) -> bool {
    p.next_frontier_id + canonical_move_names().len() <= usize::MAX
}

proof fn lemma_add_moves_bounds(p: PlannerView, location: Seq<char>, moves: Seq<Seq<char>>, known: Seq<Seq<char>>)
    requires
        p.next_frontier_id + moves.len() <= usize::MAX,
    ensures
        p.next_frontier_id <= add_moves(p, location, moves, known).next_frontier_id <= p.next_frontier_id
            + moves.len(),
    decreases moves.len(),
{
    if moves.len() > 0 {
        lemma_add_moves_bounds(p, location, moves.drop_last(), known);
    }
}

proof fn lemma_add_moves_keeps(p: PlannerView, location: Seq<char>, moves: Seq<Seq<char>>, known: Seq<Seq<char>>)
    ensures
        add_moves(p, location, moves, known).stats == p.stats,
        add_moves(p, location, moves, known).attempted == p.attempted,
        add_moves(p, location, moves, known).blocked_edges == p.blocked_edges,
        add_moves(p, location, moves, known).visited_location_keys == p.visited_location_keys,
        add_moves(p, location, moves, known).dfs_stack == p.dfs_stack,
    decreases moves.len(),
{
    if moves.len() > 0 {
        lemma_add_moves_keeps(p, location, moves.drop_last(), known);
    }
}

/// Looking at the world touches nothing but the visited locations, the
/// stack and the frontier.
pub proof fn lemma_observe_keeps(p: PlannerView, w: WorldView)
    ensures
        observe_world_view(p, w).stats == p.stats,
        observe_world_view(p, w).attempted == p.attempted,
        observe_world_view(p, w).blocked_edges == p.blocked_edges,
{
    let current = trim(w.current_location);
    if current.len() > 0 {
        let p1 = if p.visited_location_keys.contains(current) {
            p
        } else {
            PlannerView {
                visited_location_keys: p.visited_location_keys.push(current),
                dfs_stack: p.dfs_stack.push(current),
                ..p
            }
        };
        lemma_add_moves_keeps(p1, current, canonical_move_names(), known_moves(w, current));
    }
}

fn frontier_id_string(n: usize) -> (r: String)
    ensures
        r@ == frontier_id(n as nat),
{
    let mut v = chars_of("frontier-");
    let d = decimal_chars(n);
    append_chars(&mut v, d.as_slice());
    string_of(v.as_slice())
}

impl DfsPlanner {
    fn frontier_has_action(&self, location: &String, command: &String) -> (b: bool)
        ensures
            b == frontier_has(self@.frontier, location@, command@),
    {
        let mut i: usize = 0;
        while i < self.frontier.len()
            invariant
                0 <= i <= self.frontier@.len(),
                forall|k: int|
                    0 <= k < i ==> !(#[trigger] self@.frontier[k].source_location_key == location@
                        && self@.frontier[k].command == command@),
            decreases self.frontier@.len() - i,
        {
            let a = &self.frontier[i];
            assert(self@.frontier[i as int] == a@);
            if a.source_location_key == *location && a.command == *command {
                return true;
            }
            i += 1;
        }
        false
    }

    fn was_attempted(&self, location: &String, command: &String) -> (b: bool)
        ensures
            b == self@.attempted.contains((location@, command@)),
    {
        let mut i: usize = 0;
        while i < self.attempted.len()
            invariant
                0 <= i <= self.attempted@.len(),
                forall|k: int| 0 <= k < i ==> #[trigger] self@.attempted[k] != (location@, command@),
            decreases self.attempted@.len() - i,
        {
            let pair = &self.attempted[i];
            assert(self@.attempted[i as int] == (pair.0@, pair.1@));
            if pair.0 == *location && pair.1 == *command {
                return true;
            }
            i += 1;
        }
        false
    }

    fn is_blocked(&self, location: &String, command: &String) -> (b: bool)
        ensures
            b == blocked_has(self@.blocked_edges, location@, command@),
    {
        match self.blocked_edges.get(location.as_str()) {
            Some(t) => t.contains_key(command.as_str()),
            None => false,
        }
    }

    fn add_default_frontier(&mut self, location: &String, known: &Vec<String>)
        requires
            ids_in_bounds(old(self)@),
        ensures
            final(self)@ == add_moves(old(self)@, location@, canonical_move_names(), known.deep_view()),
    {
        let moves = canonical_moves();
        let ghost ms = moves.deep_view();
        let ghost start = self@;
        let mut i: usize = 0;
        assert(ms.take(0) =~= Seq::<Seq<char>>::empty());
        while i < moves.len()
            invariant
                0 <= i <= moves@.len(),
                ms == moves.deep_view(),
                ms == canonical_move_names(),
                self@ == add_moves(start, location@, ms.take(i as int), known.deep_view()),
                start.next_frontier_id + ms.len() <= usize::MAX,
            decreases moves@.len() - i,
        {
            assert(ms.take(i + 1).drop_last() =~= ms.take(i as int));
            proof {
                lemma_add_moves_bounds(start, location@, ms.take(i as int), known.deep_view());
            }
            let command = &moves[i];
            assert(ms[i as int] == command@);
            assert(ms.take(i + 1).last() == command@);
            if !self.frontier_has_action(location, command) && !self.was_attempted(
                location,
                command,
            ) && !self.is_blocked(location, command) && !strings_contain(known, command) {
                let ghost before = self@;
                let n = self.next_frontier_id;
                let id = frontier_id_string(n);
                self.next_frontier_id = n + 1;
                let action = FrontierAction {
                    id,
                    source_location_key: location.clone(),
                    command: command.clone(),
                    expected_destination: None,
                    status: FrontierStatus::Pending,
                    priority: self.next_frontier_id,
                    reason: lit_string("canonical movement frontier"),
                    discovery_turn: self.stats.turns,
                    last_attempted_turn: None,
                    failure_reason: None,
                };
                assert(action@ == new_action(n, location@, command@, before.stats.turns));
                self.frontier.push(action);
                assert(self@.frontier =~= before.frontier.push(action@));
                assert(self@ == add_move(before, location@, command@, known.deep_view()));
            }
            i += 1;
        }
        assert(ms.take(ms.len() as int) =~= ms);
    }

    fn has_visited(&self, location: &String) -> (b: bool)
        ensures
            b == self@.visited_location_keys.contains(location@),
    {
        strings_contain(&self.visited_location_keys, location)
    }

    /// Looks at the world: a known current location is marked visited
    /// (and pushed on the stack the first time) and offers its canonical
    /// moves as frontier actions.
    pub fn observe_world(&mut self, world: &WorldModel)
        requires
            ids_in_bounds(old(self)@),
        ensures
            final(self)@ == observe_world_view(old(self)@, world@),
    {
        let current = location_key(world);
        if current.as_str().is_empty() {
            return;
        }
        if !self.has_visited(&current) {
            let ghost before = self@;
            self.visited_location_keys.push(current.clone());
            self.dfs_stack.push(current.clone());
            assert(self@.visited_location_keys =~= before.visited_location_keys.push(current@));
            assert(self@.dfs_stack =~= before.dfs_stack.push(current@));
        }
        let known = known_moves_of(world, &current);
        self.add_default_frontier(&current, &known);
    }
}

/// The canonical moves the world knows from `location` to a known destination.
fn known_moves_of(world: &WorldModel, location: &String) -> (r: Vec<String>)
    ensures
        r.deep_view() == known_moves(world@, location@),
{
    let mut r: Vec<String> = Vec::new();
    match world.locations.get(location.as_str()) {
        Some(l) => {
            let moves = exit_moves(&l.exits);
            let ghost es = exit_edges(l@.exits);
            assert(l@.exits == l.exits@.map_values(|e: Exit| e@));
            let mut i: usize = 0;
            while i < moves.len()
                invariant
                    0 <= i <= moves@.len(),
                    es == exit_edges(l@.exits),
                    moves@.map_values(|x: (String, String)| (x.0@, x.1@)) == es,
                    r.deep_view() == route_commands(es).take(i as int),
                decreases moves@.len() - i,
            {
                let ghost before = r.deep_view();
                assert(es[i as int] == (moves@[i as int].0@, moves@[i as int].1@));
                r.push(moves[i].1.clone());
                assert(r.deep_view() =~= before.push(moves@[i as int].1@));
                assert(route_commands(es).take(i + 1) =~= route_commands(es).take(i as int).push(
                    es[i as int].1,
                ));
                i += 1;
            }
            assert(route_commands(es).take(moves@.len() as int) =~= route_commands(es));
        },
        None => {
            assert(r.deep_view() =~= Seq::<Seq<char>>::empty());
        },
    }
    r
}


// ---------------------------------------------------------------------------
// Reading the game's answer to a move
// ---------------------------------------------------------------------------

/// Whether a visited key stands for a location whose base key is `base`:
/// the base key itself, a variant of it with a digest (`#`), or one
/// distinguished by description words (`. `).
pub open spec fn key_matches(key: Seq<char>, base: Seq<char>) -> bool {
    key == base || starts_with(key, base + seq!['#']) || starts_with(key, base + seq!['.', ' '])
}

/// The keys that match `base`, in order.
pub open spec fn matching_keys(keys: Seq<Seq<char>>, base: Seq<char>) -> Seq<Seq<char>>
    decreases keys.len(),
{
    if keys.len() == 0 {
        seq![]
    } else {
        let rest = matching_keys(keys.drop_last(), base);
        if key_matches(keys.last(), base) {
            rest.push(keys.last())
        } else {
            rest
        }
    }
}

/// The visited key an observed title stands for: the only visited key that
/// matches the trimmed title, or else the trimmed title itself.
pub open spec fn snapshot_key(keys: Seq<Seq<char>>, title: Seq<char>) -> Seq<char> {
    let base = trim(title);
    let m = matching_keys(keys, base);
    if m.len() == 1 {
        m[0]
    } else {
        base
    }
}

fn snapshot_key_of(keys: &Vec<String>, title: &str, description: &str) -> (r: String)
    ensures
        r@ == snapshot_key(keys.deep_view(), title@),
{
    let base = location_key_from_snapshot(title, description);
    let b = chars_of(base.as_str());
    let mut hash_prefix = chars_of(base.as_str());
    hash_prefix.push('#');
    let mut title_prefix = chars_of(base.as_str());
    title_prefix.push('.');
    title_prefix.push(' ');
    assert(hash_prefix@ =~= b@ + seq!['#']);
    assert(title_prefix@ =~= b@ + seq!['.', ' ']);
    let ghost kv = keys.deep_view();
    let mut count: usize = 0;
    let mut first: usize = 0;
    let mut i: usize = 0;
    assert(kv.take(0) =~= Seq::<Seq<char>>::empty());
    while i < keys.len()
        invariant
            0 <= i <= keys@.len(),
            kv == keys.deep_view(),
            b@ == trim(title@),
            hash_prefix@ == b@ + seq!['#'],
            title_prefix@ == b@ + seq!['.', ' '],
            count <= i,
            count == matching_keys(kv.take(i as int), b@).len(),
            count >= 1 ==> first < keys@.len() && kv[first as int] == matching_keys(
                kv.take(i as int),
                b@,
            )[0],
        decreases keys@.len() - i,
    {
        assert(kv.take(i + 1).drop_last() =~= kv.take(i as int));
        assert(kv.take(i + 1).last() == keys@[i as int]@);
        let k = chars_of(keys[i].as_str());
        let m = chars_eq(k.as_slice(), b.as_slice()) || chars_starts_with(
            k.as_slice(),
            hash_prefix.as_slice(),
        ) || chars_starts_with(k.as_slice(), title_prefix.as_slice());
        if m {
            if count == 0 {
                first = i;
            }
            count += 1;
        }
        i += 1;
    }
    assert(kv.take(keys@.len() as int) =~= kv);
    if count == 1 {
        keys[first].clone()
    } else {
        base
    }
}

/// How an answer to a move is read: a failed command, a refusal, the same
/// place again (by signature, or by its title standing for the source), a
/// visited location, or a new one.
pub open spec fn classify_view(
    p: PlannerView,
    a: AttemptView,
    raw: Seq<char>,
    command_failed: bool,
) -> ClassifiedView {
    let hash = digest_hex(raw);
    if command_failed {
        ClassifiedView {
            classification: ObservationClassification::CommandFailedOrBlocked,
            blocked_reason: Some("command_execution_failed"@),
            new_observation_signature: None,
            raw_output_hash: hash,
            current_location_unchanged: true,
        }
    } else {
        match blocked_reason_of(raw) {
            Some(reason) => ClassifiedView {
                classification: ObservationClassification::CommandFailedOrBlocked,
                blocked_reason: Some(reason),
                new_observation_signature: Some(observation_sig(raw)),
                raw_output_hash: hash,
                current_location_unchanged: true,
            },
            None => {
                let sig = observation_sig(raw);
                let observed = match snapshot(raw) {
                    Some((title, description)) => snapshot_key(p.visited_location_keys, title),
                    None => seq![],
                };
                if (a.previous_observation_signature.len() > 0 && sig
                    == a.previous_observation_signature) || observed == a.source_location_key {
                    ClassifiedView {
                        classification: ObservationClassification::MovedToSameLocation,
                        blocked_reason: None,
                        new_observation_signature: Some(sig),
                        raw_output_hash: hash,
                        current_location_unchanged: true,
                    }
                } else {
                    ClassifiedView {
                        classification: if p.visited_location_keys.contains(observed) {
                            ObservationClassification::MovedToKnownLocation
                        } else {
                            ObservationClassification::MovedToNewLocation
                        },
                        blocked_reason: None,
                        new_observation_signature: Some(sig),
                        raw_output_hash: hash,
                        current_location_unchanged: false,
                    }
                }
            },
        }
    }
}

/// A frontier action with this identifier.
pub open spec fn has_id(id: Seq<char>) -> spec_fn(FrontierActionView) -> bool {
    |a: FrontierActionView| a.id == id
}

/// The pairs with `x` added unless already there.
pub open spec fn pair_set_insert(
    s: Seq<(Seq<char>, Seq<char>)>,
    x: (Seq<char>, Seq<char>),
) -> Seq<(Seq<char>, Seq<char>)> {
    if s.contains(x) {
        s
    } else {
        s.push(x)
    }
}

/// The refusals with `edge` recorded for `command` from `location`.
pub open spec fn blocked_insert(
    b: Seq<(Seq<char>, Seq<(Seq<char>, BlockedEdgeView)>)>,
    location: Seq<char>,
    command: Seq<char>,
    edge: BlockedEdgeView,
) -> Seq<(Seq<char>, Seq<(Seq<char>, BlockedEdgeView)>)> {
    let inner = match lookup(b, location) {
        Some(t) => t,
        None => seq![],
    };
    table_insert(b, location, table_insert(inner, command, edge))
}

/// A frontier action after its move was tried on turn `turn`: explored
/// towards `destination` when the player moved, failed for `reason` when not.
pub open spec fn tried_action(
    a: FrontierActionView,
    turn: usize,
    moved: bool,
    destination: Seq<char>,
    reason: Option<Seq<char>>,
) -> FrontierActionView {
    if moved {
        FrontierActionView {
            last_attempted_turn: Some(turn),
            expected_destination: Some(destination),
            failure_reason: None,
            status: FrontierStatus::Explored,
            ..a
        }
    } else {
        FrontierActionView {
            last_attempted_turn: Some(turn),
            expected_destination: None,
            failure_reason: reason,
            status: FrontierStatus::Failed,
            ..a
        }
    }
}

/// The planner after an attempted move, before a refusal fails the pending
/// action for the refused move: the turn is counted (and the failure, or
/// else the new look at the world), the move is marked attempted, a refusal
/// is recorded, and the frontier action it came from is marked explored or
/// failed.
pub open spec fn attempt_recorded_view(p: PlannerView, u: UpdateView, w: WorldView) -> PlannerView {
    let moved = u.classification != ObservationClassification::CommandFailedOrBlocked;
    let turns = (p.stats.turns + 1) as usize;
    let stats = PlannerStats {
        turns: turns,
        executed_movement_commands: (p.stats.executed_movement_commands + 1) as usize,
        failed_moves: if moved {
            p.stats.failed_moves
        } else {
            (p.stats.failed_moves + 1) as usize
        },
        ..p.stats
    };
    let p1 = PlannerView { stats: stats, ..p };
    let p2 = if moved {
        observe_world_view(p1, w)
    } else {
        p1
    };
    let source = u.attempt.source_location_key;
    let command = u.attempt.command;
    let p3 = PlannerView { attempted: pair_set_insert(p2.attempted, (source, command)), ..p2 };
    let p4 = match u.blocked_reason {
        Some(reason) => PlannerView {
            blocked_edges: blocked_insert(
                p3.blocked_edges,
                source,
                command,
                BlockedEdgeView {
                    source_location_key: source,
                    command: command,
                    turn: turns as u64,
                    reason: reason,
                    raw_output_hash: u.raw_output_hash,
                },
            ),
            ..p3
        },
        None => p3,
    };
    match u.attempt.frontier_id {
        Some(id) => match first_index(p4.frontier, has_id(id)) {
            Some(i) => PlannerView {
                frontier: p4.frontier.update(
                    i,
                    tried_action(p4.frontier[i], turns, moved, u.current_location, u.blocked_reason),
                ),
                ..p4
            },
            None => p4,
        },
        None => p4,
    }
}

/// Whether an action is a pending one for `command` from `location`.
pub open spec fn pending_pair(location: Seq<char>, command: Seq<char>) -> spec_fn(FrontierActionView) -> bool {
    |a: FrontierActionView|
        a.status == FrontierStatus::Pending && a.source_location_key == location && a.command
            == command
}

/// The planner with every pending action for a refused move failed on turn
/// `turn` with the refusal's reason.
pub open spec fn refusal_applied(q: PlannerView, u: UpdateView, turn: usize) -> PlannerView {
    match u.blocked_reason {
        Some(reason) => PlannerView {
            frontier: q.frontier.map_values(
                |a: FrontierActionView|
                    refused_action(a, u.attempt.source_location_key, u.attempt.command, turn, reason),
            ),
            ..q
        },
        None => q,
    }
}

/// An action after a refusal of `command` from `location`: failed on turn
/// `turn` with the refusal's reason when it is pending for that move, else
/// as it was.
pub open spec fn refused_action(
    a: FrontierActionView,
    location: Seq<char>,
    command: Seq<char>,
    turn: usize,
    reason: Seq<char>,
) -> FrontierActionView {
    if pending_pair(location, command)(a) {
        tried_action(a, turn, false, seq![], Some(reason))
    } else {
        a
    }
}

/// The visited key an answer shows: the key its snapshot's title stands
/// for, or nothing when it shows no location.
pub open spec fn observed_key(p: PlannerView, raw: Seq<char>) -> Seq<char> {
    match snapshot(raw) {
        Some((title, description)) => snapshot_key(p.visited_location_keys, title),
        None => seq![],
    }
}

/// Whether an answer shows the place the move started from: the same
/// observation as before the move, or the source's own key.
pub open spec fn shows_source(p: PlannerView, a: AttemptView, raw: Seq<char>) -> bool {
    (a.previous_observation_signature.len() > 0 && observation_sig(raw) == a.previous_observation_signature)
        || observed_key(p, raw) == a.source_location_key
}

/// How an answer to a move is read. A failed command is a failure with the
/// reason `command_execution_failed`; a refusal is a failure with the
/// refusal's reason; any other answer is no failure and carries no reason:
/// it is the same place exactly when it shows the source, and otherwise a
/// known location exactly when the key it shows is a visited one, a new
/// location exactly when it is not. Only a move to another place changes
/// the current location.
pub proof fn lemma_classification_cases(p: PlannerView, a: AttemptView, raw: Seq<char>, failed: bool)
    ensures
        ({
            let c = classify_view(p, a, raw, failed);
            let same = shows_source(p, a, raw);
            let visited = p.visited_location_keys.contains(observed_key(p, raw));
            &&& failed ==> c.classification == ObservationClassification::CommandFailedOrBlocked
                && c.blocked_reason == Some("command_execution_failed"@)
            &&& !failed && blocked_reason_of(raw) is Some ==> c.classification
                == ObservationClassification::CommandFailedOrBlocked && c.blocked_reason
                == blocked_reason_of(raw)
            &&& !failed && blocked_reason_of(raw) is None ==> {
                &&& c.classification != ObservationClassification::CommandFailedOrBlocked
                &&& c.blocked_reason is None
                &&& (c.classification == ObservationClassification::MovedToSameLocation <==> same)
                &&& !same ==> (c.classification == ObservationClassification::MovedToKnownLocation
                    <==> visited)
                &&& !same ==> (c.classification == ObservationClassification::MovedToNewLocation
                    <==> !visited)
                &&& c.current_location_unchanged == same
            }
        }),
{
}

/// Once the planner has looked at the world where an answer leads, the
/// same answer is no longer read as a new location: the answer's key is
/// visited afterwards.
pub proof fn lemma_seen_location_not_new(p: PlannerView, a: AttemptView, raw: Seq<char>, w: WorldView)
    requires
        observed_key(p, raw).len() > 0,
        trim(w.current_location) == observed_key(p, raw),
    ensures
        observe_world_view(p, w).visited_location_keys.contains(observed_key(observe_world_view(p, w), raw)),
        classify_view(observe_world_view(p, w), a, raw, false).classification
            != ObservationClassification::MovedToNewLocation,
{
    let k = observed_key(p, raw);
    let q = observe_world_view(p, w);
    let p1 = if p.visited_location_keys.contains(k) {
        p
    } else {
        PlannerView {
            visited_location_keys: p.visited_location_keys.push(k),
            dfs_stack: p.dfs_stack.push(k),
            ..p
        }
    };
    lemma_add_moves_keeps(p1, k, canonical_move_names(), known_moves(w, k));
    let (title, description) = snapshot(raw).unwrap();
    let base = trim(title);
    let m = matching_keys(p.visited_location_keys, base);
    if p.visited_location_keys.contains(k) {
        assert(q.visited_location_keys == p.visited_location_keys);
    } else {
        assert(q.visited_location_keys == p.visited_location_keys.push(k));
        assert(q.visited_location_keys.drop_last() == p.visited_location_keys);
        if m.len() == 1 {
            lemma_matching_keys_visited(p.visited_location_keys, base);
            assert(p.visited_location_keys.contains(m[0]));
        }
        assert(k == base);
        assert(key_matches(base, base));
        assert(matching_keys(q.visited_location_keys, base) == m.push(base));
        assert(q.visited_location_keys[p.visited_location_keys.len() as int] == k);
    }
    lemma_classification_cases(q, a, raw, false);
}

/// Every key that matches is one of the keys.
proof fn lemma_matching_keys_visited(keys: Seq<Seq<char>>, base: Seq<char>)
    ensures
        forall|i: int|
            0 <= i < matching_keys(keys, base).len() ==> keys.contains(#[trigger] matching_keys(keys, base)[i]),
    decreases keys.len(),
{
    if keys.len() > 0 {
        lemma_matching_keys_visited(keys.drop_last(), base);
        let m = matching_keys(keys, base);
        assert forall|i: int| 0 <= i < m.len() implies keys.contains(#[trigger] m[i]) by {
            if i < matching_keys(keys.drop_last(), base).len() {
                let x = matching_keys(keys.drop_last(), base)[i];
                assert(m[i] == x);
                let j = choose|j: int| 0 <= j < keys.drop_last().len() && keys.drop_last()[j] == x;
                assert(keys[j] == x);
            } else {
                assert(keys[keys.len() - 1] == m[i]);
            }
        }
    }
}

/// A move that was not refused and did not fail marks the frontier action
/// it came from explored, towards the location the update reports, on this
/// turn; a failed move marks it failed with the update's reason and no
/// destination. The action keeps its place, identity and move.
pub proof fn lemma_tried_action_outcome(p: PlannerView, u: UpdateView, w: WorldView)
    requires
        u.attempt.frontier_id matches Some(id) && first_index(p.frontier, has_id(id)) is Some,
        u.blocked_reason is None || u.classification == ObservationClassification::CommandFailedOrBlocked,
    ensures
        ({
            let id = u.attempt.frontier_id.unwrap();
            let i = first_index(p.frontier, has_id(id)).unwrap();
            let a = apply_observation_view(p, u, w).frontier[i];
            &&& a.id == id
            &&& a.source_location_key == p.frontier[i].source_location_key
            &&& a.command == p.frontier[i].command
            &&& a.last_attempted_turn == Some((p.stats.turns + 1) as usize)
            &&& u.classification != ObservationClassification::CommandFailedOrBlocked ==> {
                &&& a.status == FrontierStatus::Explored
                &&& a.expected_destination == Some(u.current_location)
                &&& a.failure_reason is None
            }
            &&& u.classification == ObservationClassification::CommandFailedOrBlocked ==> {
                &&& a.status == FrontierStatus::Failed
                &&& a.expected_destination is None
                &&& a.failure_reason == u.blocked_reason
            }
        }),
{
    let id = u.attempt.frontier_id.unwrap();
    let i = first_index(p.frontier, has_id(id)).unwrap();
    crate::table::lemma_first_index_bounds(p.frontier, has_id(id));
    let moved = u.classification != ObservationClassification::CommandFailedOrBlocked;
    let turns = (p.stats.turns + 1) as usize;
    let stats = PlannerStats {
        turns: turns,
        executed_movement_commands: (p.stats.executed_movement_commands + 1) as usize,
        failed_moves: if moved {
            p.stats.failed_moves
        } else {
            (p.stats.failed_moves + 1) as usize
        },
        ..p.stats
    };
    let p1 = PlannerView { stats: stats, ..p };
    lemma_observe_appends_untried(p1, w);
    let p2 = if moved {
        observe_world_view(p1, w)
    } else {
        p1
    };
    assert(p2.frontier.subrange(0, p.frontier.len() as int) == p.frontier);
    assert forall|k: int| 0 <= k <= i implies #[trigger] p2.frontier[k] == p.frontier[k] by {
        assert(p2.frontier.subrange(0, p.frontier.len() as int)[k] == p2.frontier[k]);
    }
    assert forall|k: int| 0 <= k < i implies !has_id(id)(#[trigger] p2.frontier[k]) by {}
    crate::table::lemma_first_index_scan(p2.frontier, has_id(id), i);
    let q = attempt_recorded_view(p, u, w);
    assert(q.frontier[i] == tried_action(p.frontier[i], turns, moved, u.current_location, u.blocked_reason));
    if let Some(reason) = u.blocked_reason {
        let r = apply_observation_view(p, u, w);
        assert(r.frontier[i] == refused_action(q.frontier[i], u.attempt.source_location_key, u.attempt.command, turns, reason));
    }
}

/// Every attempted move counts one turn and one movement command, and one
/// failed move exactly when it failed or was refused; the plans made are
/// not counted here. The move is recorded as attempted from its source,
/// and the moves attempted before stay recorded.
pub proof fn lemma_attempt_counted(p: PlannerView, u: UpdateView, w: WorldView)
    requires
        counters_in_bounds(p),
    ensures
        ({
            let r = apply_observation_view(p, u, w);
            let failed = u.classification == ObservationClassification::CommandFailedOrBlocked;
            &&& r.stats.turns == p.stats.turns + 1
            &&& r.stats.executed_movement_commands == p.stats.executed_movement_commands + 1
            &&& r.stats.failed_moves == p.stats.failed_moves + if failed { 1int } else { 0int }
            &&& r.stats.generated_command_plans == p.stats.generated_command_plans
            &&& r.attempted.contains((u.attempt.source_location_key, u.attempt.command))
            &&& forall|x: (Seq<char>, Seq<char>)| p.attempted.contains(x) ==> #[trigger] r.attempted.contains(x)
        }),
{
    let moved = u.classification != ObservationClassification::CommandFailedOrBlocked;
    let turns = (p.stats.turns + 1) as usize;
    let stats = PlannerStats {
        turns: turns,
        executed_movement_commands: (p.stats.executed_movement_commands + 1) as usize,
        failed_moves: if moved {
            p.stats.failed_moves
        } else {
            (p.stats.failed_moves + 1) as usize
        },
        ..p.stats
    };
    let p1 = PlannerView { stats: stats, ..p };
    lemma_observe_keeps(p1, w);
    let x = (u.attempt.source_location_key, u.attempt.command);
    let a = p.attempted;
    if !a.contains(x) {
        assert(a.push(x)[a.len() as int] == x);
        assert forall|y: (Seq<char>, Seq<char>)| a.contains(y) implies #[trigger] a.push(x).contains(y) by {
            let i = choose|i: int| 0 <= i < a.len() && a[i] == y;
            assert(a.push(x)[i] == y);
        }
    }
}

/// The planner after an attempted move: the turn is counted (and the
/// failure, or else the new look at the world), the move is marked
/// attempted, a refusal is recorded, the frontier action it came from is
/// marked explored or failed, and a refused move leaves no pending action.
pub open spec fn apply_observation_view(p: PlannerView, u: UpdateView, w: WorldView) -> PlannerView {
    refusal_applied(attempt_recorded_view(p, u, w), u, (p.stats.turns + 1) as usize)
}

/// Room in the counters for one more attempted move.
pub open spec fn counters_in_bounds(p: PlannerView) -> bool {
    &&& p.stats.turns < usize::MAX
    &&& p.stats.executed_movement_commands < usize::MAX
    &&& p.stats.failed_moves < usize::MAX
    &&& ids_in_bounds(p)
}

/// The name a frontier status is counted under.
pub open spec fn status_name(s: FrontierStatus) -> Seq<char> {
    match s {
        FrontierStatus::Pending => "pending"@,
        FrontierStatus::Routing => "routing"@,
        FrontierStatus::Executing => "executing"@,
        FrontierStatus::Explored => "explored"@,
        FrontierStatus::Failed => "failed"@,
        FrontierStatus::Blocked => "blocked"@,
    }
}

fn status_name_of(s: FrontierStatus) -> (r: String)
    ensures
        r@ == status_name(s),
{
    match s {
        FrontierStatus::Pending => lit_string("pending"),
        FrontierStatus::Routing => lit_string("routing"),
        FrontierStatus::Executing => lit_string("executing"),
        FrontierStatus::Explored => lit_string("explored"),
        FrontierStatus::Failed => lit_string("failed"),
        FrontierStatus::Blocked => lit_string("blocked"),
    }
}

/// How many frontier actions have each status, by status name in the order
/// the names first occur.
pub open spec fn status_counts(f: Seq<FrontierActionView>) -> Seq<(Seq<char>, usize)>
    decreases f.len(),
{
    if f.len() == 0 {
        seq![]
    } else {
        count_bumped(status_counts(f.drop_last()), status_name(f.last().status))
    }
}

/// The planner before it has looked at the world.
pub open spec fn initial_planner_view() -> PlannerView {
    PlannerView {
        visited_location_keys: seq![],
        dfs_stack: seq![],
        frontier: seq![],
        attempted: seq![],
        blocked_edges: seq![],
        next_frontier_id: 1,
        stats: PlannerStats {
            turns: 0,
            generated_command_plans: 0,
            executed_movement_commands: 0,
            failed_moves: 0,
        },
    }
}

impl DfsPlanner {
    /// A planner that has looked at the world once.
    pub fn new(world: &WorldModel) -> (r: Self)
        ensures
            r@ == observe_world_view(initial_planner_view(), world@),
    {
        let mut planner = DfsPlanner {
            visited_location_keys: Vec::new(),
            dfs_stack: Vec::new(),
            frontier: Vec::new(),
            attempted: Vec::new(),
            blocked_edges: KeyedTable::new(),
            next_frontier_id: 1,
            stats: PlannerStats {
                turns: 0,
                generated_command_plans: 0,
                executed_movement_commands: 0,
                failed_moves: 0,
            },
        };
        assert(planner@.visited_location_keys =~= Seq::<Seq<char>>::empty());
        assert(planner@.dfs_stack =~= Seq::<Seq<char>>::empty());
        assert(planner@.frontier =~= Seq::<FrontierActionView>::empty());
        assert(planner@.attempted =~= Seq::<(Seq<char>, Seq<char>)>::empty());
        assert(planner@ == initial_planner_view());
        planner.observe_world(world);
        planner
    }

    /// The move about to be tried, with the signature of what the world
    /// shows before it.
    pub fn pending_move_attempt(
        &self,
        source_location_key: &str,
        command: &str,
        frontier_id: Option<String>,
        world: &WorldModel,
    ) -> (r: PendingMoveAttempt)
        ensures
            r@ == (AttemptView {
                source_location_key: source_location_key@,
                command: command@,
                previous_observation_signature: world_sig(world@),
                frontier_id: opt_view(frontier_id),
            }),
    {
        PendingMoveAttempt {
            source_location_key: source_location_key.to_owned(),
            command: command.to_owned(),
            previous_observation_signature: world_observation_signature(world),
            frontier_id,
        }
    }

    /// Reads the game's answer to an attempted move.
    pub fn classify_observation(
        &self,
        attempt: &PendingMoveAttempt,
        raw_observation: &str,
        command_failed: bool,
    ) -> (r: ClassifiedObservation)
        ensures
            r@ == classify_view(self@, attempt@, raw_observation@, command_failed),
    {
        let raw_output_hash = raw_output_hash(raw_observation);
        if command_failed {
            return ClassifiedObservation {
                classification: ObservationClassification::CommandFailedOrBlocked,
                blocked_reason: Some(lit_string("command_execution_failed")),
                new_observation_signature: None,
                raw_output_hash,
                current_location_unchanged: true,
            };
        }
        if let Some(reason) = explicit_blocked_reason(raw_observation) {
            return ClassifiedObservation {
                classification: ObservationClassification::CommandFailedOrBlocked,
                blocked_reason: Some(reason),
                new_observation_signature: Some(observation_signature(raw_observation)),
                raw_output_hash,
                current_location_unchanged: true,
            };
        }
        let sig = observation_signature(raw_observation);
        let observed = match location_snapshot_from_observation(raw_observation) {
            Some((title, description)) => snapshot_key_of(
                &self.visited_location_keys,
                title.as_str(),
                description.as_str(),
            ),
            None => String::new(),
        };
        if (!attempt.previous_observation_signature.as_str().is_empty()
            && sig == attempt.previous_observation_signature) || observed
            == attempt.source_location_key {
            return ClassifiedObservation {
                classification: ObservationClassification::MovedToSameLocation,
                blocked_reason: None,
                new_observation_signature: Some(sig),
                raw_output_hash,
                current_location_unchanged: true,
            };
        }
        let classification = if strings_contain(&self.visited_location_keys, &observed) {
            ObservationClassification::MovedToKnownLocation
        } else {
            ObservationClassification::MovedToNewLocation
        };
        ClassifiedObservation {
            classification,
            blocked_reason: None,
            new_observation_signature: Some(sig),
            raw_output_hash,
            current_location_unchanged: false,
        }
    }

    fn frontier_index(&self, id: &String) -> (r: Option<usize>)
        ensures
            match r {
                Some(i) => first_index(self@.frontier, has_id(id@)) == Some(i as int),
                None => first_index(self@.frontier, has_id(id@)) is None,
            },
    {
        let ghost f = self@.frontier;
        let ghost p = has_id(id@);
        let mut i: usize = 0;
        while i < self.frontier.len()
            invariant
                0 <= i <= self.frontier@.len(),
                f == self@.frontier,
                p == has_id(id@),
                forall|k: int| 0 <= k < i ==> !p(#[trigger] f[k]),
            decreases self.frontier@.len() - i,
        {
            assert(f[i as int] == self.frontier@[i as int]@);
            if self.frontier[i].id == *id {
                proof {
                    crate::table::lemma_first_index_scan(f, p, i as int);
                }
                return Some(i);
            }
            i += 1;
        }
        proof {
            crate::table::lemma_first_index_scan(f, p, f.len() as int);
        }
        None
    }

    fn record_blocked(&mut self, source: &String, command: &String, edge: BlockedEdge)
        ensures
            final(self)@ == (PlannerView {
                blocked_edges: blocked_insert(old(self)@.blocked_edges, source@, command@, edge@),
                ..old(self)@
            }),
    {
        let ghost b = self@.blocked_edges;
        proof {
            crate::table::lemma_key_index_bounds(b, source@);
        }
        match self.blocked_edges.index_of(source.as_str()) {
            Some(i) => {
                let (k, mut inner) = self.blocked_edges.entries.remove(i);
                inner.insert(command.clone(), edge);
                self.blocked_edges.entries.insert(i, (k, inner));
                assert(self@.blocked_edges =~= blocked_insert(b, source@, command@, edge@));
            },
            None => {
                let mut inner: KeyedTable<BlockedEdge> = KeyedTable::new();
                inner.insert(command.clone(), edge);
                self.blocked_edges.entries.push((source.clone(), inner));
                assert(self@.blocked_edges =~= blocked_insert(b, source@, command@, edge@));
            },
        }
    }

    /// Applies the outcome of an attempted move.
    pub fn apply_observation(&mut self, update: ObservationUpdate, world: &WorldModel) -> (r:
        ObservationClassification)
        requires
            counters_in_bounds(old(self)@),
        ensures
            r == update@.classification,
            final(self)@ == apply_observation_view(old(self)@, update@, world@),
    {
        let ghost u = update@;
        let ghost p0 = self@;
        self.stats.turns = self.stats.turns + 1;
        self.stats.executed_movement_commands = self.stats.executed_movement_commands + 1;
        let turns = self.stats.turns;
        let classification = update.classification;
        let moved = match classification {
            ObservationClassification::CommandFailedOrBlocked => false,
            _ => true,
        };
        if !moved {
            self.stats.failed_moves = self.stats.failed_moves + 1;
        } else {
            self.observe_world(world);
        }
        let source = update.attempt.source_location_key;
        let command = update.attempt.command;
        if !self.was_attempted(&source, &command) {
            let ghost before = self@;
            self.attempted.push((source.clone(), command.clone()));
            assert(self@.attempted =~= before.attempted.push((source@, command@)));
        }
        let failure = match &update.blocked_reason {
            Some(reason) => Some(reason.clone()),
            None => None,
        };
        let refusal = match &update.blocked_reason {
            Some(reason) => Some(reason.clone()),
            None => None,
        };
        if let Some(reason) = update.blocked_reason {
            let edge = BlockedEdge {
                source_location_key: source.clone(),
                command: command.clone(),
                turn: turns as u64,
                reason,
                raw_output_hash: update.raw_output_hash,
            };
            self.record_blocked(&source, &command, edge);
        }
        if let Some(action_id) = update.attempt.frontier_id {
            if let Some(i) = self.frontier_index(&action_id) {
                let ghost before = self@;
                proof {
                    crate::table::lemma_first_index_bounds(before.frontier, has_id(action_id@));
                }
                self.frontier[i].last_attempted_turn = Some(turns);
                if moved {
                    self.frontier[i].expected_destination = Some(update.current_location);
                    self.frontier[i].failure_reason = None;
                    self.frontier[i].status = FrontierStatus::Explored;
                } else {
                    self.frontier[i].expected_destination = None;
                    self.frontier[i].failure_reason = failure;
                    self.frontier[i].status = FrontierStatus::Failed;
                }
                assert(self@.frontier =~= before.frontier.update(
                    i as int,
                    tried_action(before.frontier[i as int], turns, moved, u.current_location, u.blocked_reason),
                ));
            }
        }
        assert(self@ == attempt_recorded_view(p0, u, world@));
        if let Some(reason) = refusal {
            let ghost before = self@.frontier;
            let ghost start = self@;
            let ghost ur = reason@;
            assert(ur == u.blocked_reason->0);
            let mut j: usize = 0;
            while j < self.frontier.len()
                invariant
                    0 <= j <= self.frontier@.len(),
                    self@.frontier.len() == before.len(),
                    ur == reason@,
                    before == start.frontier,
                    self@ == (PlannerView { frontier: self@.frontier, ..start }),
                    forall|k: int| 0 <= k < j ==> #[trigger] self@.frontier[k] == refused_action(
                        before[k],
                        source@,
                        command@,
                        turns,
                        ur,
                    ),
                    forall|k: int| j <= k < before.len() ==> #[trigger] self@.frontier[k] == before[k],
                decreases self.frontier@.len() - j,
            {
                let ghost prev = self@.frontier;
                assert(prev[j as int] == self.frontier@[j as int]@);
                assert(prev[j as int] == before[j as int]);
                let pending = self.frontier[j].status == FrontierStatus::Pending
                    && self.frontier[j].source_location_key == source
                    && self.frontier[j].command == command;
                if pending {
                    self.frontier[j].last_attempted_turn = Some(turns);
                    self.frontier[j].expected_destination = None;
                    self.frontier[j].failure_reason = Some(reason.clone());
                    self.frontier[j].status = FrontierStatus::Failed;
                }
                assert forall|k: int| 0 <= k < self@.frontier.len() && k != j implies self@.frontier[k]
                    == prev[k] by {}
                assert(self@.frontier[j as int] == refused_action(before[j as int], source@, command@, turns, ur));
                assert forall|k: int| 0 <= k < j + 1 implies #[trigger] self@.frontier[k] == refused_action(
                    before[k],
                    source@,
                    command@,
                    turns,
                    ur,
                ) by {
                    if k < j {
                        assert(self@.frontier[k] == prev[k]);
                    }
                }
                assert forall|k: int| j + 1 <= k < before.len() implies #[trigger] self@.frontier[k]
                    == before[k] by {
                    assert(self@.frontier[k] == prev[k]);
                }
                j += 1;
            }
            assert(self@.frontier =~= before.map_values(
                |a: FrontierActionView| refused_action(a, source@, command@, turns, ur),
            ));
        }
        classification
    }


    /// The frontier actions, in the order they were found.
    pub fn frontier(&self) -> (r: &[FrontierAction])
        ensures
            r@ == self.frontier@,
    {
        self.frontier.as_slice()
    }

    /// The recorded refusals, by source location and then by command.
    pub fn blocked_edges(&self) -> (r: &KeyedTable<KeyedTable<BlockedEdge>>)
        ensures
            r@ == self@.blocked_edges,
    {
        &self.blocked_edges
    }

    /// How many frontier actions have each status.
    pub fn frontier_counts(&self) -> (r: KeyedTable<usize>)
        ensures
            r@ == status_counts(self@.frontier),
    {
        let ghost f = self@.frontier;
        let mut counts: KeyedTable<usize> = KeyedTable::new();
        let mut i: usize = 0;
        assert(f.take(0) =~= Seq::<FrontierActionView>::empty());
        while i < self.frontier.len()
            invariant
                0 <= i <= self.frontier@.len(),
                f == self@.frontier,
                counts@ == status_counts(f.take(i as int)),
                forall|j: int| 0 <= j < counts@.len() ==> #[trigger] counts@[j].1 <= i,
            decreases self.frontier@.len() - i,
        {
            assert(f.take(i + 1).drop_last() =~= f.take(i as int));
            assert(f[i as int] == self.frontier@[i as int]@);
            let name = status_name_of(self.frontier[i].status);
            proof {
                crate::table::lemma_key_index_bounds(counts@, name@);
            }
            let ghost before = counts@;
            counts.increment(name);
            assert forall|j: int| 0 <= j < counts@.len() implies #[trigger] counts@[j].1 <= i + 1 by {
                if j < before.len() {
                    assert(counts@[j].1 <= before[j].1 + 1);
                }
            }
            i += 1;
        }
        assert(f.take(f.len() as int) =~= f);
        counts
    }
}


// ---------------------------------------------------------------------------
// Routes through the known map
// ---------------------------------------------------------------------------

/// The moves a location's exits are known to make: for each exit with a
/// known destination whose direction is a movement, the destination and the
/// canonical command, in exit order.
pub open spec fn exit_edges(exits: Seq<ExitView>) -> Seq<(Seq<char>, Seq<char>)>
    decreases exits.len(),
{
    if exits.len() == 0 {
        seq![]
    } else {
        let rest = exit_edges(exits.drop_last());
        let e = exits.last();
        match e.destination {
            Some(d) => match normalize_move(e.direction) {
                Some(c) => rest.push((d, c)),
                None => rest,
            },
            None => rest,
        }
    }
}

/// The known moves of every location, under its key.
pub open spec fn route_graph(locs: Seq<(Seq<char>, LocationView)>) -> Seq<
    (Seq<char>, Seq<(Seq<char>, Seq<char>)>),
> {
    locs.map_values(|e: (Seq<char>, LocationView)| (e.0, exit_edges(e.1.exits)))
}

/// The moves known from a location (none for an unknown one).
pub open spec fn graph_edges(
    g: Seq<(Seq<char>, Seq<(Seq<char>, Seq<char>)>)>,
    node: Seq<char>,
) -> Seq<(Seq<char>, Seq<char>)> {
    match lookup(g, node) {
        Some(es) => es,
        None => seq![],
    }
}

/// Where step `i` of a route starts.
pub open spec fn step_origin(start: Seq<char>, steps: Seq<(Seq<char>, Seq<char>)>, i: int) -> Seq<
    char,
> {
    if i == 0 {
        start
    } else {
        steps[i - 1].0
    }
}

/// Where a route ends.
pub open spec fn route_end(start: Seq<char>, steps: Seq<(Seq<char>, Seq<char>)>) -> Seq<char> {
    if steps.len() == 0 {
        start
    } else {
        steps.last().0
    }
}

/// Whether `steps` (destination and command of each move) lead from
/// `start` to `goal` by known moves.
pub open spec fn is_route(
    g: Seq<(Seq<char>, Seq<(Seq<char>, Seq<char>)>)>,
    start: Seq<char>,
    steps: Seq<(Seq<char>, Seq<char>)>,
    goal: Seq<char>,
) -> bool {
    &&& forall|i: int|
        0 <= i < steps.len() ==> graph_edges(g, step_origin(start, steps, i)).contains(
            #[trigger] steps[i],
        )
    &&& route_end(start, steps) == goal
}

/// Whether known moves lead from `start` to `goal`.
pub open spec fn reachable(
    g: Seq<(Seq<char>, Seq<(Seq<char>, Seq<char>)>)>,
    start: Seq<char>,
    goal: Seq<char>,
) -> bool {
    exists|steps: Seq<(Seq<char>, Seq<char>)>| #[trigger] is_route(g, start, steps, goal)
}

/// The commands of a route.
pub open spec fn route_commands(steps: Seq<(Seq<char>, Seq<char>)>) -> Seq<Seq<char>> {
    steps.map_values(|s: (Seq<char>, Seq<char>)| s.1)
}

/// Every destination of every known move.
pub open spec fn all_destinations(g: Seq<(Seq<char>, Seq<(Seq<char>, Seq<char>)>)>) -> Seq<
    Seq<char>,
>
    decreases g.len(),
{
    if g.len() == 0 {
        seq![]
    } else {
        all_destinations(g.drop_last()) + g.last().1.map_values(
            |e: (Seq<char>, Seq<char>)| e.0,
        )
    }
}

proof fn lemma_all_destinations(g: Seq<(Seq<char>, Seq<(Seq<char>, Seq<char>)>)>, i: int, j: int)
    requires
        0 <= i < g.len(),
        0 <= j < g[i].1.len(),
    ensures
        all_destinations(g).contains(g[i].1[j].0),
    decreases g.len(),
{
    let rest = all_destinations(g.drop_last());
    let tail = g.last().1.map_values(|e: (Seq<char>, Seq<char>)| e.0);
    if i == g.len() - 1 {
        assert((rest + tail)[rest.len() + j] == g[i].1[j].0);
    } else {
        lemma_all_destinations(g.drop_last(), i, j);
        let k = choose|k: int| 0 <= k < rest.len() && rest[k] == g[i].1[j].0;
        assert((rest + tail)[k] == g[i].1[j].0);
    }
}

proof fn lemma_edge_destination(
    g: Seq<(Seq<char>, Seq<(Seq<char>, Seq<char>)>)>,
    node: Seq<char>,
    j: int,
)
    requires
        0 <= j < graph_edges(g, node).len(),
    ensures
        all_destinations(g).contains(graph_edges(g, node)[j].0),
{
    crate::table::lemma_key_index_bounds(g, node);
    let k = crate::table::key_index(g, node).unwrap();
    lemma_all_destinations(g, k, j);
}

/// A set of locations holding `start` and closed under known moves holds
/// the end of every route from `start`.
proof fn lemma_closed_holds_routes(
    g: Seq<(Seq<char>, Seq<(Seq<char>, Seq<char>)>)>,
    start: Seq<char>,
    seen: Seq<Seq<char>>,
    steps: Seq<(Seq<char>, Seq<char>)>,
)
    requires
        seen.contains(start),
        forall|i: int, j: int|
            0 <= i < seen.len() && 0 <= j < graph_edges(g, seen[i]).len() ==> seen.contains(
                #[trigger] graph_edges(g, seen[i])[j].0,
            ),
        is_route(g, start, steps, route_end(start, steps)),
    ensures
        seen.contains(route_end(start, steps)),
    decreases steps.len(),
{
    if steps.len() > 0 {
        let prefix = steps.drop_last();
        assert forall|i: int| 0 <= i < prefix.len() implies graph_edges(
            g,
            step_origin(start, prefix, i),
        ).contains(#[trigger] prefix[i]) by {
            assert(prefix[i] == steps[i]);
            assert(step_origin(start, prefix, i) == step_origin(start, steps, i));
        }
        lemma_closed_holds_routes(g, start, seen, prefix);
        let origin = route_end(start, prefix);
        assert(origin == step_origin(start, steps, steps.len() - 1));
        assert(graph_edges(g, origin).contains(steps[steps.len() - 1]));
        let i = choose|i: int| 0 <= i < seen.len() && seen[i] == origin;
        let j = choose|j: int|
            0 <= j < graph_edges(g, origin).len() && graph_edges(g, origin)[j] == steps.last();
        assert(seen.contains(graph_edges(g, seen[i])[j].0));
    }
}

proof fn lemma_push_keeps(s: Seq<Seq<char>>, x: Seq<char>, y: Seq<char>)
    requires
        s.contains(y),
    ensures
        s.push(x).contains(y),
{
    let i = choose|i: int| 0 <= i < s.len() && s[i] == y;
    assert(s.push(x)[i] == y);
}

/// Distinct elements of a sequence are no more than its length.
proof fn lemma_distinct_within(seen: Seq<Seq<char>>, universe: Seq<Seq<char>>)
    requires
        seen.no_duplicates(),
        forall|i: int| 0 <= i < seen.len() ==> universe.contains(#[trigger] seen[i]),
    ensures
        seen.len() <= universe.len(),
{
    seen.unique_seq_to_set();
    universe.lemma_cardinality_of_set();
    assert(seen.to_set().subset_of(universe.to_set())) by {
        assert forall|x: Seq<char>| seen.to_set().contains(x) implies universe.to_set().contains(
            x,
        ) by {
            let i = choose|i: int| 0 <= i < seen.len() && seen[i] == x;
            assert(universe.contains(seen[i]));
        }
    }
    vstd::set_lib::lemma_len_subset(seen.to_set(), universe.to_set());
}

/// The known moves of every location, under its key: for each location,
/// the destination and canonical command of each exit with a known
/// destination.
pub struct RouteGraph {
    nodes: Vec<(String, Vec<(String, String)>)>,
}

impl View for RouteGraph {
    type V = Seq<(Seq<char>, Seq<(Seq<char>, Seq<char>)>)>;

    closed spec fn view(&self) -> Seq<(Seq<char>, Seq<(Seq<char>, Seq<char>)>)> {
        self.nodes@.map_values(
            |e: (String, Vec<(String, String)>)|
                (e.0@, e.1@.map_values(|x: (String, String)| (x.0@, x.1@))),
        )
    }
}

fn exit_moves(exits: &Vec<Exit>) -> (r: Vec<(String, String)>)
    ensures
        r@.map_values(|x: (String, String)| (x.0@, x.1@)) == exit_edges(
            exits@.map_values(|e: Exit| e@),
        ),
{
    let ghost es = exits@.map_values(|e: Exit| e@);
    let mut r: Vec<(String, String)> = Vec::new();
    let mut j: usize = 0;
    assert(es.take(0) =~= Seq::<ExitView>::empty());
    assert(r@.map_values(|x: (String, String)| (x.0@, x.1@)) =~= Seq::<
        (Seq<char>, Seq<char>),
    >::empty());
    while j < exits.len()
        invariant
            0 <= j <= exits@.len(),
            es == exits@.map_values(|e: Exit| e@),
            r@.map_values(|x: (String, String)| (x.0@, x.1@)) == exit_edges(es.take(j as int)),
        decreases exits@.len() - j,
    {
        assert(es.take(j + 1).drop_last() =~= es.take(j as int));
        assert(es.take(j + 1).last() == exits@[j as int]@);
        let exit = &exits[j];
        let ghost before = r@.map_values(|x: (String, String)| (x.0@, x.1@));
        match &exit.destination {
            Some(d) => match normalize_move_command(exit.direction.as_str()) {
                Some(c) => {
                    r.push((d.clone(), c));
                    assert(r@.map_values(|x: (String, String)| (x.0@, x.1@)) =~= before.push(
                        (d@, normalize_move(exit.direction@).unwrap()),
                    ));
                },
                None => {},
            },
            None => {},
        }
        j += 1;
    }
    assert(es.take(exits@.len() as int) =~= es);
    r
}

/// The known moves of the world's locations.
pub fn known_route_graph(world: &WorldModel) -> (r: RouteGraph)
    ensures
        r@ == route_graph(world@.locations),
{
    let ghost locs = world@.locations;
    let mut nodes: Vec<(String, Vec<(String, String)>)> = Vec::new();
    let mut i: usize = 0;
    while i < world.locations.entries.len()
        invariant
            0 <= i <= world.locations.entries@.len(),
            locs == world@.locations,
            locs.len() == world.locations.entries@.len(),
            nodes@.len() == i,
            (RouteGraph { nodes: nodes })@ == route_graph(locs).take(i as int),
        decreases world.locations.entries@.len() - i,
    {
        let entry = &world.locations.entries[i];
        assert(locs[i as int] == (entry.0@, entry.1@));
        let moves = exit_moves(&entry.1.exits);
        let ghost before = (RouteGraph { nodes: nodes })@;
        nodes.push((entry.0.clone(), moves));
        proof {
            let after = (RouteGraph { nodes: nodes })@;
            let want = route_graph(locs).take(i + 1);
            assert(nodes@.len() == i + 1);
            assert(route_graph(locs).len() == locs.len());
            assert(after.len() == want.len());
            assert forall|k: int| 0 <= k < after.len() implies after[k] == want[k] by {
                if k < i {
                    assert(after[k] == before[k]);
                }
            }
            assert(after =~= want);
        }
        i += 1;
    }
    assert(route_graph(locs).take(locs.len() as int) =~= route_graph(locs));
    RouteGraph { nodes }
}

fn copy_strings(v: &Vec<String>) -> (r: Vec<String>)
    ensures
        r.deep_view() == v.deep_view(),
{
    let mut r: Vec<String> = Vec::new();
    let mut i: usize = 0;
    while i < v.len()
        invariant
            0 <= i <= v@.len(),
            r.deep_view() == v.deep_view().take(i as int),
        decreases v@.len() - i,
    {
        let ghost before = r.deep_view();
        r.push(v[i].clone());
        assert(r.deep_view() =~= before.push(v@[i as int]@));
        assert(v.deep_view().take(i + 1) =~= v.deep_view().take(i as int).push(v@[i as int]@));
        i += 1;
    }
    assert(v.deep_view().take(v@.len() as int) =~= v.deep_view());
    r
}

fn graph_index(graph: &RouteGraph, node: &String) -> (r: Option<usize>)
    ensures
        match r {
            Some(k) => crate::table::key_index(graph@, node@) == Some(k as int),
            None => crate::table::key_index(graph@, node@) is None,
        },
{
    let ghost g = graph@;
    let mut k: usize = 0;
    while k < graph.nodes.len()
        invariant
            0 <= k <= graph.nodes@.len(),
            g == graph@,
            forall|m: int| 0 <= m < k ==> #[trigger] g[m].0 != node@,
        decreases graph.nodes@.len() - k,
    {
        assert(g[k as int].0 == graph.nodes@[k as int].0@);
        if graph.nodes[k].0 == *node {
            proof {
                crate::table::lemma_key_index_scan(g, node@, k as int);
            }
            return Some(k);
        }
        k += 1;
    }
    proof {
        crate::table::lemma_key_index_scan(g, node@, g.len() as int);
    }
    None
}

/// The search state: the locations found so far (`found`, no one twice,
/// each the start or a known destination), with a route to each (`routes`)
/// whose commands `paths` hold; those before `head` have been expanded: none
/// is the goal, and their known moves all lead to found locations, reached
/// by routes at most one move longer. Routes grow in length along `found`,
/// none more than one move longer than the route to `found[head]`.
#[verifier::opaque]
spec fn search_state(
    g: Seq<(Seq<char>, Seq<(Seq<char>, Seq<char>)>)>,
    start: Seq<char>,
    goal: Seq<char>,
    found: Seq<Seq<char>>,
    paths: Seq<Seq<Seq<char>>>,
    routes: Seq<Seq<(Seq<char>, Seq<char>)>>,
    head: int,
) -> bool {
    let universe = seq![start] + all_destinations(g);
    &&& found.len() == paths.len() == routes.len() >= 1
    &&& 0 <= head <= found.len()
    &&& found[0] == start
    &&& found.no_duplicates()
    &&& forall|i: int| 0 <= i < found.len() ==> universe.contains(#[trigger] found[i])
    &&& forall|i: int|
        0 <= i < found.len() ==> is_route(g, start, #[trigger] routes[i], found[i]) && paths[i]
            == route_commands(routes[i])
    &&& forall|i: int| 0 <= i < head ==> #[trigger] found[i] != goal
    &&& forall|i: int, j: int|
        0 <= i < head && 0 <= j < graph_edges(g, found[i]).len() ==> found.contains(
            #[trigger] graph_edges(g, found[i])[j].0,
        )
    &&& routes[0].len() == 0
    &&& forall|i: int, j: int|
        0 <= i <= j < found.len() ==> (#[trigger] routes[i]).len() <= (#[trigger] routes[j]).len()
    &&& head < found.len() ==> forall|i: int|
        0 <= i < found.len() ==> (#[trigger] routes[i]).len() <= routes[head].len() + 1
    &&& forall|i: int, j: int|
        0 <= i < head && 0 <= j < graph_edges(g, found[i]).len() ==> exists|k: int|
            0 <= k < found.len() && found[k] == #[trigger] graph_edges(g, found[i])[j].0
                && routes[k].len() <= routes[i].len() + 1
}

proof fn lemma_search_start(
    g: Seq<(Seq<char>, Seq<(Seq<char>, Seq<char>)>)>,
    start: Seq<char>,
    goal: Seq<char>,
)
    ensures
        search_state(g, start, goal, seq![start], seq![seq![]], seq![seq![]], 0),
{
    reveal(search_state);
    let universe = seq![start] + all_destinations(g);
    assert(universe[0] == start);
    assert(route_commands(seq![]) =~= Seq::<Seq<char>>::empty());
}

proof fn lemma_search_bound(
    g: Seq<(Seq<char>, Seq<(Seq<char>, Seq<char>)>)>,
    start: Seq<char>,
    goal: Seq<char>,
    found: Seq<Seq<char>>,
    paths: Seq<Seq<Seq<char>>>,
    routes: Seq<Seq<(Seq<char>, Seq<char>)>>,
    head: int,
)
    requires
        search_state(g, start, goal, found, paths, routes, head),
    ensures
        found.len() == paths.len() == routes.len() >= 1,
        0 <= head <= found.len() <= 1 + all_destinations(g).len(),
        found[0] == start,
{
    reveal(search_state);
    lemma_distinct_within(found, seq![start] + all_destinations(g));
}

proof fn lemma_search_found(
    g: Seq<(Seq<char>, Seq<(Seq<char>, Seq<char>)>)>,
    start: Seq<char>,
    goal: Seq<char>,
    found: Seq<Seq<char>>,
    paths: Seq<Seq<Seq<char>>>,
    routes: Seq<Seq<(Seq<char>, Seq<char>)>>,
    head: int,
)
    requires
        search_state(g, start, goal, found, paths, routes, head),
        0 <= head < found.len(),
    ensures
        is_route(g, start, routes[head], found[head]),
        paths[head] == route_commands(routes[head]),
{
    reveal(search_state);
}

proof fn lemma_search_push(
    g: Seq<(Seq<char>, Seq<(Seq<char>, Seq<char>)>)>,
    start: Seq<char>,
    goal: Seq<char>,
    found: Seq<Seq<char>>,
    paths: Seq<Seq<Seq<char>>>,
    routes: Seq<Seq<(Seq<char>, Seq<char>)>>,
    head: int,
    j: int,
)
    requires
        search_state(g, start, goal, found, paths, routes, head),
        0 <= head < found.len(),
        0 <= j < graph_edges(g, found[head]).len(),
        !found.contains(graph_edges(g, found[head])[j].0),
    ensures
        ({
            let e = graph_edges(g, found[head])[j];
            search_state(
                g,
                start,
                goal,
                found.push(e.0),
                paths.push(paths[head].push(e.1)),
                routes.push(routes[head].push(e)),
                head,
            )
        }),
{
    reveal(search_state);
    let node = found[head];
    let edges = graph_edges(g, node);
    let e = edges[j];
    let universe = seq![start] + all_destinations(g);
    let route = routes[head];
    let nr = route.push(e);
    let f2 = found.push(e.0);
    let p2 = paths.push(paths[head].push(e.1));
    let r2 = routes.push(nr);
    assert(is_route(g, start, nr, e.0)) by {
        assert forall|i: int| 0 <= i < nr.len() implies graph_edges(
            g,
            step_origin(start, nr, i),
        ).contains(#[trigger] nr[i]) by {
            if i < route.len() {
                assert(nr[i] == route[i]);
                assert(step_origin(start, nr, i) == step_origin(start, route, i));
            } else {
                assert(step_origin(start, nr, i) == route_end(start, route));
                assert(edges[j] == nr[i]);
            }
        }
    }
    assert(route_commands(nr) =~= route_commands(route).push(e.1));
    lemma_edge_destination(g, node, j);
    assert(universe.contains(e.0)) by {
        let k = choose|k: int| 0 <= k < all_destinations(g).len() && all_destinations(g)[k] == e.0;
        assert(universe[k + 1] == e.0);
    }
    assert forall|i: int| 0 <= i < f2.len() implies universe.contains(#[trigger] f2[i]) by {
        if i < found.len() {
            assert(f2[i] == found[i]);
        }
    }
    assert forall|i: int| 0 <= i < f2.len() implies is_route(g, start, #[trigger] r2[i], f2[i])
        && p2[i] == route_commands(r2[i]) by {
        if i < found.len() {
            assert(f2[i] == found[i]);
            assert(r2[i] == routes[i]);
            assert(p2[i] == paths[i]);
        }
    }
    assert forall|i: int| 0 <= i < head implies #[trigger] f2[i] != goal by {
        assert(f2[i] == found[i]);
    }
    assert forall|i: int, k: int|
        0 <= i < head && 0 <= k < graph_edges(g, f2[i]).len() implies f2.contains(
        #[trigger] graph_edges(g, f2[i])[k].0,
    ) by {
        assert(f2[i] == found[i]);
        assert(found.contains(graph_edges(g, found[i])[k].0));
        lemma_push_keeps(found, e.0, graph_edges(g, found[i])[k].0);
    }
    assert(f2.no_duplicates()) by {
        assert forall|a: int, b: int| 0 <= a < f2.len() && 0 <= b < f2.len() && a != b implies f2[a]
            != f2[b] by {
            if a == found.len() as int {
                assert(f2[b] == found[b]);
            } else if b == found.len() as int {
                assert(f2[a] == found[a]);
            }
        }
    }
    assert(f2[0] == start);
}

proof fn lemma_search_advance(
    g: Seq<(Seq<char>, Seq<(Seq<char>, Seq<char>)>)>,
    start: Seq<char>,
    goal: Seq<char>,
    found: Seq<Seq<char>>,
    paths: Seq<Seq<Seq<char>>>,
    routes: Seq<Seq<(Seq<char>, Seq<char>)>>,
    head: int,
)
    requires
        search_state(g, start, goal, found, paths, routes, head),
        0 <= head < found.len(),
        found[head] != goal,
        forall|k: int|
            0 <= k < graph_edges(g, found[head]).len() ==> found.contains(
                #[trigger] graph_edges(g, found[head])[k].0,
            ),
    ensures
        search_state(g, start, goal, found, paths, routes, head + 1),
{
    reveal(search_state);
}

/// Along a route no longer than the route to `found[head]`, every point is
/// found, by a route no longer than the part of the route before it.
proof fn lemma_search_points_found(
    g: Seq<(Seq<char>, Seq<(Seq<char>, Seq<char>)>)>,
    start: Seq<char>,
    goal: Seq<char>,
    found: Seq<Seq<char>>,
    paths: Seq<Seq<Seq<char>>>,
    routes: Seq<Seq<(Seq<char>, Seq<char>)>>,
    head: int,
    steps: Seq<(Seq<char>, Seq<char>)>,
    i: int,
)
    requires
        search_state(g, start, goal, found, paths, routes, head),
        0 <= head < found.len(),
        steps.len() <= routes[head].len(),
        forall|n: int|
            0 <= n < steps.len() ==> graph_edges(g, step_origin(start, steps, n)).contains(
                #[trigger] steps[n],
            ),
        0 <= i <= steps.len(),
    ensures
        exists|k: int|
            0 <= k < found.len() && found[k] == step_origin(start, steps, i) && routes[k].len() <= i,
    decreases i,
{
    reveal(search_state);
    if i == 0 {
        assert(found[0] == step_origin(start, steps, 0) && routes[0].len() <= 0);
    } else {
        lemma_search_points_found(g, start, goal, found, paths, routes, head, steps, i - 1);
        let k = choose|k: int|
            0 <= k < found.len() && found[k] == step_origin(start, steps, i - 1) && routes[k].len()
                <= i - 1;
        if k >= head {
            assert(routes[head].len() <= routes[k].len());
        }
        assert(k < head);
        let origin = step_origin(start, steps, i - 1);
        assert(graph_edges(g, origin).contains(steps[i - 1]));
        let j = choose|j: int|
            0 <= j < graph_edges(g, origin).len() && graph_edges(g, origin)[j] == steps[i - 1];
        assert(graph_edges(g, found[k])[j].0 == step_origin(start, steps, i));
        let k2 = choose|k2: int|
            0 <= k2 < found.len() && found[k2] == graph_edges(g, found[k])[j].0 && routes[k2].len()
                <= routes[k].len() + 1;
        assert(found[k2] == step_origin(start, steps, i) && routes[k2].len() <= i);
    }
}

/// The goal, once found, is found by a shortest route.
proof fn lemma_search_shortest(
    g: Seq<(Seq<char>, Seq<(Seq<char>, Seq<char>)>)>,
    start: Seq<char>,
    goal: Seq<char>,
    found: Seq<Seq<char>>,
    paths: Seq<Seq<Seq<char>>>,
    routes: Seq<Seq<(Seq<char>, Seq<char>)>>,
    head: int,
)
    requires
        search_state(g, start, goal, found, paths, routes, head),
        0 <= head < found.len(),
        found[head] == goal,
    ensures
        forall|steps: Seq<(Seq<char>, Seq<char>)>|
            #[trigger] is_route(g, start, steps, goal) ==> routes[head].len() <= steps.len(),
{
    assert forall|steps: Seq<(Seq<char>, Seq<char>)>| #[trigger]
        is_route(g, start, steps, goal) implies routes[head].len() <= steps.len() by {
        if steps.len() < routes[head].len() {
            lemma_search_points_found(g, start, goal, found, paths, routes, head, steps, steps.len() as int);
            reveal(search_state);
            assert(step_origin(start, steps, steps.len() as int) == route_end(start, steps));
            let k = choose|k: int|
                0 <= k < found.len() && found[k] == step_origin(start, steps, steps.len() as int)
                    && routes[k].len() <= steps.len();
            if k >= head {
                assert(routes[head].len() <= routes[k].len());
            }
            assert(found[k] != goal);
        }
    }
}

proof fn lemma_search_exhausted(
    g: Seq<(Seq<char>, Seq<(Seq<char>, Seq<char>)>)>,
    start: Seq<char>,
    goal: Seq<char>,
    found: Seq<Seq<char>>,
    paths: Seq<Seq<Seq<char>>>,
    routes: Seq<Seq<(Seq<char>, Seq<char>)>>,
)
    requires
        search_state(g, start, goal, found, paths, routes, found.len() as int),
    ensures
        !reachable(g, start, goal),
{
    reveal(search_state);
    assert(found.contains(start)) by {
        assert(found[0] == start);
    }
    assert forall|steps: Seq<(Seq<char>, Seq<char>)>| !#[trigger] is_route(g, start, steps, goal) by {
        if is_route(g, start, steps, goal) {
            lemma_closed_holds_routes(g, start, found, steps);
            let i = choose|i: int| 0 <= i < found.len() && found[i] == goal;
            assert(found[i] != goal);
        }
    }
}

/// Whether a move is this one.
pub open spec fn same_step(step: (Seq<char>, Seq<char>)) -> spec_fn((Seq<char>, Seq<char>)) -> bool {
    |e: (Seq<char>, Seq<char>)| e == step
}

/// Where step `i` of a route stands among the known moves of the location
/// it starts from (its first place there).
pub open spec fn step_position(
    g: Seq<(Seq<char>, Seq<(Seq<char>, Seq<char>)>)>,
    start: Seq<char>,
    steps: Seq<(Seq<char>, Seq<char>)>,
    i: int,
) -> int {
    match first_index(graph_edges(g, step_origin(start, steps, i)), same_step(steps[i])) {
        Some(k) => k,
        None => -1,
    }
}

/// The place of each step of a route among the known moves it was chosen from.
pub open spec fn route_positions(
    g: Seq<(Seq<char>, Seq<(Seq<char>, Seq<char>)>)>,
    start: Seq<char>,
    steps: Seq<(Seq<char>, Seq<char>)>,
) -> Seq<int> {
    Seq::new(steps.len(), |i: int| step_position(g, start, steps, i))
}

/// Whether `a` comes before `b`, both of one length: at the first place
/// where they differ, `a` holds the smaller number.
pub open spec fn positions_before(a: Seq<int>, b: Seq<int>) -> bool
    decreases a.len(),
{
    if a.len() == 0 || a.len() != b.len() {
        false
    } else {
        positions_before(a.drop_last(), b.drop_last()) || (a.drop_last() == b.drop_last() && a.last()
            < b.last())
    }
}

proof fn lemma_positions_before_transitive(a: Seq<int>, b: Seq<int>, c: Seq<int>)
    requires
        positions_before(a, b),
        positions_before(b, c),
    ensures
        positions_before(a, c),
    decreases a.len(),
{
    if positions_before(a.drop_last(), b.drop_last()) && positions_before(b.drop_last(), c.drop_last()) {
        lemma_positions_before_transitive(a.drop_last(), b.drop_last(), c.drop_last());
    }
}

/// The positions of a route's first steps are the first positions of the route.
proof fn lemma_route_positions_prefix(
    g: Seq<(Seq<char>, Seq<(Seq<char>, Seq<char>)>)>,
    start: Seq<char>,
    steps: Seq<(Seq<char>, Seq<char>)>,
)
    requires
        steps.len() >= 1,
    ensures
        route_positions(g, start, steps).drop_last() == route_positions(g, start, steps.drop_last()),
        route_positions(g, start, steps).last() == step_position(g, start, steps, steps.len() - 1),
{
    let p = steps.drop_last();
    assert forall|i: int| 0 <= i < p.len() implies #[trigger] route_positions(g, start, steps)[i]
        == route_positions(g, start, p)[i] by {
        assert(p[i] == steps[i]);
        assert(step_origin(start, p, i) == step_origin(start, steps, i));
    }
    assert(route_positions(g, start, steps).drop_last() =~= route_positions(g, start, p));
}

/// Each step of a route by known moves is one of the moves of where it starts.
pub open spec fn steps_known(
    g: Seq<(Seq<char>, Seq<(Seq<char>, Seq<char>)>)>,
    start: Seq<char>,
    steps: Seq<(Seq<char>, Seq<char>)>,
) -> bool {
    forall|i: int|
        0 <= i < steps.len() ==> graph_edges(g, step_origin(start, steps, i)).contains(#[trigger] steps[i])
}

/// A step that is a known move stands where that move is.
proof fn lemma_step_position_found(
    g: Seq<(Seq<char>, Seq<(Seq<char>, Seq<char>)>)>,
    start: Seq<char>,
    steps: Seq<(Seq<char>, Seq<char>)>,
    i: int,
)
    requires
        0 <= i < steps.len(),
        graph_edges(g, step_origin(start, steps, i)).contains(steps[i]),
    ensures
        ({
            let es = graph_edges(g, step_origin(start, steps, i));
            let k = step_position(g, start, steps, i);
            &&& 0 <= k < es.len()
            &&& es[k] == steps[i]
        }),
{
    let es = graph_edges(g, step_origin(start, steps, i));
    crate::table::lemma_first_index_bounds(es, same_step(steps[i]));
    if first_index(es, same_step(steps[i])) is None {
        let k = choose|k: int| 0 <= k < es.len() && es[k] == steps[i];
        assert(!same_step(steps[i])(es[k]));
    }
}

/// Two routes by known moves from one start with the same positions are the same route.
proof fn lemma_route_positions_injective(
    g: Seq<(Seq<char>, Seq<(Seq<char>, Seq<char>)>)>,
    start: Seq<char>,
    s: Seq<(Seq<char>, Seq<char>)>,
    t: Seq<(Seq<char>, Seq<char>)>,
)
    requires
        steps_known(g, start, s),
        steps_known(g, start, t),
        s.len() == t.len(),
        route_positions(g, start, s) == route_positions(g, start, t),
    ensures
        s == t,
    decreases s.len(),
{
    if s.len() > 0 {
        let n = s.len() - 1;
        lemma_route_positions_prefix(g, start, s);
        lemma_route_positions_prefix(g, start, t);
        assert(steps_known(g, start, s.drop_last())) by {
            assert forall|i: int| 0 <= i < s.drop_last().len() implies graph_edges(
                g,
                step_origin(start, s.drop_last(), i),
            ).contains(#[trigger] s.drop_last()[i]) by {
                assert(s.drop_last()[i] == s[i]);
                assert(step_origin(start, s.drop_last(), i) == step_origin(start, s, i));
            }
        }
        assert(steps_known(g, start, t.drop_last())) by {
            assert forall|i: int| 0 <= i < t.drop_last().len() implies graph_edges(
                g,
                step_origin(start, t.drop_last(), i),
            ).contains(#[trigger] t.drop_last()[i]) by {
                assert(t.drop_last()[i] == t[i]);
                assert(step_origin(start, t.drop_last(), i) == step_origin(start, t, i));
            }
        }
        lemma_route_positions_injective(g, start, s.drop_last(), t.drop_last());
        if n > 0 {
            assert(s[n - 1] == s.drop_last()[n - 1]);
            assert(t[n - 1] == t.drop_last()[n - 1]);
        }
        assert(step_origin(start, s, n) == step_origin(start, t, n));
        assert(graph_edges(g, step_origin(start, s, n)).contains(s[n]));
        assert(graph_edges(g, step_origin(start, t, n)).contains(t[n]));
        lemma_step_position_found(g, start, s, n);
        lemma_step_position_found(g, start, t, n);
        assert(s =~= s.drop_last().push(s[n]));
        assert(t =~= t.drop_last().push(t[n]));
    }
}

/// The order in which the search takes up locations: each location after
/// the start was found from an earlier one (its parent) by one more move;
/// locations come by route length, and among equally long routes by the
/// positions of their moves; each is reached by the route that comes
/// first among the routes of that length to it. Locations found while
/// `found[head]` is expanded come from moves before position `j`.
#[verifier::opaque]
spec fn search_order(
    g: Seq<(Seq<char>, Seq<(Seq<char>, Seq<char>)>)>,
    start: Seq<char>,
    found: Seq<Seq<char>>,
    routes: Seq<Seq<(Seq<char>, Seq<char>)>>,
    parents: Seq<int>,
    head: int,
    j: int,
) -> bool {
    &&& parents.len() == found.len()
    &&& forall|k: int|
        1 <= k < found.len() ==> {
            &&& 0 <= #[trigger] parents[k] < k
            &&& routes[k].len() >= 1
            &&& routes[k].drop_last() == routes[parents[k]]
            &&& (parents[k] < head || (parents[k] == head && route_positions(g, start, routes[k]).last()
                < j))
        }
    &&& forall|a: int, b: int|
        0 <= a < b < found.len() ==> (#[trigger] routes[a]).len() < (#[trigger] routes[b]).len() || (
        routes[a].len() == routes[b].len() && positions_before(
            route_positions(g, start, routes[a]),
            route_positions(g, start, routes[b]),
        ))
    &&& forall|k: int, s: Seq<(Seq<char>, Seq<char>)>|
        #![trigger is_route(g, start, s, found[k])]
        0 <= k < found.len() && is_route(g, start, s, found[k]) && s.len() == routes[k].len()
            ==> !positions_before(route_positions(g, start, s), route_positions(g, start, routes[k]))
}

proof fn lemma_order_start(g: Seq<(Seq<char>, Seq<(Seq<char>, Seq<char>)>)>, start: Seq<char>)
    ensures
        search_order(g, start, seq![start], seq![seq![]], seq![0], 0, 0),
{
    reveal(search_order);
}

proof fn lemma_order_skip(
    g: Seq<(Seq<char>, Seq<(Seq<char>, Seq<char>)>)>,
    start: Seq<char>,
    found: Seq<Seq<char>>,
    routes: Seq<Seq<(Seq<char>, Seq<char>)>>,
    parents: Seq<int>,
    head: int,
    j: int,
)
    requires
        search_order(g, start, found, routes, parents, head, j),
    ensures
        search_order(g, start, found, routes, parents, head, j + 1),
{
    reveal(search_order);
}

proof fn lemma_order_advance(
    g: Seq<(Seq<char>, Seq<(Seq<char>, Seq<char>)>)>,
    start: Seq<char>,
    found: Seq<Seq<char>>,
    routes: Seq<Seq<(Seq<char>, Seq<char>)>>,
    parents: Seq<int>,
    head: int,
    j: int,
)
    requires
        search_order(g, start, found, routes, parents, head, j),
    ensures
        search_order(g, start, found, routes, parents, head + 1, 0),
{
    reveal(search_order);
}

proof fn lemma_order_found(
    g: Seq<(Seq<char>, Seq<(Seq<char>, Seq<char>)>)>,
    start: Seq<char>,
    found: Seq<Seq<char>>,
    routes: Seq<Seq<(Seq<char>, Seq<char>)>>,
    parents: Seq<int>,
    head: int,
    j: int,
)
    requires
        search_order(g, start, found, routes, parents, head, j),
        0 <= head < found.len(),
    ensures
        forall|s: Seq<(Seq<char>, Seq<char>)>|
            is_route(g, start, s, found[head]) && s.len() == routes[head].len() ==> !positions_before(
                #[trigger] route_positions(g, start, s),
                route_positions(g, start, routes[head]),
            ),
{
    reveal(search_order);
    assert forall|s: Seq<(Seq<char>, Seq<char>)>|
        is_route(g, start, s, found[head]) && s.len() == routes[head].len() implies !positions_before(
        #[trigger] route_positions(g, start, s),
        route_positions(g, start, routes[head]),
    ) by {
        assert(is_route(g, start, s, found[head]));
    }
}

/// The route to a location found from `found[head]` by move `j` (the first
/// move there to a location not found before) stands where its last move
/// is, after the places of the route to `found[head]`.
proof fn lemma_new_route_positions(
    g: Seq<(Seq<char>, Seq<(Seq<char>, Seq<char>)>)>,
    start: Seq<char>,
    found: Seq<Seq<char>>,
    routes: Seq<Seq<(Seq<char>, Seq<char>)>>,
    head: int,
    j: int,
)
    requires
        0 <= head < found.len() == routes.len(),
        is_route(g, start, routes[head], found[head]),
        0 <= j < graph_edges(g, found[head]).len(),
        !found.contains(graph_edges(g, found[head])[j].0),
        forall|k: int| 0 <= k < j ==> found.contains(#[trigger] graph_edges(g, found[head])[k].0),
    ensures
        ({
            let nr = routes[head].push(graph_edges(g, found[head])[j]);
            &&& nr.drop_last() == routes[head]
            &&& route_positions(g, start, nr).drop_last() == route_positions(g, start, routes[head])
            &&& route_positions(g, start, nr).last() == j
        }),
{
    let edges = graph_edges(g, found[head]);
    let e = edges[j];
    let rh = routes[head];
    let nr = rh.push(e);
    assert(nr.drop_last() =~= rh);
    lemma_route_positions_prefix(g, start, nr);
    assert(step_origin(start, nr, rh.len() as int) == found[head]) by {
        if rh.len() > 0 {
            assert(nr[rh.len() - 1] == rh.last());
        }
    }
    assert forall|k: int| 0 <= k < j implies !same_step(e)(#[trigger] edges[k]) by {
        if edges[k] == e {
            assert(found.contains(edges[k].0));
        }
    }
    crate::table::lemma_first_index_scan(edges, same_step(e), j);
}

/// A location found from `found[head]` by move `j` is reached by the route
/// that comes first among the routes of that length to it.
proof fn lemma_order_new_first(
    g: Seq<(Seq<char>, Seq<(Seq<char>, Seq<char>)>)>,
    start: Seq<char>,
    goal: Seq<char>,
    found: Seq<Seq<char>>,
    paths: Seq<Seq<Seq<char>>>,
    routes: Seq<Seq<(Seq<char>, Seq<char>)>>,
    parents: Seq<int>,
    head: int,
    j: int,
    s: Seq<(Seq<char>, Seq<char>)>,
)
    requires
        search_state(g, start, goal, found, paths, routes, head),
        search_order(g, start, found, routes, parents, head, j),
        0 <= head < found.len(),
        0 <= j < graph_edges(g, found[head]).len(),
        !found.contains(graph_edges(g, found[head])[j].0),
        forall|k: int| 0 <= k < j ==> found.contains(#[trigger] graph_edges(g, found[head])[k].0),
        is_route(g, start, s, graph_edges(g, found[head])[j].0),
        s.len() == routes[head].len() + 1,
    ensures
        !positions_before(
            route_positions(g, start, s),
            route_positions(g, start, routes[head].push(graph_edges(g, found[head])[j])),
        ),
{
    reveal(search_state);
    reveal(search_order);
    let edges = graph_edges(g, found[head]);
    let nr = routes[head].push(edges[j]);
    lemma_new_route_positions(g, start, found, routes, head, j);
    let n = s.len() - 1;
    let sd = s.drop_last();
    let u = route_end(start, sd);
    assert forall|i: int| 0 <= i < sd.len() implies graph_edges(g, step_origin(start, sd, i)).contains(
        #[trigger] sd[i],
    ) by {
        assert(sd[i] == s[i]);
        assert(step_origin(start, sd, i) == step_origin(start, s, i));
    }
    assert(step_origin(start, s, n) == u) by {
        if n > 0 {
            assert(sd[n - 1] == s[n - 1]);
        }
    }
    assert(is_route(g, start, sd, u));
    lemma_search_points_found(g, start, goal, found, paths, routes, head, sd, sd.len() as int);
    assert(step_origin(start, sd, sd.len() as int) == u);
    let q = choose|q: int|
        0 <= q < found.len() && found[q] == step_origin(start, sd, sd.len() as int) && routes[q].len()
            <= sd.len();
    assert(graph_edges(g, u).contains(s[n]));
    lemma_step_position_found(g, start, s, n);
    let a = step_position(g, start, s, n);
    assert(s[n].0 == edges[j].0);
    if q < head {
        assert(found.contains(graph_edges(g, found[q])[a].0));
    }
    assert(routes[head].len() <= routes[q].len());
    assert(is_route(g, start, sd, found[q]));
    assert(!positions_before(route_positions(g, start, sd), route_positions(g, start, routes[q])));
    lemma_route_positions_prefix(g, start, s);
    if positions_before(route_positions(g, start, s), route_positions(g, start, nr)) {
        if positions_before(route_positions(g, start, sd), route_positions(g, start, routes[head])) {
            if q != head {
                assert(positions_before(
                    route_positions(g, start, routes[head]),
                    route_positions(g, start, routes[q]),
                ));
                lemma_positions_before_transitive(
                    route_positions(g, start, sd),
                    route_positions(g, start, routes[head]),
                    route_positions(g, start, routes[q]),
                );
            }
        } else {
            assert(is_route(g, start, routes[head], found[head]));
            lemma_route_positions_injective(g, start, sd, routes[head]);
            assert(u == found[head]);
            assert(found.contains(edges[a].0));
        }
    }
}

/// Taking up the location move `j` of `found[head]` leads to (when not
/// found before, and every earlier move there leads to a found location)
/// keeps the search order.
proof fn lemma_order_push(
    g: Seq<(Seq<char>, Seq<(Seq<char>, Seq<char>)>)>,
    start: Seq<char>,
    goal: Seq<char>,
    found: Seq<Seq<char>>,
    paths: Seq<Seq<Seq<char>>>,
    routes: Seq<Seq<(Seq<char>, Seq<char>)>>,
    parents: Seq<int>,
    head: int,
    j: int,
)
    requires
        search_state(g, start, goal, found, paths, routes, head),
        search_order(g, start, found, routes, parents, head, j),
        0 <= head < found.len(),
        0 <= j < graph_edges(g, found[head]).len(),
        !found.contains(graph_edges(g, found[head])[j].0),
        forall|k: int| 0 <= k < j ==> found.contains(#[trigger] graph_edges(g, found[head])[k].0),
    ensures
        ({
            let e = graph_edges(g, found[head])[j];
            search_order(
                g,
                start,
                found.push(e.0),
                routes.push(routes[head].push(e)),
                parents.push(head),
                head,
                j + 1,
            )
        }),
{
    reveal(search_state);
    reveal(search_order);
    let edges = graph_edges(g, found[head]);
    let e = edges[j];
    let rh = routes[head];
    let nr = rh.push(e);
    let n = found.len() as int;
    let f2 = found.push(e.0);
    let r2 = routes.push(nr);
    let p2 = parents.push(head);
    let len = rh.len();
    lemma_new_route_positions(g, start, found, routes, head, j);
    let pn = route_positions(g, start, nr);
    assert forall|k: int| 1 <= k < f2.len() implies {
        &&& 0 <= #[trigger] p2[k] < k
        &&& r2[k].len() >= 1
        &&& r2[k].drop_last() == r2[p2[k]]
        &&& (p2[k] < head || (p2[k] == head && route_positions(g, start, r2[k]).last() < j + 1))
    } by {
        if k < n {
            assert(p2[k] == parents[k]);
            assert(r2[k] == routes[k]);
            assert(r2[p2[k]] == routes[parents[k]]);
        } else {
            assert(p2[k] == head);
            assert(r2[k] == nr);
            assert(r2[head] == rh);
        }
    }
    assert forall|a: int, b: int| 0 <= a < b < f2.len() implies (#[trigger] r2[a]).len() < (
    #[trigger] r2[b]).len() || (r2[a].len() == r2[b].len() && positions_before(
        route_positions(g, start, r2[a]),
        route_positions(g, start, r2[b]),
    )) by {
        assert(r2[a] == routes[a]);
        if b < n {
            assert(r2[b] == routes[b]);
        } else {
            assert(r2[b] == nr);
            assert(routes[a].len() <= len + 1);
            if routes[a].len() == len + 1 {
                assert(a >= 1);
                let pa = parents[a];
                assert(routes[a].drop_last() == routes[pa]);
                lemma_route_positions_prefix(g, start, routes[a]);
                if pa < head {
                    assert(routes[pa].len() == len);
                    assert(positions_before(
                        route_positions(g, start, routes[pa]),
                        route_positions(g, start, routes[head]),
                    ));
                }
                assert(positions_before(route_positions(g, start, routes[a]), pn));
            }
        }
    }
    assert forall|k: int, s: Seq<(Seq<char>, Seq<char>)>|
        #![trigger is_route(g, start, s, f2[k])]
        0 <= k < f2.len() && is_route(g, start, s, f2[k]) && s.len() == r2[k].len() implies !positions_before(
        route_positions(g, start, s),
        route_positions(g, start, r2[k]),
    ) by {
        if k < n {
            assert(f2[k] == found[k]);
            assert(r2[k] == routes[k]);
            assert(is_route(g, start, s, found[k]));
        } else {
            assert(f2[k] == e.0);
            assert(r2[k] == nr);
            lemma_order_new_first(g, start, goal, found, paths, routes, parents, head, j, s);
        }
    }
}

/// The commands of each path.
pub open spec fn paths_view(paths: Seq<Vec<String>>) -> Seq<Seq<Seq<char>>> {
    paths.map_values(|p: Vec<String>| p.deep_view())
}

/// Whether `steps` is a shortest route from `start` to `goal` by known
/// moves, and of those the first: no route of its length to `goal` has
/// moves that come before its own.
pub open spec fn first_shortest_route(
    g: Seq<(Seq<char>, Seq<(Seq<char>, Seq<char>)>)>,
    start: Seq<char>,
    steps: Seq<(Seq<char>, Seq<char>)>,
    goal: Seq<char>,
) -> bool {
    &&& is_route(g, start, steps, goal)
    &&& forall|other: Seq<(Seq<char>, Seq<char>)>|
        #[trigger] is_route(g, start, other, goal) ==> steps.len() <= other.len()
    &&& forall|other: Seq<(Seq<char>, Seq<char>)>|
        is_route(g, start, other, goal) && other.len() == steps.len() ==> !positions_before(
            #[trigger] route_positions(g, start, other),
            route_positions(g, start, steps),
        )
}

proof fn lemma_positions_before_total(a: Seq<int>, b: Seq<int>)
    requires
        a.len() == b.len(),
    ensures
        a == b || positions_before(a, b) || positions_before(b, a),
    decreases a.len(),
{
    if a.len() == 0 {
        assert(a =~= b);
    } else {
        lemma_positions_before_total(a.drop_last(), b.drop_last());
        if a.drop_last() == b.drop_last() && a.last() == b.last() {
            assert(a =~= a.drop_last().push(a.last()));
            assert(b =~= b.drop_last().push(b.last()));
        }
    }
}

/// At most one route is the first of the shortest routes between two
/// locations: which route the search gives is fixed by the known moves
/// and their order.
pub proof fn lemma_first_shortest_route_unique(
    g: Seq<(Seq<char>, Seq<(Seq<char>, Seq<char>)>)>,
    start: Seq<char>,
    goal: Seq<char>,
    s: Seq<(Seq<char>, Seq<char>)>,
    t: Seq<(Seq<char>, Seq<char>)>,
)
    requires
        first_shortest_route(g, start, s, goal),
        first_shortest_route(g, start, t, goal),
    ensures
        s == t,
{
    assert(is_route(g, start, s, goal));
    assert(is_route(g, start, t, goal));
    lemma_positions_before_total(route_positions(g, start, s), route_positions(g, start, t));
    lemma_route_positions_injective(g, start, s, t);
}

/// A route from `start` to `goal` by known moves, breadth first: the
/// commands of a shortest one when `goal` can be reached, `None` when it
/// cannot. Among the shortest routes it is the one whose moves come first
/// among the known moves of the locations they leave.
pub fn route_between(graph: &RouteGraph, start: &String, goal: &String) -> (r: Option<Vec<String>>)
    ensures
        start@ == goal@ ==> (r matches Some(cmds) && cmds@.len() == 0),
        match r {
            Some(cmds) => {
                &&& exists|steps: Seq<(Seq<char>, Seq<char>)>|
                    first_shortest_route(graph@, start@, steps, goal@) && cmds.deep_view()
                        == route_commands(steps)
                &&& forall|other: Seq<(Seq<char>, Seq<char>)>|
                    #[trigger] is_route(graph@, start@, other, goal@) ==> cmds@.len()
                        <= other.len()
            },
            None => !reachable(graph@, start@, goal@),
        },
{
    let ghost g = graph@;
    assert(is_route(g, start@, Seq::<(Seq<char>, Seq<char>)>::empty(), start@));
    let mut seen: Vec<String> = Vec::new();
    let mut paths: Vec<Vec<String>> = Vec::new();
    let ghost mut routes: Seq<Seq<(Seq<char>, Seq<char>)>> = seq![seq![]];
    let ghost mut parents: Seq<int> = seq![0];
    seen.push(start.clone());
    paths.push(Vec::new());
    proof {
        lemma_search_start(g, start@, goal@);
        lemma_order_start(g, start@);
        assert(seen.deep_view() =~= seq![start@]);
        assert(paths@[0].deep_view() =~= Seq::<Seq<char>>::empty());
        assert(paths_view(paths@) =~= seq![Seq::<Seq<char>>::empty()]);
    }
    let mut head: usize = 0;
    while head < seen.len()
        invariant
            g == graph@,
            search_state(g, start@, goal@, seen.deep_view(), paths_view(paths@), routes, head as int),
            search_order(g, start@, seen.deep_view(), routes, parents, head as int, 0),
        decreases 1 + all_destinations(g).len() - head,
    {
        proof {
            lemma_search_bound(g, start@, goal@, seen.deep_view(), paths_view(paths@), routes, head as int);
        }
        assert(seen.deep_view()[head as int] == seen@[head as int]@);
        if seen[head] == *goal {
            proof {
                lemma_search_found(g, start@, goal@, seen.deep_view(), paths_view(paths@), routes, head as int);
                lemma_search_shortest(g, start@, goal@, seen.deep_view(), paths_view(paths@), routes, head as int);
                lemma_order_found(g, start@, seen.deep_view(), routes, parents, head as int, 0);
                assert(first_shortest_route(g, start@, routes[head as int], goal@));
                assert(is_route(g, start@, Seq::<(Seq<char>, Seq<char>)>::empty(), start@));
                assert(paths_view(paths@)[head as int] == paths@[head as int].deep_view());
                assert(paths@[head as int].deep_view().len() == routes[head as int].len());
            }
            let found = copy_strings(&paths[head]);
            return Some(found);
        }
        let node = seen[head].clone();
        match graph_index(graph, &node) {
            Some(gi) => {
                proof {
                    crate::table::lemma_key_index_bounds(g, node@);
                }
                let ghost edges = g[gi as int].1;
                assert(graph_edges(g, node@) == edges);
                let n = graph.nodes[gi].1.len();
                assert(edges.len() == n);
                let mut j: usize = 0;
                while j < n
                    invariant
                        g == graph@,
                        0 <= gi < g.len(),
                        edges == g[gi as int].1,
                        graph_edges(g, node@) == edges,
                        n == edges.len() == graph.nodes@[gi as int].1@.len(),
                        0 <= j <= n,
                        0 <= head < seen@.len(),
                        seen.deep_view()[head as int] == node@,
                        search_state(
                            g,
                            start@,
                            goal@,
                            seen.deep_view(),
                            paths_view(paths@),
                            routes,
                            head as int,
                        ),
                        forall|k: int| 0 <= k < j ==> seen.deep_view().contains(#[trigger] edges[k].0),
                        search_order(g, start@, seen.deep_view(), routes, parents, head as int, j as int),
                    decreases n - j,
                {
                    let next = &graph.nodes[gi].1[j].0;
                    let command = &graph.nodes[gi].1[j].1;
                    assert(edges[j as int] == (next@, command@));
                    let already = strings_contain(&seen, next);
                    let ghost before_push_contains = already;
                    if !already {
                        let ghost before = seen.deep_view();
                        let ghost pv = paths_view(paths@);
                        proof {
                            lemma_search_bound(g, start@, goal@, before, pv, routes, head as int);
                            lemma_search_push(g, start@, goal@, before, pv, routes, head as int, j as int);
                            lemma_order_push(g, start@, goal@, before, pv, routes, parents, head as int, j as int);
                            assert(pv[head as int] == paths@[head as int].deep_view());
                        }
                        let mut path = copy_strings(&paths[head]);
                        let ghost copied = path.deep_view();
                        path.push(command.clone());
                        assert(path.deep_view() =~= copied.push(command@));
                        seen.push(next.clone());
                        paths.push(path);
                        proof {
                            routes = routes.push(routes[head as int].push((next@, command@)));
                            parents = parents.push(head as int);
                            assert(seen.deep_view() =~= before.push(next@));
                            assert(paths_view(paths@) =~= pv.push(pv[head as int].push(command@)));
                            assert forall|k: int| 0 <= k <= j implies seen.deep_view().contains(
                                #[trigger] edges[k].0,
                            ) by {
                                if k < j {
                                    lemma_push_keeps(before, next@, edges[k].0);
                                } else {
                                    assert(seen.deep_view()[before.len() as int] == edges[k].0);
                                }
                            }
                            assert(seen.deep_view()[head as int] == before[head as int]);
                        }
                    }
                    proof {
                        if before_push_contains {
                            lemma_order_skip(g, start@, seen.deep_view(), routes, parents, head as int, j as int);
                        }
                    }
                    j += 1;
                }
                proof {
                    lemma_order_advance(g, start@, seen.deep_view(), routes, parents, head as int, j as int);
                    lemma_search_advance(
                        g,
                        start@,
                        goal@,
                        seen.deep_view(),
                        paths_view(paths@),
                        routes,
                        head as int,
                    );
                }
            },
            None => {
                proof {
                    crate::table::lemma_key_index_bounds(g, node@);
                    assert(graph_edges(g, node@) =~= Seq::<(Seq<char>, Seq<char>)>::empty());
                    lemma_order_advance(g, start@, seen.deep_view(), routes, parents, head as int, 0);
                    lemma_search_advance(
                        g,
                        start@,
                        goal@,
                        seen.deep_view(),
                        paths_view(paths@),
                        routes,
                        head as int,
                    );
                }
            },
        }
        head += 1;
    }
    proof {
        lemma_search_bound(g, start@, goal@, seen.deep_view(), paths_view(paths@), routes, head as int);
        assert(seen.deep_view().len() == head);
        lemma_search_exhausted(g, start@, goal@, seen.deep_view(), paths_view(paths@), routes);
    }
    None
}


// ---------------------------------------------------------------------------
// Choosing the next command plan
// ---------------------------------------------------------------------------

pub struct CommandPlanView {
    pub commands: Seq<Seq<char>>,
    pub route_commands: Seq<Seq<char>>,
    pub frontier_action_command: Seq<char>,
    pub start_location_key: Seq<char>,
    pub frontier_source_location_key: Seq<char>,
    pub selected_frontier_action_id: Seq<char>,
    pub reason: Seq<char>,
}

impl View for CommandPlan {
    type V = CommandPlanView;

    open spec fn view(&self) -> CommandPlanView {
        CommandPlanView {
            commands: self.commands.deep_view(),
            route_commands: self.route_commands.deep_view(),
            frontier_action_command: self.frontier_action_command@,
            start_location_key: self.start_location_key@,
            frontier_source_location_key: self.frontier_source_location_key@,
            selected_frontier_action_id: self.selected_frontier_action_id@,
            reason: self.reason@,
        }
    }
}

pub struct DecisionView {
    pub kind: PlannerDecisionKind,
    pub plan: Option<CommandPlanView>,
    pub reason: Seq<char>,
}

impl View for PlannerDecision {
    type V = DecisionView;

    open spec fn view(&self) -> DecisionView {
        DecisionView {
            kind: self.kind,
            plan: match self.plan {
                Some(p) => Some(p@),
                None => None,
            },
            reason: self.reason@,
        }
    }
}

/// A pending action whose move starts at `current`.
pub open spec fn pending_at(current: Seq<char>) -> spec_fn(FrontierActionView) -> bool {
    |a: FrontierActionView| a.status == FrontierStatus::Pending && a.source_location_key == current
}

/// A pending action whose move starts where known moves lead from `current`.
pub open spec fn pending_reachable(
    g: Seq<(Seq<char>, Seq<(Seq<char>, Seq<char>)>)>,
    current: Seq<char>,
) -> spec_fn(FrontierActionView) -> bool {
    |a: FrontierActionView|
        a.status == FrontierStatus::Pending && reachable(g, current, a.source_location_key)
}

/// A pending action.
pub open spec fn is_pending() -> spec_fn(FrontierActionView) -> bool {
    |a: FrontierActionView| a.status == FrontierStatus::Pending
}

/// The action the planner takes up at `current`: the first pending one
/// there, else the first pending one that known moves reach.
pub open spec fn selected_action(
    f: Seq<FrontierActionView>,
    g: Seq<(Seq<char>, Seq<(Seq<char>, Seq<char>)>)>,
    current: Seq<char>,
) -> Option<int> {
    match first_index(f, pending_at(current)) {
        Some(i) => Some(i),
        None => first_index(f, pending_reachable(g, current)),
    }
}

/// Whether a plan takes up action `i` from `current`: a shortest route by known moves
/// to where the action starts (none when it starts at `current`), the one
/// whose moves come first among those of its length, then the action's
/// command.
pub open spec fn plan_fits(
    p: PlannerView,
    g: Seq<(Seq<char>, Seq<(Seq<char>, Seq<char>)>)>,
    current: Seq<char>,
    i: int,
    plan: CommandPlanView,
) -> bool {
    let a = p.frontier[i];
    &&& plan.start_location_key == current
    &&& plan.frontier_source_location_key == a.source_location_key
    &&& plan.frontier_action_command == a.command
    &&& plan.selected_frontier_action_id == a.id
    &&& plan.reason == "deterministic DFS frontier order"@
    &&& plan.commands == plan.route_commands.push(a.command)
    &&& exists|steps: Seq<(Seq<char>, Seq<char>)>|
        first_shortest_route(g, current, steps, a.source_location_key) && plan.route_commands
            == route_commands(steps)
    &&& forall|other: Seq<(Seq<char>, Seq<char>)>|
        #[trigger] is_route(g, current, other, a.source_location_key) ==> plan.route_commands.len()
            <= other.len()
    &&& a.source_location_key == current ==> plan.route_commands.len() == 0
}

/// Whether a decision is the one owed at `current`: blocked without a
/// current location; a plan for the selected action; blocked when pending
/// actions remain but none is reached; complete when none remains.
pub open spec fn decision_fits(
    p: PlannerView,
    g: Seq<(Seq<char>, Seq<(Seq<char>, Seq<char>)>)>,
    current: Seq<char>,
    d: DecisionView,
) -> bool {
    if current.len() == 0 {
        d == DecisionView {
            kind: PlannerDecisionKind::Blocked,
            plan: None,
            reason: "current location is unknown"@,
        }
    } else {
        match selected_action(p.frontier, g, current) {
            Some(i) => {
                &&& d.kind == PlannerDecisionKind::CommandPlan
                &&& d.reason == "selected pending frontier "@ + p.frontier[i].id
                &&& d.plan matches Some(plan) && plan_fits(p, g, current, i, plan)
            },
            None => if first_index(p.frontier, is_pending()) is Some {
                d == DecisionView {
                    kind: PlannerDecisionKind::Blocked,
                    plan: None,
                    reason: "pending frontier exists, but no known route reaches it"@,
                }
            } else {
                d == DecisionView {
                    kind: PlannerDecisionKind::Complete,
                    plan: None,
                    reason: "frontier exhausted"@,
                }
            },
        }
    }
}

/// The planner after a decision: a plan is counted.
pub open spec fn after_decision(p: PlannerView, d: DecisionView) -> PlannerView {
    if d.kind == PlannerDecisionKind::CommandPlan {
        PlannerView {
            stats: PlannerStats {
                generated_command_plans: (p.stats.generated_command_plans + 1) as usize,
                ..p.stats
            },
            ..p
        }
    } else {
        p
    }
}

impl DfsPlanner {
    fn first_pending_at(&self, current: &String) -> (r: Option<usize>)
        ensures
            match r {
                Some(i) => first_index(self@.frontier, pending_at(current@)) == Some(i as int),
                None => first_index(self@.frontier, pending_at(current@)) is None,
            },
    {
        let ghost f = self@.frontier;
        let ghost p = pending_at(current@);
        let mut i: usize = 0;
        while i < self.frontier.len()
            invariant
                0 <= i <= self.frontier@.len(),
                f == self@.frontier,
                p == pending_at(current@),
                forall|k: int| 0 <= k < i ==> !p(#[trigger] f[k]),
            decreases self.frontier@.len() - i,
        {
            assert(f[i as int] == self.frontier@[i as int]@);
            if self.frontier[i].status == FrontierStatus::Pending
                && self.frontier[i].source_location_key == *current {
                proof {
                    crate::table::lemma_first_index_scan(f, p, i as int);
                }
                return Some(i);
            }
            i += 1;
        }
        proof {
            crate::table::lemma_first_index_scan(f, p, f.len() as int);
        }
        None
    }

    fn any_pending(&self) -> (b: bool)
        ensures
            b == first_index(self@.frontier, is_pending()) is Some,
    {
        let ghost f = self@.frontier;
        let ghost p = is_pending();
        let mut i: usize = 0;
        while i < self.frontier.len()
            invariant
                0 <= i <= self.frontier@.len(),
                f == self@.frontier,
                p == is_pending(),
                forall|k: int| 0 <= k < i ==> !p(#[trigger] f[k]),
            decreases self.frontier@.len() - i,
        {
            assert(f[i as int] == self.frontier@[i as int]@);
            if self.frontier[i].status == FrontierStatus::Pending {
                proof {
                    crate::table::lemma_first_index_scan(f, p, i as int);
                }
                return true;
            }
            i += 1;
        }
        proof {
            crate::table::lemma_first_index_scan(f, p, f.len() as int);
        }
        false
    }

    fn first_reachable_pending(&self, graph: &RouteGraph, current: &String) -> (r: Option<
        (usize, Vec<String>),
    >)
        ensures
            match r {
                Some((i, cmds)) => {
                    &&& first_index(self@.frontier, pending_reachable(graph@, current@)) == Some(
                        i as int,
                    )
                    &&& exists|steps: Seq<(Seq<char>, Seq<char>)>|
                        first_shortest_route(
                            graph@,
                            current@,
                            steps,
                            self@.frontier[i as int].source_location_key,
                        ) && cmds.deep_view() == route_commands(steps)
                    &&& forall|other: Seq<(Seq<char>, Seq<char>)>|
                        #[trigger] is_route(
                            graph@,
                            current@,
                            other,
                            self@.frontier[i as int].source_location_key,
                        ) ==> cmds@.len() <= other.len()
                },
                None => first_index(self@.frontier, pending_reachable(graph@, current@)) is None,
            },
    {
        let ghost f = self@.frontier;
        let ghost p = pending_reachable(graph@, current@);
        let mut i: usize = 0;
        while i < self.frontier.len()
            invariant
                0 <= i <= self.frontier@.len(),
                f == self@.frontier,
                p == pending_reachable(graph@, current@),
                forall|k: int| 0 <= k < i ==> !p(#[trigger] f[k]),
            decreases self.frontier@.len() - i,
        {
            assert(f[i as int] == self.frontier@[i as int]@);
            if self.frontier[i].status == FrontierStatus::Pending {
                match route_between(graph, current, &self.frontier[i].source_location_key) {
                    Some(route) => {
                        proof {
                            crate::table::lemma_first_index_scan(f, p, i as int);
                        }
                        return Some((i, route));
                    },
                    None => {},
                }
            }
            i += 1;
        }
        proof {
            crate::table::lemma_first_index_scan(f, p, f.len() as int);
        }
        None
    }

    /// Looks at the world and decides what to do next: the commands that
    /// reach the first pending frontier action (one at the current location
    /// first, else the first that known moves reach) and try its move; or
    /// that exploration is blocked or complete.
    pub fn decide(&mut self, world: &WorldModel) -> (r: PlannerDecision)
        requires
            ids_in_bounds(old(self)@),
            old(self)@.stats.generated_command_plans < usize::MAX,
        ensures
            decision_fits(
                observe_world_view(old(self)@, world@),
                route_graph(world@.locations),
                trim(world@.current_location),
                r@,
            ),
            final(self)@ == after_decision(observe_world_view(old(self)@, world@), r@),
    {
        proof {
            lemma_observe_keeps(old(self)@, world@);
        }
        self.observe_world(world);
        let ghost p1 = self@;
        let current = location_key(world);
        if current.as_str().is_empty() {
            return PlannerDecision {
                kind: PlannerDecisionKind::Blocked,
                plan: None,
                reason: lit_string("current location is unknown"),
            };
        }
        let graph = known_route_graph(world);
        let ghost g = graph@;
        let selected: Option<(usize, Vec<String>)> = match self.first_pending_at(&current) {
            Some(i) => {
                proof {
                    crate::table::lemma_first_index_bounds(p1.frontier, pending_at(current@));
                    let empty = Seq::<(Seq<char>, Seq<char>)>::empty();
                    assert(is_route(g, current@, empty, current@));
                    assert forall|other: Seq<(Seq<char>, Seq<char>)>|
                        is_route(g, current@, other, current@) && other.len() == empty.len() implies !positions_before(
                        #[trigger] route_positions(g, current@, other),
                        route_positions(g, current@, empty),
                    ) by {}
                    assert(first_shortest_route(g, current@, empty, current@));
                }
                let no_route: Vec<String> = Vec::new();
                assert(no_route.deep_view() =~= route_commands(Seq::<(Seq<char>, Seq<char>)>::empty()));
                Some((i, no_route))
            },
            None => self.first_reachable_pending(&graph, &current),
        };
        match selected {
            None => {
                if self.any_pending() {
                    PlannerDecision {
                        kind: PlannerDecisionKind::Blocked,
                        plan: None,
                        reason: lit_string("pending frontier exists, but no known route reaches it"),
                    }
                } else {
                    PlannerDecision {
                        kind: PlannerDecisionKind::Complete,
                        plan: None,
                        reason: lit_string("frontier exhausted"),
                    }
                }
            },
            Some((index, route_commands)) => {
                proof {
                    crate::table::lemma_first_index_bounds(p1.frontier, pending_at(current@));
                    crate::table::lemma_first_index_bounds(p1.frontier, pending_reachable(g, current@));
                }
                let action = &self.frontier[index];
                assert(p1.frontier[index as int] == action@);
                let mut commands = copy_strings(&route_commands);
                let ghost copied = commands.deep_view();
                commands.push(action.command.clone());
                assert(commands.deep_view() =~= copied.push(action.command@));
                let mut reason = chars_of("selected pending frontier ");
                let id = chars_of(action.id.as_str());
                append_chars(&mut reason, id.as_slice());
                let plan = CommandPlan {
                    commands,
                    route_commands,
                    frontier_action_command: action.command.clone(),
                    start_location_key: current,
                    frontier_source_location_key: action.source_location_key.clone(),
                    selected_frontier_action_id: action.id.clone(),
                    reason: lit_string("deterministic DFS frontier order"),
                };
                let decision = PlannerDecision {
                    kind: PlannerDecisionKind::CommandPlan,
                    plan: Some(plan),
                    reason: string_of(reason.as_slice()),
                };
                self.stats.generated_command_plans = self.stats.generated_command_plans + 1;
                decision
            },
        }
    }
}


// ---------------------------------------------------------------------------
// One step of an exploration run
// ---------------------------------------------------------------------------

/// What an exploration run does next.
#[derive(Clone, Debug)]
pub enum DfsStep {
    /// The run ends after this message.
    Stop(String),
    /// The run fails with this error.
    Fail(String),
    /// `command` is sent to the game; `frontier_id` names the frontier
    /// action it tries, when the plan has no route before it.
    Run { command: String, frontier_id: Option<String> },
}

pub enum DfsStepView {
    Stop(Seq<char>),
    Fail(Seq<char>),
    Run { command: Seq<char>, frontier_id: Option<Seq<char>> },
}

impl View for DfsStep {
    type V = DfsStepView;

    open spec fn view(&self) -> DfsStepView {
        match self {
            DfsStep::Stop(m) => DfsStepView::Stop(m@),
            DfsStep::Fail(m) => DfsStepView::Fail(m@),
            DfsStep::Run { command, frontier_id } => DfsStepView::Run {
                command: command@,
                frontier_id: opt_view(*frontier_id),
            },
        }
    }
}

/// The error for the first command of a plan that the game would refuse or
/// that is not a canonical move, if any.
pub open spec fn plan_command_error(cs: Seq<Seq<char>>) -> Option<Seq<char>>
    decreases cs.len(),
{
    if cs.len() == 0 {
        None
    } else {
        match crate::game::checked_command(cs[0]) {
            Err(e) => Some(
                "invalid DFS command '"@ + cs[0] + "': "@ + crate::game::command_error_message(e),
            ),
            Ok(_) => if normalize_move(cs[0]) != Some(cs[0]) {
                Some("DFS command '"@ + cs[0] + "' is not canonical movement"@)
            } else {
                plan_command_error(cs.drop_first())
            },
        }
    }
}

/// The message a run stops with when its turns are used up.
pub open spec fn turn_budget_message() -> Seq<char> {
    "Stopping DFS strategy due to max-turn safety guard."@
}

/// What a run does after decision `d` with `turns` of `max_turns` used: it
/// stops when the turns are used up, when exploration is complete or
/// blocked; it fails on a plan that is missing, empty, or holds a command
/// the game refuses or that is not a canonical move; else it sends the
/// plan's first command, naming the frontier action when there is no route.
pub open spec fn dfs_step_spec(d: DecisionView, turns: usize, max_turns: usize) -> DfsStepView {
    if turns >= max_turns {
        DfsStepView::Stop(turn_budget_message())
    } else if d.kind == PlannerDecisionKind::Complete {
        DfsStepView::Stop("DFS complete: "@ + d.reason)
    } else if d.kind == PlannerDecisionKind::Blocked {
        DfsStepView::Stop("DFS blocked: "@ + d.reason)
    } else {
        match d.plan {
            None => DfsStepView::Fail("planner returned CommandPlan without a plan"@),
            Some(plan) => match plan_command_error(plan.commands) {
                Some(e) => DfsStepView::Fail(e),
                None => if plan.commands.len() == 0 {
                    DfsStepView::Fail("planner returned empty command plan"@)
                } else {
                    DfsStepView::Run {
                        command: plan.commands[0],
                        frontier_id: if plan.route_commands.len() == 0 {
                            Some(plan.selected_frontier_action_id)
                        } else {
                            None
                        },
                    }
                },
            },
        }
    }
}

fn concat_lit3(a: &str, b: &str, c: &str) -> (r: String)
    ensures
        r@ == a@ + b@ + c@,
{
    let mut v = chars_of(a);
    append_chars(&mut v, chars_of(b).as_slice());
    append_chars(&mut v, chars_of(c).as_slice());
    string_of(v.as_slice())
}

fn plan_error_of(commands: &Vec<String>) -> (r: Option<String>)
    ensures
        opt_view(r) == plan_command_error(commands.deep_view()),
{
    let ghost cs = commands.deep_view();
    let mut i: usize = 0;
    assert(cs.skip(0) =~= cs);
    while i < commands.len()
        invariant
            0 <= i <= commands@.len(),
            cs == commands.deep_view(),
            plan_command_error(cs) == plan_command_error(cs.skip(i as int)),
        decreases commands@.len() - i,
    {
        let c = &commands[i];
        assert(cs.skip(i as int)[0] == c@);
        assert(cs.skip(i as int).drop_first() =~= cs.skip(i + 1));
        match crate::game::validate_game_command(c.as_str()) {
            Err(e) => {
                let m = e.message();
                let head = concat_lit3("invalid DFS command '", c.as_str(), "': ");
                let r = concat_lit3(head.as_str(), m.as_str(), "");
                proof {
                    reveal_strlit("");
                }
                assert(r@ =~= "invalid DFS command '"@ + c@ + "': "@ + crate::game::command_error_message(e));
                return Some(r);
            },
            Ok(_) => {},
        }
        let canonical = match normalize_move_command(c.as_str()) {
            Some(n) => n == *c,
            None => false,
        };
        if !canonical {
            return Some(concat_lit3("DFS command '", c.as_str(), "' is not canonical movement"));
        }
        i += 1;
    }
    assert(cs.skip(commands@.len() as int) =~= Seq::<Seq<char>>::empty());
    None
}

/// What a run does after decision `d`, with `turns` of `max_turns` used.
pub fn dfs_step(d: &PlannerDecision, turns: usize, max_turns: usize) -> (r: DfsStep)
    ensures
        r@ == dfs_step_spec(d@, turns, max_turns),
        turns >= max_turns ==> r is Stop,
        r matches DfsStep::Run { command, frontier_id } ==> (d@.plan matches Some(plan) && command@
            == plan.commands[0] && (frontier_id is Some ==> plan.route_commands.len() == 0)),
{
    proof {
        reveal_strlit("");
    }
    if turns >= max_turns {
        return DfsStep::Stop(lit_string("Stopping DFS strategy due to max-turn safety guard."));
    }
    match d.kind {
        PlannerDecisionKind::Complete => {
            return DfsStep::Stop(concat_lit3("DFS complete: ", d.reason.as_str(), ""));
        },
        PlannerDecisionKind::Blocked => {
            return DfsStep::Stop(concat_lit3("DFS blocked: ", d.reason.as_str(), ""));
        },
        PlannerDecisionKind::CommandPlan => {},
    }
    let plan = match &d.plan {
        Some(p) => p,
        None => {
            return DfsStep::Fail(lit_string("planner returned CommandPlan without a plan"));
        },
    };
    if let Some(e) = plan_error_of(&plan.commands) {
        return DfsStep::Fail(e);
    }
    if plan.commands.len() == 0 {
        return DfsStep::Fail(lit_string("planner returned empty command plan"));
    }
    let frontier_id = if plan.route_commands.len() == 0 {
        Some(plan.selected_frontier_action_id.clone())
    } else {
        None
    };
    DfsStep::Run { command: plan.commands[0].clone(), frontier_id }
}

impl DfsPlanner {
    /// One step of an exploration run with `max_turns` turns: stops, with
    /// the planner unchanged, once the turns are used up; else decides (as
    /// `decide`) and says what to do with the decision (as `dfs_step`).
    pub fn next_dfs_step(&mut self, world: &WorldModel, max_turns: usize) -> (r: (
        Option<PlannerDecision>,
        DfsStep,
    ))
        requires
            ids_in_bounds(old(self)@),
            old(self)@.stats.generated_command_plans < usize::MAX,
        ensures
            old(self)@.stats.turns >= max_turns ==> {
                &&& final(self)@ == old(self)@
                &&& r.0 is None
                &&& r.1@ == DfsStepView::Stop(turn_budget_message())
            },
            old(self)@.stats.turns < max_turns ==> (r.0 matches Some(d) && {
                &&& decision_fits(
                    observe_world_view(old(self)@, world@),
                    route_graph(world@.locations),
                    trim(world@.current_location),
                    d@,
                )
                &&& final(self)@ == after_decision(observe_world_view(old(self)@, world@), d@)
                &&& r.1@ == dfs_step_spec(d@, old(self)@.stats.turns, max_turns)
            }),
    {
        let turns = self.stats.turns;
        if turns >= max_turns {
            return (
                None,
                DfsStep::Stop(lit_string("Stopping DFS strategy due to max-turn safety guard.")),
            );
        }
        let d = self.decide(world);
        let step = dfs_step(&d, turns, max_turns);
        (Some(d), step)
    }
}

// ---------------------------------------------------------------------------
// Recording a move in the world
// ---------------------------------------------------------------------------

/// Whether a step looks around before recording a move: after a move that
/// reached a new location and printed something.
pub open spec fn looks_after(c: ObservationClassification, observation: Seq<char>) -> bool {
    c == ObservationClassification::MovedToNewLocation && observation.len() > 0
}

/// Whether a step looks around before recording a move.
pub fn needs_look(c: ObservationClassification, observation: &str) -> (r: bool)
    ensures
        r == looks_after(c, observation@),
{
    c == ObservationClassification::MovedToNewLocation && !observation.is_empty()
}

/// The text a step records for a move: the `look` taken after a move to a
/// new location, where there is one, else the move's own output.
pub open spec fn recorded_text(c: ObservationClassification, observation: Seq<char>, look: Option<Seq<char>>) -> Seq<char> {
    match look {
        Some(l) => if c == ObservationClassification::MovedToNewLocation {
            l
        } else {
            observation
        },
        None => observation,
    }
}

/// The world after a step records its move; none where a count of the world
/// would pass the largest `usize`. A failed or blocked move puts the player
/// back at its source and is recorded as failed; a move without output
/// changes nothing; any other records its text, then the move from the
/// previous location to where that left the player.
pub open spec fn move_recorded(
    w: WorldView,
    source: Seq<char>,
    previous: Seq<char>,
    command: Seq<char>,
    c: ObservationClassification,
    observation: Seq<char>,
    look: Option<Seq<char>>,
) -> Option<WorldView> {
    if c == ObservationClassification::CommandFailedOrBlocked {
        let w1 = WorldView { current_location: source, ..w };
        let p = canon(w1, previous);
        if command_result_in_bounds(w1, p, command, None) {
            Some(with_command_result(w1, p, command, None))
        } else {
            None
        }
    } else if observation.len() == 0 {
        Some(w)
    } else {
        let text = recorded_text(c, observation, look);
        if !observe_in_bounds(w, text) {
            None
        } else {
            let w1 = observe(w, text);
            let destination = trim(w1.current_location);
            if command_result_in_bounds(w1, previous, command, Some(destination)) {
                Some(with_command_result(w1, previous, command, Some(destination)))
            } else {
                None
            }
        }
    }
}

/// The world where recording a move stops, a count being at the largest
/// `usize`: for a failed or blocked move, the world with the player back at
/// the source; for a text whose observation cannot be recorded, the world
/// as it was; else the world with the text observed, the move not counted.
pub open spec fn move_stopped(
    w: WorldView,
    source: Seq<char>,
    c: ObservationClassification,
    observation: Seq<char>,
    look: Option<Seq<char>>,
) -> WorldView {
    if c == ObservationClassification::CommandFailedOrBlocked {
        WorldView { current_location: source, ..w }
    } else {
        let text = recorded_text(c, observation, look);
        if observe_in_bounds(w, text) {
            observe(w, text)
        } else {
            w
        }
    }
}

/// Records a move in the world as `move_recorded` says, given the move's
/// output and the `look` taken after it, if any. False where a count would
/// overflow; the world then holds the part of the step `move_stopped` says.
pub fn record_move_outcome(
    world: &mut WorldModel,
    source: &str,
    previous: &str,
    command: &str,
    c: ObservationClassification,
    observation: &str,
    look: Option<&str>,
) -> (ok: bool)
    ensures
        ok == move_recorded(old(world)@, source@, previous@, command@, c, observation@, opt_str(look))
            is Some,
        ok ==> final(world)@ == move_recorded(
            old(world)@,
            source@,
            previous@,
            command@,
            c,
            observation@,
            opt_str(look),
        ).unwrap(),
        !ok ==> final(world)@ == move_stopped(old(world)@, source@, c, observation@, opt_str(look)),
{
    if c == ObservationClassification::CommandFailedOrBlocked {
        world.current_location = source.to_owned();
        let p = world.canonical_location_key(previous);
        if !world.can_record_command_result(p.as_str(), command, None) {
            return false;
        }
        world.apply_command_result(previous, command, true);
        return true;
    }
    if observation.is_empty() {
        return true;
    }
    let text = match look {
        Some(l) => if c == ObservationClassification::MovedToNewLocation {
            l
        } else {
            observation
        },
        None => observation,
    };
    if !world.can_record_observation(text) {
        return false;
    }
    world.update_from_observation(text);
    let destination = location_key(world);
    if !world.can_record_command_result(previous, command, Some(destination.as_str())) {
        return false;
    }
    world.apply_command_result_with_destination(previous, command, Some(destination.as_str()));
    true
}

// ---------------------------------------------------------------------------
// Laws
// ---------------------------------------------------------------------------

/// A blocked move leaves the player at the move's source, and what the game
/// answered never reaches the world: the recorded world is the same for any
/// answer text and any `look`.
pub proof fn lemma_blocked_move_keeps_source(
    w: WorldView,
    source: Seq<char>,
    previous: Seq<char>,
    command: Seq<char>,
    observation: Seq<char>,
    look: Option<Seq<char>>,
    other_observation: Seq<char>,
    other_look: Option<Seq<char>>,
)
    ensures
        move_recorded(w, source, previous, command, ObservationClassification::CommandFailedOrBlocked, observation, look)
            == move_recorded(
            w,
            source,
            previous,
            command,
            ObservationClassification::CommandFailedOrBlocked,
            other_observation,
            other_look,
        ),
        move_recorded(w, source, previous, command, ObservationClassification::CommandFailedOrBlocked, observation, look)
            matches Some(w2) ==> w2.current_location == source,
{
}



/// Every frontier action is for one of the canonical moves.
pub open spec fn frontier_moves_canonical(f: Seq<FrontierActionView>) -> bool {
    forall|i: int| 0 <= i < f.len() ==> canonical_move_names().contains(#[trigger] f[i].command)
}

proof fn lemma_add_moves_canonical(p: PlannerView, location: Seq<char>, moves: Seq<Seq<char>>, known: Seq<Seq<char>>)
    requires
        frontier_moves_canonical(p.frontier),
        forall|k: int| 0 <= k < moves.len() ==> canonical_move_names().contains(#[trigger] moves[k]),
    ensures
        frontier_moves_canonical(add_moves(p, location, moves, known).frontier),
    decreases moves.len(),
{
    if moves.len() > 0 {
        let rest = moves.drop_last();
        assert forall|k: int| 0 <= k < rest.len() implies canonical_move_names().contains(
            #[trigger] rest[k],
        ) by {
            assert(rest[k] == moves[k]);
        }
        lemma_add_moves_canonical(p, location, rest, known);
        let q = add_moves(p, location, rest, known);
        let r = add_move(q, location, moves.last(), known);
        assert(canonical_move_names().contains(moves[moves.len() - 1]));
        assert forall|i: int| 0 <= i < r.frontier.len() implies canonical_move_names().contains(
            #[trigger] r.frontier[i].command,
        ) by {
            if i < q.frontier.len() {
                assert(r.frontier[i] == q.frontier[i]);
            }
        }
    }
}

/// Looking at the world offers canonical moves only.
pub proof fn lemma_observe_keeps_moves_canonical(p: PlannerView, w: WorldView)
    requires
        frontier_moves_canonical(p.frontier),
    ensures
        frontier_moves_canonical(observe_world_view(p, w).frontier),
{
    let current = trim(w.current_location);
    if current.len() > 0 {
        let p1 = if p.visited_location_keys.contains(current) {
            p
        } else {
            PlannerView {
                visited_location_keys: p.visited_location_keys.push(current),
                dfs_stack: p.dfs_stack.push(current),
                ..p
            }
        };
        lemma_add_moves_canonical(p1, current, canonical_move_names(), known_moves(w, current));
    }
}

/// A new planner offers canonical moves only.
pub proof fn lemma_new_planner_moves_canonical(w: WorldView)
    ensures
        frontier_moves_canonical(observe_world_view(initial_planner_view(), w).frontier),
{
    lemma_observe_keeps_moves_canonical(initial_planner_view(), w);
}

/// Deciding offers no move that is not canonical.
pub proof fn lemma_decide_keeps_moves_canonical(p: PlannerView, w: WorldView, d: DecisionView)
    requires
        frontier_moves_canonical(p.frontier),
    ensures
        frontier_moves_canonical(after_decision(observe_world_view(p, w), d).frontier),
{
    lemma_observe_keeps_moves_canonical(p, w);
}

/// Applying the outcome of a move offers no move that is not canonical.
proof fn lemma_apply_keeps_moves_canonical_recorded(p: PlannerView, u: UpdateView, w: WorldView)
    requires
        frontier_moves_canonical(p.frontier),
    ensures
        frontier_moves_canonical(attempt_recorded_view(p, u, w).frontier),
{
    let moved = u.classification != ObservationClassification::CommandFailedOrBlocked;
    let turns = (p.stats.turns + 1) as usize;
    let stats = PlannerStats {
        turns: turns,
        executed_movement_commands: (p.stats.executed_movement_commands + 1) as usize,
        failed_moves: if moved {
            p.stats.failed_moves
        } else {
            (p.stats.failed_moves + 1) as usize
        },
        ..p.stats
    };
    let p1 = PlannerView { stats: stats, ..p };
    if moved {
        lemma_observe_keeps_moves_canonical(p1, w);
    }
    let r = attempt_recorded_view(p, u, w);
    let p2 = if moved {
        observe_world_view(p1, w)
    } else {
        p1
    };
    assert(frontier_moves_canonical(p2.frontier));
    match u.attempt.frontier_id {
        Some(id) => match first_index(p2.frontier, has_id(id)) {
            Some(i) => {
                crate::table::lemma_first_index_bounds(p2.frontier, has_id(id));
                assert forall|k: int| 0 <= k < r.frontier.len() implies canonical_move_names().contains(
                    #[trigger] r.frontier[k].command,
                ) by {
                    if k != i {
                        assert(r.frontier[k] == p2.frontier[k]);
                    } else {
                        assert(r.frontier[k].command == p2.frontier[k].command);
                    }
                }
            },
            None => {},
        },
        None => {},
    }
}

/// A command that names a movement names a canonical one.
proof fn lemma_normalized_move_is_canonical(command: Seq<char>)
    ensures
        normalize_move(command) matches Some(c) ==> canonical_move_names().contains(c),
{
    let names = canonical_move_names();
    assert(names[0] == "north"@);
    assert(names[1] == "south"@);
    assert(names[2] == "east"@);
    assert(names[3] == "west"@);
    assert(names[4] == "northeast"@);
    assert(names[5] == "northwest"@);
    assert(names[6] == "southeast"@);
    assert(names[7] == "southwest"@);
    assert(names[8] == "up"@);
    assert(names[9] == "down"@);
    assert(names[10] == "in"@);
    assert(names[11] == "out"@);
}

/// Every move known from an exit list is a canonical move.
proof fn lemma_exit_edges_canonical(exits: Seq<ExitView>)
    ensures
        forall|k: int|
            0 <= k < exit_edges(exits).len() ==> canonical_move_names().contains(
                (#[trigger] exit_edges(exits)[k]).1,
            ),
    decreases exits.len(),
{
    if exits.len() > 0 {
        lemma_exit_edges_canonical(exits.drop_last());
        lemma_normalized_move_is_canonical(exits.last().direction);
        let rest = exit_edges(exits.drop_last());
        assert forall|k: int| 0 <= k < exit_edges(exits).len() implies canonical_move_names().contains(
            (#[trigger] exit_edges(exits)[k]).1,
        ) by {
            if k < rest.len() {
                assert(exit_edges(exits)[k] == rest[k]);
            }
        }
    }
}

/// Every move of a route by known moves is a canonical move.
proof fn lemma_route_moves_canonical(
    locs: Seq<(Seq<char>, LocationView)>,
    start: Seq<char>,
    steps: Seq<(Seq<char>, Seq<char>)>,
    goal: Seq<char>,
)
    requires
        is_route(route_graph(locs), start, steps, goal),
    ensures
        forall|k: int| 0 <= k < steps.len() ==> canonical_move_names().contains(#[trigger] steps[k].1),
{
    let g = route_graph(locs);
    assert forall|k: int| 0 <= k < steps.len() implies canonical_move_names().contains(
        #[trigger] steps[k].1,
    ) by {
        let origin = step_origin(start, steps, k);
        assert(graph_edges(g, origin).contains(steps[k]));
        crate::table::lemma_key_index_bounds(g, origin);
        match crate::table::key_index(g, origin) {
            Some(n) => {
                assert(g[n].1 == exit_edges(locs[n].1.exits));
                lemma_exit_edges_canonical(locs[n].1.exits);
                let j = choose|j: int|
                    0 <= j < graph_edges(g, origin).len() && graph_edges(g, origin)[j] == steps[k];
                assert(exit_edges(locs[n].1.exits)[j] == steps[k]);
            },
            None => {},
        }
    }
}

/// Exploration plans use canonical moves only: every command of a plan,
/// along the route and for the action at its end, is one of the canonical
/// moves.
pub proof fn lemma_plans_use_canonical_moves(p: PlannerView, w: WorldView, d: DecisionView)
    requires
        frontier_moves_canonical(p.frontier),
        decision_fits(observe_world_view(p, w), route_graph(w.locations), trim(w.current_location), d),
    ensures
        d.plan matches Some(plan) ==> forall|k: int|
            0 <= k < plan.commands.len() ==> canonical_move_names().contains(#[trigger] plan.commands[k]),
{
    lemma_observe_keeps_moves_canonical(p, w);
    let q = observe_world_view(p, w);
    let g = route_graph(w.locations);
    let current = trim(w.current_location);
    if current.len() > 0 {
        match selected_action(q.frontier, g, current) {
            Some(i) => {
                let plan = d.plan.unwrap();
                crate::table::lemma_first_index_bounds(q.frontier, pending_at(current));
                crate::table::lemma_first_index_bounds(q.frontier, pending_reachable(g, current));
                assert(0 <= i < q.frontier.len());
                let steps = choose|steps: Seq<(Seq<char>, Seq<char>)>|
                    is_route(g, current, steps, q.frontier[i].source_location_key)
                        && plan.route_commands == route_commands(steps);
                lemma_route_moves_canonical(w.locations, current, steps, q.frontier[i].source_location_key);
                assert forall|k: int| 0 <= k < plan.commands.len() implies canonical_move_names().contains(
                    #[trigger] plan.commands[k],
                ) by {
                    if k < plan.route_commands.len() {
                        assert(plan.commands[k] == steps[k].1);
                    } else {
                        assert(plan.commands[k] == q.frontier[i].command);
                    }
                }
            },
            None => {},
        }
    }
}

/// A blocked move from a known location creates no location: the world's
/// locations keep their keys, in order.
pub proof fn lemma_blocked_move_creates_no_location(
    w: WorldView,
    source: Seq<char>,
    previous: Seq<char>,
    command: Seq<char>,
    observation: Seq<char>,
    look: Option<Seq<char>>,
)
    requires
        has_key(w.locations, previous),
        trim(previous) == previous,
    ensures
        move_recorded(w, source, previous, command, ObservationClassification::CommandFailedOrBlocked, observation, look)
            matches Some(w2) ==> {
            &&& w2.locations.len() == w.locations.len()
            &&& forall|j: int| 0 <= j < w.locations.len() ==> (#[trigger] w2.locations[j]).0 == w.locations[j].0
        },
{
    let w1 = WorldView { current_location: source, ..w };
    assert(canon(w1, previous) == previous);
    crate::table::lemma_key_index_bounds(w.locations, previous);
    let r = with_command_result(w1, previous, command, None);
    match crate::world::normalize_direction(command) {
        None => {},
        Some(dir) => {
            if trim(previous).len() > 0 {
                assert(canon(w1, previous) == previous);
                let i = crate::table::key_index(w.locations, previous).unwrap();
                assert(r.locations.len() == w.locations.len());
                assert forall|j: int| 0 <= j < w.locations.len() implies (#[trigger] r.locations[j]).0
                    == w.locations[j].0 by {
                    if j != i {
                        assert(r.locations[j] == w.locations[j]);
                    }
                }
            }
        },
    }
}

/// No two frontier actions are for the same command from the same location.
pub open spec fn frontier_pairs_unique(f: Seq<FrontierActionView>) -> bool {
    forall|i: int, j: int|
        #![trigger f[i], f[j]]
        0 <= i < f.len() && 0 <= j < f.len() && i != j ==> !(f[i].source_location_key
            == f[j].source_location_key && f[i].command == f[j].command)
}

/// A failed frontier action names no destination.
pub open spec fn failed_without_destination(f: Seq<FrontierActionView>) -> bool {
    forall|i: int|
        0 <= i < f.len() && (#[trigger] f[i]).status == FrontierStatus::Failed
            ==> f[i].expected_destination is None
}

/// What every planner state keeps: one frontier action per move and
/// location, no destination for a failed action, and each visited location
/// and attempted move recorded once.
pub open spec fn planner_wf(p: PlannerView) -> bool {
    &&& frontier_pairs_unique(p.frontier)
    &&& failed_without_destination(p.frontier)
    &&& p.visited_location_keys.no_duplicates()
    &&& p.attempted.no_duplicates()
}

proof fn lemma_add_move_wf(p: PlannerView, location: Seq<char>, command: Seq<char>, known: Seq<Seq<char>>)
    requires
        planner_wf(p),
    ensures
        planner_wf(add_move(p, location, command, known)),
{
    let q = add_move(p, location, command, known);
    if q.frontier.len() > p.frontier.len() {
        let f = q.frontier;
        let n = p.frontier.len() as int;
        assert forall|i: int, j: int|
            #![trigger f[i], f[j]]
            0 <= i < f.len() && 0 <= j < f.len() && i != j implies !(f[i].source_location_key
            == f[j].source_location_key && f[i].command == f[j].command) by {
            if i < n && j < n {
                assert(f[i] == p.frontier[i] && f[j] == p.frontier[j]);
            } else if i < n {
                assert(f[i] == p.frontier[i]);
            } else {
                assert(f[j] == p.frontier[j]);
            }
        }
        assert forall|i: int|
            0 <= i < f.len() && (#[trigger] f[i]).status == FrontierStatus::Failed
                implies f[i].expected_destination is None by {
            if i < n {
                assert(f[i] == p.frontier[i]);
            }
        }
    }
}

proof fn lemma_add_moves_wf(p: PlannerView, location: Seq<char>, moves: Seq<Seq<char>>, known: Seq<Seq<char>>)
    requires
        planner_wf(p),
    ensures
        planner_wf(add_moves(p, location, moves, known)),
    decreases moves.len(),
{
    if moves.len() > 0 {
        lemma_add_moves_wf(p, location, moves.drop_last(), known);
        lemma_add_move_wf(add_moves(p, location, moves.drop_last(), known), location, moves.last(), known);
    }
}

/// Looking at the world keeps the planner's invariant.
pub proof fn lemma_observe_preserves_wf(p: PlannerView, w: WorldView)
    requires
        planner_wf(p),
    ensures
        planner_wf(observe_world_view(p, w)),
{
    let current = trim(w.current_location);
    if current.len() > 0 {
        let p1 = if p.visited_location_keys.contains(current) {
            p
        } else {
            PlannerView {
                visited_location_keys: p.visited_location_keys.push(current),
                dfs_stack: p.dfs_stack.push(current),
                ..p
            }
        };
        assert(p1.visited_location_keys.no_duplicates()) by {
            let v = p1.visited_location_keys;
            if !p.visited_location_keys.contains(current) {
                assert forall|a: int, b: int| 0 <= a < v.len() && 0 <= b < v.len() && a != b implies v[a]
                    != v[b] by {
                    if a == v.len() - 1 {
                        assert(v[b] == p.visited_location_keys[b]);
                    } else if b == v.len() - 1 {
                        assert(v[a] == p.visited_location_keys[a]);
                    }
                }
            }
        }
        lemma_add_moves_wf(p1, current, canonical_move_names(), known_moves(w, current));
    }
}

/// A new planner keeps the invariant.
pub proof fn lemma_new_planner_wf(w: WorldView)
    ensures
        planner_wf(observe_world_view(initial_planner_view(), w)),
{
    lemma_observe_preserves_wf(initial_planner_view(), w);
}

/// Deciding keeps the planner's invariant.
pub proof fn lemma_decide_preserves_wf(p: PlannerView, w: WorldView, d: DecisionView)
    requires
        planner_wf(p),
    ensures
        planner_wf(after_decision(observe_world_view(p, w), d)),
{
    lemma_observe_preserves_wf(p, w);
}

/// Applying the outcome of a move keeps the planner's invariant.
proof fn lemma_apply_preserves_wf_recorded(p: PlannerView, u: UpdateView, w: WorldView)
    requires
        planner_wf(p),
    ensures
        planner_wf(attempt_recorded_view(p, u, w)),
{
    let moved = u.classification != ObservationClassification::CommandFailedOrBlocked;
    let turns = (p.stats.turns + 1) as usize;
    let stats = PlannerStats {
        turns: turns,
        executed_movement_commands: (p.stats.executed_movement_commands + 1) as usize,
        failed_moves: if moved {
            p.stats.failed_moves
        } else {
            (p.stats.failed_moves + 1) as usize
        },
        ..p.stats
    };
    let p1 = PlannerView { stats: stats, ..p };
    let p2 = if moved {
        observe_world_view(p1, w)
    } else {
        p1
    };
    if moved {
        lemma_observe_preserves_wf(p1, w);
    }
    let pair = (u.attempt.source_location_key, u.attempt.command);
    let a = pair_set_insert(p2.attempted, pair);
    assert(a.no_duplicates()) by {
        if !p2.attempted.contains(pair) {
            assert forall|x: int, y: int| 0 <= x < a.len() && 0 <= y < a.len() && x != y implies a[x]
                != a[y] by {
                if x == a.len() - 1 {
                    assert(a[y] == p2.attempted[y]);
                } else if y == a.len() - 1 {
                    assert(a[x] == p2.attempted[x]);
                }
            }
        }
    }
    let q = attempt_recorded_view(p, u, w);
    let p3 = PlannerView { attempted: a, ..p2 };
    let p4 = match u.blocked_reason {
        Some(reason) => PlannerView {
            blocked_edges: blocked_insert(
                p3.blocked_edges,
                pair.0,
                pair.1,
                BlockedEdgeView {
                    source_location_key: pair.0,
                    command: pair.1,
                    turn: turns as u64,
                    reason: reason,
                    raw_output_hash: u.raw_output_hash,
                },
            ),
            ..p3
        },
        None => p3,
    };
    assert(planner_wf(p4));
    if let Some(id) = u.attempt.frontier_id {
        if let Some(i) = first_index(p4.frontier, has_id(id)) {
            crate::table::lemma_first_index_bounds(p4.frontier, has_id(id));
            let f = q.frontier;
            let old_f = p4.frontier;
            assert(f == old_f.update(
                i,
                tried_action(old_f[i], turns, moved, u.current_location, u.blocked_reason),
            ));
            assert forall|x: int, y: int|
                #![trigger f[x], f[y]]
                0 <= x < f.len() && 0 <= y < f.len() && x != y implies !(f[x].source_location_key
                == f[y].source_location_key && f[x].command == f[y].command) by {
                assert(f[x].source_location_key == old_f[x].source_location_key);
                assert(f[x].command == old_f[x].command);
                assert(f[y].source_location_key == old_f[y].source_location_key);
                assert(f[y].command == old_f[y].command);
                assert(old_f[x] == old_f[x] && old_f[y] == old_f[y]);
            }
            assert forall|x: int|
                0 <= x < f.len() && (#[trigger] f[x]).status == FrontierStatus::Failed
                    implies f[x].expected_destination is None by {
                if x != i {
                    assert(f[x] == old_f[x]);
                }
            }
        }
    }
}

proof fn lemma_add_moves_appends(p: PlannerView, location: Seq<char>, moves: Seq<Seq<char>>, known: Seq<Seq<char>>)
    ensures
        ({
            let q = add_moves(p, location, moves, known);
            &&& q.frontier.len() >= p.frontier.len()
            &&& q.frontier.subrange(0, p.frontier.len() as int) == p.frontier
            &&& forall|i: int|
                p.frontier.len() <= i < q.frontier.len() ==> {
                    let a = #[trigger] q.frontier[i];
                    &&& a.status == FrontierStatus::Pending
                    &&& a.source_location_key == location
                    &&& !frontier_has(p.frontier, location, a.command)
                    &&& !p.attempted.contains((location, a.command))
                    &&& !blocked_has(p.blocked_edges, location, a.command)
                    &&& !known.contains(a.command)
                }
        }),
    decreases moves.len(),
{
    if moves.len() > 0 {
        let r = add_moves(p, location, moves.drop_last(), known);
        lemma_add_moves_appends(p, location, moves.drop_last(), known);
        lemma_add_moves_keeps(p, location, moves.drop_last(), known);
        let q = add_moves(p, location, moves, known);
        assert(q == add_move(r, location, moves.last(), known));
        if q.frontier.len() > r.frontier.len() {
            let c = moves.last();
            assert(!frontier_has(p.frontier, location, c)) by {
                if frontier_has(p.frontier, location, c) {
                    let k = choose|k: int|
                        0 <= k < p.frontier.len() && p.frontier[k].source_location_key == location
                            && p.frontier[k].command == c;
                    assert(r.frontier[k] == p.frontier[k]);
                }
            }
            assert forall|i: int| p.frontier.len() <= i < q.frontier.len() implies {
                let a = #[trigger] q.frontier[i];
                &&& a.status == FrontierStatus::Pending
                &&& a.source_location_key == location
                &&& !frontier_has(p.frontier, location, a.command)
                &&& !p.attempted.contains((location, a.command))
                &&& !blocked_has(p.blocked_edges, location, a.command)
                &&& !known.contains(a.command)
            } by {
                if i < r.frontier.len() {
                    assert(q.frontier[i] == r.frontier[i]);
                }
            }
            assert(q.frontier.subrange(0, p.frontier.len() as int) =~= p.frontier) by {
                assert forall|k: int| 0 <= k < p.frontier.len() implies q.frontier[k] == p.frontier[k] by {
                    assert(r.frontier[k] == p.frontier[k]);
                }
            }
        }
    } else {
        assert(p.frontier.subrange(0, p.frontier.len() as int) =~= p.frontier);
    }
}

/// Looking at the world only appends pending actions from the current
/// location, each for a move the frontier lacked that was neither attempted
/// nor refused, and whose destination the world does not already know.
pub proof fn lemma_observe_appends_untried(p: PlannerView, w: WorldView)
    ensures
        ({
            let q = observe_world_view(p, w);
            &&& q.frontier.len() >= p.frontier.len()
            &&& q.frontier.subrange(0, p.frontier.len() as int) == p.frontier
            &&& forall|i: int|
                p.frontier.len() <= i < q.frontier.len() ==> {
                    let a = #[trigger] q.frontier[i];
                    &&& a.status == FrontierStatus::Pending
                    &&& a.source_location_key == trim(w.current_location)
                    &&& !frontier_has(p.frontier, a.source_location_key, a.command)
                    &&& !p.attempted.contains((a.source_location_key, a.command))
                    &&& !blocked_has(p.blocked_edges, a.source_location_key, a.command)
                    &&& !known_moves(w, a.source_location_key).contains(a.command)
                }
        }),
{
    let current = trim(w.current_location);
    if current.len() > 0 {
        let p1 = if p.visited_location_keys.contains(current) {
            p
        } else {
            PlannerView {
                visited_location_keys: p.visited_location_keys.push(current),
                dfs_stack: p.dfs_stack.push(current),
                ..p
            }
        };
        lemma_add_moves_appends(p1, current, canonical_move_names(), known_moves(w, current));
    } else {
        assert(p.frontier.subrange(0, p.frontier.len() as int) =~= p.frontier);
    }
}

/// A move that failed or was refused adds no frontier action.
proof fn lemma_failed_move_adds_no_actions_recorded(p: PlannerView, u: UpdateView, w: WorldView)
    requires
        u.classification == ObservationClassification::CommandFailedOrBlocked,
    ensures
        attempt_recorded_view(p, u, w).frontier.len() == p.frontier.len(),
{
    if let Some(id) = u.attempt.frontier_id {
        crate::table::lemma_first_index_bounds(p.frontier, has_id(id));
    }
}

/// A move, once attempted, is never offered as a frontier action again.
proof fn lemma_tried_move_not_reoffered_recorded(
    p: PlannerView,
    u: UpdateView,
    w: WorldView,
    later: WorldView,
)
    ensures
        attempt_recorded_view(p, u, w).attempted.contains(
            (u.attempt.source_location_key, u.attempt.command),
        ),
        ({
            let q = attempt_recorded_view(p, u, w);
            let r = observe_world_view(q, later);
            forall|i: int|
                q.frontier.len() <= i < r.frontier.len() ==> !((#[trigger] r.frontier[i]).source_location_key
                    == u.attempt.source_location_key && r.frontier[i].command == u.attempt.command)
        }),
{
    let q = attempt_recorded_view(p, u, w);
    lemma_observe_appends_untried(q, later);
    let pair = (u.attempt.source_location_key, u.attempt.command);
    assert(q.attempted.contains(pair)) by {
        let moved = u.classification != ObservationClassification::CommandFailedOrBlocked;
        let turns = (p.stats.turns + 1) as usize;
        let stats = PlannerStats {
            turns: turns,
            executed_movement_commands: (p.stats.executed_movement_commands + 1) as usize,
            failed_moves: if moved {
                p.stats.failed_moves
            } else {
                (p.stats.failed_moves + 1) as usize
            },
            ..p.stats
        };
        let p1 = PlannerView { stats: stats, ..p };
        let p2 = if moved {
            observe_world_view(p1, w)
        } else {
            p1
        };
        let a = pair_set_insert(p2.attempted, pair);
        if !p2.attempted.contains(pair) {
            assert(a[a.len() - 1] == pair);
        }
        assert(q.attempted == a);
    }
}

pub proof fn lemma_table_insert_lookup<T>(e: Seq<(Seq<char>, T)>, k: Seq<char>, v: T)
    ensures
        lookup(table_insert(e, k, v), k) == Some(v),
{
    crate::table::lemma_key_index_bounds(e, k);
    let r = table_insert(e, k, v);
    match crate::table::key_index(e, k) {
        Some(i) => {
            assert forall|m: int| 0 <= m < i implies #[trigger] r[m].0 != k by {
                assert(r[m] == e[m]);
            }
            crate::table::lemma_key_index_scan(r, k, i);
        },
        None => {
            assert forall|m: int| 0 <= m < e.len() implies #[trigger] r[m].0 != k by {
                assert(r[m] == e[m]);
            }
            crate::table::lemma_key_index_scan(r, k, e.len() as int);
        },
    }
}

/// A key inserted into a table is then found in it.
pub proof fn lemma_table_insert_has_key<T>(e: Seq<(Seq<char>, T)>, k: Seq<char>, v: T)
    ensures
        has_key(table_insert(e, k, v), k),
{
    lemma_table_insert_lookup(e, k, v);
}

/// A refused move is recorded, with its reason, under its location and command.
proof fn lemma_refusal_recorded_recorded(p: PlannerView, u: UpdateView, w: WorldView)
    requires
        u.blocked_reason is Some,
    ensures
        ({
            let q = attempt_recorded_view(p, u, w);
            &&& blocked_has(q.blocked_edges, u.attempt.source_location_key, u.attempt.command)
            &&& lookup(
                lookup(q.blocked_edges, u.attempt.source_location_key).unwrap(),
                u.attempt.command,
            ).unwrap().reason == u.blocked_reason.unwrap()
        }),
{
    let q = attempt_recorded_view(p, u, w);
    let src = u.attempt.source_location_key;
    let cmd = u.attempt.command;
    let moved = u.classification != ObservationClassification::CommandFailedOrBlocked;
    let turns = (p.stats.turns + 1) as usize;
    let stats = PlannerStats {
        turns: turns,
        executed_movement_commands: (p.stats.executed_movement_commands + 1) as usize,
        failed_moves: if moved {
            p.stats.failed_moves
        } else {
            (p.stats.failed_moves + 1) as usize
        },
        ..p.stats
    };
    let p1 = PlannerView { stats: stats, ..p };
    let p2 = if moved {
        observe_world_view(p1, w)
    } else {
        p1
    };
    let b = p2.blocked_edges;
    let inner = match lookup(b, src) {
        Some(t) => t,
        None => seq![],
    };
    let edge = BlockedEdgeView {
        source_location_key: src,
        command: cmd,
        turn: turns as u64,
        reason: u.blocked_reason.unwrap(),
        raw_output_hash: u.raw_output_hash,
    };
    let t2 = table_insert(inner, cmd, edge);
    lemma_table_insert_lookup(b, src, t2);
    lemma_table_insert_lookup(inner, cmd, edge);
    crate::table::lemma_key_index_bounds(t2, cmd);
    assert(q.blocked_edges == table_insert(b, src, t2));
}

proof fn lemma_refusal_applied_shape(q: PlannerView, u: UpdateView, turn: usize)
    ensures
        ({
            let r = refusal_applied(q, u, turn);
            &&& r.frontier.len() == q.frontier.len()
            &&& r == (PlannerView { frontier: r.frontier, ..q })
            &&& forall|k: int|
                0 <= k < r.frontier.len() ==> (#[trigger] r.frontier[k]).source_location_key
                    == q.frontier[k].source_location_key && r.frontier[k].command
                    == q.frontier[k].command && r.frontier[k].id == q.frontier[k].id
            &&& failed_without_destination(q.frontier) ==> failed_without_destination(r.frontier)
        }),
{
    let r = refusal_applied(q, u, turn);
}

/// Applying the outcome of a move offers no move that is not canonical.
pub proof fn lemma_apply_keeps_moves_canonical(p: PlannerView, u: UpdateView, w: WorldView)
    requires
        frontier_moves_canonical(p.frontier),
    ensures
        frontier_moves_canonical(apply_observation_view(p, u, w).frontier),
{
    lemma_apply_keeps_moves_canonical_recorded(p, u, w);
    let q = attempt_recorded_view(p, u, w);
    lemma_refusal_applied_shape(q, u, (p.stats.turns + 1) as usize);
    let r = apply_observation_view(p, u, w);
    assert forall|k: int| 0 <= k < r.frontier.len() implies canonical_move_names().contains(
        #[trigger] r.frontier[k].command,
    ) by {
        assert(r.frontier[k].command == q.frontier[k].command);
    }
}

/// Applying the outcome of a move keeps the planner's invariant.
pub proof fn lemma_apply_preserves_wf(p: PlannerView, u: UpdateView, w: WorldView)
    requires
        planner_wf(p),
    ensures
        planner_wf(apply_observation_view(p, u, w)),
{
    lemma_apply_preserves_wf_recorded(p, u, w);
    let q = attempt_recorded_view(p, u, w);
    lemma_refusal_applied_shape(q, u, (p.stats.turns + 1) as usize);
    let r = apply_observation_view(p, u, w);
    let f = r.frontier;
    assert forall|x: int, y: int|
        #![trigger f[x], f[y]]
        0 <= x < f.len() && 0 <= y < f.len() && x != y implies !(f[x].source_location_key
        == f[y].source_location_key && f[x].command == f[y].command) by {
        assert(q.frontier[x] == q.frontier[x] && q.frontier[y] == q.frontier[y]);
    }
}

/// A move that failed or was refused adds no frontier action.
pub proof fn lemma_failed_move_adds_no_actions(p: PlannerView, u: UpdateView, w: WorldView)
    requires
        u.classification == ObservationClassification::CommandFailedOrBlocked,
    ensures
        apply_observation_view(p, u, w).frontier.len() == p.frontier.len(),
{
    lemma_failed_move_adds_no_actions_recorded(p, u, w);
    lemma_refusal_applied_shape(attempt_recorded_view(p, u, w), u, (p.stats.turns + 1) as usize);
}

/// A move, once attempted, is never offered as a frontier action again.
pub proof fn lemma_tried_move_not_reoffered(
    p: PlannerView,
    u: UpdateView,
    w: WorldView,
    later: WorldView,
)
    ensures
        ({
            let q = apply_observation_view(p, u, w);
            let r = observe_world_view(q, later);
            forall|i: int|
                q.frontier.len() <= i < r.frontier.len() ==> !((#[trigger] r.frontier[i]).source_location_key
                    == u.attempt.source_location_key && r.frontier[i].command == u.attempt.command)
        }),
{
    lemma_tried_move_not_reoffered_recorded(p, u, w, later);
    lemma_refusal_applied_shape(attempt_recorded_view(p, u, w), u, (p.stats.turns + 1) as usize);
    let q = apply_observation_view(p, u, w);
    assert(q.attempted == attempt_recorded_view(p, u, w).attempted);
    lemma_observe_appends_untried(q, later);
}

/// A refused move is recorded, with its reason, under its location and command.
pub proof fn lemma_refusal_recorded(p: PlannerView, u: UpdateView, w: WorldView)
    requires
        u.blocked_reason is Some,
    ensures
        ({
            let q = apply_observation_view(p, u, w);
            &&& blocked_has(q.blocked_edges, u.attempt.source_location_key, u.attempt.command)
            &&& lookup(
                lookup(q.blocked_edges, u.attempt.source_location_key).unwrap(),
                u.attempt.command,
            ).unwrap().reason == u.blocked_reason.unwrap()
        }),
{
    lemma_refusal_recorded_recorded(p, u, w);
    lemma_refusal_applied_shape(attempt_recorded_view(p, u, w), u, (p.stats.turns + 1) as usize);
}

/// A refused move is never left pending: after the refusal no frontier
/// action for its location and command is pending.
pub proof fn lemma_refused_move_not_pending(p: PlannerView, u: UpdateView, w: WorldView)
    requires
        u.blocked_reason is Some,
    ensures
        ({
            let q = apply_observation_view(p, u, w);
            forall|k: int|
                0 <= k < q.frontier.len() ==> !(#[trigger] q.frontier[k].status
                    == FrontierStatus::Pending && q.frontier[k].source_location_key
                    == u.attempt.source_location_key && q.frontier[k].command == u.attempt.command)
        }),
{
}

/// The sum of the counts of a table.
pub open spec fn counts_total(t: Seq<(Seq<char>, usize)>) -> int
    decreases t.len(),
{
    if t.len() == 0 {
        0
    } else {
        counts_total(t.drop_last()) + t.last().1
    }
}

proof fn lemma_counts_total_update(t: Seq<(Seq<char>, usize)>, i: int, e: (Seq<char>, usize))
    requires
        0 <= i < t.len(),
    ensures
        counts_total(t.update(i, e)) == counts_total(t) - t[i].1 + e.1,
    decreases t.len(),
{
    let u = t.update(i, e);
    if i < t.len() - 1 {
        lemma_counts_total_update(t.drop_last(), i, e);
        assert(u.drop_last() =~= t.drop_last().update(i, e));
    } else {
        assert(u.drop_last() =~= t.drop_last());
    }
}

proof fn lemma_status_counts_total(f: Seq<FrontierActionView>)
    requires
        f.len() <= usize::MAX,
    ensures
        counts_total(status_counts(f)) == f.len(),
        forall|j: int| 0 <= j < status_counts(f).len() ==> (#[trigger] status_counts(f)[j]).1 <= f.len(),
    decreases f.len(),
{
    if f.len() > 0 {
        let pre = status_counts(f.drop_last());
        lemma_status_counts_total(f.drop_last());
        let key = status_name(f.last().status);
        let r = status_counts(f);
        crate::table::lemma_key_index_bounds(pre, key);
        match crate::table::key_index(pre, key) {
            Some(i) => {
                lemma_counts_total_update(pre, i, (key, (pre[i].1 + 1) as usize));
                assert forall|j: int| 0 <= j < r.len() implies (#[trigger] r[j]).1 <= f.len() by {
                    if j != i {
                        assert(r[j] == pre[j]);
                    }
                }
            },
            None => {
                assert(r.drop_last() =~= pre);
                assert forall|j: int| 0 <= j < r.len() implies (#[trigger] r[j]).1 <= f.len() by {
                    if j < pre.len() {
                        assert(r[j] == pre[j]);
                    }
                }
            },
        }
    }
}

/// How many frontier actions have a status of this name.
pub open spec fn status_count(f: Seq<FrontierActionView>, name: Seq<char>) -> nat
    decreases f.len(),
{
    if f.len() == 0 {
        0
    } else {
        status_count(f.drop_last(), name) + if status_name(f.last().status) == name {
            1nat
        } else {
            0nat
        }
    }
}

proof fn lemma_status_count_bound(f: Seq<FrontierActionView>, name: Seq<char>)
    ensures
        status_count(f, name) <= f.len(),
    decreases f.len(),
{
    if f.len() > 0 {
        lemma_status_count_bound(f.drop_last(), name);
    }
}

/// The frontier counts hold each status name once, with the number of
/// actions that have it, and no name that no action has.
pub proof fn lemma_frontier_counts_by_status(f: Seq<FrontierActionView>)
    requires
        f.len() <= usize::MAX,
    ensures
        crate::table::keys_unique(status_counts(f)),
        forall|name: Seq<char>|
            #[trigger] lookup(status_counts(f), name) == if status_count(f, name) > 0 {
                Some(status_count(f, name) as usize)
            } else {
                None
            },
    decreases f.len(),
{
    if f.len() == 0 {
        assert forall|name: Seq<char>| #[trigger] lookup(status_counts(f), name) == None::<usize> by {
            crate::table::lemma_key_index_bounds(status_counts(f), name);
        }
    } else {
        let pre = f.drop_last();
        lemma_frontier_counts_by_status(pre);
        let t = status_counts(pre);
        let key = status_name(f.last().status);
        lemma_status_count_bound(pre, key);
        let v: usize = match lookup(t, key) {
            Some(c) => (c + 1) as usize,
            None => 1usize,
        };
        crate::table::lemma_key_index_bounds(t, key);
        assert(status_counts(f) == table_insert(t, key, v));
        crate::table::lemma_table_insert_unique(t, key, v);
        assert forall|name: Seq<char>| #[trigger] lookup(status_counts(f), name) == if status_count(f, name) > 0 {
            Some(status_count(f, name) as usize)
        } else {
            None
        } by {
            if name == key {
            } else {
                assert(lookup(table_insert(t, key, v), name) == lookup(t, name));
            }
        }
    }
}

/// The frontier counts add up to the number of frontier actions.
pub proof fn lemma_frontier_counts_sum(f: Seq<FrontierActionView>)
    requires
        f.len() <= usize::MAX,
    ensures
        counts_total(status_counts(f)) == f.len(),
{
    lemma_status_counts_total(f);
}

/// A plan is made only for a pending action, and ends with its command.
pub proof fn lemma_plan_takes_pending(
    p: PlannerView,
    g: Seq<(Seq<char>, Seq<(Seq<char>, Seq<char>)>)>,
    current: Seq<char>,
    d: DecisionView,
)
    requires
        decision_fits(p, g, current, d),
        d.kind == PlannerDecisionKind::CommandPlan,
    ensures
        exists|i: int|
            0 <= i < p.frontier.len() && (#[trigger] p.frontier[i]).status
                == FrontierStatus::Pending && d.plan.unwrap().selected_frontier_action_id
                == p.frontier[i].id && d.plan.unwrap().commands.last() == p.frontier[i].command,
{
    crate::table::lemma_first_index_bounds(p.frontier, pending_at(current));
    crate::table::lemma_first_index_bounds(p.frontier, pending_reachable(g, current));
    let i = selected_action(p.frontier, g, current).unwrap();
    assert(p.frontier[i].status == FrontierStatus::Pending);
}

} // verus!
