//! The map evaluation's own rules: its command line, the names moves are
//! written with in the final map, and how titles and exits are prepared for
//! comparison with the expected map.
use crate::planner::{normalize_move, normalize_move_command, signature};
use crate::table::{count_bumped, lookup, KeyedTable};
use crate::text::{append_chars, chars_of, decimal, decimal_chars, eq_lit, opt_view, string_of};
use crate::world::{lit_string, parse_usize, parse_usize_chars};
use vstd::prelude::*;

verus! {

// ---------------------------------------------------------------------------
// Command line
// ---------------------------------------------------------------------------

/// How the map is explored during an evaluation run.
#[derive(Clone, Copy, Debug, PartialEq, Eq, Structural)]
pub enum EvalStrategy {
    Dfs,
    LlmAgent,
}

/// A refused command line, with the message it is reported with.
#[derive(Clone, Debug)]
pub struct EvalError {
    pub message: String,
}

/// The strategy a name stands for.
pub open spec fn strategy_named(value: Seq<char>) -> Result<EvalStrategy, Seq<char>> {
    if value == "dfs"@ {
        Ok(EvalStrategy::Dfs)
    } else if value == "llm-agent"@ {
        Ok(EvalStrategy::LlmAgent)
    } else {
        Err("unknown --strategy '"@ + value + "', expected 'dfs' or 'llm-agent'"@)
    }
}

impl EvalStrategy {
    /// The strategy a name stands for: `dfs` or `llm-agent`.
    pub fn parse(value: &str) -> (r: Result<Self, EvalError>)
        ensures
            match r {
                Ok(s) => strategy_named(value@) == Ok::<EvalStrategy, Seq<char>>(s),
                Err(e) => strategy_named(value@) == Err::<EvalStrategy, Seq<char>>(e.message@),
            },
    {
        let v = chars_of(value);
        if eq_lit(v.as_slice(), "dfs") {
            Ok(EvalStrategy::Dfs)
        } else if eq_lit(v.as_slice(), "llm-agent") {
            Ok(EvalStrategy::LlmAgent)
        } else {
            let mut m = chars_of("unknown --strategy '");
            append_chars(&mut m, v.as_slice());
            append_chars(&mut m, chars_of("', expected 'dfs' or 'llm-agent'").as_slice());
            Err(EvalError { message: string_of(m.as_slice()) })
        }
    }
}

/// The evaluation's settings.
#[derive(Clone, Debug)]
pub struct EvalArgs {
    pub runs: usize,
    pub calculate_only: bool,
    pub world_state_path: String,
    pub first_nodes_path: String,
    pub command: String,
    pub strategy: EvalStrategy,
    pub dfs_max_turns: usize,
}

pub struct ArgsView {
    pub runs: usize,
    pub calculate_only: bool,
    pub world_state_path: Seq<char>,
    pub first_nodes_path: Seq<char>,
    pub command: Seq<char>,
    pub strategy: EvalStrategy,
    pub dfs_max_turns: usize,
    /// The paths given without an option, in order.
    pub positional: Seq<Seq<char>>,
}

impl View for EvalArgs {
    type V = ArgsView;

    open spec fn view(&self) -> ArgsView {
        ArgsView {
            runs: self.runs,
            calculate_only: self.calculate_only,
            world_state_path: self.world_state_path@,
            first_nodes_path: self.first_nodes_path@,
            command: self.command@,
            strategy: self.strategy,
            dfs_max_turns: self.dfs_max_turns,
            positional: seq![],
        }
    }
}

/// The task the agent is given by default.
pub open spec fn default_eval_command() -> Seq<char> {
    "explore to create the full map"@
}

/// The settings before any argument is read.
pub open spec fn default_args() -> ArgsView {
    ArgsView {
        runs: 3,
        calculate_only: false,
        world_state_path: "memory_store/world-state.json"@,
        first_nodes_path: "eval_data/first_nodes.json"@,
        command: default_eval_command(),
        strategy: EvalStrategy::Dfs,
        dfs_max_turns: crate::agent::default_max_turns(),
        positional: seq![],
    }
}

/// The settings after reading `args` in order; `Ok(None)` when help is
/// asked for, `Err` with the message of the first bad argument.
pub open spec fn read_args(args: Seq<Seq<char>>, st: ArgsView) -> Result<Option<ArgsView>, Seq<char>>
    decreases args.len(),
{
    if args.len() == 0 {
        Ok(Some(st))
    } else {
        let a = args[0];
        let rest = args.drop_first();
        if a == "-h"@ || a == "--help"@ {
            Ok(None)
        } else if a == "-r"@ || a == "--runs"@ {
            if rest.len() == 0 {
                Err("--runs requires a value"@)
            } else {
                match parse_usize(rest[0]) {
                    Some(n) => read_args(rest.drop_first(), ArgsView { runs: n as usize, ..st }),
                    None => Err("invalid --runs value '"@ + rest[0] + "'"@),
                }
            }
        } else if a == "--calculate-only"@ || a == "--no-run"@ {
            read_args(rest, ArgsView { calculate_only: true, ..st })
        } else if a == "--world-state"@ {
            if rest.len() == 0 {
                Err("--world-state requires a value"@)
            } else {
                read_args(rest.drop_first(), ArgsView { world_state_path: rest[0], ..st })
            }
        } else if a == "--first-nodes"@ {
            if rest.len() == 0 {
                Err("--first-nodes requires a value"@)
            } else {
                read_args(rest.drop_first(), ArgsView { first_nodes_path: rest[0], ..st })
            }
        } else if a == "--command"@ || a == "--prompt"@ {
            if rest.len() == 0 {
                Err("--command requires a value"@)
            } else {
                read_args(rest.drop_first(), ArgsView { command: rest[0], ..st })
            }
        } else if a == "--strategy"@ {
            if rest.len() == 0 {
                Err("--strategy requires a value"@)
            } else {
                match strategy_named(rest[0]) {
                    Ok(s) => read_args(rest.drop_first(), ArgsView { strategy: s, ..st }),
                    Err(m) => Err(m),
                }
            }
        } else if a == "--dfs-max-turns"@ {
            if rest.len() == 0 {
                Err("--dfs-max-turns requires a value"@)
            } else {
                match parse_usize(rest[0]) {
                    Some(n) => read_args(rest.drop_first(), ArgsView { dfs_max_turns: n as usize, ..st }),
                    None => Err("invalid --dfs-max-turns value '"@ + rest[0] + "'"@),
                }
            }
        } else if a.len() > 0 && a[0] == '-' {
            Err("unknown argument '"@ + a + "'"@)
        } else {
            read_args(rest, ArgsView { positional: st.positional.push(a), ..st })
        }
    }
}

/// The evaluation's settings from its arguments (without the program
/// name): `Ok(None)` when help is asked for; refused when an argument is
/// bad, no run or no turn is asked for, or more than two paths are given.
/// The paths given without an option replace the world-state and the
/// first-nodes path, in that order.
pub open spec fn eval_args(args: Seq<Seq<char>>) -> Result<Option<ArgsView>, Seq<char>> {
    match read_args(args, default_args()) {
        Err(m) => Err(m),
        Ok(None) => Ok(None),
        Ok(Some(st)) => if st.runs == 0 {
            Err("--runs must be at least 1"@)
        } else if st.dfs_max_turns == 0 {
            Err("--dfs-max-turns must be at least 1"@)
        } else if st.positional.len() > 2 {
            Err("expected at most two positional paths: <world-state> <first-nodes>"@)
        } else {
            Ok(
                Some(
                    ArgsView {
                        world_state_path: if st.positional.len() > 0 {
                            st.positional[0]
                        } else {
                            st.world_state_path
                        },
                        first_nodes_path: if st.positional.len() > 1 {
                            st.positional[1]
                        } else {
                            st.first_nodes_path
                        },
                        positional: seq![],
                        ..st
                    },
                ),
            )
        },
    }
}

fn error_with(prefix: &str, value: &[char], suffix: &str) -> (r: EvalError)
    ensures
        r.message@ == prefix@ + value@ + suffix@,
{
    let mut m = chars_of(prefix);
    append_chars(&mut m, value);
    append_chars(&mut m, chars_of(suffix).as_slice());
    EvalError { message: string_of(m.as_slice()) }
}

fn error_text(message: &str) -> (r: EvalError)
    ensures
        r.message@ == message@,
{
    EvalError { message: lit_string(message) }
}

/// The evaluation's settings from its arguments, without the program name;
/// `None` when help is asked for.
pub fn parse_eval_args(args: &Vec<String>) -> (r: Result<Option<EvalArgs>, EvalError>)
    ensures
        match r {
            Ok(Some(a)) => eval_args(args.deep_view()) == Ok::<Option<ArgsView>, Seq<char>>(Some(a@)),
            Ok(None) => eval_args(args.deep_view()) == Ok::<Option<ArgsView>, Seq<char>>(None),
            Err(e) => eval_args(args.deep_view()) == Err::<Option<ArgsView>, Seq<char>>(e.message@),
        },
{
    let ghost av = args.deep_view();
    let mut runs: usize = 3;
    let mut calculate_only = false;
    let mut world_state_path = lit_string("memory_store/world-state.json");
    let mut first_nodes_path = lit_string("eval_data/first_nodes.json");
    let mut command = lit_string(
        "explore to create the full map",
    );
    let mut strategy = EvalStrategy::Dfs;
    let mut dfs_max_turns: usize = 30;
    let mut positional: Vec<String> = Vec::new();
    let mut i: usize = 0;
    let n = args.len();
    assert(av.skip(0) =~= av);
    assert(positional.deep_view() =~= Seq::<Seq<char>>::empty());
    while i < n
        invariant
            0 <= i <= n == args@.len(),
            av == args.deep_view(),
            read_args(av.skip(i as int), ArgsView {
                runs: runs,
                calculate_only: calculate_only,
                world_state_path: world_state_path@,
                first_nodes_path: first_nodes_path@,
                command: command@,
                strategy: strategy,
                dfs_max_turns: dfs_max_turns,
                positional: positional.deep_view(),
            }) == read_args(av, default_args()),
        decreases n - i,
    {
        let ghost st = ArgsView {
            runs: runs,
            calculate_only: calculate_only,
            world_state_path: world_state_path@,
            first_nodes_path: first_nodes_path@,
            command: command@,
            strategy: strategy,
            dfs_max_turns: dfs_max_turns,
            positional: positional.deep_view(),
        };
        let ghost rest = av.skip(i as int);
        assert(rest[0] == args@[i as int]@);
        assert(rest.drop_first() =~= av.skip(i + 1));
        let a = chars_of(args[i].as_str());
        let t = a.as_slice();
        let has_value = i + 1 < n;
        proof {
            if has_value {
                assert(rest.drop_first()[0] == args@[i + 1]@);
                assert(rest.drop_first().drop_first() =~= av.skip(i + 2));
            }
        }
        if eq_lit(t, "-h") || eq_lit(t, "--help") {
            return Ok(None);
        } else if eq_lit(t, "-r") || eq_lit(t, "--runs") {
            if !has_value {
                return Err(error_text("--runs requires a value"));
            }
            let value = chars_of(args[i + 1].as_str());
            match parse_usize_chars(value.as_slice()) {
                Some(v) => {
                    runs = v;
                },
                None => {
                    return Err(error_with("invalid --runs value '", value.as_slice(), "'"));
                },
            }
            i += 2;
        } else if eq_lit(t, "--calculate-only") || eq_lit(t, "--no-run") {
            calculate_only = true;
            i += 1;
        } else if eq_lit(t, "--world-state") {
            if !has_value {
                return Err(error_text("--world-state requires a value"));
            }
            world_state_path = args[i + 1].clone();
            i += 2;
        } else if eq_lit(t, "--first-nodes") {
            if !has_value {
                return Err(error_text("--first-nodes requires a value"));
            }
            first_nodes_path = args[i + 1].clone();
            i += 2;
        } else if eq_lit(t, "--command") || eq_lit(t, "--prompt") {
            if !has_value {
                return Err(error_text("--command requires a value"));
            }
            command = args[i + 1].clone();
            i += 2;
        } else if eq_lit(t, "--strategy") {
            if !has_value {
                return Err(error_text("--strategy requires a value"));
            }
            match EvalStrategy::parse(args[i + 1].as_str()) {
                Ok(s) => {
                    strategy = s;
                },
                Err(e) => {
                    return Err(e);
                },
            }
            i += 2;
        } else if eq_lit(t, "--dfs-max-turns") {
            if !has_value {
                return Err(error_text("--dfs-max-turns requires a value"));
            }
            let value = chars_of(args[i + 1].as_str());
            match parse_usize_chars(value.as_slice()) {
                Some(v) => {
                    dfs_max_turns = v;
                },
                None => {
                    return Err(error_with("invalid --dfs-max-turns value '", value.as_slice(), "'"));
                },
            }
            i += 2;
        } else if a.len() > 0 && a[0] == '-' {
            return Err(error_with("unknown argument '", a.as_slice(), "'"));
        } else {
            let ghost before = positional.deep_view();
            positional.push(args[i].clone());
            assert(positional.deep_view() =~= before.push(rest[0]));
            i += 1;
        }
    }
    assert(av.skip(n as int) =~= Seq::<Seq<char>>::empty());
    if runs == 0 {
        return Err(error_text("--runs must be at least 1"));
    }
    if dfs_max_turns == 0 {
        return Err(error_text("--dfs-max-turns must be at least 1"));
    }
    if positional.len() > 2 {
        return Err(error_text("expected at most two positional paths: <world-state> <first-nodes>"));
    }
    assert(positional.deep_view().len() == positional@.len());
    if positional.len() > 0 {
        assert(positional.deep_view()[0] == positional@[0]@);
        world_state_path = positional[0].clone();
    }
    if positional.len() > 1 {
        assert(positional.deep_view()[1] == positional@[1]@);
        first_nodes_path = positional[1].clone();
    }
    Ok(
        Some(
            EvalArgs {
                runs,
                calculate_only,
                world_state_path,
                first_nodes_path,
                command,
                strategy,
                dfs_max_turns,
            },
        ),
    )
}

// ---------------------------------------------------------------------------
// The final map
// ---------------------------------------------------------------------------

/// The short name a move is written with in the final map.
pub open spec fn map_move_name(command: Seq<char>) -> Option<Seq<char>> {
    match normalize_move(command) {
        Some(c) => if c == "north"@ {
            Some("n"@)
        } else if c == "south"@ {
            Some("s"@)
        } else if c == "east"@ {
            Some("e"@)
        } else if c == "west"@ {
            Some("w"@)
        } else if c == "northeast"@ {
            Some("ne"@)
        } else if c == "northwest"@ {
            Some("nw"@)
        } else if c == "southeast"@ {
            Some("se"@)
        } else if c == "southwest"@ {
            Some("sw"@)
        } else if c == "up"@ {
            Some("u"@)
        } else if c == "down"@ {
            Some("d"@)
        } else if c == "in"@ {
            Some("in"@)
        } else if c == "out"@ {
            Some("out"@)
        } else {
            None
        },
        None => None,
    }
}

/// The short name a move is written with in the final map.
pub fn final_map_move_command(direction: &str) -> (r: Option<String>)
    ensures
        opt_view(r) == map_move_name(direction@),
{
    let command = match normalize_move_command(direction) {
        Some(c) => c,
        None => {
            return None;
        },
    };
    let c = chars_of(command.as_str());
    let t = c.as_slice();
    if eq_lit(t, "north") {
        Some(lit_string("n"))
    } else if eq_lit(t, "south") {
        Some(lit_string("s"))
    } else if eq_lit(t, "east") {
        Some(lit_string("e"))
    } else if eq_lit(t, "west") {
        Some(lit_string("w"))
    } else if eq_lit(t, "northeast") {
        Some(lit_string("ne"))
    } else if eq_lit(t, "northwest") {
        Some(lit_string("nw"))
    } else if eq_lit(t, "southeast") {
        Some(lit_string("se"))
    } else if eq_lit(t, "southwest") {
        Some(lit_string("sw"))
    } else if eq_lit(t, "up") {
        Some(lit_string("u"))
    } else if eq_lit(t, "down") {
        Some(lit_string("d"))
    } else if eq_lit(t, "in") {
        Some(lit_string("in"))
    } else if eq_lit(t, "out") {
        Some(lit_string("out"))
    } else {
        None
    }
}

// ---------------------------------------------------------------------------
// Scoring texts
// ---------------------------------------------------------------------------

/// A title or description as it is compared: whitespace collapsed, trimmed,
/// lower-cased.
pub fn normalize_score_text(text: &str) -> (r: String)
    ensures
        r@ == signature(text@),
{
    crate::planner::signature_string(text)
}

/// How often each text occurs, by text in the order of first occurrence.
pub open spec fn text_counts(items: Seq<Seq<char>>) -> Seq<(Seq<char>, usize)>
    decreases items.len(),
{
    if items.len() == 0 {
        seq![]
    } else {
        count_bumped(text_counts(items.drop_last()), items.last())
    }
}

/// How often each text occurs.
pub fn counts(items: &[String]) -> (r: KeyedTable<usize>)
    ensures
        r@ == text_counts(items@.map_values(|s: String| s@)),
{
    let ghost iv = items@.map_values(|s: String| s@);
    let mut c: KeyedTable<usize> = KeyedTable::new();
    let mut i: usize = 0;
    assert(iv.take(0) =~= Seq::<Seq<char>>::empty());
    while i < items.len()
        invariant
            0 <= i <= items@.len(),
            iv == items@.map_values(|s: String| s@),
            c@ == text_counts(iv.take(i as int)),
            forall|j: int| 0 <= j < c@.len() ==> #[trigger] c@[j].1 <= i,
        decreases items@.len() - i,
    {
        assert(iv.take(i + 1).drop_last() =~= iv.take(i as int));
        assert(iv.take(i + 1).last() == items@[i as int]@);
        proof {
            crate::table::lemma_key_index_bounds(c@, items@[i as int]@);
        }
        let ghost before = c@;
        c.increment(items[i].clone());
        assert forall|j: int| 0 <= j < c@.len() implies #[trigger] c@[j].1 <= i + 1 by {
            if j < before.len() {
                assert(c@[j].1 <= before[j].1 + 1);
            }
        }
        i += 1;
    }
    assert(iv.take(items@.len() as int) =~= iv);
    c
}

/// How often a text occurs.
pub open spec fn count_of(counts: Seq<(Seq<char>, usize)>, t: Seq<char>) -> nat {
    match lookup(counts, t) {
        Some(c) => c as nat,
        None => 0,
    }
}

/// The titles with each repeated title numbered by occurrence (`title#1`,
/// `title#2`, ...); titles that occur once stay as they are.
pub open spec fn numbered_titles(titles: Seq<Seq<char>>, all: Seq<Seq<char>>) -> Seq<Seq<char>>
    decreases titles.len(),
{
    if titles.len() == 0 {
        seq![]
    } else {
        let earlier = titles.drop_last();
        let t = titles.last();
        let rest = numbered_titles(earlier, all);
        if count_of(text_counts(all), t) <= 1 {
            rest.push(t)
        } else {
            rest.push(t + seq!['#'] + decimal(count_of(text_counts(earlier), t) + 1))
        }
    }
}

/// The titles with each repeated title numbered by occurrence.
pub fn disambiguate_duplicate_titles(titles: Vec<String>) -> (r: Vec<String>)
    ensures
        r.deep_view() == numbered_titles(titles.deep_view(), titles.deep_view()),
{
    let ghost tv = titles.deep_view();
    assert(titles@.map_values(|s: String| s@) =~= tv);
    let title_counts = counts(titles.as_slice());
    let mut seen: KeyedTable<usize> = KeyedTable::new();
    let mut r: Vec<String> = Vec::new();
    let mut i: usize = 0;
    assert(tv.take(0) =~= Seq::<Seq<char>>::empty());
    while i < titles.len()
        invariant
            0 <= i <= titles@.len(),
            tv == titles.deep_view(),
            title_counts@ == text_counts(tv),
            seen@ == text_counts(tv.take(i as int)),
            forall|j: int| 0 <= j < seen@.len() ==> #[trigger] seen@[j].1 <= i,
            r.deep_view() == numbered_titles(tv.take(i as int), tv),
        decreases titles@.len() - i,
    {
        let ghost earlier = tv.take(i as int);
        assert(tv.take(i + 1).drop_last() =~= earlier);
        assert(tv.take(i + 1).last() == titles@[i as int]@);
        let title = &titles[i];
        let total = match title_counts.get(title.as_str()) {
            Some(c) => *c,
            None => 0,
        };
        let ghost before = r.deep_view();
        proof {
            crate::table::lemma_key_index_bounds(seen@, title@);
        }
        let previous = match seen.get(title.as_str()) {
            Some(c) => *c,
            None => 0,
        };
        let ghost seen_before = seen@;
        seen.increment(title.clone());
        assert forall|j: int| 0 <= j < seen@.len() implies #[trigger] seen@[j].1 <= i + 1 by {
            if j < seen_before.len() {
                assert(seen@[j].1 <= seen_before[j].1 + 1);
            }
        }
        if total <= 1 {
            r.push(title.clone());
            assert(r.deep_view() =~= before.push(title@));
        } else {
            let mut v = chars_of(title.as_str());
            v.push('#');
            append_chars(&mut v, decimal_chars(previous + 1).as_slice());
            assert(v@ =~= title@ + seq!['#'] + decimal((previous + 1) as nat));
            r.push(string_of(v.as_slice()));
            assert(r.deep_view() =~= before.push(title@ + seq!['#'] + decimal((previous + 1) as nat)));
        }
        i += 1;
    }
    assert(tv.take(titles@.len() as int) =~= tv);
    r
}

/// A move seen in a map: from where, which way, to where.
#[derive(Clone, Debug, PartialEq, Eq)]
pub struct ExitItem {
    pub source: String,
    pub direction: String,
    pub destination: String,
}

/// A pair of neighbouring places in a map.
#[derive(Clone, Debug, PartialEq, Eq)]
pub struct ExitToItem {
    pub source: String,
    pub destination: String,
}

/// The pairs, each kept at its first occurrence only.
pub open spec fn first_occurrences(items: Seq<(Seq<char>, Seq<char>)>) -> Seq<(Seq<char>, Seq<char>)>
    decreases items.len(),
{
    if items.len() == 0 {
        seq![]
    } else {
        let rest = first_occurrences(items.drop_last());
        if items.drop_last().contains(items.last()) {
            rest
        } else {
            rest.push(items.last())
        }
    }
}

pub open spec fn exit_to_view(items: Seq<ExitToItem>) -> Seq<(Seq<char>, Seq<char>)> {
    items.map_values(|i: ExitToItem| (i.source@, i.destination@))
}

fn pairs_contain(items: &Vec<ExitToItem>, item: &ExitToItem) -> (r: bool)
    ensures
        r == exit_to_view(items@).contains((item.source@, item.destination@)),
{
    let ghost v = exit_to_view(items@);
    let mut i: usize = 0;
    while i < items.len()
        invariant
            0 <= i <= items@.len(),
            v == exit_to_view(items@),
            forall|k: int| 0 <= k < i ==> #[trigger] v[k] != (item.source@, item.destination@),
        decreases items@.len() - i,
    {
        if items[i].source == item.source && items[i].destination == item.destination {
            assert(v[i as int] == (item.source@, item.destination@));
            return true;
        }
        i += 1;
    }
    false
}

/// A pair is among the first occurrences exactly when it occurs.
pub proof fn lemma_first_occurrences_members(items: Seq<(Seq<char>, Seq<char>)>)
    ensures
        forall|x: (Seq<char>, Seq<char>)| #[trigger] first_occurrences(items).contains(x) <==> items.contains(x),
    decreases items.len(),
{
    if items.len() > 0 {
        lemma_first_occurrences_members(items.drop_last());
        let rest = first_occurrences(items.drop_last());
        assert forall|x: (Seq<char>, Seq<char>)| #[trigger] first_occurrences(items).contains(x) <==> items.contains(x) by {
            if items.contains(x) {
                let k = choose|k: int| 0 <= k < items.len() && items[k] == x;
                if k < items.len() - 1 {
                    assert(items.drop_last()[k] == x);
                }
            }
            if items.drop_last().contains(x) {
                let k = choose|k: int| 0 <= k < items.drop_last().len() && items.drop_last()[k] == x;
                assert(items[k] == x);
            }
            if !items.drop_last().contains(items.last()) {
                if rest.contains(x) {
                    let k = choose|k: int| 0 <= k < rest.len() && rest[k] == x;
                    assert(rest.push(items.last())[k] == x);
                }
                if rest.push(items.last()).contains(x) && x != items.last() {
                    let k = choose|k: int| 0 <= k < rest.push(items.last()).len() && rest.push(items.last())[k] == x;
                    assert(rest[k] == x);
                }
                if x == items.last() {
                    assert(rest.push(items.last())[rest.len() as int] == x);
                    assert(items[items.len() - 1] == x);
                }
            }
        }
    }
}

/// The pairs, each kept at its first occurrence only.
pub fn unique_exit_to_items(items: Vec<ExitToItem>) -> (r: Vec<ExitToItem>)
    ensures
        exit_to_view(r@) == first_occurrences(exit_to_view(items@)),
{
    let ghost iv = exit_to_view(items@);
    let mut r: Vec<ExitToItem> = Vec::new();
    let mut i: usize = 0;
    assert(iv.take(0) =~= Seq::<(Seq<char>, Seq<char>)>::empty());
    while i < items.len()
        invariant
            0 <= i <= items@.len(),
            iv == exit_to_view(items@),
            exit_to_view(r@) == first_occurrences(iv.take(i as int)),
        decreases items@.len() - i,
    {
        assert(iv.take(i + 1).drop_last() =~= iv.take(i as int));
        assert(iv.take(i + 1).last() == iv[i as int]);
        proof {
            lemma_first_occurrences_members(iv.take(i as int));
        }
        let item = &items[i];
        if !pairs_contain(&r, item) {
            let ghost before = exit_to_view(r@);
            r.push(ExitToItem { source: item.source.clone(), destination: item.destination.clone() });
            assert(exit_to_view(r@) =~= before.push(iv[i as int]));
        }
        i += 1;
    }
    assert(iv.take(items@.len() as int) =~= iv);
    r
}

/// The neighbouring pairs of a map's moves, each once, in order of first occurrence.
pub fn exit_to_items_from_exit_items(exits: &[ExitItem]) -> (r: Vec<ExitToItem>)
    ensures
        exit_to_view(r@) == first_occurrences(
            exits@.map_values(|e: ExitItem| (e.source@, e.destination@)),
        ),
{
    let mut items: Vec<ExitToItem> = Vec::new();
    let mut i: usize = 0;
    while i < exits.len()
        invariant
            0 <= i <= exits@.len(),
            exit_to_view(items@) == exits@.map_values(|e: ExitItem| (e.source@, e.destination@)).take(
                i as int,
            ),
        decreases exits@.len() - i,
    {
        let ghost before = exit_to_view(items@);
        let ghost want = exits@.map_values(|e: ExitItem| (e.source@, e.destination@));
        items.push(ExitToItem { source: exits[i].source.clone(), destination: exits[i].destination.clone() });
        assert(exit_to_view(items@) =~= before.push(want[i as int]));
        assert(want.take(i + 1) =~= want.take(i as int).push(want[i as int]));
        i += 1;
    }
    assert(exits@.map_values(|e: ExitItem| (e.source@, e.destination@)).take(exits@.len() as int)
        =~= exits@.map_values(|e: ExitItem| (e.source@, e.destination@)));
    unique_exit_to_items(items)
}

} // verus!
