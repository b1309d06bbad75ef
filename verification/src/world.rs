//! The world map: locations recognised from game output, their exits, and the
//! rules that decide when an observation names a known location.
use crate::table::{
    count_bumped,
    first_index, has_key, key_index, lemma_first_index_scan, lookup, table_insert, KeyedTable,
};
use crate::text::{
    append_chars, char_is_ascii_upper, contains, contains_lit, chars_eq, chars_of, zero_padded_decimal, decimal, is_ascii_digit, zero_pad, digest_hex, digest_hex_chars, split_lines, string_of, trim_str, contains_char, eq_lit, is_ascii_upper, join, join_chars, lines,
    lowercase_chars, lowercase_of, all_ascii, ascii_lowercase, opt_view, slice_chars, split_words, starts_with,
    starts_with_lit, trim, trim_chars, trim_non_alnum, trim_non_alnum_chars, words,
};
use vstd::prelude::*;

verus! {

// ---------------------------------------------------------------------------
// Data
// ---------------------------------------------------------------------------

/// A movement from a location, with the destinations it has been seen to reach.
#[derive(Clone, Debug)]
pub struct Exit {
    pub direction: String,
    pub destination: Option<String>,
    /// How often each destination was reached through this exit.
    pub transition_counts: KeyedTable<usize>,
    /// More than one destination has been reached through this exit.
    pub unstable: bool,
}

/// A location of the map.
#[derive(Clone, Debug)]
pub struct Location {
    pub id: String,
    pub title: String,
    pub description: String,
    pub aliases: Vec<String>,
    pub observed_descriptions: Vec<String>,
    /// The location was recorded without a room description.
    pub provisional: bool,
    pub exits: Vec<Exit>,
    pub objects: Vec<String>,
    pub notes: Vec<String>,
}

/// How an observed location was identified.
#[derive(Clone, Copy, Debug, PartialEq, Eq, Structural)]
pub enum LocationMatchConfidence {
    Exact,
    Alias,
    Probable,
    New,
}

/// A known location that an observation was identified with.
#[derive(Clone, Debug)]
pub struct LocationMatch {
    pub key: String,
    pub confidence: LocationMatchConfidence,
}

/// The agent's memory of the game world.
#[derive(Clone, Debug)]
pub struct WorldModel {
    pub current_location: String,
    pub locations: KeyedTable<Location>,
    /// Readable names under which locations are also found.
    pub location_aliases: KeyedTable<String>,
    /// The number of the next `loc-` key; 0 before the first is handed out.
    pub next_location_id: usize,
    pub inventory: Vec<String>,
    pub important_objects: Vec<String>,
    pub hypotheses: Vec<String>,
    pub task_notes: Vec<String>,
}

pub struct ExitView {
    pub direction: Seq<char>,
    pub destination: Option<Seq<char>>,
    pub transition_counts: Seq<(Seq<char>, usize)>,
    pub unstable: bool,
}

pub struct LocationView {
    pub id: Seq<char>,
    pub title: Seq<char>,
    pub description: Seq<char>,
    pub aliases: Seq<Seq<char>>,
    pub observed_descriptions: Seq<Seq<char>>,
    pub provisional: bool,
    pub exits: Seq<ExitView>,
    pub objects: Seq<Seq<char>>,
    pub notes: Seq<Seq<char>>,
}

pub struct MatchView {
    pub key: Seq<char>,
    pub confidence: LocationMatchConfidence,
}

pub struct WorldView {
    pub current_location: Seq<char>,
    pub locations: Seq<(Seq<char>, LocationView)>,
    pub location_aliases: Seq<(Seq<char>, Seq<char>)>,
    pub next_location_id: usize,
    pub inventory: Seq<Seq<char>>,
    pub important_objects: Seq<Seq<char>>,
    pub hypotheses: Seq<Seq<char>>,
    pub task_notes: Seq<Seq<char>>,
}

impl View for Exit {
    type V = ExitView;

    open spec fn view(&self) -> ExitView {
        ExitView {
            direction: self.direction@,
            destination: match self.destination {
                Some(d) => Some(d@),
                None => None,
            },
            transition_counts: self.transition_counts@,
            unstable: self.unstable,
        }
    }
}

impl View for Location {
    type V = LocationView;

    open spec fn view(&self) -> LocationView {
        LocationView {
            id: self.id@,
            title: self.title@,
            description: self.description@,
            aliases: self.aliases.deep_view(),
            observed_descriptions: self.observed_descriptions.deep_view(),
            provisional: self.provisional,
            exits: self.exits@.map_values(|e: Exit| e@),
            objects: self.objects.deep_view(),
            notes: self.notes.deep_view(),
        }
    }
}

impl View for LocationMatch {
    type V = MatchView;

    open spec fn view(&self) -> MatchView {
        MatchView { key: self.key@, confidence: self.confidence }
    }
}

impl View for WorldModel {
    type V = WorldView;

    open spec fn view(&self) -> WorldView {
        WorldView {
            current_location: self.current_location@,
            locations: self.locations@,
            location_aliases: self.location_aliases@,
            next_location_id: self.next_location_id,
            inventory: self.inventory.deep_view(),
            important_objects: self.important_objects.deep_view(),
            hypotheses: self.hypotheses.deep_view(),
            task_notes: self.task_notes.deep_view(),
        }
    }
}

pub open spec fn empty_location_view() -> LocationView {
    LocationView {
        id: seq![],
        title: seq![],
        description: seq![],
        aliases: seq![],
        observed_descriptions: seq![],
        provisional: false,
        exits: seq![],
        objects: seq![],
        notes: seq![],
    }
}

impl Default for Location {
    fn default() -> (r: Self)
        ensures
            r@ == empty_location_view(),
    {
        let r = Location {
            id: String::new(),
            title: String::new(),
            description: String::new(),
            aliases: Vec::new(),
            observed_descriptions: Vec::new(),
            provisional: false,
            exits: Vec::new(),
            objects: Vec::new(),
            notes: Vec::new(),
        };
        assert(r@.exits =~= Seq::<ExitView>::empty());
        assert(r@.aliases =~= Seq::<Seq<char>>::empty());
        assert(r@.observed_descriptions =~= Seq::<Seq<char>>::empty());
        assert(r@.objects =~= Seq::<Seq<char>>::empty());
        assert(r@.notes =~= Seq::<Seq<char>>::empty());
        r
    }
}

pub open spec fn empty_world_view() -> WorldView {
    WorldView {
        current_location: seq![],
        locations: seq![],
        location_aliases: seq![],
        next_location_id: 0,
        inventory: seq![],
        important_objects: seq![],
        hypotheses: seq![],
        task_notes: seq![],
    }
}

impl Default for WorldModel {
    fn default() -> (r: Self)
        ensures
            r@ == empty_world_view(),
    {
        let r = WorldModel {
            current_location: String::new(),
            locations: KeyedTable::new(),
            location_aliases: KeyedTable::new(),
            next_location_id: 0,
            inventory: Vec::new(),
            important_objects: Vec::new(),
            hypotheses: Vec::new(),
            task_notes: Vec::new(),
        };
        assert(r@.inventory =~= Seq::<Seq<char>>::empty());
        assert(r@.important_objects =~= Seq::<Seq<char>>::empty());
        assert(r@.hypotheses =~= Seq::<Seq<char>>::empty());
        assert(r@.task_notes =~= Seq::<Seq<char>>::empty());
        r
    }
}

// ---------------------------------------------------------------------------
// Text rules
// ---------------------------------------------------------------------------

/// A word reduced to its ASCII letters and digits at both ends, lower-cased.
pub open spec fn normalize_word(w: Seq<char>) -> Seq<char> {
    lowercase_of(trim_non_alnum(w))
}

/// The normalized form of each word, leaving out those that become empty.
pub open spec fn normalize_words(ws: Seq<Seq<char>>) -> Seq<Seq<char>>
    decreases ws.len(),
{
    if ws.len() == 0 {
        seq![]
    } else {
        let rest = normalize_words(ws.drop_last());
        let n = normalize_word(ws.last());
        if n.len() > 0 {
            rest.push(n)
        } else {
            rest
        }
    }
}

/// The normalized words of a text joined by single spaces: the text that
/// descriptions are compared and hashed by.
pub open spec fn key_material(text: Seq<char>) -> Seq<char> {
    join(normalize_words(words(text)), seq![' '])
}

/// Whether a description reads like the game's description of a room.
pub open spec fn looks_like_room(description: Seq<char>) -> bool {
    let n = key_material(description);
    starts_with(n, "you are "@) || starts_with(n, "you have "@) || starts_with(n, "at your feet "@)
}

/// Whether a newly seen description should replace the recorded one.
pub open spec fn should_update_description(existing: Seq<char>, next: Seq<char>) -> bool {
    if trim(next).len() == 0 {
        false
    } else if trim(existing).len() == 0 {
        true
    } else {
        looks_like_room(trim(next))
    }
}

/// The canonical direction for a movement word or abbreviation.
pub open spec fn direction_alias(t: Seq<char>) -> Option<Seq<char>> {
    if t == "north"@ || t == "n"@ {
        Some("north"@)
    } else if t == "south"@ || t == "s"@ {
        Some("south"@)
    } else if t == "east"@ || t == "e"@ {
        Some("east"@)
    } else if t == "west"@ || t == "w"@ {
        Some("west"@)
    } else if t == "northeast"@ || t == "ne"@ {
        Some("northeast"@)
    } else if t == "northwest"@ || t == "nw"@ {
        Some("northwest"@)
    } else if t == "southeast"@ || t == "se"@ {
        Some("southeast"@)
    } else if t == "southwest"@ || t == "sw"@ {
        Some("southwest"@)
    } else if t == "up"@ || t == "u"@ {
        Some("up"@)
    } else if t == "down"@ || t == "d"@ {
        Some("down"@)
    } else if t == "in"@ || t == "inside"@ || t == "enter"@ {
        Some("in"@)
    } else if t == "out"@ || t == "outside"@ || t == "exit"@ {
        Some("out"@)
    } else {
        None
    }
}

/// A lower-cased command without a leading `go `.
pub open spec fn without_go(t: Seq<char>) -> Seq<char> {
    if starts_with(t, "go "@) {
        trim(t.skip("go "@.len() as int))
    } else {
        t
    }
}

/// The canonical direction a command moves in, if it is a movement.
pub open spec fn normalize_direction(command: Seq<char>) -> Option<Seq<char>> {
    direction_alias(without_go(lowercase_of(trim(command))))
}

/// The direction leading back.
pub open spec fn reverse_direction(direction: Seq<char>) -> Option<Seq<char>> {
    if direction == "north"@ {
        Some("south"@)
    } else if direction == "south"@ {
        Some("north"@)
    } else if direction == "east"@ {
        Some("west"@)
    } else if direction == "west"@ {
        Some("east"@)
    } else if direction == "northeast"@ {
        Some("southwest"@)
    } else if direction == "northwest"@ {
        Some("southeast"@)
    } else if direction == "southeast"@ {
        Some("northwest"@)
    } else if direction == "southwest"@ {
        Some("northeast"@)
    } else if direction == "up"@ {
        Some("down"@)
    } else if direction == "down"@ {
        Some("up"@)
    } else if direction == "in"@ {
        Some("out"@)
    } else if direction == "out"@ {
        Some("in"@)
    } else {
        None
    }
}

// ---------------------------------------------------------------------------
// Directions
// ---------------------------------------------------------------------------

/// The pairs of opposite directions.
pub open spec fn opposite_directions() -> Seq<(Seq<char>, Seq<char>)> {
    seq![
        ("north"@, "south"@),
        ("east"@, "west"@),
        ("northeast"@, "southwest"@),
        ("northwest"@, "southeast"@),
        ("up"@, "down"@),
        ("in"@, "out"@),
    ]
}

/// Whether two directions are opposite.
pub open spec fn are_opposite(a: Seq<char>, b: Seq<char>) -> bool {
    opposite_directions().contains((a, b)) || opposite_directions().contains((b, a))
}

/// Whether a direction is one of a pair of opposite directions.
pub open spec fn has_opposite(d: Seq<char>) -> bool {
    exists|e: Seq<char>| #[trigger] are_opposite(d, e)
}


/// The way back from a move is the opposite direction: a direction with an
/// opposite has a reverse, and every reverse is the direction's opposite.
pub proof fn lemma_reverse_is_opposite(d: Seq<char>)
    ensures
        reverse_direction(d) matches Some(r) ==> are_opposite(d, r),
        has_opposite(d) ==> reverse_direction(d) is Some,
{
    reveal_strlit("north");
    reveal_strlit("south");
    reveal_strlit("east");
    reveal_strlit("west");
    reveal_strlit("northeast");
    reveal_strlit("northwest");
    reveal_strlit("southeast");
    reveal_strlit("southwest");
    reveal_strlit("up");
    reveal_strlit("down");
    reveal_strlit("in");
    reveal_strlit("out");
    let ps = opposite_directions();
    if let Some(r) = reverse_direction(d) {
        if d == "north"@ || d == "south"@ {
            assert(ps[0] == ("north"@, "south"@));
        } else if d == "east"@ || d == "west"@ {
            assert(ps[1] == ("east"@, "west"@));
        } else if d == "northeast"@ || d == "southwest"@ {
            assert(ps[2] == ("northeast"@, "southwest"@));
        } else if d == "northwest"@ || d == "southeast"@ {
            assert(ps[3] == ("northwest"@, "southeast"@));
        } else if d == "up"@ || d == "down"@ {
            assert(ps[4] == ("up"@, "down"@));
        } else {
            assert(ps[5] == ("in"@, "out"@));
        }
    }
    if has_opposite(d) {
        let e = choose|e: Seq<char>| #[trigger] are_opposite(d, e);
        if ps.contains((d, e)) {
            let i = choose|i: int| 0 <= i < ps.len() && ps[i] == (d, e);
            assert(0 <= i < 6);
        } else {
            let i = choose|i: int| 0 <= i < ps.len() && ps[i] == (e, d);
            assert(0 <= i < 6);
        }
    }
}

/// The directions abbreviated to initials: the compass points, up and down.
pub open spec fn abbreviated_directions() -> Seq<Seq<char>> {
    seq![
        "north"@,
        "south"@,
        "east"@,
        "west"@,
        "northeast"@,
        "northwest"@,
        "southeast"@,
        "southwest"@,
        "up"@,
        "down"@,
    ]
}

/// A direction's abbreviation: its first letter, and for a compass point
/// made of two (`north` or `south` and more) the first letters of both.
pub open spec fn direction_initials(d: Seq<char>) -> Seq<char> {
    if d.len() > 5 && (d.take(5) == "north"@ || d.take(5) == "south"@) {
        seq![d[0], d[5]]
    } else {
        seq![d[0]]
    }
}

/// How each compass point, up and down and its abbreviation are read.
proof fn lemma_direction_alias_reads()
    ensures
        direction_alias("north"@) == Some("north"@),
        direction_alias("n"@) == Some("north"@),
        direction_alias("south"@) == Some("south"@),
        direction_alias("s"@) == Some("south"@),
        direction_alias("east"@) == Some("east"@),
        direction_alias("e"@) == Some("east"@),
        direction_alias("west"@) == Some("west"@),
        direction_alias("w"@) == Some("west"@),
        direction_alias("northeast"@) == Some("northeast"@),
        direction_alias("ne"@) == Some("northeast"@),
        direction_alias("northwest"@) == Some("northwest"@),
        direction_alias("nw"@) == Some("northwest"@),
        direction_alias("southeast"@) == Some("southeast"@),
        direction_alias("se"@) == Some("southeast"@),
        direction_alias("southwest"@) == Some("southwest"@),
        direction_alias("sw"@) == Some("southwest"@),
        direction_alias("up"@) == Some("up"@),
        direction_alias("u"@) == Some("up"@),
        direction_alias("down"@) == Some("down"@),
        direction_alias("d"@) == Some("down"@),
{
    lemma_direction_alias_reads_north();
    lemma_direction_alias_reads_south();
    lemma_direction_alias_reads_east();
    lemma_direction_alias_reads_west();
    lemma_direction_alias_reads_northeast();
    lemma_direction_alias_reads_northwest();
    lemma_direction_alias_reads_southeast();
    lemma_direction_alias_reads_southwest();
    lemma_direction_alias_reads_up();
    lemma_direction_alias_reads_down();
}

proof fn lemma_direction_alias_reads_north()
    ensures
        direction_alias("north"@) == Some("north"@),
        direction_alias("n"@) == Some("north"@),
{
    reveal_strlit("north");
    reveal_strlit("n");
}

proof fn lemma_direction_alias_reads_south()
    ensures
        direction_alias("south"@) == Some("south"@),
        direction_alias("s"@) == Some("south"@),
{
    reveal_strlit("north");
    reveal_strlit("south");
    reveal_strlit("n");
    reveal_strlit("s");
    assert("south"@[0] != "north"@[0] && "south"@.len() != "n"@.len());
    assert("s"@.len() != "north"@.len() && "s"@[0] != "n"@[0]);
}

proof fn lemma_direction_alias_reads_east()
    ensures
        direction_alias("east"@) == Some("east"@),
        direction_alias("e"@) == Some("east"@),
{
    reveal_strlit("north");
    reveal_strlit("south");
    reveal_strlit("east");
    reveal_strlit("n");
    reveal_strlit("s");
    reveal_strlit("e");
    assert("east"@.len() != "north"@.len() && "east"@.len() != "n"@.len());
    assert("e"@.len() != "north"@.len() && "e"@[0] != "n"@[0]);
    assert("east"@.len() != "south"@.len() && "east"@.len() != "s"@.len());
    assert("e"@.len() != "south"@.len() && "e"@[0] != "s"@[0]);
}

proof fn lemma_direction_alias_reads_west()
    ensures
        direction_alias("west"@) == Some("west"@),
        direction_alias("w"@) == Some("west"@),
{
    reveal_strlit("north");
    reveal_strlit("south");
    reveal_strlit("east");
    reveal_strlit("west");
    reveal_strlit("n");
    reveal_strlit("s");
    reveal_strlit("e");
    reveal_strlit("w");
    assert("west"@.len() != "north"@.len() && "west"@.len() != "n"@.len());
    assert("w"@.len() != "north"@.len() && "w"@[0] != "n"@[0]);
    assert("west"@.len() != "south"@.len() && "west"@.len() != "s"@.len());
    assert("w"@.len() != "south"@.len() && "w"@[0] != "s"@[0]);
    assert("west"@[0] != "east"@[0] && "west"@.len() != "e"@.len());
    assert("w"@.len() != "east"@.len() && "w"@[0] != "e"@[0]);
}

proof fn lemma_direction_alias_reads_northeast()
    ensures
        direction_alias("northeast"@) == Some("northeast"@),
        direction_alias("ne"@) == Some("northeast"@),
{
    reveal_strlit("north");
    reveal_strlit("south");
    reveal_strlit("east");
    reveal_strlit("west");
    reveal_strlit("northeast");
    reveal_strlit("n");
    reveal_strlit("s");
    reveal_strlit("e");
    reveal_strlit("w");
    reveal_strlit("ne");
    assert("northeast"@.len() != "north"@.len() && "northeast"@.len() != "n"@.len());
    assert("ne"@.len() != "north"@.len() && "ne"@.len() != "n"@.len());
    assert("northeast"@.len() != "south"@.len() && "northeast"@.len() != "s"@.len());
    assert("ne"@.len() != "south"@.len() && "ne"@.len() != "s"@.len());
    assert("northeast"@.len() != "east"@.len() && "northeast"@.len() != "e"@.len());
    assert("ne"@.len() != "east"@.len() && "ne"@.len() != "e"@.len());
    assert("northeast"@.len() != "west"@.len() && "northeast"@.len() != "w"@.len());
    assert("ne"@.len() != "west"@.len() && "ne"@.len() != "w"@.len());
}

proof fn lemma_direction_alias_reads_northwest()
    ensures
        direction_alias("northwest"@) == Some("northwest"@),
        direction_alias("nw"@) == Some("northwest"@),
{
    reveal_strlit("north");
    reveal_strlit("south");
    reveal_strlit("east");
    reveal_strlit("west");
    reveal_strlit("northeast");
    reveal_strlit("northwest");
    reveal_strlit("n");
    reveal_strlit("s");
    reveal_strlit("e");
    reveal_strlit("w");
    reveal_strlit("ne");
    reveal_strlit("nw");
    assert("northwest"@.len() != "north"@.len() && "northwest"@.len() != "n"@.len());
    assert("nw"@.len() != "north"@.len() && "nw"@.len() != "n"@.len());
    assert("northwest"@.len() != "south"@.len() && "northwest"@.len() != "s"@.len());
    assert("nw"@.len() != "south"@.len() && "nw"@.len() != "s"@.len());
    assert("northwest"@.len() != "east"@.len() && "northwest"@.len() != "e"@.len());
    assert("nw"@.len() != "east"@.len() && "nw"@.len() != "e"@.len());
    assert("northwest"@.len() != "west"@.len() && "northwest"@.len() != "w"@.len());
    assert("nw"@.len() != "west"@.len() && "nw"@.len() != "w"@.len());
    assert("northwest"@[5] != "northeast"@[5] && "northwest"@.len() != "ne"@.len());
    assert("nw"@.len() != "northeast"@.len() && "nw"@[1] != "ne"@[1]);
}

proof fn lemma_direction_alias_reads_southeast()
    ensures
        direction_alias("southeast"@) == Some("southeast"@),
        direction_alias("se"@) == Some("southeast"@),
{
    reveal_strlit("north");
    reveal_strlit("south");
    reveal_strlit("east");
    reveal_strlit("west");
    reveal_strlit("northeast");
    reveal_strlit("northwest");
    reveal_strlit("southeast");
    reveal_strlit("n");
    reveal_strlit("s");
    reveal_strlit("e");
    reveal_strlit("w");
    reveal_strlit("ne");
    reveal_strlit("nw");
    reveal_strlit("se");
    assert("southeast"@.len() != "north"@.len() && "southeast"@.len() != "n"@.len());
    assert("se"@.len() != "north"@.len() && "se"@.len() != "n"@.len());
    assert("southeast"@.len() != "south"@.len() && "southeast"@.len() != "s"@.len());
    assert("se"@.len() != "south"@.len() && "se"@.len() != "s"@.len());
    assert("southeast"@.len() != "east"@.len() && "southeast"@.len() != "e"@.len());
    assert("se"@.len() != "east"@.len() && "se"@.len() != "e"@.len());
    assert("southeast"@.len() != "west"@.len() && "southeast"@.len() != "w"@.len());
    assert("se"@.len() != "west"@.len() && "se"@.len() != "w"@.len());
    assert("southeast"@[0] != "northeast"@[0] && "southeast"@.len() != "ne"@.len());
    assert("se"@.len() != "northeast"@.len() && "se"@[0] != "ne"@[0]);
    assert("southeast"@[0] != "northwest"@[0] && "southeast"@.len() != "nw"@.len());
    assert("se"@.len() != "northwest"@.len() && "se"@[0] != "nw"@[0]);
}

proof fn lemma_direction_alias_reads_southwest()
    ensures
        direction_alias("southwest"@) == Some("southwest"@),
        direction_alias("sw"@) == Some("southwest"@),
{
    reveal_strlit("north");
    reveal_strlit("south");
    reveal_strlit("east");
    reveal_strlit("west");
    reveal_strlit("northeast");
    reveal_strlit("northwest");
    reveal_strlit("southeast");
    reveal_strlit("southwest");
    reveal_strlit("n");
    reveal_strlit("s");
    reveal_strlit("e");
    reveal_strlit("w");
    reveal_strlit("ne");
    reveal_strlit("nw");
    reveal_strlit("se");
    reveal_strlit("sw");
    assert("southwest"@.len() != "north"@.len() && "southwest"@.len() != "n"@.len());
    assert("sw"@.len() != "north"@.len() && "sw"@.len() != "n"@.len());
    assert("southwest"@.len() != "south"@.len() && "southwest"@.len() != "s"@.len());
    assert("sw"@.len() != "south"@.len() && "sw"@.len() != "s"@.len());
    assert("southwest"@.len() != "east"@.len() && "southwest"@.len() != "e"@.len());
    assert("sw"@.len() != "east"@.len() && "sw"@.len() != "e"@.len());
    assert("southwest"@.len() != "west"@.len() && "southwest"@.len() != "w"@.len());
    assert("sw"@.len() != "west"@.len() && "sw"@.len() != "w"@.len());
    assert("southwest"@[0] != "northeast"@[0] && "southwest"@.len() != "ne"@.len());
    assert("sw"@.len() != "northeast"@.len() && "sw"@[0] != "ne"@[0]);
    assert("southwest"@[0] != "northwest"@[0] && "southwest"@.len() != "nw"@.len());
    assert("sw"@.len() != "northwest"@.len() && "sw"@[0] != "nw"@[0]);
    assert("southwest"@[5] != "southeast"@[5] && "southwest"@.len() != "se"@.len());
    assert("sw"@.len() != "southeast"@.len() && "sw"@[1] != "se"@[1]);
}

proof fn lemma_direction_alias_reads_up()
    ensures
        direction_alias("up"@) == Some("up"@),
        direction_alias("u"@) == Some("up"@),
{
    reveal_strlit("north");
    reveal_strlit("south");
    reveal_strlit("east");
    reveal_strlit("west");
    reveal_strlit("northeast");
    reveal_strlit("northwest");
    reveal_strlit("southeast");
    reveal_strlit("southwest");
    reveal_strlit("up");
    reveal_strlit("n");
    reveal_strlit("s");
    reveal_strlit("e");
    reveal_strlit("w");
    reveal_strlit("ne");
    reveal_strlit("nw");
    reveal_strlit("se");
    reveal_strlit("sw");
    reveal_strlit("u");
    assert("up"@.len() != "north"@.len() && "up"@.len() != "n"@.len());
    assert("u"@.len() != "north"@.len() && "u"@[0] != "n"@[0]);
    assert("up"@.len() != "south"@.len() && "up"@.len() != "s"@.len());
    assert("u"@.len() != "south"@.len() && "u"@[0] != "s"@[0]);
    assert("up"@.len() != "east"@.len() && "up"@.len() != "e"@.len());
    assert("u"@.len() != "east"@.len() && "u"@[0] != "e"@[0]);
    assert("up"@.len() != "west"@.len() && "up"@.len() != "w"@.len());
    assert("u"@.len() != "west"@.len() && "u"@[0] != "w"@[0]);
    assert("up"@.len() != "northeast"@.len() && "up"@[0] != "ne"@[0]);
    assert("u"@.len() != "northeast"@.len() && "u"@.len() != "ne"@.len());
    assert("up"@.len() != "northwest"@.len() && "up"@[0] != "nw"@[0]);
    assert("u"@.len() != "northwest"@.len() && "u"@.len() != "nw"@.len());
    assert("up"@.len() != "southeast"@.len() && "up"@[0] != "se"@[0]);
    assert("u"@.len() != "southeast"@.len() && "u"@.len() != "se"@.len());
    assert("up"@.len() != "southwest"@.len() && "up"@[0] != "sw"@[0]);
    assert("u"@.len() != "southwest"@.len() && "u"@.len() != "sw"@.len());
}

proof fn lemma_direction_alias_reads_down()
    ensures
        direction_alias("down"@) == Some("down"@),
        direction_alias("d"@) == Some("down"@),
{
    reveal_strlit("north");
    reveal_strlit("south");
    reveal_strlit("east");
    reveal_strlit("west");
    reveal_strlit("northeast");
    reveal_strlit("northwest");
    reveal_strlit("southeast");
    reveal_strlit("southwest");
    reveal_strlit("up");
    reveal_strlit("down");
    reveal_strlit("n");
    reveal_strlit("s");
    reveal_strlit("e");
    reveal_strlit("w");
    reveal_strlit("ne");
    reveal_strlit("nw");
    reveal_strlit("se");
    reveal_strlit("sw");
    reveal_strlit("u");
    reveal_strlit("d");
    assert("down"@.len() != "north"@.len() && "down"@.len() != "n"@.len());
    assert("d"@.len() != "north"@.len() && "d"@[0] != "n"@[0]);
    assert("down"@.len() != "south"@.len() && "down"@.len() != "s"@.len());
    assert("d"@.len() != "south"@.len() && "d"@[0] != "s"@[0]);
    assert("down"@[0] != "east"@[0] && "down"@.len() != "e"@.len());
    assert("d"@.len() != "east"@.len() && "d"@[0] != "e"@[0]);
    assert("down"@[0] != "west"@[0] && "down"@.len() != "w"@.len());
    assert("d"@.len() != "west"@.len() && "d"@[0] != "w"@[0]);
    assert("down"@.len() != "northeast"@.len() && "down"@.len() != "ne"@.len());
    assert("d"@.len() != "northeast"@.len() && "d"@.len() != "ne"@.len());
    assert("down"@.len() != "northwest"@.len() && "down"@.len() != "nw"@.len());
    assert("d"@.len() != "northwest"@.len() && "d"@.len() != "nw"@.len());
    assert("down"@.len() != "southeast"@.len() && "down"@.len() != "se"@.len());
    assert("d"@.len() != "southeast"@.len() && "d"@.len() != "se"@.len());
    assert("down"@.len() != "southwest"@.len() && "down"@.len() != "sw"@.len());
    assert("d"@.len() != "southwest"@.len() && "d"@.len() != "sw"@.len());
    assert("down"@.len() != "up"@.len() && "down"@.len() != "u"@.len());
    assert("d"@.len() != "up"@.len() && "d"@[0] != "u"@[0]);
}

/// How the ways in and out are read.
proof fn lemma_direction_alias_reads_in_out()
    ensures
        direction_alias("in"@) == Some("in"@),
        direction_alias("inside"@) == Some("in"@),
        direction_alias("enter"@) == Some("in"@),
        direction_alias("out"@) == Some("out"@),
        direction_alias("outside"@) == Some("out"@),
        direction_alias("exit"@) == Some("out"@),
{
    reveal_strlit("north");
    reveal_strlit("n");
    reveal_strlit("south");
    reveal_strlit("s");
    reveal_strlit("east");
    reveal_strlit("e");
    reveal_strlit("west");
    reveal_strlit("w");
    reveal_strlit("northeast");
    reveal_strlit("ne");
    reveal_strlit("northwest");
    reveal_strlit("nw");
    reveal_strlit("southeast");
    reveal_strlit("se");
    reveal_strlit("southwest");
    reveal_strlit("sw");
    reveal_strlit("up");
    reveal_strlit("u");
    reveal_strlit("down");
    reveal_strlit("d");
    reveal_strlit("in");
    reveal_strlit("inside");
    reveal_strlit("enter");
    reveal_strlit("out");
    reveal_strlit("outside");
    reveal_strlit("exit");
    assert("in"@.len() != "north"@.len());
    assert("in"@.len() != "n"@.len());
    assert("in"@.len() != "south"@.len());
    assert("in"@.len() != "s"@.len());
    assert("in"@.len() != "east"@.len());
    assert("in"@.len() != "e"@.len());
    assert("in"@.len() != "west"@.len());
    assert("in"@.len() != "w"@.len());
    assert("in"@.len() != "northeast"@.len());
    assert("in"@[0] != "ne"@[0]);
    assert("in"@.len() != "northwest"@.len());
    assert("in"@[0] != "nw"@[0]);
    assert("in"@.len() != "southeast"@.len());
    assert("in"@[0] != "se"@[0]);
    assert("in"@.len() != "southwest"@.len());
    assert("in"@[0] != "sw"@[0]);
    assert("in"@[0] != "up"@[0]);
    assert("in"@.len() != "u"@.len());
    assert("in"@.len() != "down"@.len());
    assert("in"@.len() != "d"@.len());
    assert("inside"@.len() != "north"@.len());
    assert("inside"@.len() != "n"@.len());
    assert("inside"@.len() != "south"@.len());
    assert("inside"@.len() != "s"@.len());
    assert("inside"@.len() != "east"@.len());
    assert("inside"@.len() != "e"@.len());
    assert("inside"@.len() != "west"@.len());
    assert("inside"@.len() != "w"@.len());
    assert("inside"@.len() != "northeast"@.len());
    assert("inside"@.len() != "ne"@.len());
    assert("inside"@.len() != "northwest"@.len());
    assert("inside"@.len() != "nw"@.len());
    assert("inside"@.len() != "southeast"@.len());
    assert("inside"@.len() != "se"@.len());
    assert("inside"@.len() != "southwest"@.len());
    assert("inside"@.len() != "sw"@.len());
    assert("inside"@.len() != "up"@.len());
    assert("inside"@.len() != "u"@.len());
    assert("inside"@.len() != "down"@.len());
    assert("inside"@.len() != "d"@.len());
    assert("enter"@[0] != "north"@[0]);
    assert("enter"@.len() != "n"@.len());
    assert("enter"@[0] != "south"@[0]);
    assert("enter"@.len() != "s"@.len());
    assert("enter"@.len() != "east"@.len());
    assert("enter"@.len() != "e"@.len());
    assert("enter"@.len() != "west"@.len());
    assert("enter"@.len() != "w"@.len());
    assert("enter"@.len() != "northeast"@.len());
    assert("enter"@.len() != "ne"@.len());
    assert("enter"@.len() != "northwest"@.len());
    assert("enter"@.len() != "nw"@.len());
    assert("enter"@.len() != "southeast"@.len());
    assert("enter"@.len() != "se"@.len());
    assert("enter"@.len() != "southwest"@.len());
    assert("enter"@.len() != "sw"@.len());
    assert("enter"@.len() != "up"@.len());
    assert("enter"@.len() != "u"@.len());
    assert("enter"@.len() != "down"@.len());
    assert("enter"@.len() != "d"@.len());
    assert("out"@.len() != "north"@.len());
    assert("out"@.len() != "n"@.len());
    assert("out"@.len() != "south"@.len());
    assert("out"@.len() != "s"@.len());
    assert("out"@.len() != "east"@.len());
    assert("out"@.len() != "e"@.len());
    assert("out"@.len() != "west"@.len());
    assert("out"@.len() != "w"@.len());
    assert("out"@.len() != "northeast"@.len());
    assert("out"@.len() != "ne"@.len());
    assert("out"@.len() != "northwest"@.len());
    assert("out"@.len() != "nw"@.len());
    assert("out"@.len() != "southeast"@.len());
    assert("out"@.len() != "se"@.len());
    assert("out"@.len() != "southwest"@.len());
    assert("out"@.len() != "sw"@.len());
    assert("out"@.len() != "up"@.len());
    assert("out"@.len() != "u"@.len());
    assert("out"@.len() != "down"@.len());
    assert("out"@.len() != "d"@.len());
    assert("out"@.len() != "in"@.len());
    assert("out"@.len() != "inside"@.len());
    assert("out"@.len() != "enter"@.len());
    assert("outside"@.len() != "north"@.len());
    assert("outside"@.len() != "n"@.len());
    assert("outside"@.len() != "south"@.len());
    assert("outside"@.len() != "s"@.len());
    assert("outside"@.len() != "east"@.len());
    assert("outside"@.len() != "e"@.len());
    assert("outside"@.len() != "west"@.len());
    assert("outside"@.len() != "w"@.len());
    assert("outside"@.len() != "northeast"@.len());
    assert("outside"@.len() != "ne"@.len());
    assert("outside"@.len() != "northwest"@.len());
    assert("outside"@.len() != "nw"@.len());
    assert("outside"@.len() != "southeast"@.len());
    assert("outside"@.len() != "se"@.len());
    assert("outside"@.len() != "southwest"@.len());
    assert("outside"@.len() != "sw"@.len());
    assert("outside"@.len() != "up"@.len());
    assert("outside"@.len() != "u"@.len());
    assert("outside"@.len() != "down"@.len());
    assert("outside"@.len() != "d"@.len());
    assert("outside"@.len() != "in"@.len());
    assert("outside"@.len() != "inside"@.len());
    assert("outside"@.len() != "enter"@.len());
    assert("exit"@.len() != "north"@.len());
    assert("exit"@.len() != "n"@.len());
    assert("exit"@.len() != "south"@.len());
    assert("exit"@.len() != "s"@.len());
    assert("exit"@[1] != "east"@[1]);
    assert("exit"@.len() != "e"@.len());
    assert("exit"@[0] != "west"@[0]);
    assert("exit"@.len() != "w"@.len());
    assert("exit"@.len() != "northeast"@.len());
    assert("exit"@.len() != "ne"@.len());
    assert("exit"@.len() != "northwest"@.len());
    assert("exit"@.len() != "nw"@.len());
    assert("exit"@.len() != "southeast"@.len());
    assert("exit"@.len() != "se"@.len());
    assert("exit"@.len() != "southwest"@.len());
    assert("exit"@.len() != "sw"@.len());
    assert("exit"@.len() != "up"@.len());
    assert("exit"@.len() != "u"@.len());
    assert("exit"@[0] != "down"@[0]);
    assert("exit"@.len() != "d"@.len());
    assert("exit"@.len() != "in"@.len());
    assert("exit"@.len() != "inside"@.len());
    assert("exit"@.len() != "enter"@.len());
}

/// Each compass point, up and down is read as itself and from its
/// abbreviation; any name of at most two letters read as a direction is
/// that direction or its abbreviation; every direction read is read as
/// itself again and has an opposite; `inside` and `enter` are read as `in`,
/// `outside` and `exit` as `out`.
pub proof fn lemma_direction_abbreviations(t: Seq<char>)
    ensures
        forall|i: int|
            0 <= i < abbreviated_directions().len() ==> direction_alias(
                #[trigger] abbreviated_directions()[i],
            ) == Some(abbreviated_directions()[i]) && direction_alias(
                direction_initials(abbreviated_directions()[i]),
            ) == Some(abbreviated_directions()[i]),
        direction_alias(t) matches Some(d) ==> has_opposite(d) && direction_alias(d) == Some(d) && (
        t.len() <= 2 ==> (t == d || t == direction_initials(d))),
        direction_alias("inside"@) == Some("in"@) && direction_alias("enter"@) == Some("in"@),
        direction_alias("outside"@) == Some("out"@) && direction_alias("exit"@) == Some("out"@),
{
    lemma_direction_alias_reads_in_out();
    reveal_strlit("north");
    reveal_strlit("south");
    reveal_strlit("east");
    reveal_strlit("west");
    reveal_strlit("northeast");
    reveal_strlit("northwest");
    reveal_strlit("southeast");
    reveal_strlit("southwest");
    reveal_strlit("up");
    reveal_strlit("down");
    reveal_strlit("in");
    reveal_strlit("out");
    reveal_strlit("n");
    reveal_strlit("s");
    reveal_strlit("e");
    reveal_strlit("w");
    reveal_strlit("ne");
    reveal_strlit("nw");
    reveal_strlit("se");
    reveal_strlit("sw");
    reveal_strlit("u");
    reveal_strlit("d");
    reveal_strlit("inside");
    reveal_strlit("enter");
    reveal_strlit("outside");
    reveal_strlit("exit");
    assert("n"@ =~= seq!['n'] && "s"@ =~= seq!['s'] && "e"@ =~= seq!['e'] && "w"@ =~= seq!['w']);
    assert("u"@ =~= seq!['u'] && "d"@ =~= seq!['d']);
    assert("ne"@ =~= seq!['n', 'e'] && "nw"@ =~= seq!['n', 'w'] && "se"@ =~= seq!['s', 'e'] && "sw"@
        =~= seq!['s', 'w']);
    assert("in"@ =~= seq!['i', 'n'] && "up"@ =~= seq!['u', 'p']);
    lemma_direction_alias_reads();
    let names = abbreviated_directions();
    assert forall|i: int| 0 <= i < names.len() implies direction_alias(#[trigger] names[i]) == Some(
        names[i],
    ) && direction_alias(direction_initials(names[i])) == Some(names[i]) by {
        let d = names[i];
        if i == 0 {
            assert(d == "north"@);
            assert(d.len() == 5 && d[0] == 'n');
            assert(direction_initials(d) == seq![d[0]]);
            assert(direction_initials(d) =~= "n"@);
        } else if i == 1 {
            assert(d == "south"@);
            assert(d.len() == 5 && d[0] == 's');
            assert(direction_initials(d) == seq![d[0]]);
            assert(direction_initials(d) =~= "s"@);
        } else if i == 2 {
            assert(d == "east"@);
            assert(direction_initials(d) =~= "e"@);
        } else if i == 3 {
            assert(d == "west"@);
            assert(direction_initials(d) =~= "w"@);
        } else if i == 4 {
            assert(d == "northeast"@);
            assert(d.take(5) =~= "north"@);
            assert(direction_initials(d) =~= "ne"@);
        } else if i == 5 {
            assert(d == "northwest"@);
            assert(d.take(5) =~= "north"@);
            assert(direction_initials(d) =~= "nw"@);
        } else if i == 6 {
            assert(d == "southeast"@);
            assert(d.take(5) =~= "south"@);
            assert(direction_initials(d) =~= "se"@);
        } else if i == 7 {
            assert(d == "southwest"@);
            assert(d.take(5) =~= "south"@);
            assert(direction_initials(d) =~= "sw"@);
        } else if i == 8 {
            assert(d == "up"@);
            assert(direction_initials(d) =~= "u"@);
        } else if i == 9 {
            assert(d == "down"@);
            assert(direction_initials(d) =~= "d"@);
        }
    }
    if let Some(d) = direction_alias(t) {
        let ps = opposite_directions();
        if d == "north"@ || d == "south"@ {
            assert(ps[0] == ("north"@, "south"@));
            assert(are_opposite(d, if d == "north"@ { "south"@ } else { "north"@ }));
        } else if d == "east"@ || d == "west"@ {
            assert(ps[1] == ("east"@, "west"@));
            assert(are_opposite(d, if d == "east"@ { "west"@ } else { "east"@ }));
        } else if d == "northeast"@ || d == "southwest"@ {
            assert(ps[2] == ("northeast"@, "southwest"@));
            assert(are_opposite(d, if d == "northeast"@ { "southwest"@ } else { "northeast"@ }));
        } else if d == "northwest"@ || d == "southeast"@ {
            assert(ps[3] == ("northwest"@, "southeast"@));
            assert(are_opposite(d, if d == "northwest"@ { "southeast"@ } else { "northwest"@ }));
        } else if d == "up"@ || d == "down"@ {
            assert(ps[4] == ("up"@, "down"@));
            assert(are_opposite(d, if d == "up"@ { "down"@ } else { "up"@ }));
        } else {
            assert(ps[5] == ("in"@, "out"@));
            assert(are_opposite(d, if d == "in"@ { "out"@ } else { "in"@ }));
        }
        if t.len() <= 2 {
            if d == "northeast"@ || d == "northwest"@ {
                assert(d.take(5) =~= "north"@);
            } else if d == "southeast"@ || d == "southwest"@ {
                assert(d.take(5) =~= "south"@);
            }
            if t == "n"@ {
                assert(direction_initials(d) =~= t);
            } else if t == "s"@ {
                assert(direction_initials(d) =~= t);
            } else if t == "e"@ {
                assert(direction_initials(d) =~= t);
            } else if t == "w"@ {
                assert(direction_initials(d) =~= t);
            } else if t == "ne"@ {
                assert(direction_initials(d) =~= t);
            } else if t == "nw"@ {
                assert(direction_initials(d) =~= t);
            } else if t == "se"@ {
                assert(direction_initials(d) =~= t);
            } else if t == "sw"@ {
                assert(direction_initials(d) =~= t);
            } else if t == "u"@ {
                assert(direction_initials(d) =~= t);
            } else if t == "d"@ {
                assert(direction_initials(d) =~= t);
            }
        }
    }
}

/// Whether a line can be a location title: at most eight words, each
/// beginning with an ASCII capital, no `>` and no final `!`.
pub open spec fn is_title_line(line: Seq<char>) -> bool {
    let ws = words(line);
    &&& line.len() > 0
    &&& line.last() != '!'
    &&& !line.contains('>')
    &&& 0 < ws.len() <= 8
    &&& forall|i: int| #![trigger ws[i]] 0 <= i < ws.len() ==> ws[i].len() > 0 && is_ascii_upper(ws[i][0])
}

/// The trimmed non-empty lines of a text.
pub open spec fn content_lines(ls: Seq<Seq<char>>) -> Seq<Seq<char>>
    decreases ls.len(),
{
    if ls.len() == 0 {
        seq![]
    } else {
        let rest = content_lines(ls.drop_last());
        let t = trim(ls.last());
        if t.len() > 0 {
            rest.push(t)
        } else {
            rest
        }
    }
}

/// The index of the last title line.
pub open spec fn last_title_index(ls: Seq<Seq<char>>) -> Option<int>
    decreases ls.len(),
{
    if ls.len() == 0 {
        None
    } else if is_title_line(ls.last()) {
        Some(ls.len() - 1)
    } else {
        last_title_index(ls.drop_last())
    }
}

/// The location title and description an observation shows: the last title
/// line and the line after it; failing a title line, the first line and the
/// whole text.
pub open spec fn snapshot(text: Seq<char>) -> Option<(Seq<char>, Seq<char>)> {
    let ls = content_lines(lines(text));
    match last_title_index(ls) {
        Some(i) => Some(
            (
                ls[i],
                if i + 1 < ls.len() {
                    ls[i + 1]
                } else {
                    seq![]
                },
            ),
        ),
        None => if ls.len() > 0 {
            Some((ls[0], text))
        } else {
            None
        },
    }
}


// ---------------------------------------------------------------------------
// Text rules, executable
// ---------------------------------------------------------------------------

/// The normalized words of a text (`split_whitespace`, trimmed to ASCII
/// letters and digits at both ends, lower-cased, empty ones dropped).
fn normalized_words(text: &[char]) -> (r: Vec<Vec<char>>)
    ensures
        r@.map_values(|w: Vec<char>| w@) == normalize_words(words(text@)),
{
    let ws = split_words(text);
    let ghost wv = ws@.map_values(|w: Vec<char>| w@);
    let mut r: Vec<Vec<char>> = Vec::new();
    let mut i: usize = 0;
    assert(wv.take(0) =~= Seq::<Seq<char>>::empty());
    assert(r@.map_values(|w: Vec<char>| w@) =~= Seq::<Seq<char>>::empty());
    while i < ws.len()
        invariant
            0 <= i <= ws@.len(),
            wv == ws@.map_values(|w: Vec<char>| w@),
            wv == words(text@),
            r@.map_values(|w: Vec<char>| w@) == normalize_words(wv.take(i as int)),
        decreases ws@.len() - i,
    {
        assert(wv.take(i + 1).drop_last() =~= wv.take(i as int));
        assert(wv.take(i + 1).last() == ws@[i as int]@);
        let trimmed = trim_non_alnum_chars(ws[i].as_slice());
        let lowered = lowercase_chars(trimmed.as_slice());
        let ghost before = r@.map_values(|w: Vec<char>| w@);
        if lowered.len() > 0 {
            r.push(lowered);
            assert(r@.map_values(|w: Vec<char>| w@) =~= before.push(normalize_word(wv[i as int])));
        }
        i += 1;
    }
    assert(wv.take(ws@.len() as int) =~= wv);
    r
}

/// The text that descriptions are compared and hashed by.
fn normalized_key_material(text: &[char]) -> (r: Vec<char>)
    ensures
        r@ == key_material(text@),
{
    let ws = normalized_words(text);
    let sep = chars_of(" ");
    proof {
        reveal_strlit(" ");
    }
    assert(sep@ =~= seq![' ']);
    join_chars(&ws, sep.as_slice())
}

/// Whether a description reads like the game's description of a room.
fn looks_like_room_description(description: &[char]) -> (r: bool)
    ensures
        r == looks_like_room(description@),
{
    let n = normalized_key_material(description);
    starts_with_lit(n.as_slice(), "you are ") || starts_with_lit(n.as_slice(), "you have ")
        || starts_with_lit(n.as_slice(), "at your feet ")
}

/// Whether a newly seen description should replace the recorded one: only a
/// non-empty one, and over a non-empty one only one that reads like a room.
fn should_update_location_description(existing: &[char], next: &[char]) -> (r: bool)
    ensures
        r == should_update_description(existing@, next@),
{
    let next = trim_chars(next);
    if next.len() == 0 {
        return false;
    }
    let existing = trim_chars(existing);
    if existing.len() == 0 {
        return true;
    }
    looks_like_room_description(next.as_slice())
}

/// An owned copy of a string slice.
pub fn lit_string(s: &str) -> (r: String)
    ensures
        r@ == s@,
{
    s.to_owned()
}

/// The canonical direction for a movement word or abbreviation.
pub fn direction_from_alias(t: &[char]) -> (r: Option<String>)
    ensures
        opt_view(r) == direction_alias(t@),
{
    if eq_lit(t, "north") || eq_lit(t, "n") {
        Some(lit_string("north"))
    } else if eq_lit(t, "south") || eq_lit(t, "s") {
        Some(lit_string("south"))
    } else if eq_lit(t, "east") || eq_lit(t, "e") {
        Some(lit_string("east"))
    } else if eq_lit(t, "west") || eq_lit(t, "w") {
        Some(lit_string("west"))
    } else if eq_lit(t, "northeast") || eq_lit(t, "ne") {
        Some(lit_string("northeast"))
    } else if eq_lit(t, "northwest") || eq_lit(t, "nw") {
        Some(lit_string("northwest"))
    } else if eq_lit(t, "southeast") || eq_lit(t, "se") {
        Some(lit_string("southeast"))
    } else if eq_lit(t, "southwest") || eq_lit(t, "sw") {
        Some(lit_string("southwest"))
    } else if eq_lit(t, "up") || eq_lit(t, "u") {
        Some(lit_string("up"))
    } else if eq_lit(t, "down") || eq_lit(t, "d") {
        Some(lit_string("down"))
    } else if eq_lit(t, "in") || eq_lit(t, "inside") || eq_lit(t, "enter") {
        Some(lit_string("in"))
    } else if eq_lit(t, "out") || eq_lit(t, "outside") || eq_lit(t, "exit") {
        Some(lit_string("out"))
    } else {
        None
    }
}

/// A command trimmed, lower-cased and without a leading `go `.
pub fn command_words(command: &str) -> (r: Vec<char>)
    ensures
        r@ == without_go(lowercase_of(trim(command@))),
{
    let c = chars_of(command);
    let t = trim_chars(c.as_slice());
    let lowered = lowercase_chars(t.as_slice());
    if starts_with_lit(lowered.as_slice(), "go ") {
        let go = chars_of("go ");
        let rest = slice_chars(lowered.as_slice(), go.len(), lowered.len());
        assert(rest@ =~= lowered@.skip("go "@.len() as int));
        trim_chars(rest.as_slice())
    } else {
        lowered
    }
}

/// The canonical direction a command moves in, if it is a movement.
fn normalize_direction_of(command: &str) -> (r: Option<String>)
    ensures
        opt_view(r) == normalize_direction(command@),
{
    let t = command_words(command);
    direction_from_alias(t.as_slice())
}

/// The direction leading back.
fn reverse_direction_of(direction: &str) -> (r: Option<String>)
    ensures
        opt_view(r) == reverse_direction(direction@),
{
    let d = chars_of(direction);
    let t = d.as_slice();
    if eq_lit(t, "north") {
        Some(lit_string("south"))
    } else if eq_lit(t, "south") {
        Some(lit_string("north"))
    } else if eq_lit(t, "east") {
        Some(lit_string("west"))
    } else if eq_lit(t, "west") {
        Some(lit_string("east"))
    } else if eq_lit(t, "northeast") {
        Some(lit_string("southwest"))
    } else if eq_lit(t, "northwest") {
        Some(lit_string("southeast"))
    } else if eq_lit(t, "southeast") {
        Some(lit_string("northwest"))
    } else if eq_lit(t, "southwest") {
        Some(lit_string("northeast"))
    } else if eq_lit(t, "up") {
        Some(lit_string("down"))
    } else if eq_lit(t, "down") {
        Some(lit_string("up"))
    } else if eq_lit(t, "in") {
        Some(lit_string("out"))
    } else if eq_lit(t, "out") {
        Some(lit_string("in"))
    } else {
        None
    }
}

/// Whether a line can be a location title.
fn is_location_title_line(line: &[char]) -> (r: bool)
    ensures
        r == is_title_line(line@),
{
    let n = line.len();
    if n == 0 || line[n - 1] == '!' {
        return false;
    }
    if contains_char(line, '>') {
        return false;
    }
    let ws = split_words(line);
    let ghost wv = ws@.map_values(|w: Vec<char>| w@);
    if ws.len() == 0 || ws.len() > 8 {
        return false;
    }
    let mut i: usize = 0;
    while i < ws.len()
        invariant
            0 <= i <= ws@.len(),
            wv == ws@.map_values(|w: Vec<char>| w@),
            wv == words(line@),
            forall|k: int| #![trigger wv[k]] 0 <= k < i ==> wv[k].len() > 0 && is_ascii_upper(wv[k][0]),
        decreases ws@.len() - i,
    {
        assert(wv[i as int] == ws@[i as int]@);
        let w = &ws[i];
        if w.len() == 0 {
            assert(!is_title_line(line@));
            return false;
        }
        let c = w[0];
        assert(c == wv[i as int][0]);
        if !char_is_ascii_upper(c) {
            assert(!is_title_line(line@));
            return false;
        }
        i += 1;
    }
    assert(wv.len() == ws@.len());
    true
}


/// The trimmed non-empty lines of a text.
pub fn content_lines_of(text: &[char]) -> (r: Vec<Vec<char>>)
    ensures
        r@.map_values(|w: Vec<char>| w@) == content_lines(lines(text@)),
{
    let ls = split_lines(text);
    let ghost lv = ls@.map_values(|w: Vec<char>| w@);
    let mut r: Vec<Vec<char>> = Vec::new();
    let mut i: usize = 0;
    assert(lv.take(0) =~= Seq::<Seq<char>>::empty());
    assert(r@.map_values(|w: Vec<char>| w@) =~= Seq::<Seq<char>>::empty());
    while i < ls.len()
        invariant
            0 <= i <= ls@.len(),
            lv == ls@.map_values(|w: Vec<char>| w@),
            lv == lines(text@),
            r@.map_values(|w: Vec<char>| w@) == content_lines(lv.take(i as int)),
        decreases ls@.len() - i,
    {
        assert(lv.take(i + 1).drop_last() =~= lv.take(i as int));
        assert(lv.take(i + 1).last() == ls@[i as int]@);
        let t = trim_chars(ls[i].as_slice());
        let ghost before = r@.map_values(|w: Vec<char>| w@);
        if t.len() > 0 {
            r.push(t);
            assert(r@.map_values(|w: Vec<char>| w@) =~= before.push(trim(lv[i as int])));
        }
        i += 1;
    }
    assert(lv.take(ls@.len() as int) =~= lv);
    r
}

/// Every line that `content_lines` keeps is non-empty.
pub proof fn lemma_content_lines_nonempty(ls: Seq<Seq<char>>)
    ensures
        forall|i: int| 0 <= i < content_lines(ls).len() ==> #[trigger] content_lines(ls)[i].len() > 0,
    decreases ls.len(),
{
    if ls.len() > 0 {
        lemma_content_lines_nonempty(ls.drop_last());
        let rest = content_lines(ls.drop_last());
        let t = trim(ls.last());
        if t.len() > 0 {
            assert forall|i: int| 0 <= i < rest.push(t).len() implies #[trigger] rest.push(t)[i].len()
                > 0 by {
                if i < rest.len() {
                    assert(rest.push(t)[i] == rest[i]);
                }
            }
        }
    }
}

proof fn lemma_last_title_index_cut(ls: Seq<Seq<char>>, j: int)
    requires
        0 <= j <= ls.len(),
        forall|k: int| j <= k < ls.len() ==> !is_title_line(#[trigger] ls[k]),
    ensures
        last_title_index(ls) == last_title_index(ls.take(j)),
    decreases ls.len() - j,
{
    if j < ls.len() {
        assert(ls.drop_last().take(j) =~= ls.take(j));
        lemma_last_title_index_cut(ls.drop_last(), j);
    } else {
        assert(ls.take(j) =~= ls);
    }
}

/// The location title and description an observation shows: the last title
/// line and the line after it; failing a title line, the first non-empty
/// line and the whole text; `None` for a text without a non-empty line.
pub fn location_snapshot_from_observation(text: &str) -> (r: Option<(String, String)>)
    ensures
        match r {
            Some((title, description)) => snapshot(text@) == Some((title@, description@)),
            None => snapshot(text@) is None,
        },
{
    let tv = chars_of(text);
    let ls = content_lines_of(tv.as_slice());
    let ghost lv = ls@.map_values(|w: Vec<char>| w@);
    let n = ls.len();
    let mut j: usize = n;
    while j > 0
        invariant
            0 <= j <= n == ls@.len(),
            lv == ls@.map_values(|w: Vec<char>| w@),
            lv == content_lines(lines(text@)),
            forall|k: int| j <= k < n ==> !is_title_line(#[trigger] lv[k]),
        decreases j,
    {
        assert(lv[j - 1] == ls@[j - 1]@);
        if is_location_title_line(ls[j - 1].as_slice()) {
            proof {
                lemma_last_title_index_cut(lv, j as int);
                assert(lv.take(j as int).last() == lv[j - 1]);
                assert(last_title_index(lv.take(j as int)) == Some(j - 1));
                assert(last_title_index(lv) == Some(j - 1));
            }
            let title = string_of(ls[j - 1].as_slice());
            let description = if j < n {
                assert(lv[j as int] == ls@[j as int]@);
                string_of(ls[j].as_slice())
            } else {
                String::new()
            };
            return Some((title, description));
        }
        j -= 1;
    }
    proof {
        lemma_last_title_index_cut(lv, 0);
    }
    if n > 0 {
        assert(lv[0] == ls@[0]@);
        Some((string_of(ls[0].as_slice()), text.to_owned()))
    } else {
        None
    }
}

/// The key a title and description are known by before any collision: the trimmed title.
pub fn location_key_from_snapshot(title: &str, description: &str) -> (r: String)
    ensures
        r@ == trim(title@),
{
    trim_str(title)
}

/// The digest of a description's key material, as 16 hex digits.
fn description_hash(description: &[char]) -> (r: Vec<char>)
    ensures
        r@ == digest_hex(key_material(description@)),
        r@.len() == 16,
{
    let m = normalized_key_material(description);
    let s = string_of(m.as_slice());
    digest_hex_chars(s.as_str())
}


// ---------------------------------------------------------------------------
// World rules
// ---------------------------------------------------------------------------

/// The key a name resolves to: itself when a location has that key, else the
/// location its alias names, else itself; names are trimmed first.
pub open spec fn canon(w: WorldView, key: Seq<char>) -> Seq<char> {
    let k = trim(key);
    if k.len() == 0 {
        seq![]
    } else if has_key(w.locations, k) {
        k
    } else {
        match lookup(w.location_aliases, k) {
            Some(target) => target,
            None => k,
        }
    }
}

/// The first location recorded with this title and the same description key material.
pub open spec fn exact_index(
    locs: Seq<(Seq<char>, LocationView)>,
    title: Seq<char>,
    description: Seq<char>,
) -> Option<int> {
    first_index(
        locs,
        |e: (Seq<char>, LocationView)|
            e.1.title == title && key_material(e.1.description) == key_material(description),
    )
}

/// The keys of the locations with this title, in order.
pub open spec fn title_keys(locs: Seq<(Seq<char>, LocationView)>, title: Seq<char>) -> Seq<
    Seq<char>,
>
    decreases locs.len(),
{
    if locs.len() == 0 {
        seq![]
    } else {
        let rest = title_keys(locs.drop_last(), title);
        if locs.last().1.title == title {
            rest.push(locs.last().0)
        } else {
            rest
        }
    }
}

/// The descriptions of the locations with this title, in order.
pub open spec fn title_descriptions(locs: Seq<(Seq<char>, LocationView)>, title: Seq<char>) -> Seq<
    Seq<char>,
>
    decreases locs.len(),
{
    if locs.len() == 0 {
        seq![]
    } else {
        let rest = title_descriptions(locs.drop_last(), title);
        if locs.last().1.title == title {
            rest.push(locs.last().1.description)
        } else {
            rest
        }
    }
}

/// The one location with this title, when exactly one has it.
pub open spec fn unique_title_key(locs: Seq<(Seq<char>, LocationView)>, title: Seq<char>) -> Option<
    Seq<char>,
> {
    let ks = title_keys(locs, title);
    if ks.len() == 1 {
        Some(ks[0])
    } else {
        None
    }
}

/// The location an alias of this name leads to, when that location exists.
pub open spec fn title_alias(w: WorldView, title: Seq<char>) -> Option<Seq<char>> {
    match lookup(w.location_aliases, title) {
        Some(k) => if has_key(w.locations, k) {
            Some(k)
        } else {
            None
        },
        None => None,
    }
}

/// Which known location an observed title and description name, if any.
pub open spec fn match_snapshot(w: WorldView, title: Seq<char>, description: Seq<char>) -> Option<
    MatchView,
> {
    let t = trim(title);
    match exact_index(w.locations, t, description) {
        Some(i) => Some(MatchView { key: w.locations[i].0, confidence: LocationMatchConfidence::Exact }),
        None => {
            let alias = title_alias(w, t);
            let room = looks_like_room(description);
            if alias is Some && !room {
                Some(MatchView { key: alias->0, confidence: LocationMatchConfidence::Alias })
            } else if room {
                None
            } else {
                match unique_title_key(w.locations, t) {
                    Some(k) => Some(MatchView { key: k, confidence: LocationMatchConfidence::Probable }),
                    None => match alias {
                        Some(k) => match lookup(w.locations, k) {
                            Some(l) => if !l.provisional {
                                Some(MatchView { key: k, confidence: LocationMatchConfidence::Alias })
                            } else {
                                None
                            },
                            None => None,
                        },
                        None => None,
                    },
                }
            }
        },
    }
}

/// The one location with this title, for a description that does not read like a room.
pub open spec fn single_title_key(w: WorldView, title: Seq<char>, description: Seq<char>) -> Option<
    Seq<char>,
> {
    match unique_title_key(w.locations, title) {
        Some(k) => if !looks_like_room(description) {
            Some(k)
        } else {
            None
        },
        None => None,
    }
}

/// The value of a run of ASCII digits.
pub open spec fn digits_value(d: Seq<char>) -> nat
    decreases d.len(),
{
    if d.len() == 0 {
        0
    } else {
        digits_value(d.drop_last()) * 10 + ((d.last() as u32) - ('0' as u32)) as nat
    }
}

/// The digits of a number text after an optional `+`.
pub open spec fn without_plus(s: Seq<char>) -> Seq<char> {
    if s.len() > 0 && s[0] == '+' {
        s.drop_first()
    } else {
        s
    }
}

pub open spec fn all_digits(d: Seq<char>) -> bool {
    forall|i: int| 0 <= i < d.len() ==> is_ascii_digit(#[trigger] d[i])
}

/// `str::parse::<usize>`: an optional `+`, then one or more ASCII digits, of a value that fits.
pub open spec fn parse_usize(s: Seq<char>) -> Option<nat> {
    let d = without_plus(s);
    if d.len() > 0 && all_digits(d) && digits_value(d) <= usize::MAX {
        Some(digits_value(d))
    } else {
        None
    }
}

/// The number of a `loc-` key.
pub open spec fn loc_number(key: Seq<char>) -> Option<nat> {
    if starts_with(key, "loc-"@) {
        parse_usize(key.skip("loc-"@.len() as int))
    } else {
        None
    }
}

/// The largest number of a `loc-` key among the locations.
pub open spec fn max_loc_number(locs: Seq<(Seq<char>, LocationView)>) -> Option<nat>
    decreases locs.len(),
{
    if locs.len() == 0 {
        None
    } else {
        let rest = max_loc_number(locs.drop_last());
        match loc_number(locs.last().0) {
            Some(v) => match rest {
                Some(m) => Some(if v > m {
                    v
                } else {
                    m
                }),
                None => Some(v),
            },
            None => rest,
        }
    }
}

/// The number the next new location's key gets.
pub open spec fn next_number(w: WorldView) -> nat {
    if w.next_location_id == 0 {
        match max_loc_number(w.locations) {
            Some(m) => m + 1,
            None => 1,
        }
    } else {
        w.next_location_id as nat
    }
}

/// The key of the location numbered `n`: `loc-` and at least six digits.
pub open spec fn stable_key(n: nat) -> Seq<char> {
    "loc-"@ + zero_pad(decimal(n), 6)
}

/// Lexicographic order of characters by code point (that of `String`'s `Ord`, as UTF-8 keeps it).
pub open spec fn lex_less(a: Seq<char>, b: Seq<char>) -> bool
    decreases a.len(),
{
    if a.len() == 0 {
        b.len() > 0
    } else if b.len() == 0 {
        false
    } else if (a[0] as int) < (b[0] as int) {
        true
    } else if (a[0] as int) > (b[0] as int) {
        false
    } else {
        lex_less(a.drop_first(), b.drop_first())
    }
}

/// The length of the longest common prefix.
pub open spec fn prefix_len(a: Seq<char>, b: Seq<char>) -> nat
    decreases a.len(),
{
    if a.len() == 0 || b.len() == 0 || a[0] != b[0] {
        0
    } else {
        1 + prefix_len(a.drop_first(), b.drop_first())
    }
}

/// The common prefix length of `first` with the key material of each of `ds`.
pub open spec fn prefix_len_with_all(first: Seq<char>, ds: Seq<Seq<char>>) -> nat
    decreases ds.len(),
{
    if ds.len() == 0 {
        first.len()
    } else {
        let rest = prefix_len_with_all(first, ds.drop_last());
        let p = prefix_len(first, key_material(ds.last()));
        if p < rest {
            p
        } else {
            rest
        }
    }
}

/// How many leading characters the key materials of all descriptions share.
pub open spec fn common_prefix_len(ds: Seq<Seq<char>>) -> nat {
    if ds.len() == 0 {
        0
    } else {
        prefix_len_with_all(key_material(ds[0]), ds.drop_first())
    }
}

/// Whether all descriptions have this key material.
pub open spec fn all_material(ds: Seq<Seq<char>>, m: Seq<char>) -> bool {
    forall|i: int| 0 <= i < ds.len() ==> key_material(#[trigger] ds[i]) == m
}

/// A readable key for a title shared by several locations: the title, a dot,
/// and up to twenty characters of the description from where the
/// descriptions start to differ.
pub open spec fn distinguishing_key(title: Seq<char>, description: Seq<char>, ds: Seq<Seq<char>>) -> Seq<
    char,
> {
    let nd = key_material(description);
    if nd.len() == 0 {
        trim(title)
    } else if all_material(ds, nd) {
        trim(title) + "."@
    } else {
        let c = common_prefix_len(ds);
        let start = if c < nd.len() - 1 {
            c
        } else {
            (nd.len() - 1) as nat
        };
        let end: int = if start + 20 < nd.len() {
            (start + 20) as int
        } else {
            nd.len() as int
        };
        trim(title) + ". "@ + trim(nd.subrange(start as int, end))
    }
}

/// A key is free when it is not planned and no other location has it.
pub open spec fn key_available(
    key: Seq<char>,
    planned: Seq<Seq<char>>,
    locs: Seq<(Seq<char>, LocationView)>,
    current: Seq<char>,
) -> bool {
    !planned.contains(key) && (!has_key(locs, key) || key == current)
}

/// The first free key `base#` + the first `len`, `len + 1`, ... digits of the hash; `base` when none is.
pub open spec fn hashed_key(
    base: Seq<char>,
    hash: Seq<char>,
    planned: Seq<Seq<char>>,
    locs: Seq<(Seq<char>, LocationView)>,
    current: Seq<char>,
    len: nat,
) -> Seq<char>
    decreases hash.len() + 1 - len,
{
    if len > hash.len() {
        base
    } else {
        let candidate = base + "#"@ + hash.take(len as int);
        if key_available(candidate, planned, locs, current) {
            candidate
        } else {
            hashed_key(base, hash, planned, locs, current, len + 1)
        }
    }
}

/// A key for a title shared by several locations that no other location has.
pub open spec fn unique_key(
    title: Seq<char>,
    description: Seq<char>,
    ds: Seq<Seq<char>>,
    planned: Seq<Seq<char>>,
    locs: Seq<(Seq<char>, LocationView)>,
    current: Seq<char>,
) -> Seq<char> {
    let base = distinguishing_key(title, description, ds);
    let n = key_material(description);
    if !all_material(ds, n) && key_available(base, planned, locs, current) {
        base
    } else {
        hashed_key(base, digest_hex(n), planned, locs, current, 7)
    }
}

/// The readable names a new location is given: its distinguishing key, and
/// its title when no location has that title and no alias uses it; sorted,
/// without repeats.
pub open spec fn new_aliases(w: WorldView, title: Seq<char>, description: Seq<char>, key: Seq<char>) -> Seq<
    Seq<char>,
> {
    let ds = title_descriptions(w.locations, title).push(description);
    let readable = if ds.len() == 1 {
        trim(title)
    } else {
        unique_key(title, description, ds, seq![], w.locations, key)
    };
    let add_title = title_keys(w.locations, title).len() == 0 && !has_key(w.location_aliases, title);
    if !add_title || readable == title {
        seq![readable]
    } else if lex_less(title, readable) {
        seq![title, readable]
    } else {
        seq![readable, title]
    }
}

/// The alias table with each name pointing at `key`.
pub open spec fn alias_all(
    aliases: Seq<(Seq<char>, Seq<char>)>,
    names: Seq<Seq<char>>,
    key: Seq<char>,
) -> Seq<(Seq<char>, Seq<char>)>
    decreases names.len(),
{
    if names.len() == 0 {
        aliases
    } else {
        table_insert(alias_all(aliases, names.drop_last(), key), names.last(), key)
    }
}

/// The world with a new location for this title and description, and its key.
pub open spec fn create_location(w: WorldView, title: Seq<char>, description: Seq<char>) -> (
    WorldView,
    Seq<char>,
) {
    let n = next_number(w);
    let key = stable_key(n);
    let w1 = WorldView { next_location_id: (n + 1) as usize, ..w };
    let names = new_aliases(w1, title, description, key);
    let w2 = WorldView { location_aliases: alias_all(w1.location_aliases, names, key), ..w1 };
    let loc = LocationView {
        id: key,
        title,
        description,
        aliases: names,
        observed_descriptions: seq![description],
        provisional: !looks_like_room(description),
        exits: seq![],
        objects: seq![],
        notes: seq![],
    };
    (WorldView { locations: table_insert(w2.locations, key, loc), ..w2 }, key)
}

/// The key an observed title and description are recorded under, and the
/// world after recording a new location when none matches.
pub open spec fn key_for_snapshot(w: WorldView, title: Seq<char>, description: Seq<char>) -> (
    WorldView,
    Seq<char>,
) {
    let t = trim(title);
    match match_snapshot(w, t, description) {
        Some(m) if m.confidence != LocationMatchConfidence::New => (w, m.key),
        _ => match single_title_key(w, t, description) {
            Some(k) => (w, k),
            None => create_location(w, t, description),
        },
    }
}


proof fn lemma_digits_value_prefix(d: Seq<char>, k: int)
    requires
        0 <= k <= d.len(),
        forall|i: int| 0 <= i < d.len() ==> is_ascii_digit(#[trigger] d[i]),
    ensures
        digits_value(d.take(k)) <= digits_value(d),
    decreases d.len() - k,
{
    if k < d.len() {
        assert(d.drop_last().take(k) =~= d.take(k));
        assert forall|i: int| 0 <= i < d.drop_last().len() implies is_ascii_digit(
            #[trigger] d.drop_last()[i],
        ) by {
            assert(d.drop_last()[i] == d[i]);
        }
        lemma_digits_value_prefix(d.drop_last(), k);
    } else {
        assert(d.take(k) =~= d);
    }
}

/// `str::parse::<usize>` on characters.
pub fn parse_usize_chars(s: &[char]) -> (r: Option<usize>)
    ensures
        match r {
            Some(v) => parse_usize(s@) == Some(v as nat),
            None => parse_usize(s@) is None,
        },
{
    let n = s.len();
    let start: usize = if n > 0 && s[0] == '+' {
        1
    } else {
        0
    };
    let ghost d = without_plus(s@);
    assert(d =~= s@.subrange(start as int, n as int));
    if start == n {
        return None;
    }
    let mut acc: usize = 0;
    let mut i: usize = start;
    assert(d.take(0) =~= Seq::<char>::empty());
    while i < n
        invariant
            start <= i <= n == s@.len(),
            d == s@.subrange(start as int, n as int),
            d == without_plus(s@),
            acc as nat == digits_value(d.take(i - start)),
            forall|k: int| 0 <= k < i - start ==> is_ascii_digit(#[trigger] d[k]),
        decreases n - i,
    {
        let c = s[i];
        assert(c == d[i - start]);
        if !('0' <= c && c <= '9') {
            assert(!is_ascii_digit(d[i - start]));
            return None;
        }
        let digit = (c as u32 - '0' as u32) as usize;
        assert(d.take(i - start + 1).drop_last() =~= d.take(i - start));
        assert(d.take(i - start + 1).last() == c);
        assert(digits_value(d.take(i - start + 1)) == digits_value(d.take(i - start)) * 10
            + digit);
        let next = match acc.checked_mul(10) {
            Some(m) => m.checked_add(digit),
            None => None,
        };
        match next {
            Some(v) => {
                acc = v;
            },
            None => {
                proof {
                    assert(digits_value(d.take(i - start + 1)) > usize::MAX);
                    if all_digits(d) {
                        lemma_digits_value_prefix(d, i - start + 1);
                    }
                }
                return None;
            },
        }
        i += 1;
    }
    assert(d.take(n - start) =~= d);
    Some(acc)
}

/// The number of a `loc-` key.
fn loc_number_of(key: &str) -> (r: Option<usize>)
    ensures
        match r {
            Some(v) => loc_number(key@) == Some(v as nat),
            None => loc_number(key@) is None,
        },
{
    let k = chars_of(key);
    if starts_with_lit(k.as_slice(), "loc-") {
        let p = chars_of("loc-");
        let rest = slice_chars(k.as_slice(), p.len(), k.len());
        assert(rest@ =~= k@.skip("loc-"@.len() as int));
        parse_usize_chars(rest.as_slice())
    } else {
        None
    }
}

/// Digits shared at the front of two sequences.
fn prefix_len_of(a: &[char], b: &[char]) -> (r: usize)
    ensures
        r as nat == prefix_len(a@, b@),
{
    let mut i: usize = 0;
    assert(a@.skip(0) =~= a@);
    assert(b@.skip(0) =~= b@);
    while i < a.len() && i < b.len() && a[i] == b[i]
        invariant
            0 <= i <= a@.len(),
            i <= b@.len(),
            prefix_len(a@, b@) == i + prefix_len(a@.skip(i as int), b@.skip(i as int)),
        decreases a@.len() - i,
    {
        assert(a@.skip(i as int).drop_first() =~= a@.skip(i + 1));
        assert(b@.skip(i as int).drop_first() =~= b@.skip(i + 1));
        i += 1;
    }
    i
}

/// How many leading characters the key materials of all descriptions share.
fn common_prefix_char_len(descs: &Vec<Vec<char>>) -> (r: usize)
    ensures
        r as nat == common_prefix_len(descs@.map_values(|w: Vec<char>| w@)),
{
    let ghost ds = descs@.map_values(|w: Vec<char>| w@);
    if descs.len() == 0 {
        return 0;
    }
    let first = normalized_key_material(descs[0].as_slice());
    assert(ds[0] == descs@[0]@);
    let mut len = first.len();
    let mut i: usize = 1;
    assert(ds.subrange(1, 1) =~= Seq::<Seq<char>>::empty());
    while i < descs.len()
        invariant
            1 <= i <= descs@.len(),
            ds == descs@.map_values(|w: Vec<char>| w@),
            first@ == key_material(ds[0]),
            len as nat == prefix_len_with_all(first@, ds.subrange(1, i as int)),
        decreases descs@.len() - i,
    {
        assert(ds.subrange(1, i + 1).drop_last() =~= ds.subrange(1, i as int));
        assert(ds.subrange(1, i + 1).last() == descs@[i as int]@);
        let chars = normalized_key_material(descs[i].as_slice());
        let p = prefix_len_of(first.as_slice(), chars.as_slice());
        if p < len {
            len = p;
        }
        i += 1;
    }
    assert(ds.subrange(1, descs@.len() as int) =~= ds.drop_first());
    len
}

/// Whether every description has the given key material.
fn all_have_material(descs: &Vec<Vec<char>>, material: &[char]) -> (r: bool)
    ensures
        r == all_material(descs@.map_values(|w: Vec<char>| w@), material@),
{
    let ghost ds = descs@.map_values(|w: Vec<char>| w@);
    let mut i: usize = 0;
    while i < descs.len()
        invariant
            0 <= i <= descs@.len(),
            ds == descs@.map_values(|w: Vec<char>| w@),
            forall|k: int| 0 <= k < i ==> key_material(#[trigger] ds[k]) == material@,
        decreases descs@.len() - i,
    {
        assert(ds[i as int] == descs@[i as int]@);
        let m = normalized_key_material(descs[i].as_slice());
        if !chars_eq(m.as_slice(), material) {
            return false;
        }
        i += 1;
    }
    true
}

/// A readable key for a title shared by several locations: the title, a dot,
/// and up to twenty characters of the description from where the
/// descriptions start to differ.
fn location_key_with_distinguishing_words(
    title: &[char],
    description: &[char],
    descs: &Vec<Vec<char>>,
) -> (r: Vec<char>)
    ensures
        r@ == distinguishing_key(title@, description@, descs@.map_values(|w: Vec<char>| w@)),
{
    let nd = normalized_key_material(description);
    let mut key = trim_chars(title);
    if nd.len() == 0 {
        return key;
    }
    if all_have_material(descs, nd.as_slice()) {
        let dot = chars_of(".");
        append_chars(&mut key, dot.as_slice());
        return key;
    }
    let c = common_prefix_char_len(descs);
    let start = if c < nd.len() - 1 {
        c
    } else {
        nd.len() - 1
    };
    let end = if nd.len() - start > 20 {
        start + 20
    } else {
        nd.len()
    };
    let piece = slice_chars(nd.as_slice(), start, end);
    let suffix = trim_chars(piece.as_slice());
    let sep = chars_of(". ");
    append_chars(&mut key, sep.as_slice());
    append_chars(&mut key, suffix.as_slice());
    key
}

/// Whether the list holds these characters.
fn list_contains(list: &Vec<Vec<char>>, item: &[char]) -> (r: bool)
    ensures
        r == list@.map_values(|w: Vec<char>| w@).contains(item@),
{
    let ghost ls = list@.map_values(|w: Vec<char>| w@);
    let mut i: usize = 0;
    while i < list.len()
        invariant
            0 <= i <= list@.len(),
            ls == list@.map_values(|w: Vec<char>| w@),
            forall|k: int| 0 <= k < i ==> ls[k] != item@,
        decreases list@.len() - i,
    {
        assert(ls[i as int] == list@[i as int]@);
        if chars_eq(list[i].as_slice(), item) {
            return true;
        }
        i += 1;
    }
    false
}

/// A key is free when it is not planned and no other location has it.
fn key_is_available(
    key: &[char],
    planned_keys: &Vec<Vec<char>>,
    locations: &KeyedTable<Location>,
    current_key: &[char],
) -> (r: bool)
    ensures
        r == key_available(
            key@,
            planned_keys@.map_values(|w: Vec<char>| w@),
            locations@,
            current_key@,
        ),
{
    if list_contains(planned_keys, key) {
        return false;
    }
    let ks = string_of(key);
    !locations.contains_key(ks.as_str()) || chars_eq(key, current_key)
}

/// A key for a title shared by several locations that no other location has:
/// the distinguishing key when the descriptions differ and it is free, else
/// the first free one of it with `#` and the first 7, 8, ... 16 digits of the
/// description hash, else the distinguishing key.
fn unique_location_key_chars(
    title: &[char],
    description: &[char],
    descs: &Vec<Vec<char>>,
    planned_keys: &Vec<Vec<char>>,
    locations: &KeyedTable<Location>,
    current_key: &[char],
) -> (r: Vec<char>)
    ensures
        r@ == unique_key(
            title@,
            description@,
            descs@.map_values(|w: Vec<char>| w@),
            planned_keys@.map_values(|w: Vec<char>| w@),
            locations@,
            current_key@,
        ),
{
    let ghost ds = descs@.map_values(|w: Vec<char>| w@);
    let ghost ps = planned_keys@.map_values(|w: Vec<char>| w@);
    let base_key = location_key_with_distinguishing_words(title, description, descs);
    let normalized = normalized_key_material(description);
    let same = all_have_material(descs, normalized.as_slice());
    if !same && key_is_available(base_key.as_slice(), planned_keys, locations, current_key) {
        return base_key;
    }
    let hash = description_hash(description);
    let mut hash_len: usize = 7;
    assert(unique_key(title@, description@, ds, ps, locations@, current_key@) == hashed_key(
        base_key@,
        hash@,
        ps,
        locations@,
        current_key@,
        7,
    ));
    while hash_len <= hash.len()
        invariant
            7 <= hash_len <= hash@.len() + 1,
            hash@.len() == 16,
            ds == descs@.map_values(|w: Vec<char>| w@),
            hash@ == digest_hex(key_material(description@)),
            unique_key(title@, description@, ds, ps, locations@, current_key@) == hashed_key(
                base_key@,
                hash@,
                ps,
                locations@,
                current_key@,
                7,
            ),
            hashed_key(base_key@, hash@, ps, locations@, current_key@, 7) == hashed_key(
                base_key@,
                hash@,
                ps,
                locations@,
                current_key@,
                hash_len as nat,
            ),
            ps == planned_keys@.map_values(|w: Vec<char>| w@),
        decreases hash@.len() + 1 - hash_len,
    {
        let mut candidate = base_key.clone();
        assert(candidate@ == base_key@);
        let mark = chars_of("#");
        append_chars(&mut candidate, mark.as_slice());
        let piece = slice_chars(hash.as_slice(), 0, hash_len);
        append_chars(&mut candidate, piece.as_slice());
        assert(piece@ =~= hash@.take(hash_len as int));
        if key_is_available(candidate.as_slice(), planned_keys, locations, current_key) {
            assert(candidate@ == base_key@ + "#"@ + hash@.take(hash_len as int));
            assert(hashed_key(base_key@, hash@, ps, locations@, current_key@, hash_len as nat)
                == candidate@);
            return candidate;
        }
        hash_len += 1;
    }
    base_key
}

/// A key for a title shared by several locations that no other location has:
/// the distinguishing key (title, dot, and up to twenty characters from where
/// the descriptions start to differ) when the descriptions differ and no
/// other location or planned key has it; else the first free one of it with
/// `#` and the first 7, 8, ... 16 hex digits of the description hash; else
/// the distinguishing key.
pub fn unique_location_key(
    title: &str,
    description: &str,
    descriptions: &[&str],
    planned_keys: &[String],
    locations: &KeyedTable<Location>,
    current_key: &str,
) -> (r: String)
    ensures
        r@ == unique_key(
            title@,
            description@,
            descriptions@.map_values(|d: &str| d@),
            planned_keys@.map_values(|k: String| k@),
            locations@,
            current_key@,
        ),
{
    let mut descs: Vec<Vec<char>> = Vec::new();
    let mut i: usize = 0;
    while i < descriptions.len()
        invariant
            0 <= i <= descriptions@.len(),
            descs@.map_values(|w: Vec<char>| w@) =~= descriptions@.map_values(|d: &str| d@).take(
                i as int,
            ),
        decreases descriptions@.len() - i,
    {
        let ghost before = descs@.map_values(|w: Vec<char>| w@);
        descs.push(chars_of(descriptions[i]));
        assert(descs@.map_values(|w: Vec<char>| w@) =~= before.push(descriptions@[i as int]@));
        i += 1;
    }
    let mut planned: Vec<Vec<char>> = Vec::new();
    let mut j: usize = 0;
    while j < planned_keys.len()
        invariant
            0 <= j <= planned_keys@.len(),
            planned@.map_values(|w: Vec<char>| w@) =~= planned_keys@.map_values(|k: String| k@).take(
                j as int,
            ),
        decreases planned_keys@.len() - j,
    {
        let ghost before = planned@.map_values(|w: Vec<char>| w@);
        planned.push(chars_of(planned_keys[j].as_str()));
        assert(planned@.map_values(|w: Vec<char>| w@) =~= before.push(planned_keys@[j as int]@));
        j += 1;
    }
    assert(descs@.map_values(|w: Vec<char>| w@) =~= descriptions@.map_values(|d: &str| d@));
    assert(planned@.map_values(|w: Vec<char>| w@) =~= planned_keys@.map_values(|k: String| k@));
    let t = chars_of(title);
    let d = chars_of(description);
    let c = chars_of(current_key);
    let key = unique_location_key_chars(
        t.as_slice(),
        d.as_slice(),
        &descs,
        &planned,
        locations,
        c.as_slice(),
    );
    string_of(key.as_slice())
}

/// Lexicographic comparison by code point.
fn lex_less_chars(a: &[char], b: &[char]) -> (r: bool)
    ensures
        r == lex_less(a@, b@),
{
    let mut i: usize = 0;
    assert(a@.skip(0) =~= a@);
    assert(b@.skip(0) =~= b@);
    while i < a.len() && i < b.len() && a[i] == b[i]
        invariant
            0 <= i <= a@.len(),
            i <= b@.len(),
            lex_less(a@, b@) == lex_less(a@.skip(i as int), b@.skip(i as int)),
        decreases a@.len() - i,
    {
        assert(a@.skip(i as int).drop_first() =~= a@.skip(i + 1));
        assert(b@.skip(i as int).drop_first() =~= b@.skip(i + 1));
        i += 1;
    }
    let ghost sa = a@.skip(i as int);
    let ghost sb = b@.skip(i as int);
    if i == a.len() {
        assert(sa.len() == 0);
        assert(lex_less(sa, sb) == (sb.len() > 0));
        i < b.len()
    } else if i == b.len() {
        assert(sb.len() == 0 && sa.len() > 0);
        assert(!lex_less(sa, sb));
        false
    } else {
        assert(sa[0] == a@[i as int] && sb[0] == b@[i as int]);
        assert(a@[i as int] != b@[i as int]);
        assert((a@[i as int] as int) != (b@[i as int] as int));
        assert(lex_less(sa, sb) == ((a@[i as int] as int) < (b@[i as int] as int)));
        a[i] < b[i]
    }
}

/// The names of the aliases that lead to `key`, in order.
pub open spec fn alias_keys_for(aliases: Seq<(Seq<char>, Seq<char>)>, key: Seq<char>) -> Seq<
    Seq<char>,
>
    decreases aliases.len(),
{
    if aliases.len() == 0 {
        seq![]
    } else {
        let rest = alias_keys_for(aliases.drop_last(), key);
        if aliases.last().1 == key {
            rest.push(aliases.last().0)
        } else {
            rest
        }
    }
}

/// The list with `v` appended unless already present.
pub open spec fn add_unique(values: Seq<Seq<char>>, v: Seq<char>) -> Seq<Seq<char>> {
    if values.contains(v) {
        values
    } else {
        values.push(v)
    }
}

/// The items of an inventory listing: each line that starts with `- ` once
/// trimmed, without the dash, trimmed.
pub open spec fn inventory_items(ls: Seq<Seq<char>>) -> Seq<Seq<char>>
    decreases ls.len(),
{
    if ls.len() == 0 {
        seq![]
    } else {
        let rest = inventory_items(ls.drop_last());
        let t = trim(ls.last());
        if starts_with(t, "- "@) {
            rest.push(trim(t.skip("- "@.len() as int)))
        } else {
            rest
        }
    }
}

/// The world after an observed location title and description: the
/// location they name becomes the current one and keeps its recorded
/// description unless the new one should replace it.
pub open spec fn record_snapshot(w: WorldView, title: Seq<char>, description: Seq<char>) -> WorldView {
    let (w2, key) = key_for_snapshot(w, title, description);
    let w3 = WorldView { current_location: key, ..w2 };
    match lookup(w3.locations, key) {
        Some(loc) => WorldView {
            locations: table_insert(
                w3.locations,
                key,
                LocationView {
                    description: if should_update_description(loc.description, description) {
                        description
                    } else {
                        loc.description
                    },
                    observed_descriptions: add_unique(loc.observed_descriptions, description),
                    ..loc
                },
            ),
            ..w3
        },
        None => WorldView {
            locations: table_insert(
                w3.locations,
                key,
                LocationView {
                    id: key,
                    title,
                    description,
                    aliases: alias_keys_for(w3.location_aliases, key),
                    observed_descriptions: seq![description],
                    provisional: !looks_like_room(description),
                    exits: seq![],
                    objects: seq![],
                    notes: seq![],
                },
            ),
            ..w3
        },
    }
}

/// The world after a game observation: the location it shows is recorded
/// and becomes current, and an inventory listing replaces the inventory.
pub open spec fn observe(w: WorldView, text: Seq<char>) -> WorldView {
    let w1 = match snapshot(text) {
        Some((t, d)) => record_snapshot(w, t, d),
        None => w,
    };
    if contains(lowercase_of(text), "you are currently holding"@) {
        WorldView { inventory: inventory_items(lines(text)), ..w1 }
    } else {
        w1
    }
}

/// A new location key can be handed out where the observation would need one.
pub open spec fn observe_in_bounds(w: WorldView, text: Seq<char>) -> bool {
    match snapshot(text) {
        Some((t, d)) => match_snapshot(w, trim(t), d) is None && single_title_key(w, trim(t), d)
            is None ==> next_number(w) < usize::MAX,
        None => true,
    }
}

/// The items of an inventory listing.
fn inventory_of(text: &[char]) -> (r: Vec<String>)
    ensures
        r.deep_view() == inventory_items(lines(text@)),
{
    let ls = split_lines(text);
    let ghost lv = ls@.map_values(|w: Vec<char>| w@);
    let mut r: Vec<String> = Vec::new();
    let mut i: usize = 0;
    assert(lv.take(0) =~= Seq::<Seq<char>>::empty());
    assert(r.deep_view() =~= Seq::<Seq<char>>::empty());
    while i < ls.len()
        invariant
            0 <= i <= ls@.len(),
            lv == ls@.map_values(|w: Vec<char>| w@),
            lv == lines(text@),
            r.deep_view() == inventory_items(lv.take(i as int)),
        decreases ls@.len() - i,
    {
        assert(lv.take(i + 1).drop_last() =~= lv.take(i as int));
        assert(lv.take(i + 1).last() == ls@[i as int]@);
        let t = trim_chars(ls[i].as_slice());
        let ghost before = r.deep_view();
        if starts_with_lit(t.as_slice(), "- ") {
            let dash = chars_of("- ");
            let rest = slice_chars(t.as_slice(), dash.len(), t.len());
            assert(rest@ =~= t@.skip("- "@.len() as int));
            let item = trim_chars(rest.as_slice());
            r.push(string_of(item.as_slice()));
            assert(r.deep_view() =~= before.push(item@));
        }
        i += 1;
    }
    assert(lv.take(ls@.len() as int) =~= lv);
    r
}

/// Whether the list holds a string with these characters.
pub fn strings_contain(list: &Vec<String>, v: &String) -> (r: bool)
    ensures
        r == list.deep_view().contains(v@),
{
    let mut i: usize = 0;
    while i < list.len()
        invariant
            0 <= i <= list@.len(),
            forall|k: int| 0 <= k < i ==> list.deep_view()[k] != v@,
        decreases list@.len() - i,
    {
        assert(list.deep_view()[i as int] == list@[i as int]@);
        if list[i] == *v {
            return true;
        }
        i += 1;
    }
    false
}

/// The location recorded for a key no observation has named yet.
pub open spec fn placeholder_location(key: Seq<char>) -> LocationView {
    LocationView { id: key, title: key, provisional: true, ..empty_location_view() }
}

/// The destination reached most often, the least by code point among equals.
pub open spec fn best_destination(counts: Seq<(Seq<char>, usize)>) -> (Seq<char>, usize)
    decreases counts.len(),
{
    if counts.len() <= 1 {
        counts[0]
    } else {
        let b = best_destination(counts.drop_last());
        let e = counts.last();
        if e.1 > b.1 || (e.1 == b.1 && lex_less(e.0, b.0)) {
            e
        } else {
            b
        }
    }
}

/// The destination an exit is taken to lead to: the best counted one, else the fallback.
pub open spec fn preferred(counts: Seq<(Seq<char>, usize)>, fallback: Option<Seq<char>>) -> Option<
    Seq<char>,
> {
    if counts.len() == 0 {
        fallback
    } else {
        Some(best_destination(counts).0)
    }
}

/// Whether an exit goes in this direction.
pub open spec fn exit_has_direction(direction: Seq<char>) -> spec_fn(ExitView) -> bool {
    |e: ExitView| e.direction == direction
}

/// The exits after a move in `direction` towards `destination`, counted when `count` holds.
pub open spec fn exits_with_transition(
    exits: Seq<ExitView>,
    direction: Seq<char>,
    destination: Option<Seq<char>>,
    count: bool,
) -> Seq<ExitView> {
    match first_index(exits, exit_has_direction(direction)) {
        Some(j) => {
            let e = exits[j];
            let counts = if count && destination is Some {
                count_bumped(e.transition_counts, destination->0)
            } else {
                e.transition_counts
            };
            exits.update(
                j,
                ExitView {
                    transition_counts: counts,
                    unstable: counts.len() > 1,
                    destination: preferred(counts, destination),
                    ..e
                },
            )
        },
        None => exits.push(
            ExitView {
                direction,
                destination,
                transition_counts: if count && destination is Some {
                    seq![(destination->0, 1usize)]
                } else {
                    seq![]
                },
                unstable: false,
            },
        ),
    }
}

/// The world with a move from `from` in `direction` recorded.
pub open spec fn with_exit(
    w: WorldView,
    from: Seq<char>,
    direction: Seq<char>,
    destination: Option<Seq<char>>,
    count: bool,
) -> WorldView {
    let f = canon(w, from);
    let d = match destination {
        Some(x) => Some(canon(w, x)),
        None => None,
    };
    let loc = match lookup(w.locations, f) {
        Some(l) => l,
        None => placeholder_location(f),
    };
    WorldView {
        locations: table_insert(
            w.locations,
            f,
            LocationView { exits: exits_with_transition(loc.exits, direction, d, count), ..loc },
        ),
        ..w
    }
}

/// The count a move would raise is below `usize::MAX`.
pub open spec fn with_exit_in_bounds(
    w: WorldView,
    from: Seq<char>,
    direction: Seq<char>,
    destination: Option<Seq<char>>,
    count: bool,
) -> bool {
    count && destination is Some ==> match lookup(w.locations, canon(w, from)) {
        Some(l) => match first_index(l.exits, exit_has_direction(direction)) {
            Some(j) => match lookup(l.exits[j].transition_counts, canon(w, destination->0)) {
                Some(c) => c < usize::MAX,
                None => true,
            },
            None => true,
        },
        None => true,
    }
}

pub open spec fn opt_str(o: Option<&str>) -> Option<Seq<char>> {
    match o {
        Some(s) => Some(s@),
        None => None,
    }
}

/// The world after `command` was tried from `previous` and led to
/// `destination` (none when the move failed): the exit is recorded with the
/// destination counted, and, for a move to another location, the reverse exit
/// back.
pub open spec fn with_command_result(
    w: WorldView,
    previous: Seq<char>,
    command: Seq<char>,
    destination: Option<Seq<char>>,
) -> WorldView {
    match normalize_direction(command) {
        None => w,
        Some(dir) => if trim(previous).len() == 0 {
            w
        } else {
            let p = canon(w, previous);
            let d = match destination {
                Some(x) => if trim(x).len() > 0 {
                    Some(canon(w, trim(x)))
                } else {
                    None
                },
                None => None,
            };
            let w1 = with_exit(w, p, dir, d, true);
            match d {
                Some(dd) => if dd == p {
                    w1
                } else {
                    match reverse_direction(dir) {
                        Some(r) => with_exit(w1, dd, r, Some(p), false),
                        None => w1,
                    }
                },
                None => w1,
            }
        },
    }
}

/// The count a recorded command result would raise is below `usize::MAX`.
pub open spec fn command_result_in_bounds(
    w: WorldView,
    previous: Seq<char>,
    command: Seq<char>,
    destination: Option<Seq<char>>,
) -> bool {
    match normalize_direction(command) {
        None => true,
        Some(dir) => trim(previous).len() == 0 || with_exit_in_bounds(
            w,
            canon(w, previous),
            dir,
            match destination {
                Some(x) => if trim(x).len() > 0 {
                    Some(canon(w, trim(x)))
                } else {
                    None
                },
                None => None,
            },
            true,
        ),
    }
}

/// The destination an exit is taken to lead to: the best counted one, else the fallback.
fn preferred_destination(exit: &Exit, fallback: Option<String>) -> (r: Option<String>)
    ensures
        opt_view(r) == preferred(exit@.transition_counts, opt_view(fallback)),
{
    let counts = &exit.transition_counts;
    let ghost cs = counts@;
    let n = counts.entries.len();
    if n == 0 {
        return fallback;
    }
    let mut best: usize = 0;
    let mut i: usize = 1;
    assert(cs.take(1) =~= seq![cs[0]]);
    while i < n
        invariant
            1 <= i <= n == cs.len(),
            cs == counts@,
            best < i,
            cs[best as int] == best_destination(cs.take(i as int)),
        decreases n - i,
    {
        assert(cs.take(i + 1).drop_last() =~= cs.take(i as int));
        assert(cs.take(i + 1).last() == cs[i as int]);
        let ek = chars_of(counts.entries[i].0.as_str());
        let bk = chars_of(counts.entries[best].0.as_str());
        let ec = counts.entries[i].1;
        let bc = counts.entries[best].1;
        assert(cs[i as int] == (ek@, ec));
        assert(cs[best as int] == (bk@, bc));
        if ec > bc || (ec == bc && lex_less_chars(ek.as_slice(), bk.as_slice())) {
            best = i;
        }
        i += 1;
    }
    assert(cs.take(n as int) =~= cs);
    Some(counts.entries[best].0.clone())
}

/// The position of the first exit in this direction.
fn exit_index(exits: &Vec<Exit>, direction: &String) -> (r: Option<usize>)
    ensures
        match r {
            Some(j) => first_index(exits@.map_values(|e: Exit| e@), exit_has_direction(direction@))
                == Some(j as int),
            None => first_index(exits@.map_values(|e: Exit| e@), exit_has_direction(direction@))
                is None,
        },
{
    let ghost es = exits@.map_values(|e: Exit| e@);
    let ghost p = exit_has_direction(direction@);
    let mut j: usize = 0;
    while j < exits.len()
        invariant
            0 <= j <= exits@.len(),
            es == exits@.map_values(|e: Exit| e@),
            p == exit_has_direction(direction@),
            forall|k: int| 0 <= k < j ==> !p(#[trigger] es[k]),
        decreases exits@.len() - j,
    {
        assert(es[j as int] == exits@[j as int]@);
        if exits[j].direction == *direction {
            proof {
                crate::table::lemma_first_index_scan(es, p, j as int);
            }
            return Some(j);
        }
        j += 1;
    }
    proof {
        crate::table::lemma_first_index_scan(es, p, exits@.len() as int);
    }
    None
}

/// Whether an exit's direction names the given canonical direction.
pub open spec fn exit_goes(direction: Seq<char>) -> spec_fn(ExitView) -> bool {
    |e: ExitView| normalize_direction(e.direction) == Some(direction)
}

/// The resolved names among `raw` whose location has this title, in order.
pub open spec fn titled_candidates(w: WorldView, raw: Seq<Seq<char>>, title: Seq<char>) -> Seq<
    Seq<char>,
>
    decreases raw.len(),
{
    if raw.len() == 0 {
        seq![]
    } else {
        let rest = titled_candidates(w, raw.drop_last(), title);
        let c = canon(w, raw.last());
        match lookup(w.locations, c) {
            Some(l) => if l.title == title {
                rest.push(c)
            } else {
                rest
            },
            None => rest,
        }
    }
}

/// The destinations an exit is known to reach: those counted, then its destination.
pub open spec fn exit_destinations(e: ExitView) -> Seq<Seq<char>> {
    e.transition_counts.map_values(|p: (Seq<char>, usize)| p.0) + match e.destination {
        Some(d) => seq![d],
        None => seq![],
    }
}

pub open spec fn all_same(cs: Seq<Seq<char>>) -> bool {
    forall|i: int| 0 <= i < cs.len() ==> #[trigger] cs[i] == cs[0]
}

/// The one location with this title that the exit taken by `command` from
/// `source` is known to reach, when there is exactly one.
pub open spec fn observed_transition_match(
    w: WorldView,
    title: Seq<char>,
    source: Seq<char>,
    command: Seq<char>,
) -> Option<MatchView> {
    match normalize_direction(command) {
        None => None,
        Some(dir) => match lookup(w.locations, canon(w, source)) {
            None => None,
            Some(loc) => match first_index(loc.exits, exit_goes(dir)) {
                None => None,
                Some(j) => {
                    let cs = titled_candidates(w, exit_destinations(loc.exits[j]), title);
                    if cs.len() > 0 && all_same(cs) {
                        Some(MatchView { key: cs[0], confidence: LocationMatchConfidence::Probable })
                    } else {
                        None
                    }
                },
            },
        },
    }
}

/// The direction recorded for an exit name the model reported.
pub open spec fn reported_direction(name: Seq<char>) -> Seq<char> {
    match normalize_direction(name) {
        Some(d) => d,
        None => lowercase_of(trim(name)),
    }
}

/// The exits with an exit added for each reported name whose direction is
/// non-empty and not yet present.
pub open spec fn add_reported_exits(exits: Seq<ExitView>, names: Seq<Seq<char>>) -> Seq<ExitView>
    decreases names.len(),
{
    if names.len() == 0 {
        exits
    } else {
        let es = add_reported_exits(exits, names.drop_last());
        let d = reported_direction(names.last());
        if d.len() == 0 || first_index(es, exit_has_direction(d)) is Some {
            es
        } else {
            es.push(ExitView { direction: d, destination: None, transition_counts: seq![], unstable: false })
        }
    }
}

/// The list with each trimmed, non-empty name added unless already present.
pub open spec fn add_reported_items(items: Seq<Seq<char>>, names: Seq<Seq<char>>) -> Seq<Seq<char>>
    decreases names.len(),
{
    if names.len() == 0 {
        items
    } else {
        let its = add_reported_items(items, names.drop_last());
        let t = trim(names.last());
        if t.len() == 0 || its.contains(t) {
            its
        } else {
            its.push(t)
        }
    }
}

/// The location the model's memory update is about: the hinted one, else the current one.
pub open spec fn memory_target(w: WorldView, hint: Seq<char>) -> Seq<char> {
    if trim(hint).len() > 0 {
        canon(w, hint)
    } else {
        trim(w.current_location)
    }
}

/// The world after the model's memory update: the target location (created
/// as a placeholder when unknown) gets the reported exits and objects, and
/// the notes are added to the task notes.
pub open spec fn with_llm_memory(
    w: WorldView,
    hint: Seq<char>,
    exits: Seq<Seq<char>>,
    objects: Seq<Seq<char>>,
    notes: Seq<Seq<char>>,
) -> WorldView {
    let t = memory_target(w, hint);
    let w1 = if t.len() > 0 {
        let loc = match lookup(w.locations, t) {
            Some(l) => l,
            None => placeholder_location(t),
        };
        WorldView {
            locations: table_insert(
                w.locations,
                t,
                LocationView {
                    exits: add_reported_exits(loc.exits, exits),
                    objects: add_reported_items(loc.objects, objects),
                    ..loc
                },
            ),
            ..w
        }
    } else {
        w
    };
    WorldView { task_notes: add_reported_items(w1.task_notes, notes), ..w1 }
}

/// The directions of the exits not yet followed.
pub open spec fn unexplored_directions(exits: Seq<ExitView>) -> Seq<Seq<char>>
    decreases exits.len(),
{
    if exits.len() == 0 {
        seq![]
    } else {
        let rest = unexplored_directions(exits.drop_last());
        if exits.last().destination is None {
            rest.push(exits.last().direction)
        } else {
            rest
        }
    }
}

/// A summary line for each location with exits not yet followed.
pub open spec fn frontier_lines(locs: Seq<(Seq<char>, LocationView)>) -> Seq<Seq<char>>
    decreases locs.len(),
{
    if locs.len() == 0 {
        seq![]
    } else {
        let rest = frontier_lines(locs.drop_last());
        let u = unexplored_directions(locs.last().1.exits);
        if u.len() == 0 {
            rest
        } else {
            rest.push("- "@ + locs.last().0 + ": unexplored exits ["@ + join(u, ", "@) + "]"@)
        }
    }
}

/// The frontier summary: the current location, then one line per location
/// with exits not yet followed (or a line saying there is none).
pub open spec fn frontier_text(w: WorldView) -> Seq<char> {
    let ls = seq!["Current location: "@ + w.current_location] + frontier_lines(w.locations);
    let all = if ls.len() == 1 {
        ls.push("- No known frontier exits yet."@)
    } else {
        ls
    };
    join(all, "\n"@)
}

/// The position of the first exit whose direction names `direction`.
fn exit_going(exits: &Vec<Exit>, direction: &String) -> (r: Option<usize>)
    ensures
        match r {
            Some(j) => first_index(exits@.map_values(|e: Exit| e@), exit_goes(direction@)) == Some(
                j as int,
            ),
            None => first_index(exits@.map_values(|e: Exit| e@), exit_goes(direction@)) is None,
        },
{
    let ghost es = exits@.map_values(|e: Exit| e@);
    let ghost p = exit_goes(direction@);
    let mut j: usize = 0;
    while j < exits.len()
        invariant
            0 <= j <= exits@.len(),
            es == exits@.map_values(|e: Exit| e@),
            p == exit_goes(direction@),
            forall|k: int| 0 <= k < j ==> !p(#[trigger] es[k]),
        decreases exits@.len() - j,
    {
        assert(es[j as int] == exits@[j as int]@);
        match normalize_direction_of(exits[j].direction.as_str()) {
            Some(d) => {
                if d == *direction {
                    proof {
                        crate::table::lemma_first_index_scan(es, p, j as int);
                    }
                    return Some(j);
                }
            },
            None => {},
        }
        j += 1;
    }
    proof {
        crate::table::lemma_first_index_scan(es, p, exits@.len() as int);
    }
    None
}

/// The destinations an exit is known to reach: those counted, then its destination.
fn exit_destination_list(exit: &Exit) -> (r: Vec<String>)
    ensures
        r.deep_view() == exit_destinations(exit@),
{
    let keys = exit.transition_counts.keys();
    let mut r: Vec<String> = Vec::new();
    let mut i: usize = 0;
    while i < keys.len()
        invariant
            0 <= i <= keys@.len() == exit@.transition_counts.len(),
            forall|k: int| 0 <= k < keys@.len() ==> #[trigger] keys@[k]@ == exit@.transition_counts[k].0,
            r.deep_view() =~= exit@.transition_counts.map_values(|p: (Seq<char>, usize)| p.0).take(
                i as int,
            ),
        decreases keys@.len() - i,
    {
        let ghost before = r.deep_view();
        r.push(keys[i].clone());
        assert(r.deep_view() =~= before.push(keys@[i as int]@));
        i += 1;
    }
    assert(exit@.transition_counts.map_values(|p: (Seq<char>, usize)| p.0).take(
        keys@.len() as int,
    ) =~= exit@.transition_counts.map_values(|p: (Seq<char>, usize)| p.0));
    let ghost before = r.deep_view();
    match &exit.destination {
        Some(d) => {
            r.push(d.clone());
            assert(r.deep_view() =~= before.push(d@));
        },
        None => {},
    }
    assert(r.deep_view() =~= exit_destinations(exit@));
    r
}

/// The directions of the exits not yet followed.
fn unexplored_of(exits: &Vec<Exit>) -> (r: Vec<Vec<char>>)
    ensures
        r@.map_values(|w: Vec<char>| w@) == unexplored_directions(exits@.map_values(|e: Exit| e@)),
{
    let ghost es = exits@.map_values(|e: Exit| e@);
    let mut r: Vec<Vec<char>> = Vec::new();
    let mut i: usize = 0;
    assert(es.take(0) =~= Seq::<ExitView>::empty());
    assert(r@.map_values(|w: Vec<char>| w@) =~= Seq::<Seq<char>>::empty());
    while i < exits.len()
        invariant
            0 <= i <= exits@.len(),
            es == exits@.map_values(|e: Exit| e@),
            r@.map_values(|w: Vec<char>| w@) == unexplored_directions(es.take(i as int)),
        decreases exits@.len() - i,
    {
        assert(es.take(i + 1).drop_last() =~= es.take(i as int));
        assert(es.take(i + 1).last() == exits@[i as int]@);
        let ghost before = r@.map_values(|w: Vec<char>| w@);
        if exits[i].destination.is_none() {
            r.push(chars_of(exits[i].direction.as_str()));
            assert(r@.map_values(|w: Vec<char>| w@) =~= before.push(exits@[i as int]@.direction));
        }
        i += 1;
    }
    assert(es.take(exits@.len() as int) =~= es);
    r
}

// ---------------------------------------------------------------------------
// Operations
// ---------------------------------------------------------------------------

impl WorldModel {
    /// The key a name resolves to: itself when a location has that key, else
    /// the location its alias names, else itself (after trimming; empty for a blank name).
    pub fn canonical_location_key(&self, key: &str) -> (r: String)
        ensures
            r@ == canon(self@, key@),
    {
        let key = trim_str(key);
        if key.as_str().is_empty() {
            return String::new();
        }
        if self.locations.contains_key(key.as_str()) {
            return key;
        }
        match self.location_aliases.get(key.as_str()) {
            Some(target) => target.clone(),
            None => key,
        }
    }

    /// The largest number of a `loc-` key among the locations.
    fn max_location_number(&self) -> (r: Option<usize>)
        ensures
            match r {
                Some(v) => max_loc_number(self@.locations) == Some(v as nat),
                None => max_loc_number(self@.locations) is None,
            },
    {
        let ghost locs = self@.locations;
        let n = self.locations.entries.len();
        let mut best: Option<usize> = None;
        let mut i: usize = 0;
        assert(locs.take(0) =~= Seq::<(Seq<char>, LocationView)>::empty());
        while i < n
            invariant
                0 <= i <= n == locs.len(),
                locs == self@.locations,
                match best {
                    Some(v) => max_loc_number(locs.take(i as int)) == Some(v as nat),
                    None => max_loc_number(locs.take(i as int)) is None,
                },
            decreases n - i,
        {
            assert(locs.take(i + 1).drop_last() =~= locs.take(i as int));
            assert(locs.take(i + 1).last() == locs[i as int]);
            assert(locs[i as int].0 == self.locations.entries@[i as int].0@);
            match loc_number_of(self.locations.entries[i].0.as_str()) {
                Some(v) => {
                    best = match best {
                        Some(m) => Some(
                            if v > m {
                                v
                            } else {
                                m
                            },
                        ),
                        None => Some(v),
                    };
                },
                None => {},
            }
            i += 1;
        }
        assert(locs.take(n as int) =~= locs);
        best
    }

    /// Hands out the next `loc-` key, counting on from the largest one present
    /// when no key has been handed out yet.
    fn next_stable_location_id(&mut self) -> (r: String)
        requires
            next_number(old(self)@) < usize::MAX,
        ensures
            r@ == stable_key(next_number(old(self)@)),
            final(self)@ == (WorldView {
                next_location_id: (next_number(old(self)@) + 1) as usize,
                ..old(self)@
            }),
    {
        if self.next_location_id == 0 {
            self.next_location_id = match self.max_location_number() {
                Some(max_id) => max_id + 1,
                None => 1,
            };
        }
        let n = self.next_location_id;
        let mut key = chars_of("loc-");
        let digits = zero_padded_decimal(n, 6);
        append_chars(&mut key, digits.as_slice());
        self.next_location_id = n + 1;
        string_of(key.as_slice())
    }

    /// The descriptions of the locations with this title, in order.
    fn descriptions_with_title(&self, title: &[char]) -> (r: Vec<Vec<char>>)
        ensures
            r@.map_values(|w: Vec<char>| w@) == title_descriptions(self@.locations, title@),
    {
        let ghost locs = self.locations@;
        let mut r: Vec<Vec<char>> = Vec::new();
        let n = self.locations.entries.len();
        let mut i: usize = 0;
        assert(locs.take(0) =~= Seq::<(Seq<char>, LocationView)>::empty());
        assert(r@.map_values(|w: Vec<char>| w@) =~= Seq::<Seq<char>>::empty());
        while i < n
            invariant
                0 <= i <= n == locs.len(),
                locs == self.locations@,
                r@.map_values(|w: Vec<char>| w@) == title_descriptions(locs.take(i as int), title@),
            decreases n - i,
        {
            assert(locs.take(i + 1).drop_last() =~= locs.take(i as int));
            assert(locs.take(i + 1).last() == locs[i as int]);
            let entry = &self.locations.entries[i];
            assert(locs[i as int] == (entry.0@, entry.1@));
            let t = chars_of(entry.1.title.as_str());
            let ghost before = r@.map_values(|w: Vec<char>| w@);
            if chars_eq(t.as_slice(), title) {
                r.push(chars_of(entry.1.description.as_str()));
                assert(r@.map_values(|w: Vec<char>| w@) =~= before.push(entry.1.description@));
            }
            i += 1;
        }
        assert(locs.take(n as int) =~= locs);
        r
    }

    /// The readable names a new location is given: its distinguishing key,
    /// and its title when no location has that title and no alias uses it;
    /// sorted, without repeats.
    fn aliases_for_new_location(&self, title: &[char], description: &[char], key: &[char]) -> (r:
        Vec<String>)
        ensures
            r.deep_view() == new_aliases(self@, title@, description@, key@),
    {
        let mut descs = self.descriptions_with_title(title);
        let ghost before = descs@.map_values(|w: Vec<char>| w@);
        descs.push(slice_chars(title, 0, 0));
        descs.set(descs.len() - 1, slice_chars(description, 0, description.len()));
        assert(description@.subrange(0, description@.len() as int) =~= description@);
        assert(descs@.map_values(|w: Vec<char>| w@) =~= before.push(description@));
        let readable = if descs.len() == 1 {
            trim_chars(title)
        } else {
            let planned: Vec<Vec<char>> = Vec::new();
            assert(planned@.map_values(|w: Vec<char>| w@) =~= Seq::<Seq<char>>::empty());
            unique_location_key_chars(title, description, &descs, &planned, &self.locations, key)
        };
        let same_title = self.keys_with_title(title);
        let ts = string_of(title);
        let add_title = same_title.len() == 0 && !self.location_aliases.contains_key(ts.as_str());
        let mut aliases: Vec<String> = Vec::new();
        if !add_title || chars_eq(readable.as_slice(), title) {
            aliases.push(string_of(readable.as_slice()));
        } else if lex_less_chars(title, readable.as_slice()) {
            aliases.push(ts);
            aliases.push(string_of(readable.as_slice()));
        } else {
            aliases.push(string_of(readable.as_slice()));
            aliases.push(ts);
        }
        assert(aliases.deep_view() =~= new_aliases(self@, title@, description@, key@));
        aliases
    }

    /// Records a new location for this title and description under the next
    /// `loc-` key, with its readable names as aliases.
    fn create_location(&mut self, title: &[char], description: &[char]) -> (r: String)
        requires
            next_number(old(self)@) < usize::MAX,
        ensures
            (final(self)@, r@) == create_location(old(self)@, title@, description@),
    {
        let key = self.next_stable_location_id();
        let kv = chars_of(key.as_str());
        let aliases = self.aliases_for_new_location(title, description, kv.as_slice());
        let ghost names = aliases.deep_view();
        let ghost start = self.location_aliases@;
        let ghost w1 = self@;
        let mut i: usize = 0;
        assert(names.take(0) =~= Seq::<Seq<char>>::empty());
        while i < aliases.len()
            invariant
                0 <= i <= aliases@.len(),
                names == aliases.deep_view(),
                start == w1.location_aliases,
                self@ == (WorldView {
                    location_aliases: alias_all(start, names.take(i as int), key@),
                    ..w1
                }),
            decreases aliases@.len() - i,
        {
            assert(names.take(i + 1).drop_last() =~= names.take(i as int));
            assert(names.take(i + 1).last() == aliases@[i as int]@);
            self.location_aliases.insert(aliases[i].clone(), key.clone());
            i += 1;
        }
        assert(names.take(aliases@.len() as int) =~= names);
        let room = looks_like_room_description(description);
        let mut observed: Vec<String> = Vec::new();
        observed.push(string_of(description));
        let location = Location {
            id: key.clone(),
            title: string_of(title),
            description: string_of(description),
            aliases,
            observed_descriptions: observed,
            provisional: !room,
            exits: Vec::new(),
            objects: Vec::new(),
            notes: Vec::new(),
        };
        assert(location@.exits =~= Seq::<ExitView>::empty());
        assert(location@.objects =~= Seq::<Seq<char>>::empty());
        assert(location@.notes =~= Seq::<Seq<char>>::empty());
        assert(location@.observed_descriptions =~= seq![description@]);
        assert(names == new_aliases(w1, title@, description@, key@));
        assert(self.location_aliases@ == alias_all(w1.location_aliases, names, key@));
        let ghost w2 = WorldView { location_aliases: alias_all(w1.location_aliases, names, key@), ..w1 };
        assert(self@ == w2);
        assert(location@ == (LocationView {
            id: key@,
            title: title@,
            description: description@,
            aliases: names,
            observed_descriptions: seq![description@],
            provisional: !looks_like_room(description@),
            exits: seq![],
            objects: seq![],
            notes: seq![],
        }));
        self.locations.insert(key.clone(), location);
        key
    }

    /// The key an observed title and description are recorded under: a
    /// matching known location, or a new location.
    pub fn location_key_for_snapshot(&mut self, title: &str, description: &str) -> (r: String)
        requires
            match_snapshot(old(self)@, trim(title@), description@) is None && single_title_key(
                old(self)@,
                trim(title@),
                description@,
            ) is None ==> next_number(old(self)@) < usize::MAX,
        ensures
            (final(self)@, r@) == key_for_snapshot(old(self)@, title@, description@),
    {
        let tv = chars_of(title);
        let t = trim_chars(tv.as_slice());
        let ts = string_of(t.as_slice());
        let dv = chars_of(description);
        if let Some(location_match) = self.match_location_snapshot(ts.as_str(), description) {
            if location_match.confidence != LocationMatchConfidence::New {
                return location_match.key;
            }
        }
        if let Some(key) = self.match_single_title_for_context(t.as_slice(), dv.as_slice()) {
            return key;
        }
        self.create_location(t.as_slice(), dv.as_slice())
    }

    /// The names of the aliases that lead to `key`, in order.
    fn aliases_leading_to(&self, key: &str) -> (r: Vec<String>)
        ensures
            r.deep_view() == alias_keys_for(self@.location_aliases, key@),
    {
        let ghost al = self.location_aliases@;
        let wanted: String = key.to_owned();
        let mut r: Vec<String> = Vec::new();
        let n = self.location_aliases.entries.len();
        let mut i: usize = 0;
        assert(al.take(0) =~= Seq::<(Seq<char>, Seq<char>)>::empty());
        assert(r.deep_view() =~= Seq::<Seq<char>>::empty());
        while i < n
            invariant
                0 <= i <= n == al.len(),
                al == self.location_aliases@,
                wanted@ == key@,
                r.deep_view() == alias_keys_for(al.take(i as int), key@),
            decreases n - i,
        {
            assert(al.take(i + 1).drop_last() =~= al.take(i as int));
            assert(al.take(i + 1).last() == al[i as int]);
            let entry = &self.location_aliases.entries[i];
            assert(al[i as int] == (entry.0@, entry.1@));
            let ghost before = r.deep_view();
            if entry.1 == wanted {
                r.push(entry.0.clone());
                assert(r.deep_view() =~= before.push(entry.0@));
            }
            i += 1;
        }
        assert(al.take(n as int) =~= al);
        r
    }

    /// Records a game observation: the location it shows (the last title
    /// line and the line after it) is matched to a known location or recorded
    /// as a new one and becomes current; its description is kept unless the
    /// new one should replace it. An inventory listing replaces the inventory.
    pub fn update_from_observation(&mut self, text: &str)
        requires
            observe_in_bounds(old(self)@, text@),
        ensures
            final(self)@ == observe(old(self)@, text@),
            all_ascii(text@) && contains(ascii_lowercase(text@), "you are currently holding"@)
                ==> final(self)@.inventory == inventory_items(lines(text@)),
    {
        if let Some((location_title, location_description)) = location_snapshot_from_observation(
            text,
        ) {
            let location_key = self.location_key_for_snapshot(
                location_title.as_str(),
                location_description.as_str(),
            );
            self.current_location = location_key.clone();
            let ghost w3 = self@;
            let dv = chars_of(location_description.as_str());
            match self.locations.index_of(location_key.as_str()) {
                Some(i) => {
                    proof {
                        crate::table::lemma_key_index_bounds(self.locations@, location_key@);
                    }
                    let ghost old_loc = self.locations@[i as int].1;
                    let ev = chars_of(self.locations.entries[i].1.description.as_str());
                    if should_update_location_description(ev.as_slice(), dv.as_slice()) {
                        self.locations.entries[i].1.description = location_description.clone();
                    }
                    let known = strings_contain(
                        &self.locations.entries[i].1.observed_descriptions,
                        &location_description,
                    );
                    if !known {
                        self.locations.entries[i].1.observed_descriptions.push(
                            location_description,
                        );
                    }
                    proof {
                        let new_loc = LocationView {
                            description: if should_update_description(
                                old_loc.description,
                                dv@,
                            ) {
                                dv@
                            } else {
                                old_loc.description
                            },
                            observed_descriptions: add_unique(old_loc.observed_descriptions, dv@),
                            ..old_loc
                        };
                        let cur = self.locations@[i as int].1;
                        assert(cur.id == new_loc.id);
                        assert(cur.title == new_loc.title);
                        assert(cur.description == new_loc.description);
                        assert(cur.aliases == new_loc.aliases);
                        assert(cur.observed_descriptions =~= new_loc.observed_descriptions);
                        assert(cur.exits == new_loc.exits);
                        assert(cur.objects == new_loc.objects);
                        assert(cur.notes == new_loc.notes);
                        assert(cur.provisional == new_loc.provisional);
                        assert(self.locations@[i as int].1 =~~= new_loc);
                        assert(self.locations@ =~~= w3.locations.update(i as int, (location_key@, new_loc)));
                    }
                },
                None => {
                    let aliases = self.aliases_leading_to(location_key.as_str());
                    let room = looks_like_room_description(dv.as_slice());
                    let mut observed: Vec<String> = Vec::new();
                    observed.push(location_description.clone());
                    let location = Location {
                        id: self.current_location.clone(),
                        title: location_title,
                        description: location_description,
                        aliases,
                        observed_descriptions: observed,
                        provisional: !room,
                        exits: Vec::new(),
                        objects: Vec::new(),
                        notes: Vec::new(),
                    };
                    assert(location@.exits =~= Seq::<ExitView>::empty());
                    assert(location@.objects =~= Seq::<Seq<char>>::empty());
                    assert(location@.notes =~= Seq::<Seq<char>>::empty());
                    assert(location@.observed_descriptions =~= seq![dv@]);
                    self.locations.insert(location_key, location);
                },
            }
        }
        let tv = chars_of(text);
        let lowered = lowercase_chars(tv.as_slice());
        if contains_lit(lowered.as_slice(), "you are currently holding") {
            self.inventory = inventory_of(tv.as_slice());
        }
        assert(all_ascii(text@) ==> lowercase_of(text@) == ascii_lowercase(text@));
    }

    /// Records a move from `from` in `direction`: the location is created as a
    /// placeholder when unknown; an existing exit in that direction has the
    /// destination counted (when `count_transition` holds), is unstable once
    /// more than one destination was counted, and leads to the most counted
    /// destination; a new exit leads to `destination`.
    fn set_exit(
        &mut self,
        from: &str,
        direction: &str,
        destination: Option<String>,
        count_transition: bool,
    )
        requires
            with_exit_in_bounds(
                old(self)@,
                from@,
                direction@,
                opt_view(destination),
                count_transition,
            ),
        ensures
            final(self)@ == with_exit(
                old(self)@,
                from@,
                direction@,
                opt_view(destination),
                count_transition,
            ),
    {
        let ghost w = self@;
        let ghost from0 = from@;
        let ghost dest0 = opt_view(destination);
        let from = self.canonical_location_key(from);
        let destination = match destination {
            Some(d) => Some(self.canonical_location_key(d.as_str())),
            None => None,
        };
        let ghost f = from@;
        let ghost d = opt_view(destination);
        proof {
            crate::table::lemma_key_index_bounds(self.locations@, f);
        }
        let idx = match self.locations.index_of(from.as_str()) {
            Some(i) => i,
            None => {
                let placeholder = Location {
                    id: from.clone(),
                    title: from.clone(),
                    description: String::new(),
                    aliases: Vec::new(),
                    observed_descriptions: Vec::new(),
                    provisional: true,
                    exits: Vec::new(),
                    objects: Vec::new(),
                    notes: Vec::new(),
                };
                assert(placeholder@.aliases =~= Seq::<Seq<char>>::empty());
                assert(placeholder@.observed_descriptions =~= Seq::<Seq<char>>::empty());
                assert(placeholder@.objects =~= Seq::<Seq<char>>::empty());
                assert(placeholder@.notes =~= Seq::<Seq<char>>::empty());
                assert(placeholder@.exits =~= Seq::<ExitView>::empty());
                assert(placeholder@ =~~= placeholder_location(f));
                let ghost before = self.locations@;
                self.locations.insert(from.clone(), placeholder);
                assert(self.locations@ == before.push((f, placeholder_location(f))));
                self.locations.entries.len() - 1
            },
        };
        let ghost loc = match lookup(w.locations, f) {
            Some(l) => l,
            None => placeholder_location(f),
        };
        let ghost base = self.locations@;
        assert(base[idx as int] == (f, loc));
        let dir_s: String = direction.to_owned();
        match exit_index(&self.locations.entries[idx].1.exits, &dir_s) {
            Some(j) => {
                proof {
                    crate::table::lemma_first_index_bounds(loc.exits, exit_has_direction(direction@));
                }
                let ghost e = loc.exits[j as int];
                assert(e == self.locations.entries@[idx as int].1.exits@[j as int]@);
                if count_transition {
                    match &destination {
                        Some(dst) => {
                            self.locations.entries[idx].1.exits[j].transition_counts.increment(
                                dst.clone(),
                            );
                        },
                        None => {},
                    }
                }
                let ghost counts = if count_transition && d is Some {
                    count_bumped(e.transition_counts, d->0)
                } else {
                    e.transition_counts
                };
                assert(self.locations.entries@[idx as int].1.exits@[j as int].transition_counts@
                    == counts);
                let unstable = self.locations.entries[idx].1.exits[j].transition_counts.len() > 1;
                self.locations.entries[idx].1.exits[j].unstable = unstable;
                let pref = preferred_destination(
                    &self.locations.entries[idx].1.exits[j],
                    destination,
                );
                self.locations.entries[idx].1.exits[j].destination = pref;
                proof {
                    let new_e = ExitView {
                        transition_counts: counts,
                        unstable: counts.len() > 1,
                        destination: preferred(counts, d),
                        ..e
                    };
                    let cur = self.locations.entries@[idx as int].1;
                    assert(cur.exits@[j as int]@ =~~= new_e);
                    assert(cur@.exits =~~= loc.exits.update(j as int, new_e));
                    assert(cur@ =~~= LocationView {
                        exits: exits_with_transition(loc.exits, direction@, d, count_transition),
                        ..loc
                    });
                }
            },
            None => {
                proof {
                    crate::table::lemma_first_index_bounds(loc.exits, exit_has_direction(direction@));
                }
                let mut counts: KeyedTable<usize> = KeyedTable::new();
                if count_transition {
                    match &destination {
                        Some(dst) => {
                            counts.insert(dst.clone(), 1);
                        },
                        None => {},
                    }
                }
                let exit = Exit {
                    direction: dir_s,
                    destination,
                    transition_counts: counts,
                    unstable: false,
                };
                assert(exit@.transition_counts =~= (if count_transition && d is Some {
                    seq![(d->0, 1usize)]
                } else {
                    seq![]
                }));
                self.locations.entries[idx].1.exits.push(exit);
                proof {
                    let cur = self.locations.entries@[idx as int].1;
                    assert(cur@.exits =~~= loc.exits.push(exit@));
                    assert(cur@ =~~= LocationView {
                        exits: exits_with_transition(loc.exits, direction@, d, count_transition),
                        ..loc
                    });
                }
            },
        }
        proof {
            let new_loc = LocationView {
                exits: exits_with_transition(loc.exits, direction@, d, count_transition),
                ..loc
            };
            assert(self.locations@ =~~= base.update(idx as int, (f, new_loc)));
            assert(f == canon(w, from0));
            match key_index(w.locations, f) {
                Some(i) => {
                    assert(base == w.locations);
                    assert(idx == i);
                    assert(self.locations@ == table_insert(w.locations, f, new_loc));
                },
                None => {
                    assert(self.locations@ =~~= w.locations.push((f, new_loc)));
                },
            }
            assert(self@ =~~= with_exit(w, from0, direction@, dest0, count_transition));
        }
    }

    /// Records that `command`, tried from `previous_location`, led to
    /// `destination` (none when it failed): for a movement command from a
    /// named location, the exit is recorded with the destination counted, and
    /// a move to another location also records the reverse exit back.
    pub fn apply_command_result_with_destination(
        &mut self,
        previous_location: &str,
        command: &str,
        destination: Option<&str>,
    )
        requires
            command_result_in_bounds(
                old(self)@,
                previous_location@,
                command@,
                opt_str(destination),
            ),
        ensures
            final(self)@ == with_command_result(
                old(self)@,
                previous_location@,
                command@,
                opt_str(destination),
            ),
    {
        let ghost w = self@;
        let direction = match normalize_direction_of(command) {
            Some(d) => d,
            None => {
                return;
            },
        };
        let pv = chars_of(previous_location);
        let pt = trim_chars(pv.as_slice());
        if pt.len() == 0 {
            return;
        }
        let previous = self.canonical_location_key(previous_location);
        let dest: Option<String> = match destination {
            Some(x) => {
                let t = trim_str(x);
                if t.as_str().is_empty() {
                    None
                } else {
                    Some(self.canonical_location_key(t.as_str()))
                }
            },
            None => None,
        };
        let ghost d = opt_view(dest);
        assert(d == match opt_str(destination) {
            Some(x) => if trim(x).len() > 0 {
                Some(canon(w, trim(x)))
            } else {
                None
            },
            None => None,
        });
        let dest_copy: Option<String> = match &dest {
            Some(x) => Some(x.clone()),
            None => None,
        };
        self.set_exit(previous.as_str(), direction.as_str(), dest_copy, true);
        let dd = match dest {
            Some(x) => x,
            None => {
                return;
            },
        };
        if dd == previous {
            return;
        }
        if let Some(reverse) = reverse_direction_of(direction.as_str()) {
            proof {
                let w1 = self@;
                assert(with_exit_in_bounds(w1, dd@, reverse@, Some(previous@), false));
            }
            self.set_exit(dd.as_str(), reverse.as_str(), Some(previous), false);
        }
    }

    /// Records the result of `command` tried from `previous_location`: a
    /// failed command, or one that left the current location where it was,
    /// records no destination; otherwise the current location is the destination.
    pub fn apply_command_result(
        &mut self,
        previous_location: &str,
        command: &str,
        command_failed: bool,
    )
        requires
            command_result_in_bounds(
                old(self)@,
                canon(old(self)@, previous_location@),
                command@,
                if command_failed || old(self)@.current_location == canon(
                    old(self)@,
                    previous_location@,
                ) {
                    None
                } else {
                    Some(old(self)@.current_location)
                },
            ),
        ensures
            final(self)@ == with_command_result(
                old(self)@,
                canon(old(self)@, previous_location@),
                command@,
                if command_failed || old(self)@.current_location == canon(
                    old(self)@,
                    previous_location@,
                ) {
                    None
                } else {
                    Some(old(self)@.current_location)
                },
            ),
    {
        let previous_location = self.canonical_location_key(previous_location);
        if command_failed || self.current_location == previous_location {
            self.apply_command_result_with_destination(previous_location.as_str(), command, None);
        } else {
            let destination = self.current_location.clone();
            self.apply_command_result_with_destination(
                previous_location.as_str(),
                command,
                Some(destination.as_str()),
            );
        }
    }

    /// The one location with this title that the exit taken by `command`
    /// from `source_location` is known to reach, when there is exactly one.
    fn probable_location_by_observed_transition(
        &self,
        title: &str,
        source_location: &str,
        command: &str,
    ) -> (r: Option<LocationMatch>)
        ensures
            match r {
                Some(m) => observed_transition_match(self@, title@, source_location@, command@)
                    == Some(m@),
                None => observed_transition_match(self@, title@, source_location@, command@)
                    is None,
            },
    {
        let ghost w = self@;
        let direction = match normalize_direction_of(command) {
            Some(d) => d,
            None => {
                return None;
            },
        };
        let source = self.canonical_location_key(source_location);
        proof {
            crate::table::lemma_key_index_bounds(self.locations@, source@);
        }
        let idx = match self.locations.index_of(source.as_str()) {
            Some(i) => i,
            None => {
                return None;
            },
        };
        let location = &self.locations.entries[idx].1;
        let ghost loc = location@;
        assert(lookup(w.locations, source@) == Some(loc));
        proof {
            crate::table::lemma_first_index_bounds(loc.exits, exit_goes(direction@));
        }
        let j = match exit_going(&location.exits, &direction) {
            Some(j) => j,
            None => {
                return None;
            },
        };
        let exit = &location.exits[j];
        assert(loc.exits[j as int] == exit@);
        let raw = exit_destination_list(exit);
        let title_s: String = title.to_owned();
        let ghost rv = raw.deep_view();
        let mut cands: Vec<String> = Vec::new();
        let mut i: usize = 0;
        assert(rv.take(0) =~= Seq::<Seq<char>>::empty());
        assert(cands.deep_view() =~= Seq::<Seq<char>>::empty());
        while i < raw.len()
            invariant
                0 <= i <= raw@.len(),
                rv == raw.deep_view(),
                title_s@ == title@,
                w == self@,
                cands.deep_view() == titled_candidates(w, rv.take(i as int), title@),
            decreases raw@.len() - i,
        {
            assert(rv.take(i + 1).drop_last() =~= rv.take(i as int));
            assert(rv.take(i + 1).last() == raw@[i as int]@);
            let c = self.canonical_location_key(raw[i].as_str());
            let ghost before = cands.deep_view();
            match self.locations.get(c.as_str()) {
                Some(l) => {
                    if l.title == title_s {
                        cands.push(c);
                        assert(cands.deep_view() =~= before.push(canon(w, rv[i as int])));
                    }
                },
                None => {},
            }
            i += 1;
        }
        assert(rv.take(raw@.len() as int) =~= rv);
        let ghost cs = cands.deep_view();
        if cands.len() == 0 {
            return None;
        }
        let ghost result = observed_transition_match(w, title@, source_location@, command@);
        assert(result == if all_same(cs) {
            Some(MatchView { key: cs[0], confidence: LocationMatchConfidence::Probable })
        } else {
            None
        });
        let mut k: usize = 1;
        while k < cands.len()
            invariant
                1 <= k <= cands@.len(),
                cs == cands.deep_view(),
                w == self@,
                result == observed_transition_match(w, title@, source_location@, command@),
                result == if all_same(cs) {
                    Some(MatchView { key: cs[0], confidence: LocationMatchConfidence::Probable })
                } else {
                    None
                },
                forall|m: int| 0 <= m < k ==> #[trigger] cs[m] == cs[0],
            decreases cands@.len() - k,
        {
            assert(cs[k as int] == cands@[k as int]@ && cs[0] == cands@[0]@);
            if !(cands[k] == cands[0]) {
                assert(!all_same(cs));
                return None;
            }
            k += 1;
        }
        assert(all_same(cs));
        Some(LocationMatch { key: cands[0].clone(), confidence: LocationMatchConfidence::Probable })
    }

    /// Which known location an observed title and description name, using the
    /// move that led there when the observation alone does not tell: the
    /// location the exit is known to reach, when exactly one with that title.
    pub fn match_location_snapshot_with_context(
        &self,
        title: &str,
        description: &str,
        source_location: &str,
        command: &str,
    ) -> (r: Option<LocationMatch>)
        ensures
            match r {
                Some(m) => match match_snapshot(self@, title@, description@) {
                    Some(first) => m@ == first,
                    None => observed_transition_match(self@, title@, source_location@, command@)
                        == Some(m@),
                },
                None => match_snapshot(self@, title@, description@) is None
                    && observed_transition_match(self@, title@, source_location@, command@) is None,
            },
    {
        match self.match_location_snapshot(title, description) {
            Some(m) => Some(m),
            None => self.probable_location_by_observed_transition(title, source_location, command),
        }
    }

    /// Applies a memory update reported by the model: the hinted location
    /// (else the current one; created as a placeholder when unknown) gets each
    /// reported exit (by canonical direction, else the lower-cased name) and
    /// object not yet recorded; each new non-empty note is added to the task notes.
    pub fn apply_llm_memory(
        &mut self,
        location_hint: &str,
        new_exits: &[String],
        new_objects: &[String],
        notes: &[String],
    )
        ensures
            final(self)@ == with_llm_memory(
                old(self)@,
                location_hint@,
                new_exits@.map_values(|s: String| s@),
                new_objects@.map_values(|s: String| s@),
                notes@.map_values(|s: String| s@),
            ),
    {
        let ghost w = self@;
        let ghost exits_v = new_exits@.map_values(|s: String| s@);
        let ghost objects_v = new_objects@.map_values(|s: String| s@);
        let ghost notes_v = notes@.map_values(|s: String| s@);
        let hint = chars_of(location_hint);
        let hint_t = trim_chars(hint.as_slice());
        let target = if hint_t.len() > 0 {
            self.canonical_location_key(location_hint)
        } else {
            trim_str(self.current_location.as_str())
        };
        let ghost t = target@;
        assert(t == memory_target(w, location_hint@));
        if !target.as_str().is_empty() {
            proof {
                crate::table::lemma_key_index_bounds(self.locations@, t);
            }
            let idx = match self.locations.index_of(target.as_str()) {
                Some(i) => i,
                None => {
                    let placeholder = Location {
                        id: target.clone(),
                        title: target.clone(),
                        description: String::new(),
                        aliases: Vec::new(),
                        observed_descriptions: Vec::new(),
                        provisional: true,
                        exits: Vec::new(),
                        objects: Vec::new(),
                        notes: Vec::new(),
                    };
                    assert(placeholder@.aliases =~= Seq::<Seq<char>>::empty());
                    assert(placeholder@.observed_descriptions =~= Seq::<Seq<char>>::empty());
                    assert(placeholder@.objects =~= Seq::<Seq<char>>::empty());
                    assert(placeholder@.notes =~= Seq::<Seq<char>>::empty());
                    assert(placeholder@.exits =~= Seq::<ExitView>::empty());
                    assert(placeholder@ =~~= placeholder_location(t));
                    let ghost before = self.locations@;
                    self.locations.insert(target.clone(), placeholder);
                    assert(self.locations@ == before.push((t, placeholder_location(t))));
                    self.locations.entries.len() - 1
                },
            };
            let ghost loc = match lookup(w.locations, t) {
                Some(l) => l,
                None => placeholder_location(t),
            };
            let ghost base = self.locations@;
            let ghost w0 = self@;
            assert(base[idx as int] == (t, loc));
            let mut i: usize = 0;
            assert(exits_v.take(0) =~= Seq::<Seq<char>>::empty());
            assert(base.update(idx as int, (t, LocationView { exits: add_reported_exits(loc.exits, exits_v.take(0)), ..loc })) =~~= base);
            while i < new_exits.len()
                invariant
                    0 <= i <= new_exits@.len(),
                    idx < base.len(),
                    base[idx as int] == (t, loc),
                    exits_v == new_exits@.map_values(|s: String| s@),
                    self@ == (WorldView {
                        locations: base.update(
                            idx as int,
                            (t, LocationView { exits: add_reported_exits(loc.exits, exits_v.take(i as int)), ..loc }),
                        ),
                        ..w0
                    }),
                decreases new_exits@.len() - i,
            {
                assert(exits_v.take(i + 1).drop_last() =~= exits_v.take(i as int));
                assert(exits_v.take(i + 1).last() == new_exits@[i as int]@);
                let direction = match normalize_direction_of(new_exits[i].as_str()) {
                    Some(d) => d,
                    None => {
                        let ev = chars_of(new_exits[i].as_str());
                        let et = trim_chars(ev.as_slice());
                        let lowered = lowercase_chars(et.as_slice());
                        string_of(lowered.as_slice())
                    },
                };
                assert(direction@ == reported_direction(exits_v[i as int]));
                let ghost es = add_reported_exits(loc.exits, exits_v.take(i as int));
                assert(self.locations@.len() == base.len());
                assert(self.locations@[idx as int] == (
                    self.locations.entries@[idx as int].0@,
                    self.locations.entries@[idx as int].1@,
                ));
                assert(self.locations.entries@[idx as int].1@.exits == es);
                proof {
                    crate::table::lemma_first_index_bounds(es, exit_has_direction(direction@));
                }
                let ghost prev = self.locations@;
                let ghost prev_entries = self.locations.entries@;
                if !direction.as_str().is_empty() {
                    if exit_index(&self.locations.entries[idx].1.exits, &direction).is_none() {
                        let exit = Exit {
                            direction,
                            destination: None,
                            transition_counts: KeyedTable::new(),
                            unstable: false,
                        };
                        self.locations.entries[idx].1.exits.push(exit);
                        proof {
                            let cur = self.locations.entries@[idx as int].1;
                            assert(cur@.exits =~~= es.push(exit@));
                        }
                    }
                }
                proof {
                    let new_loc = LocationView { exits: add_reported_exits(loc.exits, exits_v.take(i + 1)), ..loc };
                    assert(self.locations.entries@[idx as int].1@ =~~= new_loc);
                    assert(self.locations.entries@.len() == prev_entries.len());
                    assert(forall|q: int| 0 <= q < prev_entries.len() && q != idx ==> self.locations.entries@[q] == prev_entries[q]);
                    assert(self.locations.entries@[idx as int].0 == prev_entries[idx as int].0);
                    assert(self.locations@ =~~= prev.update(idx as int, (t, new_loc)));
                    assert(self.locations@ =~~= base.update(idx as int, (t, new_loc)));
                }
                i += 1;
            }
            assert(exits_v.take(new_exits@.len() as int) =~= exits_v);
            let ghost loc1 = LocationView { exits: add_reported_exits(loc.exits, exits_v), ..loc };
            let ghost w1 = self@;
            let ghost base1 = self.locations@;
            let mut k: usize = 0;
            assert(objects_v.take(0) =~= Seq::<Seq<char>>::empty());
            assert(base1.update(idx as int, (t, LocationView { objects: add_reported_items(loc1.objects, objects_v.take(0)), ..loc1 })) =~~= base1);
            while k < new_objects.len()
                invariant
                    0 <= k <= new_objects@.len(),
                    idx < base1.len(),
                    base1[idx as int] == (t, loc1),
                    objects_v == new_objects@.map_values(|s: String| s@),
                    self@ == (WorldView {
                        locations: base1.update(
                            idx as int,
                            (t, LocationView { objects: add_reported_items(loc1.objects, objects_v.take(k as int)), ..loc1 }),
                        ),
                        ..w1
                    }),
                decreases new_objects@.len() - k,
            {
                assert(objects_v.take(k + 1).drop_last() =~= objects_v.take(k as int));
                assert(objects_v.take(k + 1).last() == new_objects@[k as int]@);
                let item = trim_str(new_objects[k].as_str());
                let ghost its = add_reported_items(loc1.objects, objects_v.take(k as int));
                assert(self.locations@.len() == base1.len());
                assert(self.locations@[idx as int] == (
                    self.locations.entries@[idx as int].0@,
                    self.locations.entries@[idx as int].1@,
                ));
                assert(self.locations.entries@[idx as int].1@.objects == its);
                let ghost prev = self.locations@;
                let ghost prev_entries = self.locations.entries@;
                if !item.as_str().is_empty() {
                    if !strings_contain(&self.locations.entries[idx].1.objects, &item) {
                        self.locations.entries[idx].1.objects.push(item);
                        proof {
                            let cur = self.locations.entries@[idx as int].1;
                            assert(cur@.objects =~= its.push(trim(objects_v[k as int])));
                        }
                    }
                }
                proof {
                    let new_loc = LocationView { objects: add_reported_items(loc1.objects, objects_v.take(k + 1)), ..loc1 };
                    assert(self.locations.entries@[idx as int].1@ =~~= new_loc);
                    assert(self.locations.entries@.len() == prev_entries.len());
                    assert(forall|q: int| 0 <= q < prev_entries.len() && q != idx ==> self.locations.entries@[q] == prev_entries[q]);
                    assert(self.locations.entries@[idx as int].0 == prev_entries[idx as int].0);
                    assert(self.locations@ =~~= prev.update(idx as int, (t, new_loc)));
                    assert(self.locations@ =~~= base1.update(idx as int, (t, new_loc)));
                }
                k += 1;
            }
            assert(objects_v.take(new_objects@.len() as int) =~= objects_v);
            proof {
                let new_loc = LocationView {
                    exits: add_reported_exits(loc.exits, exits_v),
                    objects: add_reported_items(loc.objects, objects_v),
                    ..loc
                };
                assert(self.locations@ =~~= base.update(idx as int, (t, new_loc)));
                match key_index(w.locations, t) {
                    Some(ii) => {
                        assert(base == w.locations);
                        assert(idx == ii);
                    },
                    None => {
                        assert(self.locations@ =~~= w.locations.push((t, new_loc)));
                    },
                }
                assert(self.locations@ == table_insert(w.locations, t, new_loc));
            }
        }
        let ghost w2 = self@;
        let mut m: usize = 0;
        assert(notes_v.take(0) =~= Seq::<Seq<char>>::empty());
        while m < notes.len()
            invariant
                0 <= m <= notes@.len(),
                notes_v == notes@.map_values(|s: String| s@),
                self@ == (WorldView { task_notes: add_reported_items(w2.task_notes, notes_v.take(m as int)), ..w2 }),
            decreases notes@.len() - m,
        {
            assert(notes_v.take(m + 1).drop_last() =~= notes_v.take(m as int));
            assert(notes_v.take(m + 1).last() == notes@[m as int]@);
            let note = trim_str(notes[m].as_str());
            let ghost its = add_reported_items(w2.task_notes, notes_v.take(m as int));
            if !note.as_str().is_empty() {
                if !strings_contain(&self.task_notes, &note) {
                    self.task_notes.push(note);
                    assert(self.task_notes.deep_view() =~= its.push(trim(notes_v[m as int])));
                }
            }
            m += 1;
        }
        assert(notes_v.take(notes@.len() as int) =~= notes_v);
    }

    /// A summary of the exits not yet followed: `Current location: <key>`, then
    /// `- <key>: unexplored exits [<directions>]` for each location that has
    /// such exits, or `- No known frontier exits yet.`; one per line.
    pub fn frontier_summary(&self) -> (r: String)
        ensures
            r@ == frontier_text(self@),
    {
        let ghost locs = self.locations@;
        let mut lines: Vec<Vec<char>> = Vec::new();
        let mut first = chars_of("Current location: ");
        let cur = chars_of(self.current_location.as_str());
        append_chars(&mut first, cur.as_slice());
        lines.push(first);
        let ghost head = seq!["Current location: "@ + self@.current_location];
        let n = self.locations.entries.len();
        let mut i: usize = 0;
        assert(locs.take(0) =~= Seq::<(Seq<char>, LocationView)>::empty());
        assert(lines@.map_values(|w: Vec<char>| w@) =~= head + frontier_lines(locs.take(0)));
        while i < n
            invariant
                0 <= i <= n == locs.len(),
                locs == self.locations@,
                lines@.map_values(|w: Vec<char>| w@) == head + frontier_lines(locs.take(i as int)),
            decreases n - i,
        {
            assert(locs.take(i + 1).drop_last() =~= locs.take(i as int));
            assert(locs.take(i + 1).last() == locs[i as int]);
            let entry = &self.locations.entries[i];
            assert(locs[i as int] == (entry.0@, entry.1@));
            let unexplored = unexplored_of(&entry.1.exits);
            let ghost before = lines@.map_values(|w: Vec<char>| w@);
            if unexplored.len() > 0 {
                let mut line = chars_of("- ");
                let key = chars_of(entry.0.as_str());
                append_chars(&mut line, key.as_slice());
                let mid = chars_of(": unexplored exits [");
                append_chars(&mut line, mid.as_slice());
                let sep = chars_of(", ");
                let joined = join_chars(&unexplored, sep.as_slice());
                append_chars(&mut line, joined.as_slice());
                let close = chars_of("]");
                append_chars(&mut line, close.as_slice());
                lines.push(line);
                assert(lines@.map_values(|w: Vec<char>| w@) =~= before.push(
                    "- "@ + entry.0@ + ": unexplored exits ["@ + join(
                        unexplored_directions(entry.1@.exits),
                        ", "@,
                    ) + "]"@,
                ));
            }
            i += 1;
        }
        assert(locs.take(n as int) =~= locs);
        let ghost ls = head + frontier_lines(locs);
        assert(lines@.map_values(|w: Vec<char>| w@) == ls);
        if lines.len() == 1 {
            lines.push(chars_of("- No known frontier exits yet."));
            assert(lines@.map_values(|w: Vec<char>| w@) =~= ls.push("- No known frontier exits yet."@));
        }
        let nl = chars_of("\n");
        let text = join_chars(&lines, nl.as_slice());
        string_of(text.as_slice())
    }

    /// The first location with this (trimmed) title and the same description key material.
    fn exact_location_snapshot_match(&self, title: &[char], description: &[char]) -> (r: Option<
        LocationMatch,
    >)
        ensures
            match r {
                Some(m) => exact_index(self@.locations, title@, description@) matches Some(i)
                    && m@ == MatchView {
                    key: self@.locations[i].0,
                    confidence: LocationMatchConfidence::Exact,
                },
                None => exact_index(self@.locations, title@, description@) is None,
            },
    {
        let ghost p = |e: (Seq<char>, LocationView)|
            e.1.title == title@ && key_material(e.1.description) == key_material(description@);
        let wanted = normalized_key_material(description);
        let n = self.locations.entries.len();
        let mut i: usize = 0;
        while i < n
            invariant
                0 <= i <= n == self.locations@.len(),
                wanted@ == key_material(description@),
                p == (|e: (Seq<char>, LocationView)|
                    e.1.title == title@ && key_material(e.1.description) == key_material(
                        description@,
                    )),
                forall|k: int| 0 <= k < i ==> !p(#[trigger] self.locations@[k]),
            decreases n - i,
        {
            let loc = &self.locations.entries[i].1;
            assert(self.locations@[i as int].1 == loc@);
            let t = chars_of(loc.title.as_str());
            if chars_eq(t.as_slice(), title) {
                let d = chars_of(loc.description.as_str());
                let m = normalized_key_material(d.as_slice());
                if chars_eq(m.as_slice(), wanted.as_slice()) {
                    proof {
                        lemma_first_index_scan(self.locations@, p, i as int);
                    }
                    return Some(
                        LocationMatch {
                            key: self.locations.entries[i].0.clone(),
                            confidence: LocationMatchConfidence::Exact,
                        },
                    );
                }
            }
            i += 1;
        }
        proof {
            lemma_first_index_scan(self.locations@, p, n as int);
        }
        None
    }

    /// The keys of the locations with this title, in order.
    fn keys_with_title(&self, title: &[char]) -> (r: Vec<String>)
        ensures
            r.deep_view() == title_keys(self@.locations, title@),
    {
        let ghost locs = self.locations@;
        let mut r: Vec<String> = Vec::new();
        let n = self.locations.entries.len();
        let mut i: usize = 0;
        assert(locs.take(0) =~= Seq::<(Seq<char>, LocationView)>::empty());
        assert(r.deep_view() =~= Seq::<Seq<char>>::empty());
        while i < n
            invariant
                0 <= i <= n == locs.len(),
                locs == self.locations@,
                r.deep_view() == title_keys(locs.take(i as int), title@),
            decreases n - i,
        {
            assert(locs.take(i + 1).drop_last() =~= locs.take(i as int));
            assert(locs.take(i + 1).last() == locs[i as int]);
            let entry = &self.locations.entries[i];
            assert(locs[i as int] == (entry.0@, entry.1@));
            let t = chars_of(entry.1.title.as_str());
            let ghost before = r.deep_view();
            if chars_eq(t.as_slice(), title) {
                r.push(entry.0.clone());
                assert(r.deep_view() =~= before.push(entry.0@));
            }
            i += 1;
        }
        assert(locs.take(n as int) =~= locs);
        r
    }

    /// The one location with this title, when exactly one has it.
    fn probable_location_by_transition_context(&self, title: &[char]) -> (r: Option<
        LocationMatch,
    >)
        ensures
            match r {
                Some(m) => unique_title_key(self@.locations, title@) == Some(m@.key)
                    && m@.confidence == LocationMatchConfidence::Probable,
                None => unique_title_key(self@.locations, title@) is None,
            },
    {
        let candidates = self.keys_with_title(title);
        if candidates.len() == 1 {
            assert(candidates.deep_view()[0] == candidates@[0]@);
            return Some(
                LocationMatch {
                    key: candidates[0].clone(),
                    confidence: LocationMatchConfidence::Probable,
                },
            );
        }
        None
    }

    /// The one location with this title, for a description that does not read like a room.
    fn match_single_title_for_context(&self, title: &[char], description: &[char]) -> (r: Option<
        String,
    >)
        ensures
            opt_view(r) == single_title_key(self@, title@, description@),
    {
        let keys = self.keys_with_title(title);
        if keys.len() == 1 && !looks_like_room_description(description) {
            assert(keys.deep_view()[0] == keys@[0]@);
            Some(keys[0].clone())
        } else {
            None
        }
    }

    /// Which known location an observed title and description name, if any:
    /// the same title and description; else an alias of the title (for a
    /// description that does not read like a room); else, for such a
    /// description, the one location with that title.
    /// Whether a command result can be recorded: the count it raises is
    /// below `usize::MAX`.
    pub fn can_record_command_result(
        &self,
        previous: &str,
        command: &str,
        destination: Option<&str>,
    ) -> (b: bool)
        ensures
            b == command_result_in_bounds(self@, previous@, command@, opt_str(destination)),
    {
        let dir = match normalize_direction_of(command) {
            None => {
                return true;
            },
            Some(d) => d,
        };
        let pv = chars_of(previous);
        if trim_chars(pv.as_slice()).len() == 0 {
            return true;
        }
        let p = self.canonical_location_key(previous);
        let d: Option<String> = match destination {
            Some(x) => {
                let t = trim_str(x);
                if t.as_str().is_empty() {
                    None
                } else {
                    Some(self.canonical_location_key(t.as_str()))
                }
            },
            None => None,
        };
        match d {
            None => true,
            Some(dd) => {
                let f = self.canonical_location_key(p.as_str());
                match self.locations.get(f.as_str()) {
                    None => true,
                    Some(l) => match exit_index(&l.exits, &dir) {
                        None => true,
                        Some(j) => {
                            proof {
                                crate::table::lemma_first_index_bounds(
                                    l.exits@.map_values(|e: Exit| e@),
                                    exit_has_direction(dir@),
                                );
                            }
                            let dk = self.canonical_location_key(dd.as_str());
                            assert(l@.exits[j as int] == l.exits@[j as int]@);
                            match l.exits[j].transition_counts.get(dk.as_str()) {
                                Some(c) => *c < usize::MAX,
                                None => true,
                            }
                        },
                    },
                }
            },
        }
    }

    /// Whether the world has a number left for a new location.
    fn has_room_for_new_location(&self) -> (b: bool)
        ensures
            b == (next_number(self@) < usize::MAX),
    {
        if self.next_location_id == 0 {
            match self.max_location_number() {
                Some(m) => m < usize::MAX - 1,
                None => true,
            }
        } else {
            self.next_location_id < usize::MAX
        }
    }

    /// Whether an observation can be recorded: a location it would create
    /// still gets a number.
    pub fn can_record_observation(&self, text: &str) -> (b: bool)
        ensures
            b == observe_in_bounds(self@, text@),
    {
        match location_snapshot_from_observation(text) {
            None => true,
            Some((title, description)) => {
                let tv = chars_of(title.as_str());
                let t = trim_chars(tv.as_slice());
                let ts = string_of(t.as_slice());
                let dv = chars_of(description.as_str());
                if self.match_location_snapshot(ts.as_str(), description.as_str()).is_some() {
                    return true;
                }
                if self.match_single_title_for_context(t.as_slice(), dv.as_slice()).is_some() {
                    return true;
                }
                self.has_room_for_new_location()
            },
        }
    }

    pub fn match_location_snapshot(&self, title: &str, description: &str) -> (r: Option<
        LocationMatch,
    >)
        ensures
            match r {
                Some(m) => match_snapshot(self@, title@, description@) == Some(m@),
                None => match_snapshot(self@, title@, description@) is None,
            },
    {
        let tv = chars_of(title);
        let t = trim_chars(tv.as_slice());
        let dv = chars_of(description);
        if let Some(location_match) = self.exact_location_snapshot_match(
            t.as_slice(),
            dv.as_slice(),
        ) {
            return Some(location_match);
        }
        let ts = string_of(t.as_slice());
        let title_alias: Option<LocationMatch> = match self.location_aliases.get(ts.as_str()) {
            Some(key) => if self.locations.contains_key(key.as_str()) {
                Some(LocationMatch { key: key.clone(), confidence: LocationMatchConfidence::Alias })
            } else {
                None
            },
            None => None,
        };
        let room = looks_like_room_description(dv.as_slice());
        if title_alias.is_some() && !room {
            return title_alias;
        }
        if room {
            return None;
        }
        match self.probable_location_by_transition_context(t.as_slice()) {
            Some(m) => Some(m),
            None => match title_alias {
                Some(location_match) => match self.locations.get(location_match.key.as_str()) {
                    Some(location) => if !location.provisional {
                        Some(location_match)
                    } else {
                        None
                    },
                    None => None,
                },
                None => None,
            },
        }
    }
}


// ---------------------------------------------------------------------------
// Laws
// ---------------------------------------------------------------------------

/// The world's invariant: no key names two locations and no name is an
/// alias twice.
pub open spec fn world_wf(w: WorldView) -> bool {
    &&& crate::table::keys_unique(w.locations)
    &&& crate::table::keys_unique(w.location_aliases)
}

proof fn lemma_alias_all_unique(
    aliases: Seq<(Seq<char>, Seq<char>)>,
    names: Seq<Seq<char>>,
    key: Seq<char>,
)
    requires
        crate::table::keys_unique(aliases),
    ensures
        crate::table::keys_unique(alias_all(aliases, names, key)),
    decreases names.len(),
{
    if names.len() > 0 {
        lemma_alias_all_unique(aliases, names.drop_last(), key);
        crate::table::lemma_table_insert_unique(alias_all(aliases, names.drop_last(), key), names.last(), key);
    }
}

proof fn lemma_key_for_snapshot_wf(w: WorldView, title: Seq<char>, description: Seq<char>)
    requires
        world_wf(w),
    ensures
        world_wf(key_for_snapshot(w, title, description).0),
{
    let t = trim(title);
    let n = next_number(w);
    let key = stable_key(n);
    let w1 = WorldView { next_location_id: (n + 1) as usize, ..w };
    let names = new_aliases(w1, t, description, key);
    lemma_alias_all_unique(w1.location_aliases, names, key);
    let w2 = WorldView { location_aliases: alias_all(w1.location_aliases, names, key), ..w1 };
    let loc = LocationView {
        id: key,
        title: t,
        description,
        aliases: names,
        observed_descriptions: seq![description],
        provisional: !looks_like_room(description),
        exits: seq![],
        objects: seq![],
        notes: seq![],
    };
    crate::table::lemma_table_insert_unique(w2.locations, key, loc);
}

/// Recording an observation keeps the world's invariant.
pub proof fn lemma_observe_preserves_wf(w: WorldView, text: Seq<char>)
    requires
        world_wf(w),
    ensures
        world_wf(observe(w, text)),
{
    if let Some((t, d)) = snapshot(text) {
        lemma_key_for_snapshot_wf(w, t, d);
        let (w2, key) = key_for_snapshot(w, t, d);
        let w3 = WorldView { current_location: key, ..w2 };
        match lookup(w3.locations, key) {
            Some(loc) => {
                let l2 = LocationView {
                    description: if should_update_description(loc.description, d) {
                        d
                    } else {
                        loc.description
                    },
                    observed_descriptions: add_unique(loc.observed_descriptions, d),
                    ..loc
                };
                crate::table::lemma_table_insert_unique(w3.locations, key, l2);
            },
            None => {
                let l2 = LocationView {
                    id: key,
                    title: t,
                    description: d,
                    aliases: alias_keys_for(w3.location_aliases, key),
                    observed_descriptions: seq![d],
                    provisional: !looks_like_room(d),
                    exits: seq![],
                    objects: seq![],
                    notes: seq![],
                };
                crate::table::lemma_table_insert_unique(w3.locations, key, l2);
            },
        }
    }
}

/// After an observation that shows a location, the current location is a
/// known location.
pub proof fn lemma_observed_location_is_known(w: WorldView, text: Seq<char>)
    requires
        snapshot(text) is Some,
    ensures
        has_key(observe(w, text).locations, observe(w, text).current_location),
{
    let (t, d) = snapshot(text).unwrap();
    let (w2, key) = key_for_snapshot(w, t, d);
    let w3 = WorldView { current_location: key, ..w2 };
    match lookup(w3.locations, key) {
        Some(loc) => {
            let l2 = LocationView {
                description: if should_update_description(loc.description, d) {
                    d
                } else {
                    loc.description
                },
                observed_descriptions: add_unique(loc.observed_descriptions, d),
                ..loc
            };
            crate::planner::lemma_table_insert_has_key(w3.locations, key, l2);
        },
        None => {
            let l2 = LocationView {
                id: key,
                title: t,
                description: d,
                aliases: alias_keys_for(w3.location_aliases, key),
                observed_descriptions: seq![d],
                provisional: !looks_like_room(d),
                exits: seq![],
                objects: seq![],
                notes: seq![],
            };
            crate::planner::lemma_table_insert_has_key(w3.locations, key, l2);
        },
    }
}

/// An observation whose description does not read like a room keeps a
/// location's recorded non-empty description.
pub proof fn lemma_object_listing_keeps_description(w: WorldView, title: Seq<char>, description: Seq<char>)
    requires
        ({
            let (w2, key) = key_for_snapshot(w, title, description);
            lookup(w2.locations, key) matches Some(loc) && trim(loc.description).len() > 0
        }),
        !looks_like_room(trim(description)),
    ensures
        ({
            let (w2, key) = key_for_snapshot(w, title, description);
            let r = record_snapshot(w, title, description);
            lookup(r.locations, r.current_location) == Some(
                LocationView {
                    observed_descriptions: add_unique(
                        lookup(w2.locations, key).unwrap().observed_descriptions,
                        description,
                    ),
                    ..lookup(w2.locations, key).unwrap()
                },
            )
        }),
{
    let (w2, key) = key_for_snapshot(w, title, description);
    let loc = lookup(w2.locations, key).unwrap();
    let l2 = LocationView {
        description: loc.description,
        observed_descriptions: add_unique(loc.observed_descriptions, description),
        ..loc
    };
    crate::planner::lemma_table_insert_lookup(w2.locations, key, l2);
}

/// Recording a command result keeps the world's invariant.
pub proof fn lemma_command_result_preserves_wf(
    w: WorldView,
    previous: Seq<char>,
    command: Seq<char>,
    destination: Option<Seq<char>>,
)
    requires
        world_wf(w),
    ensures
        world_wf(with_command_result(w, previous, command, destination)),
{
    if let Some(dir) = normalize_direction(command) {
        if trim(previous).len() > 0 {
            let p = canon(w, previous);
            let d = match destination {
                Some(x) => if trim(x).len() > 0 {
                    Some(canon(w, trim(x)))
                } else {
                    None
                },
                None => None,
            };
            lemma_with_exit_wf(w, p, dir, d, true);
            let w1 = with_exit(w, p, dir, d, true);
            if let Some(dd) = d {
                if dd != p {
                    if let Some(r) = reverse_direction(dir) {
                        lemma_with_exit_wf(w1, dd, r, Some(p), false);
                    }
                }
            }
        }
    }
}

proof fn lemma_with_exit_wf(
    w: WorldView,
    from: Seq<char>,
    direction: Seq<char>,
    destination: Option<Seq<char>>,
    count: bool,
)
    requires
        world_wf(w),
    ensures
        world_wf(with_exit(w, from, direction, destination, count)),
{
    let f = canon(w, from);
    let d = match destination {
        Some(x) => Some(canon(w, x)),
        None => None,
    };
    let loc = match lookup(w.locations, f) {
        Some(l) => l,
        None => placeholder_location(f),
    };
    crate::table::lemma_table_insert_unique(
        w.locations,
        f,
        LocationView { exits: exits_with_transition(loc.exits, direction, d, count), ..loc },
    );
}

/// Recording the model's memory update keeps the world's invariant.
pub proof fn lemma_llm_memory_preserves_wf(
    w: WorldView,
    hint: Seq<char>,
    exits: Seq<Seq<char>>,
    objects: Seq<Seq<char>>,
    notes: Seq<Seq<char>>,
)
    requires
        world_wf(w),
    ensures
        world_wf(with_llm_memory(w, hint, exits, objects, notes)),
{
    let t = memory_target(w, hint);
    if t.len() > 0 {
        let loc = match lookup(w.locations, t) {
            Some(l) => l,
            None => placeholder_location(t),
        };
        crate::table::lemma_table_insert_unique(
            w.locations,
            t,
            LocationView {
                exits: add_reported_exits(loc.exits, exits),
                objects: add_reported_items(loc.objects, objects),
                ..loc
            },
        );
    }
}

/// A counted move raises the count of its destination by one on the first
/// exit in its direction (a new exit starts at one), and that exit is
/// unstable exactly when it has been seen to lead to more than one place.
pub proof fn lemma_counted_transition(exits: Seq<ExitView>, direction: Seq<char>, destination: Seq<char>)
    ensures
        ({
            let r = exits_with_transition(exits, direction, Some(destination), true);
            let before: nat = match first_index(exits, exit_has_direction(direction)) {
                Some(j) => match lookup(exits[j].transition_counts, destination) {
                    Some(c) => c as nat,
                    None => 0,
                },
                None => 0,
            };
            &&& first_index(r, exit_has_direction(direction)) matches Some(k)
            &&& lookup(r[k].transition_counts, destination) == Some((before + 1) as usize)
            &&& r[k].unstable == (r[k].transition_counts.len() > 1)
        }),
{
    crate::table::lemma_first_index_bounds(exits, exit_has_direction(direction));
    let r = exits_with_transition(exits, direction, Some(destination), true);
    match first_index(exits, exit_has_direction(direction)) {
        Some(j) => {
            let c = exits[j].transition_counts;
            crate::table::lemma_key_index_bounds(c, destination);
            let bumped = count_bumped(c, destination);
            match crate::table::key_index(c, destination) {
                Some(i) => {
                    assert forall|m: int| 0 <= m < i implies #[trigger] bumped[m].0 != destination by {
                        assert(bumped[m] == c[m]);
                    }
                    crate::table::lemma_key_index_scan(bumped, destination, i);
                },
                None => {
                    assert forall|m: int| 0 <= m < c.len() implies #[trigger] bumped[m].0 != destination by {
                        assert(bumped[m] == c[m]);
                    }
                    crate::table::lemma_key_index_scan(bumped, destination, c.len() as int);
                },
            }
            assert forall|m: int| 0 <= m < j implies !exit_has_direction(direction)(#[trigger] r[m]) by {
                assert(r[m] == exits[m]);
            }
            crate::table::lemma_first_index_scan(r, exit_has_direction(direction), j);
        },
        None => {
            assert forall|m: int| 0 <= m < exits.len() implies !exit_has_direction(direction)(#[trigger] r[m]) by {
                assert(r[m] == exits[m]);
            }
            crate::table::lemma_first_index_scan(r, exit_has_direction(direction), exits.len() as int);
            let nc = seq![(destination, 1usize)];
            crate::table::lemma_key_index_scan(nc, destination, 0);
        },
    }
}


proof fn lemma_last_title_index_is_last(ls: Seq<Seq<char>>)
    ensures
        last_title_index(ls) matches Some(i) ==> 0 <= i < ls.len() && is_title_line(ls[i])
            && forall|j: int| i < j < ls.len() ==> !is_title_line(#[trigger] ls[j]),
        last_title_index(ls) is None ==> forall|j: int| 0 <= j < ls.len() ==> !is_title_line(#[trigger] ls[j]),
    decreases ls.len(),
{
    if ls.len() > 0 && !is_title_line(ls.last()) {
        lemma_last_title_index_is_last(ls.drop_last());
        assert forall|j: int| 0 <= j < ls.len() - 1 implies ls[j] == ls.drop_last()[j] by {}
    }
}

/// What an observation shows: with no non-empty line, nothing; else the
/// last title-like line and the first line after it (empty when there is
/// none); with no title-like line, the first line and the whole text. The
/// lines read are the text's trimmed non-empty lines.
pub proof fn lemma_snapshot_reads_last_title(text: Seq<char>)
    ensures
        ({
            let ls = content_lines(lines(text));
            &&& ls.len() == 0 ==> snapshot(text) is None
            &&& forall|i: int|
                0 <= i < ls.len() && #[trigger] is_title_line(ls[i]) && (forall|j: int|
                    i < j < ls.len() ==> !is_title_line(#[trigger] ls[j])) ==> snapshot(text)
                    == Some((ls[i], if i + 1 < ls.len() { ls[i + 1] } else { Seq::<char>::empty() }))
            &&& (ls.len() > 0 && forall|j: int| 0 <= j < ls.len() ==> !is_title_line(#[trigger] ls[j]))
                ==> snapshot(text) == Some((ls[0], text))
        }),
{
    let ls = content_lines(lines(text));
    lemma_last_title_index_is_last(ls);
    assert forall|i: int|
        0 <= i < ls.len() && #[trigger] is_title_line(ls[i]) && (forall|j: int|
            i < j < ls.len() ==> !is_title_line(#[trigger] ls[j])) implies snapshot(text) == Some(
        (ls[i], if i + 1 < ls.len() { ls[i + 1] } else { Seq::<char>::empty() }),
    ) by {
        match last_title_index(ls) {
            Some(k) => {
                if k < i {
                } else if k > i {
                    assert(!is_title_line(ls[k]));
                }
            },
            None => {
                assert(!is_title_line(ls[i]));
            },
        }
    }
    if ls.len() > 0 && forall|j: int| 0 <= j < ls.len() ==> !is_title_line(#[trigger] ls[j]) {
        if let Some(k) = last_title_index(ls) {
            assert(!is_title_line(ls[k]));
        }
    }
}

/// Resolving a name twice gives what resolving it once gives, when every
/// alias names a location by a trimmed, non-empty key: the result is empty
/// exactly for a blank name, and a name that is a key (once trimmed)
/// resolves to itself.
pub proof fn lemma_canonical_key_idempotent(w: WorldView, k: Seq<char>)
    requires
        forall|i: int|
            0 <= i < w.location_aliases.len() ==> {
                let target = #[trigger] w.location_aliases[i].1;
                &&& has_key(w.locations, target)
                &&& trim(target) == target
                &&& target.len() > 0
            },
    ensures
        (canon(w, k).len() == 0) == (trim(k).len() == 0),
        has_key(w.locations, trim(k)) ==> canon(w, k) == trim(k),
        canon(w, canon(w, k)) == canon(w, k),
{
    let t = trim(k);
    crate::text::lemma_trim_idempotent(k);
    if t.len() > 0 && !has_key(w.locations, t) {
        crate::table::lemma_key_index_bounds(w.location_aliases, t);
        match lookup(w.location_aliases, t) {
            Some(target) => {
                let i = crate::table::key_index(w.location_aliases, t).unwrap();
                assert(has_key(w.locations, w.location_aliases[i].1));
            },
            None => {},
        }
    } else if t.len() > 0 {
    } else {
        assert(trim(Seq::<char>::empty()) =~= Seq::<char>::empty());
    }
}

/// An observed room description is only ever matched exactly: a match for
/// a description that reads like a room is the first location with the
/// same title and the same description key material, and (keys being
/// unique) the location under the matched key has that title and
/// description key material.
pub proof fn lemma_room_description_matches_exactly(w: WorldView, title: Seq<char>, description: Seq<char>)
    requires
        looks_like_room(description),
    ensures
        match_snapshot(w, title, description) matches Some(m) ==> {
            let i = exact_index(w.locations, trim(title), description).unwrap();
            &&& exact_index(w.locations, trim(title), description) is Some
            &&& m.confidence == LocationMatchConfidence::Exact
            &&& m.key == w.locations[i].0
            &&& w.locations[i].1.title == trim(title)
            &&& key_material(w.locations[i].1.description) == key_material(description)
            &&& m.confidence != LocationMatchConfidence::New
            &&& world_wf(w) ==> (lookup(w.locations, m.key) matches Some(l) && l.title == trim(title)
                && key_material(l.description) == key_material(description))
        },
{
    let p = |e: (Seq<char>, LocationView)|
        e.1.title == trim(title) && key_material(e.1.description) == key_material(description);
    crate::table::lemma_first_index_bounds(w.locations, p);
    if let Some(i) = exact_index(w.locations, trim(title), description) {
        if world_wf(w) {
            let key = w.locations[i].0;
            assert forall|m: int| 0 <= m < i implies #[trigger] w.locations[m].0 != key by {}
            crate::table::lemma_key_index_scan(w.locations, key, i);
        }
    }
}


proof fn lemma_lex_less_total(a: Seq<char>, b: Seq<char>)
    ensures
        a == b || lex_less(a, b) || lex_less(b, a),
    decreases a.len(),
{
    if a.len() > 0 && b.len() > 0 && a[0] == b[0] {
        lemma_lex_less_total(a.drop_first(), b.drop_first());
        if a.drop_first() == b.drop_first() {
            assert(a =~= seq![a[0]] + a.drop_first());
            assert(b =~= seq![b[0]] + b.drop_first());
        }
    } else if a.len() == 0 && b.len() == 0 {
        assert(a =~= b);
    }
}

proof fn lemma_lex_less_transitive(a: Seq<char>, b: Seq<char>, c: Seq<char>)
    requires
        lex_less(a, b),
        lex_less(b, c),
    ensures
        lex_less(a, c),
    decreases a.len(),
{
    if a.len() > 0 && b.len() > 0 && c.len() > 0 && a[0] == b[0] && b[0] == c[0] {
        lemma_lex_less_transitive(a.drop_first(), b.drop_first(), c.drop_first());
    }
}

proof fn lemma_lex_less_irreflexive(a: Seq<char>)
    ensures
        !lex_less(a, a),
    decreases a.len(),
{
    if a.len() > 0 {
        lemma_lex_less_irreflexive(a.drop_first());
    }
}

/// The destination an exit prefers is one reached most often, and among
/// those reached as often the least by code point.
pub proof fn lemma_best_destination_most_frequent(counts: Seq<(Seq<char>, usize)>)
    requires
        counts.len() > 0,
    ensures
        counts.contains(best_destination(counts)),
        forall|j: int|
            0 <= j < counts.len() ==> (#[trigger] counts[j]).1 <= best_destination(counts).1 && (
            counts[j].1 == best_destination(counts).1 ==> counts[j].0 == best_destination(counts).0
                || lex_less(best_destination(counts).0, counts[j].0)),
    decreases counts.len(),
{
    if counts.len() == 1 {
        assert(counts[0] == best_destination(counts));
    } else {
        let pre = counts.drop_last();
        lemma_best_destination_most_frequent(pre);
        let b = best_destination(pre);
        let e = counts.last();
        let r = best_destination(counts);
        let k = choose|k: int| 0 <= k < pre.len() && pre[k] == b;
        assert(counts[k] == b);
        assert(counts[counts.len() - 1] == e);
        assert forall|j: int| 0 <= j < counts.len() implies (#[trigger] counts[j]).1 <= r.1 && (
        counts[j].1 == r.1 ==> counts[j].0 == r.0 || lex_less(r.0, counts[j].0)) by {
            let takes_e = e.1 > b.1 || (e.1 == b.1 && lex_less(e.0, b.0));
            if j < pre.len() {
                assert(counts[j] == pre[j]);
                if takes_e && e.1 == b.1 && counts[j].1 == r.1 && counts[j].0 != r.0 {
                    if counts[j].0 != b.0 {
                        lemma_lex_less_transitive(e.0, b.0, counts[j].0);
                    }
                }
            } else if !takes_e && e.1 == b.1 && e.0 != b.0 {
                lemma_lex_less_total(e.0, b.0);
            }
        }
    }
}

/// After a counted move, the exit in its direction leads to a destination
/// reached most often through it, the least by code point among equals.
pub proof fn lemma_counted_move_prefers_most_frequent(exits: Seq<ExitView>, direction: Seq<char>, destination: Seq<char>)
    ensures
        ({
            let r = exits_with_transition(exits, direction, Some(destination), true);
            first_index(r, exit_has_direction(direction)) matches Some(k) && {
                let c = r[k].transition_counts;
                &&& c.len() > 0
                &&& r[k].destination == Some(best_destination(c).0)
                &&& forall|j: int|
                    0 <= j < c.len() ==> (#[trigger] c[j]).1 <= best_destination(c).1 && (c[j].1
                        == best_destination(c).1 ==> c[j].0 == best_destination(c).0 || lex_less(
                        best_destination(c).0,
                        c[j].0,
                    ))
            }
        }),
{
    lemma_counted_transition(exits, direction, destination);
    let r = exits_with_transition(exits, direction, Some(destination), true);
    let k = first_index(r, exit_has_direction(direction)).unwrap();
    crate::table::lemma_first_index_bounds(exits, exit_has_direction(direction));
    let c = r[k].transition_counts;
    crate::table::lemma_key_index_bounds(c, destination);
    lemma_best_destination_most_frequent(c);
    crate::table::lemma_first_index_bounds(r, exit_has_direction(direction));
    match first_index(exits, exit_has_direction(direction)) {
        Some(j) => {
            if k < j {
                assert(r[k] == exits[k]);
            }
            if k > j {
                assert(exit_has_direction(direction)(r[j]));
            }
            assert(k == j);
            assert(c.len() > 0);
            assert(r[k].destination == preferred(c, Some(destination)));
        },
        None => {
            if k < exits.len() {
                assert(r[k] == exits[k]);
            }
            assert(k == exits.len());
            assert(c.len() == 1);
            assert(best_destination(c) == c[0]);
        },
    }
}

/// A move recorded without a destination (a failed one) counts nothing:
/// every exit keeps its counts, and a new exit has none.
pub proof fn lemma_failed_move_counts_nothing(exits: Seq<ExitView>, direction: Seq<char>, count: bool)
    ensures
        ({
            let r = exits_with_transition(exits, direction, None, count);
            &&& r.len() >= exits.len()
            &&& forall|j: int| 0 <= j < exits.len() ==> (#[trigger] r[j]).transition_counts == exits[j].transition_counts
            &&& forall|j: int| exits.len() <= j < r.len() ==> (#[trigger] r[j]).transition_counts.len() == 0
        }),
{
    crate::table::lemma_first_index_bounds(exits, exit_has_direction(direction));
}

proof fn lemma_reported_exits_extend(exits: Seq<ExitView>, names: Seq<Seq<char>>)
    ensures
        add_reported_exits(exits, names).len() >= exits.len(),
        add_reported_exits(exits, names).take(exits.len() as int) == exits,
    decreases names.len(),
{
    if names.len() > 0 {
        lemma_reported_exits_extend(exits, names.drop_last());
        let es = add_reported_exits(exits, names.drop_last());
        assert(es.take(exits.len() as int) == exits);
        let d = reported_direction(names.last());
        if !(d.len() == 0 || first_index(es, exit_has_direction(d)) is Some) {
            let e = ExitView { direction: d, destination: None, transition_counts: seq![], unstable: false };
            assert(es.push(e).take(exits.len() as int) =~= es.take(exits.len() as int));
        }
    } else {
        assert(exits.take(exits.len() as int) =~= exits);
    }
}

proof fn lemma_reported_items_extend(items: Seq<Seq<char>>, names: Seq<Seq<char>>)
    ensures
        add_reported_items(items, names).len() >= items.len(),
        add_reported_items(items, names).take(items.len() as int) == items,
    decreases names.len(),
{
    if names.len() > 0 {
        lemma_reported_items_extend(items, names.drop_last());
        let its = add_reported_items(items, names.drop_last());
        let t = trim(names.last());
        if !(t.len() == 0 || its.contains(t)) {
            assert(its.push(t).take(items.len() as int) =~= its.take(items.len() as int));
        }
    } else {
        assert(items.take(items.len() as int) =~= items);
    }
}

/// The model's memory update only adds: no location is removed or
/// renamed, every location keeps its exits and objects (new ones come
/// after them), and the task notes keep theirs.
pub proof fn lemma_llm_memory_only_adds(
    w: WorldView,
    hint: Seq<char>,
    exits: Seq<Seq<char>>,
    objects: Seq<Seq<char>>,
    notes: Seq<Seq<char>>,
)
    ensures
        ({
            let r = with_llm_memory(w, hint, exits, objects, notes);
            &&& r.locations.len() >= w.locations.len()
            &&& forall|i: int|
                0 <= i < w.locations.len() ==> {
                    &&& (#[trigger] r.locations[i]).0 == w.locations[i].0
                    &&& r.locations[i].1.exits.len() >= w.locations[i].1.exits.len()
                    &&& r.locations[i].1.exits.take(w.locations[i].1.exits.len() as int)
                        == w.locations[i].1.exits
                    &&& r.locations[i].1.objects.len() >= w.locations[i].1.objects.len()
                    &&& r.locations[i].1.objects.take(w.locations[i].1.objects.len() as int)
                        == w.locations[i].1.objects
                }
            &&& r.task_notes.len() >= w.task_notes.len()
            &&& r.task_notes.take(w.task_notes.len() as int) == w.task_notes
        }),
{
    let t = memory_target(w, hint);
    let r = with_llm_memory(w, hint, exits, objects, notes);
    if t.len() > 0 {
        crate::table::lemma_key_index_bounds(w.locations, t);
        let loc = match lookup(w.locations, t) {
            Some(l) => l,
            None => placeholder_location(t),
        };
        lemma_reported_exits_extend(loc.exits, exits);
        lemma_reported_items_extend(loc.objects, objects);
        assert forall|i: int| 0 <= i < w.locations.len() implies {
            &&& (#[trigger] r.locations[i]).0 == w.locations[i].0
            &&& r.locations[i].1.exits.len() >= w.locations[i].1.exits.len()
            &&& r.locations[i].1.exits.take(w.locations[i].1.exits.len() as int)
                == w.locations[i].1.exits
            &&& r.locations[i].1.objects.len() >= w.locations[i].1.objects.len()
            &&& r.locations[i].1.objects.take(w.locations[i].1.objects.len() as int)
                == w.locations[i].1.objects
        } by {
            match crate::table::key_index(w.locations, t) {
                Some(n) => {
                    if i != n {
                        assert(r.locations[i] == w.locations[i]);
                    }
                },
                None => {
                    assert(r.locations[i] == w.locations[i]);
                },
            }
        }
    }
    lemma_reported_items_extend(w.task_notes, notes);
}

/// Some exit leads in this direction.
pub open spec fn has_exit_toward(exits: Seq<ExitView>, direction: Seq<char>) -> bool {
    exists|i: int| 0 <= i < exits.len() && (#[trigger] exits[i]).direction == direction
}

/// After the reported names are added, each name with a non-empty direction
/// has an exit that way; each exit added has no destination and no counts,
/// a direction that no exit before it had, and is the direction of a name.
proof fn lemma_reported_exits_cover(exits: Seq<ExitView>, names: Seq<Seq<char>>)
    ensures
        ({
            let r = add_reported_exits(exits, names);
            &&& forall|j: int|
                0 <= j < names.len() && reported_direction(#[trigger] names[j]).len() > 0 ==> has_exit_toward(
                    r,
                    reported_direction(names[j]),
                )
            &&& forall|i: int|
                exits.len() <= i < r.len() ==> {
                    &&& (#[trigger] r[i]).destination is None
                    &&& r[i].transition_counts.len() == 0
                    &&& r[i].direction.len() > 0
                    &&& forall|i2: int| 0 <= i2 < i ==> (#[trigger] r[i2]).direction != r[i].direction
                    &&& exists|j: int| 0 <= j < names.len() && r[i].direction == reported_direction(#[trigger] names[j])
                }
        }),
    decreases names.len(),
{
    lemma_reported_exits_extend(exits, names);
    if names.len() > 0 {
        let prev = names.drop_last();
        lemma_reported_exits_cover(exits, prev);
        lemma_reported_exits_extend(exits, prev);
        let es = add_reported_exits(exits, prev);
        let r = add_reported_exits(exits, names);
        let d = reported_direction(names.last());
        crate::table::lemma_first_index_bounds(es, exit_has_direction(d));
        assert forall|i: int| 0 <= i < es.len() implies #[trigger] r[i] == es[i] by {}
        assert forall|j: int|
            0 <= j < names.len() && reported_direction(#[trigger] names[j]).len() > 0 implies has_exit_toward(
            r,
            reported_direction(names[j]),
        ) by {
            if j < prev.len() {
                assert(names[j] == prev[j]);
                let i = choose|i: int| 0 <= i < es.len() && (#[trigger] es[i]).direction == reported_direction(prev[j]);
                assert(r[i] == es[i]);
            } else if first_index(es, exit_has_direction(d)) is Some {
                let i = first_index(es, exit_has_direction(d)).unwrap();
                assert(r[i] == es[i]);
            } else {
                assert(r[es.len() as int].direction == d);
            }
        }
        assert forall|i: int| exits.len() <= i < r.len() implies {
            &&& (#[trigger] r[i]).destination is None
            &&& r[i].transition_counts.len() == 0
            &&& r[i].direction.len() > 0
            &&& forall|i2: int| 0 <= i2 < i ==> (#[trigger] r[i2]).direction != r[i].direction
            &&& exists|j: int| 0 <= j < names.len() && r[i].direction == reported_direction(#[trigger] names[j])
        } by {
            if i < es.len() {
                assert(r[i] == es[i]);
                assert forall|i2: int| 0 <= i2 < i implies (#[trigger] r[i2]).direction != r[i].direction by {
                    assert(r[i2] == es[i2]);
                }
                let j = choose|j: int| 0 <= j < prev.len() && es[i].direction == reported_direction(#[trigger] prev[j]);
                assert(prev[j] == names[j]);
            } else {
                assert(r[i].direction == d);
                assert forall|i2: int| 0 <= i2 < i implies (#[trigger] r[i2]).direction != r[i].direction by {
                    assert(r[i2] == es[i2]);
                    assert(!exit_has_direction(d)(es[i2]));
                }
                assert(names[names.len() - 1] == names.last());
            }
        }
    }
}

/// After the reported names are added, each trimmed, non-empty name is
/// held; each item added is a trimmed, non-empty name no item before it
/// equals; and items free of repeats stay so.
proof fn lemma_reported_items_cover(items: Seq<Seq<char>>, names: Seq<Seq<char>>)
    ensures
        ({
            let r = add_reported_items(items, names);
            &&& forall|j: int|
                0 <= j < names.len() && trim(#[trigger] names[j]).len() > 0 ==> r.contains(trim(names[j]))
            &&& forall|i: int|
                items.len() <= i < r.len() ==> {
                    &&& (#[trigger] r[i]).len() > 0
                    &&& forall|i2: int| 0 <= i2 < i ==> #[trigger] r[i2] != r[i]
                    &&& exists|j: int| 0 <= j < names.len() && r[i] == trim(#[trigger] names[j])
                }
            &&& items.no_duplicates() ==> r.no_duplicates()
        }),
    decreases names.len(),
{
    lemma_reported_items_extend(items, names);
    if names.len() > 0 {
        let prev = names.drop_last();
        lemma_reported_items_cover(items, prev);
        lemma_reported_items_extend(items, prev);
        let its = add_reported_items(items, prev);
        let r = add_reported_items(items, names);
        let t = trim(names.last());
        assert forall|i: int| 0 <= i < its.len() implies #[trigger] r[i] == its[i] by {}
        assert forall|j: int|
            0 <= j < names.len() && trim(#[trigger] names[j]).len() > 0 implies r.contains(trim(names[j])) by {
            if j < prev.len() {
                assert(names[j] == prev[j]);
                let i = choose|i: int| 0 <= i < its.len() && its[i] == trim(prev[j]);
                assert(r[i] == its[i]);
            } else if its.contains(t) {
                let i = choose|i: int| 0 <= i < its.len() && its[i] == t;
                assert(r[i] == its[i]);
            } else {
                assert(r[its.len() as int] == t);
            }
        }
        assert forall|i: int| items.len() <= i < r.len() implies {
            &&& (#[trigger] r[i]).len() > 0
            &&& forall|i2: int| 0 <= i2 < i ==> #[trigger] r[i2] != r[i]
            &&& exists|j: int| 0 <= j < names.len() && r[i] == trim(#[trigger] names[j])
        } by {
            if i < its.len() {
                assert(r[i] == its[i]);
                assert forall|i2: int| 0 <= i2 < i implies #[trigger] r[i2] != r[i] by {
                    assert(r[i2] == its[i2]);
                }
                let j = choose|j: int| 0 <= j < prev.len() && its[i] == trim(#[trigger] prev[j]);
                assert(prev[j] == names[j]);
            } else {
                assert(r[i] == t);
                assert forall|i2: int| 0 <= i2 < i implies #[trigger] r[i2] != r[i] by {
                    assert(r[i2] == its[i2]);
                }
                assert(names[names.len() - 1] == names.last());
            }
        }
        if items.no_duplicates() {
            assert forall|a: int, b: int| 0 <= a < r.len() && 0 <= b < r.len() && a != b implies r[a]
                != r[b] by {
                if a < its.len() && b < its.len() {
                    assert(r[a] == its[a] && r[b] == its[b]);
                } else if a < b {
                    assert(r[b] == t);
                    assert(r[a] == its[a]);
                } else {
                    assert(r[a] == t);
                    assert(r[b] == its[b]);
                }
            }
        }
    }
}

/// The model's memory update records what it reports. Without a target
/// location (no hint and no current location) the locations stay as they
/// are. Otherwise only the target's entry changes: it is known afterwards
/// (a new one is provisional, titled and keyed by the target, with no
/// description), keeps its title, description and recorded exits and
/// objects, has an exit for each reported name with a non-empty direction,
/// and holds each trimmed, non-empty reported object; each exit added has
/// no destination and a direction no exit had, each object added is one
/// it lacked. The task notes gain each trimmed, non-empty note they
/// lacked, after the old ones, and stay free of repeats. The aliases, the
/// current location and the location counter stay as they are.
pub proof fn lemma_llm_memory_records_report(
    w: WorldView,
    hint: Seq<char>,
    exits: Seq<Seq<char>>,
    objects: Seq<Seq<char>>,
    notes: Seq<Seq<char>>,
)
    ensures
        ({
            let r = with_llm_memory(w, hint, exits, objects, notes);
            let t = memory_target(w, hint);
            let base = match lookup(w.locations, t) {
                Some(o) => o,
                None => placeholder_location(t),
            };
            &&& t.len() == 0 ==> r.locations == w.locations
            &&& t.len() > 0 ==> {
                &&& lookup(r.locations, t) matches Some(l) && {
                    &&& lookup(w.locations, t) is None ==> l.provisional && l.title == t && l.id == t
                        && l.description.len() == 0
                    &&& l.title == base.title
                    &&& l.description == base.description
                    &&& l.exits.take(base.exits.len() as int) == base.exits
                    &&& l.objects.take(base.objects.len() as int) == base.objects
                    &&& forall|j: int|
                        0 <= j < exits.len() && reported_direction(#[trigger] exits[j]).len() > 0
                            ==> has_exit_toward(l.exits, reported_direction(exits[j]))
                    &&& forall|j: int|
                        0 <= j < objects.len() && trim(#[trigger] objects[j]).len() > 0 ==> l.objects.contains(
                            trim(objects[j]),
                        )
                    &&& forall|i: int|
                        base.exits.len() <= i < l.exits.len() ==> (#[trigger] l.exits[i]).destination is None
                            && forall|i2: int| 0 <= i2 < i ==> (#[trigger] l.exits[i2]).direction != l.exits[i].direction
                    &&& forall|i: int|
                        base.objects.len() <= i < l.objects.len() ==> forall|i2: int|
                            0 <= i2 < i ==> #[trigger] l.objects[i2] != #[trigger] l.objects[i]
                }
                &&& forall|k: Seq<char>| k != t ==> #[trigger] lookup(r.locations, k) == lookup(w.locations, k)
            }
            &&& forall|j: int|
                0 <= j < notes.len() && trim(#[trigger] notes[j]).len() > 0 ==> r.task_notes.contains(trim(notes[j]))
            &&& r.task_notes.take(w.task_notes.len() as int) == w.task_notes
            &&& forall|i: int|
                w.task_notes.len() <= i < r.task_notes.len() ==> {
                    &&& (#[trigger] r.task_notes[i]).len() > 0
                    &&& forall|i2: int| 0 <= i2 < i ==> #[trigger] r.task_notes[i2] != r.task_notes[i]
                    &&& exists|j: int| 0 <= j < notes.len() && r.task_notes[i] == trim(#[trigger] notes[j])
                }
            &&& w.task_notes.no_duplicates() ==> r.task_notes.no_duplicates()
            &&& r.location_aliases == w.location_aliases
            &&& r.current_location == w.current_location
            &&& r.next_location_id == w.next_location_id
        }),
{
    let t = memory_target(w, hint);
    let base = match lookup(w.locations, t) {
        Some(o) => o,
        None => placeholder_location(t),
    };
    lemma_reported_items_cover(w.task_notes, notes);
    lemma_reported_items_extend(w.task_notes, notes);
    if t.len() > 0 {
        lemma_reported_exits_cover(base.exits, exits);
        lemma_reported_exits_extend(base.exits, exits);
        lemma_reported_items_cover(base.objects, objects);
        lemma_reported_items_extend(base.objects, objects);
        let l = LocationView {
            exits: add_reported_exits(base.exits, exits),
            objects: add_reported_items(base.objects, objects),
            ..base
        };
        crate::planner::lemma_table_insert_lookup(w.locations, t, l);
        let r = with_llm_memory(w, hint, exits, objects, notes);
        assert forall|k: Seq<char>| k != t implies #[trigger] lookup(r.locations, k) == lookup(w.locations, k) by {
            crate::table::lemma_table_insert_lookup_other(w.locations, t, l, k);
        }
    }
}

/// Adding a value once it is missing leaves it among the values, and keeps
/// values that were each held once each held once.
pub proof fn lemma_add_unique_holds(values: Seq<Seq<char>>, v: Seq<char>)
    ensures
        add_unique(values, v).contains(v),
        values.no_duplicates() ==> add_unique(values, v).no_duplicates(),
{
    let r = add_unique(values, v);
    if !values.contains(v) {
        assert(r[values.len() as int] == v);
        if values.no_duplicates() {
            assert forall|a: int, b: int| 0 <= a < r.len() && 0 <= b < r.len() && a != b implies r[a]
                != r[b] by {
                if a == values.len() {
                    assert(r[b] == values[b]);
                } else if b == values.len() {
                    assert(r[a] == values[a]);
                }
            }
        }
    }
}


proof fn lemma_decimal_digits(n: nat)
    ensures
        decimal(n).len() > 0,
        all_digits(decimal(n)),
        digits_value(decimal(n)) == n,
    decreases n,
{
    let last = crate::text::digit_char(n % 10);
    assert(((last as u32) - ('0' as u32)) as nat == n % 10);
    if n < 10 {
        let d = decimal(n);
        assert(d.drop_last() =~= Seq::<char>::empty());
        assert(digits_value(d) == digits_value(d.drop_last()) * 10 + ((d.last() as u32) - ('0' as u32)) as nat);
    } else {
        lemma_decimal_digits(n / 10);
        let d = decimal(n);
        assert(d.drop_last() == decimal(n / 10));
        assert(d.last() == last);
        assert(digits_value(d) == digits_value(d.drop_last()) * 10 + ((d.last() as u32) - ('0' as u32)) as nat);
        assert((n / 10) * 10 + n % 10 == n) by (nonlinear_arith);
        assert forall|i: int| 0 <= i < d.len() implies is_ascii_digit(#[trigger] d[i]) by {
            if i < d.len() - 1 {
                assert(d[i] == decimal(n / 10)[i]);
            }
        }
    }
}

proof fn lemma_leading_zeros_value(k: nat, d: Seq<char>)
    ensures
        digits_value(Seq::new(k, |i: int| '0') + d) == digits_value(d),
    decreases d.len() + k,
{
    let z = Seq::new(k, |i: int| '0');
    if d.len() > 0 {
        lemma_leading_zeros_value(k, d.drop_last());
        assert((z + d).drop_last() =~= z + d.drop_last());
    } else if k > 0 {
        lemma_leading_zeros_value((k - 1) as nat, d);
        assert((z + d).drop_last() =~= Seq::new((k - 1) as nat, |i: int| '0') + d);
    } else {
        assert(z + d =~= Seq::<char>::empty());
    }
}

/// The number of the key of location number `n` is `n`.
proof fn lemma_stable_key_number(n: nat)
    requires
        n <= usize::MAX,
    ensures
        loc_number(stable_key(n)) == Some(n),
{
    reveal_strlit("loc-");
    let d = decimal(n);
    lemma_decimal_digits(n);
    let p = zero_pad(d, 6);
    let key = stable_key(n);
    assert(key.subrange(0, 4) =~= "loc-"@);
    assert(key.skip(4) =~= p);
    if d.len() < 6 {
        let k = (6 - d.len()) as nat;
        lemma_leading_zeros_value(k, d);
        assert forall|i: int| 0 <= i < p.len() implies is_ascii_digit(#[trigger] p[i]) by {
            if i >= k {
                assert(p[i] == d[i - k]);
            }
        }
    }
    assert(p[0] != '+');
    assert(without_plus(p) == p);
}

proof fn lemma_max_loc_number_bounds(locs: Seq<(Seq<char>, LocationView)>)
    ensures
        forall|i: int|
            0 <= i < locs.len() ==> (loc_number(#[trigger] locs[i].0) matches Some(v) ==> (
            max_loc_number(locs) matches Some(m) && v <= m)),
    decreases locs.len(),
{
    if locs.len() > 0 {
        lemma_max_loc_number_bounds(locs.drop_last());
        assert forall|i: int| 0 <= i < locs.len() - 1 implies locs[i] == locs.drop_last()[i] by {}
    }
}

/// A new location's key is fresh: no location has it yet, provided the
/// next location number (when set) is above every `loc-` number in use and
/// fits in a `usize`.
pub proof fn lemma_new_location_key_is_fresh(w: WorldView)
    requires
        w.next_location_id != 0 ==> forall|i: int|
            0 <= i < w.locations.len() ==> (loc_number(#[trigger] w.locations[i].0) matches Some(v)
                ==> v < w.next_location_id),
        next_number(w) <= usize::MAX,
    ensures
        !has_key(w.locations, stable_key(next_number(w))),
{
    let n = next_number(w);
    lemma_stable_key_number(n);
    lemma_max_loc_number_bounds(w.locations);
    crate::table::lemma_key_index_bounds(w.locations, stable_key(n));
    if let Some(i) = crate::table::key_index(w.locations, stable_key(n)) {
        assert(loc_number(w.locations[i].0) == Some(n));
    }
}


/// Every key listed for a title is a key of the locations.
proof fn lemma_title_keys_known(locs: Seq<(Seq<char>, LocationView)>, title: Seq<char>)
    ensures
        forall|j: int|
            0 <= j < title_keys(locs, title).len() ==> has_key(locs, #[trigger] title_keys(locs, title)[j]),
    decreases locs.len(),
{
    if locs.len() > 0 {
        let rest = locs.drop_last();
        lemma_title_keys_known(rest, title);
        let ks = title_keys(locs, title);
        assert forall|j: int| 0 <= j < ks.len() implies has_key(locs, #[trigger] ks[j]) by {
            let k = ks[j];
            if j < title_keys(rest, title).len() {
                assert(k == title_keys(rest, title)[j]);
                crate::table::lemma_key_index_bounds(rest, k);
                let m = crate::table::key_index(rest, k).unwrap();
                assert(locs[m] == rest[m]);
                assert(locs[m].0 == k);
            } else {
                assert(locs[locs.len() - 1].0 == k);
            }
            crate::table::lemma_key_index_bounds(locs, k);
        }
    }
}

/// A location an observed title and description are matched to is known.
proof fn lemma_snapshot_match_known(w: WorldView, title: Seq<char>, description: Seq<char>)
    ensures
        match_snapshot(w, title, description) matches Some(m) ==> has_key(w.locations, m.key),
        single_title_key(w, title, description) matches Some(k) ==> has_key(w.locations, k),
{
    let t = trim(title);
    lemma_title_keys_known(w.locations, t);
    lemma_title_keys_known(w.locations, title);
    let p = |e: (Seq<char>, LocationView)|
        e.1.title == t && key_material(e.1.description) == key_material(description);
    crate::table::lemma_first_index_bounds(w.locations, p);
    if let Some(i) = exact_index(w.locations, t, description) {
        crate::table::lemma_key_index_bounds(w.locations, w.locations[i].0);
    }
    if let Some(k) = title_alias(w, t) {
        crate::table::lemma_key_index_bounds(w.locations, k);
    }
    if let Some(k) = lookup(w.location_aliases, t) {
        crate::table::lemma_key_index_bounds(w.locations, k);
    }
}

/// After the names are pointed at `key`, every name leads where it led
/// before or to `key`.
proof fn lemma_alias_all_lookup(
    aliases: Seq<(Seq<char>, Seq<char>)>,
    names: Seq<Seq<char>>,
    key: Seq<char>,
    a: Seq<char>,
)
    ensures
        lookup(alias_all(aliases, names, key), a) == lookup(aliases, a) || lookup(
            alias_all(aliases, names, key),
            a,
        ) == Some(key),
    decreases names.len(),
{
    if names.len() > 0 {
        lemma_alias_all_lookup(aliases, names.drop_last(), key, a);
        let prev = alias_all(aliases, names.drop_last(), key);
        if a == names.last() {
            crate::planner::lemma_table_insert_lookup(prev, a, key);
        } else {
            crate::table::lemma_table_insert_lookup_other(prev, names.last(), key, a);
        }
    }
}

/// Resolving an observed title and description to a location key: the key
/// names a location afterwards. A key that named a location before leaves
/// the world as it was. Otherwise the key is the next `loc-` key, the next
/// number moves past it, one location is added after the others, with the
/// trimmed title, and every alias that changed now leads to the new key.
/// The next location number, where set, is above every `loc-` number in
/// use, and the number after it fits in a `usize`.
pub open spec fn fresh_numbering(w: WorldView) -> bool {
    &&& w.next_location_id != 0 ==> forall|i: int|
        0 <= i < w.locations.len() ==> (loc_number(#[trigger] w.locations[i].0) matches Some(v) ==> v
            < w.next_location_id)
    &&& next_number(w) < usize::MAX
}

/// This holds when the numbering is fresh.
pub proof fn lemma_snapshot_key_known_or_new(w: WorldView, title: Seq<char>, description: Seq<char>)
    requires
        fresh_numbering(w),
    ensures
        ({
            let (w2, k) = key_for_snapshot(w, title, description);
            &&& has_key(w2.locations, k)
            &&& has_key(w.locations, k) ==> w2 == w
            &&& !has_key(w.locations, k) ==> {
                &&& k == stable_key(next_number(w))
                &&& w2.next_location_id == next_number(w) + 1
                &&& w2.locations.len() == w.locations.len() + 1
                &&& w2.locations.drop_last() == w.locations
                &&& lookup(w2.locations, k) matches Some(l) && l.title == trim(title) && l.id == k
                &&& forall|a: Seq<char>|
                    lookup(w2.location_aliases, a) != lookup(w.location_aliases, a) ==> #[trigger] lookup(
                        w2.location_aliases,
                        a,
                    ) == Some(k)
            }
        }),
{
    let t = trim(title);
    lemma_snapshot_match_known(w, t, description);
    let (w2, k) = key_for_snapshot(w, title, description);
    let matched = match match_snapshot(w, t, description) {
        Some(m) => m.confidence != LocationMatchConfidence::New,
        None => false,
    };
    if !matched && single_title_key(w, t, description) is None {
        let n = next_number(w);
        let key = stable_key(n);
        lemma_new_location_key_is_fresh(w);
        let w1 = WorldView { next_location_id: (n + 1) as usize, ..w };
        let names = new_aliases(w1, t, description, key);
        let w3 = WorldView { location_aliases: alias_all(w1.location_aliases, names, key), ..w1 };
        let loc = LocationView {
            id: key,
            title: t,
            description,
            aliases: names,
            observed_descriptions: seq![description],
            provisional: !looks_like_room(description),
            exits: seq![],
            objects: seq![],
            notes: seq![],
        };
        assert(k == key);
        assert(w2.locations == w.locations.push((key, loc)));
        assert(w2.locations.drop_last() =~= w.locations);
        crate::planner::lemma_table_insert_lookup(w3.locations, key, loc);
        assert forall|a: Seq<char>|
            lookup(w2.location_aliases, a) != lookup(w.location_aliases, a) implies #[trigger] lookup(
                w2.location_aliases,
                a,
            ) == Some(k) by {
            lemma_alias_all_lookup(w1.location_aliases, names, key, a);
        }
    }
}

/// Every alias names a known location by a trimmed, non-empty key.
pub open spec fn aliases_resolve(w: WorldView) -> bool {
    forall|i: int|
        0 <= i < w.location_aliases.len() ==> {
            let target = #[trigger] w.location_aliases[i].1;
            &&& has_key(w.locations, target)
            &&& trim(target) == target
            &&& target.len() > 0
        }
}

/// A non-blank name resolves to a trimmed, non-empty key that is a known
/// location or no alias.
proof fn lemma_canon_settled(w: WorldView, k: Seq<char>)
    requires
        aliases_resolve(w),
        trim(k).len() > 0,
    ensures
        trim(canon(w, k)) == canon(w, k),
        canon(w, k).len() > 0,
        has_key(w.locations, canon(w, k)) || lookup(w.location_aliases, canon(w, k)) is None,
{
    let t = trim(k);
    crate::text::lemma_trim_idempotent(k);
    if !has_key(w.locations, t) {
        crate::table::lemma_key_index_bounds(w.location_aliases, t);
        if let Some(target) = lookup(w.location_aliases, t) {
            let i = crate::table::key_index(w.location_aliases, t).unwrap();
            assert(w.location_aliases[i].1 == target);
        }
    }
}

/// A key stays a key when a value is stored under any key.
proof fn lemma_table_insert_keeps_key<T>(e: Seq<(Seq<char>, T)>, key: Seq<char>, v: T, k: Seq<char>)
    requires
        has_key(e, k),
    ensures
        has_key(table_insert(e, key, v), k),
{
    if k == key {
        crate::planner::lemma_table_insert_has_key(e, key, v);
    } else {
        crate::table::lemma_table_insert_lookup_other(e, key, v, k);
    }
}

/// An exit recorded without counting goes in its direction, and leads to
/// the given destination while nothing was counted for it; where no exit
/// went that way, it is added last, counting nothing.
proof fn lemma_uncounted_exit(exits: Seq<ExitView>, direction: Seq<char>, destination: Option<Seq<char>>)
    ensures
        ({
            let r = exits_with_transition(exits, direction, destination, false);
            &&& exists|j: int|
                0 <= j < r.len() && (#[trigger] r[j]).direction == direction && (r[j].transition_counts.len()
                    == 0 ==> r[j].destination == destination)
            &&& first_index(exits, exit_has_direction(direction)) is None ==> {
                &&& r.len() == exits.len() + 1
                &&& r[exits.len() as int].direction == direction
                &&& r[exits.len() as int].transition_counts.len() == 0
                &&& r[exits.len() as int].destination == destination
            }
        }),
{
    let r = exits_with_transition(exits, direction, destination, false);
    crate::table::lemma_first_index_bounds(exits, exit_has_direction(direction));
    match first_index(exits, exit_has_direction(direction)) {
        Some(j) => {
            assert(r[j].direction == direction);
        },
        None => {
            assert(r[exits.len() as int].direction == direction);
        },
    }
}

/// The exits recorded at a location (none for an unknown one).
pub open spec fn exits_of(w: WorldView, key: Seq<char>) -> Seq<ExitView> {
    match lookup(w.locations, key) {
        Some(l) => l.exits,
        None => seq![],
    }
}

/// Whether location `q` has an exit opposite to `dir` that leads to `p`
/// while nothing was counted on it (`fresh`: and nothing was counted).
pub open spec fn way_back(w: WorldView, q: Seq<char>, dir: Seq<char>, p: Seq<char>, fresh: bool) -> bool {
    lookup(w.locations, q) matches Some(l) && exists|j: int|
        0 <= j < l.exits.len() && are_opposite(dir, (#[trigger] l.exits[j]).direction) && (fresh
            ==> l.exits[j].transition_counts.len() == 0) && (l.exits[j].transition_counts.len() == 0
            ==> l.exits[j].destination == Some(p))
}

/// A move recorded from one location to another leaves a way back: the
/// location reached has an exit in the opposite direction, which leads to
/// where the move started while no move along it was counted; where it had
/// no exit in that direction, the new one counts nothing and leads there.
/// Here every alias names a known location by a trimmed, non-empty key.
pub proof fn lemma_recorded_move_has_way_back(
    w: WorldView,
    previous: Seq<char>,
    command: Seq<char>,
    destination: Seq<char>,
)
    requires
        aliases_resolve(w),
        normalize_direction(command) is Some,
        trim(previous).len() > 0,
        trim(destination).len() > 0,
        canon(w, trim(destination)) != canon(w, previous),
    ensures
        way_back(
            with_command_result(w, previous, command, Some(destination)),
            canon(w, trim(destination)),
            normalize_direction(command).unwrap(),
            canon(w, previous),
            false,
        ),
        (forall|k: int|
            0 <= k < exits_of(w, canon(w, trim(destination))).len() ==> !are_opposite(
                normalize_direction(command).unwrap(),
                (#[trigger] exits_of(w, canon(w, trim(destination)))[k]).direction,
            )) ==> way_back(
            with_command_result(w, previous, command, Some(destination)),
            canon(w, trim(destination)),
            normalize_direction(command).unwrap(),
            canon(w, previous),
            true,
        ),
{
    let dir = normalize_direction(command).unwrap();
    let p = canon(w, previous);
    let q = canon(w, trim(destination));
    crate::text::lemma_trim_idempotent(destination);
    lemma_canon_settled(w, previous);
    lemma_canon_settled(w, trim(destination));
    lemma_direction_abbreviations(without_go(lowercase_of(trim(command))));
    lemma_reverse_is_opposite(dir);
    let rev = reverse_direction(dir).unwrap();
    let w1 = with_exit(w, p, dir, Some(q), true);
    let loc0 = match lookup(w.locations, canon(w, p)) {
        Some(l) => l,
        None => placeholder_location(canon(w, p)),
    };
    assert(canon(w, p) == p);
    let l1 = LocationView { exits: exits_with_transition(loc0.exits, dir, Some(canon(w, q)), true), ..loc0 };
    crate::planner::lemma_table_insert_has_key(w.locations, p, l1);
    assert(has_key(w1.locations, p));
    assert(canon(w1, p) == p);
    if has_key(w.locations, q) {
        lemma_table_insert_keeps_key(w.locations, p, l1, q);
    }
    assert(canon(w1, q) == q);
    crate::table::lemma_table_insert_lookup_other(w.locations, p, l1, q);
    let loc = match lookup(w1.locations, q) {
        Some(l) => l,
        None => placeholder_location(q),
    };
    let before = match lookup(w.locations, q) {
        Some(lq) => lq.exits,
        None => seq![],
    };
    assert(loc.exits == before);
    let l2 = LocationView { exits: exits_with_transition(loc.exits, rev, Some(p), false), ..loc };
    crate::planner::lemma_table_insert_lookup(w1.locations, q, l2);
    lemma_uncounted_exit(loc.exits, rev, Some(p));
    let r = with_command_result(w, previous, command, Some(destination));
    assert(r == with_exit(w1, q, rev, Some(p), false));
    assert(lookup(r.locations, q) == Some(l2));
    assert(are_opposite(dir, rev));
    let jj = choose|j: int|
        0 <= j < l2.exits.len() && (#[trigger] l2.exits[j]).direction == rev && (
        l2.exits[j].transition_counts.len() == 0 ==> l2.exits[j].destination == Some(p));
    assert(are_opposite(dir, l2.exits[jj].direction));
    assert(way_back(r, q, dir, p, false));
    crate::table::lemma_first_index_bounds(before, exit_has_direction(rev));
    if let Some(j) = first_index(before, exit_has_direction(rev)) {
        assert(are_opposite(dir, before[j].direction));
    } else {
        let n = before.len() as int;
        assert(0 <= n < l2.exits.len());
        assert(are_opposite(dir, l2.exits[n].direction) && l2.exits[n].transition_counts.len() == 0
            && l2.exits[n].destination == Some(p));
    }
    assert(exits_of(w, q) == before);
}

/// A move recorded from one location to another is counted where it
/// started: the first exit there in the move's direction has the count of
/// the location reached raised by one (a new exit starts at one), and is
/// unstable exactly when it has led to more than one place. Here every
/// alias names a known location by a trimmed, non-empty key.
pub proof fn lemma_recorded_move_counted_forward(
    w: WorldView,
    previous: Seq<char>,
    command: Seq<char>,
    destination: Seq<char>,
)
    requires
        aliases_resolve(w),
        normalize_direction(command) is Some,
        trim(previous).len() > 0,
        trim(destination).len() > 0,
        canon(w, trim(destination)) != canon(w, previous),
    ensures
        ({
            let dir = normalize_direction(command).unwrap();
            let p = canon(w, previous);
            let q = canon(w, trim(destination));
            let r = with_command_result(w, previous, command, Some(destination));
            let old_exits = exits_of(w, p);
            let before: nat = match first_index(old_exits, exit_has_direction(dir)) {
                Some(j) => match lookup(old_exits[j].transition_counts, q) {
                    Some(c) => c as nat,
                    None => 0,
                },
                None => 0,
            };
            &&& lookup(r.locations, p) matches Some(l) && first_index(l.exits, exit_has_direction(dir))
                matches Some(k) && lookup(l.exits[k].transition_counts, q) == Some((before + 1) as usize)
                && l.exits[k].unstable == (l.exits[k].transition_counts.len() > 1)
        }),
{
    let dir = normalize_direction(command).unwrap();
    let p = canon(w, previous);
    let q = canon(w, trim(destination));
    crate::text::lemma_trim_idempotent(destination);
    lemma_canon_settled(w, previous);
    lemma_canon_settled(w, trim(destination));
    lemma_direction_abbreviations(without_go(lowercase_of(trim(command))));
    lemma_reverse_is_opposite(dir);
    let rev = reverse_direction(dir).unwrap();
    assert(canon(w, p) == p);
    assert(canon(w, q) == q);
    let w1 = with_exit(w, p, dir, Some(q), true);
    let loc0 = match lookup(w.locations, p) {
        Some(l) => l,
        None => placeholder_location(p),
    };
    assert(loc0.exits == exits_of(w, p));
    let l1 = LocationView { exits: exits_with_transition(loc0.exits, dir, Some(q), true), ..loc0 };
    crate::planner::lemma_table_insert_lookup(w.locations, p, l1);
    crate::planner::lemma_table_insert_has_key(w.locations, p, l1);
    if has_key(w.locations, q) {
        lemma_table_insert_keeps_key(w.locations, p, l1, q);
    }
    assert(canon(w1, q) == q);
    assert(canon(w1, p) == p);
    let loc = match lookup(w1.locations, q) {
        Some(l) => l,
        None => placeholder_location(q),
    };
    let l2 = LocationView { exits: exits_with_transition(loc.exits, rev, Some(p), false), ..loc };
    let r = with_command_result(w, previous, command, Some(destination));
    assert(r == with_exit(w1, q, rev, Some(p), false));
    crate::table::lemma_table_insert_lookup_other(w1.locations, q, l2, p);
    assert(lookup(r.locations, p) == Some(l1));
    lemma_counted_transition(loc0.exits, dir, q);
}

/// Whether a line lists an item: once trimmed it starts with `- `.
pub open spec fn is_item_line(line: Seq<char>) -> bool {
    starts_with(trim(line), "- "@)
}

/// The item a listing line names: the text after `- `, trimmed.
pub open spec fn item_of(line: Seq<char>) -> Seq<char> {
    trim(trim(line).skip(2))
}

/// The items read from a listing are those its item lines name: each item
/// line's item is read, and each item read is trimmed and named by some
/// item line; there are no more items than lines.
pub proof fn lemma_inventory_items_from_item_lines(ls: Seq<Seq<char>>)
    ensures
        ({
            let items = inventory_items(ls);
            &&& forall|j: int| 0 <= j < ls.len() && is_item_line(#[trigger] ls[j]) ==> items.contains(item_of(ls[j]))
            &&& forall|i: int|
                0 <= i < items.len() ==> trim(#[trigger] items[i]) == items[i] && exists|j: int|
                    0 <= j < ls.len() && is_item_line(#[trigger] ls[j]) && items[i] == item_of(ls[j])
            &&& items.len() <= ls.len()
        }),
    decreases ls.len(),
{
    reveal_strlit("- ");
    if ls.len() > 0 {
        let prev = ls.drop_last();
        lemma_inventory_items_from_item_lines(prev);
        let rest = inventory_items(prev);
        let items = inventory_items(ls);
        let line = ls.last();
        crate::text::lemma_trim_idempotent(trim(line).skip(2));
        assert forall|i: int| 0 <= i < rest.len() implies #[trigger] items[i] == rest[i] by {}
        assert forall|j: int| 0 <= j < ls.len() && is_item_line(#[trigger] ls[j]) implies items.contains(
            item_of(ls[j]),
        ) by {
            if j < prev.len() {
                assert(ls[j] == prev[j]);
                let i = choose|i: int| 0 <= i < rest.len() && rest[i] == item_of(prev[j]);
                assert(items[i] == rest[i]);
            } else {
                assert(ls[j] == line);
                assert(items[rest.len() as int] == item_of(line));
            }
        }
        assert forall|i: int| 0 <= i < items.len() implies trim(#[trigger] items[i]) == items[i] && exists|j: int|
            0 <= j < ls.len() && is_item_line(#[trigger] ls[j]) && items[i] == item_of(ls[j]) by {
            if i < rest.len() {
                assert(items[i] == rest[i]);
                let j = choose|j: int| 0 <= j < prev.len() && is_item_line(#[trigger] prev[j]) && rest[i] == item_of(prev[j]);
                assert(ls[j] == prev[j]);
            } else {
                assert(items[i] == item_of(line));
                assert(ls[ls.len() - 1] == line);
            }
        }
    }
}

/// An inventory listing is read whatever the letter case of its heading:
/// for ASCII text, where lower-casing is the ASCII one (as `str::to_lowercase`
/// documents), an observation whose text holds "you are currently holding"
/// in any case sets the inventory to the listed `- ` items, and one that
/// does not leaves the inventory as it was.
pub proof fn lemma_inventory_heading_in_any_case(w: WorldView, text: Seq<char>)
    requires
        all_ascii(text),
        lowercase_of(text) == ascii_lowercase(text),
    ensures
        contains(ascii_lowercase(text), "you are currently holding"@) ==> observe(w, text).inventory
            == inventory_items(lines(text)),
        !contains(ascii_lowercase(text), "you are currently holding"@) ==> observe(w, text).inventory
            == w.inventory,
{
}

/// An observation that resolves to a location already known, with a
/// recorded non-empty description, and whose description line does not
/// read like a room (an object listing, say), leaves the player there,
/// keeps the recorded title and description, and records the seen
/// description once: it is among the observed descriptions, and they stay
/// free of repeats. Resolving leaves the world as it was, which holds
/// whenever the numbering is fresh.
pub proof fn lemma_observation_keeps_known_description(w: WorldView, text: Seq<char>)
    requires
        snapshot(text) matches Some((t, d)) && ({
            let (w2, k) = key_for_snapshot(w, t, d);
            &&& w2 == w || fresh_numbering(w)
            &&& lookup(w.locations, k) matches Some(loc) && trim(loc.description).len() > 0
            &&& !looks_like_room(trim(d))
        }),
    ensures
        ({
            let (t, d) = snapshot(text).unwrap();
            let k = key_for_snapshot(w, t, d).1;
            let loc = lookup(w.locations, k).unwrap();
            let r = observe(w, text);
            &&& r.current_location == k
            &&& lookup(r.locations, k) matches Some(l2) && {
                &&& l2.description == loc.description
                &&& l2.title == loc.title
                &&& l2.observed_descriptions.contains(d)
                &&& loc.observed_descriptions.no_duplicates() ==> l2.observed_descriptions.no_duplicates()
            }
        }),
{
    let (t, d) = snapshot(text).unwrap();
    if fresh_numbering(w) {
        lemma_snapshot_key_known_or_new(w, t, d);
    }
    lemma_object_listing_keeps_description(w, t, d);
    let k = key_for_snapshot(w, t, d).1;
    let loc = lookup(w.locations, k).unwrap();
    lemma_add_unique_holds(loc.observed_descriptions, d);
}

} // verus!
