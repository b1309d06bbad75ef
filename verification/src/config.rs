//! The settings of a session that the library reads: the story to load and
//! the limits of the terminal interface.
use crate::text::chars_of;
use crate::world::{lit_string, parse_usize, parse_usize_chars};
use vstd::prelude::*;

verus! {

/// The story the interpreter loads.
#[derive(Clone, Debug)]
pub struct GameConfig {
    pub story_path: String,
}

/// The limits of the terminal interface.
#[derive(Clone, Debug)]
pub struct UiConfig {
    /// How many lines of history are kept.
    pub max_history_lines: usize,
    /// How many input lines are remembered.
    pub input_history_limit: usize,
}

/// The story loaded when none is configured.
pub open spec fn default_story_path() -> Seq<char> {
    "games/Advent.z5"@
}

impl GameConfig {
    /// The configured story path, or the default one.
    pub fn from_story_path(configured: Option<String>) -> (r: Self)
        ensures
            r.story_path@ == match configured {
                Some(p) => p@,
                None => default_story_path(),
            },
    {
        match configured {
            Some(p) => GameConfig { story_path: p },
            None => GameConfig { story_path: lit_string("games/Advent.z5") },
        }
    }
}

impl UiConfig {
    /// The interface limits a session runs with.
    pub fn standard() -> (r: Self)
        ensures
            r.max_history_lines == 2000,
            r.input_history_limit == 200,
    {
        UiConfig { max_history_lines: 2000, input_history_limit: 200 }
    }
}

/// The model's answer length limit: the configured number when it parses,
/// otherwise 1200.
pub fn max_tokens_setting(configured: Option<String>) -> (r: usize)
    ensures
        r == match configured {
            Some(v) => match parse_usize(v@) {
                Some(n) => n,
                None => 1200,
            },
            None => 1200,
        },
{
    match configured {
        Some(v) => match parse_usize_chars(chars_of(v.as_str()).as_slice()) {
            Some(n) => n,
            None => 1200,
        },
        None => 1200,
    }
}

} // verus!
