# if_agent

An agent that explores a text adventure (Colossal Cave, run by an embedded
Z-machine interpreter) and builds a map of it, either by asking a language
model for one command per turn or by a depth-first planner over untried
moves. An evaluation mode scores the built map against an expected map.

## Layout

- `src/` is the library, verified with Verus. Every function states its
  behaviour in `requires` / `ensures` over a mathematical model of the data.
  - `text`, `table`: character-sequence helpers and an insertion-ordered
    table keyed by text, the model most other types are built on.
  - `world`: the map built from game observations (locations, exits,
    aliases, transition counts), with its well-formedness laws.
  - `planner`: the depth-first frontier planner — frontier generation,
    classification of the game's answers, blocked edges, routes over known
    exits, the choice of the next command plan, and its laws.
  - `game`, `runner`: command validation, output cleaning, the transcript,
    and the decisions of the interpreter protocol (prompt detection, output
    framing).
  - `llm`, `agent`, `logging`, `config`: prompts, replies, the agent's turn
    bookkeeping and its log lines.
  - `tui`: text wrapping, history cells, scrolling and key handling of the
    terminal interface.
  - `eval`, `scoring`: the evaluation's command line, and how a built map is
    compared with the expected one.
- `app/` is the program around the library: the interpreter process, HTTP
  calls, JSON, the terminal, files, and the floating-point scores.
- `tests/` runs the library on concrete inputs.
