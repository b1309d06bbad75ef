use if_agent::eval::{
    counts, disambiguate_duplicate_titles, exit_to_items_from_exit_items,
    final_map_move_command, normalize_score_text, parse_eval_args, unique_exit_to_items,
    EvalStrategy, ExitItem, ExitToItem,
};

fn args(list: &[&str]) -> Vec<String> {
    list.iter().map(|s| s.to_string()).collect()
}

#[test]
fn strategies_parse_by_name() {
    assert_eq!(EvalStrategy::parse("dfs").unwrap(), EvalStrategy::Dfs);
    assert_eq!(EvalStrategy::parse("llm-agent").unwrap(), EvalStrategy::LlmAgent);
    assert_eq!(
        EvalStrategy::parse("bfs").unwrap_err().message,
        "unknown --strategy 'bfs', expected 'dfs' or 'llm-agent'"
    );
}

#[test]
fn default_eval_arguments() {
    let a = parse_eval_args(&args(&[])).unwrap().unwrap();
    assert_eq!(a.runs, 3);
    assert!(!a.calculate_only);
    assert_eq!(a.world_state_path, "memory_store/world-state.json");
    assert_eq!(a.first_nodes_path, "eval_data/first_nodes.json");
    assert_eq!(a.strategy, EvalStrategy::Dfs);
    assert_eq!(a.dfs_max_turns, 30);
    assert_eq!(a.command, "explore to create the full map");
}

#[test]
fn eval_arguments_override_defaults() {
    let a = parse_eval_args(&args(&[
        "--runs",
        "2",
        "--strategy",
        "llm-agent",
        "--no-run",
        "--prompt",
        "map it",
        "--dfs-max-turns",
        "7",
        "ws.json",
        "fn.json",
    ]))
    .unwrap()
    .unwrap();
    assert_eq!(a.runs, 2);
    assert_eq!(a.strategy, EvalStrategy::LlmAgent);
    assert!(a.calculate_only);
    assert_eq!(a.command, "map it");
    assert_eq!(a.dfs_max_turns, 7);
    assert_eq!(a.world_state_path, "ws.json");
    assert_eq!(a.first_nodes_path, "fn.json");
}

#[test]
fn bad_eval_arguments_are_refused() {
    let message = |list: &[&str]| parse_eval_args(&args(list)).unwrap_err().message;
    assert_eq!(message(&["--runs"]), "--runs requires a value");
    assert_eq!(message(&["-r", "x"]), "invalid --runs value 'x'");
    assert_eq!(message(&["--runs", "0"]), "--runs must be at least 1");
    assert_eq!(message(&["--dfs-max-turns", "0"]), "--dfs-max-turns must be at least 1");
    assert_eq!(message(&["--dfs-max-turns", "-1"]), "invalid --dfs-max-turns value '-1'");
    assert_eq!(message(&["-x"]), "unknown argument '-x'");
    assert_eq!(
        message(&["a", "b", "c"]),
        "expected at most two positional paths: <world-state> <first-nodes>"
    );
    assert_eq!(message(&["--world-state"]), "--world-state requires a value");
    assert_eq!(message(&["--first-nodes"]), "--first-nodes requires a value");
    assert_eq!(message(&["--command"]), "--command requires a value");
    assert_eq!(message(&["--strategy"]), "--strategy requires a value");
}

#[test]
fn help_stops_argument_reading() {
    assert!(parse_eval_args(&args(&["-h", "--bogus"])).unwrap().is_none());
    assert!(parse_eval_args(&args(&["--runs", "1", "--help"])).unwrap().is_none());
}

#[test]
fn final_map_uses_short_move_names() {
    assert_eq!(final_map_move_command("north").as_deref(), Some("n"));
    assert_eq!(final_map_move_command("Go Up").as_deref(), Some("u"));
    assert_eq!(final_map_move_command("enter building").as_deref(), Some("in"));
    assert_eq!(final_map_move_command("exit").as_deref(), Some("out"));
    assert_eq!(final_map_move_command("jump"), None);
}

#[test]
fn score_text_is_normalized() {
    assert_eq!(normalize_score_text("  You  are\tHERE "), "you are here");
}

#[test]
fn repeated_titles_are_numbered() {
    let titles = vec!["A".to_string(), "B".to_string(), "A".to_string()];
    assert_eq!(disambiguate_duplicate_titles(titles), vec!["A#1", "B", "A#2"]);
    let c = counts(&["x".to_string(), "y".to_string(), "x".to_string()]);
    assert_eq!(c.get("x"), Some(&2));
    assert_eq!(c.get("y"), Some(&1));
    assert_eq!(c.get("z"), None);
}

#[test]
fn neighbour_pairs_are_kept_once() {
    let item = |s: &str, d: &str| ExitToItem {
        source: s.to_string(),
        destination: d.to_string(),
    };
    let unique = unique_exit_to_items(vec![item("a", "b"), item("b", "a"), item("a", "b")]);
    assert_eq!(unique, vec![item("a", "b"), item("b", "a")]);
    let exits = vec![
        ExitItem {
            source: "a".to_string(),
            direction: "north".to_string(),
            destination: "b".to_string(),
        },
        ExitItem {
            source: "a".to_string(),
            direction: "up".to_string(),
            destination: "b".to_string(),
        },
    ];
    assert_eq!(exit_to_items_from_exit_items(&exits), vec![item("a", "b")]);
}
