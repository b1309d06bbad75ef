use if_agent::agent::{
    game_failure_event, llm_failure_event, take_eval_reply, take_reply, AgentEvent, AgentTask,
    EvalReplyStep,
};
use if_agent::config::{max_tokens_setting, GameConfig, UiConfig};
use if_agent::llm::{
    compact_call_summary, compact_error_summary, reply_json_snippet, user_prompt_text,
    AgentAction, AgentReply, MemoryUpdate, TaskStatus,
};
use if_agent::logging::SessionLogger;

fn reply(command: &str, action_type: &str, complete: bool) -> AgentReply {
    AgentReply {
        thought: "thinking".to_string(),
        action: AgentAction {
            action_type: action_type.to_string(),
            command: command.to_string(),
        },
        memory_update: MemoryUpdate::default(),
        task_status: TaskStatus {
            complete,
            summary: "done".to_string(),
        },
    }
}

fn events_text(events: &[AgentEvent]) -> Vec<String> {
    events
        .iter()
        .map(|e| match e {
            AgentEvent::Thought(s) => format!("thought:{s}"),
            AgentEvent::Action(s) => format!("action:{s}"),
            AgentEvent::Observation(s) => format!("observation:{s}"),
            AgentEvent::Completed(s) => format!("completed:{s}"),
            AgentEvent::Failed(s) => format!("failed:{s}"),
        })
        .collect()
}

#[test]
fn new_task_has_default_budget() {
    let task = AgentTask::new("explore".to_string());
    assert_eq!(task.max_turns, 30);
    assert_eq!(task.turns, 0);
    assert_eq!(task.repeated_guard, 0);
    assert_eq!(task.last_command, None);
    assert!(task.turn_limit_event().is_none());
}

#[test]
fn exhausted_task_stops() {
    let mut task = AgentTask::new("explore".to_string());
    task.turns = 30;
    match task.turn_limit_event() {
        Some(AgentEvent::Completed(m)) => {
            assert_eq!(m, "Stopping task due to max-turn safety guard.")
        }
        other => panic!("unexpected {other:?}"),
    }
}

#[test]
fn completed_reply_ends_turn() {
    let mut task = AgentTask::new("t".to_string());
    let (events, command) = take_reply(&mut task, &reply("look", "game_command", true));
    assert_eq!(events_text(&events), vec!["thought:thinking", "completed:done"]);
    assert_eq!(command, None);
}

#[test]
fn unknown_action_type_fails() {
    let mut task = AgentTask::new("t".to_string());
    let (events, command) = take_reply(&mut task, &reply("look", "speak", false));
    assert_eq!(
        events_text(&events),
        vec!["thought:thinking", "failed:invalid action type from LLM"]
    );
    assert_eq!(command, None);
}

#[test]
fn invalid_command_fails() {
    let mut task = AgentTask::new("t".to_string());
    let (events, command) = take_reply(&mut task, &reply("n; s", "game_command", false));
    assert_eq!(
        events_text(&events),
        vec![
            "thought:thinking",
            "failed:invalid command from LLM: command batching is not allowed"
        ]
    );
    assert_eq!(command, None);
}

#[test]
fn repeated_command_trips_loop_guard() {
    let mut task = AgentTask::new("t".to_string());
    let (_, first) = take_reply(&mut task, &reply(" look ", "game_command", false));
    assert_eq!(first.as_deref(), Some("look"));
    assert_eq!(task.repeated_guard, 0);
    let (_, second) = take_reply(&mut task, &reply("look", "game_command", false));
    assert_eq!(second.as_deref(), Some("look"));
    assert_eq!(task.repeated_guard, 1);
    let (events, third) = take_reply(&mut task, &reply("look", "game_command", false));
    assert_eq!(third, None);
    assert_eq!(task.repeated_guard, 2);
    assert_eq!(
        events_text(&events),
        vec![
            "thought:thinking",
            "failed:loop guard: same command repeated too many times"
        ]
    );
    let (events, fourth) = take_reply(&mut task, &reply("n", "game_command", false));
    assert_eq!(fourth.as_deref(), Some("n"));
    assert_eq!(task.repeated_guard, 0);
    assert_eq!(events_text(&events), vec!["thought:thinking", "action:n"]);
}

#[test]
fn failures_are_reported_as_events() {
    assert_eq!(
        events_text(&[game_failure_event("boom"), llm_failure_event("down")]),
        vec!["failed:game command failed: boom", "failed:LLM error: down"]
    );
}

#[test]
fn prompt_text_holds_task_transcript_and_memory() {
    assert_eq!(
        user_prompt_text("T", "tail", "{}"),
        "Task:\nT\n\nTranscript (recent):\ntail\n\nWorld memory JSON:\n{}"
    );
}

#[test]
fn json_snippet_is_cut_from_braces() {
    assert_eq!(
        reply_json_snippet("Sure: {\"a\":1} thanks"),
        Some("{\"a\":1}".to_string())
    );
    assert_eq!(reply_json_snippet("no json"), None);
    assert_eq!(reply_json_snippet("{ open"), None);
    assert_eq!(reply_json_snippet("}{"), Some(String::new()));
}

#[test]
fn logger_paths_and_call_numbers() {
    let mut logger = SessionLogger::for_stamp("20240101-000000");
    assert_eq!(logger.path(), "logs/agent-session-20240101-000000.txt");
    assert_eq!(logger.llm_dir(), "logs/20240101-000000");
    assert_eq!(logger.next_llm_call_number(), 1);
    assert_eq!(logger.next_llm_call_number(), 2);
    assert_eq!(logger.line("ts", "ev", "tx"), "[ts] ev: tx");
    assert_eq!(logger.artifact_file_name(5, "prompt.txt"), "005-prompt.txt");
    assert_eq!(logger.artifact_file_name(1234, "x"), "1234-x");
}

#[test]
fn call_summaries_are_compact() {
    let logger = SessionLogger::for_stamp("S");
    assert_eq!(
        compact_error_summary(7, "héllo", &logger, "boom \"x\""),
        "#007 status=error prompt_chars=5 error=\"boom \\\"x\\\"\" files=logs/S/007-*"
    );
    let r = reply("go\nnorth", "game_command", false);
    assert_eq!(
        compact_call_summary(12, "p", "ab", Some(42), &r, &logger),
        "#012 status=ok prompt_chars=1 answer_chars=2 tokens=42 complete=false action=game_command command=\"go north\" files=logs/S/012-*"
    );
    assert_eq!(
        compact_call_summary(3, "", "", None, &reply("x", "game_command", true), &logger),
        "#003 status=ok prompt_chars=0 answer_chars=0 tokens=unknown complete=true action=game_command command=\"x\" files=logs/S/003-*"
    );
}

#[test]
fn configuration_defaults() {
    assert_eq!(GameConfig::from_story_path(None).story_path, "games/Advent.z5");
    assert_eq!(
        GameConfig::from_story_path(Some("x.z5".to_string())).story_path,
        "x.z5"
    );
    let ui = UiConfig::standard();
    assert_eq!(ui.max_history_lines, 2000);
    assert_eq!(ui.input_history_limit, 200);
    assert_eq!(max_tokens_setting(Some("800".to_string())), 800);
    assert_eq!(max_tokens_setting(Some("+9".to_string())), 9);
    assert_eq!(max_tokens_setting(Some("x".to_string())), 1200);
    assert_eq!(max_tokens_setting(None), 1200);
}

fn step_text(step: &EvalReplyStep) -> String {
    match step {
        EvalReplyStep::Stop { shown_command, message } => {
            format!("stop:{}:{message}", shown_command.clone().unwrap_or_default())
        }
        EvalReplyStep::Skip { shown_command, message } => format!("skip:{shown_command}:{message}"),
        EvalReplyStep::Run(c) => format!("run:{c}"),
    }
}

#[test]
fn eval_reply_runs_canonical_moves_in_movement_only_tasks() {
    let mut task = AgentTask::new("Explore. Only use the actions to move.".to_string());
    let step = take_eval_reply(&mut task, &reply("  n ", "game_command", false));
    assert_eq!(step_text(&step), "run:north");
    assert_eq!(task.last_command.as_deref(), Some("north"));
    assert_eq!(task.turns, 0);
}

#[test]
fn eval_reply_skips_other_commands_in_movement_only_tasks() {
    let mut task = AgentTask::new("ONLY USE THE ACTIONS TO MOVE".to_string());
    let step = take_eval_reply(&mut task, &reply("take lamp", "game_command", false));
    assert_eq!(
        step_text(&step),
        "skip:take lamp:ignored non-movement command in movement-only mode"
    );
    assert_eq!(task.turns, 1);
    assert_eq!(task.last_command, None);
}

#[test]
fn eval_reply_keeps_other_commands_in_free_tasks() {
    let mut task = AgentTask::new("explore".to_string());
    let step = take_eval_reply(&mut task, &reply("take lamp", "game_command", false));
    assert_eq!(step_text(&step), "run:take lamp");
}

#[test]
fn eval_reply_stops_on_completion_bad_type_and_bad_command() {
    let mut task = AgentTask::new("explore".to_string());
    let done = take_eval_reply(&mut task, &reply("look", "game_command", true));
    assert_eq!(step_text(&done), "stop::done");
    let bad_type = take_eval_reply(&mut task, &reply("look", "chat", false));
    assert_eq!(step_text(&bad_type), "stop::invalid action type from LLM");
    let bad = take_eval_reply(&mut task, &reply("look; north", "game_command", false));
    assert_eq!(
        step_text(&bad),
        "stop:look; north:invalid command from LLM: command batching is not allowed"
    );
}

#[test]
fn eval_reply_loop_guard_trips_on_third_repeat() {
    let mut task = AgentTask::new("explore".to_string());
    assert_eq!(step_text(&take_eval_reply(&mut task, &reply("look", "game_command", false))), "run:look");
    assert_eq!(step_text(&take_eval_reply(&mut task, &reply("look", "game_command", false))), "run:look");
    assert_eq!(
        step_text(&take_eval_reply(&mut task, &reply("look", "game_command", false))),
        "stop:look:loop guard: same command repeated too many times"
    );
    assert_eq!(task.repeated_guard, 2);
}
