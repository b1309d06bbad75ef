use if_agent::agent::{AgentEvent, AgentTask};
use if_agent::tui::{
    append_agent_cell, append_history_cell, byte_index_at_width, handle_input_line, handle_key,
    record_input_history, render_cell_lines, render_cell_top, scroll_history_down,
    scroll_history_up, show_agent_event, trim_history_lines, trim_to_width,
    visible_history_bounds, wrap_line, InputAction, InputLine, KeyOutcome, UiKey,
};

#[test]
fn widths_count_characters() {
    assert_eq!(trim_to_width("héllo", 2), "hé");
    assert_eq!(trim_to_width("abc", 10), "abc");
    assert_eq!(byte_index_at_width("héllo", 2), 3);
    assert_eq!(byte_index_at_width("abc", 10), 3);
    assert_eq!(byte_index_at_width("abc", 0), 0);
}

#[test]
fn lines_wrap_at_whitespace() {
    assert_eq!(wrap_line("hello world foo", 11), vec!["hello", "world foo"]);
    assert_eq!(wrap_line("abcdefgh", 3), vec!["abc", "def", "gh"]);
    assert_eq!(wrap_line("", 5), vec![""]);
    assert_eq!(wrap_line("abc", 0), vec![""]);
    assert_eq!(wrap_line("short   ", 10), vec!["short"]);
    assert_eq!(wrap_line(" leading word", 8), vec![" leading", "word"]);
}

#[test]
fn cell_top_holds_the_title() {
    assert_eq!(render_cell_top("AGENT", 12), "┌─ AGENT ──┐");
    assert_eq!(render_cell_top("A long title", 6), "┌─ A ┐");
    assert_eq!(render_cell_top("T", 0), "┌┐");
}

#[test]
fn cell_lines_are_boxed() {
    assert_eq!(
        render_cell_lines("T", "hi\n", 6),
        vec!["┌─ T ┐", "│hi  │", "│    │", "└────┘"]
    );
    assert_eq!(
        render_cell_lines("T", "a b c", 1),
        vec!["┌┐", "││", "└┘"]
    );
}

#[test]
fn cells_are_appended_to_history() {
    let mut history = vec!["old".to_string()];
    append_history_cell(&mut history, "T", "x", 5);
    assert_eq!(history, vec!["old", "┌─ T┐", "│x  │", "└───┘"]);
    let mut agent = Vec::new();
    append_agent_cell(&mut agent, Some("t"), Some("n"), 14);
    assert_eq!(
        agent,
        vec![
            "┌─ AGENT ────┐",
            "│Thought:    │",
            "│t           │",
            "│            │",
            "│Action:     │",
            "│n           │",
            "└────────────┘"
        ]
    );
}

#[test]
fn visible_window_of_history() {
    assert_eq!(visible_history_bounds(10, 4, None), (6, 10));
    assert_eq!(visible_history_bounds(10, 4, Some(2)), (2, 6));
    assert_eq!(visible_history_bounds(10, 4, Some(9)), (6, 10));
    assert_eq!(visible_history_bounds(3, 5, None), (0, 3));
    assert_eq!(visible_history_bounds(0, 5, None), (0, 0));
    assert_eq!(visible_history_bounds(5, 0, Some(1)), (0, 0));
}

#[test]
fn scrolling_moves_the_window() {
    let mut start = None;
    scroll_history_up(&mut start, 5, 3);
    assert_eq!(start, Some(2));
    scroll_history_up(&mut start, 1, 3);
    assert_eq!(start, Some(0));
    scroll_history_up(&mut start, 4, 0);
    assert_eq!(start, Some(3));
    scroll_history_down(&mut start, 2, 10, 4, 3);
    assert_eq!(start, Some(5));
    scroll_history_down(&mut start, 4, 10, 4, 3);
    assert_eq!(start, None);
}

#[test]
fn history_is_trimmed_from_the_front() {
    let mut lines: Vec<String> = (0..5).map(|i| i.to_string()).collect();
    let mut start = Some(4);
    trim_history_lines(&mut lines, 3, &mut start);
    assert_eq!(lines, vec!["2", "3", "4"]);
    assert_eq!(start, Some(2));
    trim_history_lines(&mut lines, 3, &mut start);
    assert_eq!(lines, vec!["2", "3", "4"]);
    trim_history_lines(&mut lines, 0, &mut start);
    assert!(lines.is_empty());
    assert_eq!(start, None);
}

#[test]
fn input_history_keeps_recent_distinct_lines() {
    let mut history = Vec::new();
    record_input_history(&mut history, 2, "a");
    record_input_history(&mut history, 2, "b");
    record_input_history(&mut history, 2, "b");
    record_input_history(&mut history, 2, "");
    record_input_history(&mut history, 2, "c");
    assert_eq!(history, vec!["b", "c"]);
    record_input_history(&mut history, 0, "d");
    assert_eq!(history, vec!["b", "c"]);
}

#[test]
fn input_lines_drive_the_session() {
    let mut history = Vec::new();
    let mut task: Option<AgentTask> = None;
    assert!(matches!(
        handle_input_line("", &mut history, 20, &mut task),
        InputAction::Ignore
    ));
    assert!(history.is_empty());
    match handle_input_line("/send  look ", &mut history, 20, &mut task) {
        InputAction::Send(cmd) => assert_eq!(cmd, "look"),
        other => panic!("unexpected {other:?}"),
    }
    assert_eq!(history[0], "┌─ USER COMMAND ───┐");
    history.clear();
    assert!(matches!(
        handle_input_line("/cancel", &mut history, 20, &mut task),
        InputAction::Continue
    ));
    assert_eq!(history[1], "│No active task.   │");
    assert!(matches!(
        handle_input_line("find the lamp", &mut history, 20, &mut task),
        InputAction::Continue
    ));
    assert_eq!(task.as_ref().map(|t| t.prompt.as_str()), Some("find the lamp"));
    history.clear();
    handle_input_line("another", &mut history, 60, &mut task);
    assert!(history
        .iter()
        .any(|l| l.contains("A task is already running. Use /cancel first.")));
    handle_input_line("/cancel", &mut history, 60, &mut task);
    assert!(task.is_none());
    assert!(matches!(
        handle_input_line("/exit", &mut history, 60, &mut task),
        InputAction::Exit
    ));
}

#[test]
fn agent_events_group_thought_and_action() {
    let mut history = Vec::new();
    let mut pending = None;
    assert!(!show_agent_event(
        &mut history,
        &mut pending,
        AgentEvent::Thought("go".to_string()),
        20
    ));
    assert!(history.is_empty());
    assert_eq!(pending.as_deref(), Some("go"));
    assert!(!show_agent_event(
        &mut history,
        &mut pending,
        AgentEvent::Action("n".to_string()),
        20
    ));
    assert!(pending.is_none());
    assert!(history.iter().any(|l| l.contains("Thought:")));
    assert!(history.iter().any(|l| l.contains("Action:")));
    history.clear();
    show_agent_event(&mut history, &mut pending, AgentEvent::Thought("a".to_string()), 20);
    assert!(show_agent_event(
        &mut history,
        &mut pending,
        AgentEvent::Failed("stop".to_string()),
        20
    ));
    assert!(history[0].contains("AGENT"));
    assert!(history.iter().any(|l| l.contains("SYSTEM MESSAGE")));
    assert!(pending.is_none());
}

#[test]
fn keys_edit_and_recall_input() {
    let mut state = InputLine::new();
    for c in "look".chars() {
        handle_key(&mut state, UiKey::Char(c), 0, 0, 10, 5);
    }
    handle_key(&mut state, UiKey::Backspace, 0, 0, 10, 5);
    assert_eq!(state.input, "loo");
    match handle_key(&mut state, UiKey::Enter, 0, 0, 10, 5) {
        KeyOutcome::Submit(line) => assert_eq!(line, "loo"),
        other => panic!("unexpected {other:?}"),
    }
    assert_eq!(state.input, "");
    for c in " n ".chars() {
        handle_key(&mut state, UiKey::Char(c), 0, 0, 10, 5);
    }
    handle_key(&mut state, UiKey::Enter, 0, 0, 10, 5);
    assert_eq!(state.input_history, vec!["loo", "n"]);
    handle_key(&mut state, UiKey::Up, 0, 0, 10, 5);
    assert_eq!(state.input, "n");
    handle_key(&mut state, UiKey::Up, 0, 0, 10, 5);
    assert_eq!(state.input, "loo");
    handle_key(&mut state, UiKey::Up, 0, 0, 10, 5);
    assert_eq!(state.input, "loo");
    handle_key(&mut state, UiKey::Down, 0, 0, 10, 5);
    assert_eq!(state.input, "n");
    handle_key(&mut state, UiKey::Down, 0, 0, 10, 5);
    assert_eq!(state.input, "");
    assert_eq!(state.history_cursor, None);
}

#[test]
fn keys_scroll_and_end_the_session() {
    let mut state = InputLine::new();
    handle_key(&mut state, UiKey::PageUp, 20, 30, 10, 5);
    assert_eq!(state.history_start, Some(10));
    handle_key(&mut state, UiKey::WheelDown, 10, 30, 10, 5);
    assert_eq!(state.history_start, Some(13));
    handle_key(&mut state, UiKey::PageDown, 13, 30, 10, 5);
    assert_eq!(state.history_start, None);
    handle_key(&mut state, UiKey::Home, 20, 30, 10, 5);
    assert_eq!(state.history_start, Some(0));
    handle_key(&mut state, UiKey::End, 0, 30, 10, 5);
    assert_eq!(state.history_start, None);
    assert!(matches!(
        handle_key(&mut state, UiKey::Escape, 0, 30, 10, 5),
        KeyOutcome::Exit
    ));
    assert!(matches!(
        handle_key(&mut state, UiKey::Interrupt, 0, 30, 10, 5),
        KeyOutcome::Interrupt
    ));
}
