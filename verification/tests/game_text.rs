use if_agent::game::{
    clean_output, is_movement_command, should_describe_after_move, validate_game_command,
    CommandError, GameError, Transcript,
};
use if_agent::runner::{
    check_c_string, ends_with_prompt, finish_output, push_output_byte, RunnerError,
};

#[test]
fn command_is_trimmed_when_valid() {
    assert_eq!(validate_game_command("  look  "), Ok("look".to_string()));
}

#[test]
fn empty_command_is_refused() {
    let err = validate_game_command("   ").unwrap_err();
    assert_eq!(err, CommandError::Empty);
    assert_eq!(err.message(), "game command cannot be empty");
}

#[test]
fn multi_line_command_is_refused() {
    assert_eq!(validate_game_command("n\ns"), Err(CommandError::MultipleLines));
    assert_eq!(validate_game_command("n\rs"), Err(CommandError::MultipleLines));
    assert_eq!(
        CommandError::MultipleLines.message(),
        "only one command line is allowed"
    );
}

#[test]
fn batched_command_is_refused() {
    assert_eq!(validate_game_command("n; s"), Err(CommandError::Batching));
    assert_eq!(CommandError::Batching.message(), "command batching is not allowed");
}

#[test]
fn movement_commands_are_recognised() {
    assert!(is_movement_command(" North "));
    assert!(is_movement_command("NE"));
    assert!(is_movement_command("out"));
    assert!(!is_movement_command("go north"));
    assert!(!is_movement_command("take lamp"));
}

#[test]
fn look_follows_moves_with_short_answers() {
    assert!(should_describe_after_move("", "n"));
    assert!(should_describe_after_move("Forest", "north"));
    assert!(!should_describe_after_move("You can't go that way.", "n"));
    assert!(!should_describe_after_move("Forest\nYou are in a forest.", "n"));
    assert!(!should_describe_after_move("Forest", "look"));
    assert!(should_describe_after_move("\n  Forest  \n\n", "s"));
}

#[test]
fn clean_output_removes_escapes_and_prompt() {
    let raw = "\x1b[1mWest of House\x1b[0m\r\nYou are standing.\r\n\r\n>";
    assert_eq!(clean_output(raw), "West of House\nYou are standing.");
}

#[test]
fn clean_output_turns_carriage_returns_into_line_breaks() {
    assert_eq!(clean_output("a\rb\r\n> \n"), "a\nb");
    assert_eq!(clean_output("  >  "), "");
}

#[test]
fn transcript_renders_turns() {
    let mut transcript = Transcript::default();
    transcript.add_turn("look".to_string(), "Room".to_string());
    transcript.add_turn("n".to_string(), "Hall".to_string());
    assert_eq!(transcript.render(), "> look\nRoom\n\n> n\nHall\n\n");
    assert_eq!(Transcript::default().render(), "");
}

#[test]
fn game_errors_have_messages() {
    assert_eq!(
        GameError::InvalidCommand("x".to_string()).message(),
        "invalid command: x"
    );
    assert_eq!(
        GameError::Runner(RunnerError::InvalidUtf8).message(),
        "runner error: Bocfel output was not valid UTF-8"
    );
}

#[test]
fn runner_errors_have_messages() {
    assert_eq!(
        RunnerError::StoryLoadFailed("x".to_string()).message(),
        "story load failed: x"
    );
    assert_eq!(RunnerError::CommandFailed("y".to_string()).message(), "command failed: y");
    assert_eq!(
        RunnerError::ChildExited("z".to_string()).message(),
        "Bocfel child exited: z"
    );
    assert_eq!(RunnerError::Io("io".to_string()).message(), "io");
    assert_eq!(RunnerError::InteriorNul("nul".to_string()).message(), "nul");
    assert_eq!(
        RunnerError::MissingChildPipe("stdin").message(),
        "Bocfel child missing stdin pipe"
    );
    assert_eq!(
        RunnerError::Protocol("p".to_string()).message(),
        "Bocfel protocol error: p"
    );
}

#[test]
fn prompt_ends_an_answer() {
    assert!(ends_with_prompt(b"text\n> "));
    assert!(ends_with_prompt(b">"));
    assert!(ends_with_prompt(b"\r>\t "));
    assert!(!ends_with_prompt(b"a>"));
    assert!(!ends_with_prompt(b""));
    assert!(!ends_with_prompt(b"   "));
}

#[test]
fn bytes_are_read_until_a_prompt() {
    let mut bytes = Vec::new();
    assert!(!push_output_byte(&mut bytes, b'o'));
    assert!(!push_output_byte(&mut bytes, b'\n'));
    assert!(push_output_byte(&mut bytes, b'>'));
    assert_eq!(bytes, b"o\n>".to_vec());
}

#[test]
fn finished_output_is_decoded() {
    assert_eq!(finish_output(b"ok\n>".to_vec()), Ok("ok\n>".to_string()));
    assert_eq!(
        finish_output(Vec::new()),
        Err(RunnerError::ChildExited("Bocfel exited without output".to_string()))
    );
    assert_eq!(finish_output(vec![0xff, 0x3e]), Err(RunnerError::InvalidUtf8));
}

#[test]
fn nul_bytes_are_refused_in_commands() {
    assert_eq!(check_c_string("look"), Ok(()));
    assert_eq!(
        check_c_string("a\0b"),
        Err(RunnerError::InteriorNul(
            "string contains an interior NUL byte at position 1".to_string()
        ))
    );
}

#[test]
fn runner_errors_convert_into_game_errors() {
    let err: GameError = RunnerError::ChildExited("gone".to_string()).into();
    assert_eq!(err.message(), "runner error: Bocfel child exited: gone");
}
