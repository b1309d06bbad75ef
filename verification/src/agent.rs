//! One turn of the language-model agent: what a reply from the model leads
//! to before and after the game is asked to run its command.
use crate::game::{checked_command, command_error_message, validate_game_command};
use crate::llm::AgentReply;
use crate::text::{append_chars, chars_of, eq_lit, opt_view, string_of};
use crate::world::lit_string;
use vstd::prelude::*;

verus! {

/// What happened during a turn, in order.
#[derive(Clone, Debug)]
pub enum AgentEvent {
    Thought(String),
    Action(String),
    Observation(String),
    Completed(String),
    Failed(String),
}

pub enum EventView {
    Thought(Seq<char>),
    Action(Seq<char>),
    Observation(Seq<char>),
    Completed(Seq<char>),
    Failed(Seq<char>),
}

impl View for AgentEvent {
    type V = EventView;

    open spec fn view(&self) -> EventView {
        match self {
            AgentEvent::Thought(s) => EventView::Thought(s@),
            AgentEvent::Action(s) => EventView::Action(s@),
            AgentEvent::Observation(s) => EventView::Observation(s@),
            AgentEvent::Completed(s) => EventView::Completed(s@),
            AgentEvent::Failed(s) => EventView::Failed(s@),
        }
    }
}

/// A task the agent works on, with its turn budget and its guard against
/// repeating one command.
#[derive(Clone, Debug)]
pub struct AgentTask {
    pub prompt: String,
    pub max_turns: usize,
    pub turns: usize,
    /// How often in a row the last command was repeated.
    pub repeated_guard: usize,
    pub last_command: Option<String>,
}

pub struct TaskView {
    pub prompt: Seq<char>,
    pub max_turns: usize,
    pub turns: usize,
    pub repeated_guard: usize,
    pub last_command: Option<Seq<char>>,
}

impl View for AgentTask {
    type V = TaskView;

    open spec fn view(&self) -> TaskView {
        TaskView {
            prompt: self.prompt@,
            max_turns: self.max_turns,
            turns: self.turns,
            repeated_guard: self.repeated_guard,
            last_command: opt_view(self.last_command),
        }
    }
}

/// The turn budget of a new task.
pub open spec fn default_max_turns() -> usize {
    30
}

/// The events of a sequence of events.
pub open spec fn events_view(events: Seq<AgentEvent>) -> Seq<EventView> {
    events.map_values(|e: AgentEvent| e@)
}

impl AgentTask {
    /// A new task with the default turn budget.
    pub fn new(prompt: String) -> (r: Self)
        ensures
            r@ == (TaskView {
                prompt: prompt@,
                max_turns: default_max_turns(),
                turns: 0,
                repeated_guard: 0,
                last_command: None,
            }),
    {
        AgentTask { prompt, max_turns: 30, turns: 0, repeated_guard: 0, last_command: None }
    }

    /// The event that ends a task whose turn budget is used up, if it is.
    pub fn turn_limit_event(&self) -> (r: Option<AgentEvent>)
        ensures
            self.turns >= self.max_turns ==> (r matches Some(e) && e@ == EventView::Completed(
                "Stopping task due to max-turn safety guard."@,
            )),
            self.turns < self.max_turns ==> r is None,
    {
        if self.turns >= self.max_turns {
            Some(AgentEvent::Completed(lit_string("Stopping task due to max-turn safety guard.")))
        } else {
            None
        }
    }

    /// Counts a finished turn.
    pub fn count_turn(&mut self)
        requires
            old(self).turns < usize::MAX,
        ensures
            final(self)@ == (TaskView { turns: (old(self).turns + 1) as usize, ..old(self)@ }),
    {
        self.turns = self.turns + 1;
    }
}

/// What a reply leads to: the task afterwards, the events of the turn so
/// far, and the command to run, if any. The thought comes first; then the
/// turn ends at a completed task, an unknown action type, a command the game
/// would refuse, or a command repeated for the third time in a row; else the
/// command is announced and run.
pub open spec fn reply_outcome(t: TaskView, reply: AgentReply) -> (
    TaskView,
    Seq<EventView>,
    Option<Seq<char>>,
) {
    let thought = seq![EventView::Thought(reply.thought@)];
    if reply.task_status.complete {
        (t, thought.push(EventView::Completed(reply.task_status.summary@)), None)
    } else if reply.action.action_type@ != "game_command"@ {
        (t, thought.push(EventView::Failed("invalid action type from LLM"@)), None)
    } else {
        match checked_command(reply.action.command@) {
            Err(e) => (
                t,
                thought.push(
                    EventView::Failed("invalid command from LLM: "@ + command_error_message(e)),
                ),
                None,
            ),
            Ok(c) => {
                let guard = if t.last_command == Some(c) {
                    (t.repeated_guard + 1) as usize
                } else {
                    0usize
                };
                let t2 = TaskView { repeated_guard: guard, last_command: Some(c), ..t };
                if guard >= 2 {
                    (
                        t2,
                        thought.push(
                            EventView::Failed("loop guard: same command repeated too many times"@),
                        ),
                        None,
                    )
                } else {
                    (t2, thought.push(EventView::Action(c)), Some(c))
                }
            },
        }
    }
}

/// Takes a reply of the model: updates the task's repetition guard and gives
/// the turn's events so far and the command to run, if any.
pub fn take_reply(task: &mut AgentTask, reply: &AgentReply) -> (r: (Vec<AgentEvent>, Option<String>))
    requires
        old(task).repeated_guard < usize::MAX,
    ensures
        ({
            let (t, events, command) = reply_outcome(old(task)@, *reply);
            &&& final(task)@ == t
            &&& events_view(r.0@) == events
            &&& opt_view(r.1) == command
        }),
{
    let mut events: Vec<AgentEvent> = Vec::new();
    events.push(AgentEvent::Thought(reply.thought.clone()));
    let ghost first = events_view(events@);
    assert(first =~= seq![EventView::Thought(reply.thought@)]);
    if reply.task_status.complete {
        events.push(AgentEvent::Completed(reply.task_status.summary.clone()));
        assert(events_view(events@) =~= first.push(EventView::Completed(reply.task_status.summary@)));
        return (events, None);
    }
    if !eq_lit(chars_of(reply.action.action_type.as_str()).as_slice(), "game_command") {
        events.push(AgentEvent::Failed(lit_string("invalid action type from LLM")));
        assert(events_view(events@) =~= first.push(EventView::Failed("invalid action type from LLM"@)));
        return (events, None);
    }
    let command = match validate_game_command(reply.action.command.as_str()) {
        Ok(c) => c,
        Err(e) => {
            let mut m = chars_of("invalid command from LLM: ");
            let em = e.message();
            append_chars(&mut m, chars_of(em.as_str()).as_slice());
            events.push(AgentEvent::Failed(string_of(m.as_slice())));
            assert(events_view(events@) =~= first.push(
                EventView::Failed("invalid command from LLM: "@ + command_error_message(e)),
            ));
            return (events, None);
        },
    };
    let repeated = match &task.last_command {
        Some(last) => *last == command,
        None => false,
    };
    if repeated {
        task.repeated_guard = task.repeated_guard + 1;
    } else {
        task.repeated_guard = 0;
    }
    task.last_command = Some(command.clone());
    if task.repeated_guard >= 2 {
        events.push(AgentEvent::Failed(lit_string("loop guard: same command repeated too many times")));
        assert(events_view(events@) =~= first.push(
            EventView::Failed("loop guard: same command repeated too many times"@),
        ));
        return (events, None);
    }
    events.push(AgentEvent::Action(command.clone()));
    assert(events_view(events@) =~= first.push(EventView::Action(command@)));
    (events, Some(command))
}

/// The message for a command the game could not run.
pub open spec fn game_failure_message(error: Seq<char>) -> Seq<char> {
    "game command failed: "@ + error
}

/// The event for a command the game could not run.
pub fn game_failure_event(error: &str) -> (r: AgentEvent)
    ensures
        r@ == EventView::Failed(game_failure_message(error@)),
{
    let mut m = chars_of("game command failed: ");
    append_chars(&mut m, chars_of(error).as_slice());
    AgentEvent::Failed(string_of(m.as_slice()))
}

/// The message for a failed model call.
pub open spec fn llm_failure_message(error: Seq<char>) -> Seq<char> {
    "LLM error: "@ + error
}

/// The event for a failed model call.
pub fn llm_failure_event(error: &str) -> (r: AgentEvent)
    ensures
        r@ == EventView::Failed(llm_failure_message(error@)),
{
    let mut m = chars_of("LLM error: ");
    append_chars(&mut m, chars_of(error).as_slice());
    AgentEvent::Failed(string_of(m.as_slice()))
}


/// What an evaluation run does with a reply.
#[derive(Clone, Debug)]
pub enum EvalReplyStep {
    /// The run ends with this message, after the command is shown, if any.
    Stop { shown_command: Option<String>, message: String },
    /// The turn is counted without running anything, after the command and
    /// this message are shown.
    Skip { shown_command: String, message: String },
    /// The command is run.
    Run(String),
}

pub enum EvalStepView {
    Stop { shown_command: Option<Seq<char>>, message: Seq<char> },
    Skip { shown_command: Seq<char>, message: Seq<char> },
    Run(Seq<char>),
}

impl View for EvalReplyStep {
    type V = EvalStepView;

    open spec fn view(&self) -> EvalStepView {
        match self {
            EvalReplyStep::Stop { shown_command, message } => EvalStepView::Stop {
                shown_command: opt_view(*shown_command),
                message: message@,
            },
            EvalReplyStep::Skip { shown_command, message } => EvalStepView::Skip {
                shown_command: shown_command@,
                message: message@,
            },
            EvalReplyStep::Run(c) => EvalStepView::Run(c@),
        }
    }
}

/// Whether a task asks for movement only.
pub open spec fn movement_only(prompt: Seq<char>) -> bool {
    crate::text::contains(crate::text::lowercase_of(prompt), "only use the actions to move"@)
}

/// What an evaluation run does with a reply, and the task afterwards: it
/// stops at a completed task, an unknown action type, a command the game
/// would refuse, or a command repeated for the third time in a row; a task
/// that asks for movement only skips (and counts) a command that is no
/// movement and runs movements by their canonical name.
pub open spec fn eval_reply_outcome(t: TaskView, reply: AgentReply) -> (TaskView, EvalStepView) {
    if reply.task_status.complete {
        (t, EvalStepView::Stop { shown_command: None, message: reply.task_status.summary@ })
    } else if reply.action.action_type@ != "game_command"@ {
        (t, EvalStepView::Stop { shown_command: None, message: "invalid action type from LLM"@ })
    } else {
        match checked_command(reply.action.command@) {
            Err(e) => (
                t,
                EvalStepView::Stop {
                    shown_command: Some(reply.action.command@),
                    message: "invalid command from LLM: "@ + command_error_message(e),
                },
            ),
            Ok(c0) => {
                let moved = crate::planner::normalize_move(c0);
                if movement_only(t.prompt) && moved is None {
                    (
                        TaskView { turns: (t.turns + 1) as usize, ..t },
                        EvalStepView::Skip {
                            shown_command: c0,
                            message: "ignored non-movement command in movement-only mode"@,
                        },
                    )
                } else {
                    let c = if movement_only(t.prompt) {
                        moved.unwrap()
                    } else {
                        c0
                    };
                    let guard = if t.last_command == Some(c) {
                        (t.repeated_guard + 1) as usize
                    } else {
                        0usize
                    };
                    let t2 = TaskView { repeated_guard: guard, last_command: Some(c), ..t };
                    if guard >= 2 {
                        (
                            t2,
                            EvalStepView::Stop {
                                shown_command: Some(c),
                                message: "loop guard: same command repeated too many times"@,
                            },
                        )
                    } else {
                        (t2, EvalStepView::Run(c))
                    }
                }
            },
        }
    }
}

/// Takes a reply during an evaluation run.
pub fn take_eval_reply(task: &mut AgentTask, reply: &AgentReply) -> (r: EvalReplyStep)
    requires
        old(task).repeated_guard < usize::MAX,
        old(task).turns < usize::MAX,
    ensures
        ({
            let (t, step) = eval_reply_outcome(old(task)@, *reply);
            &&& final(task)@ == t
            &&& r@ == step
        }),
{
    if reply.task_status.complete {
        return EvalReplyStep::Stop { shown_command: None, message: reply.task_status.summary.clone() };
    }
    if !eq_lit(chars_of(reply.action.action_type.as_str()).as_slice(), "game_command") {
        return EvalReplyStep::Stop {
            shown_command: None,
            message: lit_string("invalid action type from LLM"),
        };
    }
    let checked = match validate_game_command(reply.action.command.as_str()) {
        Ok(c) => c,
        Err(e) => {
            let mut m = chars_of("invalid command from LLM: ");
            let em = e.message();
            append_chars(&mut m, chars_of(em.as_str()).as_slice());
            return EvalReplyStep::Stop {
                shown_command: Some(reply.action.command.clone()),
                message: string_of(m.as_slice()),
            };
        },
    };
    let lowered = crate::text::lowercase_chars(chars_of(task.prompt.as_str()).as_slice());
    let only_moves = crate::text::contains_lit(lowered.as_slice(), "only use the actions to move");
    let moved = crate::planner::normalize_move_command(checked.as_str());
    let command = if only_moves {
        match moved {
            Some(m) => m,
            None => {
                task.turns = task.turns + 1;
                return EvalReplyStep::Skip {
                    shown_command: checked,
                    message: lit_string("ignored non-movement command in movement-only mode"),
                };
            },
        }
    } else {
        checked
    };
    let repeated = match &task.last_command {
        Some(last) => *last == command,
        None => false,
    };
    if repeated {
        task.repeated_guard = task.repeated_guard + 1;
    } else {
        task.repeated_guard = 0;
    }
    task.last_command = Some(command.clone());
    if task.repeated_guard >= 2 {
        return EvalReplyStep::Stop {
            shown_command: Some(command),
            message: lit_string("loop guard: same command repeated too many times"),
        };
    }
    EvalReplyStep::Run(command)
}

} // verus!
