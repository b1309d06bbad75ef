use if_agent::planner::{
    normalize_move_command, world_observation_signature, DfsPlanner, FrontierStatus,
    needs_look, record_move_outcome, ObservationClassification, ObservationUpdate,
    PlannerDecisionKind, dfs_step, CommandPlan, DfsStep, PlannerDecision,
};
use if_agent::world::{Exit, Location, WorldModel};
use if_agent::table::KeyedTable;

fn place(world: &mut WorldModel, key: &str, exits: Vec<(&str, &str)>) {
    world.locations.insert(
        key.to_string(),
        Location {
            title: key.to_string(),
            description: format!("You are in {key}."),
            exits: exits
                .into_iter()
                .map(|(direction, destination)| Exit {
                    direction: direction.to_string(),
                    destination: Some(destination.to_string()),
                    transition_counts: KeyedTable::new(),
                    unstable: false,
                })
                .collect(),
            ..Default::default()
        },
    );
}

#[test]
fn move_commands_are_normalized() {
    assert_eq!(normalize_move_command("Go North").as_deref(), Some("north"));
    assert_eq!(normalize_move_command(" enter cave").as_deref(), Some("in"));
    assert_eq!(normalize_move_command("inside").as_deref(), Some("in"));
    assert_eq!(normalize_move_command("xyzzy"), None);
}

#[test]
fn normalizing_a_move_twice_changes_nothing() {
    for command in ["Go North", "ne", " inside ", "enter building", "D", "go  west"] {
        let once = normalize_move_command(command).expect("a move");
        assert_eq!(normalize_move_command(&once).as_deref(), Some(once.as_str()));
    }
}

#[test]
fn new_planner_offers_every_canonical_move() {
    let mut world = WorldModel::default();
    world.current_location = " A ".to_string();
    place(&mut world, "A", vec![]);
    let planner = DfsPlanner::new(&world);
    let commands: Vec<&str> = planner.frontier().iter().map(|a| a.command.as_str()).collect();
    assert_eq!(
        commands,
        vec![
            "north", "south", "east", "west", "northeast", "northwest", "southeast",
            "southwest", "up", "down", "in", "out"
        ]
    );
    assert_eq!(planner.frontier()[0].id, "frontier-1");
    assert_eq!(planner.frontier()[0].priority, 2);
    assert_eq!(planner.frontier()[11].id, "frontier-12");
    assert!(planner.frontier().iter().all(|a| a.source_location_key == "A"));
    assert_eq!(planner.frontier_counts().get("pending"), Some(&12));
}

#[test]
fn plan_routes_through_known_exits() {
    let mut world = WorldModel::default();
    place(&mut world, "A", vec![("east", "B")]);
    place(&mut world, "B", vec![("go west", "A"), ("north", "C")]);
    place(&mut world, "C", vec![]);
    world.current_location = "C".to_string();
    let mut planner = DfsPlanner::new(&world);
    world.current_location = "A".to_string();
    planner.observe_world(&world);
    for action in planner.frontier.iter_mut() {
        if action.source_location_key == "A" {
            action.status = FrontierStatus::Explored;
        }
    }
    let decision = planner.decide(&world);
    assert_eq!(decision.kind, PlannerDecisionKind::CommandPlan);
    let plan = decision.plan.expect("plan");
    assert_eq!(plan.route_commands, vec!["east", "north"]);
    assert_eq!(plan.commands, vec!["east", "north", "north"]);
    assert_eq!(plan.frontier_source_location_key, "C");
    assert_eq!(plan.start_location_key, "A");
    assert_eq!(decision.reason, "selected pending frontier frontier-1");
    assert_eq!(planner.stats.generated_command_plans, 1);
}

#[test]
fn unreachable_frontier_blocks_and_empty_frontier_completes() {
    let mut world = WorldModel::default();
    place(&mut world, "A", vec![]);
    place(&mut world, "B", vec![]);
    world.current_location = "B".to_string();
    let mut planner = DfsPlanner::new(&world);
    world.current_location = "A".to_string();
    planner.observe_world(&world);
    for action in planner.frontier.iter_mut() {
        if action.source_location_key == "A" {
            action.status = FrontierStatus::Failed;
        }
    }
    let decision = planner.decide(&world);
    assert_eq!(decision.kind, PlannerDecisionKind::Blocked);
    assert_eq!(
        decision.reason,
        "pending frontier exists, but no known route reaches it"
    );
    for action in planner.frontier.iter_mut() {
        action.status = FrontierStatus::Explored;
    }
    let decision = planner.decide(&world);
    assert_eq!(decision.kind, PlannerDecisionKind::Complete);
    assert_eq!(decision.reason, "frontier exhausted");
    world.current_location = "  ".to_string();
    let decision = planner.decide(&world);
    assert_eq!(decision.kind, PlannerDecisionKind::Blocked);
    assert_eq!(decision.reason, "current location is unknown");
}

#[test]
fn answers_are_classified() {
    let mut world = WorldModel::default();
    place(&mut world, "Forest", vec![]);
    world.current_location = "Forest".to_string();
    let planner = DfsPlanner::new(&world);
    let attempt = planner.pending_move_attempt("Forest", "north", None, &world);
    assert_eq!(
        attempt.previous_observation_signature,
        world_observation_signature(&world)
    );
    assert_eq!(world_observation_signature(&world), "forest you are in forest.");

    let failed = planner.classify_observation(&attempt, "anything", true);
    assert_eq!(failed.classification, ObservationClassification::CommandFailedOrBlocked);
    assert_eq!(failed.blocked_reason.as_deref(), Some("command_execution_failed"));
    assert_eq!(failed.new_observation_signature, None);
    assert_eq!(failed.raw_output_hash, "c01952359d8e17d7");

    let empty = planner.classify_observation(&attempt, "  ...  ", false);
    assert_eq!(empty.blocked_reason.as_deref(), Some("empty_response"));

    let only_exit = planner.classify_observation(&attempt, "The only exit is to the west.", false);
    assert_eq!(only_exit.blocked_reason.as_deref(), Some("only_exit_response"));

    let refused = planner.classify_observation(&attempt, "There is no way to go north.", false);
    assert_eq!(refused.blocked_reason.as_deref(), Some("explicit_blocked_response"));

    let known = planner.classify_observation(&attempt, "Forest\nYou are in Forest.", false);
    assert_eq!(known.classification, ObservationClassification::MovedToSameLocation);

    let new = planner.classify_observation(&attempt, "Cave\nYou are in a cave.", false);
    assert_eq!(new.classification, ObservationClassification::MovedToNewLocation);
    assert!(!new.current_location_unchanged);
    assert_eq!(
        new.new_observation_signature.as_deref(),
        Some("cave you are in a cave.")
    );
}

#[test]
fn looks_only_after_reaching_a_new_location_with_output() {
    assert!(needs_look(ObservationClassification::MovedToNewLocation, "Forest\nTrees."));
    assert!(!needs_look(ObservationClassification::MovedToNewLocation, ""));
    assert!(!needs_look(ObservationClassification::MovedToKnownLocation, "Forest\nTrees."));
}

#[test]
fn recorded_move_to_new_location_uses_the_look_text() {
    let mut world = WorldModel::default();
    world.update_from_observation("Clearing\nYou are in a clearing.");
    let start = world.current_location.clone();
    let ok = record_move_outcome(
        &mut world,
        &start,
        &start,
        "north",
        ObservationClassification::MovedToNewLocation,
        "Forest",
        Some("Forest\nYou are in a dark forest."),
    );
    assert!(ok);
    let here = world.current_location.clone();
    assert_ne!(here, start);
    let forest = world.locations.get(&here).expect("forest is known");
    assert_eq!(forest.title, "Forest");
    assert_eq!(forest.description, "You are in a dark forest.");
    let clearing = world.locations.get(&start).expect("clearing is known");
    let north = clearing.exits.iter().find(|e| e.direction == "north").expect("north exit");
    assert_eq!(north.destination.as_deref(), Some(here.as_str()));
}

#[test]
fn recorded_blocked_move_returns_to_source() {
    let mut world = WorldModel::default();
    world.update_from_observation("Clearing\nYou are in a clearing.");
    let start = world.current_location.clone();
    world.current_location = "elsewhere".to_string();
    let ok = record_move_outcome(
        &mut world,
        &start,
        &start,
        "west",
        ObservationClassification::CommandFailedOrBlocked,
        "You can't go that way.",
        None,
    );
    assert!(ok);
    assert_eq!(world.current_location, start);
    let clearing = world.locations.get(&start).expect("clearing is known");
    let west = clearing.exits.iter().find(|e| e.direction == "west").expect("west exit");
    assert_eq!(west.destination, None);
}

#[test]
fn recorded_silent_move_changes_nothing() {
    let mut world = WorldModel::default();
    world.update_from_observation("Clearing\nYou are in a clearing.");
    let start = world.current_location.clone();
    let before = world.locations.len();
    let ok = record_move_outcome(
        &mut world,
        &start,
        &start,
        "north",
        ObservationClassification::MovedToSameLocation,
        "",
        None,
    );
    assert!(ok);
    assert_eq!(world.locations.len(), before);
    assert!(world.locations.get(&start).unwrap().exits.is_empty());
}

#[test]
fn plan_takes_a_shortest_known_route() {
    let mut world = WorldModel::default();
    // A long way round (A -> B -> C -> D) listed before the short cut (A -> D).
    place(&mut world, "A", vec![("east", "B"), ("south", "D")]);
    place(&mut world, "B", vec![("east", "C")]);
    place(&mut world, "C", vec![("south", "D")]);
    place(&mut world, "D", vec![]);
    world.current_location = "D".to_string();
    let mut planner = DfsPlanner::new(&world);
    world.current_location = "A".to_string();
    planner.observe_world(&world);
    for action in planner.frontier.iter_mut() {
        if action.source_location_key == "A" {
            action.status = FrontierStatus::Explored;
        }
    }
    let plan = planner.decide(&world).plan.expect("plan");
    assert_eq!(plan.frontier_source_location_key, "D");
    assert_eq!(plan.route_commands, vec!["south"]);
}

#[test]
fn equally_short_routes_follow_the_exit_order() {
    let mut world = WorldModel::default();
    // Two routes of two moves from A to D: through C (A's first exit) and
    // through B (its second); the route through C comes first.
    place(&mut world, "A", vec![("north", "C"), ("east", "B")]);
    place(&mut world, "B", vec![("south", "D")]);
    place(&mut world, "C", vec![("east", "D")]);
    place(&mut world, "D", vec![]);
    world.current_location = "D".to_string();
    let mut planner = DfsPlanner::new(&world);
    world.current_location = "A".to_string();
    planner.observe_world(&world);
    for action in planner.frontier.iter_mut() {
        if action.source_location_key != "D" {
            action.status = FrontierStatus::Explored;
        }
    }
    let plan = planner.decide(&world).plan.expect("plan");
    assert_eq!(plan.frontier_source_location_key, "D");
    assert_eq!(plan.route_commands, vec!["north", "east"]);
}

#[test]
fn plans_use_only_canonical_moves() {
    let mut world = WorldModel::default();
    place(&mut world, "A", vec![("Go East", "B")]);
    place(&mut world, "B", vec![("n", "C")]);
    place(&mut world, "C", vec![]);
    world.current_location = "C".to_string();
    let mut planner = DfsPlanner::new(&world);
    world.current_location = "A".to_string();
    planner.observe_world(&world);
    for action in planner.frontier.iter_mut() {
        if action.source_location_key == "A" {
            action.status = FrontierStatus::Explored;
        }
    }
    let plan = planner.decide(&world).plan.expect("plan");
    let canonical = [
        "north", "south", "east", "west", "northeast", "northwest", "southeast", "southwest", "up",
        "down", "in", "out",
    ];
    assert_eq!(plan.commands, vec!["east", "north", "north"]);
    assert!(plan.commands.iter().all(|c| canonical.contains(&c.as_str())));
}

#[test]
fn refused_route_move_leaves_no_pending_action() {
    let mut world = WorldModel::default();
    place(&mut world, "A", vec![]);
    world.current_location = "A".to_string();
    let mut planner = DfsPlanner::new(&world);
    let attempt = planner.pending_move_attempt("A", "north", None, &world);
    planner.apply_observation(
        ObservationUpdate {
            attempt,
            current_location: "A".to_string(),
            classification: ObservationClassification::CommandFailedOrBlocked,
            blocked_reason: Some("explicit_blocked_response".to_string()),
            raw_output_hash: "h".to_string(),
        },
        &world,
    );
    let north = planner
        .frontier()
        .iter()
        .find(|a| a.source_location_key == "A" && a.command == "north")
        .expect("north action");
    assert_eq!(north.status, FrontierStatus::Failed);
    assert_eq!(north.expected_destination, None);
    assert_eq!(north.failure_reason.as_deref(), Some("explicit_blocked_response"));
    assert!(planner
        .frontier()
        .iter()
        .filter(|a| a.command != "north")
        .all(|a| a.status == FrontierStatus::Pending));
}

#[test]
fn frontier_skips_moves_the_world_already_knows() {
    let mut world = WorldModel::default();
    place(&mut world, "A", vec![("east", "B")]);
    place(&mut world, "B", vec![("west", "A")]);
    world.current_location = "B".to_string();
    let planner = DfsPlanner::new(&world);
    assert!(!planner.frontier().iter().any(|a| a.command == "west"));
    assert_eq!(planner.frontier().len(), 11);
}

fn decision(kind: PlannerDecisionKind, commands: Vec<&str>, route: Vec<&str>) -> PlannerDecision {
    let plan = if kind == PlannerDecisionKind::CommandPlan {
        Some(CommandPlan {
            commands: commands.iter().map(|c| c.to_string()).collect(),
            route_commands: route.iter().map(|c| c.to_string()).collect(),
            frontier_action_command: commands.last().map(|c| c.to_string()).unwrap_or_default(),
            start_location_key: "A".to_string(),
            frontier_source_location_key: "B".to_string(),
            selected_frontier_action_id: "frontier-7".to_string(),
            reason: "deterministic DFS frontier order".to_string(),
        })
    } else {
        None
    };
    PlannerDecision { kind, plan, reason: "why".to_string() }
}

fn step_text(step: &DfsStep) -> String {
    match step {
        DfsStep::Stop(m) => format!("stop:{m}"),
        DfsStep::Fail(m) => format!("fail:{m}"),
        DfsStep::Run { command, frontier_id } => {
            format!("run:{command}:{}", frontier_id.clone().unwrap_or_default())
        }
    }
}

#[test]
fn dfs_step_stops_when_turns_are_used_up() {
    let d = decision(PlannerDecisionKind::CommandPlan, vec!["north"], vec![]);
    assert_eq!(
        step_text(&dfs_step(&d, 30, 30)),
        "stop:Stopping DFS strategy due to max-turn safety guard."
    );
    let done = decision(PlannerDecisionKind::Complete, vec![], vec![]);
    assert_eq!(step_text(&dfs_step(&done, 0, 30)), "stop:DFS complete: why");
    let blocked = decision(PlannerDecisionKind::Blocked, vec![], vec![]);
    assert_eq!(step_text(&dfs_step(&blocked, 0, 30)), "stop:DFS blocked: why");
}

#[test]
fn dfs_step_sends_the_first_command() {
    let direct = decision(PlannerDecisionKind::CommandPlan, vec!["north"], vec![]);
    assert_eq!(step_text(&dfs_step(&direct, 0, 30)), "run:north:frontier-7");
    let routed = decision(PlannerDecisionKind::CommandPlan, vec!["east", "north"], vec!["east"]);
    assert_eq!(step_text(&dfs_step(&routed, 0, 30)), "run:east:");
}

#[test]
fn dfs_step_fails_on_bad_plans() {
    let odd = decision(PlannerDecisionKind::CommandPlan, vec!["n"], vec![]);
    assert_eq!(step_text(&dfs_step(&odd, 0, 30)), "fail:DFS command 'n' is not canonical movement");
    let bad = decision(PlannerDecisionKind::CommandPlan, vec!["go; north"], vec![]);
    assert_eq!(
        step_text(&dfs_step(&bad, 0, 30)),
        "fail:invalid DFS command 'go; north': command batching is not allowed"
    );
    let empty = decision(PlannerDecisionKind::CommandPlan, vec![], vec![]);
    assert_eq!(step_text(&dfs_step(&empty, 0, 30)), "fail:planner returned empty command plan");
    let mut missing = decision(PlannerDecisionKind::CommandPlan, vec!["north"], vec![]);
    missing.plan = None;
    assert_eq!(
        step_text(&dfs_step(&missing, 0, 30)),
        "fail:planner returned CommandPlan without a plan"
    );
}
