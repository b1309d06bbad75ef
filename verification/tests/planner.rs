use if_agent::planner::{
    location_key, DfsPlanner, FrontierStatus, ObservationClassification, ObservationUpdate,
    PendingMoveAttempt,
};
use if_agent::world::{Location, WorldModel};

fn world_at(location: &str, description: &str) -> WorldModel {
    let mut world = WorldModel::default();
    world.current_location = location.to_string();
    world.locations.insert(
        location.to_string(),
        Location {
            title: location.to_string(),
            description: description.to_string(),
            ..Default::default()
        },
    );
    world
}

fn selected_attempt(planner: &mut DfsPlanner, world: &WorldModel) -> PendingMoveAttempt {
    let decision = planner.decide(world);
    let plan = decision.plan.expect("expected a command plan");
    planner.pending_move_attempt(
        &plan.frontier_source_location_key,
        &plan.frontier_action_command,
        Some(plan.selected_frontier_action_id),
        world,
    )
}

#[test]
fn direct_failure_marks_frontier_failed_without_destination() {
    let world = world_at("Forest", "You are standing in a forest.");
    let mut planner = DfsPlanner::new(&world);
    let attempt = selected_attempt(&mut planner, &world);

    let classified = planner.classify_observation(&attempt, "You can't go that way.", false);
    let classification = planner.apply_observation(
        ObservationUpdate {
            attempt: attempt.clone(),
            current_location: attempt.source_location_key.clone(),
            classification: classified.classification,
            blocked_reason: classified.blocked_reason,
            raw_output_hash: classified.raw_output_hash,
        },
        &world,
    );

    assert_eq!(
        classification,
        ObservationClassification::CommandFailedOrBlocked
    );
    let frontier = planner
        .frontier()
        .iter()
        .find(|action| action.id == attempt.frontier_id.as_deref().unwrap())
        .expect("frontier should exist");
    assert_eq!(frontier.status, FrontierStatus::Failed);
    assert_eq!(frontier.expected_destination, None);
    assert_eq!(
        planner
            .blocked_edges()
            .get("Forest")
            .and_then(|commands| commands.get(&attempt.command))
            .map(|edge| edge.reason.as_str()),
        Some("explicit_blocked_response")
    );
}

#[test]
fn blocked_response_does_not_create_location_or_child_frontiers() {
    let mut world = world_at("Forest", "You are standing in a forest.");
    let initial_location_count = world.locations.len();
    let mut planner = DfsPlanner::new(&world);
    let attempt = selected_attempt(&mut planner, &world);
    let initial_frontier_count = planner.frontier().len();

    let classified = planner.classify_observation(&attempt, "You can't go that way.", false);
    if classified.classification != ObservationClassification::CommandFailedOrBlocked {
        world.update_from_observation("You can't go that way.");
    }
    planner.apply_observation(
        ObservationUpdate {
            attempt: attempt.clone(),
            current_location: attempt.source_location_key.clone(),
            classification: classified.classification,
            blocked_reason: classified.blocked_reason,
            raw_output_hash: classified.raw_output_hash,
        },
        &world,
    );

    assert_eq!(world.locations.len(), initial_location_count);
    assert!(!world.locations.contains_key("You can't go that way."));
    assert_eq!(planner.frontier().len(), initial_frontier_count);
}

#[test]
fn same_location_response_is_moved_to_same_location() {
    let world = world_at("Forest", "You are standing in a forest.");
    let mut planner = DfsPlanner::new(&world);
    let attempt = selected_attempt(&mut planner, &world);
    let response = "Forest\nYou are standing in a forest.";

    let classified = planner.classify_observation(&attempt, response, false);

    assert_eq!(
        classified.classification,
        ObservationClassification::MovedToSameLocation
    );
    assert_eq!(classified.blocked_reason, None);
    assert!(classified.current_location_unchanged);
}

#[test]
fn same_location_move_marks_frontier_explored_with_source_destination() {
    let mut world = world_at("Forest", "You are standing in a forest.");
    let mut planner = DfsPlanner::new(&world);
    let attempt = selected_attempt(&mut planner, &world);
    let response = "Forest\nYou are standing in a forest.";

    let classified = planner.classify_observation(&attempt, response, false);
    world.update_from_observation(response);
    world.apply_command_result_with_destination(
        &attempt.source_location_key,
        &attempt.command,
        Some(&attempt.source_location_key),
    );
    planner.apply_observation(
        ObservationUpdate {
            attempt: attempt.clone(),
            current_location: location_key(&world),
            classification: classified.classification,
            blocked_reason: classified.blocked_reason,
            raw_output_hash: classified.raw_output_hash,
        },
        &world,
    );

    let frontier = planner
        .frontier()
        .iter()
        .find(|action| action.id == attempt.frontier_id.as_deref().unwrap())
        .expect("frontier should exist");
    assert_eq!(frontier.status, FrontierStatus::Explored);
    assert_eq!(frontier.expected_destination.as_deref(), Some("Forest"));
    assert_eq!(
        world
            .locations
            .get("Forest")
            .and_then(|location| location
                .exits
                .iter()
                .find(|exit| exit.direction == attempt.command))
            .and_then(|exit| exit.destination.as_deref()),
        Some("Forest")
    );
    assert!(
        planner
            .blocked_edges()
            .get("Forest")
            .and_then(|commands| commands.get(&attempt.command))
            .is_none()
    );
}

#[test]
fn blocked_edge_is_not_readded_during_later_frontier_generation() {
    let world = world_at("Forest", "You are standing in a forest.");
    let mut planner = DfsPlanner::new(&world);
    let attempt = selected_attempt(&mut planner, &world);
    let classified = planner.classify_observation(&attempt, "Nothing happens.", false);
    planner.apply_observation(
        ObservationUpdate {
            attempt: attempt.clone(),
            current_location: attempt.source_location_key.clone(),
            classification: classified.classification,
            blocked_reason: classified.blocked_reason,
            raw_output_hash: classified.raw_output_hash,
        },
        &world,
    );

    planner.observe_world(&world);

    let matching = planner
        .frontier()
        .iter()
        .filter(|action| {
            action.source_location_key == "Forest" && action.command == attempt.command
        })
        .collect::<Vec<_>>();
    assert_eq!(matching.len(), 1);
    assert_eq!(matching[0].status, FrontierStatus::Failed);
}

#[test]
fn successful_move_still_creates_destination_frontiers() {
    let mut world = world_at("Forest", "You are standing in a forest.");
    let mut planner = DfsPlanner::new(&world);
    let attempt = selected_attempt(&mut planner, &world);
    let response = "Clearing\nYou are in a sunny clearing.";

    let classified = planner.classify_observation(&attempt, response, false);
    assert_eq!(
        classified.classification,
        ObservationClassification::MovedToNewLocation
    );
    world.update_from_observation(response);
    planner.apply_observation(
        ObservationUpdate {
            attempt,
            current_location: location_key(&world),
            classification: classified.classification,
            blocked_reason: classified.blocked_reason,
            raw_output_hash: classified.raw_output_hash,
        },
        &world,
    );

    assert!(
        world
            .locations
            .values()
            .iter()
            .any(|location| location.title == "Clearing")
    );
    assert!(planner.frontier().iter().any(|action| {
        world
            .locations
            .get(&action.source_location_key)
            .map_or(false, |location| location.title.starts_with("Clearing"))
    }));
}
