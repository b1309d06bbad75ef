use if_agent::table::KeyedTable;
use if_agent::world::{
    location_key_from_snapshot, location_snapshot_from_observation, unique_location_key,
    Location, LocationMatchConfidence, WorldModel,
};

#[test]
fn snapshot_uses_first_non_empty_line_after_title() {
    let observation = "Inside Building\n\
        You are inside a building, a well house for a large spring.\n\n\
        There are some keys on the ground here.\n\n\
        There is tasty food here.";

    let (title, description) =
        location_snapshot_from_observation(observation).expect("location snapshot");

    assert_eq!(title, "Inside Building");
    assert_eq!(
        description,
        "You are inside a building, a well house for a large spring."
    );
}

#[test]
fn object_listing_does_not_replace_existing_description() {
    let mut world = WorldModel::default();
    world.update_from_observation(
        "Inside Building\nYou are inside a building, a well house for a large spring.",
    );
    let key = world.current_location.clone();

    world.update_from_observation(
        "Inside Building\n\nThere are some keys on the ground here.\n\nThere is tasty food here.",
    );

    assert_eq!(world.current_location, key);
    assert_eq!(
        world
            .locations
            .get(&key)
            .expect("location should remain known")
            .description,
        "You are inside a building, a well house for a large spring."
    );
}

#[test]
fn location_key_uses_only_title_without_duplicates() {
    assert_eq!(
        location_key_from_snapshot("In Forest", "You are in open forest, with a deep valley."),
        "In Forest"
    );
}

#[test]
fn repeated_location_titles_use_first_twenty_different_description_characters() {
    let mut world = WorldModel::default();
    world.update_from_observation("In Forest\nYou are in open forest, with a deep valley.");

    world.update_from_observation("In Forest\nYou are in open forest near both a valley.");
    let second_key = world.current_location.clone();

    assert_eq!(
        world
            .locations
            .values()
            .iter()
            .filter(|location| location.title == "In Forest")
            .count(),
        2
    );
    assert!(second_key.starts_with("loc-"));
    assert_eq!(
        world.location_aliases.get("In Forest. near both a valley"),
        Some(&second_key)
    );
    assert!(!world.locations.contains_key("In Forest"));
}

#[test]
fn location_key_adds_hash_when_different_words_are_not_enough() {
    let locations: KeyedTable<Location> = KeyedTable::new();
    let planned = vec!["In Forest. you are in".to_string()];
    let key = unique_location_key(
        "In Forest",
        "You are in open forest.",
        &["You are in open forest.", "You are in open forest."],
        &planned,
        &locations,
        "",
    );

    assert!(key.starts_with("In Forest.#"));
    assert_eq!(
        key.strip_prefix("In Forest.#").expect("hash suffix").len(),
        7
    );
}

#[test]
fn repeated_command_results_mark_probabilistic_exit_unstable() {
    let mut world = WorldModel::default();
    world.current_location = "A".to_string();

    world.apply_command_result_with_destination("A", "east", Some("B"));
    world.apply_command_result_with_destination("A", "east", Some("B"));
    world.apply_command_result_with_destination("A", "east", Some("C"));

    let exit = world
        .locations
        .get("A")
        .expect("source location")
        .exits
        .iter()
        .find(|exit| exit.direction == "east")
        .expect("east exit");

    assert_eq!(exit.transition_counts.get("B"), Some(&2));
    assert_eq!(exit.transition_counts.get("C"), Some(&1));
    assert_eq!(exit.destination.as_deref(), Some("B"));
    assert!(exit.unstable);
}

#[test]
fn runtime_identity_uses_stable_ids_and_readable_aliases() {
    let mut world = WorldModel::default();

    world.update_from_observation("In Forest\nYou are in open forest, with a deep valley.");
    let first_key = world.current_location.clone();
    world.update_from_observation("In Forest\nYou are in open forest near both a valley.");
    let second_key = world.current_location.clone();

    assert!(first_key.starts_with("loc-"));
    assert!(second_key.starts_with("loc-"));
    assert_ne!(first_key, second_key);
    assert_eq!(world.canonical_location_key("In Forest"), first_key);
    assert_eq!(
        world.canonical_location_key("In Forest. near both a valley"),
        second_key
    );
    assert!(!world.locations.contains_key("In Forest"));
}

#[test]
fn transition_context_can_supply_probable_match() {
    let mut world = WorldModel::default();
    world.update_from_observation("A\nYou are in room A.");
    let source = world.current_location.clone();
    world.update_from_observation("B\nYou are in room B.");
    let destination = world.current_location.clone();
    world.apply_command_result_with_destination(&source, "east", Some(&destination));

    let location_match = world
        .match_location_snapshot_with_context(
            "B",
            "You are in room B after a change.",
            &source,
            "east",
        )
        .expect("transition context should identify destination");

    assert_eq!(location_match.key, destination);
    assert_eq!(location_match.confidence, LocationMatchConfidence::Probable);
}

#[test]
fn resolving_a_key_twice_changes_nothing() {
    let mut world = WorldModel::default();
    world.update_from_observation("In Forest\nYou are in open forest, with a deep valley.");
    world.update_from_observation("In Forest\nYou are in open forest near both a valley.");
    for name in ["In Forest", " In Forest. near both a valley ", "Nowhere", "   "] {
        let once = world.canonical_location_key(name);
        assert_eq!(world.canonical_location_key(&once), once);
    }
    assert_eq!(world.canonical_location_key("   "), "");
}

#[test]
fn new_snapshot_gets_the_next_stable_key_and_a_known_one_changes_nothing() {
    let mut world = WorldModel::default();
    let first = world.location_key_for_snapshot("Hall", "You are in a hall.");
    assert_eq!(first, "loc-000001");
    assert_eq!(world.next_location_id, 2);
    assert_eq!(world.locations.len(), 1);
    assert_eq!(world.locations.get(&first).unwrap().title, "Hall");
    let aliases = world.location_aliases.len();

    let again = world.location_key_for_snapshot("  Hall ", "You are in a hall.");
    assert_eq!(again, first);
    assert_eq!(world.locations.len(), 1);
    assert_eq!(world.location_aliases.len(), aliases);
    assert_eq!(world.next_location_id, 2);
}

#[test]
fn memory_update_records_each_reported_exit_object_and_note_once() {
    let mut world = WorldModel::default();
    world.apply_llm_memory(
        "Cellar",
        &["North".to_string(), "n".to_string(), " ".to_string()],
        &[" lamp ".to_string(), "lamp".to_string()],
        &["find keys".to_string(), " find keys ".to_string(), String::new()],
    );
    let cellar = world.locations.get("Cellar").expect("placeholder location");
    assert!(cellar.provisional);
    assert_eq!(cellar.title, "Cellar");
    assert_eq!(cellar.exits.len(), 1);
    assert_eq!(cellar.exits[0].direction, "north");
    assert_eq!(cellar.exits[0].destination, None);
    assert_eq!(cellar.objects, vec!["lamp".to_string()]);
    assert_eq!(world.task_notes, vec!["find keys".to_string()]);

    // Without a hint or a current location, no location is touched.
    let mut empty = WorldModel::default();
    empty.apply_llm_memory("  ", &["north".to_string()], &[], &["note".to_string()]);
    assert_eq!(empty.locations.len(), 0);
    assert_eq!(empty.task_notes, vec!["note".to_string()]);
}
