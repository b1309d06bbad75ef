use if_agent::eval::{ExitItem, ExitToItem};
use if_agent::scoring::{
    expected_exit_items, expected_exit_to_items, exit_to_diff, final_map_artifact,
    node_id_for_world_model_destination, node_ids_by_location, overlap_counts, world_model_exit_items,
    world_state_exit_items, MapNode, SavedPlace,
};
use if_agent::table::KeyedTable;
use if_agent::world::{Location, WorldModel};

fn node(title: &str, description: &str, exits: &[(&str, &[&str])], exits_to: &[&str]) -> MapNode {
    MapNode {
        title: title.to_string(),
        description: description.to_string(),
        exits: exits
            .iter()
            .map(|(d, ds)| (d.to_string(), ds.iter().map(|x| x.to_string()).collect()))
            .collect(),
        exits_to: exits_to.iter().map(|x| x.to_string()).collect(),
    }
}

fn start_forest_nodes() -> KeyedTable<MapNode> {
    let mut nodes = KeyedTable::new();
    nodes.insert("start".to_string(), node("Start", "You are at the start.", &[], &[]));
    nodes.insert("forest".to_string(), node("Forest", "You are in the forest.", &[], &[]));
    nodes
}

fn start_forest_world() -> WorldModel {
    let mut world = WorldModel::default();
    world.current_location = "Start".to_string();
    world.locations.insert(
        "Start".to_string(),
        Location {
            title: "Start".to_string(),
            description: "You are at the start.".to_string(),
            ..Default::default()
        },
    );
    world.locations.insert(
        "Forest".to_string(),
        Location {
            title: "Forest".to_string(),
            description: "You are in the forest.".to_string(),
            ..Default::default()
        },
    );
    world
}

fn triple(e: &ExitItem) -> (String, String, String) {
    (e.source.clone(), e.direction.clone(), e.destination.clone())
}

fn pair(e: &ExitToItem) -> (String, String) {
    (e.source.clone(), e.destination.clone())
}

fn to_pairs(items: &[ExitToItem]) -> Vec<(String, String)> {
    items.iter().map(pair).collect()
}

fn item(source: &str, destination: &str) -> ExitToItem {
    ExitToItem { source: source.to_string(), destination: destination.to_string() }
}

#[test]
fn final_map_exits_use_command_abbreviations_and_transition_counts() {
    let mut world = start_forest_world();
    world.apply_command_result_with_destination("Start", "north", Some("Forest"));
    world.apply_command_result_with_destination("Start", "n", Some("Forest"));

    let first_nodes = start_forest_nodes();
    let final_map = final_map_artifact(&world, &first_nodes).expect("counts fit");

    assert_eq!(
        final_map
            .get("start")
            .and_then(|location| location.exits.get("n"))
            .and_then(|destinations| destinations.get("forest")),
        Some(&2)
    );
}

#[test]
fn final_map_keeps_uncounted_destinations_at_zero() {
    let mut world = start_forest_world();
    world.locations.entries[0].1.exits.push(if_agent::world::Exit {
        direction: "east".to_string(),
        destination: Some("Forest".to_string()),
        transition_counts: KeyedTable::new(),
        unstable: false,
    });
    world.locations.entries[0].1.exits.push(if_agent::world::Exit {
        direction: "take lamp".to_string(),
        destination: Some("Forest".to_string()),
        transition_counts: KeyedTable::new(),
        unstable: false,
    });
    let final_map = final_map_artifact(&world, &start_forest_nodes()).expect("counts fit");
    let start = final_map.get("start").expect("start is mapped");
    assert_eq!(start.title, "Start");
    assert_eq!(start.exits.len(), 1);
    assert_eq!(start.exits.get("e").and_then(|d| d.get("forest")), Some(&0));
    assert!(final_map.get("forest").expect("forest is mapped").exits.is_empty());
}

#[test]
fn final_map_reports_count_overflow() {
    let mut world = start_forest_world();
    let mut counts = KeyedTable::new();
    counts.insert("Forest".to_string(), usize::MAX);
    for direction in ["north", "n"] {
        world.locations.entries[0].1.exits.push(if_agent::world::Exit {
            direction: direction.to_string(),
            destination: Some("Forest".to_string()),
            transition_counts: counts.clone(),
            unstable: false,
        });
    }
    assert!(final_map_artifact(&world, &start_forest_nodes()).is_none());
}

#[test]
fn destinations_are_scored_under_expected_ids() {
    let mut world = start_forest_world();
    world.apply_command_result_with_destination("Start", "north", Some("Forest"));
    let nodes = start_forest_nodes();
    let ids = node_ids_by_location(&nodes);
    assert_eq!(ids[0], ("start".to_string(), "you are at the start.".to_string(), "start".to_string()));
    assert_eq!(node_id_for_world_model_destination("Forest", &world, &nodes, &ids), "forest");
    assert_eq!(node_id_for_world_model_destination("forest", &world, &nodes, &ids), "forest");
    assert_eq!(node_id_for_world_model_destination("Cave", &world, &nodes, &ids), "Cave");

    let items = world_model_exit_items(&world, &nodes);
    assert_eq!(
        items.iter().map(triple).collect::<Vec<_>>(),
        vec![
            ("start".to_string(), "north".to_string(), "forest".to_string()),
            ("forest".to_string(), "south".to_string(), "start".to_string()),
        ]
    );
}

#[test]
fn location_without_expected_match_keeps_its_key() {
    let mut world = start_forest_world();
    world.locations.entries[1].1.description = "A different forest.".to_string();
    world.apply_command_result_with_destination("Start", "north", Some("Forest"));
    let items = world_model_exit_items(&world, &start_forest_nodes());
    assert_eq!(items.len(), 2);
    assert_eq!(items[0].destination, "Forest");
    assert_eq!(items[1].source, "Forest");
}

#[test]
fn expected_moves_skip_non_movement_ways() {
    let mut nodes = KeyedTable::new();
    nodes.insert(
        "start".to_string(),
        node("Start", "S", &[("N", &["forest", "cave"]), ("xyzzy", &["house"])], &[]),
    );
    let items = expected_exit_items(&nodes);
    assert_eq!(
        items.iter().map(triple).collect::<Vec<_>>(),
        vec![
            ("start".to_string(), "north".to_string(), "forest".to_string()),
            ("start".to_string(), "north".to_string(), "cave".to_string()),
        ]
    );
}

#[test]
fn expected_pairs_prefer_given_neighbours() {
    let mut nodes = KeyedTable::new();
    nodes.insert(
        "start".to_string(),
        node("Start", "S", &[("north", &["forest"]), ("n", &["forest"]), ("xyzzy", &["house"])], &[]),
    );
    nodes.insert("forest".to_string(), node("Forest", "F", &[("south", &["start"])], &["cave"]));
    let pairs = to_pairs(&expected_exit_to_items(&nodes));
    assert_eq!(
        pairs,
        vec![
            ("start".to_string(), "forest".to_string()),
            ("start".to_string(), "house".to_string()),
            ("forest".to_string(), "cave".to_string()),
        ]
    );
}

#[test]
fn saved_world_moves_need_a_known_destination() {
    let mut places = KeyedTable::new();
    places.insert(
        "loc-1".to_string(),
        SavedPlace {
            title: Some("Start".to_string()),
            description: Some("You are at the start.".to_string()),
            exits: vec![
                ("n".to_string(), Some("loc-2".to_string())),
                ("east".to_string(), None),
                ("dance".to_string(), Some("loc-2".to_string())),
            ],
        },
    );
    places.insert(
        "loc-2".to_string(),
        SavedPlace {
            title: Some("Forest".to_string()),
            description: None,
            exits: vec![("s".to_string(), Some("loc-1".to_string()))],
        },
    );
    let items = world_state_exit_items(&places, &start_forest_nodes());
    assert_eq!(
        items.iter().map(triple).collect::<Vec<_>>(),
        vec![
            ("start".to_string(), "north".to_string(), "loc-2".to_string()),
            ("loc-2".to_string(), "south".to_string(), "start".to_string()),
        ]
    );
}

#[test]
fn exit_to_diff_splits_pairs() {
    let expected = vec![item("a", "b"), item("b", "c"), item("a", "b")];
    let actual = vec![item("b", "c"), item("c", "d"), item("c", "d")];
    let diff = exit_to_diff(&expected, &actual);
    assert_eq!(to_pairs(&diff.shared_by_both), vec![("b".to_string(), "c".to_string())]);
    assert_eq!(to_pairs(&diff.missing_in_actual), vec![("a".to_string(), "b".to_string())]);
    assert_eq!(to_pairs(&diff.extra_in_actual), vec![("c".to_string(), "d".to_string())]);
}

fn keys(items: &[&[&str]]) -> Vec<Vec<String>> {
    items.iter().map(|k| k.iter().map(|s| s.to_string()).collect()).collect()
}

#[test]
fn overlap_counts_items_as_multisets() {
    let left = keys(&[&["a"], &["a"], &["b"], &["c", "d"]]);
    let right = keys(&[&["a"], &["b"], &["b"], &["c"], &["c", "d"]]);
    // shared: a once, b once, (c, d) once; union: a twice, b twice, c, (c, d)
    assert_eq!(overlap_counts(&left, &right), (3, 6));
}

#[test]
fn overlap_of_empty_lists_is_empty() {
    assert_eq!(overlap_counts(&Vec::new(), &Vec::new()), (0, 0));
    let only = keys(&[&["x"]]);
    assert_eq!(overlap_counts(&only, &Vec::new()), (0, 1));
    assert_eq!(overlap_counts(&only, &only), (1, 1));
}

#[test]
fn same_items_in_another_order_overlap_completely() {
    let left = keys(&[&["a"], &["b", "c"], &["a"]]);
    let right = keys(&[&["b", "c"], &["a"], &["a"]]);
    assert_eq!(overlap_counts(&left, &right), (3, 3));
}

#[test]
fn overlap_info_lists_counts() {
    assert_eq!(if_agent::scoring::overlap_info(6, 12, 10, 8), "6/12, 10, 8");
}
