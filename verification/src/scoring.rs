//! Comparing a built map with the expected map of an evaluation: which
//! expected place a built location stands for, and the moves and
//! neighbouring pairs each map holds.
use crate::eval::{
    final_map_move_command, map_move_name,
    exit_to_view, first_occurrences, lemma_first_occurrences_members, unique_exit_to_items,
    ExitItem, ExitToItem,
};
use crate::planner::{normalize_move, normalize_move_command, signature, signature_string};
use crate::table::{has_key, lemma_key_index_bounds, lookup, table_insert, KeyedTable};
use crate::text::opt_view;
use crate::world::{Exit, ExitView, Location, LocationView, WorldModel, WorldView};
use vstd::multiset::Multiset;
use vstd::prelude::*;

verus! {

/// A place of the expected map.
#[derive(Clone, Debug)]
pub struct MapNode {
    pub title: String,
    pub description: String,
    /// Each way out, with the places it leads to.
    pub exits: Vec<(String, Vec<String>)>,
    /// The places given as reachable in one move; empty where the map gives none.
    pub exits_to: Vec<String>,
}

pub struct MapNodeView {
    pub title: Seq<char>,
    pub description: Seq<char>,
    pub exits: Seq<(Seq<char>, Seq<Seq<char>>)>,
    pub exits_to: Seq<Seq<char>>,
}

impl View for MapNode {
    type V = MapNodeView;

    open spec fn view(&self) -> MapNodeView {
        MapNodeView {
            title: self.title@,
            description: self.description@,
            exits: self.exits@.map_values(|e: (String, Vec<String>)| (e.0@, e.1.deep_view())),
            exits_to: self.exits_to.deep_view(),
        }
    }
}

/// A normalized title and description, with the expected place they belong to.
pub open spec fn triples_view(v: Seq<(String, String, String)>) -> Seq<(Seq<char>, Seq<char>, Seq<char>)> {
    v.map_values(|t: (String, String, String)| (t.0@, t.1@, t.2@))
}

/// Each expected place as `(normalized title, normalized description, key)`.
pub open spec fn node_index(nodes: Seq<(Seq<char>, MapNodeView)>) -> Seq<(Seq<char>, Seq<char>, Seq<char>)> {
    nodes.map_values(
        |e: (Seq<char>, MapNodeView)| (signature(e.1.title), signature(e.1.description), e.0),
    )
}

/// The key of the last indexed place with this normalized title and description.
pub open spec fn matching_node(ids: Seq<(Seq<char>, Seq<char>, Seq<char>)>, title: Seq<char>, description: Seq<char>) -> Option<Seq<char>>
    decreases ids.len(),
{
    if ids.len() == 0 {
        None
    } else if ids.last().0 == title && ids.last().1 == description {
        Some(ids.last().2)
    } else {
        matching_node(ids.drop_last(), title, description)
    }
}

/// The id a place is scored under: the expected place with the same
/// normalized title and description, else its own key.
pub open spec fn place_id(ids: Seq<(Seq<char>, Seq<char>, Seq<char>)>, key: Seq<char>, title: Seq<char>, description: Seq<char>) -> Seq<char> {
    match matching_node(ids, signature(title), signature(description)) {
        Some(id) => id,
        None => key,
    }
}

/// The id a destination of the built map is scored under: an expected key
/// as it is; else the id of the built location under that key; else itself.
pub open spec fn destination_id(
    nodes: Seq<(Seq<char>, MapNodeView)>,
    ids: Seq<(Seq<char>, Seq<char>, Seq<char>)>,
    world: WorldView,
    destination: Seq<char>,
) -> Seq<char> {
    if has_key(nodes, destination) {
        destination
    } else {
        match lookup(world.locations, destination) {
            Some(loc) => place_id(ids, destination, loc.title, loc.description),
            None => destination,
        }
    }
}

/// Each expected place as its normalized title and description, with its key.
pub fn node_ids_by_location(nodes: &KeyedTable<MapNode>) -> (r: Vec<(String, String, String)>)
    ensures
        triples_view(r@) == node_index(nodes@),
{
    let mut r: Vec<(String, String, String)> = Vec::new();
    let mut i: usize = 0;
    while i < nodes.entries.len()
        invariant
            0 <= i <= nodes.entries@.len(),
            triples_view(r@) == node_index(nodes@).take(i as int),
        decreases nodes.entries@.len() - i,
    {
        let ghost before = triples_view(r@);
        let node = &nodes.entries[i];
        let t = signature_string(node.1.title.as_str());
        let d = signature_string(node.1.description.as_str());
        r.push((t, d, node.0.clone()));
        assert(triples_view(r@) =~= before.push(node_index(nodes@)[i as int]));
        assert(node_index(nodes@).take(i + 1) =~= node_index(nodes@).take(i as int).push(
            node_index(nodes@)[i as int],
        ));
        i += 1;
    }
    assert(node_index(nodes@).take(nodes.entries@.len() as int) =~= node_index(nodes@));
    r
}

/// The id a place with this key, title and description is scored under.
pub fn node_id_for_place(key: &str, title: &str, description: &str, ids: &Vec<(String, String, String)>) -> (r: String)
    ensures
        r@ == place_id(triples_view(ids@), key@, title@, description@),
{
    let t = signature_string(title);
    let d = signature_string(description);
    let ghost iv = triples_view(ids@);
    let mut i: usize = ids.len();
    assert(iv.take(i as int) =~= iv);
    while i > 0
        invariant
            0 <= i <= ids@.len(),
            iv == triples_view(ids@),
            t@ == signature(title@),
            d@ == signature(description@),
            matching_node(iv, t@, d@) == matching_node(iv.take(i as int), t@, d@),
        decreases i,
    {
        let e = &ids[i - 1];
        assert(iv.take(i as int).last() == iv[i - 1]);
        assert(iv.take(i as int).drop_last() =~= iv.take(i - 1));
        if e.0 == t && e.1 == d {
            return e.2.clone();
        }
        i -= 1;
    }
    key.to_owned()
}

/// The id a built location is scored under.
pub fn node_id_for_world_model_location(key: &str, location: &Location, ids: &Vec<(String, String, String)>) -> (r: String)
    ensures
        r@ == place_id(triples_view(ids@), key@, location.title@, location.description@),
{
    node_id_for_place(key, location.title.as_str(), location.description.as_str(), ids)
}

/// The id a destination of the built map is scored under.
pub fn node_id_for_world_model_destination(
    destination: &str,
    world: &WorldModel,
    nodes: &KeyedTable<MapNode>,
    ids: &Vec<(String, String, String)>,
) -> (r: String)
    ensures
        r@ == destination_id(nodes@, triples_view(ids@), world@, destination@),
{
    if nodes.contains_key(destination) {
        return destination.to_owned();
    }
    match world.locations.get(destination) {
        Some(location) => node_id_for_world_model_location(destination, location, ids),
        None => destination.to_owned(),
    }
}


/// The moves of a map as `(source, direction, destination)`.
pub open spec fn exit_items_view(v: Seq<ExitItem>) -> Seq<(Seq<char>, Seq<char>, Seq<char>)> {
    v.map_values(|e: ExitItem| (e.source@, e.direction@, e.destination@))
}

/// The moves one exit of the built map contributes from `source`: none
/// unless its direction is a movement; else one to each destination it was
/// seen to reach, or, when none was counted, one to its recorded destination.
pub open spec fn exit_moves(
    nodes: Seq<(Seq<char>, MapNodeView)>,
    ids: Seq<(Seq<char>, Seq<char>, Seq<char>)>,
    world: WorldView,
    source: Seq<char>,
    e: ExitView,
) -> Seq<(Seq<char>, Seq<char>, Seq<char>)> {
    match normalize_move(e.direction) {
        None => seq![],
        Some(dir) => if e.transition_counts.len() > 0 {
            e.transition_counts.map_values(
                |t: (Seq<char>, usize)| (source, dir, destination_id(nodes, ids, world, t.0)),
            )
        } else {
            match e.destination {
                Some(d) => seq![(source, dir, destination_id(nodes, ids, world, d))],
                None => seq![],
            }
        },
    }
}

/// The moves of a list of exits, in order.
pub open spec fn exits_moves(
    nodes: Seq<(Seq<char>, MapNodeView)>,
    ids: Seq<(Seq<char>, Seq<char>, Seq<char>)>,
    world: WorldView,
    source: Seq<char>,
    exits: Seq<ExitView>,
) -> Seq<(Seq<char>, Seq<char>, Seq<char>)>
    decreases exits.len(),
{
    if exits.len() == 0 {
        seq![]
    } else {
        exits_moves(nodes, ids, world, source, exits.drop_last()) + exit_moves(
            nodes,
            ids,
            world,
            source,
            exits.last(),
        )
    }
}

/// The moves of a list of built locations, each scored under its id.
pub open spec fn locations_moves(
    nodes: Seq<(Seq<char>, MapNodeView)>,
    ids: Seq<(Seq<char>, Seq<char>, Seq<char>)>,
    world: WorldView,
    locs: Seq<(Seq<char>, LocationView)>,
) -> Seq<(Seq<char>, Seq<char>, Seq<char>)>
    decreases locs.len(),
{
    if locs.len() == 0 {
        seq![]
    } else {
        let (key, loc) = locs.last();
        locations_moves(nodes, ids, world, locs.drop_last()) + exits_moves(
            nodes,
            ids,
            world,
            place_id(ids, key, loc.title, loc.description),
            loc.exits,
        )
    }
}

/// The moves of the built map, scored against the expected places.
pub open spec fn world_moves(world: WorldView, nodes: Seq<(Seq<char>, MapNodeView)>) -> Seq<
    (Seq<char>, Seq<char>, Seq<char>),
> {
    locations_moves(nodes, node_index(nodes), world, world.locations)
}

fn push_exit_moves(
    r: &mut Vec<ExitItem>,
    source: &String,
    exit: &Exit,
    world: &WorldModel,
    nodes: &KeyedTable<MapNode>,
    ids: &Vec<(String, String, String)>,
)
    ensures
        exit_items_view(final(r)@) == exit_items_view(old(r)@) + exit_moves(
            nodes@,
            triples_view(ids@),
            world@,
            source@,
            exit@,
        ),
{
    let ghost iv = triples_view(ids@);
    let ghost start = exit_items_view(r@);
    let direction = match normalize_move_command(exit.direction.as_str()) {
        Some(d) => d,
        None => {
            assert(exit_items_view(r@) =~= start + seq![]);
            return;
        },
    };
    let counts = &exit.transition_counts;
    if counts.entries.len() > 0 {
        let ghost want = exit_moves(nodes@, iv, world@, source@, exit@);
        let mut k: usize = 0;
        while k < counts.entries.len()
            invariant
                0 <= k <= counts.entries@.len(),
                counts@.len() == counts.entries@.len() > 0,
                counts@ == exit@.transition_counts,
                iv == triples_view(ids@),
                normalize_move(exit@.direction) == Some(direction@),
                want == exit_moves(nodes@, iv, world@, source@, exit@),
                exit_items_view(r@) == start + want.take(k as int),
            decreases counts.entries@.len() - k,
        {
            let ghost before = exit_items_view(r@);
            let d = node_id_for_world_model_destination(counts.entries[k].0.as_str(), world, nodes, ids);
            r.push(ExitItem { source: source.clone(), direction: direction.clone(), destination: d });
            assert(counts@[k as int].0 == counts.entries@[k as int].0@);
            assert(exit_items_view(r@) =~= before.push(want[k as int]));
            assert(want.take(k + 1) =~= want.take(k as int).push(want[k as int]));
            k += 1;
        }
        assert(want.take(counts.entries@.len() as int) =~= want);
    } else {
        match &exit.destination {
            Some(dest) => {
                let d = node_id_for_world_model_destination(dest.as_str(), world, nodes, ids);
                r.push(ExitItem { source: source.clone(), direction, destination: d });
                assert(exit_items_view(r@) =~= start + exit_moves(nodes@, iv, world@, source@, exit@));
            },
            None => {
                assert(exit_items_view(r@) =~= start + seq![]);
            },
        }
    }
}

/// The moves of the built map, each from the id of its location, in the
/// direction's canonical name, to the id of its destination.
pub fn world_model_exit_items(world: &WorldModel, nodes: &KeyedTable<MapNode>) -> (r: Vec<ExitItem>)
    ensures
        exit_items_view(r@) == world_moves(world@, nodes@),
{
    let ids = node_ids_by_location(nodes);
    let ghost iv = triples_view(ids@);
    let ghost locs = world@.locations;
    let mut r: Vec<ExitItem> = Vec::new();
    let mut i: usize = 0;
    assert(locs.take(0) =~= Seq::<(Seq<char>, LocationView)>::empty());
    while i < world.locations.entries.len()
        invariant
            0 <= i <= world.locations.entries@.len(),
            locs == world@.locations,
            locs.len() == world.locations.entries@.len(),
            iv == triples_view(ids@),
            iv == node_index(nodes@),
            exit_items_view(r@) == locations_moves(nodes@, iv, world@, locs.take(i as int)),
        decreases world.locations.entries@.len() - i,
    {
        let key = &world.locations.entries[i].0;
        let location = &world.locations.entries[i].1;
        let source = node_id_for_world_model_location(key.as_str(), location, &ids);
        let ghost exits = location@.exits;
        let ghost head = exit_items_view(r@);
        assert(locs[i as int] == (key@, location@));
        assert(locs.take(i + 1).drop_last() =~= locs.take(i as int));
        assert(locs.take(i + 1).last() == locs[i as int]);
        let mut j: usize = 0;
        assert(exits.take(0) =~= Seq::<ExitView>::empty());
        while j < location.exits.len()
            invariant
                0 <= j <= location.exits@.len(),
                exits == location@.exits,
                exits.len() == location.exits@.len(),
                iv == triples_view(ids@),
                exit_items_view(r@) == head + exits_moves(nodes@, iv, world@, source@, exits.take(j as int)),
            decreases location.exits@.len() - j,
        {
            push_exit_moves(&mut r, &source, &location.exits[j], world, nodes, &ids);
            assert(exits.take(j + 1).drop_last() =~= exits.take(j as int));
            assert(exits.take(j + 1).last() == location.exits@[j as int]@);
            assert(exit_items_view(r@) =~= head + exits_moves(nodes@, iv, world@, source@, exits.take(j + 1)));
            j += 1;
        }
        assert(exits.take(location.exits@.len() as int) =~= exits);
        assert(exit_items_view(r@) =~= locations_moves(nodes@, iv, world@, locs.take(i + 1)));
        i += 1;
    }
    assert(locs.take(world.locations.entries@.len() as int) =~= locs);
    r
}


/// The moves one way out of an expected place gives: one to each place it
/// leads to, when its direction is a movement.
pub open spec fn way_moves(source: Seq<char>, way: (Seq<char>, Seq<Seq<char>>)) -> Seq<
    (Seq<char>, Seq<char>, Seq<char>),
> {
    match normalize_move(way.0) {
        Some(dir) => way.1.map_values(|d: Seq<char>| (source, dir, d)),
        None => seq![],
    }
}

/// The moves of an expected place, way by way.
pub open spec fn node_moves(source: Seq<char>, ways: Seq<(Seq<char>, Seq<Seq<char>>)>) -> Seq<
    (Seq<char>, Seq<char>, Seq<char>),
>
    decreases ways.len(),
{
    if ways.len() == 0 {
        seq![]
    } else {
        node_moves(source, ways.drop_last()) + way_moves(source, ways.last())
    }
}

/// The moves of the expected map, place by place.
pub open spec fn expected_moves(nodes: Seq<(Seq<char>, MapNodeView)>) -> Seq<
    (Seq<char>, Seq<char>, Seq<char>),
>
    decreases nodes.len(),
{
    if nodes.len() == 0 {
        seq![]
    } else {
        expected_moves(nodes.drop_last()) + node_moves(nodes.last().0, nodes.last().1.exits)
    }
}

/// The moves of the expected map: for each place and way out whose
/// direction is a movement, one move per place it leads to.
pub fn expected_exit_items(nodes: &KeyedTable<MapNode>) -> (r: Vec<ExitItem>)
    ensures
        exit_items_view(r@) == expected_moves(nodes@),
{
    let ghost nv = nodes@;
    let mut r: Vec<ExitItem> = Vec::new();
    let mut i: usize = 0;
    assert(nv.take(0) =~= Seq::<(Seq<char>, MapNodeView)>::empty());
    while i < nodes.entries.len()
        invariant
            0 <= i <= nodes.entries@.len(),
            nv == nodes@,
            nv.len() == nodes.entries@.len(),
            exit_items_view(r@) == expected_moves(nv.take(i as int)),
        decreases nodes.entries@.len() - i,
    {
        let source = &nodes.entries[i].0;
        let node = &nodes.entries[i].1;
        let ghost ways = node@.exits;
        let ghost head = exit_items_view(r@);
        assert(nv[i as int] == (source@, node@));
        assert(nv.take(i + 1).drop_last() =~= nv.take(i as int));
        assert(nv.take(i + 1).last() == nv[i as int]);
        let mut j: usize = 0;
        assert(ways.take(0) =~= Seq::<(Seq<char>, Seq<Seq<char>>)>::empty());
        while j < node.exits.len()
            invariant
                0 <= j <= node.exits@.len(),
                ways == node@.exits,
                ways.len() == node.exits@.len(),
                exit_items_view(r@) == head + node_moves(source@, ways.take(j as int)),
            decreases node.exits@.len() - j,
        {
            let way = &node.exits[j];
            let ghost mid = exit_items_view(r@);
            assert(ways[j as int] == (way.0@, way.1.deep_view()));
            match normalize_move_command(way.0.as_str()) {
                Some(dir) => {
                    let ghost want = way_moves(source@, ways[j as int]);
                    let mut k: usize = 0;
                    while k < way.1.len()
                        invariant
                            0 <= k <= way.1@.len(),
                            ways[j as int] == (way.0@, way.1.deep_view()),
                            normalize_move(way.0@) == Some(dir@),
                            want == way_moves(source@, ways[j as int]),
                            exit_items_view(r@) == mid + want.take(k as int),
                        decreases way.1@.len() - k,
                    {
                        let ghost before = exit_items_view(r@);
                        r.push(ExitItem {
                            source: source.clone(),
                            direction: dir.clone(),
                            destination: way.1[k].clone(),
                        });
                        assert(exit_items_view(r@) =~= before.push(want[k as int]));
                        assert(want.take(k + 1) =~= want.take(k as int).push(want[k as int]));
                        k += 1;
                    }
                    assert(want.take(way.1@.len() as int) =~= want);
                },
                None => {
                    assert(exit_items_view(r@) =~= mid + way_moves(source@, ways[j as int]));
                },
            }
            assert(ways.take(j + 1).drop_last() =~= ways.take(j as int));
            assert(ways.take(j + 1).last() == ways[j as int]);
            assert(exit_items_view(r@) =~= head + node_moves(source@, ways.take(j + 1)));
            j += 1;
        }
        assert(ways.take(node.exits@.len() as int) =~= ways);
        assert(exit_items_view(r@) =~= expected_moves(nv.take(i + 1)));
        i += 1;
    }
    assert(nv.take(nodes.entries@.len() as int) =~= nv);
    r
}

/// The places the ways out of an expected place lead to, paired with it, way by way.
pub open spec fn ways_pairs(source: Seq<char>, ways: Seq<(Seq<char>, Seq<Seq<char>>)>) -> Seq<
    (Seq<char>, Seq<char>),
>
    decreases ways.len(),
{
    if ways.len() == 0 {
        seq![]
    } else {
        ways_pairs(source, ways.drop_last()) + ways.last().1.map_values(
            |d: Seq<char>| (source, d),
        )
    }
}

/// The neighbouring pairs of an expected place: those it gives, or, where
/// it gives none, those its ways out lead to, each once.
pub open spec fn node_pairs(source: Seq<char>, n: MapNodeView) -> Seq<(Seq<char>, Seq<char>)> {
    if n.exits_to.len() == 0 {
        first_occurrences(ways_pairs(source, n.exits))
    } else {
        n.exits_to.map_values(|d: Seq<char>| (source, d))
    }
}

/// The neighbouring pairs of the expected map, place by place.
pub open spec fn all_node_pairs(nodes: Seq<(Seq<char>, MapNodeView)>) -> Seq<(Seq<char>, Seq<char>)>
    decreases nodes.len(),
{
    if nodes.len() == 0 {
        seq![]
    } else {
        all_node_pairs(nodes.drop_last()) + node_pairs(nodes.last().0, nodes.last().1)
    }
}

/// The neighbouring pairs of the expected map, each once.
pub open spec fn expected_pairs(nodes: Seq<(Seq<char>, MapNodeView)>) -> Seq<(Seq<char>, Seq<char>)> {
    first_occurrences(all_node_pairs(nodes))
}

fn push_pairs(r: &mut Vec<ExitToItem>, source: &String, destinations: &Vec<String>)
    ensures
        exit_to_view(final(r)@) == exit_to_view(old(r)@) + destinations.deep_view().map_values(
            |d: Seq<char>| (source@, d),
        ),
{
    let ghost start = exit_to_view(r@);
    let ghost want = destinations.deep_view().map_values(|d: Seq<char>| (source@, d));
    let mut k: usize = 0;
    while k < destinations.len()
        invariant
            0 <= k <= destinations@.len(),
            start == exit_to_view(old(r)@),
            want == destinations.deep_view().map_values(|d: Seq<char>| (source@, d)),
            exit_to_view(r@) == start + want.take(k as int),
        decreases destinations@.len() - k,
    {
        let ghost before = exit_to_view(r@);
        r.push(ExitToItem { source: source.clone(), destination: destinations[k].clone() });
        assert(exit_to_view(r@) =~= before.push(want[k as int]));
        assert(want.take(k + 1) =~= want.take(k as int).push(want[k as int]));
        k += 1;
    }
    assert(want.take(destinations@.len() as int) =~= want);
}

/// The neighbouring pairs of an expected place.
fn node_exit_to_items(source: &String, node: &MapNode) -> (r: Vec<ExitToItem>)
    ensures
        exit_to_view(r@) == node_pairs(source@, node@),
{
    let mut r: Vec<ExitToItem> = Vec::new();
    if node.exits_to.len() > 0 {
        push_pairs(&mut r, source, &node.exits_to);
        assert(exit_to_view(r@) =~= node_pairs(source@, node@));
        return r;
    }
    let ghost ways = node@.exits;
    let mut j: usize = 0;
    assert(ways.take(0) =~= Seq::<(Seq<char>, Seq<Seq<char>>)>::empty());
    assert(exit_to_view(r@) =~= Seq::<(Seq<char>, Seq<char>)>::empty());
    while j < node.exits.len()
        invariant
            0 <= j <= node.exits@.len(),
            ways == node@.exits,
            ways.len() == node.exits@.len(),
            exit_to_view(r@) == ways_pairs(source@, ways.take(j as int)),
        decreases node.exits@.len() - j,
    {
        let ghost before = exit_to_view(r@);
        assert(ways[j as int] == (node.exits@[j as int].0@, node.exits@[j as int].1.deep_view()));
        push_pairs(&mut r, source, &node.exits[j].1);
        assert(ways.take(j + 1).drop_last() =~= ways.take(j as int));
        assert(ways.take(j + 1).last() == ways[j as int]);
        j += 1;
    }
    assert(ways.take(node.exits@.len() as int) =~= ways);
    unique_exit_to_items(r)
}

/// The neighbouring pairs of the expected map, each once, in order of first
/// occurrence: for each place those it gives, or, where it gives none,
/// those its ways out lead to.
pub fn expected_exit_to_items(nodes: &KeyedTable<MapNode>) -> (r: Vec<ExitToItem>)
    ensures
        exit_to_view(r@) == expected_pairs(nodes@),
{
    let ghost nv = nodes@;
    let mut all: Vec<ExitToItem> = Vec::new();
    let mut i: usize = 0;
    assert(nv.take(0) =~= Seq::<(Seq<char>, MapNodeView)>::empty());
    assert(exit_to_view(all@) =~= Seq::<(Seq<char>, Seq<char>)>::empty());
    while i < nodes.entries.len()
        invariant
            0 <= i <= nodes.entries@.len(),
            nv == nodes@,
            nv.len() == nodes.entries@.len(),
            exit_to_view(all@) == all_node_pairs(nv.take(i as int)),
        decreases nodes.entries@.len() - i,
    {
        let ghost before = exit_to_view(all@);
        let mut items = node_exit_to_items(&nodes.entries[i].0, &nodes.entries[i].1);
        assert(nv[i as int] == (nodes.entries@[i as int].0@, nodes.entries@[i as int].1@));
        all.append(&mut items);
        assert(exit_to_view(all@) =~= before + node_pairs(nv[i as int].0, nv[i as int].1));
        assert(nv.take(i + 1).drop_last() =~= nv.take(i as int));
        assert(nv.take(i + 1).last() == nv[i as int]);
        i += 1;
    }
    assert(nv.take(nodes.entries@.len() as int) =~= nv);
    unique_exit_to_items(all)
}


/// A location of a saved world, as an evaluation reads it back.
#[derive(Clone, Debug)]
pub struct SavedPlace {
    pub title: Option<String>,
    pub description: Option<String>,
    /// Each exit's direction, with its destination where one is known.
    pub exits: Vec<(String, Option<String>)>,
}

pub struct SavedPlaceView {
    pub title: Option<Seq<char>>,
    pub description: Option<Seq<char>>,
    pub exits: Seq<(Seq<char>, Option<Seq<char>>)>,
}

impl View for SavedPlace {
    type V = SavedPlaceView;

    open spec fn view(&self) -> SavedPlaceView {
        SavedPlaceView {
            title: opt_view(self.title),
            description: opt_view(self.description),
            exits: self.exits@.map_values(|e: (String, Option<String>)| (e.0@, opt_view(e.1))),
        }
    }
}

/// The id a saved location is scored under: with both a title and a
/// description, that of the expected place with the same normalized ones,
/// if any; else its own key.
pub open spec fn saved_place_id(ids: Seq<(Seq<char>, Seq<char>, Seq<char>)>, key: Seq<char>, p: SavedPlaceView) -> Seq<char> {
    match (p.title, p.description) {
        (Some(t), Some(d)) => place_id(ids, key, t, d),
        _ => key,
    }
}

/// The id a destination of a saved world is scored under.
pub open spec fn saved_destination_id(
    nodes: Seq<(Seq<char>, MapNodeView)>,
    ids: Seq<(Seq<char>, Seq<char>, Seq<char>)>,
    places: Seq<(Seq<char>, SavedPlaceView)>,
    destination: Seq<char>,
) -> Seq<char> {
    if has_key(nodes, destination) {
        destination
    } else {
        match lookup(places, destination) {
            Some(p) => saved_place_id(ids, destination, p),
            None => destination,
        }
    }
}

/// The moves of a saved location's exits: those with a movement direction
/// and a known destination.
pub open spec fn saved_exits_moves(
    nodes: Seq<(Seq<char>, MapNodeView)>,
    ids: Seq<(Seq<char>, Seq<char>, Seq<char>)>,
    places: Seq<(Seq<char>, SavedPlaceView)>,
    source: Seq<char>,
    exits: Seq<(Seq<char>, Option<Seq<char>>)>,
) -> Seq<(Seq<char>, Seq<char>, Seq<char>)>
    decreases exits.len(),
{
    if exits.len() == 0 {
        seq![]
    } else {
        let rest = saved_exits_moves(nodes, ids, places, source, exits.drop_last());
        match (normalize_move(exits.last().0), exits.last().1) {
            (Some(dir), Some(d)) => rest.push((source, dir, saved_destination_id(nodes, ids, places, d))),
            _ => rest,
        }
    }
}

/// The moves of a list of saved locations, each scored under its id.
pub open spec fn saved_places_moves(
    nodes: Seq<(Seq<char>, MapNodeView)>,
    ids: Seq<(Seq<char>, Seq<char>, Seq<char>)>,
    places: Seq<(Seq<char>, SavedPlaceView)>,
    prefix: Seq<(Seq<char>, SavedPlaceView)>,
) -> Seq<(Seq<char>, Seq<char>, Seq<char>)>
    decreases prefix.len(),
{
    if prefix.len() == 0 {
        seq![]
    } else {
        let (key, p) = prefix.last();
        saved_places_moves(nodes, ids, places, prefix.drop_last()) + saved_exits_moves(
            nodes,
            ids,
            places,
            saved_place_id(ids, key, p),
            p.exits,
        )
    }
}

/// The moves of a saved world, scored against the expected places.
pub open spec fn saved_world_moves(places: Seq<(Seq<char>, SavedPlaceView)>, nodes: Seq<(Seq<char>, MapNodeView)>) -> Seq<
    (Seq<char>, Seq<char>, Seq<char>),
> {
    saved_places_moves(nodes, node_index(nodes), places, places)
}

/// The id a saved location is scored under.
pub fn node_id_for_world_state_location(key: &str, place: &SavedPlace, ids: &Vec<(String, String, String)>) -> (r: String)
    ensures
        r@ == saved_place_id(triples_view(ids@), key@, place@),
{
    match (&place.title, &place.description) {
        (Some(t), Some(d)) => node_id_for_place(key, t.as_str(), d.as_str(), ids),
        _ => key.to_owned(),
    }
}

/// The id a destination of a saved world is scored under.
pub fn node_id_for_world_state_destination(
    destination: &str,
    places: &KeyedTable<SavedPlace>,
    nodes: &KeyedTable<MapNode>,
    ids: &Vec<(String, String, String)>,
) -> (r: String)
    ensures
        r@ == saved_destination_id(nodes@, triples_view(ids@), places@, destination@),
{
    if nodes.contains_key(destination) {
        return destination.to_owned();
    }
    match places.get(destination) {
        Some(place) => node_id_for_world_state_location(destination, place, ids),
        None => destination.to_owned(),
    }
}

/// The moves of a saved world: each exit with a movement direction and a
/// known destination, from the id of its location to the id of its destination.
pub fn world_state_exit_items(places: &KeyedTable<SavedPlace>, nodes: &KeyedTable<MapNode>) -> (r: Vec<ExitItem>)
    ensures
        exit_items_view(r@) == saved_world_moves(places@, nodes@),
{
    let ids = node_ids_by_location(nodes);
    let ghost iv = triples_view(ids@);
    let ghost pv = places@;
    let mut r: Vec<ExitItem> = Vec::new();
    let mut i: usize = 0;
    assert(pv.take(0) =~= Seq::<(Seq<char>, SavedPlaceView)>::empty());
    while i < places.entries.len()
        invariant
            0 <= i <= places.entries@.len(),
            pv == places@,
            pv.len() == places.entries@.len(),
            iv == triples_view(ids@),
            iv == node_index(nodes@),
            exit_items_view(r@) == saved_places_moves(nodes@, iv, pv, pv.take(i as int)),
        decreases places.entries@.len() - i,
    {
        let key = &places.entries[i].0;
        let place = &places.entries[i].1;
        let source = node_id_for_world_state_location(key.as_str(), place, &ids);
        let ghost exits = place@.exits;
        let ghost head = exit_items_view(r@);
        assert(pv[i as int] == (key@, place@));
        assert(pv.take(i + 1).drop_last() =~= pv.take(i as int));
        assert(pv.take(i + 1).last() == pv[i as int]);
        let mut j: usize = 0;
        assert(exits.take(0) =~= Seq::<(Seq<char>, Option<Seq<char>>)>::empty());
        assert(exit_items_view(r@) =~= head + saved_exits_moves(nodes@, iv, pv, source@, exits.take(0)));
        while j < place.exits.len()
            invariant
                0 <= j <= place.exits@.len(),
                exits == place@.exits,
                exits.len() == place.exits@.len(),
                pv == places@,
                iv == triples_view(ids@),
                exit_items_view(r@) == head + saved_exits_moves(nodes@, iv, pv, source@, exits.take(j as int)),
            decreases place.exits@.len() - j,
        {
            let exit = &place.exits[j];
            assert(exits[j as int] == (exit.0@, opt_view(exit.1)));
            assert(exits.take(j + 1).drop_last() =~= exits.take(j as int));
            assert(exits.take(j + 1).last() == exits[j as int]);
            let ghost before = exit_items_view(r@);
            let direction = normalize_move_command(exit.0.as_str());
            match (direction, &exit.1) {
                (Some(dir), Some(dest)) => {
                    let d = node_id_for_world_state_destination(dest.as_str(), places, nodes, &ids);
                    r.push(ExitItem { source: source.clone(), direction: dir, destination: d });
                    assert(exit_items_view(r@) =~= before.push(exit_items_view(r@).last()));
                },
                _ => {},
            }
            assert(exit_items_view(r@) =~= head + saved_exits_moves(nodes@, iv, pv, source@, exits.take(j + 1)));
            j += 1;
        }
        assert(exits.take(place.exits@.len() as int) =~= exits);
        assert(exit_items_view(r@) =~= saved_places_moves(nodes@, iv, pv, pv.take(i + 1)));
        i += 1;
    }
    assert(pv.take(places.entries@.len() as int) =~= pv);
    r
}


/// The pairs of `items` that are (`shared`) or are not (`!shared`) among `other`, in order.
pub open spec fn pairs_where(items: Seq<(Seq<char>, Seq<char>)>, other: Seq<(Seq<char>, Seq<char>)>, shared: bool) -> Seq<
    (Seq<char>, Seq<char>),
>
    decreases items.len(),
{
    if items.len() == 0 {
        seq![]
    } else {
        let rest = pairs_where(items.drop_last(), other, shared);
        if other.contains(items.last()) == shared {
            rest.push(items.last())
        } else {
            rest
        }
    }
}

/// How the neighbouring pairs of a built map compare with the expected ones.
#[derive(Clone, Debug)]
pub struct ExitToDiff {
    /// Expected pairs the built map has.
    pub shared_by_both: Vec<ExitToItem>,
    /// Expected pairs the built map lacks.
    pub missing_in_actual: Vec<ExitToItem>,
    /// Pairs of the built map that are not expected.
    pub extra_in_actual: Vec<ExitToItem>,
}

fn slice_contains_pair(items: &[ExitToItem], source: &String, destination: &String) -> (r: bool)
    ensures
        r == exit_to_view(items@).contains((source@, destination@)),
{
    let ghost v = exit_to_view(items@);
    let mut i: usize = 0;
    while i < items.len()
        invariant
            0 <= i <= items@.len(),
            v == exit_to_view(items@),
            forall|k: int| 0 <= k < i ==> #[trigger] v[k] != (source@, destination@),
        decreases items@.len() - i,
    {
        if items[i].source == *source && items[i].destination == *destination {
            assert(v[i as int] == (source@, destination@));
            return true;
        }
        i += 1;
    }
    false
}

/// The pairs of `items`, each once, that are (or are not) among `other`.
fn select_pairs(items: &[ExitToItem], other: &[ExitToItem], shared: bool) -> (r: Vec<ExitToItem>)
    ensures
        exit_to_view(r@) == pairs_where(first_occurrences(exit_to_view(items@)), exit_to_view(other@), shared),
{
    let ghost iv = exit_to_view(items@);
    let ghost ov = exit_to_view(other@);
    let mut seen: Vec<ExitToItem> = Vec::new();
    let mut r: Vec<ExitToItem> = Vec::new();
    let mut i: usize = 0;
    assert(iv.take(0) =~= Seq::<(Seq<char>, Seq<char>)>::empty());
    assert(exit_to_view(seen@) =~= Seq::<(Seq<char>, Seq<char>)>::empty());
    assert(exit_to_view(r@) =~= Seq::<(Seq<char>, Seq<char>)>::empty());
    while i < items.len()
        invariant
            0 <= i <= items@.len(),
            iv == exit_to_view(items@),
            ov == exit_to_view(other@),
            exit_to_view(seen@) == first_occurrences(iv.take(i as int)),
            exit_to_view(r@) == pairs_where(exit_to_view(seen@), ov, shared),
        decreases items@.len() - i,
    {
        let item = &items[i];
        assert(iv.take(i + 1).drop_last() =~= iv.take(i as int));
        assert(iv.take(i + 1).last() == iv[i as int]);
        assert(iv[i as int] == (item.source@, item.destination@));
        proof {
            lemma_first_occurrences_members(iv.take(i as int));
        }
        if !slice_contains_pair(seen.as_slice(), &item.source, &item.destination) {
            let ghost seen_before = exit_to_view(seen@);
            let ghost r_before = exit_to_view(r@);
            seen.push(ExitToItem { source: item.source.clone(), destination: item.destination.clone() });
            assert(exit_to_view(seen@) =~= seen_before.push(iv[i as int]));
            assert(exit_to_view(seen@).drop_last() =~= seen_before);
            if slice_contains_pair(other, &item.source, &item.destination) == shared {
                r.push(ExitToItem { source: item.source.clone(), destination: item.destination.clone() });
                assert(exit_to_view(r@) =~= r_before.push(iv[i as int]));
            }
        }
        i += 1;
    }
    assert(iv.take(items@.len() as int) =~= iv);
    r
}

/// Compares the neighbouring pairs of a built map with the expected ones:
/// the expected pairs it has and lacks, and its pairs that are not expected,
/// each once, in order of first occurrence.
pub fn exit_to_diff(expected: &[ExitToItem], actual: &[ExitToItem]) -> (r: ExitToDiff)
    ensures
        exit_to_view(r.shared_by_both@) == pairs_where(
            first_occurrences(exit_to_view(expected@)),
            exit_to_view(actual@),
            true,
        ),
        exit_to_view(r.missing_in_actual@) == pairs_where(
            first_occurrences(exit_to_view(expected@)),
            exit_to_view(actual@),
            false,
        ),
        exit_to_view(r.extra_in_actual@) == pairs_where(
            first_occurrences(exit_to_view(actual@)),
            exit_to_view(expected@),
            false,
        ),
{
    ExitToDiff {
        shared_by_both: select_pairs(expected, actual, true),
        missing_in_actual: select_pairs(expected, actual, false),
        extra_in_actual: select_pairs(actual, expected, false),
    }
}


/// A place of the final map: for each move name, the places reached and how often.
#[derive(Clone, Debug)]
pub struct FinalMapPlace {
    pub title: String,
    pub description: String,
    pub exits: KeyedTable<KeyedTable<usize>>,
}

pub struct FinalPlaceView {
    pub title: Seq<char>,
    pub description: Seq<char>,
    pub exits: Seq<(Seq<char>, Seq<(Seq<char>, usize)>)>,
}

impl View for FinalMapPlace {
    type V = FinalPlaceView;

    open spec fn view(&self) -> FinalPlaceView {
        FinalPlaceView { title: self.title@, description: self.description@, exits: self.exits@ }
    }
}

/// The counts with `key` present, at zero where it was missing.
pub open spec fn count_touched(t: Seq<(Seq<char>, usize)>, key: Seq<char>) -> Seq<(Seq<char>, usize)> {
    match lookup(t, key) {
        Some(_) => t,
        None => table_insert(t, key, 0usize),
    }
}

/// The counts with `c` added under `key` (a missing key starting at zero);
/// none where the count would pass the largest `usize`.
pub open spec fn count_added(t: Seq<(Seq<char>, usize)>, key: Seq<char>, c: usize) -> Option<
    Seq<(Seq<char>, usize)>,
> {
    match lookup(t, key) {
        Some(old) => if old + c <= usize::MAX {
            Some(table_insert(t, key, (old + c) as usize))
        } else {
            None
        },
        None => Some(table_insert(t, key, c)),
    }
}

/// The counts with each counted transition added under its destination's id.
pub open spec fn transitions_added(
    nodes: Seq<(Seq<char>, MapNodeView)>,
    ids: Seq<(Seq<char>, Seq<char>, Seq<char>)>,
    world: WorldView,
    t: Seq<(Seq<char>, usize)>,
    transitions: Seq<(Seq<char>, usize)>,
) -> Option<Seq<(Seq<char>, usize)>>
    decreases transitions.len(),
{
    if transitions.len() == 0 {
        Some(t)
    } else {
        match transitions_added(nodes, ids, world, t, transitions.drop_last()) {
            Some(t1) => count_added(
                t1,
                destination_id(nodes, ids, world, transitions.last().0),
                transitions.last().1,
            ),
            None => None,
        }
    }
}

/// A place's moves with one more exit recorded: under the exit's move name,
/// its counted transitions, or, when none was counted, its recorded
/// destination at zero. Exits whose direction is no move are left out.
pub open spec fn exit_recorded(
    nodes: Seq<(Seq<char>, MapNodeView)>,
    ids: Seq<(Seq<char>, Seq<char>, Seq<char>)>,
    world: WorldView,
    moves: Seq<(Seq<char>, Seq<(Seq<char>, usize)>)>,
    e: ExitView,
) -> Option<Seq<(Seq<char>, Seq<(Seq<char>, usize)>)>> {
    match map_move_name(e.direction) {
        None => Some(moves),
        Some(name) => {
            let dests = match lookup(moves, name) {
                Some(d) => d,
                None => seq![],
            };
            let updated = if e.transition_counts.len() == 0 {
                match e.destination {
                    Some(d) => Some(count_touched(dests, destination_id(nodes, ids, world, d))),
                    None => Some(dests),
                }
            } else {
                transitions_added(nodes, ids, world, dests, e.transition_counts)
            };
            match updated {
                Some(u) => Some(table_insert(moves, name, u)),
                None => None,
            }
        },
    }
}

/// A place's moves after its exits, in order.
pub open spec fn exits_recorded(
    nodes: Seq<(Seq<char>, MapNodeView)>,
    ids: Seq<(Seq<char>, Seq<char>, Seq<char>)>,
    world: WorldView,
    exits: Seq<ExitView>,
) -> Option<Seq<(Seq<char>, Seq<(Seq<char>, usize)>)>>
    decreases exits.len(),
{
    if exits.len() == 0 {
        Some(seq![])
    } else {
        match exits_recorded(nodes, ids, world, exits.drop_last()) {
            Some(m) => exit_recorded(nodes, ids, world, m, exits.last()),
            None => None,
        }
    }
}

/// The final map of a list of built locations: each under its id (a later
/// location replacing an earlier one with the same id), with its title,
/// description and moves; none where a count would pass the largest `usize`.
pub open spec fn places_recorded(
    nodes: Seq<(Seq<char>, MapNodeView)>,
    ids: Seq<(Seq<char>, Seq<char>, Seq<char>)>,
    world: WorldView,
    locs: Seq<(Seq<char>, LocationView)>,
) -> Option<Seq<(Seq<char>, FinalPlaceView)>>
    decreases locs.len(),
{
    if locs.len() == 0 {
        Some(seq![])
    } else {
        let (key, loc) = locs.last();
        match (places_recorded(nodes, ids, world, locs.drop_last()), exits_recorded(nodes, ids, world, loc.exits)) {
            (Some(m), Some(moves)) => Some(
                table_insert(
                    m,
                    place_id(ids, key, loc.title, loc.description),
                    FinalPlaceView { title: loc.title, description: loc.description, exits: moves },
                ),
            ),
            _ => None,
        }
    }
}

/// The final map of the built world, scored against the expected places.
pub open spec fn final_map(world: WorldView, nodes: Seq<(Seq<char>, MapNodeView)>) -> Option<
    Seq<(Seq<char>, FinalPlaceView)>,
> {
    places_recorded(nodes, node_index(nodes), world, world.locations)
}

fn copy_counts(t: &KeyedTable<usize>) -> (r: KeyedTable<usize>)
    ensures
        r@ == t@,
{
    let mut r: KeyedTable<usize> = KeyedTable::new();
    let mut i: usize = 0;
    while i < t.entries.len()
        invariant
            0 <= i <= t.entries@.len(),
            r@ == t@.take(i as int),
        decreases t.entries@.len() - i,
    {
        let ghost before = r@;
        r.entries.push((t.entries[i].0.clone(), t.entries[i].1));
        assert(r@ =~= before.push(t@[i as int]));
        assert(t@.take(i + 1) =~= t@.take(i as int).push(t@[i as int]));
        i += 1;
    }
    assert(t@.take(t.entries@.len() as int) =~= t@);
    r
}

fn add_count(t: &mut KeyedTable<usize>, key: String, c: usize) -> (ok: bool)
    ensures
        ok == count_added(old(t)@, key@, c) is Some,
        ok ==> final(t)@ == count_added(old(t)@, key@, c).unwrap(),
{
    let current = match t.get(key.as_str()) {
        Some(v) => *v,
        None => {
            t.insert(key, c);
            return true;
        },
    };
    if current > usize::MAX - c {
        return false;
    }
    t.insert(key, current + c);
    true
}

/// Records one exit of a built location in that place's moves.
fn record_final_exit(
    moves: &mut KeyedTable<KeyedTable<usize>>,
    exit: &Exit,
    world: &WorldModel,
    nodes: &KeyedTable<MapNode>,
    ids: &Vec<(String, String, String)>,
) -> (ok: bool)
    ensures
        ok == exit_recorded(nodes@, triples_view(ids@), world@, old(moves)@, exit@) is Some,
        ok ==> final(moves)@ == exit_recorded(nodes@, triples_view(ids@), world@, old(moves)@, exit@).unwrap(),
{
    let ghost iv = triples_view(ids@);
    let name = match final_map_move_command(exit.direction.as_str()) {
        Some(n) => n,
        None => return true,
    };
    let mut dests = match moves.get(name.as_str()) {
        Some(d) => copy_counts(d),
        None => KeyedTable::new(),
    };
    assert(dests@ == match lookup(moves@, name@) {
        Some(d) => d,
        None => Seq::<(Seq<char>, usize)>::empty(),
    });
    let counts = &exit.transition_counts;
    if counts.entries.len() == 0 {
        match &exit.destination {
            Some(dest) => {
                let id = node_id_for_world_model_destination(dest.as_str(), world, nodes, ids);
                proof {
                    lemma_key_index_bounds(dests@, id@);
                }
                if !dests.contains_key(id.as_str()) {
                    dests.insert(id, 0);
                }
            },
            None => {},
        }
    } else {
        let ghost start = dests@;
        let mut k: usize = 0;
        while k < counts.entries.len()
            invariant
                0 <= k <= counts.entries@.len(),
                counts@ == exit@.transition_counts,
                counts@.len() == counts.entries@.len(),
                iv == triples_view(ids@),
                map_move_name(exit@.direction) == Some(name@),
                moves@ == old(moves)@,
                start == match lookup(old(moves)@, name@) {
                    Some(d) => d,
                    None => Seq::<(Seq<char>, usize)>::empty(),
                },
                transitions_added(nodes@, iv, world@, start, counts@.take(k as int)) == Some(dests@),
            decreases counts.entries@.len() - k,
        {
            assert(counts@.take(k + 1).drop_last() =~= counts@.take(k as int));
            assert(counts@.take(k + 1).last() == counts@[k as int]);
            assert(counts@[k as int] == (counts.entries@[k as int].0@, counts.entries@[k as int].1));
            let id = node_id_for_world_model_destination(counts.entries[k].0.as_str(), world, nodes, ids);
            if !add_count(&mut dests, id, counts.entries[k].1) {
                proof {
                    lemma_transitions_added_stays_none(nodes@, iv, world@, start, counts@, k as int + 1);
                }
                return false;
            }
            k += 1;
        }
        assert(counts@.take(counts.entries@.len() as int) =~= counts@);
    }
    moves.insert(name, dests);
    true
}

/// The moves of one built location in the final map.
fn final_place_moves(
    location: &Location,
    world: &WorldModel,
    nodes: &KeyedTable<MapNode>,
    ids: &Vec<(String, String, String)>,
) -> (r: Option<KeyedTable<KeyedTable<usize>>>)
    ensures
        r is Some == exits_recorded(nodes@, triples_view(ids@), world@, location@.exits) is Some,
        r matches Some(m) ==> m@ == exits_recorded(nodes@, triples_view(ids@), world@, location@.exits).unwrap(),
{
    let ghost iv = triples_view(ids@);
    let ghost exits = location@.exits;
    let mut moves: KeyedTable<KeyedTable<usize>> = KeyedTable::new();
    let mut j: usize = 0;
    assert(exits.take(0) =~= Seq::<ExitView>::empty());
    while j < location.exits.len()
        invariant
            0 <= j <= location.exits@.len(),
            exits == location@.exits,
            exits.len() == location.exits@.len(),
            iv == triples_view(ids@),
            exits_recorded(nodes@, iv, world@, exits.take(j as int)) == Some(moves@),
        decreases location.exits@.len() - j,
    {
        assert(exits.take(j + 1).drop_last() =~= exits.take(j as int));
        assert(exits.take(j + 1).last() == location.exits@[j as int]@);
        if !record_final_exit(&mut moves, &location.exits[j], world, nodes, ids) {
            proof {
                lemma_exits_recorded_stays_none(nodes@, iv, world@, exits, j as int + 1);
            }
            return None;
        }
        j += 1;
    }
    assert(exits.take(location.exits@.len() as int) =~= exits);
    Some(moves)
}

/// The final map of the built world: each location under the id it is
/// scored with (a later location replacing an earlier one with the same
/// id), with its title and description, and for each move name the ids of
/// the places reached and how often; none where a count would pass the
/// largest `usize`.
pub fn final_map_artifact(world: &WorldModel, nodes: &KeyedTable<MapNode>) -> (r: Option<KeyedTable<FinalMapPlace>>)
    ensures
        r is Some == final_map(world@, nodes@) is Some,
        r matches Some(m) ==> m@ == final_map(world@, nodes@).unwrap(),
{
    let ids = node_ids_by_location(nodes);
    let ghost iv = triples_view(ids@);
    let ghost locs = world@.locations;
    let mut out: KeyedTable<FinalMapPlace> = KeyedTable::new();
    let mut i: usize = 0;
    assert(locs.take(0) =~= Seq::<(Seq<char>, LocationView)>::empty());
    while i < world.locations.entries.len()
        invariant
            0 <= i <= world.locations.entries@.len(),
            locs == world@.locations,
            locs.len() == world.locations.entries@.len(),
            iv == triples_view(ids@),
            iv == node_index(nodes@),
            places_recorded(nodes@, iv, world@, locs.take(i as int)) == Some(out@),
        decreases world.locations.entries@.len() - i,
    {
        let key = &world.locations.entries[i].0;
        let location = &world.locations.entries[i].1;
        assert(locs[i as int] == (key@, location@));
        assert(locs.take(i + 1).drop_last() =~= locs.take(i as int));
        assert(locs.take(i + 1).last() == locs[i as int]);
        let source = node_id_for_world_model_location(key.as_str(), location, &ids);
        let moves = match final_place_moves(location, world, nodes, &ids) {
            Some(m) => m,
            None => {
                proof {
                    lemma_places_recorded_stays_none(nodes@, iv, world@, locs, i as int + 1);
                }
                return None;
            },
        };
        let place = FinalMapPlace {
            title: location.title.clone(),
            description: location.description.clone(),
            exits: moves,
        };
        out.insert(source, place);
        i += 1;
    }
    assert(locs.take(world.locations.entries@.len() as int) =~= locs);
    Some(out)
}

proof fn lemma_transitions_added_stays_none(
    nodes: Seq<(Seq<char>, MapNodeView)>,
    ids: Seq<(Seq<char>, Seq<char>, Seq<char>)>,
    world: WorldView,
    t: Seq<(Seq<char>, usize)>,
    transitions: Seq<(Seq<char>, usize)>,
    n: int,
)
    requires
        0 <= n <= transitions.len(),
        transitions_added(nodes, ids, world, t, transitions.take(n)) is None,
    ensures
        transitions_added(nodes, ids, world, t, transitions) is None,
    decreases transitions.len() - n,
{
    if n < transitions.len() {
        assert(transitions.take(n + 1).drop_last() =~= transitions.take(n));
        lemma_transitions_added_stays_none(nodes, ids, world, t, transitions, n + 1);
    } else {
        assert(transitions.take(n) =~= transitions);
    }
}

proof fn lemma_exits_recorded_stays_none(
    nodes: Seq<(Seq<char>, MapNodeView)>,
    ids: Seq<(Seq<char>, Seq<char>, Seq<char>)>,
    world: WorldView,
    exits: Seq<ExitView>,
    n: int,
)
    requires
        0 <= n <= exits.len(),
        exits_recorded(nodes, ids, world, exits.take(n)) is None,
    ensures
        exits_recorded(nodes, ids, world, exits) is None,
    decreases exits.len() - n,
{
    if n < exits.len() {
        assert(exits.take(n + 1).drop_last() =~= exits.take(n));
        lemma_exits_recorded_stays_none(nodes, ids, world, exits, n + 1);
    } else {
        assert(exits.take(n) =~= exits);
    }
}

proof fn lemma_places_recorded_stays_none(
    nodes: Seq<(Seq<char>, MapNodeView)>,
    ids: Seq<(Seq<char>, Seq<char>, Seq<char>)>,
    world: WorldView,
    locs: Seq<(Seq<char>, LocationView)>,
    n: int,
)
    requires
        0 <= n <= locs.len(),
        places_recorded(nodes, ids, world, locs.take(n)) is None,
    ensures
        places_recorded(nodes, ids, world, locs) is None,
    decreases locs.len() - n,
{
    if n < locs.len() {
        assert(locs.take(n + 1).drop_last() =~= locs.take(n));
        lemma_places_recorded_stays_none(nodes, ids, world, locs, n + 1);
    } else {
        assert(locs.take(n) =~= locs);
    }
}


// ---------------------------------------------------------------------------
// Overlap of two lists of items
// ---------------------------------------------------------------------------

proof fn lemma_overlap_step(l: Multiset<Seq<Seq<char>>>, r: Multiset<Seq<Seq<char>>>, rest: Multiset<Seq<Seq<char>>>, x: Seq<Seq<char>>)
    requires
        rest == r.difference_with(l),
    ensures
        rest.count(x) > 0 ==> rest.remove(x) =~= r.difference_with(l.insert(x)),
        rest.count(x) > 0 ==> l.insert(x).intersection_with(r).len() == l.intersection_with(r).len() + 1,
        rest.count(x) == 0 ==> rest =~= r.difference_with(l.insert(x)),
        rest.count(x) == 0 ==> l.insert(x).intersection_with(r) =~= l.intersection_with(r),
{
    broadcast use vstd::multiset::group_multiset_axioms, vstd::multiset::group_multiset_properties;

    if rest.count(x) > 0 {
        assert(l.insert(x).intersection_with(r) =~= l.intersection_with(r).insert(x));
    }
}

fn texts_equal(a: &Vec<String>, b: &Vec<String>) -> (r: bool)
    ensures
        r == (a.deep_view() == b.deep_view()),
{
    if a.len() != b.len() {
        assert(a.deep_view().len() != b.deep_view().len());
        return false;
    }
    let mut i: usize = 0;
    while i < a.len()
        invariant
            0 <= i <= a@.len() == b@.len(),
            forall|k: int| 0 <= k < i ==> a@[k]@ == #[trigger] b@[k]@,
        decreases a@.len() - i,
    {
        if a[i] != b[i] {
            assert(a.deep_view()[i as int] != b.deep_view()[i as int]);
            return false;
        }
        i += 1;
    }
    assert(a.deep_view() =~= b.deep_view());
    true
}

/// The items at the given positions, in order.
pub open spec fn at_positions(items: Seq<Seq<Seq<char>>>, positions: Seq<usize>) -> Seq<Seq<Seq<char>>> {
    positions.map_values(|p: usize| items[p as int])
}

/// How far two lists of items overlap, each item a tuple of texts: the size
/// of their multiset intersection (an item counted as often as it occurs in
/// both), and of their union (counted as often as it occurs in either).
pub fn overlap_counts(left: &Vec<Vec<String>>, right: &Vec<Vec<String>>) -> (r: (usize, usize))
    requires
        left@.len() + right@.len() <= usize::MAX,
    ensures
        r.0 == left.deep_view().to_multiset().intersection_with(right.deep_view().to_multiset()).len(),
        r.1 == left@.len() + right@.len() - r.0,
{
    let ghost lv = left.deep_view();
    let ghost rv = right.deep_view();
    let ghost rm = rv.to_multiset();
    let mut rest: Vec<usize> = Vec::new();
    let mut k: usize = 0;
    while k < right.len()
        invariant
            0 <= k <= right@.len(),
            rv == right.deep_view(),
            rest@.len() == k,
            forall|j: int| 0 <= j < k ==> #[trigger] rest@[j] == j,
        decreases right@.len() - k,
    {
        rest.push(k);
        k += 1;
    }
    assert(at_positions(rv, rest@) =~= rv);
    let mut shared: usize = 0;
    let mut i: usize = 0;
    proof {
        broadcast use vstd::multiset::group_multiset_axioms, vstd::multiset::group_multiset_properties;
        broadcast use vstd::seq_lib::group_to_multiset_ensures;

        assert(lv.take(0) =~= Seq::<Seq<Seq<char>>>::empty());
        assert(lv.take(0).to_multiset() =~= Multiset::<Seq<Seq<char>>>::empty());
        assert(rm.difference_with(Multiset::<Seq<Seq<char>>>::empty()) =~= rm);
        assert(Multiset::<Seq<Seq<char>>>::empty().intersection_with(rm) =~= Multiset::<Seq<Seq<char>>>::empty());
    }
    while i < left.len()
        invariant
            0 <= i <= left@.len(),
            lv == left.deep_view(),
            rv == right.deep_view(),
            rm == rv.to_multiset(),
            forall|j: int| 0 <= j < rest@.len() ==> #[trigger] rest@[j] < rv.len(),
            at_positions(rv, rest@).to_multiset() == rm.difference_with(lv.take(i as int).to_multiset()),
            shared == lv.take(i as int).to_multiset().intersection_with(rm).len(),
            shared <= i,
        decreases left@.len() - i,
    {
        let ghost lm = lv.take(i as int).to_multiset();
        let ghost x = lv[i as int];
        let ghost before = at_positions(rv, rest@);
        assert(lv.take(i + 1) =~= lv.take(i as int).push(x));
        proof {
            broadcast use vstd::seq_lib::group_to_multiset_ensures;

            lemma_overlap_step(lm, rm, before.to_multiset(), x);
            vstd::seq_lib::to_multiset_contains(before, x);
        }
        let mut p: usize = 0;
        let mut found = false;
        while p < rest.len()
            invariant_except_break
                !found,
            invariant
                0 <= p <= rest@.len(),
                rv == right.deep_view(),
                x == left.deep_view()[i as int],
                i < left@.len(),
                before == at_positions(rv, rest@),
                forall|j: int| 0 <= j < rest@.len() ==> #[trigger] rest@[j] < rv.len(),
                forall|j: int| 0 <= j < p ==> #[trigger] before[j] != x,
            ensures
                found ==> p < rest@.len() && before[p as int] == x,
                !found ==> p == rest@.len(),
                forall|j: int| 0 <= j < p ==> #[trigger] before[j] != x,
            decreases rest@.len() - p,
        {
            if texts_equal(&right[rest[p]], &left[i]) {
                found = true;
                break;
            }
            p += 1;
        }
        if found {
            assert(before[p as int] == x);
            rest.remove(p);
            assert(at_positions(rv, rest@) =~= before.remove(p as int));
            proof {
                broadcast use vstd::seq_lib::group_to_multiset_ensures;

                vstd::seq_lib::to_multiset_remove(before, p as int);
            }
            shared += 1;
        } else {
            assert(!before.contains(x));
        }
        i += 1;
    }
    assert(lv.take(left@.len() as int) =~= lv);
    (shared, left.len() + right.len() - shared)
}


/// The shared part of two lists is no larger than either list, so the
/// overlap never exceeds the union.
pub proof fn lemma_overlap_bounded(left: Seq<Seq<Seq<char>>>, right: Seq<Seq<Seq<char>>>)
    ensures
        left.to_multiset().intersection_with(right.to_multiset()).len() <= left.len(),
        left.to_multiset().intersection_with(right.to_multiset()).len() <= right.len(),
{
    broadcast use vstd::multiset::group_multiset_axioms, vstd::multiset::group_multiset_properties;
    broadcast use vstd::seq_lib::group_to_multiset_ensures;

    let l = left.to_multiset();
    let r = right.to_multiset();
    let i = l.intersection_with(r);
    assert(i.subset_of(l));
    assert(i.subset_of(r));
    assert(l.sub(i).len() == l.len() - i.len());
    assert(r.sub(i).len() == r.len() - i.len());
}

/// Two lists holding the same items, in whatever order, overlap completely:
/// the shared part and the union are both the whole list.
pub proof fn lemma_overlap_of_same_items(left: Seq<Seq<Seq<char>>>, right: Seq<Seq<Seq<char>>>)
    requires
        left.to_multiset() == right.to_multiset(),
    ensures
        left.to_multiset().intersection_with(right.to_multiset()).len() == left.len(),
        left.len() == right.len(),
{
    broadcast use vstd::multiset::group_multiset_axioms, vstd::multiset::group_multiset_properties;
    broadcast use vstd::seq_lib::group_to_multiset_ensures;

    let l = left.to_multiset();
    assert(l.intersection_with(l) =~= l);
}


/// How an overlap is reported: `numerator/denominator, built count, expected count`.
pub open spec fn overlap_info_text(numerator: nat, denominator: nat, actual_count: nat, expected_count: nat) -> Seq<char> {
    crate::text::decimal(numerator) + "/"@ + crate::text::decimal(denominator) + ", "@
        + crate::text::decimal(actual_count) + ", "@ + crate::text::decimal(expected_count)
}

/// The report of an overlap: its shared and union sizes, then the number of
/// items of the built and of the expected map.
pub fn overlap_info(numerator: usize, denominator: usize, actual_count: usize, expected_count: usize) -> (r: String)
    ensures
        r@ == overlap_info_text(
            numerator as nat,
            denominator as nat,
            actual_count as nat,
            expected_count as nat,
        ),
{
    let mut v = crate::text::decimal_chars(numerator);
    let slash = crate::text::chars_of("/");
    let sep = crate::text::chars_of(", ");
    crate::text::append_chars(&mut v, slash.as_slice());
    crate::text::append_chars(&mut v, crate::text::decimal_chars(denominator).as_slice());
    crate::text::append_chars(&mut v, sep.as_slice());
    crate::text::append_chars(&mut v, crate::text::decimal_chars(actual_count).as_slice());
    crate::text::append_chars(&mut v, sep.as_slice());
    crate::text::append_chars(&mut v, crate::text::decimal_chars(expected_count).as_slice());
    crate::text::string_of(v.as_slice())
}

} // verus!
