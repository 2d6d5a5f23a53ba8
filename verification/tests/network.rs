use openstreet::elements::Node;
use openstreet::elements::OsmMap;
use openstreet::elements::Way;
use openstreet::network::edge_weight;
use openstreet::network::StreetNetwork;
use openstreet::Error;

fn node_at(id: i64, lat: i64, lon: i64) -> Node {
    Node { id, lat, lon, tags: Vec::new() }
}

fn highway(id: i64, kind: &str, nodes: &[i64]) -> Way {
    Way {
        id,
        tags: vec![("highway".to_string(), kind.to_string())],
        nodes: nodes.to_vec(),
    }
}

/// A map with a simple primary path 1 - 2 - 3 and an unrelated footway.
fn simple_map() -> OsmMap {
    OsmMap::new(
        vec![
            node_at(1, 0, 0),
            node_at(2, 10_000, 0),
            node_at(3, 20_000, 0),
            node_at(4, 0, 10_000),
            node_at(5, 0, 20_000),
        ],
        vec![
            highway(100, "primary", &[1, 2, 3]),
            highway(101, "footway", &[4, 5]),
        ],
        None,
    )
}

#[test]
fn edge_weight_matches_the_formula() {
    // 10_000 fixed-point units are 0.001 degree: 0.001 * 111_120 metres
    assert_eq!(edge_weight(0, 0, 10_000, 0), 111);
    assert_eq!(edge_weight(0, 0, 0, 10_000), 111);
    // 3-4-5 triangle: sqrt(30_000^2 + 40_000^2) = 50_000 units
    assert_eq!(edge_weight(0, 0, 30_000, 40_000), 555);
    assert_eq!(edge_weight(5, 5, 5, 5), 0);
}

#[test]
fn shortest_path_follows_the_way() {
    let net = StreetNetwork::new(&simple_map(), vec!["primary"]).unwrap();
    assert_eq!(net.shortest_path(1, 3), vec![1, 2, 3]);
    assert_eq!(net.shortest_path(3, 1), vec![3, 2, 1]);
}

#[test]
fn shortest_path_to_unknown_id_is_empty() {
    let net = StreetNetwork::new(&simple_map(), vec!["primary"]).unwrap();
    assert_eq!(net.shortest_path(1, 999), Vec::<i64>::new());
    assert_eq!(net.shortest_path(999, 1), Vec::<i64>::new());
}

#[test]
fn filtered_out_ways_are_unreachable() {
    // the footway is excluded by the street-type filter, so its nodes
    // have no edges
    let net = StreetNetwork::new(&simple_map(), vec!["primary"]).unwrap();
    assert_eq!(net.shortest_path(4, 5), Vec::<i64>::new());
}

#[test]
fn empty_filter_takes_all_ways() {
    let net = StreetNetwork::new(&simple_map(), Vec::new()).unwrap();
    assert_eq!(net.shortest_path(4, 5), vec![4, 5]);
    assert_eq!(net.shortest_path(1, 3), vec![1, 2, 3]);
}

#[test]
fn shortest_path_picks_the_lighter_route() {
    let map = OsmMap::new(
        vec![
            node_at(1, 0, 0),
            node_at(2, 10_000, 0),
            node_at(3, 10_000, 10_000),
            node_at(4, 200_000, 0),
        ],
        vec![
            highway(100, "primary", &[1, 2, 3]),
            highway(101, "primary", &[1, 4, 3]),
        ],
        None,
    );
    let net = StreetNetwork::new(&map, vec!["primary"]).unwrap();
    assert_eq!(net.shortest_path(1, 3), vec![1, 2, 3]);
}

#[test]
fn single_node_and_empty_ways_contribute_no_edges() {
    let map = OsmMap::new(
        vec![node_at(1, 0, 0), node_at(2, 10_000, 0)],
        vec![
            highway(100, "primary", &[1]),
            highway(101, "primary", &[]),
            highway(102, "primary", &[1, 2]),
        ],
        None,
    );
    let net = StreetNetwork::new(&map, vec!["primary"]).unwrap();
    assert_eq!(net.shortest_path(1, 2), vec![1, 2]);
}

#[test]
fn zero_weight_segments_join_nothing() {
    // two nodes at the same coordinates: their segment has weight zero
    // and is skipped, leaving the pair unreachable
    let map = OsmMap::new(
        vec![node_at(1, 0, 0), node_at(2, 0, 0)],
        vec![highway(100, "primary", &[1, 2])],
        None,
    );
    let net = StreetNetwork::new(&map, vec!["primary"]).unwrap();
    assert_eq!(net.shortest_path(1, 2), Vec::<i64>::new());
}

#[test]
fn empty_selection_yields_an_empty_network() {
    let net = StreetNetwork::new(&simple_map(), vec!["motorway"]).unwrap();
    assert_eq!(net.shortest_path(1, 3), Vec::<i64>::new());
    assert_eq!(net.intersections(), Vec::<i64>::new());
    let restored = StreetNetwork::deserialize(net.serialize()).unwrap();
    assert_eq!(restored.shortest_path(1, 3), Vec::<i64>::new());
}

#[test]
fn way_with_unknown_node_is_malformed() {
    let map = OsmMap::new(
        vec![node_at(1, 0, 0)],
        vec![highway(100, "primary", &[1, 77])],
        None,
    );
    let r = StreetNetwork::new(&map, vec!["primary"]);
    assert!(matches!(r, Err(Error::MalformedInput)));
}

#[test]
fn intersections_are_nodes_shared_by_ways() {
    let map = OsmMap::new(
        vec![
            node_at(1, 0, 0),
            node_at(2, 10_000, 0),
            node_at(3, 20_000, 0),
            node_at(4, 10_000, 10_000),
        ],
        vec![
            highway(100, "primary", &[1, 2, 3]),
            highway(101, "primary", &[4, 2]),
        ],
        None,
    );
    let net = StreetNetwork::new(&map, vec!["primary"]).unwrap();
    assert_eq!(net.intersections(), vec![2]);
}

#[test]
fn closed_ring_endpoint_is_not_an_intersection() {
    // the ring's first and last node is the same id, but only one way
    // touches it: a way is recorded once per node, not per occurrence
    let map = OsmMap::new(
        vec![
            node_at(1, 0, 0),
            node_at(2, 10_000, 0),
            node_at(3, 10_000, 10_000),
        ],
        vec![highway(100, "primary", &[1, 2, 3, 1])],
        None,
    );
    let net = StreetNetwork::new(&map, vec!["primary"]).unwrap();
    assert_eq!(net.intersections(), Vec::<i64>::new());
}

#[test]
fn ring_endpoint_shared_with_another_way_is_an_intersection() {
    let map = OsmMap::new(
        vec![
            node_at(1, 0, 0),
            node_at(2, 10_000, 0),
            node_at(3, 10_000, 10_000),
            node_at(4, 20_000, 0),
        ],
        vec![
            highway(100, "primary", &[1, 2, 3, 1]),
            highway(101, "primary", &[1, 4]),
        ],
        None,
    );
    let net = StreetNetwork::new(&map, vec!["primary"]).unwrap();
    assert_eq!(net.intersections(), vec![1]);
}

#[test]
fn serialized_network_restores_identically() {
    let net = StreetNetwork::new(&simple_map(), vec!["primary"]).unwrap();
    let blob = net.serialize();
    let restored = StreetNetwork::deserialize(blob.clone()).unwrap();
    assert_eq!(restored.shortest_path(1, 3), net.shortest_path(1, 3));
    assert_eq!(restored.shortest_path(3, 1), net.shortest_path(3, 1));
    assert_eq!(restored.shortest_path(1, 999), net.shortest_path(1, 999));
    assert_eq!(restored.intersections(), net.intersections());
    // the restored network writes the very same blob back
    assert_eq!(restored.serialize(), blob);
}

#[test]
fn tags_survive_the_round_trip() {
    // a non-ascii tag value exercises the character codec
    let mut w = highway(100, "primary", &[1, 2]);
    w.tags.push(("name".to_string(), "Stra\u{df}e zum See \u{1F30A}".to_string()));
    let map = OsmMap::new(vec![node_at(1, 0, 0), node_at(2, 10_000, 0)], vec![w], None);
    let net = StreetNetwork::new(&map, vec!["primary"]).unwrap();
    let blob = net.serialize();
    let restored = StreetNetwork::deserialize(blob.clone()).unwrap();
    assert_eq!(restored.serialize(), blob);
}

#[test]
fn corrupt_blobs_are_rejected() {
    assert!(matches!(
        StreetNetwork::deserialize(vec![1, 2, 3]),
        Err(Error::SerializationFailure)
    ));
    assert!(matches!(
        StreetNetwork::deserialize(Vec::new()),
        Err(Error::SerializationFailure)
    ));
    let net = match StreetNetwork::new(&simple_map(), vec!["primary"]) {
        Ok(n) => n,
        Err(_) => panic!("build failed"),
    };
    let mut blob = net.serialize();
    blob.truncate(blob.len() - 1);
    assert!(matches!(
        StreetNetwork::deserialize(blob),
        Err(Error::SerializationFailure)
    ));
}

#[test]
fn building_twice_gives_the_same_network() {
    let n1 = StreetNetwork::new(&simple_map(), vec!["primary"]).unwrap();
    let n2 = StreetNetwork::new(&simple_map(), vec!["primary"]).unwrap();
    assert_eq!(n1.serialize(), n2.serialize());
}
