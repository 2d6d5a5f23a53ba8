use openstreet::elements::Way;

fn tagged_way(tags: &[(&str, &str)], nodes: &[i64]) -> Way {
    Way {
        id: 1234567,
        tags: tags.iter().map(|(k, v)| (k.to_string(), v.to_string())).collect(),
        nodes: nodes.to_vec(),
    }
}

#[test]
fn tagless_and_nonloop_is_not_polygon() {
    let way = Way { id: 1234567, tags: Vec::new(), nodes: Vec::new() };
    assert!(!way.is_polygon());
}

#[test]
fn closed_loop_is_polygon() {
    let way = Way { id: 1234567, tags: Vec::new(), nodes: vec![1, 2, 3, 26, 1] };
    assert!(way.is_polygon());
}

#[test]
fn detect_ruletype_all_with_tag_val() {
    let way = tagged_way(&[("building", "this_is_not_valid")], &[]);
    assert!(way.is_polygon());
}

#[test]
fn detect_ruletype_all_without_tag_val() {
    let way = tagged_way(&[("building", "")], &[]);
    assert!(way.is_polygon());
}

#[test]
fn whitelist_val_included_is_polygon() {
    assert!(tagged_way(&[("highway", "escape")], &[]).is_polygon());
    assert!(tagged_way(&[("highway", "services")], &[]).is_polygon());
    assert!(tagged_way(&[("waterway", "riverbank")], &[]).is_polygon());
    assert!(tagged_way(&[("barrier", "city_wall")], &[]).is_polygon());
    assert!(tagged_way(&[("barrier", "spikes")], &[]).is_polygon());
    assert!(tagged_way(&[("railway", "platform")], &[]).is_polygon());
    assert!(tagged_way(&[("power", "plant")], &[]).is_polygon());
}

#[test]
fn whitelist_val_not_included_is_not_polygon() {
    assert!(!tagged_way(&[("highway", "footway")], &[]).is_polygon());
    assert!(!tagged_way(&[("waterway", "river")], &[]).is_polygon());
    assert!(!tagged_way(&[("barrier", "fence")], &[]).is_polygon());
    assert!(!tagged_way(&[("railway", "rail")], &[]).is_polygon());
    assert!(!tagged_way(&[("power", "line")], &[]).is_polygon());
}

#[test]
fn whitelist_with_empty_val_is_not_polygon() {
    assert!(!tagged_way(&[("highway", "")], &[]).is_polygon());
}

#[test]
fn blacklist_val_included_is_not_polygon() {
    assert!(!tagged_way(&[("natural", "coastline")], &[]).is_polygon());
    assert!(!tagged_way(&[("natural", "cliff")], &[]).is_polygon());
    assert!(!tagged_way(&[("man_made", "cutline")], &[]).is_polygon());
    assert!(!tagged_way(&[("man_made", "pipeline")], &[]).is_polygon());
    assert!(!tagged_way(&[("aeroway", "taxiway")], &[]).is_polygon());
}

#[test]
fn blacklist_val_not_included_is_polygon() {
    assert!(tagged_way(&[("natural", "tree")], &[]).is_polygon());
    assert!(tagged_way(&[("man_made", "tower")], &[]).is_polygon());
    assert!(tagged_way(&[("aeroway", "runway")], &[]).is_polygon());
}

#[test]
fn nonloop_with_matching_tag_is_polygon() {
    assert!(tagged_way(&[("highway", "escape")], &[1, 2, 3]).is_polygon());
}

#[test]
fn all_mode_rule_keys_make_polygons() {
    let all_keys = [
        "building",
        "landuse",
        "amenity",
        "leisure",
        "area",
        "boundary",
        "place",
        "shop",
        "tourism",
        "historic",
        "public_transport",
        "office",
        "building:part",
        "military",
        "ruins",
        "area:highway",
        "craft",
        "golf",
    ];
    for key in all_keys {
        assert!(tagged_way(&[(key, "anything")], &[]).is_polygon(), "key {}", key);
    }
}

#[test]
fn single_node_way_is_a_closed_ring() {
    // one node is its own first and last: a degenerate closed ring
    let way = Way { id: 1234567, tags: Vec::new(), nodes: vec![1] };
    assert!(way.is_polygon());
}

#[test]
fn open_ended_tagless_way_is_not_polygon() {
    let way = Way { id: 1234567, tags: Vec::new(), nodes: vec![1, 2, 3] };
    assert!(!way.is_polygon());
}

#[test]
fn nodes_returns_the_sequence_in_order() {
    let way = Way { id: 1, tags: Vec::new(), nodes: vec![5, 4, 4, 3] };
    assert_eq!(way.nodes(), vec![5, 4, 4, 3]);
}

#[test]
fn unknown_tag_key_is_not_polygon() {
    assert!(!tagged_way(&[("name", "Main Street")], &[1, 2]).is_polygon());
}
