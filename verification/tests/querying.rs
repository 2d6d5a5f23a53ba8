use openstreet::elements::Bounds;
use openstreet::elements::Node;
use openstreet::elements::OsmMap;
use openstreet::elements::Way;
use openstreet::queries::Builder;
use openstreet::queries::FilterQuery;
use openstreet::queries::QueryBuilder;
use openstreet::queries::TaggableElement;
use openstreet::Error;

fn street(id: i64, highway: &str, nodes: &[i64]) -> Way {
    Way {
        id,
        tags: vec![("highway".to_string(), highway.to_string())],
        nodes: nodes.to_vec(),
    }
}

fn point(id: i64, tags: &[(&str, &str)]) -> Node {
    Node {
        id,
        lat: 0,
        lon: 0,
        tags: tags.iter().map(|(k, v)| (k.to_string(), v.to_string())).collect(),
    }
}

fn sample_ways() -> Vec<Way> {
    vec![
        street(1, "primary", &[10, 11]),
        street(2, "footway", &[11, 12]),
        street(3, "residential", &[12, 13]),
        street(4, "primary", &[13, 14]),
    ]
}

#[test]
fn by_tag_in_returns_exactly_matching_ways() {
    let b = Builder::new(sample_ways()).by_tag_in("highway", vec!["primary", "residential"]);
    let got = b.get();
    let ids: Vec<i64> = got.iter().map(|w| w.id).collect();
    assert_eq!(ids, vec![1, 3, 4]);
    for w in &got {
        let v = w.tags.iter().find(|t| t.0 == "highway").map(|t| t.1.clone()).unwrap();
        assert!(v == "primary" || v == "residential");
    }
}

#[test]
fn by_tag_eq_returns_exactly_equal_ways() {
    let b = Builder::new(sample_ways()).by_tag_eq("highway", "footway");
    let ids: Vec<i64> = b.get().iter().map(|w| w.id).collect();
    assert_eq!(ids, vec![2]);
}

#[test]
fn chained_filters_are_conjunctive() {
    // a way must pass every accumulated filter, not any one of them
    let b = Builder::new(sample_ways())
        .by_tag_in("highway", vec!["primary", "residential"])
        .contain_nodes(vec![13]);
    let ids: Vec<i64> = b.get().iter().map(|w| w.id).collect();
    assert_eq!(ids, vec![3, 4]);
}

#[test]
fn is_poly_filter_keeps_only_areas() {
    let mut ways = sample_ways();
    ways.push(Way { id: 5, tags: Vec::new(), nodes: vec![20, 21, 22, 20] });
    let b = Builder::new(ways).is_poly();
    let ids: Vec<i64> = b.get().iter().map(|w| w.id).collect();
    assert_eq!(ids, vec![5]);
}

#[test]
fn by_id_finds_present_and_reports_absent() {
    let b = Builder::new(sample_ways());
    let w = b.by_id(3).unwrap();
    assert_eq!(w.id, 3);
    assert_eq!(w.nodes, vec![12, 13]);
    assert_eq!(b.by_id(99).unwrap_err(), Error::NotFound);
}

#[test]
fn iter_yields_only_matching_elements() {
    let b = Builder::new(sample_ways()).by_tag_in("highway", vec!["primary"]);
    let mut it = b.iter();
    let mut seen: Vec<(i64, i64)> = Vec::new();
    while let Some((k, w)) = it.next() {
        seen.push((k, w.id));
    }
    assert_eq!(seen, vec![(1, 1), (4, 4)]);
    // a fresh pass restarts from the beginning
    let mut it2 = b.iter();
    assert_eq!(it2.next().map(|p| p.0), Some(1));
}

#[test]
fn filters_records_the_chain() {
    let b = Builder::new(sample_ways()).by_tag_in("highway", vec!["primary", "secondary"]);
    let fs = b.filters();
    assert_eq!(fs.len(), 1);
    assert_eq!(
        fs[0],
        FilterQuery::ByTag(
            "highway".to_string(),
            vec!["primary".to_string(), "secondary".to_string()],
        )
    );
}

#[test]
fn node_queries_filter_by_tag() {
    let nodes = vec![
        point(1, &[("amenity", "cafe")]),
        point(2, &[("amenity", "bank")]),
        point(3, &[]),
    ];
    let b = Builder::new(nodes).by_tag_in("amenity", vec!["cafe"]);
    let ids: Vec<i64> = b.get().iter().map(|n| n.id).collect();
    assert_eq!(ids, vec![1]);
}

#[test]
fn map_hands_out_builders_over_shared_collections() {
    let map = OsmMap::new(
        vec![point(1, &[("amenity", "cafe")]), point(2, &[])],
        sample_ways(),
        None,
    );
    let ways = map.ways().by_tag_eq("highway", "primary").get();
    assert_eq!(ways.len(), 2);
    let nodes = map.nodes().by_tag_eq("amenity", "cafe").get();
    assert_eq!(nodes.len(), 1);
    assert!(map.bounds().is_none());
    // the same map can serve further chains afterwards
    assert_eq!(map.ways().get().len(), 4);
}

#[test]
fn bounds_are_kept_as_given() {
    let b = Bounds { minlat: -10, minlon: -20, maxlat: 10, maxlon: 20 };
    let map = OsmMap::new(Vec::new(), Vec::new(), Some(b));
    assert_eq!(map.bounds(), Some(b));
    let copy = map.clone();
    assert_eq!(copy.bounds(), Some(b));
}

#[test]
fn later_duplicate_id_wins() {
    let mut ways = sample_ways();
    ways.push(street(1, "service", &[40, 41]));
    let b = Builder::new(ways);
    let w = b.by_id(1).unwrap();
    assert_eq!(w.tags[0].1, "service");
    assert_eq!(b.get().len(), 4);
}

#[test]
fn get_tag_value_reads_tags() {
    let n = point(7, &[("name", "center"), ("amenity", "cafe")]);
    assert_eq!(n.get_id(), 7);
    assert_eq!(n.get_tag_value("amenity"), Some("cafe"));
    assert_eq!(n.get_tag_value("missing"), None);
}
