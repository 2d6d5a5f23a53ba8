use openstreet::structure::NodeMap;

#[test]
fn node_map_assigns_dense_indices_first_seen_wins() {
    let mut m = NodeMap::new();
    assert_eq!(m.len(), 0);
    let a = m.get_or_insert(100);
    let b = m.get_or_insert(200);
    let a2 = m.get_or_insert(100);
    assert_eq!((a, b, a2), (0, 1, 0));
    assert_eq!(m.len(), 2);
    assert_eq!(m.get(200), Some(1));
    assert_eq!(m.get(300), None);
    assert_eq!(m.id_at(1), 200);
}

#[test]
fn node_map_translates_index_paths_back_to_ids() {
    let mut m = NodeMap::new();
    m.get_or_insert(100);
    m.get_or_insert(200);
    assert_eq!(m.translate(&vec![1, 0, 1]), Some(vec![200, 100, 200]));
    assert_eq!(m.translate(&vec![0, 5]), None);
    assert_eq!(m.translate(&Vec::new()), Some(Vec::new()));
}

#[test]
fn node_map_rebuilds_from_distinct_ids_only() {
    assert!(NodeMap::from_ids(vec![1, 2, 1]).is_none());
    let m = NodeMap::from_ids(vec![1, 2, 3]).unwrap();
    assert_eq!(m.get(3), Some(2));
    assert_eq!(m.id_at(0), 1);
}
