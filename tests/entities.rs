use osm_route::entities::{lift_tags, MapData, Member, Meta, Bounds, Node, NodeRef, Relation, Way};
use osm_route::osm;
use std::collections::HashMap;

fn sample_way(refs: Vec<i64>) -> Way {
    Way {
        id: 1, version: 123, timestamp: "foo".to_string(), changeset: 123,
        uid: Some(123), user: Some("dude".to_string()),
        node_refs: refs.into_iter().map(|id| NodeRef { id }).collect(),
        name: Some("foo".to_string()), tags: HashMap::new()
    }
}

fn sample_node(id: i64) -> Node {
    Node {
        id, lat: 50_000_000, lon: 50_000_000, version: 1, timestamp: "foo".to_string(),
        changeset: 1, uid: Some(1), user: Some("viking".to_string()),
        name: None, tags: HashMap::new()
    }
}

fn sample_map(nodes: Vec<i64>, ways: Vec<Vec<i64>>) -> MapData {
    MapData {
        version: "0.1".to_string(), generator: "test".to_string(),
        note: "foo".to_string(), meta: Meta { osm_base: "bar".to_string() },
        bounds: Bounds { minlat: 0, minlon: 0, maxlat: 100_000_000, maxlon: 100_000_000 },
        nodes: nodes.into_iter().map(sample_node).collect(),
        ways: ways.into_iter().map(sample_way).collect(),
        relations: Vec::new()
    }
}

#[test]
fn node_tags_conversion() {
    let node = osm::Node {
        id: 1,
        lat: 10_000_000,
        lon: 10_000_000,
        version: 123,
        timestamp: "foo".to_string(),
        changeset: 123,
        uid: Some(123),
        user: Some("dude".to_string()),
        tags: vec![
            osm::Tag { k: "name".to_string(), v: "foo".to_string() },
            osm::Tag { k: "baz".to_string(), v: "qux".to_string() }
        ]
    };

    let mut tags = HashMap::new();
    tags.insert("baz".to_string(), "qux".to_string());
    let expected = Node {
        id: 1,
        lat: 10_000_000,
        lon: 10_000_000,
        version: 123,
        timestamp: "foo".to_string(),
        changeset: 123,
        uid: Some(123),
        user: Some("dude".to_string()),
        name: Some("foo".to_string()),
        tags: tags
    };
    let actual: Node = node.into();
    assert_eq!(expected, actual);
}

#[test]
fn way_tags_conversion() {
    let way = osm::Way {
        id: 1,
        version: 123,
        timestamp: "foo".to_string(),
        changeset: 123,
        uid: Some(123),
        user: Some("dude".to_string()),
        node_refs: vec![
            osm::NodeRef { id: 1 },
            osm::NodeRef { id: 2 },
            osm::NodeRef { id: 3 }
        ],
        tags: vec![
            osm::Tag { k: "name".to_string(), v: "foo".to_string() },
            osm::Tag { k: "baz".to_string(), v: "qux".to_string() }
        ]
    };

    let mut tags = HashMap::new();
    tags.insert("baz".to_string(), "qux".to_string());
    let expected = Way {
        id: 1,
        version: 123,
        timestamp: "foo".to_string(),
        changeset: 123,
        uid: Some(123),
        user: Some("dude".to_string()),
        node_refs: vec![
            NodeRef { id: 1 },
            NodeRef { id: 2 },
            NodeRef { id: 3 }
        ],
        name: Some("foo".to_string()),
        tags: tags
    };
    let actual: Way = way.into();
    assert_eq!(expected, actual);
}

#[test]
fn relation_tags_conversion() {
    let relation = osm::Relation {
        id: 1,
        version: 123,
        timestamp: "foo".to_string(),
        changeset: 123,
        uid: Some(123),
        user: Some("dude".to_string()),
        members: vec![
            osm::Member { kind: "foo".to_string(), id: 1, role: "qux".to_string() },
            osm::Member { kind: "bar".to_string(), id: 2, role: "corge".to_string() },
            osm::Member { kind: "baz".to_string(), id: 3, role: "grault".to_string() }
        ],
        tags: vec![
            osm::Tag { k: "name".to_string(), v: "foo".to_string() },
            osm::Tag { k: "baz".to_string(), v: "qux".to_string() }
        ]
    };

    let mut tags = HashMap::new();
    tags.insert("baz".to_string(), "qux".to_string());
    let expected = Relation {
        id: 1,
        version: 123,
        timestamp: "foo".to_string(),
        changeset: 123,
        uid: Some(123),
        user: Some("dude".to_string()),
        members: vec![
            Member { kind: "foo".to_string(), id: 1, role: "qux".to_string() },
            Member { kind: "bar".to_string(), id: 2, role: "corge".to_string() },
            Member { kind: "baz".to_string(), id: 3, role: "grault".to_string() }
        ],
        name: Some("foo".to_string()),
        tags: tags
    };
    let actual: Relation = relation.into();
    assert_eq!(expected, actual);
}

#[test]
fn way_contains_node_id() {
    let way = sample_way(vec![1, 2, 3]);
    assert!(way.contains_node_id(1));
    assert!(!way.contains_node_id(4));
}

#[test]
fn way_find_path_non_existent_ids() {
    let way = sample_way(vec![1, 2, 3]);
    assert!(way.find_path(1, 4).is_none());
    assert!(way.find_path(0, 3).is_none());
    assert!(way.find_path(0, 4).is_none());
}

#[test]
fn way_find_path_same_node() {
    let way = sample_way(vec![1, 2, 3]);
    let expected = vec![1];
    let actual = way.find_path(1, 1).expect("couldn't find path");
    assert_eq!(expected, actual);
}

#[test]
fn way_find_path_forward() {
    let way = sample_way(vec![1, 2, 3]);
    let expected = vec![1, 2, 3];
    let actual = way.find_path(1, 3).expect("couldn't find path");
    assert_eq!(expected, actual);
}

#[test]
fn way_find_path_reverse() {
    let way = sample_way(vec![1, 2, 3]);
    let expected = vec![3, 2, 1];
    let actual = way.find_path(3, 1).expect("couldn't find path");
    assert_eq!(expected, actual);
}

#[test]
fn way_find_path_same_id_absent_from_way() {
    let way = sample_way(vec![1, 2, 3]);
    assert_eq!(way.find_path(9, 9), Some(vec![9]));
}

#[test]
fn way_find_path_inner_stretch_both_directions() {
    let way = sample_way(vec![10, 20, 30, 40, 50]);
    assert_eq!(way.find_path(20, 40), Some(vec![20, 30, 40]));
    assert_eq!(way.find_path(40, 20), Some(vec![40, 30, 20]));
}

#[test]
fn way_find_path_loop_uses_first_occurrences() {
    // 1 and 3 both repeat: the stretch runs between their first occurrences.
    let way = sample_way(vec![1, 2, 3, 1, 4, 3]);
    assert_eq!(way.find_path(1, 3), Some(vec![1, 2, 3]));
    assert_eq!(way.find_path(3, 1), Some(vec![3, 2, 1]));
    assert_eq!(way.find_path(4, 2), Some(vec![4, 1, 3, 2]));
}

#[test]
fn way_neighbors_of_node_counts() {
    let way = sample_way(vec![1, 2, 3]);
    assert_eq!(way.neighbors_of_node(1), vec![2]);
    assert_eq!(way.neighbors_of_node(2), vec![1, 3]);
    assert_eq!(way.neighbors_of_node(3), vec![2]);
    assert_eq!(way.neighbors_of_node(7), Vec::<i64>::new());
    let single = sample_way(vec![5]);
    assert_eq!(single.neighbors_of_node(5), Vec::<i64>::new());
}

#[test]
fn way_neighbors_of_node_loop_first_occurrence() {
    let way = sample_way(vec![1, 2, 3, 4, 2, 5]);
    assert_eq!(way.neighbors_of_node(2), vec![1, 3]);
}

#[test]
fn map_find_node_present_and_absent() {
    let map = sample_map(vec![4, 7, 9], vec![]);
    assert_eq!(map.find_node(7).map(|n| n.id), Some(7));
    assert!(map.find_node(8).is_none());
    assert_eq!(map.node_index(9), Some(2));
    assert_eq!(map.node_index(1), None);
}

#[test]
fn map_ways_for_node_keeps_order() {
    let map = sample_map(vec![1, 2, 3, 4], vec![vec![1, 2], vec![3, 4], vec![2, 3], vec![2, 2]]);
    let node = sample_node(2);
    let ways = map.ways_for_node(&node);
    let refs: Vec<Vec<i64>> = ways.iter().map(|w| w.node_refs.iter().map(|r| r.id).collect()).collect();
    assert_eq!(refs, vec![vec![1, 2], vec![2, 3], vec![2, 2]]);
    assert!(map.ways_for_node(&sample_node(9)).is_empty());
}

#[test]
fn lift_tags_last_name_wins() {
    let tags = vec![
        osm::Tag { k: "name".to_string(), v: "first".to_string() },
        osm::Tag { k: "kind".to_string(), v: "a".to_string() },
        osm::Tag { k: "name".to_string(), v: "second".to_string() },
        osm::Tag { k: "kind".to_string(), v: "b".to_string() },
    ];
    let (name, rest) = lift_tags(&tags);
    assert_eq!(name, Some("second".to_string()));
    let mut expected = HashMap::new();
    expected.insert("kind".to_string(), "b".to_string());
    assert_eq!(rest, expected);
    let (none, empty) = lift_tags(&Vec::new());
    assert_eq!(none, None);
    assert!(empty.is_empty());
}

#[test]
fn map_conversion_keeps_ids_and_order() {
    let decoded = osm::OSM {
        version: "0.6".to_string(),
        generator: "gen".to_string(),
        note: "note".to_string(),
        meta: osm::Meta { osm_base: "base".to_string() },
        bounds: osm::Bounds { minlat: 1, minlon: 2, maxlat: 3, maxlon: 4 },
        nodes: vec![
            osm::Node {
                id: 5, lat: 10, lon: 20, version: 1, timestamp: "t".to_string(), changeset: 1,
                uid: None, user: None, tags: vec![]
            },
            osm::Node {
                id: 6, lat: 30, lon: 40, version: 1, timestamp: "t".to_string(), changeset: 1,
                uid: None, user: None,
                tags: vec![osm::Tag { k: "name".to_string(), v: "six".to_string() }]
            },
        ],
        ways: vec![osm::Way {
            id: 1, version: 1, timestamp: "t".to_string(), changeset: 1, uid: None, user: None,
            node_refs: vec![osm::NodeRef { id: 6 }, osm::NodeRef { id: 5 }], tags: vec![]
        }],
        relations: vec![],
    };
    let map: MapData = decoded.into();
    let ids: Vec<i64> = map.nodes.iter().map(|n| n.id).collect();
    assert_eq!(ids, vec![5, 6]);
    assert_eq!(map.nodes[1].name, Some("six".to_string()));
    assert_eq!(map.nodes[1].lat, 30);
    assert_eq!(map.ways[0].node_refs, vec![NodeRef { id: 6 }, NodeRef { id: 5 }]);
    assert_eq!(map.bounds, Bounds { minlat: 1, minlon: 2, maxlat: 3, maxlon: 4 });
    assert_eq!(map.meta, Meta { osm_base: "base".to_string() });
}

#[test]
fn member_conversion_reads_id_as_signed() {
    let member: Member = osm::Member { kind: "way".to_string(), id: 42, role: "outer".to_string() }.into();
    assert_eq!(member, Member { kind: "way".to_string(), id: 42, role: "outer".to_string() });
}
