use osm_route::entities::{Bounds, MapData, Meta, Node, NodeRef, Way};
use osm_route::pathfinder::{find_path, SearchError};
use std::collections::HashMap;

/// Great-circle distance in whole metres, from coordinates in 1e-7 degree.
fn great_circle(a: &Node, b: &Node) -> u64 {
    let r = 6371e3_f64;
    let phi_1 = (a.lat as f64 * 1e-7).to_radians();
    let phi_2 = (b.lat as f64 * 1e-7).to_radians();
    let delta_phi = ((b.lat - a.lat) as f64 * 1e-7).to_radians();
    let delta_lambda = ((b.lon - a.lon) as f64 * 1e-7).to_radians();
    let h = (delta_phi / 2.0).sin().powi(2)
        + phi_1.cos() * phi_2.cos() * (delta_lambda / 2.0).sin().powi(2);
    let h = h.max(0.0).min(1.0);
    let c = 2.0 * h.sqrt().atan2((1.0 - h).sqrt());
    (r * c).floor() as u64
}

/// Sum of coordinate differences: a simple consistent metric on a grid.
fn grid(a: &Node, b: &Node) -> u64 {
    ((a.lat - b.lat).abs() + (a.lon - b.lon).abs()) as u64
}

fn create_map() -> MapData {
    MapData {
        version: "0.1".to_string(), generator: "test".to_string(),
        note: "foo".to_string(), meta: Meta { osm_base: "bar".to_string() },
        bounds: Bounds { minlat: 0, minlon: 0, maxlat: 100_000_000, maxlon: 100_000_000 },
        nodes: Vec::new(), ways: Vec::new(), relations: Vec::new()
    }
}

fn node(id: i64, lat: i64, lon: i64) -> Node {
    Node {
        id, lat, lon, version: 1, timestamp: "foo".to_string(),
        changeset: 1, uid: Some(1), user: Some("viking".to_string()),
        name: None, tags: HashMap::new()
    }
}

fn way(id: i64, refs: &[i64]) -> Way {
    Way {
        id, version: 1, timestamp: "foo".to_string(), changeset: 1,
        uid: Some(1), user: Some("viking".to_string()),
        node_refs: refs.iter().map(|&id| NodeRef { id }).collect(),
        name: None, tags: HashMap::new()
    }
}

/// One way [1, 2, 3] at 5.0, 5.1 and 5.2 degrees.
fn colinear_map() -> MapData {
    let mut map = create_map();
    map.nodes.push(node(1, 50_000_000, 50_000_000));
    map.nodes.push(node(2, 51_000_000, 51_000_000));
    map.nodes.push(node(3, 52_000_000, 52_000_000));
    map.ways.push(way(1, &[1, 2, 3]));
    map
}

#[test]
fn find_path_same_start_end() {
    let mut map = create_map();
    map.nodes.push(node(1, 50_000_000, 50_000_000));

    let expected = vec![1];
    let actual = find_path(&map, 1, 1, great_circle).expect("couldn't find path");
    assert_eq!(expected, actual);
}

#[test]
fn find_path_same_way_minimal_distance() {
    let mut map = create_map();
    map.nodes.push(node(1, 50_000_000, 50_000_000));
    map.nodes.push(node(2, 51_000_000, 51_000_000));
    map.ways.push(way(1, &[1, 2]));

    let expected = vec![1, 2];
    let actual = find_path(&map, 1, 2, great_circle).expect("couldn't find path");
    assert_eq!(expected, actual);
}

#[test]
fn find_path_same_way_multiple_steps() {
    let map = colinear_map();
    let expected = vec![1, 2, 3];
    let actual = find_path(&map, 1, 3, great_circle).expect("couldn't find path");
    assert_eq!(expected, actual);
}

#[test]
fn find_path_same_way_multiple_steps_reverse() {
    let map = colinear_map();
    let expected = vec![3, 2, 1];
    let actual = find_path(&map, 3, 1, great_circle).expect("couldn't find path");
    assert_eq!(expected, actual);
}

#[test]
fn find_path_connected_ways() {
    let mut map = create_map();
    map.nodes.push(node(1, 50_000_000, 50_000_000));
    map.nodes.push(node(2, 51_000_000, 51_000_000));
    map.nodes.push(node(3, 52_000_000, 52_000_000));
    map.ways.push(way(1, &[1, 2]));
    map.ways.push(way(2, &[2, 3]));

    let expected = vec![1, 2, 3];
    let actual = find_path(&map, 1, 3, great_circle).expect("couldn't find path");
    assert_eq!(expected, actual);
}

#[test]
fn find_path_same_id_for_every_node() {
    let mut map = colinear_map();
    map.nodes.push(node(9, 0, 0));
    for id in [1, 2, 3, 9] {
        assert_eq!(find_path(&map, id, id, great_circle), Ok(vec![id]));
    }
}

#[test]
fn find_path_disconnected_ways() {
    let mut map = create_map();
    map.nodes.push(node(1, 50_000_000, 50_000_000));
    map.nodes.push(node(2, 51_000_000, 51_000_000));
    map.nodes.push(node(3, 52_000_000, 52_000_000));
    map.nodes.push(node(4, 53_000_000, 53_000_000));
    map.ways.push(way(1, &[1, 2]));
    map.ways.push(way(2, &[3, 4]));
    assert_eq!(find_path(&map, 1, 4, great_circle), Err(SearchError::NoPathFound));
    assert_eq!(find_path(&map, 4, 2, great_circle), Err(SearchError::NoPathFound));
}

#[test]
fn find_path_unknown_start() {
    let map = colinear_map();
    assert_eq!(find_path(&map, 77, 3, great_circle), Err(SearchError::NodeNotFound(77)));
}

#[test]
fn find_path_unknown_goal() {
    let map = colinear_map();
    assert_eq!(find_path(&map, 1, 78, great_circle), Err(SearchError::NodeNotFound(78)));
    assert_eq!(find_path(&map, 76, 78, great_circle), Err(SearchError::NodeNotFound(76)));
}

#[test]
fn find_path_skips_dangling_reference() {
    let mut map = create_map();
    map.nodes.push(node(1, 50_000_000, 50_000_000));
    map.nodes.push(node(2, 51_000_000, 51_000_000));
    map.ways.push(way(1, &[1, 42, 2]));
    assert_eq!(find_path(&map, 1, 2, great_circle), Err(SearchError::NoPathFound));
    map.ways.push(way(2, &[2, 1]));
    assert_eq!(find_path(&map, 1, 2, great_circle), Ok(vec![1, 2]));
}

#[test]
fn find_path_equal_costs_prefer_lowest_id() {
    let mut map = create_map();
    map.nodes.push(node(1, 0, 0));
    map.nodes.push(node(3, 10, 0));
    map.nodes.push(node(2, 0, 10));
    map.nodes.push(node(4, 10, 10));
    map.ways.push(way(1, &[1, 3, 4]));
    map.ways.push(way(2, &[1, 2, 4]));
    assert_eq!(find_path(&map, 1, 4, grid), Ok(vec![1, 2, 4]));
}

#[test]
fn find_path_takes_detour_when_shorter() {
    // A direct way 1-5 bends far north; the chain 1-2-3-4-5 runs straight.
    let mut map = create_map();
    map.nodes.push(node(1, 0, 0));
    map.nodes.push(node(2, 0, 10));
    map.nodes.push(node(3, 0, 20));
    map.nodes.push(node(4, 0, 30));
    map.nodes.push(node(5, 0, 40));
    map.nodes.push(node(6, 100, 20));
    map.ways.push(way(1, &[1, 6, 5]));
    map.ways.push(way(2, &[1, 2, 3, 4, 5]));
    assert_eq!(find_path(&map, 1, 5, grid), Ok(vec![1, 2, 3, 4, 5]));
}

fn route_cost(map: &MapData, path: &[i64], metric: fn(&Node, &Node) -> u64) -> u64 {
    path.windows(2)
        .map(|p| metric(map.find_node(p[0]).unwrap(), map.find_node(p[1]).unwrap()))
        .sum()
}

fn all_simple_routes(map: &MapData, at: i64, goal: i64, seen: &mut Vec<i64>, out: &mut Vec<Vec<i64>>) {
    seen.push(at);
    if at == goal {
        out.push(seen.clone());
    } else {
        for w in &map.ways {
            for next in w.neighbors_of_node(at) {
                if map.find_node(next).is_some() && !seen.contains(&next) {
                    all_simple_routes(map, next, goal, seen, out);
                }
            }
        }
    }
    seen.pop();
}

#[test]
fn find_path_no_longer_than_any_enumerated_route() {
    let mut map = create_map();
    map.nodes.push(node(1, 50_000_000, 50_000_000));
    map.nodes.push(node(2, 50_100_000, 50_300_000));
    map.nodes.push(node(3, 50_400_000, 50_100_000));
    map.nodes.push(node(4, 50_500_000, 50_500_000));
    map.nodes.push(node(5, 50_200_000, 50_600_000));
    map.nodes.push(node(6, 50_900_000, 50_200_000));
    map.ways.push(way(1, &[1, 2, 5, 4]));
    map.ways.push(way(2, &[1, 3, 4]));
    map.ways.push(way(3, &[3, 6, 4]));
    map.ways.push(way(4, &[2, 3]));
    for (start, goal) in [(1, 4), (4, 1), (2, 6), (5, 3)] {
        let found = find_path(&map, start, goal, great_circle).expect("couldn't find path");
        let mut routes = Vec::new();
        all_simple_routes(&map, start, goal, &mut Vec::new(), &mut routes);
        assert!(!routes.is_empty());
        let best = routes.iter().map(|r| route_cost(&map, r, great_circle)).min().unwrap();
        assert!(route_cost(&map, &found, great_circle) <= best);
        assert_eq!(found.first(), Some(&start));
        assert_eq!(found.last(), Some(&goal));
        let mut sorted = found.clone();
        sorted.sort();
        sorted.dedup();
        assert_eq!(sorted.len(), found.len());
    }
}
