use conquest::geography::{
    build_connections, build_territory_connections, connection_rules_ok, cross_pair_list,
    select_evenly_spaced_cities, squared_distance, Location,
};
use conquest::world::{Connection, Territory};

fn loc(x: i64, y: i64) -> Location {
    Location { x, y }
}

fn territory(name: &str, cities: Vec<usize>) -> Territory {
    Territory { name: String::from(name), cities }
}

fn map() -> (Vec<Location>, Vec<Territory>) {
    let locations = vec![
        loc(0, 0),
        loc(10, 0),
        loc(0, 30),
        loc(100, 0),
        loc(100, 20),
        loc(130, 0),
    ];
    let territories = vec![territory("West", vec![0, 1, 2]), territory("East", vec![3, 4, 5])];
    (locations, territories)
}

fn has(connections: &Vec<Connection>, a: usize, b: usize, render: bool, same: bool) -> bool {
    connections.iter().any(|c| c.city1 == a && c.city2 == b && c.render == render && c.same_territory == same)
}

#[test]
fn squared_distance_exact() {
    assert_eq!(squared_distance(&loc(0, 0), &loc(3, 4)), 25);
    assert_eq!(squared_distance(&loc(-1000000000, 0), &loc(1000000000, 0)), 4000000000000000000);
}

#[test]
fn territory_joined_by_minimum_spanning_tree() {
    let (locations, territories) = map();
    let connections = build_connections(&locations, &territories, &Vec::new());
    assert_eq!(connections.len(), 8);
    assert!(has(&connections, 0, 1, true, true) || has(&connections, 1, 0, true, true));
    assert!(has(&connections, 0, 2, true, true) || has(&connections, 2, 0, true, true));
    assert!(!connections.iter().any(|c| (c.city1 == 1 && c.city2 == 2) || (c.city1 == 2 && c.city2 == 1)));
    assert!(has(&connections, 3, 4, true, true) || has(&connections, 4, 3, true, true));
    assert!(has(&connections, 3, 5, true, true) || has(&connections, 5, 3, true, true));
    for c in &connections {
        assert!(has(&connections, c.city2, c.city1, !c.render, true));
    }
}

#[test]
fn nearest_pairs_join_territories() {
    let (locations, territories) = map();
    let mut connections = Vec::new();
    build_territory_connections(&mut connections, &locations, &territories[0], &territories[1], 2);
    assert_eq!(
        connections,
        vec![
            Connection { city1: 1, city2: 3, render: true, same_territory: false },
            Connection { city1: 1, city2: 4, render: true, same_territory: false },
            Connection { city1: 3, city2: 1, render: false, same_territory: false },
            Connection { city1: 4, city2: 1, render: false, same_territory: false },
        ]
    );
}

#[test]
fn equally_near_pairs_taken_in_scan_order() {
    let locations = vec![loc(0, 0), loc(10, 0), loc(-10, 0)];
    let a = territory("A", vec![0]);
    let b = territory("B", vec![2, 1]);
    let mut connections = Vec::new();
    build_territory_connections(&mut connections, &locations, &a, &b, 1);
    assert_eq!(connections[0], Connection { city1: 0, city2: 2, render: true, same_territory: false });
    assert_eq!(connections[1], Connection { city1: 2, city2: 0, render: false, same_territory: false });
}

#[test]
fn building_twice_gives_same_connections() {
    let (locations, territories) = map();
    let rules = vec![(0, 1, 1)];
    let first = build_connections(&locations, &territories, &rules);
    let second = build_connections(&locations, &territories, &rules);
    assert_eq!(first, second);
    assert_eq!(first.len(), 10);
    assert_eq!(first[8], Connection { city1: 1, city2: 3, render: true, same_territory: false });
    assert_eq!(first[9], Connection { city1: 3, city2: 1, render: false, same_territory: false });
}

#[test]
fn rules_checked_against_available_pairs() {
    let (locations, territories) = map();
    assert!(connection_rules_ok(&locations, &territories, &vec![(0, 1, 9)]));
    assert!(!connection_rules_ok(&locations, &territories, &vec![(0, 1, 10)]));
    assert!(!connection_rules_ok(&locations, &territories, &vec![(0, 2, 1)]));
    assert_eq!(cross_pair_list(&locations, &vec![0, 1], &vec![1, 2]), vec![(0, 1), (0, 2), (1, 2)]);
}

#[test]
fn cities_chosen_by_population_and_spacing() {
    let locations = vec![loc(0, 0), loc(5, 0), loc(100, 0), loc(200, 0), loc(300, 0)];
    let populations = vec![1000, 5000, 3000, 3000, 10];
    let mut chosen = Vec::new();
    let picked = select_evenly_spaced_cities(&locations, &populations, &vec![0, 1, 2, 3, 4], &mut chosen, 3, 100);
    // by population: 1, 2, 3 (tie kept in order), 0, 4; city 0 is within 10 of city 1
    assert_eq!(picked, vec![1, 2, 3]);
    assert_eq!(chosen, vec![1, 2, 3]);
    let more = select_evenly_spaced_cities(&locations, &populations, &vec![0, 4], &mut chosen, 5, 100);
    assert_eq!(more, vec![4]);
    assert_eq!(chosen, vec![1, 2, 3, 4]);
}
