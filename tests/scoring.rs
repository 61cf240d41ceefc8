use conquest::scoring::score_for_city;
use conquest::world::{City, Connection, GameMode, Player, Profile, WorldFixed, WorldState};

fn profile(random_percent: u64) -> Profile {
    Profile {
        human: false,
        search_depth: 0,
        city_size_multiplier: 5,
        army_multiplier: 1,
        army_same_territory: 10,
        army_bordering: 25,
        minimum_armies: 3,
        attack_delta_multiplier: 50,
        no_choices: 3,
        random_percent,
    }
}

fn conn(a: usize, b: usize) -> Connection {
    Connection { city1: a, city2: b, render: true, same_territory: false }
}

fn world() -> (WorldState, WorldFixed) {
    let cities = vec![
        City { territory: 0, size: 3, armies: 4, owner: Some(0) },
        City { territory: 0, size: 2, armies: 1, owner: Some(1) },
        City { territory: 1, size: 1, armies: 2, owner: Some(1) },
        City { territory: 0, size: 4, armies: 2, owner: Some(0) },
        City { territory: 1, size: 5, armies: 3, owner: None },
    ];
    let connections = vec![conn(0, 1), conn(0, 2), conn(0, 3), conn(0, 4), conn(1, 0), conn(3, 0)];
    let ws = WorldState {
        mode: GameMode::Game,
        current_player: 0,
        players: vec![
            Player { index: 0, score: 0, armies_to_assign: 0, armies_to_assign_tenths: 0, profile: profile(0) },
            Player { index: 1, score: 0, armies_to_assign: 0, armies_to_assign_tenths: 0, profile: profile(100) },
        ],
        cities,
    };
    (ws, WorldFixed { territories: Vec::new(), connections, cities_to_assign: Vec::new() })
}

#[test]
fn city_score_counts_enemy_neighbours() {
    let (ws, wf) = world();
    let p = profile(0);
    // size 3*5 + armies 4*1; enemy in same territory: 4*25 + 4*10; enemy elsewhere: 4*25;
    // own city and unowned city give nothing
    assert_eq!(score_for_city(&ws.cities, &wf.connections, 0, &p), 15 + 4 + 140 + 100);
    // size 2*5 + 1; its connection to city 0 (enemy, same territory): 25 + 10
    assert_eq!(score_for_city(&ws.cities, &wf.connections, 1, &p), 11 + 35);
    // no outgoing connections
    assert_eq!(score_for_city(&ws.cities, &wf.connections, 4, &p), 25 + 3);
}

#[test]
fn player_score_sums_owned_cities() {
    let (ws, wf) = world();
    let base0 = ws.players[0].get_score(&ws, &wf);
    assert_eq!(base0, 259 + (20 + 2));
    let base1 = ws.players[1].get_score(&ws, &wf);
    assert_eq!(base1, 46 + (5 + 2));
}

#[test]
fn jitter_stays_in_range() {
    for _ in 0..50 {
        let (mut ws, wf) = world();
        ws.update_scores(&wf);
        // player 0: base 281, share 0 percent, so jitter below the floor of five
        assert!(ws.players[0].score >= 281 && ws.players[0].score < 286);
        // player 1: base 53, share 100 percent
        assert!(ws.players[1].score >= 53 && ws.players[1].score < 106);
        assert_eq!(ws.cities[0].armies, 4);
    }
}

#[test]
fn single_player_score_is_jittered() {
    let (ws, wf) = world();
    let mut p = ws.players[0];
    p.calculate_score(&ws, &wf);
    assert!(p.score >= 281 && p.score < 286);
    assert_eq!(p.index, 0);
    assert!(!p.is_human());
}
