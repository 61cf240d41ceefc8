use conquest::combat::{resolve_attack, roll_dice, sort_dice};
use conquest::moves::{Move, MoveType};
use conquest::search::{
    ap_build_list_of_possibles, attack_bonus, best_of_children, game_build_list_of_possibles, possible_moves,
    score_portion, select_top,
};
use conquest::turn::{assign, best_move_index, computer_turn, next_turn};
use conquest::world::{City, Connection, GameMode, Player, Profile, Territory, WorldFixed, WorldState};

fn profile(minimum_armies: usize, search_depth: usize, no_choices: usize) -> Profile {
    Profile {
        human: false,
        search_depth,
        city_size_multiplier: 5,
        army_multiplier: 1,
        army_same_territory: 10,
        army_bordering: 25,
        minimum_armies,
        attack_delta_multiplier: 50,
        no_choices,
        random_percent: 10,
    }
}

fn player(index: usize, armies_to_assign: u32, profile: Profile) -> Player {
    Player { index, score: 0, armies_to_assign, armies_to_assign_tenths: 0, profile }
}

fn city(territory: usize, size: u8, armies: usize, owner: Option<usize>) -> City {
    City { territory, size, armies, owner }
}

fn link(a: usize, b: usize) -> Vec<Connection> {
    vec![
        Connection { city1: a, city2: b, render: true, same_territory: false },
        Connection { city1: b, city2: a, render: false, same_territory: false },
    ]
}

fn fixed(connections: Vec<Connection>) -> WorldFixed {
    WorldFixed { territories: Vec::new(), connections, cities_to_assign: Vec::new() }
}

fn two_city_world(minimum_armies: usize) -> (WorldState, WorldFixed) {
    let ws = WorldState {
        mode: GameMode::Game,
        current_player: 0,
        players: vec![player(0, 0, profile(minimum_armies, 0, 3)), player(1, 0, profile(3, 0, 3))],
        cities: vec![city(0, 3, 5, Some(0)), city(1, 2, 2, Some(1))],
    };
    (ws, fixed(link(0, 1)))
}

#[test]
fn attack_generated_when_armies_reach_threshold() {
    let (ws, wf) = two_city_world(3);
    let moves = game_build_list_of_possibles(&ws, &wf, 0);
    assert_eq!(moves.len(), 1);
    assert_eq!(moves[0].move_type, MoveType::AttackCity);
    assert_eq!(moves[0].city_source, 0);
    assert_eq!(moves[0].city_target, Some(1));
}

#[test]
fn no_attack_below_threshold() {
    let (ws, wf) = two_city_world(6);
    let moves = game_build_list_of_possibles(&ws, &wf, 0);
    assert_eq!(moves.len(), 0);
}

#[test]
fn attack_on_one_target_kept_once() {
    let mut connections = link(0, 2);
    connections.extend(link(1, 2));
    let ws = WorldState {
        mode: GameMode::Game,
        current_player: 0,
        players: vec![player(0, 0, profile(3, 0, 3)), player(1, 0, profile(3, 0, 3))],
        cities: vec![city(0, 1, 5, Some(0)), city(0, 1, 5, Some(0)), city(0, 1, 1, Some(1))],
    };
    let moves = game_build_list_of_possibles(&ws, &fixed(connections), 0);
    assert_eq!(moves.len(), 1);
    assert_eq!(moves[0].city_source, 0);
    assert_eq!(moves[0].city_target, Some(2));
}

#[test]
fn placement_search_one_level_deep() {
    let ws = WorldState {
        mode: GameMode::ArmyPlacement,
        current_player: 0,
        players: vec![player(0, 3, profile(3, 1, 1)), player(1, 0, profile(3, 1, 1))],
        cities: vec![city(0, 3, 2, Some(0)), city(0, 2, 2, Some(1))],
    };
    let wf = fixed(link(0, 1));
    let moves = possible_moves(&ws, &wf, 0, GameMode::ArmyPlacement);
    assert_eq!(moves.len(), 1);
    assert_eq!(moves[0].move_type, MoveType::PlaceArmy);
    assert_eq!(moves[0].city_source, 0);
    assert_eq!(moves[0].child_moves.len(), 1);
    assert_eq!(moves[0].child_moves[0].child_moves.len(), 0);
    assert_eq!(moves[0].best_score, moves[0].child_moves[0].best_score);
}

fn deepest(moves: &Vec<Move>) -> usize {
    let mut d = 0;
    for m in moves {
        let below = 1 + deepest(&m.child_moves);
        if below > d {
            d = below;
        }
    }
    d
}

fn widest(moves: &Vec<Move>) -> usize {
    let mut w = moves.len();
    for m in moves {
        let below = widest(&m.child_moves);
        if below > w {
            w = below;
        }
    }
    w
}

fn placement_world(depth: usize, no_choices: usize) -> (WorldState, WorldFixed) {
    let ws = WorldState {
        mode: GameMode::ArmyPlacement,
        current_player: 0,
        players: vec![player(0, 5, profile(3, depth, no_choices)), player(1, 0, profile(3, depth, no_choices))],
        cities: vec![
            city(0, 1, 1, Some(0)),
            city(0, 2, 1, Some(0)),
            city(0, 3, 1, Some(0)),
            city(0, 4, 1, Some(0)),
            city(1, 2, 1, Some(1)),
        ],
    };
    let mut connections = link(0, 4);
    connections.extend(link(1, 4));
    connections.extend(link(2, 3));
    (ws, fixed(connections))
}

#[test]
fn search_goes_exactly_to_its_depth() {
    for depth in 0..4 {
        let (ws, wf) = placement_world(depth, 2);
        let moves = possible_moves(&ws, &wf, 0, GameMode::ArmyPlacement);
        assert_eq!(deepest(&moves), depth + 1);
    }
}

#[test]
fn search_breadth_never_exceeds_choices() {
    for choices in 0..5 {
        let (ws, wf) = placement_world(2, choices);
        let moves = possible_moves(&ws, &wf, 0, GameMode::ArmyPlacement);
        assert!(widest(&moves) <= choices);
        assert_eq!(moves.len(), if choices < 4 { choices } else { 4 });
    }
}

#[test]
fn search_scores_sorted_and_best_propagated() {
    let (ws, wf) = placement_world(2, 3);
    let moves = possible_moves(&ws, &wf, 0, GameMode::ArmyPlacement);
    for i in 1..moves.len() {
        assert!(moves[i - 1].score_portion >= moves[i].score_portion);
    }
    for m in &moves {
        assert!(!m.child_moves.is_empty());
        assert_eq!(m.best_score, best_of_children(&m.child_moves));
    }
}

#[test]
fn placement_with_nothing_to_place_has_no_moves() {
    let (mut ws, wf) = placement_world(1, 3);
    ws.players[0].armies_to_assign = 0;
    assert!(possible_moves(&ws, &wf, 0, GameMode::ArmyPlacement).is_empty());
    assert!(possible_moves(&ws, &wf, 0, GameMode::Randomising).is_empty());
}

#[test]
fn candidates_start_unscored() {
    let (ws, wf) = two_city_world(3);
    for m in game_build_list_of_possibles(&ws, &wf, 0).iter().chain(ap_build_list_of_possibles(&ws, 0).iter()) {
        assert_eq!(m.score_portion, 0);
        assert_eq!(m.best_score, 0);
        assert!(m.child_moves.is_empty());
    }
}

#[test]
fn placement_candidates_skip_full_cities() {
    let (mut ws, _) = placement_world(1, 3);
    ws.cities[1].armies = 10;
    let moves = ap_build_list_of_possibles(&ws, 0);
    let sources: Vec<usize> = moves.iter().map(|m| m.city_source).collect();
    assert_eq!(sources, vec![0, 2, 3]);
}

#[test]
fn clone_is_independent() {
    let (ws, _) = placement_world(1, 3);
    let mut copy = ws.deep_clone();
    copy.cities[0].armies = 9;
    copy.cities[4].owner = Some(0);
    copy.players[0].armies_to_assign = 0;
    copy.current_player = 1;
    copy.mode = GameMode::End;
    assert_eq!(ws.cities[0].armies, 1);
    assert_eq!(ws.cities[4].owner, Some(1));
    assert_eq!(ws.players[0].armies_to_assign, 5);
    assert_eq!(ws.current_player, 0);
    assert_eq!(ws.mode, GameMode::ArmyPlacement);
    assert_eq!(ws.get_current_player_index(), 0);
    assert_eq!(copy.get_current_player().index, 1);
}

#[test]
fn dice_sorted_ascending() {
    assert_eq!(sort_dice(&vec![6, 1, 3, 3, 2, 6, 5]), vec![1, 2, 3, 3, 5, 6, 6]);
    assert_eq!(sort_dice(&vec![]), Vec::<u8>::new());
}

#[test]
fn rolled_dice_show_faces_one_to_six() {
    for n in 0..50 {
        let dice = roll_dice(n);
        assert_eq!(dice.len(), n);
        assert!(dice.iter().all(|d| (1..=6).contains(d)));
    }
}

#[test]
fn attack_that_fails_keeps_ownership() {
    // attacker 4 armies commits 3; defender 3 armies
    let mut cities = vec![city(0, 1, 4, Some(0)), city(1, 1, 3, Some(1))];
    resolve_attack(&mut cities, 0, 1, &vec![6, 1, 2], &vec![4, 5, 3]);
    // sorted: attacker 1 2 6, defender 3 4 5 -> defender, defender, attacker
    assert_eq!(cities[0].armies, 2);
    assert_eq!(cities[1].armies, 2);
    assert_eq!(cities[1].owner, Some(1));
    // conservation: attacker remaining 1 + lost 2 = 3 committed; defender 2 + lost 1 = 3
    assert_eq!((cities[0].armies - 1) + 2, 3);
    assert_eq!(cities[1].armies + 1, 3);
}

#[test]
fn attack_that_wins_takes_the_city() {
    let mut cities = vec![city(0, 1, 5, Some(0)), city(1, 1, 2, Some(1))];
    resolve_attack(&mut cities, 0, 1, &vec![6, 5, 1, 4], &vec![3, 2]);
    // sorted: attacker 1 4 5 6, defender 2 3; compared 1v2 (defender), 4v3 (attacker)
    assert_eq!(cities[0].armies, 4);
    assert_eq!(cities[1].armies, 1);
    assert_eq!(cities[1].owner, Some(1));
    let mut cities = vec![city(0, 1, 5, Some(0)), city(1, 1, 2, Some(1))];
    resolve_attack(&mut cities, 0, 1, &vec![6, 5, 4, 4], &vec![3, 2]);
    // sorted: attacker 4 4 5 6, defender 2 3; both pairs won, excess dice unused
    assert_eq!(cities[1].owner, Some(0));
    assert_eq!(cities[1].armies, 4);
    assert_eq!(cities[0].armies, 1);
}

#[test]
fn attack_ties_go_to_defender() {
    let mut cities = vec![city(0, 1, 3, Some(0)), city(1, 1, 2, Some(1))];
    resolve_attack(&mut cities, 0, 1, &vec![4, 4], &vec![4, 4]);
    assert_eq!(cities[0].armies, 1);
    assert_eq!(cities[1].armies, 2);
    assert_eq!(cities[1].owner, Some(1));
}

#[test]
fn real_attack_conserves_armies() {
    for _ in 0..50 {
        let (mut ws, _) = two_city_world(3);
        let m = Move::new_attack_city(0, 1);
        m.do_move(&mut ws);
        let a = ws.cities[0].armies;
        let d = ws.cities[1].armies;
        assert!(a >= 1);
        if ws.cities[1].owner == Some(0) {
            assert_eq!(a, 1);
            assert!(d >= 2 && d <= 4);
        } else {
            assert!(d >= 1 && d <= 2);
            assert!(a + d >= 5 && a + d <= 7);
        }
        assert!(7 - (a + d) <= 4 + 2);
    }
}

#[test]
fn last_army_placed_starts_attacks() {
    let mut ws = WorldState {
        mode: GameMode::ArmyPlacement,
        current_player: 1,
        players: vec![player(0, 0, profile(3, 0, 3)), player(1, 1, profile(3, 0, 3))],
        cities: vec![city(0, 1, 1, Some(0)), city(1, 1, 1, Some(1))],
    };
    let wf = fixed(link(0, 1));
    Move::new_place_army(1).do_move(&mut ws);
    assert_eq!(ws.cities[1].armies, 2);
    assert_eq!(ws.players[1].armies_to_assign, 0);
    next_turn(&mut ws, &wf);
    assert_eq!(ws.current_player, 0);
    assert_eq!(ws.mode, GameMode::Game);
}

#[test]
fn placement_waits_for_the_round_to_end() {
    let mut ws = WorldState {
        mode: GameMode::ArmyPlacement,
        current_player: 0,
        players: vec![player(0, 1, profile(3, 0, 3)), player(1, 0, profile(3, 0, 3))],
        cities: vec![city(0, 1, 1, Some(0)), city(1, 1, 1, Some(1))],
    };
    let wf = fixed(link(0, 1));
    Move::new_place_army(0).do_move(&mut ws);
    assert_eq!(ws.players[0].armies_to_assign, 0);
    next_turn(&mut ws, &wf);
    assert_eq!(ws.current_player, 1);
    assert_eq!(ws.mode, GameMode::ArmyPlacement);
    next_turn(&mut ws, &wf);
    assert_eq!(ws.current_player, 0);
    assert_eq!(ws.mode, GameMode::Game);
}

#[test]
fn placement_goes_on_while_armies_remain() {
    let mut ws = WorldState {
        mode: GameMode::ArmyPlacement,
        current_player: 1,
        players: vec![player(0, 2, profile(3, 0, 3)), player(1, 0, profile(3, 0, 3))],
        cities: vec![city(0, 1, 1, Some(0)), city(1, 1, 1, Some(1))],
    };
    next_turn(&mut ws, &fixed(Vec::new()));
    assert_eq!(ws.current_player, 0);
    assert_eq!(ws.mode, GameMode::ArmyPlacement);
}

#[test]
fn round_of_attacks_brings_reinforcements() {
    let mut ws = WorldState {
        mode: GameMode::Game,
        current_player: 1,
        players: vec![player(0, 0, profile(3, 0, 3)), player(1, 0, profile(3, 0, 3))],
        cities: vec![city(0, 5, 1, Some(0)), city(0, 4, 1, Some(0)), city(0, 3, 1, Some(0)), city(1, 2, 1, Some(1))],
    };
    ws.players[1].armies_to_assign_tenths = 9;
    ws.players[1].armies_to_assign = 1;
    next_turn(&mut ws, &fixed(Vec::new()));
    assert_eq!(ws.current_player, 0);
    assert_eq!(ws.mode, GameMode::ArmyPlacement);
    assert_eq!(ws.players[0].armies_to_assign, 1);
    assert_eq!(ws.players[0].armies_to_assign_tenths, 2);
    // one army still waiting, one more earned
    assert_eq!(ws.players[1].armies_to_assign, 2);
    assert_eq!(ws.players[1].armies_to_assign_tenths, 1);
}

#[test]
fn game_turn_passes_without_round_end() {
    let (mut ws, wf) = two_city_world(3);
    next_turn(&mut ws, &wf);
    assert_eq!(ws.current_player, 1);
    assert_eq!(ws.mode, GameMode::Game);
}

#[test]
fn randomising_hands_out_cities_then_places() {
    let mut ws = WorldState {
        mode: GameMode::Randomising,
        current_player: 0,
        players: vec![player(0, 3, profile(3, 0, 3)), player(1, 3, profile(3, 0, 3))],
        cities: vec![city(0, 1, 1, None), city(1, 1, 1, None)],
    };
    let mut wf = WorldFixed { territories: Vec::new(), connections: link(0, 1), cities_to_assign: vec![0, 1] };
    assign(&mut ws, &mut wf);
    assert_eq!(ws.cities[1].owner, Some(0));
    next_turn(&mut ws, &wf);
    assert_eq!(ws.mode, GameMode::Randomising);
    assign(&mut ws, &mut wf);
    assert_eq!(ws.cities[0].owner, Some(1));
    next_turn(&mut ws, &wf);
    assert_eq!(ws.current_player, 0);
    assert_eq!(ws.mode, GameMode::ArmyPlacement);
}

#[test]
fn computer_places_an_army_and_passes() {
    let (ws0, wf) = placement_world(1, 2);
    let mut ws = ws0.deep_clone();
    computer_turn(&mut ws, &wf);
    let before: usize = ws0.cities.iter().map(|c| c.armies).sum();
    let after: usize = ws.cities.iter().map(|c| c.armies).sum();
    assert_eq!(after, before + 1);
    assert_eq!(ws.players[0].armies_to_assign, 4);
    assert_eq!(ws.current_player, 1);
}

#[test]
fn computer_with_no_move_just_passes() {
    let (mut ws, wf) = two_city_world(6);
    computer_turn(&mut ws, &wf);
    assert_eq!(ws.current_player, 1);
    assert_eq!(ws.cities[0].armies, 5);
    assert_eq!(ws.cities[1].armies, 2);
}

#[test]
fn best_move_is_first_highest() {
    let mut moves = vec![Move::new_place_army(0), Move::new_place_army(1), Move::new_place_army(2)];
    moves[0].best_score = 3;
    moves[1].best_score = 7;
    moves[2].best_score = 7;
    assert_eq!(best_move_index(&moves), 1);
}

#[test]
fn top_selection_ranks_and_breaks_ties_by_index() {
    assert_eq!(select_top(&vec![5, 9, 1, 9, 7], 3), vec![1, 3, 4]);
    assert_eq!(select_top(&vec![5, 9], 5), vec![1, 0]);
    assert_eq!(select_top(&vec![], 2), Vec::<usize>::new());
    assert_eq!(select_top(&vec![4, 4, 4], 0), Vec::<usize>::new());
}

#[test]
fn score_share_in_ten_thousandths() {
    assert_eq!(score_portion(25, 100), 2500);
    assert_eq!(score_portion(1, 3), 3333);
    assert_eq!(score_portion(7, 0), 0);
    assert_eq!(score_portion(150, 100), 15000);
}

#[test]
fn attack_bonus_follows_advantage() {
    assert_eq!(attack_bonus(5, 2, 50), 150);
    assert_eq!(attack_bonus(3, 3, 50), 0);
    assert_eq!(attack_bonus(2, 5, 50), 5);
}

#[test]
fn city_size_from_population() {
    assert_eq!(City::new(0, 0).size, 1);
    assert_eq!(City::new(0, 149999).size, 1);
    assert_eq!(City::new(0, 150000).size, 2);
    assert_eq!(City::new(0, 499999).size, 2);
    assert_eq!(City::new(0, 500000).size, 3);
    assert_eq!(City::new(0, 2500000).size, 4);
    assert_eq!(City::new(3, 5000000).size, 5);
    assert_eq!(City::new(3, 5000000).territory, 3);
    assert_eq!(City::new(3, 5000000).armies, 1);
    assert_eq!(City::new(3, 5000000).owner, None);
}

#[test]
fn territory_holds_its_cities() {
    let t = Territory { name: String::from("Europe"), cities: vec![1, 2] };
    assert_eq!(t.cities.len(), 2);
    assert_eq!(t.name, "Europe");
}

#[test]
fn computer_attacks_when_it_can() {
    for _ in 0..30 {
        let (mut ws, wf) = two_city_world(3);
        computer_turn(&mut ws, &wf);
        assert_eq!(ws.current_player, 1);
        let a = ws.cities[0].armies;
        let d = ws.cities[1].armies;
        if ws.cities[1].owner == Some(0) {
            assert_eq!(a, 1);
        } else {
            assert!(a < 5 || d < 2);
            assert!(a >= 1 && d >= 1);
        }
    }
}
