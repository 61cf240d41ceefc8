use crate::moves::{legal, outcome, placed, Action, Move, MoveType};
use crate::search::{candidates, lemma_candidates, possible_moves, search_ok};
use crate::world::{
    City, GameMode, Player, WorldFixed, WorldState, WorldView, MAXIMUM_ARMIES_PER_CITY, MAX_CITIES, MAX_RESERVE,
};
use vstd::prelude::*;

verus! {

/// Tenths of an army that player `p` earns from the first `n` cities: one for
/// each size class of every city it owns.
pub open spec fn earned_tenths(cities: Seq<City>, p: usize, n: int) -> int
    decreases n,
{
    if n <= 0 {
        0
    } else {
        earned_tenths(cities, p, n - 1) + if cities[n - 1].owner == Some(p) {
            cities[n - 1].size as int
        } else {
            0
        }
    }
}

/// Player `p` after a round of attacks: what it earned is added to the tenths
/// it carried, the whole armies are moved into its reinforcements (which are
/// held at most `MAX_RESERVE`) and the rest is carried on.
pub open spec fn reinforced(p: Player, cities: Seq<City>) -> Player {
    let total = p.armies_to_assign_tenths + earned_tenths(cities, p.index, cities.len() as int);
    let armies = p.armies_to_assign + total / 10;
    Player {
        armies_to_assign: if armies > MAX_RESERVE {
            MAX_RESERVE
        } else {
            armies as u32
        },
        armies_to_assign_tenths: (total % 10) as u32,
        ..p
    }
}

/// No player has an army left to place.
pub open spec fn all_placed(players: Seq<Player>) -> bool {
    forall|i: int| 0 <= i < players.len() ==> (#[trigger] players[i]).armies_to_assign == 0
}

/// The state after the turn passes to the next player. Placement ends at the
/// end of a round in which no player has an army left to place; ownership is randomised until no city is left
/// to hand out at the end of a round; every round of attacks ends with
/// reinforcements and a new placement phase.
pub open spec fn turn_advanced(v: WorldView, queue_empty: bool) -> WorldView {
    let next = v.current_player + 1;
    let wrapped = next >= v.players.len();
    let v1 = WorldView {
        current_player: if wrapped {
            0
        } else {
            next as usize
        },
        ..v
    };
    match v.mode {
        GameMode::ArmyPlacement => if wrapped && all_placed(v.players) {
            WorldView { mode: GameMode::Game, ..v1 }
        } else {
            v1
        },
        GameMode::Randomising => if wrapped && queue_empty {
            WorldView { mode: GameMode::ArmyPlacement, ..v1 }
        } else {
            v1
        },
        GameMode::Game => if wrapped {
            WorldView {
                mode: GameMode::ArmyPlacement,
                players: Seq::new(v.players.len(), |i: int| reinforced(v.players[i], v.cities)),
                ..v1
            }
        } else {
            v1
        },
        GameMode::End => v1,
    }
}

proof fn lemma_earned_bound(cities: Seq<City>, p: usize, n: int)
    requires
        0 <= n <= cities.len(),
        forall|j: int| 0 <= j < cities.len() ==> (#[trigger] cities[j]).size <= 5,
    ensures
        0 <= earned_tenths(cities, p, n) <= 5 * n,
    decreases n,
{
    if n > 0 {
        lemma_earned_bound(cities, p, n - 1);
    }
}

/// Tenths of an army that player `p` earns from its cities.
fn earned(cities: &Vec<City>, p: usize) -> (r: u32)
    requires
        cities@.len() <= MAX_CITIES,
        forall|j: int| 0 <= j < cities@.len() ==> (#[trigger] cities@[j]).size <= 5,
    ensures
        r == earned_tenths(cities@, p, cities@.len() as int),
        r <= 5 * MAX_CITIES,
{
    let mut total: u32 = 0;
    let mut j: usize = 0;
    while j < cities.len()
        invariant
            cities@.len() <= MAX_CITIES,
            forall|x: int| 0 <= x < cities@.len() ==> (#[trigger] cities@[x]).size <= 5,
            j <= cities@.len(),
            total == earned_tenths(cities@, p, j as int),
        decreases cities@.len() - j,
    {
        proof {
            lemma_earned_bound(cities@, p, j as int + 1);
        }
        let owned = match cities[j].owner {
            Some(o) => o == p,
            None => false,
        };
        if owned {
            total = total + cities[j].size as u32;
        }
        j += 1;
    }
    proof {
        lemma_earned_bound(cities@, p, cities@.len() as int);
    }
    total
}

/// Whether no player has an army left to place.
fn all_armies_placed(players: &Vec<Player>) -> (r: bool)
    ensures
        r == all_placed(players@),
{
    let mut i: usize = 0;
    while i < players.len()
        invariant
            i <= players@.len(),
            forall|x: int| 0 <= x < i ==> (#[trigger] players@[x]).armies_to_assign == 0,
        decreases players@.len() - i,
    {
        if players[i].armies_to_assign != 0 {
            return false;
        }
        i += 1;
    }
    true
}

/// Passes the turn to the next player and moves the game to its next phase
/// when the current one is over.
pub fn next_turn(world_state: &mut WorldState, world_fixed: &WorldFixed)
    requires
        old(world_state).wf(),
    ensures
        final(world_state)@ == turn_advanced(old(world_state)@, world_fixed.cities_to_assign@.len() == 0),
        final(world_state).wf(),
{
    let ghost v = world_state@;
    let next = world_state.current_player + 1;
    let wrapped = next == world_state.players.len();
    world_state.current_player = if wrapped {
        0
    } else {
        next
    };
    match world_state.mode {
        GameMode::ArmyPlacement => {
            if wrapped && all_armies_placed(&world_state.players) {
                world_state.mode = GameMode::Game;
            }
        },
        GameMode::Randomising => {
            if wrapped && world_fixed.cities_to_assign.len() == 0 {
                world_state.mode = GameMode::ArmyPlacement;
            }
        },
        GameMode::Game => {
            if wrapped {
                let ghost cp = world_state.current_player;
                let mut i: usize = 0;
                while i < world_state.players.len()
                    invariant
                        v.wf(),
                        world_state.current_player == cp,
                        world_state.mode == v.mode,
                        world_state.cities@ == v.cities,
                        world_state.players@.len() == v.players.len(),
                        i <= v.players.len(),
                        forall|x: int| 0 <= x < i ==> #[trigger] world_state.players@[x] == reinforced(v.players[x], v.cities),
                        forall|x: int| i <= x < v.players.len() ==> #[trigger] world_state.players@[x] == v.players[x],
                    decreases v.players.len() - i,
                {
                    let p = world_state.players[i];
                    let e = earned(&world_state.cities, p.index);
                    let total = p.armies_to_assign_tenths + e;
                    let armies = p.armies_to_assign + total / 10;
                    let capped = if armies > MAX_RESERVE {
                        MAX_RESERVE
                    } else {
                        armies
                    };
                    world_state.players.set(
                        i,
                        Player { armies_to_assign: capped, armies_to_assign_tenths: total % 10, ..p },
                    );
                    i += 1;
                }
                assert(world_state.players@ =~= Seq::new(v.players.len(), |i: int| reinforced(v.players[i], v.cities)));
                assert forall|x: int| 0 <= x < world_state.players@.len() implies (#[trigger] world_state.players@[x]).index
                    == x && world_state.players@[x].profile.wf() && world_state.players@[x].armies_to_assign_tenths < 10
                    && world_state.players@[x].armies_to_assign <= MAX_RESERVE by {
                    assert(world_state.players@[x] == reinforced(v.players[x], v.cities));
                    lemma_earned_bound(v.cities, v.players[x].index, v.cities.len() as int);
                }
                world_state.mode = GameMode::ArmyPlacement;
            }
        },
        GameMode::End => {},
    }
}

/// Hands the next city waiting for an owner to the current player.
pub fn assign(world_state: &mut WorldState, world_fixed: &mut WorldFixed)
    requires
        old(world_state).wf(),
        old(world_fixed).cities_to_assign@.len() > 0,
        old(world_fixed).cities_to_assign@.last() < old(world_state).cities@.len(),
    ensures
        final(world_fixed).cities_to_assign@ == old(world_fixed).cities_to_assign@.drop_last(),
        final(world_fixed).territories@ == old(world_fixed).territories@,
        final(world_fixed).connections@ == old(world_fixed).connections@,
        ({
            let c = old(world_fixed).cities_to_assign@.last() as int;
            final(world_state)@ == (WorldView {
                cities: old(world_state).cities@.update(
                    c,
                    City { owner: Some(old(world_state).current_player), ..old(world_state).cities@[c] },
                ),
                ..old(world_state)@
            })
        }),
        final(world_state).wf(),
{
    let c = world_fixed.cities_to_assign.pop().unwrap();
    let city = world_state.cities[c];
    world_state.cities.set(c, City { owner: Some(world_state.current_player), ..city });
}

/// Index of the move with the highest best score, the first among equals.
pub fn best_move_index(moves: &Vec<Move>) -> (r: usize)
    requires
        moves@.len() > 0,
    ensures
        r < moves@.len(),
        forall|j: int| 0 <= j < moves@.len() ==> (#[trigger] moves@[j]).best_score <= moves@[r as int].best_score,
        forall|j: int| 0 <= j < r ==> (#[trigger] moves@[j]).best_score < moves@[r as int].best_score,
{
    let mut best: usize = 0;
    let mut i: usize = 1;
    while i < moves.len()
        invariant
            1 <= i <= moves@.len(),
            best < i,
            forall|j: int| 0 <= j < i ==> (#[trigger] moves@[j]).best_score <= moves@[best as int].best_score,
            forall|j: int| 0 <= j < best ==> (#[trigger] moves@[j]).best_score < moves@[best as int].best_score,
        decreases moves@.len() - i,
    {
        if moves[i].best_score > moves[best].best_score {
            best = i;
        }
        i += 1;
    }
    best
}

/// A computer player's turn: searches the moves open in the current phase,
/// carries out one with the highest best score among the moves the search
/// returns, and passes the turn on.
/// With no move open the turn simply passes.
pub fn computer_turn(world_state: &mut WorldState, world_fixed: &WorldFixed)
    requires
        old(world_state).wf_on(world_fixed),
    ensures
        final(world_state).wf(),
        ({
            let v = old(world_state)@;
            let cands = candidates(v, world_fixed.connections@, v.mode);
            let q = world_fixed.cities_to_assign@.len() == 0;
            if cands.len() > 0 && v.current().profile.no_choices > 0 {
                exists|a: Action, w: WorldView|
                    #![trigger outcome(v, a, w)]
                    cands.contains(a) && outcome(v, a, w) && final(world_state)@ == turn_advanced(w, q)
            } else {
                final(world_state)@ == turn_advanced(v, q)
            }
        }),
        ({
            let v = old(world_state)@;
            let conns = world_fixed.connections@;
            let q = world_fixed.cities_to_assign@.len() == 0;
            let d = v.current().profile.search_depth as int;
            let k = v.current().profile.no_choices as int;
            v.mode == GameMode::ArmyPlacement || v.mode == GameMode::Game ==> exists|ms: Seq<Move>|
                #![trigger search_ok(ms, v, conns, v.mode, 0, d, k)]
                search_ok(ms, v, conns, v.mode, 0, d, k) && if ms.len() > 0 {
                    exists|b: int, w: WorldView|
                        #![trigger outcome(v, ms[b].action(), w)]
                        0 <= b < ms.len() && (forall|j: int|
                            0 <= j < ms.len() ==> (#[trigger] ms[j]).best_score <= ms[b].best_score) && outcome(
                            v,
                            ms[b].action(),
                            w,
                        ) && final(world_state)@ == turn_advanced(w, q)
                } else {
                    final(world_state)@ == turn_advanced(v, q)
                }
        }),
{
    let ghost v = world_state@;
    let ghost conns = world_fixed.connections@;
    let mode = world_state.mode;
    if mode == GameMode::ArmyPlacement || mode == GameMode::Game {
        let moves = possible_moves(world_state, world_fixed, 0, mode);
        proof {
            lemma_candidates(v, conns, mode);
        }
        if moves.len() > 0 {
            let b = best_move_index(&moves);
            let ghost a = moves@[b as int].action();
            assert(candidates(v, conns, mode).contains(a));
            moves[b].do_move(world_state);
            let ghost w = world_state@;
            next_turn(world_state, world_fixed);
            assert(outcome(v, a, w));
            assert(outcome(v, moves@[b as int].action(), w));
            assert(search_ok(
                moves@,
                v,
                conns,
                mode,
                0,
                v.current().profile.search_depth as int,
                v.current().profile.no_choices as int,
            ));
        } else {
            next_turn(world_state, world_fixed);
            assert(search_ok(
                moves@,
                v,
                conns,
                mode,
                0,
                v.current().profile.search_depth as int,
                v.current().profile.no_choices as int,
            ));
        }
    } else {
        proof {
            lemma_candidates(v, conns, mode);
        }
        next_turn(world_state, world_fixed);
    }
}

/// Placement ends with its last army: when the player in the last seat
/// places its one remaining army on a city with room for it, and no other
/// player has any left, passing the turn completes the round and starts the
/// attacks.
pub proof fn lemma_placement_ends(v: WorldView, source: int, queue_empty: bool)
    requires
        v.wf(),
        v.mode == GameMode::ArmyPlacement,
        v.current_player + 1 == v.players.len(),
        legal(v, (MoveType::PlaceArmy, source as usize, None)),
        0 <= source < v.cities.len(),
        v.cities[source].armies < MAXIMUM_ARMIES_PER_CITY,
        v.current().armies_to_assign == 1,
        forall|i: int| 0 <= i < v.players.len() && i != v.current_player ==> (#[trigger] v.players[i]).armies_to_assign == 0,
    ensures
        turn_advanced(placed(v, source), queue_empty).mode == GameMode::Game,
{
    let w = placed(v, source);
    assert(all_placed(w.players)) by {
        assert forall|i: int| 0 <= i < w.players.len() implies (#[trigger] w.players[i]).armies_to_assign == 0 by {
            if i != v.current_player {
                assert(w.players[i] == v.players[i]);
            }
        }
    }
}

} // verus!
