use crate::combat::{total_armies, attack_ok, lemma_army_conservation, attack_result, resolve_attack, roll_dice};
use crate::world::{City, GameMode, Player, WorldState, WorldView, MAXIMUM_ARMIES_PER_CITY};
use vstd::prelude::*;

verus! {

/// The two kinds of action a player can take.
#[derive(Clone, Copy, Debug, PartialEq, Eq, Structural)]
pub enum MoveType {
    PlaceArmy,
    AttackCity,
}

/// What a move does: its kind, its source city and, for an attack, its target.
pub type Action = (MoveType, usize, Option<usize>);

/// A candidate action with its score and the best moves that could follow it.
#[derive(Debug)]
pub struct Move {
    pub move_type: MoveType,
    pub city_source: usize,
    pub city_target: Option<usize>,
    pub child_moves: Vec<Move>,
    /// The mover's share of all scores after the action, in ten-thousandths.
    pub score_portion: u64,
    /// The best score found below this move, or its own when it has no children.
    pub best_score: u64,
}

/// The cities as a search sees them after action `a`: a placed army is added;
/// an attack is left to the dice and changes no city until it is carried out.
pub open spec fn simulated(cities: Seq<City>, a: Action) -> Seq<City> {
    if a.0 == MoveType::PlaceArmy {
        cities.update(a.1 as int, City { armies: (cities[a.1 as int].armies + 1) as usize, ..cities[a.1 as int] })
    } else {
        cities
    }
}

/// The state the next level of a search starts from after action `a`: during
/// placement the army is counted off the mover's reinforcements, and the
/// phase turns to attacks when none are left.
pub open spec fn advanced(v: WorldView, a: Action) -> WorldView {
    let cities = simulated(v.cities, a);
    if v.mode == GameMode::ArmyPlacement {
        let p = v.current();
        let left: u32 = if p.armies_to_assign > 0 {
            (p.armies_to_assign - 1) as u32
        } else {
            0
        };
        WorldView {
            mode: if left == 0 {
                GameMode::Game
            } else {
                v.mode
            },
            players: v.players.update(v.current_player as int, Player { armies_to_assign: left, ..p }),
            cities,
            ..v
        }
    } else {
        WorldView { cities, ..v }
    }
}

/// Action `a` may be carried out in `v`.
pub open spec fn legal(v: WorldView, a: Action) -> bool {
    let p = v.current();
    &&& a.1 < v.cities.len()
    &&& v.cities[a.1 as int].owner == Some(v.current_player)
    &&& match a.0 {
        MoveType::PlaceArmy => a.2.is_none() && p.armies_to_assign > 0,
        MoveType::AttackCity => match a.2 {
            Some(t) => {
                &&& t < v.cities.len()
                &&& v.cities[t as int].owner != v.cities[a.1 as int].owner
                &&& v.cities[a.1 as int].armies >= p.profile.minimum_armies
                &&& v.cities[a.1 as int].armies >= 1
            },
            None => false,
        },
    }
}

/// The state after an army is placed on `source`: the city gains it and the
/// mover gives it up, unless the city is already full.
pub open spec fn placed(v: WorldView, source: int) -> WorldView {
    let c = v.cities[source];
    let p = v.current();
    if c.armies < MAXIMUM_ARMIES_PER_CITY {
        WorldView {
            cities: v.cities.update(source, City { armies: (c.armies + 1) as usize, ..c }),
            players: v.players.update(
                v.current_player as int,
                Player { armies_to_assign: (p.armies_to_assign - 1) as u32, ..p },
            ),
            ..v
        }
    } else {
        v
    }
}

/// `w` is a state that carrying out action `a` in `v` can lead to; an attack
/// depends on the dice.
pub open spec fn outcome(v: WorldView, a: Action, w: WorldView) -> bool {
    match a.0 {
        MoveType::PlaceArmy => w == placed(v, a.1 as int),
        MoveType::AttackCity => exists|da: Seq<u8>, dd: Seq<u8>|
            #![trigger attack_result(v.cities, a.1 as int, a.2->0 as int, da, dd)]
            attack_ok(v.cities, a.1 as int, a.2->0 as int, da, dd) && w == (WorldView {
                cities: attack_result(v.cities, a.1 as int, a.2->0 as int, da, dd),
                ..v
            }),
    }
}

impl Move {
    pub open spec fn action(&self) -> Action {
        (self.move_type, self.city_source, self.city_target)
    }

    pub fn new_attack_city(city_source: usize, city_target: usize) -> (r: Move)
        ensures
            r.action() == (MoveType::AttackCity, city_source, Some(city_target)),
            r.child_moves@.len() == 0,
            r.score_portion == 0,
            r.best_score == 0,
    {
        Move {
            move_type: MoveType::AttackCity,
            city_source,
            city_target: Some(city_target),
            child_moves: Vec::new(),
            score_portion: 0,
            best_score: 0,
        }
    }

    pub fn new_place_army(city_source: usize) -> (r: Move)
        ensures
            r.action() == (MoveType::PlaceArmy, city_source, None::<usize>),
            r.child_moves@.len() == 0,
            r.score_portion == 0,
            r.best_score == 0,
    {
        Move {
            move_type: MoveType::PlaceArmy,
            city_source,
            city_target: None,
            child_moves: Vec::new(),
            score_portion: 0,
            best_score: 0,
        }
    }

    /// Applies this move as a search sees it: see `simulated`.
    pub fn simulate(&self, world_state: &mut WorldState)
        requires
            old(world_state).wf(),
            self.move_type == MoveType::PlaceArmy ==> self.city_source < old(world_state).cities@.len()
                && old(world_state).cities@[self.city_source as int].armies < MAXIMUM_ARMIES_PER_CITY,
        ensures
            final(world_state)@ == (WorldView { cities: simulated(old(world_state).cities@, self.action()), ..old(world_state)@ }),
            final(world_state).wf(),
    {
        if self.move_type == MoveType::PlaceArmy {
            let c = world_state.cities[self.city_source];
            world_state.cities.set(self.city_source, City { armies: c.armies + 1, ..c });
        }
    }

    /// Carries this move out on the real state; an attack is decided by dice.
    pub fn do_move(&self, world_state: &mut WorldState)
        requires
            old(world_state).wf(),
            legal(old(world_state)@, self.action()),
        ensures
            final(world_state).wf(),
            outcome(old(world_state)@, self.action(), final(world_state)@),
            self.move_type == MoveType::AttackCity ==> ({
                let a = old(world_state).cities@[self.city_source as int].armies as int;
                let d = old(world_state).cities@[self.city_target->0 as int].armies as int;
                let before = total_armies(old(world_state).cities@);
                let after = total_armies(final(world_state).cities@);
                before - ((a - 1) + d) <= after <= before
            }),
    {
        match self.move_type {
            MoveType::PlaceArmy => {
                let c = world_state.cities[self.city_source];
                if c.armies < MAXIMUM_ARMIES_PER_CITY {
                    world_state.cities.set(self.city_source, City { armies: c.armies + 1, ..c });
                    let cp = world_state.current_player;
                    let p = world_state.players[cp];
                    world_state.players.set(cp, Player { armies_to_assign: p.armies_to_assign - 1, ..p });
                    assert(forall|i: int|
                        0 <= i < world_state.players@.len() ==> (#[trigger] world_state.players@[i]).index
                            == old(world_state).players@[i].index && world_state.players@[i].profile
                            == old(world_state).players@[i].profile);
                    assert(forall|j: int|
                        0 <= j < world_state.cities@.len() && j != self.city_source ==> #[trigger] world_state.cities@[j]
                            == old(world_state).cities@[j]);
                }
            },
            MoveType::AttackCity => {
                let source = self.city_source;
                let target = match self.city_target {
                    Some(t) => t,
                    None => source,
                };
                let dice_source = roll_dice(world_state.cities[source].armies - 1);
                let dice_target = roll_dice(world_state.cities[target].armies);
                let ghost before = world_state.cities@;
                resolve_attack(&mut world_state.cities, source, target, &dice_source, &dice_target);
                assert(attack_ok(before, source as int, target as int, dice_source@, dice_target@));
                proof {
                    lemma_army_conservation(before, source as int, target as int, dice_source@, dice_target@);
                }
            },
        }
    }
}

/// The state the next level of a search starts from after `m`: see `advanced`.
pub fn next_level_state(world_state: &WorldState, m: &Move) -> (r: WorldState)
    requires
        world_state.wf(),
        m.move_type == MoveType::PlaceArmy ==> m.city_source < world_state.cities@.len()
            && world_state.cities@[m.city_source as int].armies < MAXIMUM_ARMIES_PER_CITY,
    ensures
        r@ == advanced(world_state@, m.action()),
        r.wf(),
{
    let mut next = world_state.deep_clone();
    m.simulate(&mut next);
    if next.mode == GameMode::ArmyPlacement {
        let cp = next.current_player;
        let p = next.players[cp];
        let left: u32 = if p.armies_to_assign > 0 {
            p.armies_to_assign - 1
        } else {
            0
        };
        next.players.set(cp, Player { armies_to_assign: left, ..p });
        if left == 0 {
            next.mode = GameMode::Game;
        }
    }
    next
}

} // verus!
