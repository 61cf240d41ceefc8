use crate::random::random_below;
use crate::world::{
    City, Connection, Player, Profile, WorldFixed, WorldState, MAX_ARMIES, MAX_CITIES,
    MAX_CONNECTIONS, MAX_WEIGHT,
};
use vstd::prelude::*;

verus! {

/// Largest bonus one connection can give.
pub const MAX_BONUS: u64 = 200000000;
/// Largest score one city can reach.
pub const MAX_CITY_SCORE: u64 = 3000000000000;
/// Largest score one player's cities can reach together.
pub const MAX_BASE_SCORE: u64 = 3000000000000000;

/// `owner` is a player other than `me`'s owner.
pub open spec fn is_enemy(owner: Option<usize>, me: Option<usize>) -> bool {
    owner.is_some() && owner != me
}

/// What connection `c` adds to the score of city `i`: when it leaves `i` for an
/// enemy city, the city's armies weighted for bordering, and again for the
/// same territory when the neighbour shares it.
pub open spec fn connection_bonus(cities: Seq<City>, c: Connection, i: int, p: Profile) -> int {
    let me = cities[i];
    let other = cities[c.city2 as int];
    if c.city1 == i && is_enemy(other.owner, me.owner) {
        me.armies * p.army_bordering + if other.territory == me.territory {
            me.armies * p.army_same_territory
        } else {
            0
        }
    } else {
        0
    }
}

/// The bonuses of the first `n` connections.
pub open spec fn bonus_upto(cities: Seq<City>, conns: Seq<Connection>, i: int, p: Profile, n: int) -> int
    decreases n,
{
    if n <= 0 {
        0
    } else {
        bonus_upto(cities, conns, i, p, n - 1) + connection_bonus(cities, conns[n - 1], i, p)
    }
}

/// Score of city `i` under profile `p`.
pub open spec fn city_score(cities: Seq<City>, conns: Seq<Connection>, i: int, p: Profile) -> int {
    cities[i].size * p.city_size_multiplier + cities[i].armies * p.army_multiplier + bonus_upto(
        cities,
        conns,
        i,
        p,
        conns.len() as int,
    )
}

/// Sum of the scores of the cities among the first `n` that `player` owns.
pub open spec fn owned_score(
    cities: Seq<City>,
    conns: Seq<Connection>,
    player: int,
    p: Profile,
    n: int,
) -> int
    decreases n,
{
    if n <= 0 {
        0
    } else {
        owned_score(cities, conns, player, p, n - 1) + if cities[n - 1].owner == Some(player as usize) {
            city_score(cities, conns, n - 1, p)
        } else {
            0
        }
    }
}

/// Score of player `player` of `ws` before jitter.
pub open spec fn base_score(ws: &WorldState, fixed: &WorldFixed, player: int) -> int {
    owned_score(
        ws.cities@,
        fixed.connections@,
        player,
        ws.players@[player].profile,
        ws.cities@.len() as int,
    )
}

/// Width of the random jitter added to a score: a share of it, never under five.
pub open spec fn jitter_range(base: int, percent: int) -> int {
    if base * percent / 100 < 5 {
        5
    } else {
        base * percent / 100
    }
}

/// A score that a player with base score `base` may be given.
pub open spec fn jittered(base: int, percent: int, s: int) -> bool {
    base <= s < base + jitter_range(base, percent)
}

pub open spec fn cities_ok(cities: Seq<City>, conns: Seq<Connection>) -> bool {
    &&& cities.len() <= MAX_CITIES
    &&& conns.len() <= MAX_CONNECTIONS
    &&& forall|j: int| 0 <= j < cities.len() ==> (#[trigger] cities[j]).armies <= MAX_ARMIES && cities[j].size <= 5
    &&& forall|k: int|
        0 <= k < conns.len() ==> (#[trigger] conns[k]).city1 < cities.len() && conns[k].city2 < cities.len()
}

pub open spec fn weights_ok(p: Profile) -> bool {
    &&& p.city_size_multiplier <= MAX_WEIGHT
    &&& p.army_multiplier <= MAX_WEIGHT
    &&& p.army_same_territory <= MAX_WEIGHT
    &&& p.army_bordering <= MAX_WEIGHT
}

proof fn lemma_bonus_bounds(cities: Seq<City>, conns: Seq<Connection>, i: int, p: Profile, n: int)
    requires
        cities_ok(cities, conns),
        weights_ok(p),
        0 <= i < cities.len(),
        0 <= n <= conns.len(),
    ensures
        0 <= bonus_upto(cities, conns, i, p, n) <= n * MAX_BONUS,
    decreases n,
{
    if n > 0 {
        lemma_bonus_bounds(cities, conns, i, p, n - 1);
        let a = cities[i].armies as int;
        let b = p.army_bordering as int;
        let s = p.army_same_territory as int;
        assert(0 <= a * b <= 100000000) by (nonlinear_arith)
            requires
                0 <= a <= 10000,
                0 <= b <= 10000,
        ;
        assert(0 <= a * s <= 100000000) by (nonlinear_arith)
            requires
                0 <= a <= 10000,
                0 <= s <= 10000,
        ;
    }
}

proof fn lemma_city_score_bounds(cities: Seq<City>, conns: Seq<Connection>, i: int, p: Profile)
    requires
        cities_ok(cities, conns),
        weights_ok(p),
        0 <= i < cities.len(),
    ensures
        0 <= city_score(cities, conns, i, p) <= MAX_CITY_SCORE,
{
    lemma_bonus_bounds(cities, conns, i, p, conns.len() as int);
    let n = conns.len() as int;
    assert(n * MAX_BONUS <= 10000 * MAX_BONUS) by (nonlinear_arith)
        requires
            0 <= n <= 10000,
    ;
    let z = cities[i].size as int;
    let a = cities[i].armies as int;
    let c = p.city_size_multiplier as int;
    let m = p.army_multiplier as int;
    assert(0 <= z * c <= 50000) by (nonlinear_arith)
        requires
            0 <= z <= 5,
            0 <= c <= 10000,
    ;
    assert(0 <= a * m <= 100000000) by (nonlinear_arith)
        requires
            0 <= a <= 10000,
            0 <= m <= 10000,
    ;
}

pub proof fn lemma_owned_score_bounds(
    cities: Seq<City>,
    conns: Seq<Connection>,
    player: int,
    p: Profile,
    n: int,
)
    requires
        cities_ok(cities, conns),
        weights_ok(p),
        0 <= n <= cities.len(),
    ensures
        0 <= owned_score(cities, conns, player, p, n) <= n * MAX_CITY_SCORE,
        owned_score(cities, conns, player, p, n) <= MAX_BASE_SCORE,
    decreases n,
{
    if n > 0 {
        lemma_owned_score_bounds(cities, conns, player, p, n - 1);
        lemma_city_score_bounds(cities, conns, n - 1, p);
    }
    assert(n * MAX_CITY_SCORE <= 1000 * MAX_CITY_SCORE) by (nonlinear_arith)
        requires
            0 <= n <= 1000,
    ;
}

/// Score of city `city` under `profile`: its size and armies, weighted, and a
/// bonus for each connection that leaves it for an enemy city.
pub fn score_for_city(
    cities: &Vec<City>,
    connections: &Vec<Connection>,
    city: usize,
    profile: &Profile,
) -> (r: u64)
    requires
        cities_ok(cities@, connections@),
        weights_ok(*profile),
        city < cities@.len(),
    ensures
        r == city_score(cities@, connections@, city as int, *profile),
{
    proof {
        lemma_city_score_bounds(cities@, connections@, city as int, *profile);
        lemma_bonus_bounds(cities@, connections@, city as int, *profile, connections@.len() as int);
    }
    let me = cities[city];
    let base: u64 = me.size as u64 * profile.city_size_multiplier + me.armies as u64 * profile.army_multiplier;
    let mut bonus: u64 = 0;
    let mut k: usize = 0;
    while k < connections.len()
        invariant
            cities_ok(cities@, connections@),
            weights_ok(*profile),
            city < cities@.len(),
            me == cities@[city as int],
            k <= connections@.len(),
            bonus == bonus_upto(cities@, connections@, city as int, *profile, k as int),
        decreases connections@.len() - k,
    {
        proof {
            lemma_bonus_bounds(cities@, connections@, city as int, *profile, k as int + 1);
            assert(k * MAX_BONUS + MAX_BONUS <= 10000 * MAX_BONUS) by (nonlinear_arith)
                requires
                    k < 10000,
            ;
            lemma_bonus_bounds(cities@, connections@, city as int, *profile, k as int);
        }
        let c = connections[k];
        if c.city1 == city {
            let other = cities[c.city2];
            let enemy = match (other.owner, me.owner) {
                (Some(o), Some(m)) => o != m,
                (Some(_), None) => true,
                (None, _) => false,
            };
            if enemy {
                let a = me.armies as u64;
                proof {
                    assert(a * profile.army_bordering <= 100000000) by (nonlinear_arith)
                        requires
                            a <= 10000,
                            profile.army_bordering <= 10000,
                    ;
                    assert(a * profile.army_same_territory <= 100000000) by (nonlinear_arith)
                        requires
                            a <= 10000,
                            profile.army_same_territory <= 10000,
                    ;
                }
                bonus = bonus + a * profile.army_bordering;
                if other.territory == me.territory {
                    bonus = bonus + a * profile.army_same_territory;
                }
            }
        }
        k += 1;
    }
    proof {
        let z = me.size as int;
        let a = me.armies as int;
        assert(z * profile.city_size_multiplier <= 50000) by (nonlinear_arith)
            requires
                z <= 5,
                profile.city_size_multiplier <= 10000,
        ;
        assert(a * profile.army_multiplier <= 100000000) by (nonlinear_arith)
            requires
                a <= 10000,
                profile.army_multiplier <= 10000,
        ;
    }
    base + bonus
}

impl Player {
    /// Sum of the scores of the cities this player owns, before jitter.
    pub fn get_score(&self, world_state: &WorldState, world_fixed: &WorldFixed) -> (r: u64)
        requires
            world_state.wf_on(world_fixed),
            self.profile.wf(),
        ensures
            r == owned_score(
                world_state.cities@,
                world_fixed.connections@,
                self.index as int,
                self.profile,
                world_state.cities@.len() as int,
            ),
    {
        let cities = &world_state.cities;
        let conns = &world_fixed.connections;
        let mut score: u64 = 0;
        let mut j: usize = 0;
        while j < cities.len()
            invariant
                world_state.wf_on(world_fixed),
                self.profile.wf(),
                cities == &world_state.cities,
                conns == &world_fixed.connections,
                j <= cities@.len(),
                score == owned_score(cities@, conns@, self.index as int, self.profile, j as int),
            decreases cities@.len() - j,
        {
            proof {
                lemma_owned_score_bounds(cities@, conns@, self.index as int, self.profile, j as int + 1);
            }
            let owned = match cities[j].owner {
                Some(o) => o == self.index,
                None => false,
            };
            if owned {
                score = score + score_for_city(cities, conns, j, &self.profile);
            }
            j += 1;
        }
        score
    }

    /// Sets this player's score to its base score plus a random jitter.
    pub fn calculate_score(&mut self, world_state: &WorldState, world_fixed: &WorldFixed)
        requires
            world_state.wf_on(world_fixed),
            old(self).profile.wf(),
        ensures
            *final(self) == (Player { score: final(self).score, ..*old(self) }),
            jittered(
                owned_score(
                    world_state.cities@,
                    world_fixed.connections@,
                    old(self).index as int,
                    old(self).profile,
                    world_state.cities@.len() as int,
                ),
                old(self).profile.random_percent as int,
                final(self).score as int,
            ),
    {
        let base = self.get_score(world_state, world_fixed);
        proof {
            lemma_owned_score_bounds(
                world_state.cities@,
                world_fixed.connections@,
                self.index as int,
                self.profile,
                world_state.cities@.len() as int,
            );
            assert(base * self.profile.random_percent <= MAX_BASE_SCORE * 100) by (nonlinear_arith)
                requires
                    base <= MAX_BASE_SCORE,
                    self.profile.random_percent <= 100,
            ;
            assert(base * self.profile.random_percent / 100 <= base) by (nonlinear_arith)
                requires
                    self.profile.random_percent <= 100,
            ;
        }
        let share = base * self.profile.random_percent / 100;
        let range: u64 = if share < 5 {
            5
        } else {
            share
        };
        let jitter = random_below(range);
        self.score = base + jitter;
    }
}

impl WorldState {
    /// Gives every player a fresh score: its base score plus a random jitter.
    pub fn update_scores(&mut self, world_fixed: &WorldFixed)
        requires
            old(self).wf_on(world_fixed),
        ensures
            final(self).mode == old(self).mode,
            final(self).current_player == old(self).current_player,
            final(self).cities@ == old(self).cities@,
            final(self).players@.len() == old(self).players@.len(),
            forall|i: int|
                0 <= i < old(self).players@.len() ==> (#[trigger] final(self).players@[i]) == (Player {
                    score: final(self).players@[i].score,
                    ..old(self).players@[i]
                }) && jittered(
                    base_score(old(self), world_fixed, i),
                    old(self).players@[i].profile.random_percent as int,
                    final(self).players@[i].score as int,
                ),
            final(self).wf(),
    {
        let ghost start = self.players@;
        let mut i: usize = 0;
        while i < self.players.len()
            invariant
                self.wf_on(world_fixed),
                self.mode == old(self).mode,
                self.current_player == old(self).current_player,
                self.cities@ == old(self).cities@,
                start == old(self).players@,
                self.players@.len() == start.len(),
                i <= start.len(),
                forall|t: int|
                    0 <= t < start.len() ==> (#[trigger] self.players@[t]) == (Player {
                        score: self.players@[t].score,
                        ..start[t]
                    }),
                forall|t: int|
                    0 <= t < i ==> jittered(
                        base_score(old(self), world_fixed, t),
                        start[t].profile.random_percent as int,
                        (#[trigger] self.players@[t]).score as int,
                    ),
            decreases start.len() - i,
        {
            let mut p = self.players[i];
            p.calculate_score(self, world_fixed);
            self.players.set(i, p);
            i += 1;
        }
    }
}

} // verus!
