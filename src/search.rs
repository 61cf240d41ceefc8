use crate::moves::{advanced, next_level_state, simulated, Action, Move, MoveType};
use crate::scoring::{jittered, lemma_owned_score_bounds, owned_score, MAX_BASE_SCORE};
use crate::world::{
    City, Connection, GameMode, WorldFixed, WorldState, WorldView, MAXIMUM_ARMIES_PER_CITY,
    MAX_ARMIES, MAX_PLAYERS, MAX_WEIGHT,
};
use vstd::prelude::*;

verus! {

/// One placement per city among the first `n` that player `p` owns and that
/// is not yet full, in city order.
pub open spec fn place_candidates(cities: Seq<City>, p: usize, n: int) -> Seq<Action>
    decreases n,
{
    if n <= 0 {
        seq![]
    } else {
        let prev = place_candidates(cities, p, n - 1);
        if cities[n - 1].owner == Some(p) && cities[n - 1].armies < MAXIMUM_ARMIES_PER_CITY {
            prev.push((MoveType::PlaceArmy, (n - 1) as usize, None))
        } else {
            prev
        }
    }
}

/// Some action of `acc` already targets city `t`.
pub open spec fn has_target(acc: Seq<Action>, t: usize) -> bool {
    exists|i: int| 0 <= i < acc.len() && (#[trigger] acc[i]).2 == Some(t)
}

/// City `t` belongs to a player other than `p`.
pub open spec fn enemy_of(cities: Seq<City>, t: int, p: usize) -> bool {
    cities[t].owner.is_some() && cities[t].owner != Some(p)
}

/// `acc` extended, in connection order among the first `k`, with an attack from
/// city `j` along each connection to an enemy city that no earlier attack
/// targets.
pub open spec fn scan_city(
    cities: Seq<City>,
    conns: Seq<Connection>,
    p: usize,
    j: int,
    acc: Seq<Action>,
    k: int,
) -> Seq<Action>
    decreases k,
{
    if k <= 0 {
        acc
    } else {
        let a = scan_city(cities, conns, p, j, acc, k - 1);
        let c = conns[k - 1];
        if c.city1 == j && enemy_of(cities, c.city2 as int, p) && !has_target(a, c.city2) {
            a.push((MoveType::AttackCity, j as usize, Some(c.city2)))
        } else {
            a
        }
    }
}

/// City `j` may attack for player `p` under threshold `min`.
pub open spec fn can_attack_from(cities: Seq<City>, p: usize, min: usize, j: int) -> bool {
    cities[j].owner == Some(p) && cities[j].armies >= min && cities[j].armies >= 1
}

/// The attacks open to player `p` from the first `n` cities.
pub open spec fn attack_candidates(
    cities: Seq<City>,
    conns: Seq<Connection>,
    p: usize,
    min: usize,
    n: int,
) -> Seq<Action>
    decreases n,
{
    if n <= 0 {
        seq![]
    } else {
        let prev = attack_candidates(cities, conns, p, min, n - 1);
        if can_attack_from(cities, p, min, n - 1) {
            scan_city(cities, conns, p, n - 1, prev, conns.len() as int)
        } else {
            prev
        }
    }
}

/// The actions open to the current player of `v` in phase `mode`.
pub open spec fn candidates(v: WorldView, conns: Seq<Connection>, mode: GameMode) -> Seq<Action> {
    let p = v.current();
    match mode {
        GameMode::ArmyPlacement => if p.armies_to_assign == 0 {
            seq![]
        } else {
            place_candidates(v.cities, v.current_player, v.cities.len() as int)
        },
        GameMode::Game => attack_candidates(
            v.cities,
            conns,
            v.current_player,
            p.profile.minimum_armies,
            v.cities.len() as int,
        ),
        _ => seq![],
    }
}

pub open spec fn actions(ms: Seq<Move>) -> Seq<Action> {
    ms.map_values(|m: Move| m.action())
}

/// What is known of every candidate: a placement on a city of the player
/// that is not full, or an attack on an enemy city from one that can attack.
pub open spec fn candidate_ok(
    cities: Seq<City>,
    conns: Seq<Connection>,
    p: usize,
    min: usize,
    a: Action,
) -> bool {
    &&& a.1 < cities.len()
    &&& cities[a.1 as int].owner == Some(p)
    &&& match a.0 {
        MoveType::PlaceArmy => a.2.is_none() && cities[a.1 as int].armies < MAXIMUM_ARMIES_PER_CITY,
        MoveType::AttackCity => match a.2 {
            Some(t) => t < cities.len() && enemy_of(cities, t as int, p) && can_attack_from(
                cities,
                p,
                min,
                a.1 as int,
            ),
            None => false,
        },
    }
}

pub open spec fn no_dups(s: Seq<Action>) -> bool {
    forall|i: int, j: int| 0 <= i < j < s.len() ==> s[i] != s[j]
}

pub open spec fn conns_ok(conns: Seq<Connection>, n: int) -> bool {
    forall|k: int| 0 <= k < conns.len() ==> (#[trigger] conns[k]).city1 < n && conns[k].city2 < n
}

proof fn lemma_place_candidates(cities: Seq<City>, p: usize, min: usize, conns: Seq<Connection>, n: int)
    requires
        0 <= n <= cities.len() <= crate::world::MAX_CITIES,
    ensures
        forall|i: int|
            0 <= i < place_candidates(cities, p, n).len() ==> candidate_ok(
                cities,
                conns,
                p,
                min,
                #[trigger] place_candidates(cities, p, n)[i],
            ) && place_candidates(cities, p, n)[i].1 < n && place_candidates(cities, p, n)[i].0
                == MoveType::PlaceArmy,
        forall|i: int, j: int|
            0 <= i < j < place_candidates(cities, p, n).len() ==> place_candidates(cities, p, n)[i].1
                < place_candidates(cities, p, n)[j].1,
        no_dups(place_candidates(cities, p, n)),
    decreases n,
{
    if n > 0 {
        lemma_place_candidates(cities, p, min, conns, n - 1);
        let prev = place_candidates(cities, p, n - 1);
        let r = place_candidates(cities, p, n);
        if r.len() > prev.len() {
            assert(r == prev.push((MoveType::PlaceArmy, (n - 1) as usize, None)));
            assert forall|i: int| 0 <= i < r.len() implies candidate_ok(cities, conns, p, min, #[trigger] r[i])
                && r[i].1 < n && r[i].0 == MoveType::PlaceArmy by {
                if i < prev.len() {
                    assert(r[i] == prev[i]);
                }
            }
            assert forall|i: int, j: int| 0 <= i < j < r.len() implies r[i].1 < r[j].1 by {
                assert(r[i] == prev[i]);
                if j < prev.len() {
                    assert(r[j] == prev[j]);
                }
            }
        }
    }
}

proof fn lemma_scan_city(
    cities: Seq<City>,
    conns: Seq<Connection>,
    p: usize,
    min: usize,
    j: int,
    acc: Seq<Action>,
    k: int,
)
    requires
        0 <= j < cities.len() <= crate::world::MAX_CITIES,
        0 <= k <= conns.len(),
        conns_ok(conns, cities.len() as int),
        can_attack_from(cities, p, min, j),
        forall|i: int| 0 <= i < acc.len() ==> candidate_ok(cities, conns, p, min, #[trigger] acc[i]) && acc[i].0
            == MoveType::AttackCity,
        forall|i: int, l: int| 0 <= i < l < acc.len() ==> acc[i].2 != acc[l].2,
    ensures
        ({
            let r = scan_city(cities, conns, p, j, acc, k);
            &&& forall|i: int| 0 <= i < r.len() ==> candidate_ok(cities, conns, p, min, #[trigger] r[i]) && r[i].0
                == MoveType::AttackCity
            &&& forall|i: int, l: int| 0 <= i < l < r.len() ==> r[i].2 != r[l].2
        }),
    decreases k,
{
    if k > 0 {
        lemma_scan_city(cities, conns, p, min, j, acc, k - 1);
        let a = scan_city(cities, conns, p, j, acc, k - 1);
        let c = conns[k - 1];
        if c.city1 == j && enemy_of(cities, c.city2 as int, p) && !has_target(a, c.city2) {
            let r = a.push((MoveType::AttackCity, j as usize, Some(c.city2)));
            assert forall|i: int, l: int| 0 <= i < l < r.len() implies r[i].2 != r[l].2 by {
                if l == r.len() - 1 {
                    assert(a[i].2 != Some(c.city2));
                }
            }
        }
    }
}

proof fn lemma_attack_candidates(cities: Seq<City>, conns: Seq<Connection>, p: usize, min: usize, n: int)
    requires
        0 <= n <= cities.len() <= crate::world::MAX_CITIES,
        conns_ok(conns, cities.len() as int),
    ensures
        ({
            let r = attack_candidates(cities, conns, p, min, n);
            &&& forall|i: int| 0 <= i < r.len() ==> candidate_ok(cities, conns, p, min, #[trigger] r[i]) && r[i].0
                == MoveType::AttackCity
            &&& forall|i: int, l: int| 0 <= i < l < r.len() ==> r[i].2 != r[l].2
            &&& no_dups(r)
        }),
    decreases n,
{
    if n > 0 {
        lemma_attack_candidates(cities, conns, p, min, n - 1);
        if can_attack_from(cities, p, min, n - 1) {
            lemma_scan_city(
                cities,
                conns,
                p,
                min,
                n - 1,
                attack_candidates(cities, conns, p, min, n - 1),
                conns.len() as int,
            );
        }
    }
    let r = attack_candidates(cities, conns, p, min, n);
    assert forall|i: int, j: int| 0 <= i < j < r.len() implies r[i] != r[j] by {
        assert(r[i].2 != r[j].2);
    }
}

/// Every candidate is well formed and none is offered twice.
pub proof fn lemma_candidates(v: WorldView, conns: Seq<Connection>, mode: GameMode)
    requires
        v.wf(),
        conns_ok(conns, v.cities.len() as int),
    ensures
        forall|i: int|
            0 <= i < candidates(v, conns, mode).len() ==> candidate_ok(
                v.cities,
                conns,
                v.current_player,
                v.current().profile.minimum_armies,
                #[trigger] candidates(v, conns, mode)[i],
            ),
        no_dups(candidates(v, conns, mode)),
        mode == GameMode::Game ==> forall|i: int|
            0 <= i < candidates(v, conns, mode).len() ==> (#[trigger] candidates(v, conns, mode)[i]).0
                == MoveType::AttackCity,
        mode == GameMode::ArmyPlacement ==> forall|i: int|
            0 <= i < candidates(v, conns, mode).len() ==> (#[trigger] candidates(v, conns, mode)[i]).0
                == MoveType::PlaceArmy && v.current().armies_to_assign > 0,
        mode != GameMode::Game && mode != GameMode::ArmyPlacement ==> candidates(v, conns, mode).len() == 0,
{
    let min = v.current().profile.minimum_armies;
    lemma_place_candidates(v.cities, v.current_player, min, conns, v.cities.len() as int);
    lemma_attack_candidates(v.cities, conns, v.current_player, min, v.cities.len() as int);
}

/// The placements open to `current_player`: one per city of theirs that is
/// not full.
pub fn ap_build_list_of_possibles(world_state: &WorldState, current_player: usize) -> (r: Vec<Move>)
    ensures
        actions(r@) == place_candidates(world_state.cities@, current_player, world_state.cities@.len() as int),
        forall|i: int| 0 <= i < r@.len() ==> (#[trigger] r@[i]).child_moves@.len() == 0 && r@[i].score_portion == 0
            && r@[i].best_score == 0,
{
    let mut results: Vec<Move> = Vec::new();
    let mut j: usize = 0;
    while j < world_state.cities.len()
        invariant
            j <= world_state.cities@.len(),
            actions(results@) == place_candidates(world_state.cities@, current_player, j as int),
            forall|i: int| 0 <= i < results@.len() ==> (#[trigger] results@[i]).child_moves@.len() == 0
                && results@[i].score_portion == 0 && results@[i].best_score == 0,
        decreases world_state.cities@.len() - j,
    {
        let c = world_state.cities[j];
        let owned = match c.owner {
            Some(o) => o == current_player,
            None => false,
        };
        if owned && c.armies < MAXIMUM_ARMIES_PER_CITY {
            let m = Move::new_place_army(j);
            let ghost before = results@;
            results.push(m);
            assert(actions(results@) =~= actions(before).push(m.action()));
        }
        j += 1;
    }
    results
}

/// Whether some move of `moves` targets city `target`.
fn targets(moves: &Vec<Move>, target: usize) -> (r: bool)
    ensures
        r == has_target(actions(moves@), target),
{
    let mut i: usize = 0;
    while i < moves.len()
        invariant
            i <= moves@.len(),
            forall|l: int| 0 <= l < i ==> (#[trigger] moves@[l]).city_target != Some(target),
        decreases moves@.len() - i,
    {
        let hit = match moves[i].city_target {
            Some(t) => t == target,
            None => false,
        };
        if hit {
            assert(actions(moves@)[i as int].2 == Some(target));
            return true;
        }
        i += 1;
    }
    assert forall|l: int| 0 <= l < actions(moves@).len() implies #[trigger] actions(moves@)[l].2 != Some(target) by {
        assert(moves@[l].city_target != Some(target));
    }
    false
}

/// The attacks open to `current_player`: from each of their cities with
/// enough armies, along each connection to an enemy city, keeping only the
/// first attack found on any one target.
pub fn game_build_list_of_possibles(
    world_state: &WorldState,
    world_fixed: &WorldFixed,
    current_player: usize,
) -> (r: Vec<Move>)
    requires
        world_state.wf_on(world_fixed),
        current_player < world_state.players@.len(),
    ensures
        actions(r@) == attack_candidates(
            world_state.cities@,
            world_fixed.connections@,
            current_player,
            world_state.players@[current_player as int].profile.minimum_armies,
            world_state.cities@.len() as int,
        ),
        forall|i: int| 0 <= i < r@.len() ==> (#[trigger] r@[i]).child_moves@.len() == 0 && r@[i].score_portion == 0
            && r@[i].best_score == 0,
{
    let ghost cities = world_state.cities@;
    let ghost conns = world_fixed.connections@;
    let min = world_state.players[current_player].profile.minimum_armies;
    let mut results: Vec<Move> = Vec::new();
    let mut j: usize = 0;
    while j < world_state.cities.len()
        invariant
            world_state.wf_on(world_fixed),
            cities == world_state.cities@,
            conns == world_fixed.connections@,
            j <= cities.len(),
            actions(results@) == attack_candidates(cities, conns, current_player, min, j as int),
            forall|i: int| 0 <= i < results@.len() ==> (#[trigger] results@[i]).child_moves@.len() == 0
                && results@[i].score_portion == 0 && results@[i].best_score == 0,
        decreases cities.len() - j,
    {
        let c = world_state.cities[j];
        let owned = match c.owner {
            Some(o) => o == current_player,
            None => false,
        };
        if owned && c.armies >= min && c.armies >= 1 {
            let ghost prev = actions(results@);
            let mut k: usize = 0;
            while k < world_fixed.connections.len()
                invariant
                    world_state.wf_on(world_fixed),
                    cities == world_state.cities@,
                    conns == world_fixed.connections@,
                    j < cities.len(),
                    k <= conns.len(),
                    actions(results@) == scan_city(cities, conns, current_player, j as int, prev, k as int),
                    forall|i: int| 0 <= i < results@.len() ==> (#[trigger] results@[i]).child_moves@.len() == 0
                && results@[i].score_portion == 0 && results@[i].best_score == 0,
                decreases conns.len() - k,
            {
                let conn = world_fixed.connections[k];
                if conn.city1 == j {
                    let enemy = match world_state.cities[conn.city2].owner {
                        Some(o) => o != current_player,
                        None => false,
                    };
                    if enemy && !targets(&results, conn.city2) {
                        let m = Move::new_attack_city(j, conn.city2);
                        let ghost before = results@;
                        results.push(m);
                        assert(actions(results@) =~= actions(before).push(m.action()));
                    }
                }
                k += 1;
            }
        }
        j += 1;
    }
    results
}

/// `a` ranks before `b` by `keys`: a higher key, or an equal key and an
/// earlier index.
pub open spec fn ranks_before(keys: Seq<u64>, a: int, b: int) -> bool {
    keys[a] > keys[b] || (keys[a] == keys[b] && a < b)
}

pub open spec fn count_true(s: Seq<bool>) -> nat
    decreases s.len(),
{
    if s.len() == 0 {
        0
    } else {
        count_true(s.drop_last()) + if s.last() {
            1nat
        } else {
            0nat
        }
    }
}

proof fn lemma_count_true_update(s: Seq<bool>, i: int)
    requires
        0 <= i < s.len(),
        !s[i],
    ensures
        count_true(s.update(i, true)) == count_true(s) + 1,
    decreases s.len(),
{
    if i < s.len() - 1 {
        lemma_count_true_update(s.drop_last(), i);
        assert(s.update(i, true).drop_last() == s.drop_last().update(i, true));
    } else {
        assert(s.update(i, true).drop_last() == s.drop_last());
    }
}

proof fn lemma_some_false(s: Seq<bool>)
    requires
        count_true(s) < s.len(),
    ensures
        exists|i: int| 0 <= i < s.len() && !s[i],
    decreases s.len(),
{
    if s.last() {
        lemma_some_false(s.drop_last());
        let i = choose|i: int| 0 <= i < s.drop_last().len() && !s.drop_last()[i];
        assert(!s[i]);
    } else {
        assert(!s[s.len() - 1]);
    }
}

proof fn lemma_count_le(s: Seq<bool>)
    ensures
        count_true(s) <= s.len(),
    decreases s.len(),
{
    if s.len() > 0 {
        lemma_count_le(s.drop_last());
    }
}

/// `r` holds the indices of the `k` highest keys (all of them when there are
/// fewer), in rank order: see `ranks_before`.
pub open spec fn top_ranked(keys: Seq<u64>, k: int, r: Seq<usize>) -> bool {
    &&& r.len() == if k < keys.len() {
        k
    } else {
        keys.len() as int
    }
    &&& forall|i: int| 0 <= i < r.len() ==> #[trigger] r[i] < keys.len()
    &&& forall|i: int, j: int| 0 <= i < j < r.len() ==> ranks_before(keys, r[i] as int, r[j] as int)
    &&& forall|i: int, x: int|
        #![trigger r[i], keys[x]]
        0 <= i < r.len() && 0 <= x < keys.len() && !r.contains(x as usize) ==> ranks_before(keys, r[i] as int, x)
}

/// The indices of the `k` highest keys in rank order (see `top_ranked`).
pub open spec fn top_indices(keys: Seq<u64>, k: int) -> Seq<usize> {
    choose|r: Seq<usize>| top_ranked(keys, k, r)
}

/// Only one sequence of indices is ranked on top: ties go to the earlier index.
pub proof fn lemma_top_ranked_unique(keys: Seq<u64>, k: int, r1: Seq<usize>, r2: Seq<usize>)
    requires
        top_ranked(keys, k, r1),
        top_ranked(keys, k, r2),
    ensures
        r1 == r2,
{
    assert forall|p: int| 0 <= p < r1.len() implies r1[p] == r2[p] by {
        lemma_top_ranked_at(keys, k, r1, r2, p);
    }
    assert(r1 =~= r2);
}

proof fn lemma_top_ranked_at(keys: Seq<u64>, k: int, r1: Seq<usize>, r2: Seq<usize>, p: int)
    requires
        top_ranked(keys, k, r1),
        top_ranked(keys, k, r2),
        0 <= p < r1.len(),
    ensures
        r1[p] == r2[p],
    decreases p,
{
    assert forall|q: int| 0 <= q < p implies r1[q] == r2[q] by {
        lemma_top_ranked_at(keys, k, r1, r2, q);
    }
    lemma_not_ahead(keys, k, r1, r2, p);
    lemma_not_ahead(keys, k, r2, r1, p);
}

proof fn lemma_not_ahead(keys: Seq<u64>, k: int, r1: Seq<usize>, r2: Seq<usize>, p: int)
    requires
        top_ranked(keys, k, r1),
        top_ranked(keys, k, r2),
        0 <= p < r1.len(),
        forall|q: int| 0 <= q < p ==> r1[q] == r2[q],
    ensures
        !ranks_before(keys, r1[p] as int, r2[p] as int),
{
    let a = r1[p];
    if !ranks_before(keys, r1[p] as int, r2[p] as int) {
    } else if r2.contains(a) {
        let q = choose|q: int| 0 <= q < r2.len() && r2[q] == a;
        if q < p {
            assert(r1[q] == a);
            assert(ranks_before(keys, r1[q] as int, r1[p] as int));
        } else if q > p {
            assert(ranks_before(keys, r2[p] as int, r2[q] as int));
        }
    } else {
        assert(keys[a as int] == keys[a as int]);
        assert(ranks_before(keys, r2[p] as int, a as int));
    }
}

/// The indices of the `k` highest keys, highest first; among equal keys the
/// earlier index comes first.
pub fn select_top(keys: &Vec<u64>, k: usize) -> (r: Vec<usize>)
    ensures
        r@.len() == if k < keys@.len() {
            k as int
        } else {
            keys@.len() as int
        },
        forall|i: int| 0 <= i < r@.len() ==> #[trigger] r@[i] < keys@.len(),
        forall|i: int, j: int| 0 <= i < j < r@.len() ==> ranks_before(keys@, r@[i] as int, r@[j] as int),
        forall|i: int, x: int|
            #![trigger r@[i], keys@[x]]
            0 <= i < r@.len() && 0 <= x < keys@.len() && !r@.contains(x as usize) ==> ranks_before(
                keys@,
                r@[i] as int,
                x,
            ),
{
    let n = keys.len();
    let m = if k < n {
        k
    } else {
        n
    };
    let mut taken: Vec<bool> = Vec::new();
    while taken.len() < n
        invariant
            taken@.len() <= n,
            forall|x: int| 0 <= x < taken@.len() ==> !taken@[x],
            count_true(taken@) == 0,
        decreases n - taken@.len(),
    {
        let ghost before = taken@;
        taken.push(false);
        assert(taken@.drop_last() == before);
    }
    let mut r: Vec<usize> = Vec::new();
    while r.len() < m
        invariant
            m <= n,
            n == keys@.len(),
            taken@.len() == n,
            r@.len() <= m,
            count_true(taken@) == r@.len(),
            forall|x: int| 0 <= x < n ==> (#[trigger] taken@[x] <==> r@.contains(x as usize)),
            forall|i: int| 0 <= i < r@.len() ==> #[trigger] r@[i] < n,
            forall|i: int, j: int| 0 <= i < j < r@.len() ==> ranks_before(keys@, r@[i] as int, r@[j] as int),
            forall|i: int, x: int|
                #![trigger r@[i], taken@[x]]
                0 <= i < r@.len() && 0 <= x < n && !taken@[x] ==> ranks_before(keys@, r@[i] as int, x),
        decreases m - r@.len(),
    {
        proof {
            lemma_some_false(taken@);
        }
        let mut best: usize = n;
        let mut x: usize = 0;
        while x < n
            invariant
                n == keys@.len(),
                taken@.len() == n,
                x <= n,
                best == n || (best < x && !taken@[best as int]),
                best == n ==> forall|y: int| 0 <= y < x ==> taken@[y],
                best < n ==> forall|y: int| 0 <= y < x && !taken@[y] && y != best ==> ranks_before(keys@, best as int, y),
            decreases n - x,
        {
            if !taken[x] {
                if best == n || keys[x] > keys[best] {
                    best = x;
                }
            }
            x += 1;
        }
        let ghost old_taken = taken@;
        let ghost old_r = r@;
        proof {
            lemma_count_true_update(taken@, best as int);
        }
        taken.set(best, true);
        r.push(best);
        assert forall|y: int| 0 <= y < n implies (#[trigger] taken@[y] <==> r@.contains(y as usize)) by {
            if y == best {
                assert(r@[r@.len() - 1] == best);
            } else {
                if r@.contains(y as usize) {
                    let i = choose|i: int| 0 <= i < r@.len() && r@[i] == y as usize;
                    assert(old_r[i] == y);
                }
                if old_r.contains(y as usize) {
                    let i = choose|i: int| 0 <= i < old_r.len() && old_r[i] == y as usize;
                    assert(r@[i] == y);
                }
            }
        }
        assert forall|i: int, j: int| 0 <= i < j < r@.len() implies ranks_before(keys@, r@[i] as int, r@[j] as int) by {
            if j == r@.len() - 1 {
                assert(!old_taken[best as int]);
            }
        }
    }
    assert forall|i: int, x: int|
        #![trigger r@[i], keys@[x]]
        0 <= i < r@.len() && 0 <= x < keys@.len() && !r@.contains(x as usize) implies ranks_before(
        keys@,
        r@[i] as int,
        x,
    ) by {
        assert(!taken@[x]);
    }
    proof {
        lemma_count_le(taken@);
    }
    r
}

/// The mover's share of all scores, in ten-thousandths; nothing when there
/// is no score at all.
pub open spec fn portion(score: int, total: int) -> int {
    if total <= 0 {
        0
    } else if score * 10000 / total > u64::MAX {
        u64::MAX as int
    } else {
        score * 10000 / total
    }
}

/// Encouragement for an attack: the army advantage, weighted, or a fixed five
/// when the attacker is the weaker side.
pub open spec fn attack_bonus_of(source_armies: int, target_armies: int, multiplier: int) -> int {
    if source_armies >= target_armies {
        (source_armies - target_armies) * multiplier
    } else {
        5
    }
}

/// The bonus action `a` earns in `v`.
pub open spec fn action_bonus(v: WorldView, a: Action) -> int {
    if a.0 == MoveType::AttackCity {
        attack_bonus_of(
            v.cities[a.1 as int].armies as int,
            v.cities[a.2->0 as int].armies as int,
            v.current().profile.attack_delta_multiplier as int,
        )
    } else {
        0
    }
}

/// Sum of the first `n` scores.
pub open spec fn sum_upto(s: Seq<u64>, n: int) -> int
    decreases n,
{
    if n <= 0 {
        0
    } else {
        sum_upto(s, n - 1) + s[n - 1]
    }
}

/// `r` is a score that evaluating action `a` in `v` can give: every player is
/// scored on the simulated cities with its own jitter, and `r` is the mover's
/// share, bonus included, of the sum of all scores.
pub open spec fn scored(v: WorldView, conns: Seq<Connection>, a: Action, r: int) -> bool {
    exists|scores: Seq<u64>|
        #![trigger sum_upto(scores, scores.len() as int)]
        {
            &&& scores.len() == v.players.len()
            &&& forall|i: int|
                0 <= i < scores.len() ==> jittered(
                    owned_score(simulated(v.cities, a), conns, i, v.players[i].profile, v.cities.len() as int),
                    v.players[i].profile.random_percent as int,
                    #[trigger] scores[i] as int,
                )
            &&& r == portion(
                scores[v.current_player as int] + action_bonus(v, a),
                sum_upto(scores, scores.len() as int),
            )
        }
}

/// The mover's share of all scores, in ten-thousandths.
pub fn score_portion(score: u64, total: u64) -> (r: u64)
    ensures
        r == portion(score as int, total as int),
{
    if total == 0 {
        0
    } else {
        let q: u128 = (score as u128 * 10000) / (total as u128);
        if q > u64::MAX as u128 {
            u64::MAX
        } else {
            q as u64
        }
    }
}

/// Encouragement for an attack: see `attack_bonus_of`.
pub fn attack_bonus(source_armies: usize, target_armies: usize, multiplier: u64) -> (r: u64)
    requires
        source_armies <= MAX_ARMIES,
        multiplier <= MAX_WEIGHT,
    ensures
        r == attack_bonus_of(source_armies as int, target_armies as int, multiplier as int),
        r <= 100000000,
{
    if source_armies >= target_armies {
        let delta = (source_armies - target_armies) as u64;
        assert(delta * multiplier <= 100000000) by (nonlinear_arith)
            requires
                delta <= 10000,
                multiplier <= 10000,
        ;
        delta * multiplier
    } else {
        5
    }
}

proof fn lemma_jitter_bound(base: int, percent: int, s: int)
    requires
        0 <= base <= MAX_BASE_SCORE,
        0 <= percent <= 100,
        jittered(base, percent, s),
    ensures
        0 <= s <= 2 * MAX_BASE_SCORE + 5,
{
    assert(base * percent / 100 <= base) by (nonlinear_arith)
        requires
            0 <= base,
            0 <= percent <= 100,
    ;
}

/// Evaluates candidate `m`: simulates it on a copy, scores every player, and
/// returns the mover's share with the attack bonus.
fn score_candidate(world_state: &WorldState, world_fixed: &WorldFixed, m: &Move) -> (r: u64)
    requires
        world_state.wf_on(world_fixed),
        candidate_ok(
            world_state.cities@,
            world_fixed.connections@,
            world_state.current_player,
            world_state.current().profile.minimum_armies,
            m.action(),
        ),
    ensures
        scored(world_state@, world_fixed.connections@, m.action(), r as int),
{
    let cp = world_state.current_player;
    let profile = world_state.players[cp].profile;
    let bonus: u64 = match m.move_type {
        MoveType::AttackCity => {
            let t = match m.city_target {
                Some(t) => t,
                None => m.city_source,
            };
            attack_bonus(world_state.cities[m.city_source].armies, world_state.cities[t].armies, profile.attack_delta_multiplier)
        },
        MoveType::PlaceArmy => 0,
    };
    let mut sim = world_state.deep_clone();
    m.simulate(&mut sim);
    let ghost simulated_view = sim@;
    sim.update_scores(world_fixed);
    let ghost scores = sim.players@.map_values(|p: crate::world::Player| p.score);
    let mut total: u64 = 0;
    let mut i: usize = 0;
    while i < sim.players.len()
        invariant
            sim.wf_on(world_fixed),
            simulated_view.cities == sim.cities@,
            simulated_view.players.len() == sim.players@.len(),
            simulated_view.wf(),
            scores == sim.players@.map_values(|p: crate::world::Player| p.score),
            forall|t: int|
                0 <= t < sim.players@.len() ==> jittered(
                    owned_score(
                        sim.cities@,
                        world_fixed.connections@,
                        t,
                        simulated_view.players[t].profile,
                        sim.cities@.len() as int,
                    ),
                    simulated_view.players[t].profile.random_percent as int,
                    (#[trigger] sim.players@[t]).score as int,
                ),
            i <= sim.players@.len(),
            total == sum_upto(scores, i as int),
            total <= i * (2 * MAX_BASE_SCORE + 5),
        decreases sim.players@.len() - i,
    {
        proof {
            lemma_owned_score_bounds(
                sim.cities@,
                world_fixed.connections@,
                i as int,
                simulated_view.players[i as int].profile,
                sim.cities@.len() as int,
            );
            lemma_jitter_bound(
                owned_score(
                    sim.cities@,
                    world_fixed.connections@,
                    i as int,
                    simulated_view.players[i as int].profile,
                    sim.cities@.len() as int,
                ),
                simulated_view.players[i as int].profile.random_percent as int,
                sim.players@[i as int].score as int,
            );
            assert(i * (2 * MAX_BASE_SCORE + 5) + (2 * MAX_BASE_SCORE + 5) <= MAX_PLAYERS * (2 * MAX_BASE_SCORE
                + 5)) by (nonlinear_arith)
                requires
                    i < MAX_PLAYERS,
            ;
        }
        total = total + sim.players[i].score;
        assert((i + 1) * (2 * MAX_BASE_SCORE + 5) == i * (2 * MAX_BASE_SCORE + 5) + (2 * MAX_BASE_SCORE + 5))
            by (nonlinear_arith);
        i += 1;
    }
    let mine = sim.players[cp].score;
    proof {
        lemma_owned_score_bounds(
            sim.cities@,
            world_fixed.connections@,
            cp as int,
            simulated_view.players[cp as int].profile,
            sim.cities@.len() as int,
        );
        lemma_jitter_bound(
            owned_score(
                sim.cities@,
                world_fixed.connections@,
                cp as int,
                simulated_view.players[cp as int].profile,
                sim.cities@.len() as int,
            ),
            simulated_view.players[cp as int].profile.random_percent as int,
            mine as int,
        );
    }
    let r = score_portion(mine + bonus, total);
    assert(scores.len() == world_state.players@.len());
    assert(forall|t: int| 0 <= t < scores.len() ==> #[trigger] scores[t] == sim.players@[t].score);
    assert(sum_upto(scores, scores.len() as int) == total);
    r
}

/// The highest best score among `ms`.
pub open spec fn best_below(ms: Seq<Move>) -> int
    decreases ms.len(),
{
    if ms.len() == 0 {
        0
    } else {
        let b = best_below(ms.drop_last());
        if ms.last().best_score > b {
            ms.last().best_score as int
        } else {
            b
        }
    }
}

/// The best score of move `m`: the highest among its children, or its own
/// when it has none.
pub open spec fn best_of(m: Move) -> int {
    if m.child_moves@.len() == 0 {
        m.score_portion as int
    } else {
        best_below(m.child_moves@)
    }
}

/// The highest best score among `moves`.
pub fn best_of_children(moves: &Vec<Move>) -> (r: u64)
    ensures
        r == best_below(moves@),
{
    let mut best: u64 = 0;
    let mut i: usize = 0;
    while i < moves.len()
        invariant
            i <= moves@.len(),
            best == best_below(moves@.subrange(0, i as int)),
        decreases moves@.len() - i,
    {
        assert(moves@.subrange(0, i + 1).drop_last() == moves@.subrange(0, i as int));
        if moves[i].best_score > best {
            best = moves[i].best_score;
        }
        i += 1;
    }
    assert(moves@.subrange(0, moves@.len() as int) == moves@);
    best
}

/// `ms` are the candidates `cands` at positions `picks`, which rank on top by
/// the scores `keys` that evaluating each candidate gave, with those scores.
pub open spec fn kept_best(
    ms: Seq<Move>,
    v: WorldView,
    conns: Seq<Connection>,
    cands: Seq<Action>,
    keys: Seq<u64>,
    picks: Seq<usize>,
    k: int,
) -> bool {
    &&& keys.len() == cands.len()
    &&& forall|x: int| 0 <= x < keys.len() ==> scored(v, conns, cands[x], #[trigger] keys[x] as int)
    &&& top_ranked(keys, k, picks)
    &&& ms.len() == picks.len()
    &&& forall|i: int|
        0 <= i < ms.len() ==> (#[trigger] ms[i]).action() == cands[picks[i] as int] && ms[i].score_portion
            == keys[picks[i] as int]
}

/// `ms` is what a search from `v` in phase `mode` at level `depth` of `d`
/// may return, keeping `k` candidates a level: the best-scored candidates
/// (as many as there are, up to `k`), each once, highest score first, every
/// candidate scored as evaluating it can give and ties going to the earlier
/// candidate; below the last level each move
/// holds the search from the state it leads to, and its best score is the
/// best of its children, or its own when it has none.
pub open spec fn search_ok(
    ms: Seq<Move>,
    v: WorldView,
    conns: Seq<Connection>,
    mode: GameMode,
    depth: int,
    d: int,
    k: int,
) -> bool
    decreases d - depth,
{
    let cands = candidates(v, conns, mode);
    &&& exists|keys: Seq<u64>, picks: Seq<usize>| #[trigger] kept_best(ms, v, conns, cands, keys, picks, k)
    &&& ms.len() == if k < cands.len() {
        k
    } else {
        cands.len() as int
    }
    &&& forall|i: int| 0 <= i < ms.len() ==> cands.contains(#[trigger] ms[i].action())
    &&& forall|i: int, j: int|
        0 <= i < j < ms.len() ==> ms[i].action() != ms[j].action() && ms[i].score_portion >= ms[j].score_portion
    &&& forall|i: int|
        0 <= i < ms.len() ==> scored(v, conns, (#[trigger] ms[i]).action(), ms[i].score_portion as int)
            && ms[i].best_score == best_of(ms[i]) && if depth < d {
            search_ok(
                ms[i].child_moves@,
                advanced(v, ms[i].action()),
                conns,
                advanced(v, ms[i].action()).mode,
                depth + 1,
                d,
                k,
            )
        } else {
            ms[i].child_moves@.len() == 0
        }
}

/// Searches the moves open to the current player in phase `mode`: every
/// candidate is scored by simulating it, the best `no_choices` are kept, and
/// until the player's search depth is reached each is followed one level
/// further from the state it leads to.
pub fn possible_moves(
    world_state: &WorldState,
    world_fixed: &WorldFixed,
    depth: usize,
    mode: GameMode,
) -> (r: Vec<Move>)
    requires
        world_state.wf_on(world_fixed),
        depth <= world_state.current().profile.search_depth,
    ensures
        search_ok(
            r@,
            world_state@,
            world_fixed.connections@,
            mode,
            depth as int,
            world_state.current().profile.search_depth as int,
            world_state.current().profile.no_choices as int,
        ),
    decreases world_state.current().profile.search_depth - depth,
{
    let ghost v = world_state@;
    let ghost conns = world_fixed.connections@;
    let cp = world_state.current_player;
    let player = world_state.players[cp];
    let d = player.profile.search_depth;
    let k = player.profile.no_choices;
    let cands: Vec<Move> = match mode {
        GameMode::ArmyPlacement => {
            if player.armies_to_assign == 0 {
                Vec::new()
            } else {
                ap_build_list_of_possibles(world_state, cp)
            }
        },
        GameMode::Game => game_build_list_of_possibles(world_state, world_fixed, cp),
        _ => Vec::new(),
    };
    assert(actions(cands@) =~= candidates(v, conns, mode));
    proof {
        lemma_candidates(v, conns, mode);
    }
    let ghost acts = actions(cands@);
    let mut keys: Vec<u64> = Vec::new();
    let mut i: usize = 0;
    while i < cands.len()
        invariant
            world_state.wf_on(world_fixed),
            v == world_state@,
            conns == world_fixed.connections@,
            acts == actions(cands@),
            acts == candidates(v, conns, mode),
            forall|t: int|
                0 <= t < acts.len() ==> candidate_ok(
                    v.cities,
                    conns,
                    v.current_player,
                    v.current().profile.minimum_armies,
                    #[trigger] acts[t],
                ),
            i <= cands@.len(),
            keys@.len() == i,
            forall|t: int| 0 <= t < i ==> scored(v, conns, acts[t], #[trigger] keys@[t] as int),
        decreases cands@.len() - i,
    {
        assert(acts[i as int] == cands@[i as int].action());
        let key = score_candidate(world_state, world_fixed, &cands[i]);
        keys.push(key);
        i += 1;
    }
    let picks = select_top(&keys, k);
    let mut results: Vec<Move> = Vec::new();
    let mut t: usize = 0;
    while t < picks.len()
        invariant
            world_state.wf_on(world_fixed),
            v == world_state@,
            conns == world_fixed.connections@,
            acts == actions(cands@),
            acts == candidates(v, conns, mode),
            no_dups(acts),
            forall|x: int|
                0 <= x < acts.len() ==> candidate_ok(
                    v.cities,
                    conns,
                    v.current_player,
                    v.current().profile.minimum_armies,
                    #[trigger] acts[x],
                ),
            keys@.len() == acts.len(),
            forall|x: int| 0 <= x < keys@.len() ==> scored(v, conns, acts[x], #[trigger] keys@[x] as int),
            forall|x: int| 0 <= x < picks@.len() ==> #[trigger] picks@[x] < keys@.len(),
            forall|x: int, y: int|
                0 <= x < y < picks@.len() ==> ranks_before(keys@, picks@[x] as int, picks@[y] as int),
            d == v.current().profile.search_depth,
            k == v.current().profile.no_choices,
            depth <= d,
            t <= picks@.len(),
            results@.len() == t,
            forall|x: int|
                0 <= x < t ==> (#[trigger] results@[x]).action() == acts[picks@[x] as int]
                    && results@[x].score_portion == keys@[picks@[x] as int]
                    && results@[x].best_score == best_of(results@[x]) && if depth < d {
                    search_ok(
                        results@[x].child_moves@,
                        advanced(v, results@[x].action()),
                        conns,
                        advanced(v, results@[x].action()).mode,
                        depth + 1,
                        d as int,
                        k as int,
                    )
                } else {
                    results@[x].child_moves@.len() == 0
                },
        decreases picks@.len() - t,
    {
        let c = &cands[picks[t]];
        let s = keys[picks[t]];
        assert(acts[picks@[t as int] as int] == c.action());
        let mut m = Move {
            move_type: c.move_type,
            city_source: c.city_source,
            city_target: c.city_target,
            child_moves: Vec::new(),
            score_portion: s,
            best_score: s,
        };
        if depth < d {
            let next = next_level_state(world_state, &m);
            let children = possible_moves(&next, world_fixed, depth + 1, next.mode);
            if children.len() > 0 {
                m.best_score = best_of_children(&children);
            }
            m.child_moves = children;
            assert(search_ok(
                m.child_moves@,
                advanced(v, m.action()),
                conns,
                advanced(v, m.action()).mode,
                depth + 1,
                d as int,
                k as int,
            ));
        }
        assert(m.best_score == best_of(m));
        let ghost before = results@;
        results.push(m);
        assert(forall|x: int| 0 <= x < t ==> results@[x] == before[x]);
        t += 1;
    }
    proof {
        let ms = results@;
        assert(top_ranked(keys@, k as int, picks@));
        assert(kept_best(ms, v, conns, acts, keys@, picks@, k as int));
        assert forall|i: int| 0 <= i < ms.len() implies acts.contains(#[trigger] ms[i].action()) by {
            assert(acts[picks@[i] as int] == ms[i].action());
        }
        assert forall|i: int, j: int| 0 <= i < j < ms.len() implies ms[i].action() != ms[j].action()
            && ms[i].score_portion >= ms[j].score_portion by {
            assert(ranks_before(keys@, picks@[i] as int, picks@[j] as int));
        }
    }
    results
}

/// The moves `ms` nest at most `h` levels deep.
pub open spec fn within_levels(ms: Seq<Move>, h: int) -> bool
    decreases h,
{
    if ms.len() == 0 {
        true
    } else if h <= 0 {
        false
    } else {
        forall|i: int| 0 <= i < ms.len() ==> within_levels(#[trigger] ms[i].child_moves@, h - 1)
    }
}

/// No level of the `h` levels of `ms` holds more than `k` moves.
pub open spec fn breadth_within(ms: Seq<Move>, k: int, h: int) -> bool
    decreases h,
{
    &&& ms.len() <= k
    &&& h > 0 ==> forall|i: int| 0 <= i < ms.len() ==> breadth_within(#[trigger] ms[i].child_moves@, k, h - 1)
}

/// Search termination: a search started at level `depth` of a profile whose
/// search depth is `d` goes no deeper than level `d`, so its moves nest at
/// most `d - depth + 1` levels.
pub proof fn lemma_search_depth(
    ms: Seq<Move>,
    v: WorldView,
    conns: Seq<Connection>,
    mode: GameMode,
    depth: int,
    d: int,
    k: int,
)
    requires
        0 <= depth <= d,
        search_ok(ms, v, conns, mode, depth, d, k),
    ensures
        within_levels(ms, d - depth + 1),
    decreases d - depth,
{
    if ms.len() > 0 {
        assert forall|i: int| 0 <= i < ms.len() implies within_levels(#[trigger] ms[i].child_moves@, d - depth) by {
            if depth < d {
                let a = ms[i].action();
                lemma_search_depth(ms[i].child_moves@, advanced(v, a), conns, advanced(v, a).mode, depth + 1, d, k);
            }
        }
    }
}

/// Breadth bound: no level of a search holds more than the profile's
/// `no_choices` moves.
pub proof fn lemma_search_breadth(
    ms: Seq<Move>,
    v: WorldView,
    conns: Seq<Connection>,
    mode: GameMode,
    depth: int,
    d: int,
    k: int,
)
    requires
        0 <= depth <= d,
        0 <= k,
        search_ok(ms, v, conns, mode, depth, d, k),
    ensures
        breadth_within(ms, k, d - depth + 1),
    decreases d - depth,
{
    assert forall|i: int| 0 <= i < ms.len() implies breadth_within(#[trigger] ms[i].child_moves@, k, d - depth) by {
        if depth < d {
            let a = ms[i].action();
            lemma_search_breadth(ms[i].child_moves@, advanced(v, a), conns, advanced(v, a).mode, depth + 1, d, k);
        }
    }
}

} // verus!
