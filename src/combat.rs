use crate::random::random_below;
use crate::world::City;
use vstd::prelude::*;

verus! {

/// Every die in `s` shows a face from one to six.
pub open spec fn dice_ok(s: Seq<u8>) -> bool {
    forall|i: int| 0 <= i < s.len() ==> 1 <= #[trigger] s[i] <= 6
}

/// How many dice of `s` show face `f`.
pub open spec fn count_face(s: Seq<u8>, f: u8) -> nat
    decreases s.len(),
{
    if s.len() == 0 {
        0
    } else {
        count_face(s.drop_last(), f) + if s.last() == f {
            1nat
        } else {
            0nat
        }
    }
}

/// How many dice of `s` show a face from one up to, not including, `f`.
pub open spec fn count_below(s: Seq<u8>, f: int) -> nat
    decreases s.len(),
{
    if s.len() == 0 {
        0
    } else {
        count_below(s.drop_last(), f) + if 1 <= s.last() < f {
            1nat
        } else {
            0nat
        }
    }
}

/// The dice of `s` that show a face below `f`, in ascending order.
pub open spec fn faces_below(s: Seq<u8>, f: int) -> Seq<u8>
    decreases f,
{
    if f <= 1 {
        seq![]
    } else {
        faces_below(s, f - 1) + Seq::new(count_face(s, (f - 1) as u8), |_i: int| (f - 1) as u8)
    }
}

/// The pool `s` sorted in ascending order.
pub open spec fn sorted_dice(s: Seq<u8>) -> Seq<u8> {
    faces_below(s, 7)
}

proof fn lemma_count_step(s: Seq<u8>, f: int)
    requires
        1 <= f <= 6,
    ensures
        count_below(s, f + 1) == count_below(s, f) + count_face(s, f as u8),
    decreases s.len(),
{
    if s.len() > 0 {
        lemma_count_step(s.drop_last(), f);
    }
}

proof fn lemma_count_all(s: Seq<u8>)
    requires
        dice_ok(s),
    ensures
        count_below(s, 7) == s.len(),
    decreases s.len(),
{
    if s.len() > 0 {
        assert(dice_ok(s.drop_last())) by {
            assert forall|i: int| 0 <= i < s.drop_last().len() implies 1 <= #[trigger] s.drop_last()[i] <= 6 by {
                assert(s.drop_last()[i] == s[i]);
            }
        }
        lemma_count_all(s.drop_last());
        assert(1 <= s[s.len() - 1] <= 6);
    }
}

proof fn lemma_faces_len(s: Seq<u8>, f: int)
    requires
        1 <= f <= 7,
    ensures
        faces_below(s, f).len() == count_below(s, f),
    decreases f,
{
    if f > 1 {
        lemma_faces_len(s, f - 1);
        lemma_count_step(s, f - 1);
    } else {
        lemma_count_zero(s);
    }
}

proof fn lemma_count_zero(s: Seq<u8>)
    ensures
        count_below(s, 1) == 0,
    decreases s.len(),
{
    if s.len() > 0 {
        lemma_count_zero(s.drop_last());
    }
}

/// Sorting keeps the size of a pool.
pub proof fn lemma_sorted_len(s: Seq<u8>)
    requires
        dice_ok(s),
    ensures
        sorted_dice(s).len() == s.len(),
{
    lemma_faces_len(s, 7);
    lemma_count_all(s);
}

/// The pool `dice` in ascending order.
pub fn sort_dice(dice: &Vec<u8>) -> (r: Vec<u8>)
    requires
        dice_ok(dice@),
    ensures
        r@ == sorted_dice(dice@),
{
    let mut counts: Vec<usize> = Vec::new();
    while counts.len() < 7
        invariant
            counts@.len() <= 7,
            forall|f: int| 0 <= f < counts@.len() ==> counts@[f] == 0,
        decreases 7 - counts@.len(),
    {
        counts.push(0);
    }
    let mut i: usize = 0;
    while i < dice.len()
        invariant
            dice_ok(dice@),
            i <= dice@.len(),
            counts@.len() == 7,
            forall|f: int|
                0 <= f < 7 ==> #[trigger] counts@[f] == count_face(dice@.subrange(0, i as int), f as u8),
            forall|f: int| 0 <= f < 7 ==> #[trigger] counts@[f] <= i,
        decreases dice@.len() - i,
    {
        let d = dice[i];
        assert(dice@.subrange(0, i + 1).drop_last() == dice@.subrange(0, i as int));
        counts.set(d as usize, counts[d as usize] + 1);
        i += 1;
    }
    assert(dice@.subrange(0, dice@.len() as int) == dice@);
    let mut r: Vec<u8> = Vec::new();
    let mut f: u8 = 1;
    while f < 7
        invariant
            1 <= f <= 7,
            counts@.len() == 7,
            forall|g: int| 0 <= g < 7 ==> #[trigger] counts@[g] == count_face(dice@, g as u8),
            r@ == faces_below(dice@, f as int),
        decreases 7 - f,
    {
        let c = counts[f as usize];
        let ghost before = r@;
        let mut k: usize = 0;
        while k < c
            invariant
                k <= c,
                r@ == before + Seq::new(k as nat, |_i: int| f),
            decreases c - k,
        {
            r.push(f);
            assert(r@ == before + Seq::new((k + 1) as nat, |_i: int| f));
            k += 1;
        }
        assert(r@ == faces_below(dice@, f as int + 1)) by {
            assert(faces_below(dice@, f as int + 1) == faces_below(dice@, f as int) + Seq::new(
                count_face(dice@, f),
                |_i: int| f,
            ));
        }
        f = f + 1;
    }
    r
}

/// Pairs among the first `n` where the attacker's die is higher.
pub open spec fn wins_upto(sa: Seq<u8>, sd: Seq<u8>, n: int) -> nat
    decreases n,
{
    if n <= 0 {
        0
    } else {
        wins_upto(sa, sd, n - 1) + if sa[n - 1] > sd[n - 1] {
            1nat
        } else {
            0nat
        }
    }
}

proof fn lemma_wins_le(sa: Seq<u8>, sd: Seq<u8>, n: int)
    requires
        n >= 0,
    ensures
        wins_upto(sa, sd, n) <= n,
    decreases n,
{
    if n > 0 {
        lemma_wins_le(sa, sd, n - 1);
    }
}

/// How many dice are compared: the attacker's pool is cut to the defender's.
pub open spec fn compared(da: Seq<u8>, dd: Seq<u8>) -> nat {
    if da.len() < dd.len() {
        da.len()
    } else {
        dd.len()
    }
}

/// Armies the defender loses: both pools sorted ascending and compared pair by
/// pair from the weakest up, the defender winning ties.
pub open spec fn defender_losses(da: Seq<u8>, dd: Seq<u8>) -> nat {
    wins_upto(sorted_dice(da), sorted_dice(dd), compared(da, dd) as int)
}

/// Armies the attacker loses: every compared pair the defender holds.
pub open spec fn attacker_losses(da: Seq<u8>, dd: Seq<u8>) -> nat {
    (compared(da, dd) - defender_losses(da, dd)) as nat
}

/// An attack from `source` on `target` is well posed with these dice: all but
/// one of the attacker's armies roll, every defending army rolls.
pub open spec fn attack_ok(cities: Seq<City>, source: int, target: int, da: Seq<u8>, dd: Seq<u8>) -> bool {
    &&& 0 <= source < cities.len()
    &&& 0 <= target < cities.len()
    &&& source != target
    &&& cities[source].armies >= 1
    &&& da.len() == cities[source].armies - 1
    &&& dd.len() == cities[target].armies
    &&& dice_ok(da)
    &&& dice_ok(dd)
}

/// The cities after the attack. A defender left with no army passes to the
/// attacker's owner and holds the attacking armies that survived; the source
/// keeps the one army that stayed behind.
pub open spec fn attack_result(
    cities: Seq<City>,
    source: int,
    target: int,
    da: Seq<u8>,
    dd: Seq<u8>,
) -> Seq<City> {
    let s = cities[source];
    let t = cities[target];
    let al = attacker_losses(da, dd);
    let dl = defender_losses(da, dd);
    if dl == t.armies {
        cities.update(source, City { armies: 1, ..s }).update(
            target,
            City { owner: s.owner, armies: (s.armies - 1 - al) as usize, ..t },
        )
    } else {
        cities.update(source, City { armies: (s.armies - al) as usize, ..s }).update(
            target,
            City { armies: (t.armies - dl) as usize, ..t },
        )
    }
}

/// Armies on all the cities of `cities`.
pub open spec fn total_armies(cities: Seq<City>) -> int
    decreases cities.len(),
{
    if cities.len() == 0 {
        0
    } else {
        total_armies(cities.drop_last()) + cities.last().armies
    }
}

proof fn lemma_total_update(cities: Seq<City>, i: int, c: City)
    requires
        0 <= i < cities.len(),
    ensures
        total_armies(cities.update(i, c)) == total_armies(cities) - cities[i].armies + c.armies,
    decreases cities.len(),
{
    if i < cities.len() - 1 {
        lemma_total_update(cities.drop_last(), i, c);
        assert(cities.update(i, c).drop_last() == cities.drop_last().update(i, c));
    } else {
        assert(cities.update(i, c).drop_last() == cities.drop_last());
    }
}

/// Army conservation: every one of the `A - 1` committed attackers and of
/// the `D` defenders either remains or is lost; the losses of both sides
/// together are the number of compared pairs, and exactly those armies, no
/// more than `(A - 1) + D`, leave the map. Survivors of a conquest move into the city taken.
pub proof fn lemma_army_conservation(cities: Seq<City>, source: int, target: int, da: Seq<u8>, dd: Seq<u8>)
    requires
        attack_ok(cities, source, target, da, dd),
    ensures
        ({
            let a = cities[source].armies as int;
            let d = cities[target].armies as int;
            let al = attacker_losses(da, dd) as int;
            let dl = defender_losses(da, dd) as int;
            let r = attack_result(cities, source, target, da, dd);
            &&& 0 <= al <= a - 1
            &&& 0 <= dl <= d
            &&& al + dl == compared(da, dd)
            &&& dl < d ==> (r[source].armies - 1) + al == a - 1 && r[target].armies + dl == d
                && r[target].owner == cities[target].owner
            &&& dl == d ==> r[target].armies + al == a - 1 && r[source].armies == 1 && r[target].owner
                == cities[source].owner
            &&& (a + d) - (r[source].armies + r[target].armies) == al + dl
            &&& total_armies(r) == total_armies(cities) - (al + dl)
            &&& al + dl <= (a - 1) + d
            &&& r.len() == cities.len()
            &&& forall|j: int| 0 <= j < cities.len() && j != source && j != target ==> r[j] == cities[j]
        }),
{
    lemma_wins_le(sorted_dice(da), sorted_dice(dd), compared(da, dd) as int);
    let s = cities[source];
    let t = cities[target];
    let al = attacker_losses(da, dd);
    let dl = defender_losses(da, dd);
    if dl == t.armies {
        let c1 = cities.update(source, City { armies: 1, ..s });
        lemma_total_update(cities, source, City { armies: 1, ..s });
        lemma_total_update(c1, target, City { owner: s.owner, armies: (s.armies - 1 - al) as usize, ..t });
    } else {
        let c1 = cities.update(source, City { armies: (s.armies - al) as usize, ..s });
        lemma_total_update(cities, source, City { armies: (s.armies - al) as usize, ..s });
        lemma_total_update(c1, target, City { armies: (t.armies - dl) as usize, ..t });
    }
}

/// When both sides lose as many armies as each other, the committed
/// attackers that remain and the defenders lost make up the committed
/// force, and the defenders that remain and the attackers lost make up the
/// defence.
pub proof fn lemma_even_exchange(cities: Seq<City>, source: int, target: int, da: Seq<u8>, dd: Seq<u8>)
    requires
        attack_ok(cities, source, target, da, dd),
        attacker_losses(da, dd) == defender_losses(da, dd),
    ensures
        ({
            let a = cities[source].armies as int;
            let d = cities[target].armies as int;
            let al = attacker_losses(da, dd) as int;
            let dl = defender_losses(da, dd) as int;
            &&& (a - 1 - al) + dl == a - 1
            &&& (d - dl) + al == d
        }),
{
}

/// Resolves an attack from `source` on `target` with the dice that were rolled.
pub fn resolve_attack(
    cities: &mut Vec<City>,
    source: usize,
    target: usize,
    dice_source: &Vec<u8>,
    dice_target: &Vec<u8>,
)
    requires
        attack_ok(old(cities)@, source as int, target as int, dice_source@, dice_target@),
    ensures
        final(cities)@ == attack_result(old(cities)@, source as int, target as int, dice_source@, dice_target@),
{
    proof {
        lemma_sorted_len(dice_source@);
        lemma_sorted_len(dice_target@);
    }
    let sa = sort_dice(dice_source);
    let sd = sort_dice(dice_target);
    let m: usize = if sa.len() < sd.len() {
        sa.len()
    } else {
        sd.len()
    };
    let mut wins: usize = 0;
    let mut i: usize = 0;
    while i < m
        invariant
            i <= m,
            m == compared(dice_source@, dice_target@),
            m <= sa@.len(),
            m <= sd@.len(),
            sa@ == sorted_dice(dice_source@),
            sd@ == sorted_dice(dice_target@),
            wins == wins_upto(sa@, sd@, i as int),
            wins <= i,
        decreases m - i,
    {
        if sa[i] > sd[i] {
            wins += 1;
        }
        i += 1;
    }
    let losses = m - wins;
    let s = cities[source];
    let t = cities[target];
    if wins == t.armies {
        cities.set(source, City { armies: 1, ..s });
        cities.set(target, City { owner: s.owner, armies: s.armies - 1 - losses, ..t });
    } else {
        cities.set(source, City { armies: s.armies - losses, ..s });
        cities.set(target, City { armies: t.armies - wins, ..t });
    }
}

/// `n` dice, each showing a face from one to six.
pub fn roll_dice(n: usize) -> (r: Vec<u8>)
    ensures
        r@.len() == n,
        dice_ok(r@),
{
    let mut r: Vec<u8> = Vec::new();
    while r.len() < n
        invariant
            r@.len() <= n,
            dice_ok(r@),
        decreases n - r@.len(),
    {
        let d = random_below(6);
        r.push(d as u8 + 1);
    }
    r
}

} // verus!
