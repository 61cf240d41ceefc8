use crate::search::{lemma_top_ranked_unique, select_top, top_indices, top_ranked};
use crate::world::{Connection, Territory, MAX_CITIES};
use petgraph::algo::min_spanning_tree;
use petgraph::data::Element;
use petgraph::graph::{NodeIndex, UnGraph};
use vstd::prelude::*;

verus! {

/// Largest coordinate a projected location may have.
pub const MAX_COORD: i64 = 1000000000;

/// A city's place on the projected map, in millionths of a degree.
#[derive(Clone, Copy, Debug, PartialEq, Eq, Structural)]
pub struct Location {
    pub x: i64,
    pub y: i64,
}

impl Location {
    pub open spec fn wf(&self) -> bool {
        -MAX_COORD <= self.x <= MAX_COORD && -MAX_COORD <= self.y <= MAX_COORD
    }
}

pub open spec fn locations_ok(locs: Seq<Location>) -> bool {
    &&& locs.len() <= MAX_CITIES
    &&& forall|i: int| 0 <= i < locs.len() ==> (#[trigger] locs[i]).wf()
}

/// The square of the distance between two locations.
pub open spec fn distance_sq(a: Location, b: Location) -> int {
    (a.x - b.x) * (a.x - b.x) + (a.y - b.y) * (a.y - b.y)
}

/// The square of the distance between two locations.
pub fn squared_distance(a: &Location, b: &Location) -> (r: u64)
    requires
        a.wf(),
        b.wf(),
    ensures
        r == distance_sq(*a, *b),
{
    let dx = (a.x - b.x) as i128;
    let dy = (a.y - b.y) as i128;
    assert(0 <= dx * dx <= 4000000000000000000) by (nonlinear_arith)
        requires
            -2000000000 <= dx <= 2000000000,
    ;
    assert(0 <= dy * dy <= 4000000000000000000) by (nonlinear_arith)
        requires
            -2000000000 <= dy <= 2000000000,
    ;
    (dx * dx + dy * dy) as u64
}

/// The edges of a minimum spanning forest of the undirected graph with
/// `node_count` nodes and these weighted edges, as computed by petgraph.
pub uninterp spec fn spanning_forest_of(node_count: nat, edges: Seq<(usize, usize, u64)>) -> Seq<(usize, usize)>;

/// `e` joins the two ends of one of `edges`.
pub open spec fn edge_in(edges: Seq<(usize, usize, u64)>, e: (usize, usize)) -> bool {
    exists|j: int| 0 <= j < edges.len() && (#[trigger] edges[j]).0 == e.0 && edges[j].1 == e.1
}

/// Relies on `petgraph::algo::min_spanning_tree` (Kruskal's algorithm) over a
/// `petgraph::graph::UnGraph` with `node_count` nodes and the given weighted
/// edges: the forest it yields depends on the graph alone, and each of its
/// edges is the (source, target) pair of an input edge.
#[verifier::external_body]
fn spanning_forest(node_count: usize, edges: &Vec<(usize, usize, u64)>) -> (r: Vec<(usize, usize)>)
    requires
        node_count < u32::MAX,
        edges@.len() < u32::MAX,
        forall|j: int| 0 <= j < edges@.len() ==> (#[trigger] edges@[j]).0 < node_count && edges@[j].1 < node_count,
    ensures
        r@ == spanning_forest_of(node_count as nat, edges@),
        forall|i: int| 0 <= i < r@.len() ==> edge_in(edges@, #[trigger] r@[i]),
{
    let mut g = UnGraph::<(), u64>::new_undirected();
    for _ in 0..node_count {
        g.add_node(());
    }
    for e in edges.iter() {
        g.add_edge(NodeIndex::new(e.0), NodeIndex::new(e.1), e.2);
    }
    min_spanning_tree(&g).filter_map(|el| match el {
        Element::Edge { source, target, .. } => Some((source, target)),
        Element::Node { .. } => None,
    }).collect()
}

/// Members `members` of a territory are cities of the map.
pub open spec fn members_ok(locs: Seq<Location>, members: Seq<usize>) -> bool {
    &&& members.len() <= MAX_CITIES
    &&& forall|i: int| 0 <= i < members.len() ==> #[trigger] members[i] < locs.len()
}

/// The edge between members `a` and `b`, weighed by their squared distance.
pub open spec fn member_edge(
    locs: Seq<Location>,
    members: Seq<usize>,
    a: int,
    b: int,
) -> (usize, usize, u64) {
    (a as usize, b as usize, distance_sq(locs[members[a] as int], locs[members[b] as int]) as u64)
}

/// Edges from member `a` to the members after it and before `b`.
pub open spec fn row_edges(
    locs: Seq<Location>,
    members: Seq<usize>,
    a: int,
    b: int,
) -> Seq<(usize, usize, u64)>
    decreases b,
{
    if b <= 0 {
        seq![]
    } else if a < b - 1 {
        row_edges(locs, members, a, b - 1).push(member_edge(locs, members, a, b - 1))
    } else {
        row_edges(locs, members, a, b - 1)
    }
}

/// Edges between every two of the members, the first of them before `a`.
pub open spec fn pair_edges(locs: Seq<Location>, members: Seq<usize>, a: int) -> Seq<(usize, usize, u64)>
    decreases a,
{
    if a <= 0 {
        seq![]
    } else {
        pair_edges(locs, members, a - 1) + row_edges(locs, members, a - 1, members.len() as int)
    }
}

proof fn lemma_row_edges(locs: Seq<Location>, members: Seq<usize>, a: int, b: int)
    requires
        0 <= a < members.len() <= MAX_CITIES,
        b <= members.len(),
    ensures
        forall|j: int|
            0 <= j < row_edges(locs, members, a, b).len() ==> (#[trigger] row_edges(locs, members, a, b)[j]).0 == a
                && a < row_edges(locs, members, a, b)[j].1 < b,
        row_edges(locs, members, a, b).len() <= if b > 0 { b } else { 0 },
    decreases b,
{
    if b > 0 {
        lemma_row_edges(locs, members, a, b - 1);
        let r = row_edges(locs, members, a, b - 1);
        if a < b - 1 {
            let e = member_edge(locs, members, a, b - 1);
            assert forall|j: int| 0 <= j < r.push(e).len() implies (#[trigger] r.push(e)[j]).0 == a && a < r.push(
                e,
            )[j].1 < b by {
                if j < r.len() {
                    assert(r.push(e)[j] == r[j]);
                }
            }
        }
    }
}

proof fn lemma_pair_edges(locs: Seq<Location>, members: Seq<usize>, a: int)
    requires
        0 <= a <= members.len() <= MAX_CITIES,
    ensures
        forall|j: int|
            0 <= j < pair_edges(locs, members, a).len() ==> (#[trigger] pair_edges(locs, members, a)[j]).0
                < members.len() && pair_edges(locs, members, a)[j].1 < members.len(),
        pair_edges(locs, members, a).len() <= a * members.len(),
    decreases a,
{
    if a > 0 {
        lemma_pair_edges(locs, members, a - 1);
        lemma_row_edges(locs, members, a - 1, members.len() as int);
        let p = pair_edges(locs, members, a - 1);
        let r = row_edges(locs, members, a - 1, members.len() as int);
        assert forall|j: int| 0 <= j < (p + r).len() implies (#[trigger] (p + r)[j]).0 < members.len() && (p
            + r)[j].1 < members.len() by {
            if j >= p.len() {
                assert((p + r)[j] == r[j - p.len()]);
            }
        }
        assert((a - 1) * members.len() + members.len() == a * members.len()) by (nonlinear_arith);
    }
}

/// The two connections, one each way, that a forest edge between members `a`
/// and `b` of one territory stands for; the first is the one drawn.
pub open spec fn link_pair(members: Seq<usize>, e: (usize, usize)) -> Seq<Connection> {
    seq![
        Connection { city1: members[e.0 as int], city2: members[e.1 as int], render: true, same_territory: true },
        Connection { city1: members[e.1 as int], city2: members[e.0 as int], render: false, same_territory: true },
    ]
}

/// The connections of the first `n` forest edges.
pub open spec fn links_of(members: Seq<usize>, forest: Seq<(usize, usize)>, n: int) -> Seq<Connection>
    decreases n,
{
    if n <= 0 {
        seq![]
    } else {
        links_of(members, forest, n - 1) + link_pair(members, forest[n - 1])
    }
}

/// The connections inside one territory: the two directions of every edge of
/// a minimum spanning forest over its cities, weighed by distance.
pub open spec fn territory_links(locs: Seq<Location>, members: Seq<usize>) -> Seq<Connection> {
    let forest = spanning_forest_of(members.len(), pair_edges(locs, members, members.len() as int));
    links_of(members, forest, forest.len() as int)
}

/// Appends the connections inside territory `members` to `connections`.
fn build_intra(connections: &mut Vec<Connection>, locations: &Vec<Location>, members: &Vec<usize>)
    requires
        locations_ok(locations@),
        members_ok(locations@, members@),
    ensures
        final(connections)@ == old(connections)@ + territory_links(locations@, members@),
{
    let m = members.len();
    let mut edges: Vec<(usize, usize, u64)> = Vec::new();
    let mut a: usize = 0;
    while a < m
        invariant
            locations_ok(locations@),
            members_ok(locations@, members@),
            m == members@.len(),
            a <= m,
            edges@ == pair_edges(locations@, members@, a as int),
        decreases m - a,
    {
        let ghost before = edges@;
        let mut b: usize = 0;
        while b < m
            invariant
                locations_ok(locations@),
                members_ok(locations@, members@),
                m == members@.len(),
                a < m,
                b <= m,
                edges@ == before + row_edges(locations@, members@, a as int, b as int),
            decreases m - b,
        {
            if a < b {
                let la = locations[members[a]];
                let lb = locations[members[b]];
                let d = squared_distance(&la, &lb);
                edges.push((a, b, d));
                assert(edges@ == before + row_edges(locations@, members@, a as int, b + 1));
            }
            b += 1;
        }
        a += 1;
    }
    proof {
        lemma_pair_edges(locations@, members@, m as int);
        assert(m * m <= MAX_CITIES * MAX_CITIES) by (nonlinear_arith)
            requires
                m <= MAX_CITIES,
        ;
    }
    let forest = spanning_forest(m, &edges);
    let ghost start = connections@;
    let mut i: usize = 0;
    while i < forest.len()
        invariant
            members_ok(locations@, members@),
            m == members@.len(),
            edges@ == pair_edges(locations@, members@, m as int),
            forall|j: int| 0 <= j < edges@.len() ==> (#[trigger] edges@[j]).0 < m && edges@[j].1 < m,
            forall|x: int| 0 <= x < forest@.len() ==> edge_in(edges@, #[trigger] forest@[x]),
            i <= forest@.len(),
            connections@ == start + links_of(members@, forest@, i as int),
        decreases forest@.len() - i,
    {
        let (a, b) = forest[i];
        assert(edge_in(edges@, forest@[i as int]));
        connections.push(Connection { city1: members[a], city2: members[b], render: true, same_territory: true });
        connections.push(Connection { city1: members[b], city2: members[a], render: false, same_territory: true });
        assert(connections@ == start + links_of(members@, forest@, i + 1));
        i += 1;
    }
}

/// Pairs of a city of `m1` and a different city of `m2`, in scan order: the
/// first city before `a`, or `a` itself and the second before `b`.
pub open spec fn cross_row(m1: Seq<usize>, m2: Seq<usize>, a: int, b: int) -> Seq<(usize, usize)>
    decreases b,
{
    if b <= 0 {
        seq![]
    } else if m1[a] != m2[b - 1] {
        cross_row(m1, m2, a, b - 1).push((m1[a], m2[b - 1]))
    } else {
        cross_row(m1, m2, a, b - 1)
    }
}

/// Pairs of a city among the first `a` of `m1` and a different city of `m2`,
/// in scan order.
pub open spec fn cross_pairs(m1: Seq<usize>, m2: Seq<usize>, a: int) -> Seq<(usize, usize)>
    decreases a,
{
    if a <= 0 {
        seq![]
    } else {
        cross_pairs(m1, m2, a - 1) + cross_row(m1, m2, a - 1, m2.len() as int)
    }
}

/// Nearer pairs get higher keys.
pub open spec fn pair_keys(locs: Seq<Location>, pairs: Seq<(usize, usize)>) -> Seq<u64> {
    Seq::new(
        pairs.len(),
        |i: int| (u64::MAX - distance_sq(locs[pairs[i].0 as int], locs[pairs[i].1 as int])) as u64,
    )
}

/// The connections between two territories: the `k` nearest pairs of their
/// cities, drawn from the first towards the second, then the same pairs the
/// other way.
pub open spec fn inter_links(locs: Seq<Location>, m1: Seq<usize>, m2: Seq<usize>, k: int) -> Seq<Connection> {
    let pairs = cross_pairs(m1, m2, m1.len() as int);
    let picks = top_indices(pair_keys(locs, pairs), k);
    Seq::new(
        picks.len(),
        |i: int|
            Connection {
                city1: pairs[picks[i] as int].0,
                city2: pairs[picks[i] as int].1,
                render: true,
                same_territory: false,
            },
    ) + Seq::new(
        picks.len(),
        |i: int|
            Connection {
                city1: pairs[picks[i] as int].1,
                city2: pairs[picks[i] as int].0,
                render: false,
                same_territory: false,
            },
    )
}

proof fn lemma_cross_row(m1: Seq<usize>, m2: Seq<usize>, a: int, b: int, n: nat)
    requires
        0 <= a < m1.len(),
        0 <= b <= m2.len(),
        forall|i: int| 0 <= i < m1.len() ==> #[trigger] m1[i] < n,
        forall|i: int| 0 <= i < m2.len() ==> #[trigger] m2[i] < n,
    ensures
        cross_row(m1, m2, a, b).len() <= b,
        forall|j: int|
            0 <= j < cross_row(m1, m2, a, b).len() ==> (#[trigger] cross_row(m1, m2, a, b)[j]).0 < n
                && cross_row(m1, m2, a, b)[j].1 < n,
    decreases b,
{
    if b > 0 {
        lemma_cross_row(m1, m2, a, b - 1, n);
        let r = cross_row(m1, m2, a, b - 1);
        if m1[a] != m2[b - 1] {
            let e = (m1[a], m2[b - 1]);
            assert forall|j: int| 0 <= j < r.push(e).len() implies (#[trigger] r.push(e)[j]).0 < n && r.push(
                e,
            )[j].1 < n by {
                if j < r.len() {
                    assert(r.push(e)[j] == r[j]);
                }
            }
        }
    }
}

proof fn lemma_cross_pairs(m1: Seq<usize>, m2: Seq<usize>, a: int, n: nat)
    requires
        0 <= a <= m1.len(),
        forall|i: int| 0 <= i < m1.len() ==> #[trigger] m1[i] < n,
        forall|i: int| 0 <= i < m2.len() ==> #[trigger] m2[i] < n,
    ensures
        cross_pairs(m1, m2, a).len() <= a * m2.len(),
        forall|j: int|
            0 <= j < cross_pairs(m1, m2, a).len() ==> (#[trigger] cross_pairs(m1, m2, a)[j]).0 < n
                && cross_pairs(m1, m2, a)[j].1 < n,
    decreases a,
{
    if a > 0 {
        lemma_cross_pairs(m1, m2, a - 1, n);
        lemma_cross_row(m1, m2, a - 1, m2.len() as int, n);
        let p = cross_pairs(m1, m2, a - 1);
        let r = cross_row(m1, m2, a - 1, m2.len() as int);
        assert forall|j: int| 0 <= j < (p + r).len() implies (#[trigger] (p + r)[j]).0 < n && (p + r)[j].1 < n by {
            if j >= p.len() {
                assert((p + r)[j] == r[j - p.len()]);
            }
        }
        assert((a - 1) * m2.len() + m2.len() == a * m2.len()) by (nonlinear_arith);
    }
}

/// The pairs of a city of `m1` and a different city of `m2`, in scan order.
pub fn cross_pair_list(
    locations: &Vec<Location>,
    m1: &Vec<usize>,
    m2: &Vec<usize>,
) -> (r: Vec<(usize, usize)>)
    requires
        members_ok(locations@, m1@),
        members_ok(locations@, m2@),
    ensures
        r@ == cross_pairs(m1@, m2@, m1@.len() as int),
        r@.len() <= MAX_CITIES * MAX_CITIES,
        forall|j: int| 0 <= j < r@.len() ==> (#[trigger] r@[j]).0 < locations@.len() && r@[j].1 < locations@.len(),
{
    let mut pairs: Vec<(usize, usize)> = Vec::new();
    let mut a: usize = 0;
    while a < m1.len()
        invariant
            a <= m1@.len(),
            pairs@ == cross_pairs(m1@, m2@, a as int),
        decreases m1@.len() - a,
    {
        let ghost before = pairs@;
        let mut b: usize = 0;
        while b < m2.len()
            invariant
                a < m1@.len(),
                b <= m2@.len(),
                pairs@ == before + cross_row(m1@, m2@, a as int, b as int),
            decreases m2@.len() - b,
        {
            if m1[a] != m2[b] {
                pairs.push((m1[a], m2[b]));
            }
            assert(pairs@ == before + cross_row(m1@, m2@, a as int, b + 1));
            b += 1;
        }
        a += 1;
    }
    proof {
        lemma_cross_pairs(m1@, m2@, m1@.len() as int, locations@.len());
        assert(m1@.len() * m2@.len() <= MAX_CITIES * MAX_CITIES) by (nonlinear_arith)
            requires
                m1@.len() <= MAX_CITIES,
                m2@.len() <= MAX_CITIES,
        ;
    }
    pairs
}

/// Appends the connections between territories `territory1` and `territory2`
/// to `connections`: the `num_connections` nearest pairs of their cities, both
/// ways. Asking for more pairs than the two territories have is a fault of
/// the map's data.
pub fn build_territory_connections(
    connections: &mut Vec<Connection>,
    locations: &Vec<Location>,
    territory1: &Territory,
    territory2: &Territory,
    num_connections: usize,
)
    requires
        locations_ok(locations@),
        members_ok(locations@, territory1.cities@),
        members_ok(locations@, territory2.cities@),
        num_connections <= cross_pairs(territory1.cities@, territory2.cities@, territory1.cities@.len() as int).len(),
    ensures
        final(connections)@ == old(connections)@ + inter_links(
            locations@,
            territory1.cities@,
            territory2.cities@,
            num_connections as int,
        ),
{
    let pairs = cross_pair_list(locations, &territory1.cities, &territory2.cities);
    let mut keys: Vec<u64> = Vec::new();
    let mut i: usize = 0;
    while i < pairs.len()
        invariant
            locations_ok(locations@),
            forall|j: int| 0 <= j < pairs@.len() ==> (#[trigger] pairs@[j]).0 < locations@.len() && pairs@[j].1 < locations@.len(),
            i <= pairs@.len(),
            keys@ == pair_keys(locations@, pairs@).subrange(0, i as int),
        decreases pairs@.len() - i,
    {
        let (c1, c2) = pairs[i];
        let d = squared_distance(&locations[c1], &locations[c2]);
        keys.push(u64::MAX - d);
        assert(keys@ =~= pair_keys(locations@, pairs@).subrange(0, i + 1));
        i += 1;
    }
    assert(keys@ =~= pair_keys(locations@, pairs@));
    let picks = select_top(&keys, num_connections);
    proof {
        assert(top_ranked(keys@, num_connections as int, picks@));
        lemma_top_ranked_unique(keys@, num_connections as int, picks@, top_indices(keys@, num_connections as int));
    }
    let ghost start = connections@;
    let ghost fwd = Seq::new(
        picks@.len(),
        |x: int|
            Connection {
                city1: pairs@[picks@[x] as int].0,
                city2: pairs@[picks@[x] as int].1,
                render: true,
                same_territory: false,
            },
    );
    let ghost back = Seq::new(
        picks@.len(),
        |x: int|
            Connection {
                city1: pairs@[picks@[x] as int].1,
                city2: pairs@[picks@[x] as int].0,
                render: false,
                same_territory: false,
            },
    );
    let mut t: usize = 0;
    while t < picks.len()
        invariant
            forall|x: int| 0 <= x < picks@.len() ==> #[trigger] picks@[x] < pairs@.len(),
            t <= picks@.len(),
            fwd.len() == picks@.len(),
            forall|x: int|
                0 <= x < picks@.len() ==> #[trigger] fwd[x] == (Connection {
                    city1: pairs@[picks@[x] as int].0,
                    city2: pairs@[picks@[x] as int].1,
                    render: true,
                    same_territory: false,
                }),
            connections@ == start + fwd.subrange(0, t as int),
        decreases picks@.len() - t,
    {
        let (c1, c2) = pairs[picks[t]];
        connections.push(Connection { city1: c1, city2: c2, render: true, same_territory: false });
        assert(connections@ =~= start + fwd.subrange(0, t + 1));
        t += 1;
    }
    assert(fwd.subrange(0, picks@.len() as int) == fwd);
    let mut t: usize = 0;
    while t < picks.len()
        invariant
            forall|x: int| 0 <= x < picks@.len() ==> #[trigger] picks@[x] < pairs@.len(),
            t <= picks@.len(),
            back.len() == picks@.len(),
            forall|x: int|
                0 <= x < picks@.len() ==> #[trigger] back[x] == (Connection {
                    city1: pairs@[picks@[x] as int].1,
                    city2: pairs@[picks@[x] as int].0,
                    render: false,
                    same_territory: false,
                }),
            connections@ == start + fwd + back.subrange(0, t as int),
        decreases picks@.len() - t,
    {
        let (c1, c2) = pairs[picks[t]];
        connections.push(Connection { city1: c2, city2: c1, render: false, same_territory: false });
        assert(connections@ =~= start + fwd + back.subrange(0, t + 1));
        t += 1;
    }
    assert(back.subrange(0, picks@.len() as int) == back);
    assert(connections@ =~= start + (fwd + back));
}

/// The cities of each territory.
pub open spec fn members_of(territories: Seq<Territory>) -> Seq<Seq<usize>> {
    Seq::new(territories.len(), |t: int| territories[t].cities@)
}

/// The connections inside the first `n` territories.
pub open spec fn intra_upto(locs: Seq<Location>, terrs: Seq<Seq<usize>>, n: int) -> Seq<Connection>
    decreases n,
{
    if n <= 0 {
        seq![]
    } else {
        intra_upto(locs, terrs, n - 1) + territory_links(locs, terrs[n - 1])
    }
}

/// The connections that the first `n` rules ask for between territories. A
/// rule names two territories and how many pairs of cities to join.
pub open spec fn inter_upto(
    locs: Seq<Location>,
    terrs: Seq<Seq<usize>>,
    rules: Seq<(usize, usize, usize)>,
    n: int,
) -> Seq<Connection>
    decreases n,
{
    if n <= 0 {
        seq![]
    } else {
        let r = rules[n - 1];
        inter_upto(locs, terrs, rules, n - 1) + inter_links(locs, terrs[r.0 as int], terrs[r.1 as int], r.2 as int)
    }
}

/// Every connection of the map: first those inside each territory, then those
/// the rules ask for between territories.
pub open spec fn built_connections(
    locs: Seq<Location>,
    terrs: Seq<Seq<usize>>,
    rules: Seq<(usize, usize, usize)>,
) -> Seq<Connection> {
    intra_upto(locs, terrs, terrs.len() as int) + inter_upto(locs, terrs, rules, rules.len() as int)
}

/// Each rule names two territories, and their cities have at least as many
/// pairs as it asks for.
pub open spec fn rules_ok(terrs: Seq<Seq<usize>>, rules: Seq<(usize, usize, usize)>) -> bool {
    forall|i: int|
        0 <= i < rules.len() ==> (#[trigger] rules[i]).0 < terrs.len() && rules[i].1 < terrs.len() && rules[i].2
            <= cross_pairs(terrs[rules[i].0 as int], terrs[rules[i].1 as int], terrs[rules[i].0 as int].len() as int).len()
}

pub open spec fn territories_ok(locs: Seq<Location>, territories: Seq<Territory>) -> bool {
    forall|t: int| 0 <= t < territories.len() ==> members_ok(locs, #[trigger] territories[t].cities@)
}

/// Whether every rule names two territories whose cities have enough pairs.
pub fn connection_rules_ok(
    locations: &Vec<Location>,
    territories: &Vec<Territory>,
    rules: &Vec<(usize, usize, usize)>,
) -> (r: bool)
    requires
        territories_ok(locations@, territories@),
    ensures
        r == rules_ok(members_of(territories@), rules@),
{
    let ghost terrs = members_of(territories@);
    let mut i: usize = 0;
    while i < rules.len()
        invariant
            territories_ok(locations@, territories@),
            terrs == members_of(territories@),
            i <= rules@.len(),
            forall|x: int|
                0 <= x < i ==> (#[trigger] rules@[x]).0 < terrs.len() && rules@[x].1 < terrs.len() && rules@[x].2
                    <= cross_pairs(terrs[rules@[x].0 as int], terrs[rules@[x].1 as int], terrs[rules@[x].0 as int].len() as int).len(),
        decreases rules@.len() - i,
    {
        let (t1, t2, k) = rules[i];
        if t1 >= territories.len() || t2 >= territories.len() {
            return false;
        }
        let pairs = cross_pair_list(locations, &territories[t1].cities, &territories[t2].cities);
        if k > pairs.len() {
            return false;
        }
        i += 1;
    }
    true
}

/// Builds every connection of the map: inside each territory, the edges of a
/// minimum spanning forest over its cities; between territories, the nearest
/// pairs each rule asks for.
pub fn build_connections(
    locations: &Vec<Location>,
    territories: &Vec<Territory>,
    rules: &Vec<(usize, usize, usize)>,
) -> (r: Vec<Connection>)
    requires
        locations_ok(locations@),
        territories_ok(locations@, territories@),
        rules_ok(members_of(territories@), rules@),
    ensures
        r@ == built_connections(locations@, members_of(territories@), rules@),
{
    let ghost terrs = members_of(territories@);
    let mut connections: Vec<Connection> = Vec::new();
    let mut t: usize = 0;
    while t < territories.len()
        invariant
            locations_ok(locations@),
            territories_ok(locations@, territories@),
            terrs == members_of(territories@),
            t <= territories@.len(),
            connections@ == intra_upto(locations@, terrs, t as int),
        decreases territories@.len() - t,
    {
        build_intra(&mut connections, locations, &territories[t].cities);
        t += 1;
    }
    let ghost intra = connections@;
    let mut i: usize = 0;
    while i < rules.len()
        invariant
            locations_ok(locations@),
            territories_ok(locations@, territories@),
            terrs == members_of(territories@),
            terrs.len() == territories@.len(),
            rules_ok(terrs, rules@),
            intra == intra_upto(locations@, terrs, terrs.len() as int),
            i <= rules@.len(),
            connections@ == intra + inter_upto(locations@, terrs, rules@, i as int),
        decreases rules@.len() - i,
    {
        let (t1, t2, k) = rules[i];
        assert(rules@[i as int].0 < terrs.len());
        build_territory_connections(&mut connections, locations, &territories[t1], &territories[t2], k);
        i += 1;
    }
    connections
}

/// Determinism of geography: the same cities, territories and rules always
/// give the same connections.
pub proof fn lemma_geography_deterministic(
    locs1: Seq<Location>,
    locs2: Seq<Location>,
    terrs1: Seq<Seq<usize>>,
    terrs2: Seq<Seq<usize>>,
    rules1: Seq<(usize, usize, usize)>,
    rules2: Seq<(usize, usize, usize)>,
)
    requires
        locs1 == locs2,
        terrs1 == terrs2,
        rules1 == rules2,
    ensures
        built_connections(locs1, terrs1, rules1) == built_connections(locs2, terrs2, rules2),
{
}

/// City `c` is farther than `min_sq` (squared) from every city of `chosen`
/// that stands elsewhere.
pub open spec fn far_from_all(locs: Seq<Location>, c: usize, chosen: Seq<usize>, min_sq: int) -> bool {
    forall|i: int|
        0 <= i < chosen.len() && locs[chosen[i] as int] != locs[c as int] ==> distance_sq(
            locs[chosen[i] as int],
            locs[c as int],
        ) > min_sq
}

/// The members of a territory, most populous first; among equal populations
/// the earlier member first.
pub open spec fn by_population(populations: Seq<i64>, members: Seq<usize>) -> Seq<usize> {
    let keys = Seq::new(members.len(), |i: int| populations[members[i] as int] as u64);
    let order = top_indices(keys, members.len() as int);
    Seq::new(order.len(), |i: int| members[order[i] as int])
}

/// Cities taken from the first `n` of `order`: each is taken while fewer than
/// `num` are, when it is far enough from every city chosen before.
pub open spec fn spaced_upto(
    locs: Seq<Location>,
    order: Seq<usize>,
    chosen: Seq<usize>,
    num: int,
    min_sq: int,
    n: int,
) -> Seq<usize>
    decreases n,
{
    if n <= 0 {
        seq![]
    } else {
        let prev = spaced_upto(locs, order, chosen, num, min_sq, n - 1);
        if prev.len() < num && far_from_all(locs, order[n - 1], chosen + prev, min_sq) {
            prev.push(order[n - 1])
        } else {
            prev
        }
    }
}

/// Whether city `c` stands farther than `min_sq` (squared) from every city of
/// `chosen` that stands elsewhere.
fn is_far_from_all(locations: &Vec<Location>, c: usize, chosen: &Vec<usize>, min_sq: u64) -> (r: bool)
    requires
        locations_ok(locations@),
        c < locations@.len(),
        forall|i: int| 0 <= i < chosen@.len() ==> #[trigger] chosen@[i] < locations@.len(),
    ensures
        r == far_from_all(locations@, c, chosen@, min_sq as int),
{
    let mut i: usize = 0;
    while i < chosen.len()
        invariant
            locations_ok(locations@),
            c < locations@.len(),
            forall|x: int| 0 <= x < chosen@.len() ==> #[trigger] chosen@[x] < locations@.len(),
            i <= chosen@.len(),
            forall|x: int|
                0 <= x < i && locations@[chosen@[x] as int] != locations@[c as int] ==> distance_sq(
                    locations@[#[trigger] chosen@[x] as int],
                    locations@[c as int],
                ) > min_sq,
        decreases chosen@.len() - i,
    {
        let other = locations[chosen[i]];
        let here = locations[c];
        if other != here {
            if squared_distance(&other, &here) <= min_sq {
                return false;
            }
        }
        i += 1;
    }
    true
}

/// Picks up to `num` cities of one territory, most populous first, skipping
/// any that stands within `min_sq` (squared) of a city already chosen here or
/// in an earlier territory; the picks are added to `chosen` too.
pub fn select_evenly_spaced_cities(
    locations: &Vec<Location>,
    populations: &Vec<i64>,
    members: &Vec<usize>,
    chosen: &mut Vec<usize>,
    num: usize,
    min_sq: u64,
) -> (r: Vec<usize>)
    requires
        locations_ok(locations@),
        populations@.len() == locations@.len(),
        forall|i: int| 0 <= i < populations@.len() ==> #[trigger] populations@[i] >= 0,
        members_ok(locations@, members@),
        forall|i: int| 0 <= i < old(chosen)@.len() ==> #[trigger] old(chosen)@[i] < locations@.len(),
    ensures
        r@ == spaced_upto(
            locations@,
            by_population(populations@, members@),
            old(chosen)@,
            num as int,
            min_sq as int,
            members@.len() as int,
        ),
        final(chosen)@ == old(chosen)@ + r@,
{
    let mut keys: Vec<u64> = Vec::new();
    let mut i: usize = 0;
    while i < members.len()
        invariant
            members_ok(locations@, members@),
            populations@.len() == locations@.len(),
            i <= members@.len(),
            keys@ == Seq::new(members@.len(), |x: int| populations@[members@[x] as int] as u64).subrange(0, i as int),
        decreases members@.len() - i,
    {
        keys.push(populations[members[i]] as u64);
        assert(keys@ =~= Seq::new(members@.len(), |x: int| populations@[members@[x] as int] as u64).subrange(0, i + 1));
        i += 1;
    }
    let ghost all_keys = Seq::new(members@.len(), |x: int| populations@[members@[x] as int] as u64);
    assert(keys@ =~= all_keys);
    let picks = select_top(&keys, members.len());
    proof {
        assert(top_ranked(keys@, members@.len() as int, picks@));
        lemma_top_ranked_unique(keys@, members@.len() as int, picks@, top_indices(keys@, members@.len() as int));
    }
    let ghost order = by_population(populations@, members@);
    assert(order.len() == picks@.len());
    let ghost start = chosen@;
    let mut result: Vec<usize> = Vec::new();
    let mut t: usize = 0;
    while t < picks.len()
        invariant
            locations_ok(locations@),
            members_ok(locations@, members@),
            forall|x: int| 0 <= x < picks@.len() ==> #[trigger] picks@[x] < members@.len(),
            order.len() == picks@.len(),
            picks@.len() == members@.len(),
            forall|x: int| 0 <= x < picks@.len() ==> #[trigger] order[x] == members@[picks@[x] as int],
            t <= picks@.len(),
            forall|x: int| 0 <= x < start.len() ==> #[trigger] start[x] < locations@.len(),
            result@ == spaced_upto(locations@, order, start, num as int, min_sq as int, t as int),
            chosen@ == start + result@,
            forall|x: int| 0 <= x < chosen@.len() ==> #[trigger] chosen@[x] < locations@.len(),
        decreases picks@.len() - t,
    {
        let c = members[picks[t]];
        assert(order[t as int] == c);
        if result.len() < num && is_far_from_all(locations, c, chosen, min_sq) {
            result.push(c);
            chosen.push(c);
        }
        t += 1;
    }
    result
}

} // verus!
