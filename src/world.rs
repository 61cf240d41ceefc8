use vstd::prelude::*;

verus! {

/// Most cities a map may hold.
pub const MAX_CITIES: usize = 1000;
/// Most connections a map may hold.
pub const MAX_CONNECTIONS: usize = 10000;
/// Most armies a single city may hold.
pub const MAX_ARMIES: usize = 10000;
/// Most players a game may seat.
pub const MAX_PLAYERS: usize = 100;
/// Largest value of any score weight of a profile.
pub const MAX_WEIGHT: u64 = 10000;
/// Deepest lookahead a profile may ask for: a ceiling on the nodes a search visits.
pub const MAX_SEARCH_DEPTH: usize = 8;
/// Widest breadth a profile may ask for.
pub const MAX_CHOICES: usize = 16;
/// Placement stops adding armies to a city that holds this many.
pub const MAXIMUM_ARMIES_PER_CITY: usize = 10;
/// Most reinforcements a player may hold waiting to be placed.
pub const MAX_RESERVE: u32 = 1000000;

/// The phases a game passes through.
#[derive(Clone, Copy, Debug, PartialEq, Eq, Structural)]
pub enum GameMode {
    Randomising,
    ArmyPlacement,
    Game,
    End,
}

/// Tunable parameters of a player: the weights of the scoring function and
/// the bounds of the search.
#[derive(Clone, Copy, Debug, PartialEq, Eq, Structural)]
pub struct Profile {
    pub human: bool,
    pub search_depth: usize,
    pub city_size_multiplier: u64,
    pub army_multiplier: u64,
    pub army_same_territory: u64,
    pub army_bordering: u64,
    pub minimum_armies: usize,
    pub attack_delta_multiplier: u64,
    /// How many of the best candidates a search keeps at each level.
    pub no_choices: usize,
    /// Size of the random jitter added to a score, in percent of it.
    pub random_percent: u64,
}

impl Profile {
    pub open spec fn wf(&self) -> bool {
        &&& self.search_depth <= MAX_SEARCH_DEPTH
        &&& self.no_choices <= MAX_CHOICES
        &&& self.city_size_multiplier <= MAX_WEIGHT
        &&& self.army_multiplier <= MAX_WEIGHT
        &&& self.army_same_territory <= MAX_WEIGHT
        &&& self.army_bordering <= MAX_WEIGHT
        &&& self.attack_delta_multiplier <= MAX_WEIGHT
        &&& self.random_percent <= 100
    }
}

/// A seat at the table.
#[derive(Clone, Copy, Debug, PartialEq, Eq, Structural)]
pub struct Player {
    pub index: usize,
    pub score: u64,
    pub armies_to_assign: u32,
    /// Reinforcements earned but not yet whole, in tenths of an army.
    pub armies_to_assign_tenths: u32,
    pub profile: Profile,
}

impl Player {
    pub fn is_human(&self) -> (r: bool)
        ensures
            r == self.profile.human,
    {
        self.profile.human
    }
}

/// The mutable record of a city: its territory and size never change, its
/// owner and army count do.
#[derive(Clone, Copy, Debug, PartialEq, Eq, Structural)]
pub struct City {
    pub territory: usize,
    pub size: u8,
    pub armies: usize,
    pub owner: Option<usize>,
}

/// The size class of a city with the given population.
pub open spec fn size_class(population: int) -> u8 {
    if population < 150000 {
        1
    } else if population < 500000 {
        2
    } else if population < 2500000 {
        3
    } else if population < 5000000 {
        4
    } else {
        5
    }
}

impl City {
    /// A new unowned city with one army.
    pub fn new(territory: usize, population: i64) -> (r: City)
        ensures
            r == (City { territory, size: size_class(population as int), armies: 1, owner: None }),
    {
        let size: u8 = if population < 150000 {
            1
        } else if population < 500000 {
            2
        } else if population < 2500000 {
            3
        } else if population < 5000000 {
            4
        } else {
            5
        };
        City { territory, size, armies: 1, owner: None }
    }
}

/// A directed edge between two cities. `render` marks the one direction of a
/// pair that is drawn.
#[derive(Clone, Copy, Debug, PartialEq, Eq, Structural)]
pub struct Connection {
    pub city1: usize,
    pub city2: usize,
    pub render: bool,
    pub same_territory: bool,
}

/// A named region and the indices of its cities.
#[derive(Debug)]
pub struct Territory {
    pub name: String,
    pub cities: Vec<usize>,
}

/// The map, fixed once built and shared by every branch of a search.
#[derive(Debug)]
pub struct WorldFixed {
    pub territories: Vec<Territory>,
    pub connections: Vec<Connection>,
    /// Cities still to be handed out while ownership is being randomised.
    pub cities_to_assign: Vec<usize>,
}

impl WorldFixed {
    /// Every connection joins two cities of a map with `n` cities.
    pub open spec fn wf(&self, n: nat) -> bool {
        &&& self.connections@.len() <= MAX_CONNECTIONS
        &&& forall|k: int|
            0 <= k < self.connections@.len() ==> (#[trigger] self.connections@[k]).city1 < n
                && self.connections@[k].city2 < n
    }
}

/// What a `WorldState` holds, as values.
pub struct WorldView {
    pub mode: GameMode,
    pub current_player: usize,
    pub players: Seq<Player>,
    pub cities: Seq<City>,
}

impl WorldView {
    pub open spec fn wf(&self) -> bool {
        &&& 0 < self.players.len() <= MAX_PLAYERS
        &&& self.current_player < self.players.len()
        &&& forall|i: int|
            0 <= i < self.players.len() ==> (#[trigger] self.players[i]).index == i
                && self.players[i].profile.wf() && self.players[i].armies_to_assign_tenths < 10
                && self.players[i].armies_to_assign <= MAX_RESERVE
        &&& self.cities.len() <= MAX_CITIES
        &&& forall|j: int|
            0 <= j < self.cities.len() ==> (#[trigger] self.cities[j]).armies <= MAX_ARMIES
                && 1 <= self.cities[j].size <= 5
                && (self.cities[j].owner matches Some(o) ==> o < self.players.len())
    }

    pub open spec fn current(&self) -> Player {
        self.players[self.current_player as int]
    }
}

/// The state that changes from turn to turn.
#[derive(Debug)]
pub struct WorldState {
    pub mode: GameMode,
    pub current_player: usize,
    pub players: Vec<Player>,
    pub cities: Vec<City>,
}

impl View for WorldState {
    type V = WorldView;

    open spec fn view(&self) -> WorldView {
        WorldView {
            mode: self.mode,
            current_player: self.current_player,
            players: self.players@,
            cities: self.cities@,
        }
    }
}

impl WorldState {
    pub open spec fn wf(&self) -> bool {
        self@.wf()
    }

    /// Well formed, on a map whose connections fit the cities.
    pub open spec fn wf_on(&self, fixed: &WorldFixed) -> bool {
        self.wf() && fixed.wf(self.cities@.len())
    }

    pub open spec fn current(&self) -> Player {
        self.players@[self.current_player as int]
    }

    /// An independent copy of the state, to be changed by a branch of the
    /// search while this one stays as it is.
    pub fn deep_clone(&self) -> (r: WorldState)
        ensures
            r@ == self@,
    {
        let mut players: Vec<Player> = Vec::new();
        let mut i: usize = 0;
        while i < self.players.len()
            invariant
                i <= self.players@.len(),
                players@ == self.players@.subrange(0, i as int),
            decreases self.players@.len() - i,
        {
            players.push(self.players[i]);
            i += 1;
        }
        let mut cities: Vec<City> = Vec::new();
        let mut j: usize = 0;
        while j < self.cities.len()
            invariant
                j <= self.cities@.len(),
                cities@ == self.cities@.subrange(0, j as int),
            decreases self.cities@.len() - j,
        {
            cities.push(self.cities[j]);
            j += 1;
        }
        assert(players@ == self.players@);
        assert(cities@ == self.cities@);
        WorldState { mode: self.mode, current_player: self.current_player, players, cities }
    }

    pub fn get_current_player(&self) -> (r: Player)
        requires
            self.wf(),
        ensures
            r == self.current(),
    {
        self.players[self.current_player]
    }

    pub fn get_current_player_index(&self) -> (r: usize)
        requires
            self.wf(),
        ensures
            r == self.current_player,
            r == self.current().index,
    {
        self.current_player
    }

    pub fn get_player_for_index(&self, player: usize) -> (r: Player)
        requires
            player < self.players@.len(),
        ensures
            r == self.players@[player as int],
    {
        self.players[player]
    }
}

} // verus!
