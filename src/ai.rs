use vstd::prelude::*;

verus! {

/// Difficulty levels offered for computer opponents.
#[derive(Clone, Copy, Debug, PartialEq, Eq, Structural)]
pub enum Difficulty {
    TreeSearchEasy,
    TreeSearchNormal,
    TreeSearchHard,
}

/// The decision models a computer opponent can use.
#[derive(Clone, Copy, Debug, PartialEq, Eq, Structural)]
pub enum AIModel {
    TreeSearch,
}

/// Strength of a computer opponent.
#[derive(Clone, Copy, Debug, PartialEq, Eq, Structural)]
pub enum AIStrength {
    Easy,
    Normal,
    Hard,
}

} // verus!
