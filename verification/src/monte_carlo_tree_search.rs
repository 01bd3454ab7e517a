//! The search engine: tree model, selection, expansion, rollout,
//! backpropagation, the search budget and re-rooting.

use vstd::prelude::*;
use core::time::Duration;

pub mod backpropagation;
pub mod bags;
pub mod engine;
pub mod expansion;
pub mod game;
pub mod laws;
pub mod packing;
pub mod reuse;
pub mod selection;
pub mod simulation;
pub mod tree;

pub use backpropagation::backpropagation;
pub use engine::{algorithm, engine, has_room};
pub use expansion::{expand_move, expansion_phase};
pub use game::GameState;
pub use packing::compact;
pub use reuse::trim_tree;
pub use selection::{child_keys, first_maximum, selection_phase, NodeType};
pub use simulation::{simulation_phase, simulation_step};
pub use tree::{create_root_node, extract_board, Node, Origin, Tree};

verus! {

/// One of the two sides of a game.
#[derive(PartialEq, Eq, Structural, Copy, Clone, Debug)]
pub enum Player {
    Host,
    Guest,
}

impl Player {
    /// The opponent of a player.
    pub open spec fn other(self) -> Player {
        match self {
            Player::Host => Player::Guest,
            Player::Guest => Player::Host,
        }
    }

    /// Returns the opponent of this player.
    pub fn opponent(self) -> (r: Player)
        ensures
            r == self.other(),
    {
        match self {
            Player::Host => Player::Guest,
            Player::Guest => Player::Host,
        }
    }
}

/// How a finished game looks from one player's side.
#[derive(PartialEq, Eq, Structural, Copy, Clone, Debug)]
pub enum Output {
    Win,
    Draw,
    Loss,
}

impl Output {
    /// The same result seen from the other side of the board: a win becomes a
    /// loss, a loss a win, a draw stays a draw.
    pub open spec fn flipped(self) -> Output {
        match self {
            Output::Win => Output::Loss,
            Output::Draw => Output::Draw,
            Output::Loss => Output::Win,
        }
    }

    /// Returns the result as the opponent sees it.
    pub fn flip(self) -> (r: Output)
        ensures
            r == self.flipped(),
    {
        match self {
            Output::Win => Output::Loss,
            Output::Draw => Output::Draw,
            Output::Loss => Output::Win,
        }
    }
}

/// The budget of one search call.
pub enum Mode {
    /// Run this many iterations.
    Iterations(usize),
    /// Keep starting iterations until this much time has passed.
    Time(Duration),
}

} // verus!
