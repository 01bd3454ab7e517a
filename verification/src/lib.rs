//! Monte Carlo tree search for two-player, perfect-information board games,
//! together with the games it is played on.
//!
//! The search engine lives in [`monte_carlo_tree_search`]; it is generic over
//! the [`monte_carlo_tree_search::GameState`] interface, which each game module
//! implements for its board.

mod chance;
mod clock;
pub mod flower_skud;
pub mod monte_carlo_tree_search;
pub mod skud_pai_sho;
pub mod tic_tac_toe;
pub mod ultimate_tic_tac_toe;
