//! The interface through which the search engine sees a game.

use vstd::prelude::*;
use super::{Output, Player};

verus! {

/// A position of a two-player, alternating-turn game.
///
/// The engine never looks inside a position. It reasons about the
/// mathematical `Model` of a position, and every operation says what it does
/// in terms of that model. What the engine proves of a search holds for
/// every game whose operations keep these contracts.
///
/// The functions without a body in compiled code (`model`, `wf`, `legal`,
/// `playable`, `after`, `outcome`, `mover`, `horizon` and the two laws) are
/// never run. An implementation that is not verified still has to name
/// them; what they return does not matter.
pub trait GameState: Sized {
    /// A move of the game.
    type Move: Copy;

    /// The mathematical value a position stands for.
    type Model;

    /// The value this position stands for.
    spec fn model(&self) -> Self::Model;

    /// The representation invariant of a position.
    spec fn wf(&self) -> bool;

    /// The moves open to the player to move, in the order in which
    /// `legal_moves` lists them.
    spec fn legal(m: Self::Model) -> Seq<Self::Move>;

    /// The moves that `apply` accepts: every legal move and everything that
    /// `random_move` may hand out.
    spec fn playable(m: Self::Model, mv: Self::Move) -> bool;

    /// The position reached by a move.
    spec fn after(m: Self::Model, mv: Self::Move) -> Self::Model;

    /// The result of a finished game as `perspective` sees it, `None` while
    /// the game goes on.
    spec fn outcome(m: Self::Model, perspective: Player) -> Option<Output>;

    /// The player to move.
    spec fn mover(m: Self::Model) -> Player;

    /// An upper bound on the number of moves that can still be played.
    spec fn horizon(m: Self::Model) -> nat;

    /// An independent copy of the position.
    fn duplicate(&self) -> (r: Self)
        requires
            self.wf(),
        ensures
            r.wf(),
            r.model() == self.model(),
    ;

    /// All moves open to the player to move; empty in a final position.
    fn legal_moves(&self) -> (r: Vec<Self::Move>)
        requires
            self.wf(),
        ensures
            r@ == Self::legal(self.model()),
    ;

    /// Plays a move. The move is not validated again.
    fn apply(&mut self, mv: Self::Move)
        requires
            old(self).wf(),
            Self::playable(old(self).model(), mv),
        ensures
            final(self).wf(),
            final(self).model() == Self::after(old(self).model(), mv),
    ;

    /// The result of the game as `perspective` sees it, `None` while the game
    /// goes on.
    fn terminal_outcome(&self, perspective: Player) -> (r: Option<Output>)
        requires
            self.wf(),
        ensures
            r == Self::outcome(self.model(), perspective),
    ;

    /// A cheaply found move for a rollout. `None` does not mean that no legal
    /// move exists.
    fn random_move(&self) -> (r: Option<Self::Move>)
        requires
            self.wf(),
        ensures
            r matches Some(mv) ==> Self::playable(self.model(), mv),
    ;

    /// The player to move.
    fn to_move(&self) -> (r: Player)
        requires
            self.wf(),
        ensures
            r == Self::mover(self.model()),
    ;

    /// Every legal move is accepted by `apply`.
    proof fn legal_moves_are_playable(&self, i: int)
        requires
            self.wf(),
            0 <= i < Self::legal(self.model()).len(),
        ensures
            Self::playable(self.model(), Self::legal(self.model())[i]),
    ;

    /// While the game goes on, every move brings its end nearer.
    proof fn moves_shorten_the_game(&self, mv: Self::Move, perspective: Player)
        requires
            self.wf(),
            Self::outcome(self.model(), perspective) is None,
            Self::playable(self.model(), mv),
        ensures
            Self::horizon(Self::after(self.model(), mv)) < Self::horizon(self.model()),
    ;
}

} // verus!
