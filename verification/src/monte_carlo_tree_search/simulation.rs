//! Rollout: playing a position to its end with moves from the game's fast
//! move source.

use vstd::prelude::*;
use super::game::GameState;
use super::{Output, Player};

verus! {

/// The position reached from `m` by the moves of `path`, first move first.
pub open spec fn played<G: GameState>(m: G::Model, path: Seq<G::Move>) -> G::Model
    decreases path.len(),
{
    if path.len() == 0 {
        m
    } else {
        G::after(played::<G>(m, path.drop_last()), path.last())
    }
}

/// Whether `path` can be played from `m` as a rollout does: before each of
/// its moves the game is still going on and the move is accepted.
pub open spec fn is_playout<G: GameState>(
    m: G::Model,
    perspective: Player,
    path: Seq<G::Move>,
) -> bool {
    forall|i: int|
        0 <= i < path.len() ==> {
            &&& G::outcome(#[trigger] played::<G>(m, path.take(i)), perspective) is None
            &&& G::playable(played::<G>(m, path.take(i)), path[i])
        }
}

/// What a rollout returns that has played `path` from `m` and stopped: the
/// result of the game where it is over, a draw where it is not.
pub open spec fn rollout_result<G: GameState>(
    m: G::Model,
    perspective: Player,
    path: Seq<G::Move>,
) -> Output {
    match G::outcome(played::<G>(m, path), perspective) {
        Some(result) => result,
        None => Output::Draw,
    }
}

/// One step of a rollout in a position where the game goes on. With a move
/// from the move source, the move is played and the rollout continues. With
/// none, the rollout ends and counts as a draw.
pub fn simulation_step<G: GameState>(board: &mut G, choice: Option<G::Move>) -> (r: Option<Output>)
    requires
        old(board).wf(),
        choice matches Some(mv) ==> G::playable(old(board).model(), mv),
    ensures
        final(board).wf(),
        match choice {
            Some(mv) => r is None && final(board).model() == G::after(old(board).model(), mv),
            None => r == Some(Output::Draw) && final(board).model() == old(board).model(),
        },
{
    match choice {
        Some(mv) => {
            board.apply(mv);
            None
        },
        None => Some(Output::Draw),
    }
}

/// Plays `board` to an end and returns the result as the player to move in
/// `board` sees it. Each move comes from the game's fast move source; where
/// that has no move although the game is not over, the result is a draw.
pub fn simulation_phase<G: GameState>(board: G) -> (r: Output)
    requires
        board.wf(),
    ensures
        exists|path: Seq<G::Move>|
            {
                &&& #[trigger] is_playout::<G>(board.model(), G::mover(board.model()), path)
                &&& r == rollout_result::<G>(board.model(), G::mover(board.model()), path)
            },
{
    let ghost start = board.model();
    let mut board = board;
    let player = board.to_move();
    let ghost mut path: Seq<G::Move> = Seq::empty();
    let mut outcome = Output::Draw;
    loop
        invariant
            board.wf(),
            player == G::mover(start),
            is_playout::<G>(start, player, path),
            board.model() == played::<G>(start, path),
        ensures
            outcome == rollout_result::<G>(start, player, path),
        decreases G::horizon(board.model()),
    {
        match board.terminal_outcome(player) {
            Some(result) => {
                outcome = result;
                break ;
            },
            None => {},
        }
        let choice = board.random_move();
        let ghost before = board;
        match simulation_step(&mut board, choice) {
            Some(result) => {
                outcome = result;
                break ;
            },
            None => {
                proof {
                    let mv = choice.unwrap();
                    before.moves_shorten_the_game(mv, player);
                    let longer = path.push(mv);
                    assert(longer.drop_last() =~= path);
                    assert forall|i: int| 0 <= i < longer.len() implies {
                        &&& G::outcome(#[trigger] played::<G>(start, longer.take(i)), player) is None
                        &&& G::playable(played::<G>(start, longer.take(i)), longer[i])
                    } by {
                        if i < path.len() {
                            assert(longer.take(i) =~= path.take(i));
                        } else {
                            assert(longer.take(i) =~= path);
                        }
                    }
                    path = longer;
                }
            },
        }
    }
    outcome
}

} // verus!
