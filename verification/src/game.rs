//! Capability contracts between the search engine and a caller-supplied game.
//!
//! Rewards are fixed-point numbers (see [`crate::fixedpoint::SCALE`]) bounded
//! by [`REWARD_LIMIT`], which is what lets the engine account for accumulated
//! values without overflow.  Finiteness of a game is captured by a measure
//! that every legal move strictly decreases; it is what makes random playouts
//! provably terminating.

use vstd::prelude::*;

verus! {

/// Bound on the magnitude of any single reward, in fixed-point units:
/// `2^40`, that is a real value of at most `2^24`.
pub const REWARD_LIMIT: i64 = 1099511627776;

/// A `GameAction` represents a move in a game.
///
/// Actions are small copyable values; executable equality must agree with
/// logical equality, so that the engine's bookkeeping of which actions have
/// been tried can be specified.
pub trait GameAction: Sized + Copy {
    /// Test two actions for equality.
    fn eq_action(&self, other: &Self) -> (r: bool)
        ensures
            r <==> (self == other),
    ;
}

/// A `Game` represents a game state.
///
/// It is important that the game behaves reproducibly: after
/// [`Game::set_rng_seed`] with equal seeds, equal action sequences must
/// produce the same play.
pub trait Game<A: GameAction>: Sized {
    /// The legal actions of the current state, as a specification value;
    /// empty exactly at a terminal state.
    spec fn actions_spec(&self) -> Seq<A>;

    /// An upper bound on the number of legal moves still playable.  Every
    /// legal move strictly decreases it; this is what "finite game" means
    /// here, and it is what makes playouts terminate.
    spec fn remaining(&self) -> nat;

    /// The reward of the current state, as a specification value; what
    /// [`Game::reward`] returns.
    spec fn reward_spec(&self) -> int;

    /// Return a list with all allowed actions given the current game state.
    fn allowed_actions(&self) -> (r: Vec<A>)
        ensures
            r@ == self.actions_spec(),
    ;

    /// Change the current game state according to the given action.
    ///
    /// A legal action is always applied and consumes part of the game's
    /// measure.  An illegal action is a caller fault; the game reports
    /// whether it applied anything, and promises nothing else about the
    /// resulting state.
    fn make_move(&mut self, action: &A) -> (applied: bool)
        ensures
            old(self).actions_spec().contains(*action) ==> applied
                && final(self).remaining() < old(self).remaining(),
    ;

    /// Reward for the player when reaching the current game state, in
    /// fixed-point units.
    fn reward(&self) -> (r: i64)
        ensures
            r == self.reward_spec(),
            -REWARD_LIMIT <= r <= REWARD_LIMIT,
    ;

    /// Determinize the game: fix every internal stochastic element of the
    /// state so that its future becomes a function of the moves played.
    fn set_rng_seed(&mut self, seed: u32);

    /// An independent copy of the state.
    ///
    /// The copy offers the same legal actions and the same reward as the
    /// state it came from; beyond that the engine treats every clone as
    /// just another state of the same game.
    fn clone_game(&self) -> (g: Self)
        ensures
            g.actions_spec() == self.actions_spec(),
            g.reward_spec() == self.reward_spec(),
    ;
}

} // verus!
