//! A simple dummy game.
//!
//! The goal of the agent is to advance its points to exactly 11.  In each
//! turn the agent can choose to add a number between 3 and 5; when the sum
//! is below 11 the agent can take another turn; if it is exactly 11 the
//! agent wins and gains a reward of 1; if it is above 11 the agent loses
//! and gains a final reward of -1.
//!
//! Potential, equally good sequences of action which let the agent win are
//! thus e.g. [3, 3, 5], [5, 3, 3] or [4, 4, 3].

use vstd::prelude::*;

use crate::fixedpoint::SCALE;
use crate::game::{Game, GameAction};

verus! {

/// The sum the agent must hit exactly.
pub const WINNING_SUM: u32 = 11;

/// Smallest number one turn may add.
pub const DRAW_MIN: u32 = 3;

/// One past the largest number one turn may add.
pub const DRAW_MAX: u32 = 6;

/// One move: add this number to the running sum.
#[derive(Debug, Clone, Copy, PartialEq, Eq, Structural)]
pub struct Action {
    pub add: u32,
}

impl GameAction for Action {
    fn eq_action(&self, other: &Self) -> (r: bool) {
        self.add == other.add
    }
}

/// The game state: just the running sum, starting at zero.
#[derive(Debug, Clone, Copy)]
pub struct MiniGame {
    pub sum: u32,
}

impl MiniGame {
    pub fn new() -> (g: MiniGame)
        ensures
            g.sum == 0,
    {
        MiniGame { sum: 0 }
    }
}

impl Game<Action> for MiniGame {
    /// While the sum is below the target, the three draws are allowed, in
    /// ascending order; at or above the target the game is over.
    open spec fn actions_spec(&self) -> Seq<Action> {
        if self.sum < WINNING_SUM {
            seq![(Action { add: 3 }), (Action { add: 4 }), (Action { add: 5 })]
        } else {
            Seq::empty()
        }
    }

    /// Every legal move adds at least 3, so the gap to the target bounds
    /// the number of moves left.
    open spec fn remaining(&self) -> nat {
        if self.sum < WINNING_SUM {
            (WINNING_SUM - self.sum) as nat
        } else {
            0
        }
    }

    /// Nothing below the target, one on it, minus one past it.
    open spec fn reward_spec(&self) -> int {
        if self.sum < WINNING_SUM {
            0
        } else if self.sum == WINNING_SUM {
            SCALE as int
        } else {
            -(SCALE as int)
        }
    }

    fn allowed_actions(&self) -> (r: Vec<Action>) {
        let mut moves: Vec<Action> = Vec::new();
        if self.sum < WINNING_SUM {
            let mut add: u32 = DRAW_MIN;
            while add < DRAW_MAX
                invariant
                    DRAW_MIN <= add <= DRAW_MAX,
                    moves@.len() == add - DRAW_MIN,
                    forall|i: int|
                        0 <= i < moves@.len() ==> (#[trigger] moves@[i]) == (Action {
                            add: (DRAW_MIN + i) as u32,
                        }),
                decreases DRAW_MAX - add,
            {
                moves.push(Action { add });
                add = add + 1;
            }
            proof {
                assert(moves@ =~= self.actions_spec());
            }
        }
        moves
    }

    fn make_move(&mut self, action: &Action) -> (applied: bool)
        ensures
            applied <==> old(self).sum + action.add <= u32::MAX,
            applied ==> final(self).sum == old(self).sum + action.add,
            !applied ==> final(self).sum == old(self).sum,
    {
        match self.sum.checked_add(action.add) {
            Option::Some(s) => {
                self.sum = s;
                true
            },
            Option::None => false,
        }
    }

    fn reward(&self) -> (r: i64) {
        if self.sum < WINNING_SUM {
            0
        } else if self.sum == WINNING_SUM {
            SCALE as i64
        } else {
            -(SCALE as i64)
        }
    }

    /// This game is deterministic; the determinization hook is a no-op
    /// and the state is left exactly as it was.
    fn set_rng_seed(&mut self, _seed: u32)
        ensures
            *final(self) == *old(self),
    {
    }

    fn clone_game(&self) -> (g: Self)
        ensures
            g.sum == self.sum,
    {
        MiniGame { sum: self.sum }
    }
}

} // verus!
