//! The TicTacToe board game.
//!
//! Rows and columns decide a win — this variant counts no diagonals — and
//! a full board without a winning line is a draw.

use vstd::prelude::*;

use crate::fixedpoint::SCALE;
use crate::game::{Game, GameAction};

verus! {

/// Represent a player, or the absence of one on a field.
#[derive(Debug, Copy, Clone, PartialEq, Eq, Structural)]
pub enum Player {
    Nobody,
    Cross,
    Circle,
}

impl Player {
    /// The opposing player; `Nobody` has no opponent.
    pub open spec fn other_spec(self) -> Player {
        match self {
            Player::Cross => Player::Circle,
            Player::Circle => Player::Cross,
            Player::Nobody => Player::Nobody,
        }
    }

    pub fn other(self) -> (r: Player)
        ensures
            r == self.other_spec(),
    {
        match self {
            Player::Cross => Player::Circle,
            Player::Circle => Player::Cross,
            Player::Nobody => Player::Nobody,
        }
    }
}

/// Represent a move in the TicTacToe game.
#[derive(Debug, Clone, Copy, PartialEq, Eq, Structural)]
pub struct Move {
    pub x: u8,
    pub y: u8,
}

impl GameAction for Move {
    fn eq_action(&self, other: &Self) -> (r: bool) {
        self.x == other.x && self.y == other.y
    }
}

/// Represent the game status (who has won?).
#[derive(Debug, PartialEq, Eq, Structural)]
pub enum GameStatus {
    Ongoing,
    Won(Player),
}

/// If all three fields carry the same player, that player; `Nobody`
/// otherwise.
pub open spec fn three_same_spec(f1: Player, f2: Player, f3: Player) -> Player {
    if f1 == f2 && f2 == f3 {
        f1
    } else {
        Player::Nobody
    }
}

/// Simply check if three fields are the same.
pub fn three_same(f1: Player, f2: Player, f3: Player) -> (r: Player)
    ensures
        r == three_same_spec(f1, f2, f3),
{
    if f1 == f2 && f2 == f3 {
        return f1;
    }
    Player::Nobody
}

/// TicTacToe board game.
#[derive(Debug)]
pub struct TicTacToe {
    board: Vec<Player>,
    next_player: Player,
}

impl TicTacToe {
    /// Always nine fields, and someone is always to move.
    #[verifier::type_invariant]
    pub closed spec fn wf(self) -> bool {
        &&& self.board@.len() == 9
        &&& self.next_player != Player::Nobody
    }

    /// The board, row by row.
    pub closed spec fn board_view(self) -> Seq<Player> {
        self.board@
    }

    /// Whose turn it is.
    pub closed spec fn next_player_view(self) -> Player {
        self.next_player
    }

    /// The owner of field `(y, x)`.
    pub open spec fn field(self, y: int, x: int) -> Player {
        self.board_view()[3 * y + x]
    }

    /// Winner of row `r`, or `Nobody`.
    pub open spec fn row_winner(self, r: int) -> Player {
        three_same_spec(self.field(r, 0), self.field(r, 1), self.field(r, 2))
    }

    /// Winner of column `c`, or `Nobody`.
    pub open spec fn col_winner(self, c: int) -> Player {
        three_same_spec(self.field(0, c), self.field(1, c), self.field(2, c))
    }

    /// What `game_status` reports: the first winning row (rows before
    /// columns, lower index first), else `Ongoing` while an empty field
    /// remains, else a draw.
    pub open spec fn game_status_spec(self) -> GameStatus {
        if self.row_winner(0) != Player::Nobody {
            GameStatus::Won(self.row_winner(0))
        } else if self.row_winner(1) != Player::Nobody {
            GameStatus::Won(self.row_winner(1))
        } else if self.row_winner(2) != Player::Nobody {
            GameStatus::Won(self.row_winner(2))
        } else if self.col_winner(0) != Player::Nobody {
            GameStatus::Won(self.col_winner(0))
        } else if self.col_winner(1) != Player::Nobody {
            GameStatus::Won(self.col_winner(1))
        } else if self.col_winner(2) != Player::Nobody {
            GameStatus::Won(self.col_winner(2))
        } else if exists|i: int| 0 <= i < 9 && self.board_view()[i] == Player::Nobody {
            GameStatus::Ongoing
        } else {
            GameStatus::Won(Player::Nobody)
        }
    }

    pub fn new() -> (g: TicTacToe)
        ensures
            g.board_view() =~= Seq::new(9, |i: int| Player::Nobody),
            g.next_player_view() == Player::Cross,
    {
        let mut board: Vec<Player> = Vec::new();
        let mut i: usize = 0;
        while i < 9
            invariant
                0 <= i <= 9,
                board@.len() == i,
                forall|j: int| 0 <= j < i ==> (#[trigger] board@[j]) == Player::Nobody,
            decreases 9 - i,
        {
            board.push(Player::Nobody);
            i = i + 1;
        }
        TicTacToe { board, next_player: Player::Cross }
    }

    /// Direct access to the board.
    pub fn get_field(&self, y: u8, x: u8) -> (r: Player)
        requires
            y < 3,
            x < 3,
        ensures
            r == self.field(y as int, x as int),
    {
        proof {
            use_type_invariant(&*self);
        }
        let idx = 3 * y + x;
        self.board[idx as usize]
    }

    /// Direct access to the board.
    pub fn set_field(&mut self, y: u8, x: u8, what: Player)
        requires
            y < 3,
            x < 3,
        ensures
            final(self).board_view() =~= old(self).board_view().update(
                3 * (y as int) + (x as int),
                what,
            ),
            final(self).next_player_view() == old(self).next_player_view(),
    {
        proof {
            use_type_invariant(&*self);
        }
        let idx = 3 * y + x;
        let fref = &mut self.board[idx as usize];
        *fref = what;
    }

    /// Who has won, if anyone?  Checks the three rows, then the three
    /// columns; with no winning line, the game is ongoing while an empty
    /// field remains and drawn otherwise.
    pub fn game_status(&self) -> (r: GameStatus)
        ensures
            r == self.game_status_spec(),
    {
        proof {
            use_type_invariant(&*self);
        }
        let mut line: u8 = 0;
        while line < 3
            invariant
                self.wf(),
                0 <= line <= 3,
                forall|l: int| 0 <= l < line ==> self.row_winner(l) == Player::Nobody,
            decreases 3 - line,
        {
            let this_row_same = three_same(
                self.get_field(line, 0),
                self.get_field(line, 1),
                self.get_field(line, 2),
            );
            match this_row_same {
                Player::Cross | Player::Circle => {
                    return GameStatus::Won(this_row_same);
                },
                Player::Nobody => {},
            }
            line = line + 1;
        }
        let mut col: u8 = 0;
        while col < 3
            invariant
                self.wf(),
                0 <= col <= 3,
                forall|l: int| 0 <= l < 3 ==> self.row_winner(l) == Player::Nobody,
                forall|l: int| 0 <= l < col ==> self.col_winner(l) == Player::Nobody,
            decreases 3 - col,
        {
            let this_col_same = three_same(
                self.get_field(0, col),
                self.get_field(1, col),
                self.get_field(2, col),
            );
            match this_col_same {
                Player::Cross | Player::Circle => {
                    return GameStatus::Won(this_col_same);
                },
                Player::Nobody => {},
            }
            col = col + 1;
        }
        let mut row: u8 = 0;
        while row < 3
            invariant
                self.wf(),
                0 <= row <= 3,
                forall|l: int| 0 <= l < 3 ==> self.row_winner(l) == Player::Nobody,
                forall|l: int| 0 <= l < 3 ==> self.col_winner(l) == Player::Nobody,
                forall|i: int| 0 <= i < 3 * row ==> self.board_view()[i] != Player::Nobody,
            decreases 3 - row,
        {
            let mut col2: u8 = 0;
            while col2 < 3
                invariant
                    self.wf(),
                    0 <= row < 3,
                    0 <= col2 <= 3,
                    forall|l: int| 0 <= l < 3 ==> self.row_winner(l) == Player::Nobody,
                    forall|l: int| 0 <= l < 3 ==> self.col_winner(l) == Player::Nobody,
                    forall|i: int|
                        0 <= i < 3 * (row as int) + col2 ==> self.board_view()[i] != Player::Nobody,
                decreases 3 - col2,
            {
                match self.get_field(row, col2) {
                    Player::Nobody => {
                        return GameStatus::Ongoing;
                    },
                    _ => {},
                }
                col2 = col2 + 1;
            }
            row = row + 1;
        }
        GameStatus::Won(Player::Nobody)
    }

    /// The empty fields among the first `k`, in field order, as moves.
    pub open spec fn moves_upto(self, k: int) -> Seq<Move>
        decreases k,
    {
        if k <= 0 {
            Seq::empty()
        } else {
            let rest = self.moves_upto(k - 1);
            if self.board_view()[k - 1] == Player::Nobody {
                rest.push((Move { x: ((k - 1) % 3) as u8, y: ((k - 1) / 3) as u8 }))
            } else {
                rest
            }
        }
    }
}

impl Game<Move> for TicTacToe {
    /// All empty fields, row by row.
    open spec fn actions_spec(&self) -> Seq<Move> {
        self.moves_upto(9)
    }

    /// Each move fills an empty field, so the empty fields bound the
    /// moves still playable.
    open spec fn remaining(&self) -> nat {
        self.moves_upto(9).len() as nat
    }

    /// One for a line of crosses, minus one for a line of circles,
    /// nothing otherwise.
    open spec fn reward_spec(&self) -> int {
        match self.game_status_spec() {
            GameStatus::Won(Player::Cross) => SCALE as int,
            GameStatus::Won(Player::Circle) => -(SCALE as int),
            _ => 0,
        }
    }

    /// Return a vector with all allowed moves.
    fn allowed_actions(&self) -> (r: Vec<Move>) {
        proof {
            use_type_invariant(&*self);
        }
        let mut moves: Vec<Move> = Vec::new();
        let mut y: u8 = 0;
        while y < 3
            invariant
                self.wf(),
                0 <= y <= 3,
                moves@ == self.moves_upto(3 * (y as int)),
            decreases 3 - y,
        {
            let mut x: u8 = 0;
            while x < 3
                invariant
                    self.wf(),
                    0 <= y < 3,
                    0 <= x <= 3,
                    moves@ == self.moves_upto(3 * (y as int) + (x as int)),
                decreases 3 - x,
            {
                match self.get_field(y, x) {
                    Player::Nobody => {
                        moves.push(Move { x, y });
                        proof {
                            let k = 3 * (y as int) + (x as int) + 1;
                            assert(((k - 1) % 3) as u8 == x) by (nonlinear_arith)
                                requires
                                    k - 1 == 3 * (y as int) + (x as int),
                                    0 <= x < 3,
                                    0 <= y < 3,
                            ;
                            assert(((k - 1) / 3) as u8 == y) by (nonlinear_arith)
                                requires
                                    k - 1 == 3 * (y as int) + (x as int),
                                    0 <= x < 3,
                                    0 <= y < 3,
                            ;
                        }
                    },
                    _ => {},
                }
                x = x + 1;
            }
            y = y + 1;
        }
        moves
    }

    /// Calculate reward for the current game situation.
    fn reward(&self) -> (r: i64) {
        match self.game_status() {
            GameStatus::Won(Player::Cross) => SCALE as i64,
            GameStatus::Won(Player::Circle) => -(SCALE as i64),
            _ => 0,
        }
    }

    /// Make a move: place the player to move, hand the turn over.  A move
    /// outside the board is refused.
    fn make_move(&mut self, a_move: &Move) -> (applied: bool)
        ensures
            applied <==> (a_move.x < 3 && a_move.y < 3),
            applied ==> final(self).board_view() == old(self).board_view().update(
                3 * (a_move.y as int) + (a_move.x as int),
                old(self).next_player_view(),
            ) && final(self).next_player_view() == old(self).next_player_view().other_spec(),
            !applied ==> final(self).board_view() == old(self).board_view(),
            !applied ==> final(self).next_player_view() == old(self).next_player_view(),
    {
        proof {
            use_type_invariant(&*self);
        }
        if a_move.x >= 3 || a_move.y >= 3 {
            proof {
                lemma_moves_upto_elements(*self, 9);
                if self.actions_spec().contains(*a_move) {
                    let w = choose|i: int|
                        0 <= i < self.moves_upto(9).len() && self.moves_upto(9)[i] == *a_move;
                    assert(self.moves_upto(9)[w].x < 3 && self.moves_upto(9)[w].y < 3);
                }
            }
            return false;
        }
        let ghost pre = *self;
        let what = self.next_player;
        self.set_field(a_move.y, a_move.x, what);
        let fp = self.next_player.other();
        self.next_player = fp;
        proof {
            if pre.actions_spec().contains(*a_move) {
                lemma_moves_upto_elements(pre, 9);
                let w = choose|i: int|
                    0 <= i < pre.moves_upto(9).len() && pre.moves_upto(9)[i] == *a_move;
                assert(pre.board_view()[3 * (a_move.y as int) + (a_move.x as int)]
                    == Player::Nobody);
                lemma_moves_upto_fill(pre, *self, 3 * (a_move.y as int) + (a_move.x as int), 9);
            }
        }
        true
    }

    /// This game is deterministic; the determinization hook is a no-op
    /// and the state is left exactly as it was.
    fn set_rng_seed(&mut self, _seed: u32)
        ensures
            *final(self) == *old(self),
    {
    }

    fn clone_game(&self) -> (g: Self)
        ensures
            g.board_view() == self.board_view(),
            g.next_player_view() == self.next_player_view(),
    {
        proof {
            use_type_invariant(&*self);
        }
        let mut board: Vec<Player> = Vec::new();
        let mut i: usize = 0;
        while i < self.board.len()
            invariant
                self.wf(),
                0 <= i <= 9,
                board@.len() == i,
                forall|j: int| 0 <= j < i ==> (#[trigger] board@[j]) == self.board_view()[j],
            decreases 9 - i,
        {
            board.push(self.board[i]);
            i = i + 1;
        }
        let g = TicTacToe { board, next_player: self.next_player };
        proof {
            assert(g.board_view() =~= self.board_view());
            lemma_moves_upto_congruent(g, *self, 9);
        }
        g
    }
}

/// Listings of empty fields agree on boards that agree.
proof fn lemma_moves_upto_congruent(a: TicTacToe, b: TicTacToe, k: int)
    requires
        a.board_view() == b.board_view(),
        0 <= k <= 9,
    ensures
        a.moves_upto(k) == b.moves_upto(k),
    decreases k,
{
    if k > 0 {
        lemma_moves_upto_congruent(a, b, k - 1);
    }
}

/// Every listed move points at an empty field inside the board.
proof fn lemma_moves_upto_elements(g: TicTacToe, k: int)
    requires
        g.wf(),
        0 <= k <= 9,
    ensures
        forall|i: int|
            0 <= i < g.moves_upto(k).len() ==> {
                let m = #[trigger] g.moves_upto(k)[i];
                &&& m.x < 3
                &&& m.y < 3
                &&& 3 * (m.y as int) + (m.x as int) < k
                &&& g.board_view()[3 * (m.y as int) + (m.x as int)] == Player::Nobody
            },
    decreases k,
{
    if k > 0 {
        lemma_moves_upto_elements(g, k - 1);
        if g.board_view()[k - 1] == Player::Nobody {
            let m = (Move { x: ((k - 1) % 3) as u8, y: ((k - 1) / 3) as u8 });
            assert(3 * ((k - 1) / 3) + ((k - 1) % 3) == k - 1) by (nonlinear_arith)
                requires
                    0 <= k - 1 < 9,
            ;
            assert(0 <= (k - 1) % 3 < 3 && 0 <= (k - 1) / 3 < 3) by (nonlinear_arith)
                requires
                    0 <= k - 1 < 9,
            ;
        }
    }
}

/// Filling the empty field `p` with a player removes exactly the moves at
/// `p` from the listing, so the listing shrinks.
proof fn lemma_moves_upto_fill(pre: TicTacToe, post: TicTacToe, p: int, k: int)
    requires
        pre.wf(),
        0 <= p < 9,
        0 <= k <= 9,
        pre.board_view()[p] == Player::Nobody,
        post.board_view() =~= pre.board_view().update(p, pre.next_player_view()),
        pre.next_player_view() != Player::Nobody,
    ensures
        p < k ==> post.moves_upto(k).len() < pre.moves_upto(k).len(),
        p >= k ==> post.moves_upto(k).len() == pre.moves_upto(k).len(),
    decreases k,
{
    if k > 0 {
        lemma_moves_upto_fill(pre, post, p, k - 1);
    }
}

} // verus!
