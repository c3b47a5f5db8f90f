//! Implementation of the 2048 game mechanics with adversarial spawns.
//!
//! After initialization the game receives an alternating sequence of
//! player moves and tile-spawning pseudo moves.  Tile spawning is modeled
//! as an (adversarial) move so that straightforward MCTS can be used
//! without any explicit determinization of the randomness in the game.

use vstd::prelude::*;

use crate::fixedpoint::SCALE;
use crate::game::{Game, GameAction};
use crate::twofortyeight::Action as ShiftAction;
use crate::twofortyeight::{
    has_empty, shift_changes, shifted, tile_sum, TwoFortyEight, SUM_CAP,
};
use crate::utils::{choose_random, Rng};

verus! {

/// Cap on the score that still changes the reward (`2^24`).
pub const ADV_SCORE_CAP: u64 = 16777216;

/// Possible player moves for the 2048 game: one of Up, Down, Left or
/// Right.
#[derive(Debug, Clone, Copy, PartialEq, Eq, Hash, Structural)]
pub enum Direction {
    Up,
    Down,
    Left,
    Right,
}

/// Possible spawn pseudo moves: the cell index receiving the tile.
pub type SpawnPosition = usize;

/// Game actions for Adversarial2048: either a player move or a tile
/// spawning pseudo move.
#[derive(Debug, Clone, Copy, PartialEq, Eq, Hash, Structural)]
pub enum Action {
    PlayerAction(Direction),
    SpawnAction(SpawnPosition),
}

impl GameAction for Action {
    fn eq_action(&self, other: &Self) -> (r: bool) {
        match (self, other) {
            (Action::PlayerAction(a), Action::PlayerAction(b)) => match (a, b) {
                (Direction::Up, Direction::Up) => true,
                (Direction::Down, Direction::Down) => true,
                (Direction::Left, Direction::Left) => true,
                (Direction::Right, Direction::Right) => true,
                _ => false,
            },
            (Action::SpawnAction(p), Action::SpawnAction(q)) => p == q,
            _ => false,
        }
    }
}

/// The shift direction a player move stands for.
pub open spec fn dir_shift(d: Direction) -> ShiftAction {
    match d {
        Direction::Up => ShiftAction::Up,
        Direction::Down => ShiftAction::Down,
        Direction::Left => ShiftAction::Left,
        Direction::Right => ShiftAction::Right,
    }
}

/// A player move is playable when its shift really changes the board,
/// judged cell by cell — the same rule the sibling game uses and the rule
/// of standard 2048.  A direction whose shift moves nothing (every line
/// already packed against that edge) is a null move and is not offered,
/// even where a looser test, such as comparing a line's length before
/// zero-padding, would call it a change.  Spawning is somebody else's
/// move here, and a shift never changes the tile sum: see
/// [`crate::twofortyeight::lemma_shift_preserves_sum`].
pub open spec fn pviable(b: Seq<u32>, d: Direction) -> bool {
    shift_changes(b, dir_shift(d))
}

/// The player direction checked at position `k` of the fixed ordering.
pub open spec fn pdir_at(k: int) -> Direction {
    if k == 0 {
        Direction::Up
    } else if k == 1 {
        Direction::Down
    } else if k == 2 {
        Direction::Left
    } else {
        Direction::Right
    }
}

/// The playable directions among the first `k` of the fixed ordering.
pub open spec fn pviable_upto(b: Seq<u32>, k: int) -> Seq<Direction>
    decreases k,
{
    if k <= 0 {
        Seq::empty()
    } else {
        let rest = pviable_upto(b, k - 1);
        if pviable(b, pdir_at(k - 1)) {
            rest.push(pdir_at(k - 1))
        } else {
            rest
        }
    }
}

/// Whether a spawn is still possible at all: the spawned `2` must fit
/// under the cap.
pub open spec fn spawn_ok(b: Seq<u32>) -> bool {
    tile_sum(b, 16) + 2 <= SUM_CAP
}

/// The empty cells among the first `k`, in cell order.
pub open spec fn empties_upto(b: Seq<u32>, k: int) -> Seq<usize>
    decreases k,
{
    if k <= 0 {
        Seq::empty()
    } else {
        let rest = empties_upto(b, k - 1);
        if b[k - 1] == 0 {
            rest.push((k - 1) as usize)
        } else {
            rest
        }
    }
}

/// Every listed direction is playable.
proof fn lemma_pviable_elements(b: Seq<u32>, k: int)
    requires
        0 <= k <= 4,
    ensures
        forall|i: int|
            0 <= i < pviable_upto(b, k).len() ==> pviable(b, #[trigger] pviable_upto(b, k)[i]),
    decreases k,
{
    if k > 0 {
        lemma_pviable_elements(b, k - 1);
        let rest = pviable_upto(b, k - 1);
        let u = pviable_upto(b, k);
        if pviable(b, pdir_at(k - 1)) {
            assert(forall|i: int| 0 <= i < rest.len() ==> u[i] == rest[i]);
            assert(u[u.len() - 1] == pdir_at(k - 1));
        }
    }
}

/// Every listed spawn position is an empty cell inside the board.
proof fn lemma_empties_elements(b: Seq<u32>, k: int)
    requires
        0 <= k <= 16,
    ensures
        forall|i: int|
            0 <= i < empties_upto(b, k).len() ==> {
                let p = #[trigger] empties_upto(b, k)[i];
                &&& (p as int) < k
                &&& b[p as int] == 0
            },
    decreases k,
{
    if k > 0 {
        lemma_empties_elements(b, k - 1);
        let rest = empties_upto(b, k - 1);
        let u = empties_upto(b, k);
        if b[k - 1] == 0 {
            assert(forall|i: int| 0 <= i < rest.len() ==> u[i] == rest[i]);
            assert(u[u.len() - 1] == (k - 1) as usize);
        }
    }
}

/// Updating a zero cell to `2` raises the sum by exactly `2`.
proof fn lemma_adv_spawn_sum(b: Seq<u32>, i: int, k: int)
    requires
        0 <= i < b.len(),
        b[i] == 0,
        k <= b.len(),
    ensures
        i < k ==> tile_sum(b.update(i, 2u32), k) == tile_sum(b, k) + 2,
        i >= k ==> tile_sum(b.update(i, 2u32), k) == tile_sum(b, k),
    decreases k,
{
    if k > 0 {
        lemma_adv_spawn_sum(b, i, k - 1);
    }
}

/// 2048 with adversarial spawns: the board, the last action played (to
/// keep the player/spawn alternation), the score, the number of player
/// moves, and the random source the driver's own spawns draw from.
#[derive(Debug)]
pub struct Adversarial2048 {
    board: Vec<u32>,
    last_action: Option<Action>,
    score: u64,
    moves: usize,
    rng: Rng,
}

impl Adversarial2048 {
    /// Sixteen cells whose sum respects the cap.
    #[verifier::type_invariant]
    pub closed spec fn wf(self) -> bool {
        &&& self.board@.len() == 16
        &&& tile_sum(self.board@, 16) <= SUM_CAP
    }

    /// The board, row-major.
    pub closed spec fn board_view(self) -> Seq<u32> {
        self.board@
    }

    /// The accumulated score.
    pub closed spec fn score_view(self) -> u64 {
        self.score
    }

    /// The number of player moves performed.
    pub closed spec fn moves_view(self) -> int {
        self.moves as int
    }

    /// The action that reached this state, if any.
    pub closed spec fn last_action_view(self) -> Option<Action> {
        self.last_action
    }

    /// Whether it is the player's turn: initially, and after every spawn.
    pub open spec fn expecting_player(self) -> bool {
        match self.last_action_view() {
            Option::Some(Action::PlayerAction(_)) => false,
            _ => true,
        }
    }

    /// The accumulated score, executable.
    pub fn score(&self) -> (r: u64)
        ensures
            r == self.score_view(),
    {
        self.score
    }

    /// The number of player moves performed, executable.
    pub fn moves(&self) -> (r: usize)
        ensures
            r as int == self.moves_view(),
    {
        self.moves
    }

    /// Create a new empty game.
    pub fn empty() -> (g: Adversarial2048)
        ensures
            g.board_view() =~= Seq::new(16, |i: int| 0u32),
            g.score_view() == 0,
            g.moves_view() == 0,
            g.last_action_view() is None,
    {
        let mut board: Vec<u32> = Vec::new();
        let mut i: usize = 0;
        while i < 16
            invariant
                0 <= i <= 16,
                board@.len() == i,
                forall|j: int| 0 <= j < i ==> (#[trigger] board@[j]) == 0,
            decreases 16 - i,
        {
            board.push(0);
            i = i + 1;
        }
        proof {
            lemma_board_sum_zero(board@, 16);
        }
        Adversarial2048 {
            board,
            last_action: Option::None,
            score: 0,
            moves: 0,
            rng: Rng::from_seed(0),
        }
    }

    /// Create a new game with two random twos in it.
    pub fn new() -> (g: Adversarial2048)
        ensures
            g.score_view() == 0,
            g.moves_view() == 0,
            g.expecting_player(),
            exists|i: int, j: int|
                {
                    &&& 0 <= i < 16
                    &&& 0 <= j < 16
                    &&& i != j
                    &&& g.board_view() == #[trigger] spawned_twice(i, j)
                },
    {
        let mut game = Adversarial2048::empty();
        let ghost b0 = game.board_view();
        proof {
            assert(b0[0] == 0);
            lemma_board_sum_zero(b0, 16);
        }
        game.random_spawn();
        let ghost w1 = choose|i: int|
            0 <= i < 16 && b0[i] == 0 && game.board_view() == b0.update(i, 2u32);
        let ghost mid = game.board_view();
        proof {
            lemma_adv_spawn_sum(b0, w1, 16);
            lemma_low_sum_has_empty(mid);
        }
        game.random_spawn();
        proof {
            let w2 = choose|j: int|
                0 <= j < 16 && mid[j] == 0 && game.board_view() == mid.update(j, 2u32);
            assert(mid[w1] == 2);
            assert(w2 != w1);
            assert(b0 =~= Seq::new(16, |t: int| 0u32));
            assert(game.board_view() == spawned_twice(w1, w2));
        }
        game
    }

    ///
    pub fn get_tile(&self, row: usize, col: usize) -> (r: u32)
        requires
            row < 4,
            col < 4,
        ensures
            r == self.board_view()[4 * (row as int) + (col as int)],
    {
        proof {
            use_type_invariant(&*self);
        }
        let idx = row * 4 + col;
        self.board[idx]
    }

    ///
    pub fn set_tile(&mut self, row: usize, col: usize, num: u32)
        requires
            row < 4,
            col < 4,
            num + tile_sum(old(self).board_view(), 16) <= SUM_CAP,
        ensures
            final(self).board_view() =~= old(self).board_view().update(
                4 * (row as int) + (col as int),
                num,
            ),
            final(self).score_view() == old(self).score_view(),
            final(self).last_action_view() == old(self).last_action_view(),
    {
        proof {
            use_type_invariant(&*self);
        }
        let idx = row * 4 + col;
        proof {
            lemma_adv_set_sum(self.board@, idx as int, num);
            crate::twofortyeight::lemma_tile_sum_element(self.board@, 16, idx as int);
        }
        let mut board = Self::copy_cells(&self.board);
        let tref = &mut board[idx];
        *tref = num;
        self.board = board;
    }

    /// A fresh vector with the same cells.
    fn copy_cells(board: &Vec<u32>) -> (r: Vec<u32>)
        requires
            board@.len() == 16,
        ensures
            r@ == board@,
    {
        let mut b: Vec<u32> = Vec::new();
        let mut i: usize = 0;
        while i < 16
            invariant
                board@.len() == 16,
                0 <= i <= 16,
                b@.len() == i,
                forall|j: int| 0 <= j < i ==> (#[trigger] b@[j]) == board@[j],
            decreases 16 - i,
        {
            b.push(board[i]);
            i = i + 1;
        }
        proof {
            assert(b@ =~= board@);
        }
        b
    }

    /// Check whether the board is full.
    pub fn board_full(&self) -> (r: bool)
        ensures
            r == !has_empty(self.board_view()),
    {
        proof {
            use_type_invariant(&*self);
        }
        let mut i: usize = 0;
        while i < 16
            invariant
                self.wf(),
                0 <= i <= 16,
                forall|j: int| 0 <= j < i ==> self.board_view()[j] != 0,
            decreases 16 - i,
        {
            if self.board[i] == 0 {
                return false;
            }
            i = i + 1;
        }
        true
    }

    /// Place a tile into some random empty spot, as the environment's
    /// spawn between real moves would.
    pub fn random_spawn(&mut self)
        requires
            has_empty(old(self).board_view()),
            tile_sum(old(self).board_view(), 16) + 2 <= SUM_CAP,
        ensures
            exists|i: int|
                0 <= i < 16 && old(self).board_view()[i] == 0 && final(self).board_view() == old(
                    self,
                ).board_view().update(i, 2u32),
            final(self).score_view() == old(self).score_view(),
            final(self).moves_view() == old(self).moves_view(),
            final(self).expecting_player(),
    {
        proof {
            use_type_invariant(&*self);
        }
        let possible_spawns = self.allowed_spawn_actions();
        proof {
            let z = choose|z: int| 0 <= z < 16 && old(self).board_view()[z] == 0;
            lemma_empties_complete(old(self).board_view(), 16, z);
            lemma_empties_elements(old(self).board_view(), 16);
        }
        let mut rng = Rng::from_seed(0);
        core::mem::swap(&mut rng, &mut self.rng);
        let spawn = *choose_random(&mut rng, &possible_spawns);
        core::mem::swap(&mut rng, &mut self.rng);
        self.perform_spawn_action(spawn);
        proof {
            use_type_invariant(&*self);
        }
        self.last_action = Option::Some(Action::SpawnAction(spawn));
    }

    /// All player moves that change the board.
    pub fn allowed_player_actions(&self) -> (r: Vec<Direction>)
        ensures
            r@ == pviable_upto(self.board_view(), 4),
    {
        proof {
            use_type_invariant(&*self);
        }
        let mut moves: Vec<Direction> = Vec::new();
        let mut k: usize = 0;
        while k < 4
            invariant
                self.wf(),
                0 <= k <= 4,
                moves@ == pviable_upto(self.board_view(), k as int),
            decreases 4 - k,
        {
            let d = if k == 0 {
                Direction::Up
            } else if k == 1 {
                Direction::Down
            } else if k == 2 {
                Direction::Left
            } else {
                Direction::Right
            };
            proof {
                assert(d == pdir_at(k as int));
            }
            if Self::dir_viable(&self.board, &d) {
                moves.push(d);
            }
            k = k + 1;
        }
        moves
    }

    /// Whether a player move changes the board and keeps the sum.
    fn dir_viable(board: &Vec<u32>, d: &Direction) -> (r: bool)
        requires
            board@.len() == 16,
            tile_sum(board@, 16) <= SUM_CAP,
        ensures
            r == pviable(board@, *d),
    {
        proof {
            lemma_adv_elems_bounded(board@);
        }
        let sd = match d {
            Direction::Up => ShiftAction::Up,
            Direction::Down => ShiftAction::Down,
            Direction::Left => ShiftAction::Left,
            Direction::Right => ShiftAction::Right,
        };
        proof {
            assert(sd == dir_shift(*d));
        }
        let shift = TwoFortyEight::shift_and_merge(board, &sd);
        match shift.1 {
            Option::Some(_) => true,
            Option::None => false,
        }
    }

    /// The board's tile sum, executable.
    fn cells_sum(board: &Vec<u32>) -> (r: u64)
        requires
            board@.len() == 16,
            forall|i: int| 0 <= i < 16 ==> #[trigger] board@[i] <= 0x40000000,
        ensures
            r as int == tile_sum(board@, 16),
    {
        let mut sum: u64 = 0;
        let mut i: usize = 0;
        while i < 16
            invariant
                board@.len() == 16,
                forall|j: int| 0 <= j < 16 ==> #[trigger] board@[j] <= 0x40000000,
                0 <= i <= 16,
                sum as int == tile_sum(board@, i as int),
                sum <= 0x400000000,
            decreases 16 - i,
        {
            proof {
                crate::twofortyeight::lemma_tile_sum_upper(board@, i as int + 1, 0x40000000);
            }
            sum = sum + (board[i] as u64);
            i = i + 1;
        }
        sum
    }

    /// All spawn pseudo moves: the empty cells, while the spawned tile
    /// still fits under the cap.
    pub fn allowed_spawn_actions(&self) -> (r: Vec<SpawnPosition>)
        ensures
            r@ == if spawn_ok(self.board_view()) {
                empties_upto(self.board_view(), 16)
            } else {
                Seq::<usize>::empty()
            },
    {
        proof {
            use_type_invariant(&*self);
            lemma_adv_elems_bounded(self.board_view());
        }
        let s = Self::cells_sum(&self.board);
        if s + 2 > (SUM_CAP as u64) {
            return Vec::new();
        }
        let mut spawns: Vec<SpawnPosition> = Vec::new();
        let mut i: usize = 0;
        while i < 16
            invariant
                self.wf(),
                0 <= i <= 16,
                spawns@ == empties_upto(self.board_view(), i as int),
            decreases 16 - i,
        {
            if self.board[i] == 0 {
                spawns.push(i);
            }
            i = i + 1;
        }
        spawns
    }

    /// Place the spawned `2`.
    pub fn perform_spawn_action(&mut self, position: SpawnPosition)
        requires
            position < 16,
            old(self).board_view()[position as int] == 0,
            tile_sum(old(self).board_view(), 16) + 2 <= SUM_CAP,
        ensures
            final(self).board_view() == old(self).board_view().update(position as int, 2u32),
            final(self).score_view() == old(self).score_view(),
            final(self).moves_view() == old(self).moves_view(),
            final(self).last_action_view() == old(self).last_action_view(),
    {
        proof {
            use_type_invariant(&*self);
            lemma_adv_spawn_sum(self.board@, position as int, 16);
        }
        let mut board = Self::copy_cells(&self.board);
        let tref = &mut board[position];
        *tref = 2;
        self.board = board;
        proof {
            assert(final(self).board_view() =~= old(self).board_view().update(
                position as int,
                2u32,
            ));
        }
    }

    /// Apply a player move: shift and merge the board, bank the points.
    /// A direction that changes nothing, or changes the sum, is refused.
    pub fn perform_player_action(&mut self, dir: Direction) -> (applied: bool)
        ensures
            applied <==> pviable(old(self).board_view(), dir),
            applied ==> final(self).board_view() == shifted(
                old(self).board_view(),
                dir_shift(dir),
            ) && tile_sum(final(self).board_view(), 16) == tile_sum(old(self).board_view(), 16),
            applied ==> final(self).score_view() as int == (if old(self).score_view()
                + crate::twofortyeight::shift_points(old(self).board_view(), dir_shift(dir))
                <= u64::MAX as int {
                old(self).score_view() + crate::twofortyeight::shift_points(
                    old(self).board_view(),
                    dir_shift(dir),
                )
            } else {
                u64::MAX as int
            }),
            applied ==> final(self).moves_view() == (if old(self).moves_view()
                < usize::MAX as int {
                old(self).moves_view() + 1
            } else {
                old(self).moves_view()
            }),
            !applied ==> *final(self) == *old(self),
            final(self).last_action_view() == old(self).last_action_view(),
    {
        proof {
            use_type_invariant(&*self);
            lemma_adv_elems_bounded(self.board_view());
        }
        let sd = match dir {
            Direction::Up => ShiftAction::Up,
            Direction::Down => ShiftAction::Down,
            Direction::Left => ShiftAction::Left,
            Direction::Right => ShiftAction::Right,
        };
        proof {
            assert(sd == dir_shift(dir));
        }
        let shift = TwoFortyEight::shift_and_merge(&self.board, &sd);
        let new_board = shift.0;
        let points = match shift.1 {
            Option::Some(p) => p,
            Option::None => {
                return false;
            },
        };
        proof {
            crate::twofortyeight::lemma_shift_preserves_sum(self.board_view(), sd);
        }
        self.board = new_board;
        self.score = match self.score.checked_add(points) {
            Option::Some(sc) => sc,
            Option::None => u64::MAX,
        };
        self.moves = if self.moves < usize::MAX {
            self.moves + 1
        } else {
            self.moves
        };
        true
    }
}

/// An empty board with a `2` spawned at `i` and then at `j`.
pub open spec fn spawned_twice(i: int, j: int) -> Seq<u32> {
    Seq::new(16, |t: int| 0u32).update(i, 2u32).update(j, 2u32)
}

/// A board whose tiles sum below sixteen must have an empty cell.
proof fn lemma_low_sum_has_empty(b: Seq<u32>)
    requires
        b.len() == 16,
        tile_sum(b, 16) < 16,
    ensures
        has_empty(b),
{
    if !has_empty(b) {
        lemma_full_sum_lower(b, 16);
    }
}

proof fn lemma_full_sum_lower(b: Seq<u32>, k: int)
    requires
        0 <= k <= b.len(),
        forall|i: int| 0 <= i < b.len() ==> (#[trigger] b[i]) != 0,
    ensures
        tile_sum(b, k) >= k,
    decreases k,
{
    if k > 0 {
        lemma_full_sum_lower(b, k - 1);
    }
}

/// A zero board sums to zero.
proof fn lemma_board_sum_zero(b: Seq<u32>, k: int)
    requires
        k <= b.len(),
        forall|j: int| 0 <= j < b.len() ==> (#[trigger] b[j]) == 0,
    ensures
        tile_sum(b, k) == 0,
    decreases k,
{
    if k > 0 {
        lemma_board_sum_zero(b, k - 1);
    }
}

/// Boards under the cap have every tile bounded.
proof fn lemma_adv_elems_bounded(b: Seq<u32>)
    requires
        b.len() == 16,
        tile_sum(b, 16) <= SUM_CAP,
    ensures
        forall|i: int| 0 <= i < 16 ==> #[trigger] b[i] <= 0x20000000,
{
    assert forall|i: int| 0 <= i < 16 implies #[trigger] b[i] <= 0x20000000 by {
        crate::twofortyeight::lemma_tile_sum_element(b, 16, i);
    }
}

/// Updating one tile changes the sum by the difference.
proof fn lemma_adv_set_sum(b: Seq<u32>, i: int, num: u32)
    requires
        0 <= i < b.len(),
    ensures
        forall|k: int|
            0 <= k <= b.len() ==> tile_sum(b.update(i, num), k) == tile_sum(b, k) + (if i < k {
                num - b[i]
            } else {
                0int
            }),
{
    assert forall|k: int|
        0 <= k <= b.len() implies tile_sum(b.update(i, num), k) == tile_sum(b, k) + (if i < k {
        num - b[i]
    } else {
        0int
    }) by {
        lemma_adv_set_sum_step(b, i, num, k);
    }
}

proof fn lemma_adv_set_sum_step(b: Seq<u32>, i: int, num: u32, k: int)
    requires
        0 <= i < b.len(),
        0 <= k <= b.len(),
    ensures
        tile_sum(b.update(i, num), k) == tile_sum(b, k) + (if i < k {
            num - b[i]
        } else {
            0int
        }),
    decreases k,
{
    if k > 0 {
        lemma_adv_set_sum_step(b, i, num, k - 1);
    }
}

/// Every empty cell below `k` appears in the listing.
proof fn lemma_empties_complete(b: Seq<u32>, k: int, z: int)
    requires
        0 <= z < k <= b.len(),
        b[z] == 0,
    ensures
        empties_upto(b, k).len() >= 1,
    decreases k,
{
    if z == k - 1 {
    } else {
        lemma_empties_complete(b, k - 1, z);
    }
}

/// The player moves among the first `k` directions, as game actions.
pub open spec fn player_actions_upto(b: Seq<u32>, k: int) -> Seq<Action>
    decreases k,
{
    if k <= 0 {
        Seq::empty()
    } else {
        let rest = player_actions_upto(b, k - 1);
        if pviable(b, pdir_at(k - 1)) {
            rest.push(Action::PlayerAction(pdir_at(k - 1)))
        } else {
            rest
        }
    }
}

/// The spawn pseudo moves among the first `k` cells, as game actions.
pub open spec fn spawn_actions_upto(b: Seq<u32>, k: int) -> Seq<Action>
    decreases k,
{
    if k <= 0 {
        Seq::empty()
    } else {
        let rest = spawn_actions_upto(b, k - 1);
        if b[k - 1] == 0 {
            rest.push(Action::SpawnAction((k - 1) as usize))
        } else {
            rest
        }
    }
}

/// Every listed action is a playable player move.
proof fn lemma_player_actions_elements(b: Seq<u32>, k: int)
    requires
        0 <= k <= 4,
    ensures
        forall|i: int|
            0 <= i < player_actions_upto(b, k).len() ==> exists|d: Direction|
                (#[trigger] player_actions_upto(b, k)[i]) == Action::PlayerAction(d) && pviable(
                    b,
                    d,
                ),
    decreases k,
{
    if k > 0 {
        lemma_player_actions_elements(b, k - 1);
        let rest = player_actions_upto(b, k - 1);
        let u = player_actions_upto(b, k);
        if pviable(b, pdir_at(k - 1)) {
            assert(forall|i: int| 0 <= i < rest.len() ==> u[i] == rest[i]);
            assert(u[u.len() - 1] == Action::PlayerAction(pdir_at(k - 1)));
        }
    }
}

/// Every listed action spawns on an empty cell inside the board.
proof fn lemma_spawn_actions_elements(b: Seq<u32>, k: int)
    requires
        0 <= k <= 16,
    ensures
        forall|i: int|
            0 <= i < spawn_actions_upto(b, k).len() ==> exists|p: usize|
                (#[trigger] spawn_actions_upto(b, k)[i]) == Action::SpawnAction(p) && (p as int)
                    < k && b[p as int] == 0,
    decreases k,
{
    if k > 0 {
        lemma_spawn_actions_elements(b, k - 1);
        let rest = spawn_actions_upto(b, k - 1);
        let u = spawn_actions_upto(b, k);
        if b[k - 1] == 0 {
            assert(forall|i: int| 0 <= i < rest.len() ==> u[i] == rest[i]);
            assert(u[u.len() - 1] == Action::SpawnAction((k - 1) as usize));
        }
    }
}

impl Game<Action> for Adversarial2048 {
    /// After a player move the spawn pseudo moves are allowed; otherwise
    /// the playable player moves are.
    closed spec fn actions_spec(&self) -> Seq<Action> {
        if self.expecting_player() {
            player_actions_upto(self.board_view(), 4)
        } else if spawn_ok(self.board_view()) {
            spawn_actions_upto(self.board_view(), 16)
        } else {
            Seq::empty()
        }
    }

    /// The score in fixed-point units, scaled down by a thousand and
    /// saturated at the cap.
    closed spec fn reward_spec(&self) -> int {
        (if self.score_view() > ADV_SCORE_CAP {
            ADV_SCORE_CAP as int
        } else {
            self.score_view() as int
        }) * SCALE / 1000
    }

    /// Spawns raise the tile sum by two and player moves hand the turn to
    /// the spawner, so twice the gap to the cap plus the turn bit shrinks
    /// with every legal move.
    closed spec fn remaining(&self) -> nat {
        let gap = if tile_sum(self.board_view(), 16) <= SUM_CAP + 2 {
            SUM_CAP + 2 - tile_sum(self.board_view(), 16)
        } else {
            0
        };
        (2 * gap + if self.expecting_player() {
            1int
        } else {
            0int
        }) as nat
    }

    /// Return a list with all allowed actions given the current game
    /// state.
    fn allowed_actions(&self) -> (r: Vec<Action>) {
        proof {
            use_type_invariant(&*self);
        }
        let expecting_player = match &self.last_action {
            Option::Some(Action::PlayerAction(_)) => false,
            _ => true,
        };
        if expecting_player {
            let dirs = self.allowed_player_actions();
            let mut moves: Vec<Action> = Vec::new();
            let mut i: usize = 0;
            while i < dirs.len()
                invariant
                    self.wf(),
                    self.expecting_player(),
                    dirs@ == pviable_upto(self.board_view(), 4),
                    0 <= i <= dirs@.len(),
                    moves@.len() == i,
                    forall|j: int|
                        0 <= j < i ==> (#[trigger] moves@[j]) == Action::PlayerAction(dirs@[j]),
                decreases dirs@.len() - i,
            {
                moves.push(Action::PlayerAction(dirs[i]));
                i = i + 1;
            }
            proof {
                lemma_player_map(self.board_view(), 4);
                assert(moves@ =~= player_actions_upto(self.board_view(), 4));
            }
            moves
        } else {
            let spawns = self.allowed_spawn_actions();
            let mut moves: Vec<Action> = Vec::new();
            let mut i: usize = 0;
            while i < spawns.len()
                invariant
                    self.wf(),
                    !self.expecting_player(),
                    spawns@ == if spawn_ok(self.board_view()) {
                        empties_upto(self.board_view(), 16)
                    } else {
                        Seq::<usize>::empty()
                    },
                    0 <= i <= spawns@.len(),
                    moves@.len() == i,
                    forall|j: int|
                        0 <= j < i ==> (#[trigger] moves@[j]) == Action::SpawnAction(spawns@[j]),
                decreases spawns@.len() - i,
            {
                moves.push(Action::SpawnAction(spawns[i]));
                i = i + 1;
            }
            proof {
                if spawn_ok(self.board_view()) {
                    lemma_spawn_map(self.board_view(), 16);
                    assert(moves@ =~= spawn_actions_upto(self.board_view(), 16));
                } else {
                    assert(moves@ =~= Seq::<Action>::empty());
                }
            }
            moves
        }
    }

    /// Change the current game state according to the given action.
    fn make_move(&mut self, action: &Action) -> (applied: bool) {
        proof {
            use_type_invariant(&*self);
            if old(self).actions_spec().contains(*action) {
                if old(self).expecting_player() {
                    lemma_player_actions_elements(self.board_view(), 4);
                    let w = choose|i: int|
                        0 <= i < old(self).actions_spec().len() && old(self).actions_spec()[i]
                            == *action;
                    assert(exists|d: Direction|
                        old(self).actions_spec()[w] == Action::PlayerAction(d) && pviable(
                            self.board_view(),
                            d,
                        ));
                } else {
                    assert(spawn_ok(self.board_view()));
                    lemma_spawn_actions_elements(self.board_view(), 16);
                    let w = choose|i: int|
                        0 <= i < old(self).actions_spec().len() && old(self).actions_spec()[i]
                            == *action;
                    assert(exists|p: usize|
                        old(self).actions_spec()[w] == Action::SpawnAction(p) && (p as int) < 16
                            && self.board_view()[p as int] == 0);
                }
            }
        }
        match action {
            Action::PlayerAction(direction) => {
                let applied = self.perform_player_action(*direction);
                proof {
                    use_type_invariant(&*self);
                }
                if applied {
                    self.last_action = Option::Some(*action);
                }
                applied
            },
            Action::SpawnAction(spawn) => {
                proof {
                    use_type_invariant(&*self);
                    lemma_adv_elems_bounded(self.board_view());
                }
                let p = *spawn;
                if p >= 16 {
                    return false;
                }
                if self.board[p] != 0 {
                    return false;
                }
                let srq = Self::cells_sum(&self.board);
                if srq + 2 > (SUM_CAP as u64) {
                    return false;
                }
                let ghost pre_board = self.board_view();
                self.perform_spawn_action(p);
                proof {
                    use_type_invariant(&*self);
                    lemma_adv_spawn_sum(pre_board, p as int, 16);
                }
                self.last_action = Option::Some(*action);
                true
            },
        }
    }

    /// Reward for the player when reaching the current game state: the
    /// score in fixed-point units, scaled down by a thousand and
    /// saturated at the cap.
    fn reward(&self) -> (r: i64) {
        let capped = if self.score > ADV_SCORE_CAP {
            ADV_SCORE_CAP
        } else {
            self.score
        };
        (capped * SCALE / 1000) as i64
    }

    /// Determinize the game.  The adversarial variant has no chance
    /// element during search — spawns are moves — so this is a no-op and
    /// the state is left exactly as it was.
    fn set_rng_seed(&mut self, _seed: u32)
        ensures
            *final(self) == *old(self),
    {
    }

    fn clone_game(&self) -> (g: Self)
        ensures
            g.board_view() == self.board_view(),
            g.score_view() == self.score_view(),
            g.moves_view() == self.moves_view(),
            g.last_action_view() == self.last_action_view(),
    {
        proof {
            use_type_invariant(&*self);
        }
        let board = Self::copy_cells(&self.board);
        proof {
            crate::twofortyeight::lemma_tile_sum_same_cells(board@, self.board_view(), 16);
        }
        Adversarial2048 {
            board,
            last_action: self.last_action,
            score: self.score,
            moves: self.moves,
            rng: self.rng.fork(),
        }
    }
}

/// Mapping the playable directions to actions gives the action listing.
proof fn lemma_player_map(b: Seq<u32>, k: int)
    requires
        0 <= k <= 4,
    ensures
        player_actions_upto(b, k).len() == pviable_upto(b, k).len(),
        forall|j: int|
            0 <= j < pviable_upto(b, k).len() ==> (#[trigger] player_actions_upto(b, k)[j])
                == Action::PlayerAction(pviable_upto(b, k)[j]),
    decreases k,
{
    if k > 0 {
        lemma_player_map(b, k - 1);
        let restd = pviable_upto(b, k - 1);
        let resta = player_actions_upto(b, k - 1);
        if pviable(b, pdir_at(k - 1)) {
            assert(forall|j: int|
                0 <= j < restd.len() ==> (#[trigger] pviable_upto(b, k)[j]) == restd[j]);
            assert(forall|j: int|
                0 <= j < resta.len() ==> (#[trigger] player_actions_upto(b, k)[j]) == resta[j]);
        }
    }
}

/// Mapping the empty cells to actions gives the action listing.
proof fn lemma_spawn_map(b: Seq<u32>, k: int)
    requires
        0 <= k <= 16,
    ensures
        spawn_actions_upto(b, k).len() == empties_upto(b, k).len(),
        forall|j: int|
            0 <= j < empties_upto(b, k).len() ==> (#[trigger] spawn_actions_upto(b, k)[j])
                == Action::SpawnAction(empties_upto(b, k)[j]),
    decreases k,
{
    if k > 0 {
        lemma_spawn_map(b, k - 1);
        let restd = empties_upto(b, k - 1);
        let resta = spawn_actions_upto(b, k - 1);
        if b[k - 1] == 0 {
            assert(forall|j: int|
                0 <= j < restd.len() ==> (#[trigger] empties_upto(b, k)[j]) == restd[j]);
            assert(forall|j: int|
                0 <= j < resta.len() ==> (#[trigger] spawn_actions_upto(b, k)[j]) == resta[j]);
        }
    }
}

} // verus!
