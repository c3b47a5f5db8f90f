//! Implementation of the 2048 game mechanics.
//!
//! Tiles live on a 4x4 board; a move shifts every line towards one edge,
//! merging equal neighbours once and scoring the merged values, then spawns
//! a `2` on a random empty cell.  To keep every quantity inside machine
//! integers the board's tile sum is capped: a game whose tiles sum to the
//! cap (astronomically far beyond reachable play) is treated as finished.

use vstd::prelude::*;

use crate::fixedpoint::SCALE;
use crate::game::{Game, GameAction, REWARD_LIMIT};
use crate::utils::{choose_random, Rng};

verus! {

/// Board width.
pub const WIDTH: usize = 4;

/// Board height.
pub const HEIGHT: usize = 4;

/// Cap on the sum of all tiles (`2^20`); real play stays far below it.
pub const SUM_CAP: u32 = 1048576;

/// Cap on the score that still changes the reward (`2^24`).
pub const SCORE_CAP: u64 = 16777216;

/// Possible moves for the 2048 game: one of Up, Down, Left or Right.
#[derive(Debug, Clone, Copy, PartialEq, Eq, Structural)]
pub enum Action {
    Up,
    Down,
    Left,
    Right,
}

impl GameAction for Action {
    fn eq_action(&self, other: &Self) -> (r: bool) {
        match (self, other) {
            (Action::Up, Action::Up) => true,
            (Action::Down, Action::Down) => true,
            (Action::Left, Action::Left) => true,
            (Action::Right, Action::Right) => true,
            _ => false,
        }
    }
}

/// Sum of the first `k` tiles.
pub open spec fn tile_sum(s: Seq<u32>, k: int) -> int
    decreases k,
{
    if k <= 0 || k > s.len() {
        0
    } else {
        tile_sum(s, k - 1) + s[k - 1]
    }
}

/// Number of zero tiles among the first `k`.
pub open spec fn zero_count(s: Seq<u32>, k: int) -> int
    decreases k,
{
    if k <= 0 || k > s.len() {
        0
    } else {
        zero_count(s, k - 1) + if s[k - 1] == 0 {
            1int
        } else {
            0int
        }
    }
}

/// The non-zero tiles among the first `k`, in order.
pub open spec fn nonzeros_upto(s: Seq<u32>, k: int) -> Seq<u32>
    decreases k,
{
    if k <= 0 || k > s.len() {
        Seq::empty()
    } else {
        let rest = nonzeros_upto(s, k - 1);
        if s[k - 1] != 0 {
            rest.push(s[k - 1])
        } else {
            rest
        }
    }
}

/// The merge pass over the zero-free line `f`, after consuming `k` tiles:
/// the output built so far, the pending tile, and the points scored.  A
/// tile equal to the pending one merges into their doubled value and
/// scores it; otherwise the pending tile is flushed and the new one held.
pub open spec fn merge_state(f: Seq<u32>, k: int) -> (Seq<u32>, u32, int)
    decreases k,
{
    if k <= 0 || k > f.len() {
        (Seq::empty(), 0u32, 0int)
    } else {
        let (out, next, pts) = merge_state(f, k - 1);
        let t = f[k - 1];
        if t == next && t != 0 {
            (out.push((2 * t) as u32), 0u32, pts + 2 * t)
        } else if next != 0 {
            (out.push(next), t, pts)
        } else {
            (out, t, pts)
        }
    }
}

/// The fully merged, unpadded line.
pub open spec fn merge_full(s: Seq<u32>) -> Seq<u32> {
    let f = nonzeros_upto(s, s.len() as int);
    let (out, next, _) = merge_state(f, f.len() as int);
    if next != 0 {
        out.push(next)
    } else {
        out
    }
}

/// The points the line scores when merged.
pub open spec fn merge_gain(s: Seq<u32>) -> int {
    let f = nonzeros_upto(s, s.len() as int);
    merge_state(f, f.len() as int).2
}

/// The merged line, padded with zeros back to the original length.
pub open spec fn merged_row(s: Seq<u32>) -> Seq<u32> {
    merge_full(s) + Seq::new((s.len() - merge_full(s).len()) as nat, |i: int| 0u32)
}

/// All entries positive and bounded.
pub open spec fn bounded_pos(s: Seq<u32>, bound: int) -> bool {
    forall|i: int| 0 <= i < s.len() ==> 0 < #[trigger] s[i] && s[i] <= bound
}

/// Tile sums and zero counts, one step at a time, and their bounds.
pub proof fn lemma_tile_sum_element(s: Seq<u32>, k: int, i: int)
    requires
        0 <= i < k <= s.len(),
    ensures
        s[i] <= tile_sum(s, k),
        tile_sum(s, k) >= 0,
    decreases k,
{
    if i == k - 1 {
        lemma_tile_sum_nonneg(s, k - 1);
    } else {
        lemma_tile_sum_element(s, k - 1, i);
    }
}

pub proof fn lemma_tile_sum_nonneg(s: Seq<u32>, k: int)
    ensures
        tile_sum(s, k) >= 0,
    decreases k,
{
    if k > 0 {
        lemma_tile_sum_nonneg(s, k - 1);
    }
}

/// The merge output: entries are non-zero and bounded, the output is no
/// longer than its input, its sum matches the consumed tiles, and an
/// untouched pass (no merge, nothing dropped) reproduces the input.
proof fn lemma_merge_state(f: Seq<u32>, k: int, bound: int)
    requires
        0 <= k <= f.len(),
        1 <= bound <= 0x40000000,
        forall|i: int| 0 <= i < f.len() ==> 0 < #[trigger] f[i] && f[i] <= bound,
    ensures
        ({
            let (out, next, pts) = merge_state(f, k);
            let full = if next != 0 {
                out.push(next)
            } else {
                out
            };
            &&& full.len() <= k
            &&& tile_sum(full, full.len() as int) == tile_sum(f, k)
            &&& 0 <= pts && pts + next <= tile_sum(f, k)
            &&& next <= bound
            &&& bounded_pos(full, 2 * bound)
            &&& (full.len() == k ==> full =~= f.take(k))
        }),
    decreases k,
{
    if k > 0 {
        lemma_merge_state(f, k - 1, bound);
        let (out0, next0, pts0) = merge_state(f, k - 1);
        let full0 = if next0 != 0 {
            out0.push(next0)
        } else {
            out0
        };
        let (out, next, pts) = merge_state(f, k);
        let full = if next != 0 {
            out.push(next)
        } else {
            out
        };
        let t = f[k - 1];
        assert(0 < t && t <= bound);
        assert(bounded_pos(full0, 2 * bound));
        if t == next0 && t != 0 {
            // merge: out grows by the doubled tile, nothing pending
            assert(full == out0.push((2 * t) as u32));
            assert(full0 == out0.push(next0));
            lemma_tile_sum_push(out0, (2 * t) as u32);
            lemma_tile_sum_push(out0, next0);
            assert(forall|i: int| 0 <= i < out0.len() ==> full[i] == full0[i]);
            assert(bounded_pos(full, 2 * bound));
        } else if next0 != 0 {
            assert(full == out0.push(next0).push(t));
            assert(full0 == out0.push(next0));
            lemma_tile_sum_push(out0.push(next0), t);
            lemma_tile_sum_push(out0, next0);
            if full.len() == k {
                assert(full0.len() == k - 1);
                assert(full0 =~= f.take(k - 1));
                assert(full =~= f.take(k));
            }
            assert(forall|i: int| 0 <= i < full0.len() ==> full[i] == full0[i]);
            assert(bounded_pos(full, 2 * bound));
        } else {
            assert(full == out0.push(t));
            assert(full0 == out0);
            lemma_tile_sum_push(out0, t);
            if full.len() == k {
                assert(full0 =~= f.take(k - 1));
                assert(full =~= f.take(k));
            }
            assert(forall|i: int| 0 <= i < full0.len() ==> full[i] == full0[i]);
            assert(bounded_pos(full, 2 * bound));
        }
    }
}

/// Sums extend over a push.
proof fn lemma_tile_sum_push(s: Seq<u32>, x: u32)
    ensures
        tile_sum(s.push(x), s.len() as int + 1) == tile_sum(s, s.len() as int) + x,
    decreases s.len(),
{
    lemma_tile_sum_same(s, s.push(x), s.len() as int);
    assert(s.push(x)[s.len() as int] == x);
}

/// Prefix sums only look at the prefix.
pub proof fn lemma_tile_sum_same_cells(s: Seq<u32>, u: Seq<u32>, k: int)
    requires
        k <= s.len(),
        k <= u.len(),
        forall|j: int| 0 <= j < k ==> s[j] == u[j],
    ensures
        tile_sum(s, k) == tile_sum(u, k),
{
    lemma_tile_sum_same(s, u, k);
}

/// Prefix sums only look at the prefix.
proof fn lemma_tile_sum_same(s: Seq<u32>, u: Seq<u32>, k: int)
    requires
        k <= s.len(),
        k <= u.len(),
        forall|j: int| 0 <= j < k ==> s[j] == u[j],
    ensures
        tile_sum(s, k) == tile_sum(u, k),
    decreases k,
{
    if k > 0 {
        lemma_tile_sum_same(s, u, k - 1);
    }
}

/// Prefix sums with a per-element bound.
pub proof fn lemma_tile_sum_upper(s: Seq<u32>, k: int, b: int)
    requires
        0 <= k <= s.len(),
        0 <= b,
        forall|i: int| 0 <= i < s.len() ==> #[trigger] s[i] <= b,
    ensures
        tile_sum(s, k) <= k * b,
    decreases k,
{
    if k > 0 {
        lemma_tile_sum_upper(s, k - 1, b);
        assert((k - 1) * b + b == k * b) by (nonlinear_arith);
    }
}

/// The non-zero tiles: as many as the line holds minus its zeros, bounded
/// like the line, and summing to the same value.
proof fn lemma_nonzeros(s: Seq<u32>, k: int, bound: int)
    requires
        0 <= k <= s.len(),
        1 <= bound,
        forall|i: int| 0 <= i < s.len() ==> #[trigger] s[i] <= bound,
    ensures
        ({
            let f = nonzeros_upto(s, k);
            &&& f.len() == k - zero_count(s, k)
            &&& 0 <= zero_count(s, k) <= k
            &&& tile_sum(f, f.len() as int) == tile_sum(s, k)
            &&& bounded_pos(f, bound)
        }),
    decreases k,
{
    if k > 0 {
        lemma_nonzeros(s, k - 1, bound);
        let f0 = nonzeros_upto(s, k - 1);
        let f = nonzeros_upto(s, k);
        assert(bounded_pos(f0, bound));
        if s[k - 1] != 0 {
            lemma_tile_sum_push(f0, s[k - 1]);
            assert(forall|i: int| 0 <= i < f0.len() ==> f[i] == f0[i]);
            assert(bounded_pos(f, bound));
        }
    }
}

/// Index of the cell at position `inner` of line `outer`, shifting in the
/// given direction: lines run toward the edge the tiles slide to.
pub open spec fn cell_index(dir: Action, outer: int, inner: int) -> int {
    match dir {
        Action::Up => outer + 4 * inner,
        Action::Down => 12 + outer - 4 * inner,
        Action::Left => 4 * outer + inner,
        Action::Right => 15 - 4 * outer - inner,
    }
}

/// The line a cell belongs to under the given direction.
pub open spec fn outer_of(dir: Action, idx: int) -> int {
    match dir {
        Action::Up => idx % 4,
        Action::Down => idx % 4,
        Action::Left => idx / 4,
        Action::Right => (15 - idx) / 4,
    }
}

/// The position of a cell within its line under the given direction.
pub open spec fn inner_of(dir: Action, idx: int) -> int {
    match dir {
        Action::Up => idx / 4,
        Action::Down => 3 - idx / 4,
        Action::Left => idx % 4,
        Action::Right => (15 - idx) % 4,
    }
}

/// Line `outer` of the board, read in shift order.
pub open spec fn line_of(b: Seq<u32>, dir: Action, outer: int) -> Seq<u32> {
    Seq::new(4, |inner: int| b[cell_index(dir, outer, inner)])
}

/// The whole board after shifting and merging every line.
pub open spec fn shifted(b: Seq<u32>, dir: Action) -> Seq<u32> {
    Seq::new(16, |idx: int| merged_row(line_of(b, dir, outer_of(dir, idx)))[inner_of(dir, idx)])
}

/// The points all four lines score together.
pub open spec fn shift_points(b: Seq<u32>, dir: Action) -> int {
    merge_gain(line_of(b, dir, 0)) + merge_gain(line_of(b, dir, 1)) + merge_gain(
        line_of(b, dir, 2),
    ) + merge_gain(line_of(b, dir, 3))
}

/// Whether any line changes under the shift.
pub open spec fn shift_changes(b: Seq<u32>, dir: Action) -> bool {
    ||| merged_row(line_of(b, dir, 0)) != line_of(b, dir, 0)
    ||| merged_row(line_of(b, dir, 1)) != line_of(b, dir, 1)
    ||| merged_row(line_of(b, dir, 2)) != line_of(b, dir, 2)
    ||| merged_row(line_of(b, dir, 3)) != line_of(b, dir, 3)
}

/// The line/position pair of a cell inverts its index.
proof fn lemma_cell_inverse(dir: Action, idx: int)
    requires
        0 <= idx < 16,
    ensures
        0 <= outer_of(dir, idx) < 4,
        0 <= inner_of(dir, idx) < 4,
        cell_index(dir, outer_of(dir, idx), inner_of(dir, idx)) == idx,
{
    assert(0 <= idx % 4 < 4 && 0 <= idx / 4 < 4 && idx == 4 * (idx / 4) + idx % 4)
        by (nonlinear_arith)
        requires
            0 <= idx < 16,
    ;
    assert(0 <= (15 - idx) % 4 < 4 && 0 <= (15 - idx) / 4 < 4 && 15 - idx == 4 * ((15 - idx) / 4)
        + (15 - idx) % 4) by (nonlinear_arith)
        requires
            0 <= idx < 16,
    ;
}

/// A cell index computed from a line/position pair inverts back to it.
proof fn lemma_cell_of_pair(dir: Action, outer: int, inner: int)
    requires
        0 <= outer < 4,
        0 <= inner < 4,
    ensures
        0 <= cell_index(dir, outer, inner) < 16,
        outer_of(dir, cell_index(dir, outer, inner)) == outer,
        inner_of(dir, cell_index(dir, outer, inner)) == inner,
{
    match dir {
        Action::Up => {
            assert((outer + 4 * inner) % 4 == outer && (outer + 4 * inner) / 4 == inner)
                by (nonlinear_arith)
                requires
                    0 <= outer < 4,
                    0 <= inner < 4,
            ;
        },
        Action::Down => {
            assert((12 + outer - 4 * inner) % 4 == outer && (12 + outer - 4 * inner) / 4 == 3
                - inner) by (nonlinear_arith)
                requires
                    0 <= outer < 4,
                    0 <= inner < 4,
            ;
        },
        Action::Left => {
            assert((4 * outer + inner) / 4 == outer && (4 * outer + inner) % 4 == inner)
                by (nonlinear_arith)
                requires
                    0 <= outer < 4,
                    0 <= inner < 4,
            ;
        },
        Action::Right => {
            assert((15 - (15 - 4 * outer - inner)) / 4 == outer && (15 - (15 - 4 * outer - inner))
                % 4 == inner) by (nonlinear_arith)
                requires
                    0 <= outer < 4,
                    0 <= inner < 4,
            ;
        },
    }
}

/// The cell at position `inner` of line `outer`, executable.
fn cell(dir: &Action, outer: usize, inner: usize) -> (idx: usize)
    requires
        outer < 4,
        inner < 4,
    ensures
        idx as int == cell_index(*dir, outer as int, inner as int),
        idx < 16,
{
    match dir {
        Action::Up => outer + 4 * inner,
        Action::Down => 12 + outer - 4 * inner,
        Action::Left => 4 * outer + inner,
        Action::Right => 15 - 4 * outer - inner,
    }
}

/// 2048 game state: the board, the score, and the game's own seedable
/// random source for tile spawning.
#[derive(Debug)]
pub struct TwoFortyEight {
    score: u64,
    board: Vec<u32>,
    rng: Rng,
}

impl TwoFortyEight {
    /// Sixteen cells whose sum respects the cap.
    #[verifier::type_invariant]
    pub closed spec fn wf(self) -> bool {
        &&& self.board@.len() == 16
        &&& tile_sum(self.board@, 16) <= SUM_CAP
    }

    /// The board, row-major.
    pub closed spec fn board_view(self) -> Seq<u32> {
        self.board@
    }

    /// The accumulated score.
    pub closed spec fn score_view(self) -> u64 {
        self.score
    }

    /// Create a new empty game.
    pub fn new() -> (g: TwoFortyEight)
        ensures
            g.board_view() =~= Seq::new(16, |i: int| 0u32),
            g.score_view() == 0,
    {
        let mut board: Vec<u32> = Vec::new();
        let mut i: usize = 0;
        while i < 16
            invariant
                0 <= i <= 16,
                board@.len() == i,
                forall|j: int| 0 <= j < i ==> (#[trigger] board@[j]) == 0,
            decreases 16 - i,
        {
            board.push(0);
            i = i + 1;
        }
        proof {
            lemma_tile_sum_upper(board@, 16, 0);
        }
        TwoFortyEight { score: 0, board, rng: Rng::from_seed(0) }
    }

    /// Merge a vector according to the 2048 rules towards its front:
    /// zeros drop out, equal neighbours merge once each and score their
    /// doubled value, zeros pad the tail.  Also reports whether anything
    /// changed.
    pub fn merge_vec(vec: &Vec<u32>) -> (r: (Vec<u32>, u64, bool))
        requires
            vec@.len() <= 16,
            forall|i: int| 0 <= i < vec@.len() ==> #[trigger] vec@[i] <= 0x20000000,
        ensures
            r.0@ == merged_row(vec@),
            r.0@.len() == vec@.len(),
            r.1 as int == merge_gain(vec@),
            r.2 == (r.0@ != vec@),
            tile_sum(r.0@, vec@.len() as int) == tile_sum(vec@, vec@.len() as int),
            zero_count(r.0@, vec@.len() as int) >= zero_count(vec@, vec@.len() as int),
            r.2 && zero_count(vec@, vec@.len() as int) == 0 ==> zero_count(
                r.0@,
                vec@.len() as int,
            ) >= 1,
    {
        let orig_len = vec.len();
        // first, remove zeros
        let mut filtered: Vec<u32> = Vec::new();
        let mut i: usize = 0;
        while i < orig_len
            invariant
                orig_len == vec@.len() <= 16,
                0 <= i <= orig_len,
                filtered@ == nonzeros_upto(vec@, i as int),
            decreases orig_len - i,
        {
            if vec[i] > 0 {
                filtered.push(vec[i]);
            }
            i = i + 1;
        }
        proof {
            lemma_nonzeros(vec@, orig_len as int, 0x20000000);
            lemma_merge_state(filtered@, filtered@.len() as int, 0x20000000);
            lemma_tile_sum_upper(vec@, orig_len as int, 0x20000000);
        }
        // merge equal neighbours
        let mut merged: Vec<u32> = Vec::new();
        let mut next: u32 = 0;
        let mut points: u64 = 0;
        let mut j: usize = 0;
        while j < filtered.len()
            invariant
                filtered@ == nonzeros_upto(vec@, vec@.len() as int),
                vec@.len() <= 16,
                bounded_pos(filtered@, 0x20000000),
                tile_sum(filtered@, filtered@.len() as int) <= 16 * 0x20000000,
                0 <= j <= filtered@.len(),
                merged@ == merge_state(filtered@, j as int).0,
                next == merge_state(filtered@, j as int).1,
                points as int == merge_state(filtered@, j as int).2,
            decreases filtered@.len() - j,
        {
            proof {
                lemma_merge_state(filtered@, j as int, 0x20000000);
                lemma_merge_state(filtered@, j as int + 1, 0x20000000);
                lemma_tile_sum_prefix_mono(filtered@, j as int + 1, filtered@.len() as int);
            }
            let t = filtered[j];
            if t == next {
                merged.push(2 * t);
                next = 0;
                points = points + 2 * (t as u64);
            } else if next != 0 {
                merged.push(next);
                next = t;
            } else {
                next = t;
            }
            j = j + 1;
        }
        proof {
            lemma_merge_state(filtered@, filtered@.len() as int, 0x20000000);
        }
        if next != 0 {
            merged.push(next);
        }
        proof {
            assert(merged@ == merge_full(vec@));
        }
        let ghost full = merge_full(vec@);
        // pad with zeros back to the original length
        while merged.len() < orig_len
            invariant
                full == merge_full(vec@),
                full.len() <= orig_len == vec@.len(),
                full.len() <= merged@.len() <= orig_len,
                merged@.take(full.len() as int) == full,
                forall|t2: int| full.len() <= t2 < merged@.len() ==> (#[trigger] merged@[t2]) == 0,
            decreases orig_len - merged@.len(),
        {
            let ghost prev = merged@;
            merged.push(0);
            proof {
                assert(merged@.take(full.len() as int) =~= prev.take(full.len() as int));
            }
        }
        proof {
            assert(merged@ =~= merged_row(vec@));
        }
        // notice any changes
        let mut changed = false;
        let mut c: usize = 0;
        while c < orig_len
            invariant
                orig_len == vec@.len() == merged@.len(),
                0 <= c <= orig_len,
                changed <==> exists|t2: int| 0 <= t2 < c && vec@[t2] != (#[trigger] merged@[t2]),
            decreases orig_len - c,
        {
            if vec[c] != merged[c] {
                changed = true;
            }
            c = c + 1;
        }
        proof {
            if !changed {
                assert(merged@ =~= vec@);
            }
            lemma_merged_row_zeros(vec@, 0x20000000);
        }
        (merged, points, changed)
    }

    /// Shift and merge in the given direction: every line is merged
    /// towards its edge; the points of all lines are reported when any
    /// line changed, and no points at all when the move changes nothing.
    pub fn shift_and_merge(board: &Vec<u32>, action: &Action) -> (r: (Vec<u32>, Option<u64>))
        requires
            board@.len() == 16,
            forall|i: int| 0 <= i < 16 ==> #[trigger] board@[i] <= 0x20000000,
        ensures
            r.0@ == shifted(board@, *action),
            r.0@.len() == 16,
            match r.1 {
                Option::Some(p) => shift_changes(board@, *action) && p as int == shift_points(
                    board@,
                    *action,
                ),
                Option::None => !shift_changes(board@, *action),
            },
    {
        let mut new_board: Vec<u32> = Vec::new();
        let mut z: usize = 0;
        while z < 16
            invariant
                0 <= z <= 16,
                new_board@.len() == z,
            decreases 16 - z,
        {
            new_board.push(0);
            z = z + 1;
        }
        let mut all_points: u64 = 0;
        let mut any_changed = false;
        let mut outer: usize = 0;
        while outer < 4
            invariant
                board@.len() == 16,
                forall|i: int| 0 <= i < 16 ==> #[trigger] board@[i] <= 0x20000000,
                0 <= outer <= 4,
                new_board@.len() == 16,
                forall|idx: int|
                    0 <= idx < 16 && outer_of(*action, idx) < outer ==> (#[trigger] new_board@[idx])
                        == shifted(board@, *action)[idx],
                all_points as int == partial_points(board@, *action, outer as int),
                any_changed == partial_changes(board@, *action, outer as int),
            decreases 4 - outer,
        {
            let mut line: Vec<u32> = Vec::new();
            let mut inner: usize = 0;
            while inner < 4
                invariant
                    board@.len() == 16,
                    forall|i: int| 0 <= i < 16 ==> #[trigger] board@[i] <= 0x20000000,
                    outer < 4,
                    0 <= inner <= 4,
                    line@.len() == inner,
                    forall|t2: int|
                        0 <= t2 < inner ==> (#[trigger] line@[t2]) == line_of(
                            board@,
                            *action,
                            outer as int,
                        )[t2],
                decreases 4 - inner,
            {
                let idx = cell(action, outer, inner);
                line.push(board[idx]);
                inner = inner + 1;
            }
            proof {
                assert(line@ =~= line_of(board@, *action, outer as int));
                assert forall|t2: int| 0 <= t2 < line@.len() implies (#[trigger] line@[t2])
                    <= 0x20000000 by {
                    lemma_cell_of_pair(*action, outer as int, t2);
                }
                lemma_partial_points_bound(board@, *action, outer as int);
                lemma_partial_points_bound(board@, *action, outer as int + 1);
            }
            let merged = Self::merge_vec(&line);
            let merged_line = merged.0;
            let points = merged.1;
            let line_changed = merged.2;
            proof {
                lemma_merge_gain_bound(line_of(board@, *action, outer as int), 0x20000000);
            }
            all_points = all_points + points;
            any_changed = any_changed || line_changed;
            let ghost before_write = new_board@;
            let mut w: usize = 0;
            while w < 4
                invariant
                    0 <= w <= 4,
                    outer < 4,
                    merged_line@ == merged_row(line_of(board@, *action, outer as int)),
                    merged_line@.len() == 4,
                    new_board@.len() == 16,
                    forall|idx: int|
                        0 <= idx < 16 && outer_of(*action, idx) < outer ==> (
                        #[trigger] new_board@[idx]) == shifted(board@, *action)[idx],
                    forall|t2: int|
                        0 <= t2 < w ==> (#[trigger] new_board@[cell_index(
                            *action,
                            outer as int,
                            t2,
                        )]) == merged_line@[t2],
                decreases 4 - w,
            {
                let idx = cell(action, outer, w);
                let cref = &mut new_board[idx];
                *cref = merged_line[w];
                proof {
                    lemma_cell_of_pair(*action, outer as int, w as int);
                    assert forall|t2: int| 0 <= t2 < w + 1 implies (#[trigger] new_board@[
                    cell_index(*action, outer as int, t2)]) == merged_line@[t2] by {
                        lemma_cell_of_pair(*action, outer as int, t2);
                    }
                    assert forall|idx2: int|
                        0 <= idx2 < 16 && outer_of(*action, idx2) < outer implies (
                    #[trigger] new_board@[idx2]) == shifted(board@, *action)[idx2] by {
                        lemma_cell_inverse(*action, idx2);
                        lemma_cell_of_pair(*action, outer as int, w as int);
                    }
                }
                w = w + 1;
            }
            proof {
                assert forall|idx: int|
                    0 <= idx < 16 && outer_of(*action, idx) < outer + 1 implies (
                #[trigger] new_board@[idx]) == shifted(board@, *action)[idx] by {
                    lemma_cell_inverse(*action, idx);
                    if outer_of(*action, idx) == outer {
                        assert(new_board@[cell_index(
                            *action,
                            outer as int,
                            inner_of(*action, idx),
                        )] == merged_row(line_of(board@, *action, outer as int))[inner_of(
                            *action,
                            idx,
                        )]);
                    }
                }
            }
            outer = outer + 1;
        }
        proof {
            assert forall|idx: int| 0 <= idx < 16 implies (#[trigger] new_board@[idx]) == shifted(
                board@,
                *action,
            )[idx] by {
                lemma_cell_inverse(*action, idx);
            }
            assert(new_board@ =~= shifted(board@, *action));
        }
        proof {
            assert(partial_points(board@, *action, 4) == shift_points(board@, *action)) by {
                assert(partial_points(board@, *action, 0) == 0);
                assert(partial_points(board@, *action, 1) == partial_points(board@, *action, 0)
                    + merge_gain(line_of(board@, *action, 0)));
                assert(partial_points(board@, *action, 2) == partial_points(board@, *action, 1)
                    + merge_gain(line_of(board@, *action, 1)));
                assert(partial_points(board@, *action, 3) == partial_points(board@, *action, 2)
                    + merge_gain(line_of(board@, *action, 2)));
                assert(partial_points(board@, *action, 4) == partial_points(board@, *action, 3)
                    + merge_gain(line_of(board@, *action, 3)));
            }
            assert(partial_changes(board@, *action, 4) == shift_changes(board@, *action)) by {
                assert(!partial_changes(board@, *action, 0));
                assert(partial_changes(board@, *action, 1) == (partial_changes(
                    board@,
                    *action,
                    0,
                ) || merged_row(line_of(board@, *action, 0)) != line_of(board@, *action, 0)));
                assert(partial_changes(board@, *action, 2) == (partial_changes(
                    board@,
                    *action,
                    1,
                ) || merged_row(line_of(board@, *action, 1)) != line_of(board@, *action, 1)));
                assert(partial_changes(board@, *action, 3) == (partial_changes(
                    board@,
                    *action,
                    2,
                ) || merged_row(line_of(board@, *action, 2)) != line_of(board@, *action, 2)));
                assert(partial_changes(board@, *action, 4) == (partial_changes(
                    board@,
                    *action,
                    3,
                ) || merged_row(line_of(board@, *action, 3)) != line_of(board@, *action, 3)));
            }
        }
        if any_changed {
            (new_board, Some(all_points))
        } else {
            (new_board, None)
        }
    }
}

/// Points of the first `k` lines.
pub open spec fn partial_points(b: Seq<u32>, dir: Action, k: int) -> int
    decreases k,
{
    if k <= 0 {
        0
    } else {
        partial_points(b, dir, k - 1) + merge_gain(line_of(b, dir, k - 1))
    }
}

/// Whether any of the first `k` lines changes.
pub open spec fn partial_changes(b: Seq<u32>, dir: Action, k: int) -> bool
    decreases k,
{
    if k <= 0 {
        false
    } else {
        partial_changes(b, dir, k - 1) || merged_row(line_of(b, dir, k - 1)) != line_of(
            b,
            dir,
            k - 1,
        )
    }
}

/// The points of the first `k` lines stay inside machine range.
proof fn lemma_partial_points_bound(b: Seq<u32>, dir: Action, k: int)
    requires
        b.len() == 16,
        0 <= k <= 4,
        forall|i: int| 0 <= i < 16 ==> #[trigger] b[i] <= 0x20000000,
    ensures
        0 <= partial_points(b, dir, k) <= k * 0x200000000,
    decreases k,
{
    if k > 0 {
        lemma_partial_points_bound(b, dir, k - 1);
        assert forall|t2: int| 0 <= t2 < line_of(b, dir, k - 1).len() implies (
        #[trigger] line_of(b, dir, k - 1)[t2]) <= 0x20000000 by {
            lemma_cell_of_pair(dir, k - 1, t2);
        }
        lemma_merge_gain_bound(line_of(b, dir, k - 1), 0x20000000);
        assert((k - 1) * 0x200000000 + 0x200000000 == k * 0x200000000) by (nonlinear_arith);
    }
}

/// A merged line's points are bounded by its sum.
proof fn lemma_merge_gain_bound(s: Seq<u32>, bound: int)
    requires
        s.len() <= 16,
        1 <= bound <= 0x20000000,
        forall|i: int| 0 <= i < s.len() ==> #[trigger] s[i] <= bound,
    ensures
        0 <= merge_gain(s) <= 16 * bound,
{
    lemma_nonzeros(s, s.len() as int, bound);
    let f = nonzeros_upto(s, s.len() as int);
    lemma_merge_state(f, f.len() as int, bound);
    lemma_tile_sum_upper(s, s.len() as int, bound);
    assert((s.len() as int) * bound <= 16 * bound) by (nonlinear_arith)
        requires
            s.len() <= 16,
            bound >= 0,
    ;
}

/// Zeros never disappear under a merge, and a changed full line gains one.
proof fn lemma_merged_row_zeros(s: Seq<u32>, bound: int)
    requires
        s.len() <= 16,
        1 <= bound <= 0x20000000,
        forall|i: int| 0 <= i < s.len() ==> #[trigger] s[i] <= bound,
    ensures
        tile_sum(merged_row(s), s.len() as int) == tile_sum(s, s.len() as int),
        zero_count(merged_row(s), s.len() as int) >= zero_count(s, s.len() as int),
        merged_row(s) != s && zero_count(s, s.len() as int) == 0 ==> zero_count(
            merged_row(s),
            s.len() as int,
        ) >= 1,
{
    let k = s.len() as int;
    lemma_nonzeros(s, k, bound);
    let f = nonzeros_upto(s, k);
    lemma_merge_state(f, f.len() as int, bound);
    let full = merge_full(s);
    let row = merged_row(s);
    assert(row.take(full.len() as int) =~= full);
    lemma_tile_sum_same(row, full, full.len() as int);
    lemma_zero_pad_facts(row, full.len() as int, k);
    lemma_tile_sum_prefix_ext(row, full.len() as int, k);
    assert(bounded_pos(full, 2 * bound));
    lemma_zero_count_of_pos(row, full.len() as int, k);
    if full.len() == f.len() {
        assert(full =~= f.take(f.len() as int));
        assert(f.take(f.len() as int) =~= f);
        if zero_count(s, k) == 0 {
            assert(f.len() == k);
            assert(row =~= f) by {
                assert(forall|i: int| 0 <= i < k ==> row[i] == full[i]);
            }
            assert(f =~= s) by {
                lemma_nonzeros_identity(s, k);
            }
        }
    }
}

/// With no zeros among the first `k`, the non-zero listing is the prefix
/// itself.
proof fn lemma_nonzeros_identity(s: Seq<u32>, k: int)
    requires
        0 <= k <= s.len(),
        zero_count(s, k) == 0,
    ensures
        nonzeros_upto(s, k) =~= s.take(k),
    decreases k,
{
    if k > 0 {
        lemma_zero_count_nonneg(s, k - 1);
        lemma_nonzeros_identity(s, k - 1);
        assert(s[k - 1] != 0);
        assert(nonzeros_upto(s, k) == nonzeros_upto(s, k - 1).push(s[k - 1]));
        assert(nonzeros_upto(s, k) =~= s.take(k));
    }
}

/// The padded tail of a merged row holds zeros only.
proof fn lemma_zero_pad_facts(row: Seq<u32>, fl: int, k: int)
    requires
        0 <= fl <= k <= row.len(),
        row.len() == k,
        forall|i: int| fl <= i < k ==> row[i] == 0,
    ensures
        zero_count(row, k) >= k - fl,
    decreases k,
{
    if k > fl {
        lemma_zero_pad_facts(row.take(k - 1), fl, k - 1);
        lemma_zero_count_same(row.take(k - 1), row, k - 1);
    } else {
        lemma_zero_count_nonneg(row, k);
    }
}

proof fn lemma_zero_count_nonneg(s: Seq<u32>, k: int)
    ensures
        zero_count(s, k) >= 0,
    decreases k,
{
    if k > 0 {
        lemma_zero_count_nonneg(s, k - 1);
    }
}

proof fn lemma_zero_count_same(s: Seq<u32>, u: Seq<u32>, k: int)
    requires
        k <= s.len(),
        k <= u.len(),
        forall|j: int| 0 <= j < k ==> s[j] == u[j],
    ensures
        zero_count(s, k) == zero_count(u, k),
    decreases k,
{
    if k > 0 {
        lemma_zero_count_same(s, u, k - 1);
    }
}

/// A row whose first `fl` entries are positive has all its zeros in the
/// tail.
proof fn lemma_zero_count_of_pos(row: Seq<u32>, fl: int, k: int)
    requires
        0 <= fl <= k <= row.len(),
        row.len() == k,
        forall|i: int| 0 <= i < fl ==> 0 < row[i],
        forall|i: int| fl <= i < k ==> row[i] == 0,
    ensures
        zero_count(row, k) == k - fl,
    decreases k,
{
    if k > 0 {
        if k - 1 >= fl {
            lemma_zero_count_of_pos(row.take(k - 1), fl, k - 1);
            lemma_zero_count_same(row.take(k - 1), row, k - 1);
        } else {
            lemma_zero_count_of_pos(row.take(k - 1), k - 1, k - 1);
            lemma_zero_count_same(row.take(k - 1), row, k - 1);
        }
    }
}

/// Prefix sums grow with the prefix.
proof fn lemma_tile_sum_prefix_mono(s: Seq<u32>, a: int, b: int)
    requires
        0 <= a <= b <= s.len(),
    ensures
        tile_sum(s, a) <= tile_sum(s, b),
    decreases b,
{
    if a < b {
        lemma_tile_sum_prefix_mono(s, a, b - 1);
    }
}

/// Extending the sum over a zero tail changes nothing.
proof fn lemma_tile_sum_prefix_ext(row: Seq<u32>, fl: int, k: int)
    requires
        0 <= fl <= k <= row.len(),
        forall|i: int| fl <= i < k ==> row[i] == 0,
    ensures
        tile_sum(row, k) == tile_sum(row, fl),
    decreases k,
{
    if k > fl {
        lemma_tile_sum_prefix_ext(row, fl, k - 1);
    }
}

/// An empty cell exists.
pub open spec fn has_empty(b: Seq<u32>) -> bool {
    exists|i: int| 0 <= i < 16 && b[i] == 0
}

/// A direction is playable: the shift changes the board and the spawned
/// `2` still fits under the cap.  Nothing more is needed: a shift never
/// changes the tile sum, and a changing shift always leaves an empty
/// cell (see [`lemma_shift_preserves_sum`] and
/// [`lemma_shift_leaves_empty`]).
pub open spec fn viable(b: Seq<u32>, dir: Action) -> bool {
    &&& shift_changes(b, dir)
    &&& tile_sum(b, 16) + 2 <= SUM_CAP
}

/// The direction checked at position `k` of the fixed ordering.
pub open spec fn dir_at(k: int) -> Action {
    if k == 0 {
        Action::Up
    } else if k == 1 {
        Action::Down
    } else if k == 2 {
        Action::Left
    } else {
        Action::Right
    }
}

/// The playable directions among the first `k` of the fixed ordering.
pub open spec fn viable_upto(b: Seq<u32>, k: int) -> Seq<Action>
    decreases k,
{
    if k <= 0 {
        Seq::empty()
    } else {
        let rest = viable_upto(b, k - 1);
        if viable(b, dir_at(k - 1)) {
            rest.push(dir_at(k - 1))
        } else {
            rest
        }
    }
}

/// Every listed direction is playable.
proof fn lemma_viable_elements(b: Seq<u32>, k: int)
    requires
        0 <= k <= 4,
    ensures
        forall|i: int|
            0 <= i < viable_upto(b, k).len() ==> viable(b, #[trigger] viable_upto(b, k)[i]),
    decreases k,
{
    if k > 0 {
        lemma_viable_elements(b, k - 1);
        let rest = viable_upto(b, k - 1);
        let u = viable_upto(b, k);
        if viable(b, dir_at(k - 1)) {
            assert(forall|i: int| 0 <= i < rest.len() ==> u[i] == rest[i]);
            assert(u[u.len() - 1] == dir_at(k - 1));
        }
    }
}

/// Updating a zero cell to `2` raises the sum by exactly `2`.
proof fn lemma_spawn_sum(b: Seq<u32>, i: int, k: int)
    requires
        0 <= i < b.len(),
        b[i] == 0,
        k <= b.len(),
    ensures
        i < k ==> tile_sum(b.update(i, 2u32), k) == tile_sum(b, k) + 2,
        i >= k ==> tile_sum(b.update(i, 2u32), k) == tile_sum(b, k),
    decreases k,
{
    if k > 0 {
        lemma_spawn_sum(b, i, k - 1);
    }
}

impl TwoFortyEight {
    /// The board's tile sum, executable.
    fn board_sum(board: &Vec<u32>) -> (r: u64)
        requires
            board@.len() == 16,
            forall|i: int| 0 <= i < 16 ==> #[trigger] board@[i] <= 0x40000000,
        ensures
            r as int == tile_sum(board@, 16),
    {
        let mut sum: u64 = 0;
        let mut i: usize = 0;
        while i < 16
            invariant
                board@.len() == 16,
                forall|j: int| 0 <= j < 16 ==> #[trigger] board@[j] <= 0x40000000,
                0 <= i <= 16,
                sum as int == tile_sum(board@, i as int),
                sum <= 0x400000000,
            decreases 16 - i,
        {
            proof {
                lemma_tile_sum_upper(board@, i as int + 1, 0x40000000);
            }
            sum = sum + (board[i] as u64);
            i = i + 1;
        }
        sum
    }

    /// Whether any cell is empty, executable.
    fn any_empty(board: &Vec<u32>) -> (r: bool)
        requires
            board@.len() == 16,
        ensures
            r == has_empty(board@),
    {
        let mut i: usize = 0;
        while i < 16
            invariant
                board@.len() == 16,
                0 <= i <= 16,
                forall|j: int| 0 <= j < i ==> #[trigger] board@[j] != 0,
            decreases 16 - i,
        {
            if board[i] == 0 {
                return true;
            }
            i = i + 1;
        }
        false
    }

    /// Whether two boards hold the same tiles, executable.
    fn boards_equal(a: &Vec<u32>, b: &Vec<u32>) -> (r: bool)
        requires
            a@.len() == 16,
            b@.len() == 16,
        ensures
            r == (a@ == b@),
    {
        let mut i: usize = 0;
        while i < 16
            invariant
                a@.len() == 16,
                b@.len() == 16,
                0 <= i <= 16,
                forall|j: int| 0 <= j < i ==> #[trigger] a@[j] == b@[j],
            decreases 16 - i,
        {
            if a[i] != b[i] {
                return false;
            }
            i = i + 1;
        }
        proof {
            assert(a@ =~= b@);
        }
        true
    }

    /// Whether the given direction is playable, executable.
    fn is_viable(board: &Vec<u32>, dir: &Action) -> (r: bool)
        requires
            board@.len() == 16,
            tile_sum(board@, 16) <= SUM_CAP,
        ensures
            r == viable(board@, *dir),
    {
        proof {
            lemma_board_elems_bounded(board@);
        }
        let shift = Self::shift_and_merge(board, dir);
        let changed = match shift.1 {
            Option::Some(_) => true,
            Option::None => false,
        };
        if !changed {
            return false;
        }
        proof {
            lemma_board_elems_bounded(board@);
        }
        let s_pre = Self::board_sum(board);
        s_pre + 2 <= (SUM_CAP as u64)
    }

    ///
    pub fn get_tile(&self, row: usize, col: usize) -> (r: u32)
        requires
            row < 4,
            col < 4,
        ensures
            r == self.board_view()[4 * (row as int) + (col as int)],
    {
        proof {
            use_type_invariant(&*self);
        }
        let idx = row * WIDTH + col;
        self.board[idx]
    }

    ///
    pub fn set_tile(&mut self, row: usize, col: usize, num: u32)
        requires
            row < 4,
            col < 4,
            num + tile_sum(old(self).board_view(), 16) <= SUM_CAP,
        ensures
            final(self).board_view() =~= old(self).board_view().update(
                4 * (row as int) + (col as int),
                num,
            ),
            final(self).score_view() == old(self).score_view(),
    {
        proof {
            use_type_invariant(&*self);
        }
        let idx = row * WIDTH + col;
        proof {
            lemma_set_tile_sum(self.board@, idx as int, num);
            lemma_tile_sum_element(self.board@, 16, idx as int);
        }
        let mut board = Self::copy_board(&self.board);
        let tref = &mut board[idx];
        *tref = num;
        self.board = board;
    }

    /// A fresh vector with the same tiles.
    fn copy_board(board: &Vec<u32>) -> (r: Vec<u32>)
        requires
            board@.len() == 16,
        ensures
            r@ == board@,
    {
        let mut b: Vec<u32> = Vec::new();
        let mut i: usize = 0;
        while i < 16
            invariant
                board@.len() == 16,
                0 <= i <= 16,
                b@.len() == i,
                forall|j: int| 0 <= j < i ==> (#[trigger] b@[j]) == board@[j],
            decreases 16 - i,
        {
            b.push(board[i]);
            i = i + 1;
        }
        proof {
            assert(b@ =~= board@);
        }
        b
    }

    /// Check whether the current board is full.
    pub fn board_full(&self) -> (r: bool)
        ensures
            r == !has_empty(self.board_view()),
    {
        proof {
            use_type_invariant(&*self);
        }
        !Self::any_empty(&self.board)
    }

    /// Place a 2 into some random empty tile.
    pub fn random_spawn(&mut self)
        requires
            has_empty(old(self).board_view()),
            tile_sum(old(self).board_view(), 16) + 2 <= SUM_CAP,
        ensures
            exists|i: int|
                0 <= i < 16 && old(self).board_view()[i] == 0 && final(self).board_view() == old(
                    self,
                ).board_view().update(i, 2u32),
            final(self).score_view() == old(self).score_view(),
    {
        proof {
            use_type_invariant(&*self);
        }
        let mut empties: Vec<usize> = Vec::new();
        let mut i: usize = 0;
        while i < 16
            invariant
                old(self).board_view().len() == 16,
                self == old(self),
                0 <= i <= 16,
                forall|j: int|
                    0 <= j < empties@.len() ==> (#[trigger] empties@[j]) < 16 && old(
                        self,
                    ).board_view()[empties@[j] as int] == 0,
                has_empty(old(self).board_view()) ==> exists|z: int|
                    0 <= z < 16 && old(self).board_view()[z] == 0,
                forall|z: int|
                    0 <= z < i && old(self).board_view()[z] == 0 ==> exists|j: int|
                        0 <= j < empties@.len() && (#[trigger] empties@[j]) as int == z,
            decreases 16 - i,
        {
            let ghost prev = empties@;
            if self.board[i] == 0 {
                empties.push(i);
            }
            proof {
                assert(forall|j: int| 0 <= j < prev.len() ==> empties@[j] == prev[j]);
                assert forall|z: int|
                    0 <= z < i + 1 && old(self).board_view()[z] == 0 implies exists|j: int|
                        0 <= j < empties@.len() && (#[trigger] empties@[j]) as int == z by {
                    if z == i {
                        assert(empties@[empties@.len() - 1] as int == z);
                    } else {
                        let j0 = choose|j: int|
                            0 <= j < prev.len() && (#[trigger] prev[j]) as int == z;
                        assert(empties@[j0] as int == z);
                    }
                }
            }
            i = i + 1;
        }
        proof {
            let z = choose|z: int| 0 <= z < 16 && old(self).board_view()[z] == 0;
            assert(exists|j: int|
                0 <= j < empties@.len() && (#[trigger] empties@[j]) as int == z);
        }
        let mut rng = Rng::from_seed(0);
        core::mem::swap(&mut rng, &mut self.rng);
        let pos = *choose_random(&mut rng, &empties);
        core::mem::swap(&mut rng, &mut self.rng);
        proof {
            lemma_spawn_sum(self.board@, pos as int, 16);
        }
        let mut board = Self::copy_board(&self.board);
        let tref = &mut board[pos];
        *tref = 2;
        self.board = board;
        proof {
            assert(final(self).board_view() =~= old(self).board_view().update(pos as int, 2u32));
        }
    }
}

/// Boards under the cap have every tile under the cap.
proof fn lemma_board_elems_bounded(b: Seq<u32>)
    requires
        b.len() == 16,
        tile_sum(b, 16) <= SUM_CAP,
    ensures
        forall|i: int| 0 <= i < 16 ==> #[trigger] b[i] <= 0x20000000,
{
    assert forall|i: int| 0 <= i < 16 implies #[trigger] b[i] <= 0x20000000 by {
        lemma_tile_sum_element(b, 16, i);
    }
}

/// Updating one tile changes the sum by the difference.
proof fn lemma_set_tile_sum(b: Seq<u32>, i: int, num: u32)
    requires
        0 <= i < b.len(),
    ensures
        forall|k: int|
            0 <= k <= b.len() ==> tile_sum(b.update(i, num), k) == tile_sum(b, k) + (if i < k {
                num - b[i]
            } else {
                0int
            }),
{
    assert forall|k: int|
        0 <= k <= b.len() implies tile_sum(b.update(i, num), k) == tile_sum(b, k) + (if i < k {
        num - b[i]
    } else {
        0int
    }) by {
        lemma_set_tile_sum_step(b, i, num, k);
    }
}

proof fn lemma_set_tile_sum_step(b: Seq<u32>, i: int, num: u32, k: int)
    requires
        0 <= i < b.len(),
        0 <= k <= b.len(),
    ensures
        tile_sum(b.update(i, num), k) == tile_sum(b, k) + (if i < k {
            num - b[i]
        } else {
            0int
        }),
    decreases k,
{
    if k > 0 {
        lemma_set_tile_sum_step(b, i, num, k - 1);
    }
}

impl Game<Action> for TwoFortyEight {
    /// The playable directions, in the fixed order Up, Down, Left, Right.
    closed spec fn actions_spec(&self) -> Seq<Action> {
        viable_upto(self.board_view(), 4)
    }

    /// The score in fixed-point units, saturated at the cap.
    closed spec fn reward_spec(&self) -> int {
        (if self.score_view() > SCORE_CAP {
            SCORE_CAP as int
        } else {
            self.score_view() as int
        }) * SCALE
    }

    /// Every applied move raises the tile sum by the spawned `2`, so the
    /// gap to the cap bounds the number of moves left.
    closed spec fn remaining(&self) -> nat {
        if tile_sum(self.board_view(), 16) <= SUM_CAP {
            (SUM_CAP - tile_sum(self.board_view(), 16)) as nat
        } else {
            0
        }
    }

    /// Return a list with all allowed actions given the current game
    /// state.
    fn allowed_actions(&self) -> (r: Vec<Action>) {
        proof {
            use_type_invariant(&*self);
        }
        let dirs: [Action; 4] = [Action::Up, Action::Down, Action::Left, Action::Right];
        let mut moves: Vec<Action> = Vec::new();
        let mut k: usize = 0;
        while k < 4
            invariant
                self.wf(),
                0 <= k <= 4,
                moves@ == viable_upto(self.board_view(), k as int),
            decreases 4 - k,
        {
            let d = if k == 0 {
                Action::Up
            } else if k == 1 {
                Action::Down
            } else if k == 2 {
                Action::Left
            } else {
                Action::Right
            };
            proof {
                assert(d == dir_at(k as int));
            }
            if Self::is_viable(&self.board, &d) {
                moves.push(d);
            }
            k = k + 1;
        }
        moves
    }

    /// Change the current game state according to the given action: shift
    /// and merge, add the points to the score, and spawn a `2` on a
    /// random empty cell.  A direction that changes nothing is refused.
    fn make_move(&mut self, action: &Action) -> (applied: bool)
        ensures
            applied ==> exists|i: int|
                {
                    &&& 0 <= i < 16
                    &&& shifted(old(self).board_view(), *action)[i] == 0
                    &&& final(self).board_view() == shifted(
                        old(self).board_view(),
                        *action,
                    ).update(i, 2u32)
                },
            applied ==> final(self).score_view() as int == (if old(self).score_view()
                + shift_points(old(self).board_view(), *action) <= u64::MAX as int {
                old(self).score_view() + shift_points(old(self).board_view(), *action)
            } else {
                u64::MAX as int
            }),
            !applied ==> final(self).board_view() == old(self).board_view(),
            !applied ==> final(self).score_view() == old(self).score_view(),
    {
        proof {
            use_type_invariant(&*self);
            lemma_board_elems_bounded(self.board_view());
            if old(self).actions_spec().contains(*action) {
                lemma_viable_elements(self.board_view(), 4);
                let w = choose|i: int|
                    0 <= i < old(self).actions_spec().len() && old(self).actions_spec()[i]
                        == *action;
                assert(viable(self.board_view(), *action));
            }
        }
        let shift = Self::shift_and_merge(&self.board, action);
        let new_board = shift.0;
        let points = match shift.1 {
            Option::Some(p) => p,
            Option::None => {
                return false;
            },
        };
        proof {
            lemma_shift_preserves_sum(self.board_view(), *action);
            lemma_shift_leaves_empty(self.board_view(), *action);
        }
        let s_pre = Self::board_sum(&self.board);
        if s_pre + 2 > (SUM_CAP as u64) {
            return false;
        }
        self.board = new_board;
        self.score = match self.score.checked_add(points) {
            Option::Some(sc) => sc,
            Option::None => u64::MAX,
        };
        let ghost mid = self.board_view();
        self.random_spawn();
        proof {
            let w = choose|i: int|
                0 <= i < 16 && mid[i] == 0 && final(self).board_view() == mid.update(i, 2u32);
            lemma_spawn_sum(mid, w, 16);
        }
        true
    }

    /// Reward for the player when reaching the current game state: the
    /// score in fixed-point units, saturated at the cap.
    fn reward(&self) -> (r: i64) {
        let capped = if self.score > SCORE_CAP {
            SCORE_CAP
        } else {
            self.score
        };
        (capped * SCALE) as i64
    }

    /// Determinize the game: reseed the spawn source.  The board and the
    /// score are untouched.
    fn set_rng_seed(&mut self, seed: u32)
        ensures
            final(self).board_view() == old(self).board_view(),
            final(self).score_view() == old(self).score_view(),
    {
        proof {
            use_type_invariant(&*self);
        }
        let mut rng = Rng::from_seed(seed as u64);
        core::mem::swap(&mut rng, &mut self.rng);
    }

    fn clone_game(&self) -> (g: Self)
        ensures
            g.board_view() == self.board_view(),
            g.score_view() == self.score_view(),
    {
        proof {
            use_type_invariant(&*self);
        }
        let mut board: Vec<u32> = Vec::new();
        let mut i: usize = 0;
        while i < 16
            invariant
                self.wf(),
                0 <= i <= 16,
                board@.len() == i,
                forall|j: int| 0 <= j < i ==> (#[trigger] board@[j]) == self.board_view()[j],
            decreases 16 - i,
        {
            board.push(self.board[i]);
            i = i + 1;
        }
        proof {
            assert(board@ =~= self.board_view());
            lemma_tile_sum_same(board@, self.board_view(), 16);
        }
        TwoFortyEight { score: self.score, board, rng: self.rng.fork() }
    }
}

/// A sixteen-cell sum, written out.
proof fn lemma_tile_sum_unroll16(s: Seq<u32>)
    requires
        s.len() == 16,
    ensures
        tile_sum(s, 16) == s[0] + s[1] + s[2] + s[3] + s[4] + s[5] + s[6] + s[7] + s[8] + s[9]
            + s[10] + s[11] + s[12] + s[13] + s[14] + s[15],
{
    assert(tile_sum(s, 1) == tile_sum(s, 0) + s[0]);
    assert(tile_sum(s, 2) == tile_sum(s, 1) + s[1]);
    assert(tile_sum(s, 3) == tile_sum(s, 2) + s[2]);
    assert(tile_sum(s, 4) == tile_sum(s, 3) + s[3]);
    assert(tile_sum(s, 5) == tile_sum(s, 4) + s[4]);
    assert(tile_sum(s, 6) == tile_sum(s, 5) + s[5]);
    assert(tile_sum(s, 7) == tile_sum(s, 6) + s[6]);
    assert(tile_sum(s, 8) == tile_sum(s, 7) + s[7]);
    assert(tile_sum(s, 9) == tile_sum(s, 8) + s[8]);
    assert(tile_sum(s, 10) == tile_sum(s, 9) + s[9]);
    assert(tile_sum(s, 11) == tile_sum(s, 10) + s[10]);
    assert(tile_sum(s, 12) == tile_sum(s, 11) + s[11]);
    assert(tile_sum(s, 13) == tile_sum(s, 12) + s[12]);
    assert(tile_sum(s, 14) == tile_sum(s, 13) + s[13]);
    assert(tile_sum(s, 15) == tile_sum(s, 14) + s[14]);
    assert(tile_sum(s, 16) == tile_sum(s, 15) + s[15]);
}

/// A four-cell sum, written out.
proof fn lemma_tile_sum_unroll4(s: Seq<u32>)
    requires
        s.len() == 4,
    ensures
        tile_sum(s, 4) == s[0] + s[1] + s[2] + s[3],
{
    assert(tile_sum(s, 1) == tile_sum(s, 0) + s[0]);
    assert(tile_sum(s, 2) == tile_sum(s, 1) + s[1]);
    assert(tile_sum(s, 3) == tile_sum(s, 2) + s[2]);
    assert(tile_sum(s, 4) == tile_sum(s, 3) + s[3]);
}

/// A merged line keeps its length.
pub proof fn lemma_merged_row_len(s: Seq<u32>, bound: int)
    requires
        s.len() <= 16,
        1 <= bound <= 0x40000000,
        forall|i: int| 0 <= i < s.len() ==> #[trigger] s[i] <= bound,
    ensures
        merged_row(s).len() == s.len(),
{
    lemma_nonzeros(s, s.len() as int, bound);
    let f = nonzeros_upto(s, s.len() as int);
    lemma_merge_state(f, f.len() as int, bound);
}

/// Shifting never changes the board's tile sum: merging conserves tiles'
/// values line by line, and the four lines of a shift partition the
/// sixteen cells.
#[verifier::rlimit(40)]
pub proof fn lemma_shift_preserves_sum(b: Seq<u32>, dir: Action)
    requires
        b.len() == 16,
        forall|i: int| 0 <= i < 16 ==> #[trigger] b[i] <= 0x20000000,
    ensures
        tile_sum(shifted(b, dir), 16) == tile_sum(b, 16),
{
    let sh = shifted(b, dir);
    lemma_tile_sum_unroll16(b);
    lemma_tile_sum_unroll16(sh);
    lemma_shift_lines_keep_sums(b, dir);
    match dir {
        Action::Up => {
            assert(cell_index(dir, 0, 0) == 0 && cell_index(dir, 0, 1) == 4
                && cell_index(dir, 0, 2) == 8 && cell_index(dir, 0, 3) == 12);
            assert(sh[0] + sh[4] + sh[8] + sh[12] == b[0] + b[4]
                + b[8] + b[12]);
            assert(cell_index(dir, 1, 0) == 1 && cell_index(dir, 1, 1) == 5
                && cell_index(dir, 1, 2) == 9 && cell_index(dir, 1, 3) == 13);
            assert(sh[1] + sh[5] + sh[9] + sh[13] == b[1] + b[5]
                + b[9] + b[13]);
            assert(cell_index(dir, 2, 0) == 2 && cell_index(dir, 2, 1) == 6
                && cell_index(dir, 2, 2) == 10 && cell_index(dir, 2, 3) == 14);
            assert(sh[2] + sh[6] + sh[10] + sh[14] == b[2] + b[6]
                + b[10] + b[14]);
            assert(cell_index(dir, 3, 0) == 3 && cell_index(dir, 3, 1) == 7
                && cell_index(dir, 3, 2) == 11 && cell_index(dir, 3, 3) == 15);
            assert(sh[3] + sh[7] + sh[11] + sh[15] == b[3] + b[7]
                + b[11] + b[15]);
        },
        Action::Down => {
            assert(cell_index(dir, 0, 0) == 12 && cell_index(dir, 0, 1) == 8
                && cell_index(dir, 0, 2) == 4 && cell_index(dir, 0, 3) == 0);
            assert(sh[12] + sh[8] + sh[4] + sh[0] == b[12] + b[8]
                + b[4] + b[0]);
            assert(cell_index(dir, 1, 0) == 13 && cell_index(dir, 1, 1) == 9
                && cell_index(dir, 1, 2) == 5 && cell_index(dir, 1, 3) == 1);
            assert(sh[13] + sh[9] + sh[5] + sh[1] == b[13] + b[9]
                + b[5] + b[1]);
            assert(cell_index(dir, 2, 0) == 14 && cell_index(dir, 2, 1) == 10
                && cell_index(dir, 2, 2) == 6 && cell_index(dir, 2, 3) == 2);
            assert(sh[14] + sh[10] + sh[6] + sh[2] == b[14] + b[10]
                + b[6] + b[2]);
            assert(cell_index(dir, 3, 0) == 15 && cell_index(dir, 3, 1) == 11
                && cell_index(dir, 3, 2) == 7 && cell_index(dir, 3, 3) == 3);
            assert(sh[15] + sh[11] + sh[7] + sh[3] == b[15] + b[11]
                + b[7] + b[3]);
        },
        Action::Left => {
            assert(cell_index(dir, 0, 0) == 0 && cell_index(dir, 0, 1) == 1
                && cell_index(dir, 0, 2) == 2 && cell_index(dir, 0, 3) == 3);
            assert(sh[0] + sh[1] + sh[2] + sh[3] == b[0] + b[1]
                + b[2] + b[3]);
            assert(cell_index(dir, 1, 0) == 4 && cell_index(dir, 1, 1) == 5
                && cell_index(dir, 1, 2) == 6 && cell_index(dir, 1, 3) == 7);
            assert(sh[4] + sh[5] + sh[6] + sh[7] == b[4] + b[5]
                + b[6] + b[7]);
            assert(cell_index(dir, 2, 0) == 8 && cell_index(dir, 2, 1) == 9
                && cell_index(dir, 2, 2) == 10 && cell_index(dir, 2, 3) == 11);
            assert(sh[8] + sh[9] + sh[10] + sh[11] == b[8] + b[9]
                + b[10] + b[11]);
            assert(cell_index(dir, 3, 0) == 12 && cell_index(dir, 3, 1) == 13
                && cell_index(dir, 3, 2) == 14 && cell_index(dir, 3, 3) == 15);
            assert(sh[12] + sh[13] + sh[14] + sh[15] == b[12] + b[13]
                + b[14] + b[15]);
        },
        Action::Right => {
            assert(cell_index(dir, 0, 0) == 15 && cell_index(dir, 0, 1) == 14
                && cell_index(dir, 0, 2) == 13 && cell_index(dir, 0, 3) == 12);
            assert(sh[15] + sh[14] + sh[13] + sh[12] == b[15] + b[14]
                + b[13] + b[12]);
            assert(cell_index(dir, 1, 0) == 11 && cell_index(dir, 1, 1) == 10
                && cell_index(dir, 1, 2) == 9 && cell_index(dir, 1, 3) == 8);
            assert(sh[11] + sh[10] + sh[9] + sh[8] == b[11] + b[10]
                + b[9] + b[8]);
            assert(cell_index(dir, 2, 0) == 7 && cell_index(dir, 2, 1) == 6
                && cell_index(dir, 2, 2) == 5 && cell_index(dir, 2, 3) == 4);
            assert(sh[7] + sh[6] + sh[5] + sh[4] == b[7] + b[6]
                + b[5] + b[4]);
            assert(cell_index(dir, 3, 0) == 3 && cell_index(dir, 3, 1) == 2
                && cell_index(dir, 3, 2) == 1 && cell_index(dir, 3, 3) == 0);
            assert(sh[3] + sh[2] + sh[1] + sh[0] == b[3] + b[2]
                + b[1] + b[0]);
        },
    }
}

/// Each line of a shift sums, after merging, to the cells it came from.
#[verifier::rlimit(40)]
proof fn lemma_shift_lines_keep_sums(b: Seq<u32>, dir: Action)
    requires
        b.len() == 16,
        forall|i: int| 0 <= i < 16 ==> #[trigger] b[i] <= 0x20000000,
    ensures
        forall|o: int|
            0 <= o < 4 ==> shifted(b, dir)[#[trigger] cell_index(dir, o, 0)] + shifted(b, dir)[
            cell_index(dir, o, 1)] + shifted(b, dir)[cell_index(dir, o, 2)] + shifted(b, dir)[
            cell_index(dir, o, 3)] == b[cell_index(dir, o, 0)] + b[cell_index(dir, o, 1)] + b[
            cell_index(dir, o, 2)] + b[cell_index(dir, o, 3)],
{
    let sh = shifted(b, dir);
    assert forall|o: int| 0 <= o < 4 implies sh[#[trigger] cell_index(dir, o, 0)] + sh[cell_index(
        dir,
        o,
        1,
    )] + sh[cell_index(dir, o, 2)] + sh[cell_index(dir, o, 3)] == b[cell_index(dir, o, 0)] + b[
    cell_index(dir, o, 1)] + b[cell_index(dir, o, 2)] + b[cell_index(dir, o, 3)] by {
        let line = line_of(b, dir, o);
        let row = merged_row(line);
        assert forall|t2: int| 0 <= t2 < 4 implies (#[trigger] line[t2]) <= 0x20000000 by {
            lemma_cell_of_pair(dir, o, t2);
        }
        lemma_merged_row_zeros(line, 0x20000000);
        lemma_merged_row_len(line, 0x20000000);
        lemma_tile_sum_unroll4(line);
        lemma_tile_sum_unroll4(row);
        assert forall|t2: int| 0 <= t2 < 4 implies sh[#[trigger] cell_index(dir, o, t2)] == row[t2]
            by {
            lemma_cell_of_pair(dir, o, t2);
        }
        assert forall|t2: int| 0 <= t2 < 4 implies (#[trigger] line[t2]) == b[cell_index(
            dir,
            o,
            t2,
        )] by {
            lemma_cell_of_pair(dir, o, t2);
        }
    }
}

/// At least one zero among the first `k` cells yields a witness.
proof fn lemma_zero_count_witness(s: Seq<u32>, k: int)
    requires
        0 <= k <= s.len(),
        zero_count(s, k) >= 1,
    ensures
        exists|i: int| 0 <= i < k && s[i] == 0,
    decreases k,
{
    if k > 0 {
        if s[k - 1] == 0 {
            assert(s[k - 1] == 0);
        } else {
            lemma_zero_count_witness(s, k - 1);
        }
    }
}

/// One line of the shifted board holds an empty cell.
proof fn lemma_line_leaves_empty(b: Seq<u32>, dir: Action, o: int)
    requires
        b.len() == 16,
        forall|i: int| 0 <= i < 16 ==> #[trigger] b[i] <= 0x20000000,
        0 <= o < 4,
        zero_count(line_of(b, dir, o), 4) >= 1 || merged_row(line_of(b, dir, o)) != line_of(
            b,
            dir,
            o,
        ),
    ensures
        has_empty(shifted(b, dir)),
{
    let line = line_of(b, dir, o);
    let row = merged_row(line);
    assert forall|t2: int| 0 <= t2 < 4 implies (#[trigger] line[t2]) <= 0x20000000 by {
        lemma_cell_of_pair(dir, o, t2);
    }
    lemma_merged_row_zeros(line, 0x20000000);
    lemma_merged_row_len(line, 0x20000000);
    lemma_zero_count_nonneg(line, 4);
    if zero_count(line, 4) == 0 {
        assert(row != line);
        assert(zero_count(row, 4) >= 1);
    }
    lemma_zero_count_witness(row, 4);
    let t = choose|t2: int| 0 <= t2 < 4 && row[t2] == 0;
    lemma_cell_of_pair(dir, o, t);
    assert(shifted(b, dir)[cell_index(dir, o, t)] == row[t]);
}

/// A shift that changes the board leaves an empty cell behind: a changed
/// line either had a zero to move forward or created one by merging, and
/// an untouched line keeps whatever zeros it had.
pub proof fn lemma_shift_leaves_empty(b: Seq<u32>, dir: Action)
    requires
        b.len() == 16,
        forall|i: int| 0 <= i < 16 ==> #[trigger] b[i] <= 0x20000000,
        shift_changes(b, dir),
    ensures
        has_empty(shifted(b, dir)),
{
    if merged_row(line_of(b, dir, 0)) != line_of(b, dir, 0) {
        lemma_line_leaves_empty(b, dir, 0);
    } else if merged_row(line_of(b, dir, 1)) != line_of(b, dir, 1) {
        lemma_line_leaves_empty(b, dir, 1);
    } else if merged_row(line_of(b, dir, 2)) != line_of(b, dir, 2) {
        lemma_line_leaves_empty(b, dir, 2);
    } else {
        lemma_line_leaves_empty(b, dir, 3);
    }
}

} // verus!
