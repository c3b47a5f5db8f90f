//! Random playouts and the ensemble coordinator.
//!
//! `playout` drives a cloned game to a terminal state by uniformly random
//! legal actions; its termination is proved from the game's finiteness
//! measure.  The coordinator [`MCTS`] owns one `(tree, game clone)` pair per
//! ensemble member and merges their statistics.

use vstd::prelude::*;

use crate::clock::{elapsed_ms, instant_now};
use crate::fixedpoint::{div_trunc, div_trunc_spec};
use crate::game::{Game, GameAction, REWARD_LIMIT};
use crate::node::{
    count_prefix, evolves, lemma_bridge_statistics, lemma_count_prefix_upper,
    lemma_evolves_reflexive, lemma_evolves_transitive, lemma_flat_prefix, lemma_prefix_bounds,
    max_depth_prefix, min_depth_prefix, sum_visits, untried, NodeState, TreeNode, C_LIMIT,
    VISIT_LIMIT,
};
use crate::stats::{lemma_sum_nodes_drop_last, stats_wf, sum_nodes, TreeStatistics};
use crate::utils::{choose_random, Rng};

verus! {

/// Hard cap on the number of ensemble members.
pub const ENSEMBLE_LIMIT: usize = 65536;

/// Perform a random playout.
///
/// Start with an initial game state and perform random actions until a
/// game state is reached that does not have any allowed actions.
pub fn playout<G: Game<A>, A: GameAction>(initial: &G, rng: &mut Rng) -> (g: G)
    ensures
        g.actions_spec().len() == 0,
{
    let mut game = initial.clone_game();
    let mut potential_moves = game.allowed_actions();
    while potential_moves.len() > 0
        invariant
            potential_moves@ == game.actions_spec(),
        decreases game.remaining(),
    {
        let action = *choose_random(rng, &potential_moves);
        proof {
            assert(game.actions_spec().contains(action));
        }
        let _ = game.make_move(&action);
        potential_moves = game.allowed_actions();
    }
    game
}

/// Calculate the expected reward based on random playouts: the truncated
/// mean of `n_samples` terminal rewards.
pub fn expected_reward<G: Game<A>, A: GameAction>(game: &G, n_samples: usize, rng: &mut Rng) -> (r:
    i64)
    requires
        1 <= n_samples <= 0x400000,
    ensures
        -REWARD_LIMIT <= r <= REWARD_LIMIT,
{
    let mut score_sum: i64 = 0;
    let mut i: usize = 0;
    while i < n_samples
        invariant
            0 <= i <= n_samples,
            n_samples <= 0x400000,
            -(i as int) * (REWARD_LIMIT as int) <= score_sum as int <= (i as int) * (
            REWARD_LIMIT as int),
        decreases n_samples - i,
    {
        proof {
            assert((i as int) * (REWARD_LIMIT as int) + REWARD_LIMIT == ((i + 1) as int) * (
            REWARD_LIMIT as int)) by (nonlinear_arith);
            assert(((i + 1) as int) * (REWARD_LIMIT as int) <= 0x400000 * (REWARD_LIMIT as int))
                by (nonlinear_arith)
                requires
                    i + 1 <= 0x400000,
            ;
        }
        let sample = playout(game, rng);
        score_sum = score_sum + sample.reward();
        i = i + 1;
    }
    proof {
        assert((n_samples as int) * (REWARD_LIMIT as int) <= 0x4000000000000000)
            by (nonlinear_arith)
            requires
                n_samples <= 0x400000,
        ;
    }
    let m = div_trunc(score_sum, n_samples as u64);
    proof {
        lemma_mean_bounded(score_sum as int, n_samples as int);
    }
    m
}

/// Represents an ensemble of MCTS trees.
///
/// For many applications we need to work with ensembles because we use
/// determinization: each member holds a clone of the game, reseeded with
/// its own integer seed, paired with its own search tree.
#[derive(Debug)]
pub struct MCTS<G, A> {
    /// One search tree per ensemble member.
    pub roots: Vec<TreeNode<A>>,
    /// One determinized clone of the game per ensemble member.
    pub games: Vec<G>,
    /// Running estimate of the sampling rate, used only by the
    /// time-budgeted search.
    pub iterations_per_s: u64,
    /// The engine's own random source, used for candidate selection and
    /// playouts.
    pub rng: Rng,
}

impl<G, A> MCTS<G, A> {
    /// How many iterations have been run on each member's root.
    pub open spec fn samples(self) -> int {
        if self.roots@.len() == 0 {
            0
        } else {
            self.roots@[0].n as int
        }
    }

    /// The coordinator's invariant: trees and clones pair up, every tree
    /// is a well-formed compact search tree with the same number of root
    /// visits, and the total of all visits respects the engine's cap.
    pub open spec fn well_formed(self) -> bool {
        &&& self.roots@.len() == self.games@.len()
        &&& self.roots@.len() <= ENSEMBLE_LIMIT
        &&& forall|e: int|
            0 <= e < self.roots@.len() ==> {
                let r = #[trigger] self.roots@[e];
                &&& r.well_formed()
                &&& r.positive_visits()
                &&& r.compact()
                &&& r.action is None
                &&& r.n as int == self.samples()
            }
        &&& (self.roots@.len() as int) * self.samples() <= VISIT_LIMIT
        &&& self.iterations_per_s <= 0x100000000
    }
}

impl<G: Game<A>, A: GameAction> MCTS<G, A> {
    /// Create a new MCTS solver: one reseeded clone and one fresh root per
    /// ensemble member.  Distinct integer seeds are the sole mechanism for
    /// determinizing different stochastic futures per member.
    pub fn new(game: &G, ensamble_size: usize) -> (r: MCTS<G, A>)
        requires
            ensamble_size <= ENSEMBLE_LIMIT,
        ensures
            r.well_formed(),
            r.games@.len() == ensamble_size,
            r.roots@.len() == ensamble_size,
            r.samples() == 0,
            r.iterations_per_s == 1,
            forall|e: int|
                0 <= e < ensamble_size ==> (#[trigger] r.roots@[e]).is_fresh(Option::None),
    {
        let mut roots: Vec<TreeNode<A>> = Vec::new();
        let mut games: Vec<G> = Vec::new();
        let mut i: usize = 0;
        while i < ensamble_size
            invariant
                ensamble_size <= ENSEMBLE_LIMIT,
                0 <= i <= ensamble_size,
                roots@.len() == i,
                games@.len() == i,
                forall|e: int| 0 <= e < i ==> (#[trigger] roots@[e]).is_fresh(Option::None),
                forall|e: int|
                    0 <= e < i ==> (#[trigger] roots@[e]).well_formed() && roots@[e].positive_visits()
                        && roots@[e].compact(),
            decreases ensamble_size - i,
        {
            let mut game = game.clone_game();
            game.set_rng_seed(i as u32);
            games.push(game);
            roots.push(TreeNode::new(Option::None));
            i = i + 1;
        }
        proof {
            assert forall|e2: int| 0 <= e2 < roots@.len() implies {
                let r0 = #[trigger] roots@[e2];
                &&& r0.well_formed()
                &&& r0.positive_visits()
                &&& r0.compact()
                &&& r0.action is None
                &&& r0.n == 0
            } by {
                assert(roots@[e2].is_fresh(Option::None));
            }
        }
        let r = MCTS { roots, games, iterations_per_s: 1, rng: Rng::from_seed(0) };
        proof {
            assert(r.samples() == 0);
            assert((r.roots@.len() as int) * r.samples() == 0) by (nonlinear_arith)
                requires
                    r.samples() == 0,
            ;
        }
        r
    }

    /// Set a new game state for this solver: rebuild the entire ensemble
    /// from the new state exactly as construction does, discarding all
    /// prior trees and clones.  This commits a real move and forgets all
    /// search statistics.
    pub fn advance_game(&mut self, game: &G)
        requires
            old(self).well_formed(),
        ensures
            final(self).well_formed(),
            final(self).games@.len() == old(self).games@.len(),
            final(self).roots@.len() == old(self).roots@.len(),
            final(self).samples() == 0,
            final(self).iterations_per_s == old(self).iterations_per_s,
            forall|e: int|
                0 <= e < final(self).roots@.len() ==> (#[trigger] final(self).roots@[e]).is_fresh(
                    Option::None,
                ),
    {
        let ensamble_size = self.games.len();
        let mut roots: Vec<TreeNode<A>> = Vec::new();
        let mut games: Vec<G> = Vec::new();
        let mut i: usize = 0;
        while i < ensamble_size
            invariant
                ensamble_size <= ENSEMBLE_LIMIT,
                0 <= i <= ensamble_size,
                roots@.len() == i,
                games@.len() == i,
                forall|e: int| 0 <= e < i ==> (#[trigger] roots@[e]).is_fresh(Option::None),
                forall|e: int|
                    0 <= e < i ==> (#[trigger] roots@[e]).well_formed() && roots@[e].positive_visits()
                        && roots@[e].compact(),
            decreases ensamble_size - i,
        {
            let mut game = game.clone_game();
            game.set_rng_seed(i as u32);
            games.push(game);
            roots.push(TreeNode::new(Option::None));
            i = i + 1;
        }
        proof {
            assert forall|e2: int| 0 <= e2 < roots@.len() implies {
                let r0 = #[trigger] roots@[e2];
                &&& r0.well_formed()
                &&& r0.positive_visits()
                &&& r0.compact()
                &&& r0.action is None
                &&& r0.n == 0
            } by {
                assert(roots@[e2].is_fresh(Option::None));
            }
        }
        self.games = games;
        self.roots = roots;
        proof {
            assert(final(self).samples() == 0);
            assert((final(self).roots@.len() as int) * final(self).samples() == 0)
                by (nonlinear_arith)
                requires
                    final(self).samples() == 0,
            ;
        }
    }

    /// Return basic statistical data about the current MCTS trees.
    ///
    /// The ensemble is treated as one more tree layer, so the reported
    /// node count and depths are one larger than those of any single
    /// member's tree.
    pub fn tree_statistics(&self) -> (r: TreeStatistics)
        requires
            self.well_formed(),
        ensures
            self.roots@.len() == 0 ==> r == (TreeStatistics {
                nodes: 1,
                min_depth: 0,
                max_depth: 0,
            }),
            self.roots@.len() > 0 ==> {
                &&& r.nodes == 1 + count_prefix(self.roots@, self.roots@.len() as int)
                &&& r.min_depth == 1 + min_depth_prefix(self.roots@, self.roots@.len() as int)
                &&& r.max_depth == 1 + max_depth_prefix(self.roots@, self.roots@.len() as int)
            },
            stats_wf(r),
    {
        let mut child_stats: Vec<TreeStatistics> = Vec::new();
        let n_roots = self.roots.len();
        let mut i: usize = 0;
        while i < n_roots
            invariant
                self.well_formed(),
                n_roots == self.roots@.len(),
                0 <= i <= n_roots,
                child_stats@.len() == i,
                forall|j: int|
                    0 <= j < i ==> {
                        let cs = #[trigger] child_stats@[j];
                        &&& cs.nodes == self.roots@[j].node_count()
                        &&& cs.min_depth == self.roots@[j].subtree_min_depth()
                        &&& cs.max_depth == self.roots@[j].subtree_max_depth()
                        &&& stats_wf(cs)
                    },
                sum_nodes(child_stats@) == count_prefix(self.roots@, i as int),
            decreases n_roots - i,
        {
            proof {
                assert(self.roots@[i as int].compact());
                assert(self.roots@[i as int].node_count() <= self.samples() + 1);
                lemma_ensemble_budget(self.roots@.len() as int, self.samples());
            }
            let s = self.roots[i].tree_statistics();
            let ghost prev = child_stats@;
            child_stats.push(s);
            proof {
                lemma_sum_nodes_drop_last(child_stats@);
                assert(child_stats@.drop_last() =~= prev);
                assert(child_stats@.last() == s);
            }
            i = i + 1;
        }
        proof {
            lemma_bridge_statistics(self.roots@, child_stats@);
            lemma_prefix_bounds(self.roots@, self.roots@.len() as int);
            if self.roots@.len() > 0 {
                lemma_ensemble_budget(self.roots@.len() as int, self.samples());
                assert(forall|j: int|
                    0 <= j < self.roots@.len() ==> (#[trigger] self.roots@[j]).node_count()
                        <= self.samples() + 1);
                lemma_count_prefix_upper(
                    self.roots@,
                    self.roots@.len() as int,
                    self.samples() + 1,
                );
                assert((self.roots@.len() as int) * (self.samples() + 1) <= VISIT_LIMIT
                    + ENSEMBLE_LIMIT) by (nonlinear_arith)
                    requires
                        (self.roots@.len() as int) * self.samples() <= VISIT_LIMIT,
                        self.roots@.len() <= ENSEMBLE_LIMIT,
                ;
            }
        }
        TreeStatistics::merge(child_stats)
    }

    /// Perform `n_samples` MCTS iterations per ensemble member.
    ///
    /// Each iteration clones that member's stored game state fresh — the
    /// stored state itself is never mutated by search — and runs one
    /// recursive iteration on the member's root.
    pub fn search(&mut self, n_samples: usize, c: u64)
        requires
            old(self).well_formed(),
            c <= C_LIMIT,
            (old(self).roots@.len() as int) * (old(self).samples() + n_samples) <= VISIT_LIMIT,
        ensures
            final(self).well_formed(),
            final(self).games == old(self).games,
            final(self).iterations_per_s == old(self).iterations_per_s,
            final(self).roots@.len() == old(self).roots@.len(),
            old(self).roots@.len() > 0 ==> final(self).samples() == old(self).samples()
                + n_samples,
            forall|e: int|
                0 <= e < old(self).roots@.len() ==> evolves(
                    #[trigger] old(self).roots@[e],
                    final(self).roots@[e],
                ),
            // Search really grows trees: a member whose root can still be
            // expanded against its stored game gains at least one child.
            forall|e: int|
                0 <= e < old(self).roots@.len() && n_samples >= 1 && (#[trigger] old(
                    self,
                ).roots@[e]).state == NodeState::Expandable && untried(
                    old(self).games@[e].actions_spec(),
                    old(self).roots@[e].children@,
                ).len() > 0 ==> final(self).roots@[e].children@.len() > old(
                    self,
                ).roots@[e].children@.len(),
    {
        let ensamble_size = self.games.len();
        let ghost pre = *self;
        let mut e: usize = 0;
        while e < ensamble_size
            invariant
                pre.well_formed(),
                c <= C_LIMIT,
                (pre.roots@.len() as int) * (pre.samples() + n_samples) <= VISIT_LIMIT,
                ensamble_size == pre.roots@.len(),
                0 <= e <= ensamble_size,
                self.games == pre.games,
                self.iterations_per_s == pre.iterations_per_s,
                self.roots@.len() == pre.roots@.len(),
                forall|j: int| e <= j < ensamble_size ==> self.roots@[j] == pre.roots@[j],
                forall|j: int|
                    0 <= j < e ==> {
                        let r = #[trigger] self.roots@[j];
                        &&& r.well_formed()
                        &&& r.positive_visits()
                        &&& r.compact()
                        &&& r.action is None
                        &&& r.n as int == pre.samples() + n_samples
                        &&& evolves(pre.roots@[j], r)
                        &&& (n_samples >= 1 && pre.roots@[j].state == NodeState::Expandable
                            && untried(
                            pre.games@[j].actions_spec(),
                            pre.roots@[j].children@,
                        ).len() > 0 ==> r.children@.len() > pre.roots@[j].children@.len())
                    },
            decreases ensamble_size - e,
        {
            proof {
                lemma_ensemble_budget_member(
                    pre.roots@.len() as int,
                    pre.samples() + n_samples,
                );
                assert(self.roots@[e as int] == pre.roots@[e as int]);
                assert(pre.roots@[e as int].well_formed());
                assert(pre.roots@[e as int].positive_visits());
                assert(pre.roots@[e as int].compact());
                lemma_evolves_reflexive(pre.roots@[e as int]);
            }
            let mut s: usize = 0;
            while s < n_samples
                invariant
                    pre.well_formed(),
                    c <= C_LIMIT,
                    pre.samples() + n_samples <= VISIT_LIMIT,
                    ensamble_size == pre.roots@.len(),
                    0 <= e < ensamble_size,
                    0 <= s <= n_samples,
                    self.games == pre.games,
                    self.iterations_per_s == pre.iterations_per_s,
                    self.roots@.len() == pre.roots@.len(),
                    forall|j: int|
                        e < j < ensamble_size ==> self.roots@[j] == pre.roots@[j],
                    forall|j: int|
                        0 <= j < e ==> {
                            let r = #[trigger] self.roots@[j];
                            &&& r.well_formed()
                            &&& r.positive_visits()
                            &&& r.compact()
                            &&& r.action is None
                            &&& r.n as int == pre.samples() + n_samples
                            &&& evolves(pre.roots@[j], r)
                            &&& (n_samples >= 1 && pre.roots@[j].state == NodeState::Expandable
                                && untried(
                                pre.games@[j].actions_spec(),
                                pre.roots@[j].children@,
                            ).len() > 0 ==> r.children@.len() > pre.roots@[j].children@.len())
                        },
                    self.roots@[e as int].well_formed(),
                    self.roots@[e as int].positive_visits(),
                    self.roots@[e as int].compact(),
                    self.roots@[e as int].action is None,
                    self.roots@[e as int].n as int == pre.samples() + s,
                    evolves(pre.roots@[e as int], self.roots@[e as int]),
                    s == 0 ==> self.roots@[e as int] == pre.roots@[e as int],
                    s >= 1 && pre.roots@[e as int].state == NodeState::Expandable && untried(
                        pre.games@[e as int].actions_spec(),
                        pre.roots@[e as int].children@,
                    ).len() > 0 ==> self.roots@[e as int].children@.len() > pre.roots@[e as int].children@.len(),
                decreases n_samples - s,
            {
                let mut this_game = self.games[e].clone_game();
                proof {
                    assert(this_game.actions_spec() == pre.games@[e as int].actions_spec());
                }
                let ghost before = self.roots@[e as int];
                let ghost clone0 = this_game;
                let _ = self.roots[e].iteration(&mut this_game, c, &mut self.rng);
                proof {
                    lemma_evolves_transitive(
                        pre.roots@[e as int],
                        before,
                        self.roots@[e as int],
                    );
                    if s == 0 && n_samples >= 1 && pre.roots@[e as int].state
                        == NodeState::Expandable && untried(
                        pre.games@[e as int].actions_spec(),
                        pre.roots@[e as int].children@,
                    ).len() > 0 {
                        assert(untried(clone0.actions_spec(), before.children@).len() > 0);
                        assert(self.roots@[e as int].children@.len() > before.children@.len());
                    }
                }
                s = s + 1;
            }
            e = e + 1;
        }
        proof {
            if ensamble_size > 0 {
                assert(self.roots@[0].n as int == pre.samples() + n_samples);
            }
            assert forall|j: int| 0 <= j < ensamble_size implies (#[trigger] self.roots@[j]).n
                as int == self.samples() by {}
        }
    }

    /// Perform MCTS iterations for the given wall-clock budget (in
    /// milliseconds).
    ///
    /// Adaptive batching: the batch size is projected from the running
    /// rate estimate, clamped between 10 and 100 samples for the first
    /// batch and to at most 100 afterwards; the search stops when the
    /// projected next batch falls below 5 samples, when no time remains,
    /// or when the engine's total visit cap would be exceeded.  The rate
    /// estimate persists across calls on the same coordinator.
    pub fn search_time(&mut self, budget_ms: u64, c: u64)
        requires
            old(self).well_formed(),
            c <= C_LIMIT,
            budget_ms <= 0x40000000,
        ensures
            final(self).well_formed(),
            final(self).games == old(self).games,
            final(self).roots@.len() == old(self).roots@.len(),
            forall|e: int|
                0 <= e < old(self).roots@.len() ==> evolves(
                    #[trigger] old(self).roots@[e],
                    final(self).roots@[e],
                ),
            // Whatever the clock does, the first batch of at least 10
            // iterations per member runs whenever the visit cap has room
            // for it: its size is computed from the stored rate and the
            // budget alone, before any clock reading.
            old(self).roots@.len() > 0 && old(self).samples() + 100 <= (VISIT_LIMIT as int) / (
            old(self).roots@.len() as int) ==> final(self).samples() >= old(self).samples() + 10,
    {
        let len = self.games.len();
        let t0 = instant_now();
        let mut samples_total: u64 = 0;
        proof {
            assert(self.iterations_per_s * budget_ms <= 0x4000000000000000) by (nonlinear_arith)
                requires
                    self.iterations_per_s <= 0x100000000,
                    budget_ms <= 0x40000000,
            ;
        }
        let est = self.iterations_per_s * budget_ms / 1000;
        let mut n_samples: u64 = if est < 10 {
            10
        } else if est > 100 {
            100
        } else {
            est
        };
        proof {
            let ghost0 = *old(self);
            assert forall|e: int| 0 <= e < ghost0.roots@.len() implies evolves(
                #[trigger] ghost0.roots@[e],
                ghost0.roots@[e],
            ) by {
                lemma_evolves_reflexive(ghost0.roots@[e]);
            }
        }
        while n_samples >= 5
            invariant
                self.well_formed(),
                c <= C_LIMIT,
                budget_ms <= 0x40000000,
                len == self.games@.len(),
                samples_total <= VISIT_LIMIT,
                n_samples <= 100,
                self.games == old(self).games,
                self.roots@.len() == old(self).roots@.len(),
                forall|e: int|
                    0 <= e < old(self).roots@.len() ==> evolves(
                        #[trigger] old(self).roots@[e],
                        self.roots@[e],
                    ),
                samples_total == 0 ==> *self == *old(self) && n_samples >= 10,
                old(self).roots@.len() > 0 && old(self).samples() + 100 <= (VISIT_LIMIT as int)
                    / (old(self).roots@.len() as int) && samples_total > 0 ==> self.samples()
                    >= old(self).samples() + 10,
            ensures
                old(self).roots@.len() > 0 && old(self).samples() + 100 <= (VISIT_LIMIT as int)
                    / (old(self).roots@.len() as int) ==> self.samples() >= old(self).samples()
                    + 10,
            decreases VISIT_LIMIT + 5 - samples_total,
        {
            if samples_total + n_samples > VISIT_LIMIT {
                break ;
            }
            let samples_now = if self.roots.len() > 0 {
                self.roots[0].n
            } else {
                0
            };
            proof {
                assert(self.samples() == samples_now as int);
                if self.roots@.len() > 0 {
                    assert(self.samples() <= VISIT_LIMIT) by (nonlinear_arith)
                        requires
                            (self.roots@.len() as int) * self.samples() <= VISIT_LIMIT,
                            self.roots@.len() >= 1,
                            self.samples() >= 0,
                    ;
                }
            }
            if self.roots.len() > 0 && (samples_now + n_samples) > VISIT_LIMIT / (
            self.roots.len() as u64) {
                break ;
            }
            proof {
                if self.roots@.len() > 0 {
                    lemma_budget_from_division(
                        self.roots@.len() as int,
                        self.samples() + n_samples as int,
                    );
                }
            }
            let ghost mid = *self;
            self.search(n_samples as usize, c);
            proof {
                assert forall|e: int| 0 <= e < old(self).roots@.len() implies evolves(
                    #[trigger] old(self).roots@[e],
                    self.roots@[e],
                ) by {
                    lemma_evolves_transitive(
                        old(self).roots@[e],
                        mid.roots@[e],
                        self.roots@[e],
                    );
                }
            }
            samples_total = samples_total + n_samples;
            let elapsed = elapsed_ms(&t0);
            let time_spend = if elapsed == 0 {
                1
            } else {
                elapsed
            };
            self.iterations_per_s = samples_total * 1000 / time_spend;
            proof {
                lemma_rate_bounded(samples_total, time_spend);
            }
            let time_left = if budget_ms > elapsed {
                budget_ms - elapsed
            } else {
                0
            };
            proof {
                assert(self.iterations_per_s * time_left <= 0x4000000000000000)
                    by (nonlinear_arith)
                    requires
                        self.iterations_per_s <= 0x100000000,
                        time_left <= 0x40000000,
                ;
            }
            let est2 = self.iterations_per_s * time_left / 1000;
            n_samples = if est2 > 100 {
                100
            } else {
                est2
            };
        }
    }

    /// Return the best action found so far by averaging over the ensemble.
    ///
    /// Visit and value sums of identical actions are accumulated across
    /// all roots' children, keyed by action equality in first-inserted
    /// order.  The action with the greatest mean value wins; means are
    /// compared as exact rationals, and ties resolve to the
    /// earliest-inserted action.  `None` exactly when no ensemble root has
    /// explored any action yet.
    pub fn best_action(&self) -> (r: Option<A>)
        requires
            self.well_formed(),
        ensures
            ({
                let merged = acc_roots(self.roots@, self.roots@.len() as int);
                match r {
                    Option::None => merged.len() == 0,
                    Option::Some(a) => exists|i: int|
                        is_first_best_mean(merged, i) && (#[trigger] merged[i]).0 == a,
                }
            }),
            (r is None <==> (forall|e: int|
                0 <= e < self.roots@.len() ==> (#[trigger] self.roots@[e]).children@.len() == 0)),
    {
        let n_roots = self.roots.len();
        let mut acc: Vec<(A, u64, i64)> = Vec::new();
        let mut e: usize = 0;
        proof {
            assert(acc_view(acc@) =~= acc_roots(self.roots@, 0));
        }
        while e < n_roots
            invariant
                self.well_formed(),
                n_roots == self.roots@.len(),
                0 <= e <= n_roots,
                acc_view(acc@) == acc_roots(self.roots@, e as int),
                acc_wf(acc_view(acc@)),
                acc_total(acc_view(acc@)) == processed_visits(self.roots@, e as int),
                acc_total(acc_view(acc@)) <= VISIT_LIMIT,
            decreases n_roots - e,
        {
            let ghost base = acc_roots(self.roots@, e as int);
            let ghost ch = self.roots@[e as int].children@;
            proof {
                assert(self.roots@[e as int].well_formed());
                assert(sum_visits(ch) <= self.samples());
                assert forall|k: int| 0 <= k < self.roots@.len() implies sum_visits(
                    (#[trigger] self.roots@[k]).children@,
                ) <= self.samples() by {
                    assert(self.roots@[k].well_formed());
                }
                lemma_processed_visits_bound(self.roots@, e as int, self.samples());
                lemma_processed_visits_bound(self.roots@, e + 1, self.samples());
                lemma_total_budget(self.roots@.len() as int, e + 1, self.samples());
                assert(processed_visits(self.roots@, e + 1) == processed_visits(
                    self.roots@,
                    e as int,
                ) + sum_visits(ch));
                assert(ch.take(0).len() == 0);
            }
            let n_children = self.roots[e].children.len();
            let mut j: usize = 0;
            while j < n_children
                invariant
                    self.well_formed(),
                    n_roots == self.roots@.len(),
                    0 <= e < n_roots,
                    ch == self.roots@[e as int].children@,
                    base == acc_roots(self.roots@, e as int),
                    n_children == ch.len(),
                    0 <= j <= n_children,
                    acc_view(acc@) == acc_children(base, ch, j as int),
                    acc_wf(acc_view(acc@)),
                    acc_total(acc_view(acc@)) == processed_visits(self.roots@, e as int)
                        + sum_visits(ch.take(j as int)),
                    processed_visits(self.roots@, e as int) + sum_visits(ch) <= VISIT_LIMIT,
                    processed_visits(self.roots@, e as int) >= 0,
                decreases n_children - j,
            {
                proof {
                    assert(self.roots@[e as int].well_formed());
                    assert(self.roots@[e as int].positive_visits());
                    assert(ch[j as int].well_formed());
                    assert(ch[j as int].n >= 1);
                    crate::node::lemma_sum_visits_element(ch, j as int);
                    lemma_sum_visits_take_le(ch, j as int);
                    lemma_sum_visits_take_step(ch, j as int);
                    lemma_sum_visits_take_le(ch, j as int + 1);
                }
                let child_n = self.roots[e].children[j].n;
                let child_q = self.roots[e].children[j].q;
                let child_action = self.roots[e].children[j].action.unwrap();
                let ghost pre_view = acc_view(acc@);
                proof {
                    lemma_find_action_char(pre_view, child_action);
                    lemma_acc_add_props(pre_view, child_action, child_n as int, child_q as int);
                }
                match find_entry(&acc, &child_action) {
                    Option::Some(k) => {
                        proof {
                            assert(pre_view[k as int].0 == child_action);
                            assert(find_action(pre_view, child_action) == k as int) by {
                                let f = find_action(pre_view, child_action);
                                if f < 0 {
                                    assert(pre_view[k as int].0 != child_action);
                                } else if f < k as int {
                                    assert(pre_view[f].0 != child_action);
                                } else if f > k as int {
                                    assert(pre_view[k as int].0 != child_action);
                                }
                            }
                            lemma_acc_entry_le_total(pre_view, k as int);
                        }
                        let entry = acc[k];
                        let eref = &mut acc[k];
                        *eref = (entry.0, entry.1 + child_n, entry.2 + child_q);
                        proof {
                            assert(acc_view(acc@) =~= acc_add(
                                pre_view,
                                child_action,
                                child_n as int,
                                child_q as int,
                            ));
                        }
                    },
                    Option::None => {
                        proof {
                            assert(find_action(pre_view, child_action) == -1) by {
                                let f = find_action(pre_view, child_action);
                                if f >= 0 {
                                    assert(pre_view[f].0 == child_action);
                                }
                            }
                        }
                        acc.push((child_action, child_n, child_q));
                        proof {
                            assert(acc_view(acc@) =~= pre_view.push(
                                (child_action, child_n as int, child_q as int),
                            ));
                        }
                    },
                }
                j = j + 1;
            }
            proof {
                assert(ch.take(n_children as int) =~= ch);
            }
            e = e + 1;
        }
        proof {
            lemma_merged_empty(self.roots@, self.roots@.len() as int);
        }
        if acc.len() == 0 {
            return None;
        }
        let ghost merged = acc_view(acc@);
        let mut best: usize = 0;
        let mut idx: usize = 1;
        while idx < acc.len()
            invariant
                merged == acc_view(acc@),
                acc_wf(merged),
                acc_total(merged) <= VISIT_LIMIT,
                0 <= best < idx <= acc@.len(),
                forall|t: int|
                    0 <= t < idx ==> !mean_beats(
                        (#[trigger] merged[t]).2,
                        merged[t].1,
                        merged[best as int].2,
                        merged[best as int].1,
                    ),
                forall|t: int|
                    0 <= t < best ==> mean_beats(
                        merged[best as int].2,
                        merged[best as int].1,
                        (#[trigger] merged[t]).2,
                        merged[t].1,
                    ),
            decreases acc@.len() - idx,
        {
            proof {
                lemma_acc_entry_le_total(merged, idx as int);
                lemma_acc_entry_le_total(merged, best as int);
                assert(merged[idx as int] == entry_view(acc@[idx as int]));
                assert(merged[best as int] == entry_view(acc@[best as int]));
            }
            if mean_beats_exec(acc[idx].2, acc[idx].1, acc[best].2, acc[best].1) {
                proof {
                    assert forall|t: int| 0 <= t < idx implies mean_beats(
                        merged[idx as int].2,
                        merged[idx as int].1,
                        (#[trigger] merged[t]).2,
                        merged[t].1,
                    ) by {
                        lemma_mean_order(
                            merged[idx as int].2,
                            merged[idx as int].1,
                            merged[best as int].2,
                            merged[best as int].1,
                            merged[t].2,
                            merged[t].1,
                        );
                    }
                }
                best = idx;
            }
            idx = idx + 1;
        }
        let winner = acc[best];
        proof {
            assert(merged[best as int].0 == winner.0);
            assert(is_first_best_mean(merged, best as int));
        }
        Some(winner.0)
    }
}

/// Sums over prefixes of children never exceed the sum over all of them.
pub proof fn lemma_sum_visits_take_le<A>(s: Seq<TreeNode<A>>, j: int)
    requires
        0 <= j <= s.len(),
    ensures
        0 <= sum_visits(s.take(j)) <= sum_visits(s),
    decreases s.len(),
{
    if s.len() == 0 || j == 0 {
        assert(s.take(j).len() == 0);
        crate::node::lemma_sum_visits_nonneg(s);
    } else {
        lemma_sum_visits_take_le(s.drop_first(), j - 1);
        assert(s.take(j).drop_first() =~= s.drop_first().take(j - 1));
        assert(s.take(j)[0] == s[0]);
        assert(sum_visits(s.take(j)) == s[0].n + sum_visits(s.take(j).drop_first()));
        assert(sum_visits(s) == s[0].n + sum_visits(s.drop_first()));
    }
}

/// Find the first accumulator entry carrying action `a`.
fn find_entry<A: GameAction>(acc: &Vec<(A, u64, i64)>, a: &A) -> (r: Option<usize>)
    ensures
        match r {
            Option::None => forall|t: int| 0 <= t < acc@.len() ==> (#[trigger] acc@[t]).0 != *a,
            Option::Some(k) => {
                &&& (k as int) < acc@.len()
                &&& acc@[k as int].0 == *a
                &&& forall|t: int| 0 <= t < k ==> (#[trigger] acc@[t]).0 != *a
            },
        },
{
    let mut k: usize = 0;
    while k < acc.len()
        invariant
            0 <= k <= acc@.len(),
            forall|t: int| 0 <= t < k ==> (#[trigger] acc@[t]).0 != *a,
        decreases acc@.len() - k,
    {
        if acc[k].0.eq_action(a) {
            return Some(k);
        }
        k = k + 1;
    }
    None
}

/// View of one per-action accumulator entry `(action, visit sum, value
/// sum)` in unbounded integers.
pub open spec fn entry_view<A>(e: (A, u64, i64)) -> (A, int, int) {
    (e.0, e.1 as int, e.2 as int)
}

/// View of the whole accumulator.
pub open spec fn acc_view<A>(v: Seq<(A, u64, i64)>) -> Seq<(A, int, int)> {
    v.map_values(|e: (A, u64, i64)| entry_view(e))
}

/// Index of the first entry carrying action `a`, or `-1`.
pub open spec fn find_action<A>(acc: Seq<(A, int, int)>, a: A) -> int
    decreases acc.len(),
{
    if acc.len() == 0 {
        -1
    } else if acc[0].0 == a {
        0
    } else {
        let r = find_action(acc.drop_first(), a);
        if r < 0 {
            -1
        } else {
            1 + r
        }
    }
}

/// Fold one child's statistics into the accumulator: onto the first entry
/// with the same action, or appended as a new entry.  First-inserted order
/// is kept, which fixes the tie-break of `best_action`.
pub open spec fn acc_add<A>(acc: Seq<(A, int, int)>, a: A, n: int, q: int) -> Seq<(A, int, int)> {
    let k = find_action(acc, a);
    if k < 0 {
        acc.push((a, n, q))
    } else {
        acc.update(k, (a, acc[k].1 + n, acc[k].2 + q))
    }
}

/// Fold the first `j` children of one root into the accumulator.
pub open spec fn acc_children<A>(
    acc: Seq<(A, int, int)>,
    ch: Seq<TreeNode<A>>,
    j: int,
) -> Seq<(A, int, int)>
    decreases j,
{
    if j <= 0 {
        acc
    } else {
        let prev = acc_children(acc, ch, j - 1);
        acc_add(prev, ch[j - 1].action->0, ch[j - 1].n as int, ch[j - 1].q as int)
    }
}

/// Fold the children of the first `e` roots, in root order.
pub open spec fn acc_roots<A>(roots: Seq<TreeNode<A>>, e: int) -> Seq<(A, int, int)>
    decreases e,
{
    if e <= 0 {
        Seq::empty()
    } else {
        acc_children(
            acc_roots(roots, e - 1),
            roots[e - 1].children@,
            roots[e - 1].children@.len() as int,
        )
    }
}

/// Mean comparison by cross-multiplication: `xq/xn > yq/yn` for positive
/// visit counts.
pub open spec fn mean_beats(xq: int, xn: int, yq: int, yn: int) -> bool {
    xq * yn > yq * xn
}

/// `i` is the entry `best_action` must pick: no entry has a strictly
/// greater mean value, and `i` is the first entry with its mean.
pub open spec fn is_first_best_mean<A>(m: Seq<(A, int, int)>, i: int) -> bool {
    &&& 0 <= i < m.len()
    &&& forall|j: int|
        0 <= j < m.len() ==> !mean_beats((#[trigger] m[j]).2, m[j].1, m[i].2, m[i].1)
    &&& forall|j: int| 0 <= j < i ==> mean_beats(m[i].2, m[i].1, (#[trigger] m[j]).2, m[j].1)
}

/// Entry sanity: positive visit sums, value sums bounded by them.
pub open spec fn acc_wf<A>(m: Seq<(A, int, int)>) -> bool {
    forall|k: int|
        0 <= k < m.len() ==> 1 <= (#[trigger] m[k]).1 && -m[k].1 * (REWARD_LIMIT as int) <= m[k].2
            <= m[k].1 * (REWARD_LIMIT as int)
}

/// Total visit sum of the accumulator.
pub open spec fn acc_total<A>(m: Seq<(A, int, int)>) -> int
    decreases m.len(),
{
    if m.len() == 0 {
        0
    } else {
        m[0].1 + acc_total(m.drop_first())
    }
}

/// Visits of the children of the first `e` roots.
pub open spec fn processed_visits<A>(roots: Seq<TreeNode<A>>, e: int) -> int
    decreases e,
{
    if e <= 0 {
        0
    } else {
        processed_visits(roots, e - 1) + sum_visits(roots[e - 1].children@)
    }
}

/// `find_action` finds the first entry with the action, if any.
pub proof fn lemma_find_action_char<A>(m: Seq<(A, int, int)>, a: A)
    ensures
        find_action(m, a) == -1 ==> forall|j: int| 0 <= j < m.len() ==> (#[trigger] m[j]).0 != a,
        find_action(m, a) >= 0 ==> {
            let k = find_action(m, a);
            &&& 0 <= k < m.len()
            &&& m[k].0 == a
            &&& forall|j: int| 0 <= j < k ==> (#[trigger] m[j]).0 != a
        },
    decreases m.len(),
{
    if m.len() > 0 && m[0].0 != a {
        let rest = m.drop_first();
        lemma_find_action_char(rest, a);
        assert(forall|j: int| 0 <= j < rest.len() ==> rest[j] == m[j + 1]);
        if find_action(rest, a) == -1 {
            assert forall|j: int| 0 <= j < m.len() implies (#[trigger] m[j]).0 != a by {
                if j > 0 {
                    assert(m[j] == rest[j - 1]);
                }
            }
        } else {
            let k = find_action(m, a);
            assert(k == 1 + find_action(rest, a));
            assert(m[k] == rest[k - 1]);
            assert forall|j: int| 0 <= j < k implies (#[trigger] m[j]).0 != a by {
                if j > 0 {
                    assert(m[j] == rest[j - 1]);
                }
            }
        }
    }
}

/// Totals fold as expected under update and push.
pub proof fn lemma_acc_total_update<A>(m: Seq<(A, int, int)>, k: int, x: (A, int, int))
    requires
        0 <= k < m.len(),
    ensures
        acc_total(m.update(k, x)) == acc_total(m) - m[k].1 + x.1,
    decreases m.len(),
{
    let u = m.update(k, x);
    if k == 0 {
        assert(u.drop_first() =~= m.drop_first());
    } else {
        lemma_acc_total_update(m.drop_first(), k - 1, x);
        assert(u.drop_first() =~= m.drop_first().update(k - 1, x));
        assert(u[0] == m[0]);
        assert(m.drop_first()[k - 1] == m[k]);
    }
}

pub proof fn lemma_acc_total_push<A>(m: Seq<(A, int, int)>, x: (A, int, int))
    ensures
        acc_total(m.push(x)) == acc_total(m) + x.1,
    decreases m.len(),
{
    let p = m.push(x);
    if m.len() == 0 {
        assert(p[0] == x);
        assert(p.drop_first() =~= Seq::<(A, int, int)>::empty());
        assert(acc_total(p) == p[0].1 + acc_total(p.drop_first()));
        assert(acc_total(p.drop_first()) == 0);
    } else {
        lemma_acc_total_push(m.drop_first(), x);
        assert(p.drop_first() =~= m.drop_first().push(x));
        assert(p[0] == m[0]);
        assert(acc_total(p) == p[0].1 + acc_total(p.drop_first()));
        assert(acc_total(m) == m[0].1 + acc_total(m.drop_first()));
    }
}

/// Each entry's visit sum is at most the total.
pub proof fn lemma_acc_entry_le_total<A>(m: Seq<(A, int, int)>, k: int)
    requires
        0 <= k < m.len(),
        acc_wf(m),
    ensures
        m[k].1 <= acc_total(m),
        acc_total(m) >= 0,
    decreases m.len(),
{
    lemma_acc_total_nonneg(m.drop_first());
    if k > 0 {
        lemma_acc_entry_le_total(m.drop_first(), k - 1);
        assert(m.drop_first()[k - 1] == m[k]);
    }
}

pub proof fn lemma_acc_total_nonneg<A>(m: Seq<(A, int, int)>)
    requires
        forall|k: int| 0 <= k < m.len() ==> (#[trigger] m[k]).1 >= 0 || acc_wf(m),
    ensures
        acc_wf(m) ==> acc_total(m) >= 0,
    decreases m.len(),
{
    if m.len() > 0 && acc_wf(m) {
        assert(forall|j: int| 0 <= j < m.drop_first().len() ==> m.drop_first()[j] == m[j + 1]);
        lemma_acc_total_nonneg(m.drop_first());
    }
}

/// One `acc_add` preserves sanity and adds the child's visits.
pub proof fn lemma_acc_add_props<A>(m: Seq<(A, int, int)>, a: A, n: int, q: int)
    requires
        acc_wf(m),
        1 <= n,
        -n * (REWARD_LIMIT as int) <= q <= n * (REWARD_LIMIT as int),
    ensures
        acc_wf(acc_add(m, a, n, q)),
        acc_total(acc_add(m, a, n, q)) == acc_total(m) + n,
        acc_add(m, a, n, q).len() >= m.len(),
        acc_add(m, a, n, q).len() >= 1,
{
    lemma_find_action_char(m, a);
    let k = find_action(m, a);
    if k < 0 {
        lemma_acc_total_push(m, (a, n, q));
        assert(forall|j: int| 0 <= j < m.len() ==> m.push((a, n, q))[j] == m[j]);
        assert(m.push((a, n, q))[m.len() as int] == (a, n, q));
    } else {
        let x = (a, m[k].1 + n, m[k].2 + q);
        lemma_acc_total_update(m, k, x);
        assert(forall|j: int|
            0 <= j < m.len() && j != k ==> m.update(k, x)[j] == m[j]);
        assert(m.update(k, x)[k] == x);
        assert(-x.1 * (REWARD_LIMIT as int) <= x.2 <= x.1 * (REWARD_LIMIT as int))
            by (nonlinear_arith)
            requires
                x.1 == m[k].1 + n,
                x.2 == m[k].2 + q,
                -m[k].1 * (REWARD_LIMIT as int) <= m[k].2 <= m[k].1 * (REWARD_LIMIT as int),
                -n * (REWARD_LIMIT as int) <= q <= n * (REWARD_LIMIT as int),
        ;
    }
}

/// Visit sums over a prefix of children, one step at a time.
pub proof fn lemma_sum_visits_take_step<A>(s: Seq<TreeNode<A>>, j: int)
    requires
        0 <= j < s.len(),
    ensures
        sum_visits(s.take(j + 1)) == sum_visits(s.take(j)) + s[j].n,
    decreases j,
{
    if j == 0 {
        assert(s.take(1)[0] == s[0]);
        assert(s.take(1).drop_first() =~= Seq::<TreeNode<A>>::empty());
        assert(sum_visits(s.take(1)) == s[0].n + sum_visits(s.take(1).drop_first()));
        assert(sum_visits(s.take(1).drop_first()) == 0);
        assert(s.take(0).len() == 0);
        assert(sum_visits(s.take(0)) == 0);
    } else {
        lemma_sum_visits_take_step(s.drop_first(), j - 1);
        assert(s.take(j + 1).drop_first() =~= s.drop_first().take(j));
        assert(s.take(j).drop_first() =~= s.drop_first().take(j - 1));
        assert(s.take(j + 1)[0] == s[0]);
        assert(s.take(j)[0] == s[0]);
        assert(s.drop_first()[j - 1] == s[j]);
        assert(sum_visits(s.take(j + 1)) == s[0].n + sum_visits(s.take(j + 1).drop_first()));
        assert(sum_visits(s.take(j)) == s[0].n + sum_visits(s.take(j).drop_first()));
    }
}

/// The processed visits of `e` roots with `samples` visits each stay
/// within `e * samples`.
pub proof fn lemma_processed_visits_bound<A>(roots: Seq<TreeNode<A>>, e: int, samples: int)
    requires
        0 <= e <= roots.len(),
        0 <= samples,
        forall|k: int|
            0 <= k < roots.len() ==> sum_visits((#[trigger] roots[k]).children@) <= samples,
    ensures
        0 <= processed_visits(roots, e) <= e * samples,
    decreases e,
{
    if e > 0 {
        lemma_processed_visits_bound(roots, e - 1, samples);
        crate::node::lemma_sum_visits_nonneg(roots[e - 1].children@);
        assert((e - 1) * samples + samples == e * samples) by (nonlinear_arith);
    }
}

/// The accumulator is empty exactly when every folded root is childless.
pub proof fn lemma_merged_empty<A>(roots: Seq<TreeNode<A>>, e: int)
    requires
        0 <= e <= roots.len(),
    ensures
        acc_roots(roots, e).len() == 0 <==> forall|k: int|
            0 <= k < e ==> (#[trigger] roots[k]).children@.len() == 0,
    decreases e,
{
    if e > 0 {
        lemma_merged_empty(roots, e - 1);
        lemma_acc_children_len(
            acc_roots(roots, e - 1),
            roots[e - 1].children@,
            roots[e - 1].children@.len() as int,
        );
    }
}

/// Folding children never shrinks the accumulator, and leaves it
/// non-empty whenever a child was folded.
pub proof fn lemma_acc_children_len<A>(acc: Seq<(A, int, int)>, ch: Seq<TreeNode<A>>, j: int)
    requires
        0 <= j,
    ensures
        acc_children(acc, ch, j).len() >= acc.len(),
        j >= 1 ==> acc_children(acc, ch, j).len() >= 1,
    decreases j,
{
    if j > 0 {
        lemma_acc_children_len(acc, ch, j - 1);
        let prev = acc_children(acc, ch, j - 1);
        let a = ch[j - 1].action->0;
        lemma_find_action_char(prev, a);
    }
}

/// Strict mean order carries over weak order.
proof fn lemma_mean_order(xq: int, xn: int, yq: int, yn: int, zq: int, zn: int)
    requires
        1 <= xn,
        1 <= yn,
        1 <= zn,
        mean_beats(xq, xn, yq, yn),
        !mean_beats(zq, zn, yq, yn),
    ensures
        mean_beats(xq, xn, zq, zn),
{
    assert(xq * yn * zn > yq * xn * zn) by (nonlinear_arith)
        requires
            xq * yn > yq * xn,
            1 <= zn,
    ;
    assert(zq * yn * xn <= yq * zn * xn) by (nonlinear_arith)
        requires
            zq * yn <= yq * zn,
            1 <= xn,
    ;
    assert(yq * xn * zn == yq * zn * xn) by (nonlinear_arith);
    assert(zq * yn * xn < xq * yn * zn);
    assert(xq * zn > zq * xn) by (nonlinear_arith)
        requires
            zq * yn * xn < xq * yn * zn,
            1 <= yn,
    ;
}

/// Compare two entries' mean values; matches [`mean_beats`] exactly.
fn mean_beats_exec(aq: i64, an: u64, bq: i64, bn: u64) -> (r: bool)
    requires
        1 <= an <= VISIT_LIMIT,
        1 <= bn <= VISIT_LIMIT,
        -(an as int) * (REWARD_LIMIT as int) <= aq as int <= (an as int) * (REWARD_LIMIT as int),
        -(bn as int) * (REWARD_LIMIT as int) <= bq as int <= (bn as int) * (REWARD_LIMIT as int),
    ensures
        r == mean_beats(aq as int, an as int, bq as int, bn as int),
{
    proof {
        lemma_mean_product_bounded(aq as int, an as int, bn as int);
        lemma_mean_product_bounded(bq as int, bn as int, an as int);
    }
    (aq as i128) * (bn as i128) > (bq as i128) * (an as i128)
}

/// Cross products of bounded means stay far inside `i128`.
proof fn lemma_mean_product_bounded(q: int, n: int, m: int)
    requires
        1 <= n <= VISIT_LIMIT,
        1 <= m <= VISIT_LIMIT,
        -n * (REWARD_LIMIT as int) <= q <= n * (REWARD_LIMIT as int),
    ensures
        -0x100000000000000000000000 <= q * m <= 0x100000000000000000000000,
{
    assert(-0x4000000000000000 <= q <= 0x4000000000000000) by (nonlinear_arith)
        requires
            1 <= n <= 0x400000,
            -n * 0x10000000000 <= q <= n * 0x10000000000,
    ;
    assert(-0x100000000000000000000000 <= q * m <= 0x100000000000000000000000)
        by (nonlinear_arith)
        requires
            -0x4000000000000000 <= q <= 0x4000000000000000,
            1 <= m <= 0x400000,
    ;
}

/// Reset correctness: for an ensemble of `k >= 1` fresh childless roots —
/// exactly what `advance_game` and `new` leave behind — the summary that
/// `tree_statistics` reports is `{k + 1, 1, 1}`: the ensemble layer plus
/// `k` root nodes, each the whole of its own tree at depth zero.
pub proof fn lemma_reset_statistics<A>(roots: Seq<TreeNode<A>>)
    requires
        roots.len() >= 1,
        forall|e: int| 0 <= e < roots.len() ==> (#[trigger] roots[e]).children@.len() == 0,
    ensures
        1 + count_prefix(roots, roots.len() as int) == roots.len() + 1,
        1 + min_depth_prefix(roots, roots.len() as int) == 1,
        1 + max_depth_prefix(roots, roots.len() as int) == 1,
{
    lemma_flat_prefix(roots, roots.len() as int);
}

/// A prefix of the ensemble consumes no more than the whole budget.
proof fn lemma_total_budget(len: int, e1: int, samples: int)
    requires
        0 <= e1 <= len,
        0 <= samples,
        len * samples <= VISIT_LIMIT,
    ensures
        e1 * samples <= VISIT_LIMIT,
{
    assert(e1 * samples <= len * samples) by (nonlinear_arith)
        requires
            0 <= e1 <= len,
            0 <= samples,
    ;
}

/// With at least one member, the per-member budget is within the total.
proof fn lemma_ensemble_budget_member(len: int, per_member: int)
    requires
        1 <= len,
        len * per_member <= VISIT_LIMIT,
        0 <= per_member,
    ensures
        per_member <= VISIT_LIMIT,
{
    assert(per_member <= len * per_member) by (nonlinear_arith)
        requires
            1 <= len,
            0 <= per_member,
    ;
}

/// With at least one member, each member's visits fit the total budget.
proof fn lemma_ensemble_budget(len: int, samples: int)
    requires
        1 <= len,
        0 <= samples,
        len * samples <= VISIT_LIMIT,
    ensures
        samples + 1 <= VISIT_LIMIT + 1,
{
    assert(samples <= len * samples) by (nonlinear_arith)
        requires
            1 <= len,
            0 <= samples,
    ;
}

/// Fitting under the truncated quotient implies fitting the product.
proof fn lemma_budget_from_division(len: int, target: int)
    requires
        1 <= len,
        0 <= target,
        target <= (VISIT_LIMIT as int) / len,
    ensures
        len * target <= VISIT_LIMIT,
{
    assert(len * target <= len * ((VISIT_LIMIT as int) / len)) by (nonlinear_arith)
        requires
            1 <= len,
            0 <= target,
            target <= (VISIT_LIMIT as int) / len,
    ;
    assert(len * ((VISIT_LIMIT as int) / len) <= VISIT_LIMIT) by (nonlinear_arith)
        requires
            1 <= len,
    ;
}

/// The rate estimate stays inside its cap.
proof fn lemma_rate_bounded(samples_total: u64, time_spend: u64)
    requires
        samples_total <= VISIT_LIMIT,
        time_spend >= 1,
    ensures
        (samples_total * 1000) as int / (time_spend as int) <= 0x100000000,
{
    assert((samples_total * 1000) as int / (time_spend as int) <= samples_total * 1000)
        by (nonlinear_arith)
        requires
            time_spend >= 1,
            samples_total >= 0,
    ;
}

/// A truncated mean of bounded values is bounded the same way.
proof fn lemma_mean_bounded(sum: int, n: int)
    requires
        1 <= n,
        -n * (REWARD_LIMIT as int) <= sum <= n * (REWARD_LIMIT as int),
    ensures
        -REWARD_LIMIT <= div_trunc_spec(sum, n) <= REWARD_LIMIT,
{
    if sum >= 0 {
        assert(sum / n <= REWARD_LIMIT) by (nonlinear_arith)
            requires
                1 <= n,
                0 <= sum <= n * (REWARD_LIMIT as int),
        ;
        assert(sum / n >= 0) by (nonlinear_arith)
            requires
                1 <= n,
                0 <= sum,
        ;
    } else {
        assert((-sum) / n <= REWARD_LIMIT) by (nonlinear_arith)
            requires
                1 <= n,
                0 <= -sum <= n * (REWARD_LIMIT as int),
        ;
        assert((-sum) / n >= 0) by (nonlinear_arith)
            requires
                1 <= n,
                0 <= -sum,
        ;
    }
}

} // verus!
