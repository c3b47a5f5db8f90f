//! One vertex of the search tree: visit/value statistics, children and an
//! expansion state.
//!
//! The well-formedness invariant ties the accumulated value to the visit
//! count, keeps children's actions pairwise distinct, and keeps the sum of
//! the children's visits below the node's own — which is what bounds the
//! size of a tree by the number of iterations run on it.

use vstd::prelude::*;

use crate::fixedpoint::{isqrt, isqrt_spec, ln_fp, ln_fp_spec, SCALE};
use crate::game::{Game, GameAction, REWARD_LIMIT};
use crate::mcts::playout;
use crate::utils::{choose_random, Rng};
use crate::stats::{
    greatest_max_depth, least_min_depth, lemma_greatest_max_is_max, lemma_least_min_is_min,
    lemma_sum_nodes_drop_last, stats_wf, sum_nodes, TreeStatistics,
};

verus! {

/// Hard cap on the number of iterations one engine instance may run over
/// one ensemble; it keeps every statistic inside machine integers.
pub const VISIT_LIMIT: u64 = 0x400000;

/// Hard cap on the fixed-point exploration constant (`65536.0` in real
/// terms).
pub const C_LIMIT: u64 = 0x100000000;

/// The expansion state of a node.
#[derive(Debug, Copy, Clone, PartialEq, Eq, Structural)]
pub enum NodeState {
    LeafNode,
    FullyExpanded,
    Expandable,
}

/// One vertex of the search tree.
#[derive(Debug)]
pub struct TreeNode<A> {
    /// How we got here; `None` only at a root.
    pub action: Option<A>,
    /// Next steps we investigated, ordered by creation.
    pub children: Vec<TreeNode<A>>,
    /// Is this a leaf node?  Fully expanded?
    pub state: NodeState,
    /// Visit count.
    pub n: u64,
    /// Accumulated backpropagated value, in fixed-point units.
    pub q: i64,
}

/// Sum of the visit counts of a sequence of nodes.
pub open spec fn sum_visits<A>(s: Seq<TreeNode<A>>) -> int
    decreases s.len(),
{
    if s.len() == 0 {
        0
    } else {
        s[0].n + sum_visits(s.drop_first())
    }
}

impl<A> TreeNode<A> {
    /// The structural invariant of a search tree.
    pub open spec fn well_formed(self) -> bool
        decreases self,
    {
        &&& -(self.n as int) * (REWARD_LIMIT as int) <= self.q as int <= (self.n as int) * (
        REWARD_LIMIT as int)
        &&& (self.state == NodeState::LeafNode ==> self.children.len() == 0)
        &&& (self.state == NodeState::FullyExpanded ==> self.children.len() >= 1)
        &&& sum_visits(self.children@) <= self.n
        &&& forall|i: int|
            0 <= i < self.children.len() ==> (#[trigger] self.children@[i]).action is Some
        &&& forall|i: int|
            0 <= i < self.children.len() ==> (#[trigger] self.children@[i]).well_formed()
        &&& forall|i: int, j: int|
            #![trigger self.children@[i].action, self.children@[j].action]
            0 <= i < j < self.children.len() ==> self.children@[i].action != self.children@[j].action
    }

    /// Every node below `self` has been visited at least once.  This holds
    /// for every tree the engine builds; only a freshly expanded child
    /// breaks it for the instant before its first backpropagation.
    pub open spec fn positive_visits(self) -> bool
        decreases self,
    {
        forall|i: int|
            0 <= i < self.children.len() ==> (#[trigger] self.children@[i]).n >= 1
                && self.children@[i].positive_visits()
    }

    /// Number of nodes of the subtree rooted here.
    pub open spec fn node_count(self) -> int
        decreases self, 1int,
    {
        1 + count_prefix(self.children@, self.children@.len() as int)
    }

    /// A tree is compact when, at every node, it holds no more nodes than
    /// visits: the engine adds at most one node per iteration, so every
    /// tree it builds is compact.  (A standalone `expand` breaks this for
    /// the instant before the new child's first visit is recorded.)
    pub open spec fn compact(self) -> bool
        decreases self, 3int,
    {
        &&& self.node_count() <= self.n + 1
        &&& forall|i: int|
            0 <= i < self.children@.len() ==> (#[trigger] self.children@[i]).compact()
    }

    /// Length of a shortest root-to-leaf path of the subtree rooted here.
    pub open spec fn subtree_min_depth(self) -> int
        decreases self, 1int,
    {
        if self.children@.len() == 0 {
            0
        } else {
            1 + min_depth_prefix(self.children@, self.children@.len() as int)
        }
    }

    /// Length of a longest root-to-leaf path of the subtree rooted here.
    pub open spec fn subtree_max_depth(self) -> int
        decreases self, 1int,
    {
        if self.children@.len() == 0 {
            0
        } else {
            1 + max_depth_prefix(self.children@, self.children@.len() as int)
        }
    }
}

/// Total node count over the first `k` elements.
pub open spec fn count_prefix<A>(s: Seq<TreeNode<A>>, k: int) -> int
    decreases s, k,
{
    if k <= 0 || k > s.len() {
        0
    } else {
        count_prefix(s, k - 1) + s[k - 1].node_count()
    }
}

/// Least subtree min-depth over the first `k` elements (`k >= 1`).
pub open spec fn min_depth_prefix<A>(s: Seq<TreeNode<A>>, k: int) -> int
    decreases s, k,
{
    if k < 1 || k > s.len() {
        0
    } else if k == 1 {
        s[0].subtree_min_depth()
    } else {
        let rest = min_depth_prefix(s, k - 1);
        let cur = s[k - 1].subtree_min_depth();
        if cur < rest {
            cur
        } else {
            rest
        }
    }
}

/// Greatest subtree max-depth over the first `k` elements (`k >= 1`).
pub open spec fn max_depth_prefix<A>(s: Seq<TreeNode<A>>, k: int) -> int
    decreases s, k,
{
    if k < 1 || k > s.len() {
        0
    } else if k == 1 {
        s[0].subtree_max_depth()
    } else {
        let rest = max_depth_prefix(s, k - 1);
        let cur = s[k - 1].subtree_max_depth();
        if cur > rest {
            cur
        } else {
            rest
        }
    }
}

/// Depths are below node counts, and counts are positive.
pub proof fn lemma_count_depth_bounds<A>(t: TreeNode<A>)
    ensures
        t.node_count() >= 1,
        0 <= t.subtree_min_depth() <= t.subtree_max_depth() < t.node_count(),
    decreases t, 2int,
{
    lemma_prefix_bounds(t.children@, t.children@.len() as int);
    if t.children@.len() > 0 {
        let s = t.children@;
        let k = s.len() as int;
        lemma_min_prefix_is_min(s, k);
        lemma_max_prefix_is_max(s, k);
        let wmin = choose|i: int| 0 <= i < k && min_depth_prefix(s, k) == (#[trigger] s[i]).subtree_min_depth();
        let wmax = choose|i: int| 0 <= i < k && max_depth_prefix(s, k) == (#[trigger] s[i]).subtree_max_depth();
        lemma_count_depth_bounds(s[wmin]);
        lemma_count_depth_bounds(s[wmax]);
        lemma_count_prefix_element(s, k, wmax);
    }
}

/// Prefix counts are monotone and at least the number of elements counted.
pub proof fn lemma_prefix_bounds<A>(s: Seq<TreeNode<A>>, k: int)
    requires
        k <= s.len(),
    ensures
        count_prefix(s, k) >= if k >= 0 { k } else { 0 },
    decreases s, k,
{
    if k > 0 {
        lemma_prefix_bounds(s, k - 1);
        lemma_count_depth_bounds(s[k - 1]);
    }
}

/// Each counted element contributes no more than the whole prefix.
pub proof fn lemma_count_prefix_element<A>(s: Seq<TreeNode<A>>, k: int, i: int)
    requires
        0 <= i < k <= s.len(),
    ensures
        s[i].node_count() + (k - 1) <= count_prefix(s, k),
    decreases s, k,
{
    lemma_count_depth_bounds(s[k - 1]);
    if i == k - 1 {
        lemma_prefix_bounds(s, k - 1);
    } else {
        lemma_count_prefix_element(s, k - 1, i);
    }
}

/// The prefix minimum is a minimum.
pub proof fn lemma_min_prefix_is_min<A>(s: Seq<TreeNode<A>>, k: int)
    requires
        1 <= k <= s.len(),
    ensures
        forall|i: int| 0 <= i < k ==> min_depth_prefix(s, k) <= (#[trigger] s[i]).subtree_min_depth(),
        exists|i: int| 0 <= i < k && min_depth_prefix(s, k) == (#[trigger] s[i]).subtree_min_depth(),
    decreases k,
{
    if k == 1 {
        assert(min_depth_prefix(s, k) == s[0].subtree_min_depth());
    } else {
        lemma_min_prefix_is_min(s, k - 1);
        if s[k - 1].subtree_min_depth() < min_depth_prefix(s, k - 1) {
            assert(min_depth_prefix(s, k) == s[k - 1].subtree_min_depth());
        } else {
            let w = choose|i: int|
                0 <= i < k - 1 && min_depth_prefix(s, k - 1) == (#[trigger] s[i]).subtree_min_depth();
            assert(min_depth_prefix(s, k) == s[w].subtree_min_depth());
        }
    }
}

/// The prefix maximum is a maximum.
pub proof fn lemma_max_prefix_is_max<A>(s: Seq<TreeNode<A>>, k: int)
    requires
        1 <= k <= s.len(),
    ensures
        forall|i: int| 0 <= i < k ==> max_depth_prefix(s, k) >= (#[trigger] s[i]).subtree_max_depth(),
        exists|i: int| 0 <= i < k && max_depth_prefix(s, k) == (#[trigger] s[i]).subtree_max_depth(),
    decreases k,
{
    if k == 1 {
        assert(max_depth_prefix(s, k) == s[0].subtree_max_depth());
    } else {
        lemma_max_prefix_is_max(s, k - 1);
        if s[k - 1].subtree_max_depth() > max_depth_prefix(s, k - 1) {
            assert(max_depth_prefix(s, k) == s[k - 1].subtree_max_depth());
        } else {
            let w = choose|i: int|
                0 <= i < k - 1 && max_depth_prefix(s, k - 1) == (#[trigger] s[i]).subtree_max_depth();
            assert(max_depth_prefix(s, k) == s[w].subtree_max_depth());
        }
    }
}

impl<A: GameAction> TreeNode<A> {
    /// A node in its creation state.
    pub open spec fn is_fresh(self, action: Option<A>) -> bool {
        &&& self.action == action
        &&& self.children@.len() == 0
        &&& self.state == NodeState::Expandable
        &&& self.n == 0
        &&& self.q == 0
    }

    /// Create and initialize a new TreeNode.
    ///
    /// Initialize q and n to be zero, the children list to be empty and set
    /// the node state to Expandable.
    pub fn new(action: Option<A>) -> (r: TreeNode<A>)
        ensures
            r.is_fresh(action),
            r.well_formed(),
            r.positive_visits(),
    {
        TreeNode { action, children: Vec::new(), state: NodeState::Expandable, n: 0, q: 0 }
    }

    /// Gather some statistics about this subtree.
    pub fn tree_statistics(&self) -> (r: TreeStatistics)
        requires
            self.node_count() <= 0x7FFFFFFF,
        ensures
            r.nodes == self.node_count(),
            r.min_depth == self.subtree_min_depth(),
            r.max_depth == self.subtree_max_depth(),
            stats_wf(r),
        decreases *self,
    {
        proof {
            lemma_count_depth_bounds(*self);
        }
        let mut child_stats: Vec<TreeStatistics> = Vec::new();
        let n_children = self.children.len();
        let mut i: usize = 0;
        while i < n_children
            invariant
                n_children == self.children@.len(),
                self.node_count() <= 0x7FFFFFFF,
                0 <= i <= n_children,
                child_stats@.len() == i,
                forall|j: int|
                    0 <= j < i ==> {
                        let cs = #[trigger] child_stats@[j];
                        &&& cs.nodes == self.children@[j].node_count()
                        &&& cs.min_depth == self.children@[j].subtree_min_depth()
                        &&& cs.max_depth == self.children@[j].subtree_max_depth()
                        &&& stats_wf(cs)
                    },
                sum_nodes(child_stats@) == count_prefix(self.children@, i as int),
            decreases n_children - i,
        {
            proof {
                lemma_count_prefix_element(self.children@, self.children@.len() as int, i as int);
                lemma_prefix_bounds(self.children@, self.children@.len() as int);
                assert(decreases_to!(*self => self.children));
                assert(decreases_to!(self.children => self.children@));
                assert(decreases_to!(self.children@ => self.children@[i as int]));
            }
            let s = self.children[i].tree_statistics();
            let ghost prev = child_stats@;
            child_stats.push(s);
            proof {
                lemma_sum_nodes_drop_last(child_stats@);
                assert(child_stats@.drop_last() =~= prev);
                assert(child_stats@.last() == s);
            }
            i = i + 1;
        }
        proof {
            lemma_bridge_statistics(self.children@, child_stats@);
        }
        TreeStatistics::merge(child_stats)
    }
}

/// The exploration numerator of the UCT1 score of a child: the fixed-point
/// value of `c * sqrt(2 * ln(parent_n) / child_n)`, carrying two factors of
/// [`SCALE`].
pub open spec fn explore_num(c: u64, parent_n: u64, child_n: u64) -> int {
    c * isqrt_spec((2 * ln_fp_spec(parent_n as nat) * (SCALE as int) / (child_n as int)) as nat)
}

/// Whether child `a` scores strictly higher than child `b` under UCT1 with
/// exploration constant `c` at a parent with `parent_n` visits.
///
/// Both sides are the two children's scores multiplied by
/// `a_n * b_n * SCALE^2`, so the exploitation terms `q/n` are compared as
/// exact rationals; only the exploration term goes through the fixed-point
/// square root and logarithm.
pub open spec fn uct_beats(
    c: u64,
    parent_n: u64,
    aq: i64,
    an: u64,
    bq: i64,
    bn: u64,
) -> bool {
    (aq as int) * (SCALE as int) * (bn as int) + explore_num(c, parent_n, an) * (an as int) * (
    bn as int) > (bq as int) * (SCALE as int) * (an as int) + explore_num(c, parent_n, bn) * (
    an as int) * (bn as int)
}

/// `i` is the index `best_child` must return: no child scores strictly
/// higher, and `i` is the first child with its score.
pub open spec fn is_first_best<A>(ch: Seq<TreeNode<A>>, c: u64, parent_n: u64, i: int) -> bool {
    &&& 0 <= i < ch.len()
    &&& forall|j: int|
        0 <= j < ch.len() ==> !uct_beats(
            c,
            parent_n,
            (#[trigger] ch[j]).q,
            ch[j].n,
            ch[i].q,
            ch[i].n,
        )
    &&& forall|j: int|
        0 <= j < i ==> uct_beats(c, parent_n, ch[i].q, ch[i].n, (#[trigger] ch[j]).q, ch[j].n)
}

/// Exploration part of a score, executable; at most `2^52`.
fn explore_part(c: u64, parent_n: u64, child_n: u64) -> (e: u64)
    requires
        1 <= parent_n,
        1 <= child_n,
        c <= C_LIMIT,
    ensures
        e == explore_num(c, parent_n, child_n),
        e <= 0x10000000000000,
{
    let lnv = ln_fp(parent_n);
    let num = 2 * lnv * SCALE;
    let t = num / child_n;
    proof {
        assert(num <= 0x58B9000000u64) by (nonlinear_arith)
            requires
                lnv <= 2907264,
                num == 2 * lnv * 65536,
        ;
        assert(t <= num) by (nonlinear_arith)
            requires
                child_n >= 1,
                t == (num as int) / (child_n as int),
        ;
    }
    let r = isqrt(t);
    proof {
        assert(r <= 0xFFFFF) by (nonlinear_arith)
            requires
                r * r <= t,
                t <= 0x58B9000000u64,
        ;
        assert(c * r <= 0x10000000000000) by (nonlinear_arith)
            requires
                c <= 0x100000000u64,
                r <= 0xFFFFF,
        ;
    }
    c * r
}

/// Compare two children's UCT1 scores; matches [`uct_beats`] exactly.
fn uct_beats_exec(c: u64, parent_n: u64, aq: i64, an: u64, bq: i64, bn: u64) -> (r: bool)
    requires
        1 <= parent_n,
        1 <= an <= VISIT_LIMIT,
        1 <= bn <= VISIT_LIMIT,
        -(an as int) * (REWARD_LIMIT as int) <= aq as int <= (an as int) * (REWARD_LIMIT as int),
        -(bn as int) * (REWARD_LIMIT as int) <= bq as int <= (bn as int) * (REWARD_LIMIT as int),
        c <= C_LIMIT,
    ensures
        r == uct_beats(c, parent_n, aq, an, bq, bn),
{
    let ea = explore_part(c, parent_n, an);
    let eb = explore_part(c, parent_n, bn);
    proof {
        lemma_q_scale_bound(aq as int, an as int, bn as int);
        lemma_q_scale_bound(bq as int, bn as int, an as int);
        lemma_e_prod_bound(ea as int, an as int, bn as int);
        lemma_e_prod_bound(eb as int, an as int, bn as int);
    }
    let lhs = (aq as i128) * (SCALE as i128) * (bn as i128) + (ea as i128) * (an as i128) * (
    bn as i128);
    let rhs = (bq as i128) * (SCALE as i128) * (an as i128) + (eb as i128) * (an as i128) * (
    bn as i128);
    lhs > rhs
}

/// The exploitation products of a score comparison stay far inside `i128`.
proof fn lemma_q_scale_bound(q: int, n: int, m: int)
    requires
        1 <= n <= VISIT_LIMIT,
        1 <= m <= VISIT_LIMIT,
        -n * (REWARD_LIMIT as int) <= q <= n * (REWARD_LIMIT as int),
    ensures
        -0x100000000000000000000000000 <= q * (SCALE as int) <= 0x100000000000000000000000000,
        -0x100000000000000000000000000 <= q * (SCALE as int) * m <= 0x100000000000000000000000000,
{
    assert(-0x4000000000000000 <= q <= 0x4000000000000000) by (nonlinear_arith)
        requires
            1 <= n <= 0x400000,
            -n * 0x10000000000 <= q <= n * 0x10000000000,
    ;
    assert(-0x40000000000000000000 <= q * 0x10000 <= 0x40000000000000000000);
    assert(-0x100000000000000000000000000 <= q * 0x10000 * m <= 0x100000000000000000000000000)
        by (nonlinear_arith)
        requires
            -0x40000000000000000000 <= q * 0x10000 <= 0x40000000000000000000,
            1 <= m <= 0x400000,
    ;
}

/// The exploration products of a score comparison stay far inside `i128`.
proof fn lemma_e_prod_bound(e: int, n: int, m: int)
    requires
        1 <= n <= VISIT_LIMIT,
        1 <= m <= VISIT_LIMIT,
        0 <= e <= 0x10000000000000,
    ensures
        0 <= e * n <= 0x4000000000000000000,
        0 <= e * n * m <= 0x100000000000000000000000000,
{
    assert(0 <= e * n <= 0x4000000000000000000) by (nonlinear_arith)
        requires
            0 <= e <= 0x10000000000000,
            1 <= n <= 0x400000,
    ;
    assert(0 <= e * n * m <= 0x100000000000000000000000000) by (nonlinear_arith)
        requires
            0 <= e * n <= 0x4000000000000000000,
            1 <= m <= 0x400000,
    ;
}

/// Each element's visits are at most the sum over the sequence.
pub proof fn lemma_sum_visits_element<A>(s: Seq<TreeNode<A>>, i: int)
    requires
        0 <= i < s.len(),
    ensures
        sum_visits(s) >= s[i].n,
        sum_visits(s) >= 0,
    decreases s.len(),
{
    lemma_sum_visits_nonneg(s.drop_first());
    if i > 0 {
        lemma_sum_visits_element(s.drop_first(), i - 1);
        assert(s.drop_first()[i - 1] == s[i]);
    }
}

pub proof fn lemma_sum_visits_nonneg<A>(s: Seq<TreeNode<A>>)
    ensures
        sum_visits(s) >= 0,
    decreases s.len(),
{
    if s.len() > 0 {
        lemma_sum_visits_nonneg(s.drop_first());
    }
}

/// Strict score order carries over weak order: if `x` beats `y` and `z`
/// does not beat `y`, then `x` beats `z`.
proof fn lemma_uct_order(
    c: u64,
    parent_n: u64,
    xq: i64,
    xn: u64,
    yq: i64,
    yn: u64,
    zq: i64,
    zn: u64,
)
    requires
        1 <= xn,
        1 <= yn,
        1 <= zn,
        uct_beats(c, parent_n, xq, xn, yq, yn),
        !uct_beats(c, parent_n, zq, zn, yq, yn),
    ensures
        uct_beats(c, parent_n, xq, xn, zq, zn),
{
    let s = SCALE as int;
    let ex = explore_num(c, parent_n, xn);
    let ey = explore_num(c, parent_n, yn);
    let ez = explore_num(c, parent_n, zn);
    let ax = xq * s + ex * xn;
    let ay = yq * s + ey * yn;
    let az = zq * s + ez * zn;
    assert(ax * yn > ay * xn) by (nonlinear_arith)
        requires
            ax == xq * s + ex * xn,
            ay == yq * s + ey * yn,
            xq * s * yn + ex * xn * yn > yq * s * xn + ey * xn * yn,
    ;
    assert(az * yn <= ay * zn) by (nonlinear_arith)
        requires
            az == zq * s + ez * zn,
            ay == yq * s + ey * yn,
            !(zq * s * yn + ez * zn * yn > yq * s * zn + ey * zn * yn),
    ;
    assert(ax * yn * zn > ay * xn * zn) by (nonlinear_arith)
        requires
            ax * yn > ay * xn,
            1 <= zn,
    ;
    assert(az * yn * xn <= ay * zn * xn) by (nonlinear_arith)
        requires
            az * yn <= ay * zn,
            1 <= xn,
    ;
    assert(ay * xn * zn == ay * zn * xn) by (nonlinear_arith);
    assert(az * yn * xn < ax * yn * zn);
    assert(ax * zn > az * xn) by (nonlinear_arith)
        requires
            az * yn * xn < ax * yn * zn,
            1 <= yn,
    ;
    assert(xq * s * zn + ex * xn * zn > zq * s * xn + ez * zn * xn) by (nonlinear_arith)
        requires
            ax == xq * s + ex * xn,
            az == zq * s + ez * zn,
            ax * zn > az * xn,
    ;
    assert(ez * zn * xn == ez * xn * zn) by (nonlinear_arith);
}

/// Strict score order is asymmetric.
proof fn lemma_uct_asym(
    c: u64,
    parent_n: u64,
    aq: i64,
    an: u64,
    bq: i64,
    bn: u64,
)
    requires
        uct_beats(c, parent_n, aq, an, bq, bn),
    ensures
        !uct_beats(c, parent_n, bq, bn, aq, an),
{
    let s = SCALE as int;
    let ea = explore_num(c, parent_n, an);
    let eb = explore_num(c, parent_n, bn);
    assert(!(bq * s * an + eb * bn * an > aq * s * bn + ea * bn * an)) by (nonlinear_arith)
        requires
            aq * s * bn + ea * an * bn > bq * s * an + eb * an * bn,
    ;
}

impl<A: GameAction> TreeNode<A> {
    /// Find the best child according to UCT1.
    ///
    /// Scores are compared as exact rationals over the fixed-point
    /// exploration term; ties resolve to the first child in creation order.
    /// A childless node yields no result.
    pub fn best_child(&self, c: u64) -> (r: Option<usize>)
        requires
            self.well_formed(),
            self.positive_visits(),
            self.n <= VISIT_LIMIT,
            c <= C_LIMIT,
        ensures
            match r {
                Option::None => self.children.len() == 0,
                Option::Some(i) => is_first_best(self.children@, c, self.n, i as int),
            },
    {
        if self.children.len() == 0 {
            return None;
        }
        proof {
            lemma_sum_visits_element(self.children@, 0);
        }
        let mut best: usize = 0;
        let mut idx: usize = 1;
        while idx < self.children.len()
            invariant
                self.well_formed(),
                self.positive_visits(),
                self.n <= VISIT_LIMIT,
                c <= C_LIMIT,
                1 <= self.n,
                0 <= best < idx <= self.children@.len(),
                forall|j: int|
                    0 <= j < idx ==> !uct_beats(
                        c,
                        self.n,
                        (#[trigger] self.children@[j]).q,
                        self.children@[j].n,
                        self.children@[best as int].q,
                        self.children@[best as int].n,
                    ),
                forall|j: int|
                    0 <= j < best ==> uct_beats(
                        c,
                        self.n,
                        self.children@[best as int].q,
                        self.children@[best as int].n,
                        (#[trigger] self.children@[j]).q,
                        self.children@[j].n,
                    ),
            decreases self.children@.len() - idx,
        {
            proof {
                lemma_sum_visits_element(self.children@, idx as int);
                lemma_sum_visits_element(self.children@, best as int);
                assert(self.children@[idx as int].well_formed());
                assert(self.children@[best as int].well_formed());
                assert(self.children@[idx as int].n >= 1);
                assert(self.children@[best as int].n >= 1);
            }
            let cand = &self.children[idx];
            let cur = &self.children[best];
            if uct_beats_exec(c, self.n, cand.q, cand.n, cur.q, cur.n) {
                proof {
                    let ch = self.children@;
                    assert forall|j: int| 0 <= j < idx implies uct_beats(
                        c,
                        self.n,
                        ch[idx as int].q,
                        ch[idx as int].n,
                        (#[trigger] ch[j]).q,
                        ch[j].n,
                    ) by {
                        lemma_uct_order(
                            c,
                            self.n,
                            ch[idx as int].q,
                            ch[idx as int].n,
                            ch[best as int].q,
                            ch[best as int].n,
                            ch[j].q,
                            ch[j].n,
                        );
                    }
                    assert forall|j: int| 0 <= j < idx implies !uct_beats(
                        c,
                        self.n,
                        (#[trigger] ch[j]).q,
                        ch[j].n,
                        ch[idx as int].q,
                        ch[idx as int].n,
                    ) by {
                        lemma_uct_asym(
                            c,
                            self.n,
                            ch[idx as int].q,
                            ch[idx as int].n,
                            ch[j].q,
                            ch[j].n,
                        );
                    }
                }
                best = idx;
            } else {
                proof {
                    let ch = self.children@;
                    assert forall|j: int| 0 <= j <= idx implies !uct_beats(
                        c,
                        self.n,
                        (#[trigger] ch[j]).q,
                        ch[j].n,
                        ch[best as int].q,
                        ch[best as int].n,
                    ) by {}
                }
            }
            idx = idx + 1;
        }
        Some(best)
    }
}

/// How one search iteration may change a tree: actions never change,
/// children are only appended, visit counts never shrink, and a node's
/// state may move away from `Expandable` but never back — once a node has
/// left `Expandable` it keeps its state forever.
pub open spec fn evolves<A>(a: TreeNode<A>, b: TreeNode<A>) -> bool
    decreases a,
{
    &&& b.action == a.action
    &&& (a.state == b.state || a.state == NodeState::Expandable)
    &&& a.n <= b.n
    &&& a.children@.len() <= b.children@.len()
    &&& forall|i: int|
        0 <= i < a.children@.len() ==> evolves(#[trigger] a.children@[i], b.children@[i])
}

/// A tree evolves into itself.
pub proof fn lemma_evolves_reflexive<A>(a: TreeNode<A>)
    ensures
        evolves(a, a),
    decreases a,
{
    assert forall|i: int| 0 <= i < a.children@.len() implies evolves(
        #[trigger] a.children@[i],
        a.children@[i],
    ) by {
        lemma_evolves_reflexive(a.children@[i]);
    }
}

/// Evolution composes: whatever holds of one iteration holds of a whole
/// search.  In particular a node passes `Expandable -> {FullyExpanded |
/// LeafNode}` at most once over any run, and never reverts.
pub proof fn lemma_evolves_transitive<A>(a: TreeNode<A>, b: TreeNode<A>, c: TreeNode<A>)
    requires
        evolves(a, b),
        evolves(b, c),
    ensures
        evolves(a, c),
    decreases a,
{
    assert forall|i: int| 0 <= i < a.children@.len() implies evolves(
        #[trigger] a.children@[i],
        c.children@[i],
    ) by {
        lemma_evolves_transitive(a.children@[i], b.children@[i], c.children@[i]);
    }
}

/// A node that has left `Expandable` keeps its state under evolution.
pub proof fn lemma_state_monotone<A>(a: TreeNode<A>, b: TreeNode<A>)
    requires
        evolves(a, b),
        a.state != NodeState::Expandable,
    ensures
        b.state == a.state,
{
}

/// Some node of `s` carries the action `a`.
pub open spec fn has_action<A>(s: Seq<TreeNode<A>>, a: A) -> bool {
    exists|i: int| 0 <= i < s.len() && (#[trigger] s[i]).action == Some(a)
}

/// The actions of `allowed` not yet represented among the nodes `ch`, in
/// order (duplicates kept, as the caller handed them over).
pub open spec fn untried<A>(allowed: Seq<A>, ch: Seq<TreeNode<A>>) -> Seq<A>
    decreases allowed.len(),
{
    if allowed.len() == 0 {
        Seq::empty()
    } else {
        let rest = untried(allowed.drop_last(), ch);
        if !has_action(ch, allowed.last()) {
            rest.push(allowed.last())
        } else {
            rest
        }
    }
}

/// Every untried action is allowed and not yet represented.
pub proof fn lemma_untried_elements<A>(allowed: Seq<A>, ch: Seq<TreeNode<A>>)
    ensures
        forall|k: int|
            0 <= k < untried(allowed, ch).len() ==> allowed.contains(
                #[trigger] untried(allowed, ch)[k],
            ) && !has_action(ch, untried(allowed, ch)[k]),
    decreases allowed.len(),
{
    if allowed.len() > 0 {
        let dl = allowed.drop_last();
        let rest = untried(dl, ch);
        let u = untried(allowed, ch);
        lemma_untried_elements(dl, ch);
        assert(forall|k: int| 0 <= k < dl.len() ==> dl[k] == allowed[k]);
        assert forall|k: int| 0 <= k < u.len() implies allowed.contains(#[trigger] u[k])
            && !has_action(ch, u[k]) by {
            if k < rest.len() {
                assert(u[k] == rest[k]);
                assert(dl.contains(rest[k]));
                let w = choose|j: int| 0 <= j < dl.len() && dl[j] == rest[k];
                assert(allowed[w] == rest[k]);
                assert(allowed.contains(u[k]));
            } else {
                assert(!has_action(ch, allowed.last()));
                assert(u[k] == allowed.last());
                assert(allowed[allowed.len() - 1] == allowed.last());
                assert(allowed.contains(u[k]));
            }
        }
    }
}

/// If nothing is untried but something is allowed, some node already
/// carries an action, so there is at least one child.
pub proof fn lemma_untried_empty_nonempty_children<A>(allowed: Seq<A>, ch: Seq<TreeNode<A>>)
    requires
        untried(allowed, ch).len() == 0,
        allowed.len() > 0,
    ensures
        ch.len() > 0,
        forall|k: int| 0 <= k < allowed.len() ==> has_action(ch, #[trigger] allowed[k]),
    decreases allowed.len(),
{
    assert(has_action(ch, allowed.last()));
    if allowed.len() > 1 {
        lemma_untried_empty_nonempty_children(allowed.drop_last(), ch);
        assert(forall|k: int|
            0 <= k < allowed.len() - 1 ==> allowed[k] == allowed.drop_last()[k]);
    }
}

/// `untried` over a prefix, extended by one element.
pub proof fn lemma_untried_take_step<A>(allowed: Seq<A>, ch: Seq<TreeNode<A>>, i: int)
    requires
        0 <= i < allowed.len(),
    ensures
        untried(allowed.take(i + 1), ch) == if !has_action(ch, allowed[i]) {
            untried(allowed.take(i), ch).push(allowed[i])
        } else {
            untried(allowed.take(i), ch)
        },
{
    assert(allowed.take(i + 1).drop_last() =~= allowed.take(i));
    assert(allowed.take(i + 1).last() == allowed[i]);
}

/// Appending a fresh node leaves the visit sum plus its own visits.
pub proof fn lemma_sum_visits_push<A>(s: Seq<TreeNode<A>>, x: TreeNode<A>)
    ensures
        sum_visits(s.push(x)) == sum_visits(s) + x.n,
    decreases s.len(),
{
    let p = s.push(x);
    if s.len() == 0 {
        assert(p[0] == x);
        assert(p.drop_first() =~= Seq::<TreeNode<A>>::empty());
        assert(sum_visits(p) == x.n + sum_visits(p.drop_first()));
        assert(sum_visits(p.drop_first()) == 0);
    } else {
        lemma_sum_visits_push(s.drop_first(), x);
        assert(p.drop_first() =~= s.drop_first().push(x));
        assert(p[0] == s[0]);
        assert(sum_visits(p) == p[0].n + sum_visits(p.drop_first()));
        assert(sum_visits(s) == s[0].n + sum_visits(s.drop_first()));
    }
}

impl<A: GameAction> TreeNode<A> {
    /// Whether some child carries the action `a`.
    fn contains_action(children: &Vec<TreeNode<A>>, a: &A) -> (r: bool)
        ensures
            r == has_action(children@, *a),
    {
        let mut i: usize = 0;
        while i < children.len()
            invariant
                0 <= i <= children@.len(),
                forall|j: int| 0 <= j < i ==> (#[trigger] children@[j]).action != Some(*a),
            decreases children@.len() - i,
        {
            match &children[i].action {
                Option::Some(b) => {
                    if b.eq_action(a) {
                        return true;
                    }
                },
                Option::None => {},
            }
            i = i + 1;
        }
        false
    }

    /// Add a child to the current node with a previously unexplored action.
    ///
    /// If the state as advanced to this node allows no action at all, the
    /// node is marked a leaf (or, defensively, fully expanded if children
    /// from earlier determinizations exist) and nothing is created.  If all
    /// allowed actions are already represented — possible only when a
    /// stochastic game replays differently — the node is marked fully
    /// expanded and nothing is created.  Otherwise one untried action is
    /// chosen uniformly at random (not the first one: a fixed exploration
    /// order would bias early search), a zero-initialized child is appended
    /// for it, and the node is marked fully expanded exactly when that
    /// candidate was the last untried one.
    pub fn expand<G: Game<A>>(&mut self, game: &G, rng: &mut Rng) -> (r: Option<usize>)
        requires
            old(self).well_formed(),
            old(self).state == NodeState::Expandable,
        ensures
            final(self).well_formed(),
            evolves(*old(self), *final(self)),
            final(self).n == old(self).n,
            final(self).q == old(self).q,
            final(self).action == old(self).action,
            match r {
                Option::None => {
                    &&& final(self).children@ == old(self).children@
                    &&& (final(self).state == NodeState::LeafNode <==> (game.actions_spec().len()
                        == 0 && old(self).children@.len() == 0))
                    &&& (final(self).state == NodeState::LeafNode || final(self).state
                        == NodeState::FullyExpanded)
                    &&& (game.actions_spec().len() > 0 ==> untried(
                        game.actions_spec(),
                        old(self).children@,
                    ).len() == 0)
                },
                Option::Some(i) => {
                    let child = final(self).children@[i as int];
                    &&& i as int == old(self).children@.len()
                    &&& final(self).children@ == old(self).children@.push(child)
                    &&& child.is_fresh(child.action)
                    &&& child.action is Some
                    &&& game.actions_spec().contains(child.action->0)
                    &&& !has_action(old(self).children@, child.action->0)
                    &&& (final(self).state == NodeState::FullyExpanded <==> untried(
                        game.actions_spec(),
                        old(self).children@,
                    ).len() == 1)
                    &&& (final(self).state == NodeState::Expandable <==> untried(
                        game.actions_spec(),
                        old(self).children@,
                    ).len() > 1)
                },
            },
    {
        let allowed = game.allowed_actions();
        if allowed.len() == 0 {
            if self.children.len() == 0 {
                self.state = NodeState::LeafNode;
            } else {
                self.state = NodeState::FullyExpanded;
            }
            proof {
                lemma_evolves_reflexive(*old(self));
            }
            return None;
        }
        let mut candidates: Vec<A> = Vec::new();
        let mut i: usize = 0;
        proof {
            assert(allowed@.take(0) =~= Seq::<A>::empty());
        }
        while i < allowed.len()
            invariant
                0 <= i <= allowed@.len(),
                candidates@ == untried(allowed@.take(i as int), self.children@),
                *self == *old(self),
            decreases allowed@.len() - i,
        {
            let inside = Self::contains_action(&self.children, &allowed[i]);
            proof {
                lemma_untried_take_step(allowed@, self.children@, i as int);
            }
            if !inside {
                candidates.push(allowed[i]);
            }
            i = i + 1;
        }
        proof {
            assert(allowed@.take(allowed@.len() as int) =~= allowed@);
            lemma_untried_elements(allowed@, self.children@);
        }
        if candidates.len() == 0 {
            proof {
                lemma_untried_empty_nonempty_children(allowed@, self.children@);
            }
            self.state = NodeState::FullyExpanded;
            proof {
                lemma_evolves_reflexive(*old(self));
            }
            return None;
        }
        if candidates.len() == 1 {
            self.state = NodeState::FullyExpanded;
        }
        let action = *choose_random(rng, &candidates);
        let child = TreeNode::new(Some(action));
        proof {
            lemma_sum_visits_push(self.children@, child);
        }
        self.children.push(child);
        proof {
            let pre = *old(self);
            let post = *self;
            let k = pre.children@.len() as int;
            assert(post.children@[k] == child);
            assert(forall|j: int| 0 <= j < k ==> post.children@[j] == pre.children@[j]);
            assert forall|j: int| 0 <= j < k implies evolves(
                #[trigger] pre.children@[j],
                post.children@[j],
            ) by {
                lemma_evolves_reflexive(pre.children@[j]);
            }
            assert(post.well_formed()) by {
                assert(forall|j: int|
                    0 <= j < k ==> (#[trigger] post.children@[j]).well_formed()
                        && post.children@[j].action is Some);
                assert(forall|j: int|
                    0 <= j < k ==> (#[trigger] post.children@[j]).action != Some(action));
            }
        }
        Some(self.children.len() - 1)
    }
}

/// A prefix count with per-element bound `b` is at most `k * b`.
pub proof fn lemma_count_prefix_upper<A>(s: Seq<TreeNode<A>>, k: int, b: int)
    requires
        0 <= k <= s.len(),
        0 <= b,
        forall|j: int| 0 <= j < k ==> (#[trigger] s[j]).node_count() <= b,
    ensures
        count_prefix(s, k) <= k * b,
    decreases k,
{
    if k > 0 {
        lemma_count_prefix_upper(s, k - 1, b);
        assert((k - 1) * b + b == k * b) by (nonlinear_arith);
    }
}

/// Prefix counts only look at the elements below `k`.
pub proof fn lemma_count_prefix_same<A>(s: Seq<TreeNode<A>>, u: Seq<TreeNode<A>>, k: int)
    requires
        k <= s.len(),
        k <= u.len(),
        forall|j: int| 0 <= j < k ==> s[j] == u[j],
    ensures
        count_prefix(s, k) == count_prefix(u, k),
    decreases k,
{
    if k > 0 {
        lemma_count_prefix_same(s, u, k - 1);
    }
}

/// Replacing one node changes the prefix count by the difference.
pub proof fn lemma_count_prefix_update<A>(s: Seq<TreeNode<A>>, k: int, i: int, x: TreeNode<A>)
    requires
        0 <= i < k <= s.len(),
    ensures
        count_prefix(s.update(i, x), k) == count_prefix(s, k) - s[i].node_count()
            + x.node_count(),
    decreases k,
{
    let u = s.update(i, x);
    if i == k - 1 {
        lemma_count_prefix_same(s, u, k - 1);
        assert(u[k - 1] == x);
    } else {
        lemma_count_prefix_update(s, k - 1, i, x);
        assert(u[k - 1] == s[k - 1]);
    }
}

/// Appending a node adds its count to the full prefix count.
pub proof fn lemma_count_prefix_push<A>(s: Seq<TreeNode<A>>, x: TreeNode<A>)
    ensures
        count_prefix(s.push(x), s.len() as int + 1) == count_prefix(s, s.len() as int)
            + x.node_count(),
{
    lemma_count_prefix_same(s, s.push(x), s.len() as int);
    assert(s.push(x)[s.len() as int] == x);
}

/// Replacing one node changes the visit sum by the difference.
pub proof fn lemma_sum_visits_update<A>(s: Seq<TreeNode<A>>, i: int, x: TreeNode<A>)
    requires
        0 <= i < s.len(),
    ensures
        sum_visits(s.update(i, x)) == sum_visits(s) - s[i].n + x.n,
    decreases s.len(),
{
    let u = s.update(i, x);
    if i == 0 {
        assert(u[0] == x);
        assert(u.drop_first() =~= s.drop_first());
        assert(sum_visits(u) == x.n + sum_visits(u.drop_first()));
        assert(sum_visits(s) == s[0].n + sum_visits(s.drop_first()));
    } else {
        lemma_sum_visits_update(s.drop_first(), i - 1, x);
        assert(u.drop_first() =~= s.drop_first().update(i - 1, x));
        assert(u[0] == s[0]);
        assert(s.drop_first()[i - 1] == s[i]);
        assert(sum_visits(u) == u[0].n + sum_visits(u.drop_first()));
        assert(sum_visits(s) == s[0].n + sum_visits(s.drop_first()));
    }
}

impl<A: GameAction> TreeNode<A> {
    /// Recursively perform one MCTS iteration: descend by best child while
    /// fully expanded, expand one child where expandable, simulate by a
    /// random playout, and backpropagate the resulting reward along the
    /// call-return chain, incrementing every visited node's statistics.
    ///
    /// The game state is advanced destructively along the descent path.
    /// The branch clauses below pin each level exactly — a leaf changes no
    /// child, a fully expanded node changes exactly its first best child,
    /// an expandable node at most appends one — so, applied level by
    /// level, they confine every change to a single root-to-leaf path.
    pub fn iteration<G: Game<A>>(&mut self, game: &mut G, c: u64, rng: &mut Rng) -> (delta: i64)
        requires
            old(self).well_formed(),
            old(self).positive_visits(),
            old(self).compact(),
            old(self).n < VISIT_LIMIT,
            c <= C_LIMIT,
        ensures
            final(self).well_formed(),
            final(self).positive_visits(),
            final(self).compact(),
            evolves(*old(self), *final(self)),
            final(self).n == old(self).n + 1,
            final(self).q == old(self).q + delta,
            final(self).children@.len() >= old(self).children@.len(),
            final(self).node_count() <= old(self).node_count() + 1,
            -REWARD_LIMIT <= delta <= REWARD_LIMIT,
            // A leaf rewards the current state: no child changes and the
            // game is left untouched.
            old(self).state == NodeState::LeafNode ==> final(self).children@ == old(
                self,
            ).children@ && *final(game) == *old(game) && delta == old(game).reward_spec(),
            // An expandable node with nothing left to try behaves the same
            // way (it only changes its state).
            old(self).state == NodeState::Expandable && untried(
                old(game).actions_spec(),
                old(self).children@,
            ).len() == 0 ==> final(self).children@ == old(self).children@ && *final(game) == *old(
                game,
            ) && delta == old(game).reward_spec(),
            // An expandable node with an untried action appends exactly one
            // child, for an allowed action no sibling carries, and records
            // the child's first visit with the returned delta.
            old(self).state == NodeState::Expandable && untried(
                old(game).actions_spec(),
                old(self).children@,
            ).len() > 0 ==> {
                let child = final(self).children@.last();
                &&& final(self).children@.len() == old(self).children@.len() + 1
                &&& (forall|j: int|
                    0 <= j < old(self).children@.len() ==> final(self).children@[j] == old(
                        self,
                    ).children@[j])
                &&& child.n == 1
                &&& child.q == delta
                &&& child.children@.len() == 0
                &&& child.action is Some
                &&& old(game).actions_spec().contains(child.action->0)
                &&& !has_action(old(self).children@, child.action->0)
            },
            // A fully expanded node descends into the first best child:
            // exactly that child changes, gaining the visit and the delta.
            old(self).state == NodeState::FullyExpanded ==> exists|i: int|
                {
                    &&& #[trigger] is_first_best(old(self).children@, c, old(self).n, i)
                    &&& final(self).children@.len() == old(self).children@.len()
                    &&& (forall|j: int|
                        0 <= j < old(self).children@.len() && j != i ==> final(self).children@[j]
                            == old(self).children@[j])
                    &&& final(self).children@[i].n == old(self).children@[i].n + 1
                    &&& final(self).children@[i].q == old(self).children@[i].q + delta
                },
        decreases *old(self),
    {
        let delta: i64 = match self.state {
            NodeState::LeafNode => {
                proof {
                    lemma_evolves_reflexive(*old(self));
                }
                game.reward()
            },
            NodeState::FullyExpanded => {
                // Choose and recurse into a child...
                let i = self.best_child(c).unwrap();
                proof {
                    lemma_sum_visits_element(self.children@, i as int);
                    assert(self.children@[i as int].well_formed());
                    assert(self.children@[i as int].positive_visits());
                    assert(self.children@[i as int].compact());
                }
                let ghost pre = *self;
                let mut child = self.children.remove(i);
                let a = child.action.unwrap();
                let _ = game.make_move(&a);
                proof {
                    assert(child == pre.children@[i as int]);
                    assert(decreases_to!(*old(self) => old(self).children));
                    assert(decreases_to!(old(self).children => old(self).children@));
                    assert(decreases_to!(old(self).children@ => old(self).children@[i as int]));
                }
                let d = child.iteration(game, c, rng);
                self.children.insert(i, child);
                proof {
                    assert(self.children@ =~= pre.children@.update(i as int, child));
                    lemma_sum_visits_update(pre.children@, i as int, child);
                    lemma_count_prefix_update(
                        pre.children@,
                        pre.children@.len() as int,
                        i as int,
                        child,
                    );
                    let post = *self;
                    assert forall|j: int| 0 <= j < post.children@.len() implies (
                    #[trigger] post.children@[j]).well_formed() && post.children@[j].n >= 1
                        && post.children@[j].positive_visits() && post.children@[j].compact()
                        && post.children@[j].action is Some by {
                        if j != i as int {
                            assert(post.children@[j] == pre.children@[j]);
                        }
                    }
                    assert(post.node_count() == pre.node_count() - pre.children@[i as int].node_count()
                        + child.node_count());
                    assert forall|j: int| 0 <= j < pre.children@.len() implies evolves(
                        #[trigger] pre.children@[j],
                        post.children@[j],
                    ) by {
                        if j != i as int {
                            lemma_evolves_reflexive(pre.children@[j]);
                        }
                    }
                    assert forall|j: int, k: int|
                        0 <= j < k < post.children@.len() implies (#[trigger] post.children@[j].action)
                        != (#[trigger] post.children@[k].action) by {
                        assert(post.children@[j].action == pre.children@[j].action);
                        assert(post.children@[k].action == pre.children@[k].action);
                    }
                }
                d
            },
            NodeState::Expandable => {
                let ghost pre = *self;
                match self.expand(game, rng) {
                    Some(i) => {
                        // We expanded our current node: simulate from the
                        // new child and record its first visit directly.
                        let ghost mid = *self;
                        let a = self.children[i].action.unwrap();
                        let _ = game.make_move(&a);
                        let sim = playout(&*game, rng);
                        let d = sim.reward();
                        let child = &mut self.children[i];
                        child.n = 1;
                        child.q = d;
                        proof {
                            let post = *self;
                            assert(post.children@ =~= mid.children@.update(
                                i as int,
                                post.children@[i as int],
                            ));
                            lemma_sum_visits_update(
                                mid.children@,
                                i as int,
                                post.children@[i as int],
                            );
                            lemma_sum_visits_push(pre.children@, mid.children@[i as int]);
                            lemma_count_prefix_push(pre.children@, mid.children@[i as int]);
                            lemma_count_prefix_update(
                                mid.children@,
                                mid.children@.len() as int,
                                i as int,
                                post.children@[i as int],
                            );
                            assert(mid.children@[i as int].node_count() == 1);
                            assert(post.children@[i as int].node_count() == 1);
                            assert(mid.node_count() == pre.node_count() + 1);
                            assert(post.node_count() == mid.node_count()
                                - mid.children@[i as int].node_count()
                                + post.children@[i as int].node_count());
                            assert forall|j: int| 0 <= j < post.children@.len() implies (
                            #[trigger] post.children@[j]).well_formed() && post.children@[j].n >= 1
                                && post.children@[j].positive_visits()
                                && post.children@[j].compact()
                                && post.children@[j].action is Some by {
                                if j != i as int {
                                    assert(post.children@[j] == pre.children@[j]);
                                }
                            }
                            assert forall|j: int| 0 <= j < pre.children@.len() implies evolves(
                                #[trigger] pre.children@[j],
                                post.children@[j],
                            ) by {
                                lemma_evolves_reflexive(pre.children@[j]);
                            }
                            assert forall|j: int, k: int|
                                0 <= j < k < post.children@.len() implies (
                            #[trigger] post.children@[j].action) != (
                            #[trigger] post.children@[k].action) by {
                                assert(post.children@[j].action == mid.children@[j].action);
                                assert(post.children@[k].action == mid.children@[k].action);
                            }
                        }
                        d
                    },
                    None => {
                        // Could not expand: the node turned into a leaf (or
                        // had nothing left to try).
                        game.reward()
                    },
                }
            },
        };
        self.n = self.n + 1;
        self.q = self.q + delta;
        proof {
            let n0 = old(self).n as int;
            assert((n0 + 1) * (REWARD_LIMIT as int) == n0 * (REWARD_LIMIT as int) + REWARD_LIMIT)
                by (nonlinear_arith);
        }
        delta
    }
}

/// Statistics algebra, childless case: a childless node summarizes to one
/// node with both depth bounds zero, so `tree_statistics` on it returns
/// exactly `{1, 0, 0}`.
pub proof fn lemma_statistics_childless<A>(t: TreeNode<A>)
    requires
        t.children@.len() == 0,
    ensures
        t.node_count() == 1,
        t.subtree_min_depth() == 0,
        t.subtree_max_depth() == 0,
{
}

/// Statistics algebra, one-layer case: a node whose `k >= 1` children are
/// all childless summarizes to `k + 1` nodes with both depth bounds one,
/// so `tree_statistics` on it returns exactly `{k + 1, 1, 1}`.
pub proof fn lemma_statistics_flat<A>(t: TreeNode<A>)
    requires
        t.children@.len() >= 1,
        forall|i: int|
            0 <= i < t.children@.len() ==> (#[trigger] t.children@[i]).children@.len() == 0,
    ensures
        t.node_count() == t.children@.len() + 1,
        t.subtree_min_depth() == 1,
        t.subtree_max_depth() == 1,
{
    lemma_flat_prefix(t.children@, t.children@.len() as int);
}

/// Prefix folds over childless nodes.
pub proof fn lemma_flat_prefix<A>(s: Seq<TreeNode<A>>, k: int)
    requires
        0 <= k <= s.len(),
        forall|i: int| 0 <= i < s.len() ==> (#[trigger] s[i]).children@.len() == 0,
    ensures
        count_prefix(s, k) == k,
        k >= 1 ==> min_depth_prefix(s, k) == 0,
        k >= 1 ==> max_depth_prefix(s, k) == 0,
    decreases k,
{
    if k > 0 {
        lemma_flat_prefix(s, k - 1);
        lemma_statistics_childless(s[k - 1]);
        if k == 1 {
            lemma_statistics_childless(s[0]);
        }
    }
}

/// Expansion distinctness: in a well-formed tree no node holds two
/// children that share an action, and `expand` only ever appends a child
/// whose action no sibling carries (see its postcondition), so no parent
/// ever gains two children sharing the same action.
pub proof fn lemma_children_distinct<A>(t: TreeNode<A>, i: int, j: int)
    requires
        t.well_formed(),
        0 <= i < j < t.children@.len(),
    ensures
        t.children@[i].action != t.children@[j].action,
{
}

/// Selection with `c = 0` is pure exploitation: the score comparison
/// reduces to the exact rational comparison of the mean values `q / n`, so
/// when one child's mean strictly exceeds every other's, `best_child(0)`
/// returns exactly that child.
pub proof fn lemma_best_child_pure_exploitation<A>(
    ch: Seq<TreeNode<A>>,
    parent_n: u64,
    i: int,
    k: int,
)
    requires
        forall|j: int| 0 <= j < ch.len() ==> (#[trigger] ch[j]).n >= 1,
        is_first_best(ch, 0, parent_n, i),
        0 <= k < ch.len(),
        forall|j: int|
            0 <= j < ch.len() && j != k ==> (ch[k].q as int) * ((#[trigger] ch[j]).n as int) > (
            ch[j].q as int) * (ch[k].n as int),
    ensures
        i == k,
{
    if i != k {
        assert(explore_num(0, parent_n, ch[k].n) == 0);
        assert(explore_num(0, parent_n, ch[i].n) == 0);
        assert((ch[k].q as int) * (ch[i].n as int) > (ch[i].q as int) * (ch[k].n as int));
        assert(uct_beats(0, parent_n, ch[k].q, ch[k].n, ch[i].q, ch[i].n)) by (nonlinear_arith)
            requires
                (ch[k].q as int) * (ch[i].n as int) > (ch[i].q as int) * (ch[k].n as int),
                explore_num(0, parent_n, ch[k].n) == 0,
                explore_num(0, parent_n, ch[i].n) == 0,
                uct_beats(0, parent_n, ch[k].q, ch[k].n, ch[i].q, ch[i].n) == ((ch[k].q as int) * (
                SCALE as int) * (ch[i].n as int) + explore_num(0, parent_n, ch[k].n) * (
                ch[k].n as int) * (ch[i].n as int) > (ch[i].q as int) * (SCALE as int) * (
                ch[k].n as int) + explore_num(0, parent_n, ch[i].n) * (ch[k].n as int) * (
                ch[i].n as int)),
                SCALE == 65536,
        ;
        assert(!uct_beats(0, parent_n, ch[k].q, ch[k].n, ch[i].q, ch[i].n));
        assert(false);
    }
}

/// Merging the summaries of a node's children yields the summary of the
/// node itself.
pub proof fn lemma_bridge_statistics<A>(ch: Seq<TreeNode<A>>, stats: Seq<TreeStatistics>)
    requires
        stats.len() == ch.len(),
        forall|j: int|
            0 <= j < stats.len() ==> {
                let cs = #[trigger] stats[j];
                &&& cs.nodes == ch[j].node_count()
                &&& cs.min_depth == ch[j].subtree_min_depth()
                &&& cs.max_depth == ch[j].subtree_max_depth()
            },
        sum_nodes(stats) == count_prefix(ch, ch.len() as int),
    ensures
        ch.len() > 0 ==> least_min_depth(stats) == min_depth_prefix(ch, ch.len() as int),
        ch.len() > 0 ==> greatest_max_depth(stats) == max_depth_prefix(ch, ch.len() as int),
{
    let k = ch.len() as int;
    if k > 0 {
        lemma_least_min_is_min(stats);
        lemma_greatest_max_is_max(stats);
        lemma_min_prefix_is_min(ch, k);
        lemma_max_prefix_is_max(ch, k);
        let a = choose|i: int| 0 <= i < k && least_min_depth(stats) == (#[trigger] stats[i]).min_depth;
        let b = choose|i: int| 0 <= i < k && min_depth_prefix(ch, k) == (#[trigger] ch[i]).subtree_min_depth();
        assert(min_depth_prefix(ch, k) <= ch[a].subtree_min_depth());
        assert(least_min_depth(stats) <= stats[b].min_depth);
        let c = choose|i: int| 0 <= i < k && greatest_max_depth(stats) == (#[trigger] stats[i]).max_depth;
        let d = choose|i: int| 0 <= i < k && max_depth_prefix(ch, k) == (#[trigger] ch[i]).subtree_max_depth();
        assert(max_depth_prefix(ch, k) >= ch[c].subtree_max_depth());
        assert(greatest_max_depth(stats) >= stats[d].max_depth);
    }
}

} // verus!
