//! Summary statistics of search trees: node count and depth bounds.
//!
//! A childless node summarizes to `{1, 0, 0}`; merging child summaries
//! yields `{1 + sum of node counts, 1 + least min-depth, 1 + greatest
//! max-depth}`.

use vstd::prelude::*;

verus! {

/// Store and process some simple statistical information about search trees.
#[derive(Debug, Copy, Clone, PartialEq, Eq, Structural)]
pub struct TreeStatistics {
    pub nodes: u64,
    pub min_depth: u64,
    pub max_depth: u64,
}

/// Internal consistency of a summary: depths are ordered and strictly below
/// the node count (a tree with maximal depth `d` has more than `d` nodes).
pub open spec fn stats_wf(s: TreeStatistics) -> bool {
    s.min_depth <= s.max_depth < s.nodes
}

/// Sum of the node counts of a sequence of summaries.
pub open spec fn sum_nodes(s: Seq<TreeStatistics>) -> int
    decreases s.len(),
{
    if s.len() == 0 {
        0
    } else {
        s[0].nodes + sum_nodes(s.drop_first())
    }
}

/// Least `min_depth` of a non-empty sequence of summaries.
pub open spec fn least_min_depth(s: Seq<TreeStatistics>) -> int
    decreases s.len(),
{
    if s.len() <= 1 {
        s[0].min_depth as int
    } else {
        let rest = least_min_depth(s.drop_first());
        if s[0].min_depth <= rest {
            s[0].min_depth as int
        } else {
            rest
        }
    }
}

/// Greatest `max_depth` of a non-empty sequence of summaries.
pub open spec fn greatest_max_depth(s: Seq<TreeStatistics>) -> int
    decreases s.len(),
{
    if s.len() <= 1 {
        s[0].max_depth as int
    } else {
        let rest = greatest_max_depth(s.drop_first());
        if s[0].max_depth >= rest {
            s[0].max_depth as int
        } else {
            rest
        }
    }
}

/// What merging a sequence of child summaries must yield.
pub open spec fn merge_spec(s: Seq<TreeStatistics>) -> (int, int, int) {
    if s.len() == 0 {
        (1, 0, 0)
    } else {
        (1 + sum_nodes(s), 1 + least_min_depth(s), 1 + greatest_max_depth(s))
    }
}

pub proof fn lemma_sum_nodes_bounds(s: Seq<TreeStatistics>)
    requires
        forall|i: int| 0 <= i < s.len() ==> stats_wf(#[trigger] s[i]),
    ensures
        sum_nodes(s) >= s.len(),
        s.len() > 0 ==> least_min_depth(s) >= 0,
        s.len() > 0 ==> least_min_depth(s) <= greatest_max_depth(s),
        s.len() > 0 ==> greatest_max_depth(s) < sum_nodes(s),
    decreases s.len(),
{
    if s.len() > 0 {
        assert(stats_wf(s[0]));
        assert(forall|i: int|
            0 <= i < s.drop_first().len() ==> stats_wf(#[trigger] s.drop_first()[i])) by {
            assert(forall|i: int|
                0 <= i < s.drop_first().len() ==> s.drop_first()[i] == s[i + 1]);
        }
        lemma_sum_nodes_bounds(s.drop_first());
    }
}

impl TreeStatistics {
    /// Merge child summaries into the summary of their parent, treating the
    /// parent as one more node and one more layer of depth.
    pub fn merge(child_stats: Vec<TreeStatistics>) -> (r: TreeStatistics)
        requires
            forall|i: int| 0 <= i < child_stats@.len() ==> stats_wf(#[trigger] child_stats@[i]),
            sum_nodes(child_stats@) < u64::MAX,
        ensures
            r.nodes == merge_spec(child_stats@).0,
            r.min_depth == merge_spec(child_stats@).1,
            r.max_depth == merge_spec(child_stats@).2,
            stats_wf(r),
    {
        proof {
            lemma_sum_nodes_bounds(child_stats@);
        }
        if child_stats.len() == 0 {
            TreeStatistics { nodes: 1, min_depth: 0, max_depth: 0 }
        } else {
            let mut nodes: u64 = 0;
            let mut min_depth: u64 = child_stats[0].min_depth;
            let mut max_depth: u64 = child_stats[0].max_depth;
            let mut i: usize = 0;
            while i < child_stats.len()
                invariant
                    forall|k: int|
                        0 <= k < child_stats@.len() ==> stats_wf(#[trigger] child_stats@[k]),
                    sum_nodes(child_stats@) < u64::MAX,
                    0 <= i <= child_stats@.len(),
                    child_stats@.len() > 0,
                    nodes == sum_nodes(child_stats@.take(i as int)),
                    i > 0 ==> min_depth == least_min_depth(child_stats@.take(i as int)),
                    i > 0 ==> max_depth == greatest_max_depth(child_stats@.take(i as int)),
                    i == 0 ==> min_depth == child_stats@[0].min_depth,
                    i == 0 ==> max_depth == child_stats@[0].max_depth,
                decreases child_stats@.len() - i,
            {
                proof {
                    lemma_take_step(child_stats@, i as int);
                    lemma_sum_nodes_prefix(child_stats@, (i + 1) as int);
                }
                let s = child_stats[i];
                nodes = nodes + s.nodes;
                if s.min_depth < min_depth {
                    min_depth = s.min_depth;
                }
                if s.max_depth > max_depth {
                    max_depth = s.max_depth;
                }
                i = i + 1;
            }
            proof {
                assert(child_stats@.take(child_stats@.len() as int) == child_stats@);
            }
            TreeStatistics { nodes: nodes + 1, min_depth: min_depth + 1, max_depth: max_depth + 1 }
        }
    }
}

/// Statistics algebra over the merge itself, in general: merging `k >= 1`
/// summaries of childless nodes — `{1, 0, 0}` each — yields exactly
/// `{k + 1, 1, 1}`, whatever `k` is.
pub proof fn lemma_merge_unit_summaries(s: Seq<TreeStatistics>)
    requires
        s.len() >= 1,
        forall|i: int|
            0 <= i < s.len() ==> (#[trigger] s[i]) == (TreeStatistics {
                nodes: 1,
                min_depth: 0,
                max_depth: 0,
            }),
    ensures
        merge_spec(s).0 == s.len() + 1,
        merge_spec(s).1 == 1,
        merge_spec(s).2 == 1,
{
    lemma_unit_folds(s);
}

/// Folds over unit summaries.
proof fn lemma_unit_folds(s: Seq<TreeStatistics>)
    requires
        forall|i: int|
            0 <= i < s.len() ==> (#[trigger] s[i]) == (TreeStatistics {
                nodes: 1,
                min_depth: 0,
                max_depth: 0,
            }),
    ensures
        sum_nodes(s) == s.len(),
        s.len() >= 1 ==> least_min_depth(s) == 0,
        s.len() >= 1 ==> greatest_max_depth(s) == 0,
    decreases s.len(),
{
    if s.len() > 0 {
        assert(forall|i: int| 0 <= i < s.drop_first().len() ==> s.drop_first()[i] == s[i + 1]);
        lemma_unit_folds(s.drop_first());
    }
}

/// The least `min_depth` is a minimum: no smaller value occurs, and it does
/// occur.
pub proof fn lemma_least_min_is_min(s: Seq<TreeStatistics>)
    requires
        s.len() >= 1,
    ensures
        forall|i: int| 0 <= i < s.len() ==> least_min_depth(s) <= (#[trigger] s[i]).min_depth,
        exists|i: int| 0 <= i < s.len() && least_min_depth(s) == (#[trigger] s[i]).min_depth,
    decreases s.len(),
{
    if s.len() == 1 {
        assert(least_min_depth(s) == s[0].min_depth);
    } else {
        let rest = s.drop_first();
        lemma_least_min_is_min(rest);
        assert(forall|i: int| 0 <= i < rest.len() ==> rest[i] == s[i + 1]);
        let w = choose|i: int|
            0 <= i < rest.len() && least_min_depth(rest) == (#[trigger] rest[i]).min_depth;
        if s[0].min_depth <= least_min_depth(rest) {
            assert(least_min_depth(s) == s[0].min_depth);
        } else {
            assert(least_min_depth(s) == least_min_depth(rest));
            assert(least_min_depth(s) == s[w + 1].min_depth);
        }
        assert(forall|i: int|
            1 <= i < s.len() ==> least_min_depth(s) <= (#[trigger] s[i]).min_depth) by {
            assert(forall|i: int|
                1 <= i < s.len() ==> (#[trigger] s[i]).min_depth == rest[i - 1].min_depth);
        }
    }
}

/// The greatest `max_depth` is a maximum: no greater value occurs, and it
/// does occur.
pub proof fn lemma_greatest_max_is_max(s: Seq<TreeStatistics>)
    requires
        s.len() >= 1,
    ensures
        forall|i: int| 0 <= i < s.len() ==> greatest_max_depth(s) >= (#[trigger] s[i]).max_depth,
        exists|i: int| 0 <= i < s.len() && greatest_max_depth(s) == (#[trigger] s[i]).max_depth,
    decreases s.len(),
{
    if s.len() == 1 {
        assert(greatest_max_depth(s) == s[0].max_depth);
    } else {
        let rest = s.drop_first();
        lemma_greatest_max_is_max(rest);
        assert(forall|i: int| 0 <= i < rest.len() ==> rest[i] == s[i + 1]);
        let w = choose|i: int|
            0 <= i < rest.len() && greatest_max_depth(rest) == (#[trigger] rest[i]).max_depth;
        if s[0].max_depth >= greatest_max_depth(rest) {
            assert(greatest_max_depth(s) == s[0].max_depth);
        } else {
            assert(greatest_max_depth(s) == greatest_max_depth(rest));
            assert(greatest_max_depth(s) == s[w + 1].max_depth);
        }
        assert(forall|i: int|
            1 <= i < s.len() ==> greatest_max_depth(s) >= (#[trigger] s[i]).max_depth) by {
            assert(forall|i: int|
                1 <= i < s.len() ==> (#[trigger] s[i]).max_depth == rest[i - 1].max_depth);
        }
    }
}

/// Sums split off their last element.
pub proof fn lemma_sum_nodes_drop_last(s: Seq<TreeStatistics>)
    requires
        s.len() >= 1,
    ensures
        sum_nodes(s) == sum_nodes(s.drop_last()) + s.last().nodes,
    decreases s.len(),
{
    if s.len() == 1 {
        assert(sum_nodes(s.drop_first()) == 0) by {
            assert(s.drop_first().len() == 0);
        }
        assert(sum_nodes(s.drop_last()) == 0) by {
            assert(s.drop_last().len() == 0);
        }
        assert(s.last() == s[0]);
    } else {
        let rest = s.drop_first();
        lemma_sum_nodes_drop_last(rest);
        assert(s.drop_last().drop_first() == rest.drop_last()) by {
            assert(s.drop_last().drop_first() =~= rest.drop_last());
        }
        assert(rest.last() == s.last());
        assert(s.drop_last()[0] == s[0]);
        assert(s.drop_last().len() >= 1);
        assert(sum_nodes(s) == s[0].nodes + sum_nodes(rest));
        assert(sum_nodes(s.drop_last()) == s[0].nodes + sum_nodes(s.drop_last().drop_first()));
        assert(sum_nodes(rest) == sum_nodes(rest.drop_last()) + rest.last().nodes);
    }
}

/// Extending a non-empty prefix by one element folds as expected.
proof fn lemma_take_step(s: Seq<TreeStatistics>, i: int)
    requires
        0 <= i < s.len(),
    ensures
        sum_nodes(s.take(i + 1)) == sum_nodes(s.take(i)) + s[i].nodes,
        i > 0 ==> least_min_depth(s.take(i + 1)) == if s[i].min_depth as int <= least_min_depth(
            s.take(i),
        ) {
            s[i].min_depth as int
        } else {
            least_min_depth(s.take(i))
        },
        i > 0 ==> greatest_max_depth(s.take(i + 1)) == if s[i].max_depth as int
            >= greatest_max_depth(s.take(i)) {
            s[i].max_depth as int
        } else {
            greatest_max_depth(s.take(i))
        },
        i == 0 ==> least_min_depth(s.take(1)) == s[0].min_depth as int,
        i == 0 ==> greatest_max_depth(s.take(1)) == s[0].max_depth as int,
    decreases i,
{
    if i == 0 {
        assert(s.take(1).len() == 1);
        assert(s.take(1)[0] == s[0]);
        assert(sum_nodes(s.take(1).drop_first()) == 0) by {
            assert(s.take(1).drop_first().len() == 0);
        }
        assert(sum_nodes(s.take(0)) == 0);
    } else {
        lemma_take_step(s.drop_first(), i - 1);
        assert(s.take(i + 1).drop_first() == s.drop_first().take(i)) by {
            assert(s.take(i + 1).drop_first() =~= s.drop_first().take(i));
        }
        assert(s.take(i).drop_first() == s.drop_first().take(i - 1)) by {
            assert(s.take(i).drop_first() =~= s.drop_first().take(i - 1));
        }
        assert(s.drop_first()[i - 1] == s[i]);
        assert(s.take(i + 1)[0] == s[0]);
        assert(s.take(i)[0] == s[0]);
    }
}

/// A prefix never sums to more than the whole.
proof fn lemma_sum_nodes_prefix(s: Seq<TreeStatistics>, i: int)
    requires
        0 <= i <= s.len(),
    ensures
        sum_nodes(s.take(i)) <= sum_nodes(s),
        sum_nodes(s.take(i)) >= 0,
    decreases s.len(),
{
    if s.len() == 0 {
        assert(s.take(i).len() == 0);
    } else if i == 0 {
        assert(s.take(0).len() == 0);
        lemma_sum_nodes_nonneg(s);
    } else {
        lemma_sum_nodes_prefix(s.drop_first(), i - 1);
        assert(s.take(i).drop_first() == s.drop_first().take(i - 1)) by {
            assert(s.take(i).drop_first() =~= s.drop_first().take(i - 1));
        }
        assert(s.take(i)[0] == s[0]);
    }
}

proof fn lemma_sum_nodes_nonneg(s: Seq<TreeStatistics>)
    ensures
        sum_nodes(s) >= 0,
    decreases s.len(),
{
    if s.len() > 0 {
        lemma_sum_nodes_nonneg(s.drop_first());
    }
}

} // verus!
