//! Engine-level tests: playouts, expansion, statistics, search.

use mcts::game::Game;
use mcts::mcts::{playout, MCTS};
use mcts::minigame::{Action, MiniGame};
use mcts::node::{NodeState, TreeNode};
use mcts::stats::TreeStatistics;
use mcts::utils::{choose_random, Rng};

#[test]
fn mcts_test_playout() {
    let game = MiniGame::new();
    let mut rng = Rng::from_seed(7);
    let game = playout(&game, &mut rng);
    println!("Final: {:?}", game);
    assert!(game.allowed_actions().is_empty());
}

#[test]
fn test_expand() {
    let game = MiniGame::new();
    let mut rng = Rng::from_seed(7);
    let mut node: TreeNode<Action> = TreeNode::new(None);

    node.expand(&game, &mut rng);
    node.expand(&game, &mut rng);
    {
        let v = node.expand(&game, &mut rng).unwrap();
        node.children[v].expand(&game, &mut rng);
    }

    println!("After some expands:\n{:?}", node);
    assert_eq!(node.children.len(), 3);
}

#[test]
fn test_tree_statistics() {
    let game = MiniGame::new();
    let mut mcts = MCTS::new(&game, 2);

    mcts.search(50, 65536);

    let stats = mcts.tree_statistics();

    println!("{:?}", stats);
    assert!(stats.nodes >= 3);
    assert!(stats.min_depth >= 1);
    assert!(stats.max_depth >= stats.min_depth);
}

#[test]
fn test_search() {
    let game = MiniGame::new();
    let mut mcts = MCTS::new(&game, 2);

    mcts.search(50, 65536);

    println!("Search result: {:?}", mcts.best_action());
    assert!(mcts.best_action().is_some());
}

#[test]
fn test_search_time() {
    let game = MiniGame::new();
    let mut mcts = MCTS::new(&game, 2);

    // Search for ~0.5 seconds
    let budget_ms = 500;

    let t0 = std::time::Instant::now();
    mcts.search_time(budget_ms, 65536);

    let time_spent = t0.elapsed().as_millis();

    println!("Time spent in search_time: {}", time_spent);

    // Check we really spent ~500 ms searching...
    assert!(time_spent > 200);
    assert!(time_spent < 700);
}

#[test]
fn test_choose_random() {
    let vec = vec![23];
    let mut rng = Rng::from_seed(7);

    assert_eq!(*choose_random(&mut rng, &vec), 23);
}

#[test]
fn statistics_of_childless_node() {
    // Statistics algebra: a childless node summarizes to {1, 0, 0}.
    let node: TreeNode<Action> = TreeNode::new(None);
    let stats = node.tree_statistics();
    assert_eq!(
        stats,
        TreeStatistics { nodes: 1, min_depth: 0, max_depth: 0 }
    );
}

#[test]
fn statistics_of_flat_tree() {
    // Statistics algebra: a node with k childless children summarizes to
    // {k + 1, 1, 1}.
    let game = MiniGame::new();
    let mut rng = Rng::from_seed(3);
    let mut node: TreeNode<Action> = TreeNode::new(None);
    node.expand(&game, &mut rng);
    node.expand(&game, &mut rng);
    node.expand(&game, &mut rng);
    assert_eq!(node.children.len(), 3);
    let stats = node.tree_statistics();
    assert_eq!(
        stats,
        TreeStatistics { nodes: 4, min_depth: 1, max_depth: 1 }
    );
}

#[test]
fn best_child_pure_exploitation() {
    // Selection correctness: with c = 0 the child with the strictly
    // maximal mean value q/n wins, whatever the visit counts are.
    let mut node: TreeNode<Action> = TreeNode::new(None);
    node.n = 6;
    for (n, q, add) in [(2u64, 65536i64, 3u32), (2, 131072, 4), (2, -65536, 5)] {
        let mut child = TreeNode::new(Some(Action { add }));
        child.n = n;
        child.q = q;
        node.children.push(child);
    }
    assert_eq!(node.best_child(0), Some(1));
}

#[test]
fn best_child_tie_resolves_to_first() {
    // Two children with equal means: the first one in creation order wins.
    let mut node: TreeNode<Action> = TreeNode::new(None);
    node.n = 4;
    for (n, q, add) in [(2u64, 65536i64, 3u32), (2, 65536, 4)] {
        let mut child = TreeNode::new(Some(Action { add }));
        child.n = n;
        child.q = q;
        node.children.push(child);
    }
    assert_eq!(node.best_child(0), Some(0));
}

#[test]
fn expansion_yields_distinct_actions() {
    // Expansion distinctness: no parent ever gains two children sharing
    // an action.
    let game = MiniGame::new();
    let mut rng = Rng::from_seed(11);
    let mut node: TreeNode<Action> = TreeNode::new(None);
    node.expand(&game, &mut rng);
    node.expand(&game, &mut rng);
    node.expand(&game, &mut rng);
    let mut adds: Vec<u32> = node
        .children
        .iter()
        .map(|c| c.action.unwrap().add)
        .collect();
    adds.sort();
    assert_eq!(adds, vec![3, 4, 5]);
}

#[test]
fn node_states_move_forward_only() {
    // State-machine monotonicity: a node leaves Expandable at most once
    // and never returns to it.
    let mut rng = Rng::from_seed(5);

    // A terminal state turns the node into a leaf, where it stays.
    let mut terminal = MiniGame::new();
    terminal.make_move(&Action { add: 5 });
    terminal.make_move(&Action { add: 3 });
    terminal.make_move(&Action { add: 3 });
    let mut leaf: TreeNode<Action> = TreeNode::new(None);
    assert!(matches!(leaf.state, NodeState::Expandable));
    assert!(leaf.expand(&terminal, &mut rng).is_none());
    assert!(matches!(leaf.state, NodeState::LeafNode));

    // Expanding the last untried action marks the node fully expanded.
    let game = MiniGame::new();
    let mut node: TreeNode<Action> = TreeNode::new(None);
    node.expand(&game, &mut rng);
    assert!(matches!(node.state, NodeState::Expandable));
    node.expand(&game, &mut rng);
    assert!(matches!(node.state, NodeState::Expandable));
    node.expand(&game, &mut rng);
    assert!(matches!(node.state, NodeState::FullyExpanded));
}

#[test]
fn reset_reports_fresh_roots() {
    // Reset correctness: immediately after advance_game the statistics
    // are exactly those of `ensemble_size` fresh childless roots under
    // the ensemble layer.
    let game = MiniGame::new();
    let mut mcts = MCTS::new(&game, 3);
    mcts.search(40, 65536);
    assert!(mcts.tree_statistics().nodes > 4);

    let mut advanced = MiniGame::new();
    advanced.make_move(&Action { add: 4 });
    mcts.advance_game(&advanced);
    let stats = mcts.tree_statistics();
    assert_eq!(
        stats,
        TreeStatistics { nodes: 4, min_depth: 1, max_depth: 1 }
    );
}

#[test]
fn best_action_none_without_samples() {
    let game = MiniGame::new();
    let mcts = MCTS::new(&game, 2);
    assert_eq!(mcts.best_action(), None);
}

#[test]
fn end_to_end_toy_game() {
    // End-to-end scenario: from a sum of 8, the +3 move is the unique
    // path to exactly 11; with 500 iterations over an ensemble of two,
    // the engine should find it.
    let mut game = MiniGame::new();
    game.make_move(&Action { add: 4 });
    game.make_move(&Action { add: 4 });
    assert_eq!(game.sum, 8);

    let mut mcts = MCTS::new(&game, 2);
    mcts.search(250, 65536);
    let best = mcts.best_action();
    assert_eq!(best, Some(Action { add: 3 }));
}

#[test]
fn expected_reward_is_exact_at_terminal() {
    // A terminal state playouts to itself, so the mean reward is exact.
    let mut game = MiniGame::new();
    game.make_move(&Action { add: 4 });
    game.make_move(&Action { add: 4 });
    game.make_move(&Action { add: 3 });
    assert_eq!(game.sum, 11);
    let mut rng = Rng::from_seed(1);
    assert_eq!(mcts::mcts::expected_reward(&game, 10, &mut rng), 65536);
}
