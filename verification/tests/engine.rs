use gamesweet::ai::mcts::{best, run, search, Node, Priority, Tree, ROOT, SENTINEL, THRESHOLD};
use gamesweet::Game;

#[derive(Clone, Copy, Debug, PartialEq)]
enum Side {
    A,
    B,
}

#[derive(Clone, Copy, Debug, PartialEq)]
enum Rule {
    /// Every game is drawn.
    Draw,
    /// A wins when the sum of the turns is even, B when it is odd.
    Parity,
    /// Whoever played the last turn wins.
    LastMover,
}

/// `left` turns remain; each is a number below `width`, and the numbers are
/// summed up.
#[derive(Clone, Debug, PartialEq)]
struct Count {
    left: u8,
    width: u8,
    sum: u32,
    a_moves: bool,
    rule: Rule,
}

impl Count {
    fn start(left: u8, width: u8, rule: Rule) -> Count {
        Count { left, width, sum: 0, a_moves: true, rule }
    }
}

impl Game for Count {
    type Player = Side;
    type Turn = u8;

    fn player(&self) -> Side {
        if self.a_moves {
            Side::A
        } else {
            Side::B
        }
    }

    fn turns(&self) -> Vec<u8> {
        if self.left == 0 {
            Vec::new()
        } else {
            (0..self.width).collect()
        }
    }

    fn play(&mut self, turn: u8) -> bool {
        if self.left == 0 || turn >= self.width {
            return false;
        }
        self.left -= 1;
        self.sum += u32::from(turn);
        self.a_moves = !self.a_moves;
        true
    }

    fn over(&self) -> bool {
        self.left == 0
    }

    fn winner(&self) -> Option<Side> {
        if self.left != 0 {
            return None;
        }
        match self.rule {
            Rule::Draw => None,
            Rule::Parity => Some(if self.sum % 2 == 0 { Side::A } else { Side::B }),
            Rule::LastMover => Some(if self.a_moves { Side::B } else { Side::A }),
        }
    }
}

/// UCB1 with the exploration constant 1.414, as a rank that rises with it.
fn ucb1(wins: u32, sims: u32, psims: u32) -> u64 {
    let exploit = f64::from(wins) / f64::from(sims);
    let explore = 1.414 * (f64::from(psims).ln() / f64::from(sims)).sqrt();
    let priority = exploit + explore;
    if priority.is_finite() && priority >= 0.0 {
        priority.to_bits()
    } else {
        u64::MAX
    }
}

fn by_wins(wins: u32, _sims: u32, _psims: u32) -> u64 {
    u64::from(wins)
}

fn flat(_wins: u32, _sims: u32, _psims: u32) -> u64 {
    1
}

fn stats(tree: &Tree<Count>) -> Vec<(u32, u32)> {
    (0..tree.len()).map(|i| (tree.node(i).wins, tree.node(i).sims)).collect()
}

fn shape(tree: &Tree<Count>) -> Vec<(usize, Vec<usize>)> {
    (0..tree.len()).map(|i| (tree.node(i).parent, tree.node(i).children.clone())).collect()
}

// ---------------------------------------------------------------- nodes

#[test]
fn a_new_node_has_no_children_and_no_counts() {
    let node = Node::new(4, 2, Count::start(1, 1, Rule::Draw), Some(3u8));
    assert_eq!(node.idx, 4);
    assert_eq!(node.parent, 2);
    assert!(node.children.is_empty());
    assert_eq!(node.state, Count::start(1, 1, Rule::Draw));
    assert_eq!(node.action, Some(3));
    assert_eq!(node.wins, 0);
    assert_eq!(node.sims, 0);
}

#[test]
fn an_unvisited_node_has_infinite_priority() {
    let node = Node::new(1, 0, Count::start(1, 1, Rule::Draw), Some(0u8));
    assert_eq!(node.priority(0, &ucb1), Priority::Infinite);
    assert_eq!(node.priority(17, &by_wins), Priority::Infinite);
}

#[test]
fn a_visited_node_has_the_rank_of_its_counters() {
    let mut node = Node::new(1, 0, Count::start(1, 1, Rule::Draw), Some(0u8));
    node.wins = 3;
    node.sims = 5;
    assert_eq!(node.priority(9, &by_wins), Priority::Finite(3));
    assert_eq!(node.priority(9, &flat), Priority::Finite(1));
    let weigh = |wins: u32, sims: u32, psims: u32| u64::from(wins) * 10000 + u64::from(sims) * 100 + u64::from(psims);
    assert_eq!(node.priority(9, &weigh), Priority::Finite(30509));
}

#[test]
fn priorities_are_ordered_by_rank_with_infinite_on_top() {
    assert!(Priority::Finite(5).exceeds(&Priority::Finite(3)));
    assert!(!Priority::Finite(3).exceeds(&Priority::Finite(5)));
    assert!(!Priority::Finite(3).exceeds(&Priority::Finite(3)));
    assert!(Priority::Infinite.exceeds(&Priority::Finite(u64::MAX)));
    assert!(!Priority::Finite(u64::MAX).exceeds(&Priority::Infinite));
    assert!(!Priority::Infinite.exceeds(&Priority::Infinite));
}

#[test]
fn best_is_the_first_place_of_the_maximum() {
    assert_eq!(best(&vec![Priority::Finite(7)]), 0);
    assert_eq!(best(&vec![Priority::Finite(1), Priority::Finite(9), Priority::Finite(4)]), 1);
    assert_eq!(best(&vec![Priority::Finite(2), Priority::Finite(8), Priority::Finite(8)]), 1);
    assert_eq!(best(&vec![Priority::Finite(8), Priority::Infinite, Priority::Infinite]), 1);
    assert_eq!(best(&vec![Priority::Finite(3), Priority::Finite(3), Priority::Finite(3)]), 0);
    assert_eq!(best(&vec![Priority::Finite(0), Priority::Finite(1), Priority::Finite(2)]), 2);
}

#[test]
fn simulate_plays_to_the_end_and_reports_the_winner() {
    // One turn per position: the play-through is the same every time.
    let a_last = Node::new(0, SENTINEL, Count::start(3, 1, Rule::LastMover), None);
    assert_eq!(a_last.simulate(), Some(Side::A));
    let b_last = Node::new(0, SENTINEL, Count::start(4, 1, Rule::LastMover), None);
    assert_eq!(b_last.simulate(), Some(Side::B));
    let drawn = Node::new(0, SENTINEL, Count::start(4, 3, Rule::Draw), None);
    assert_eq!(drawn.simulate(), None);
    // The node keeps its own state.
    assert_eq!(a_last.state, Count::start(3, 1, Rule::LastMover));
}

#[test]
fn simulate_of_a_finished_game_reports_its_winner_at_once() {
    let over = Node::new(0, SENTINEL, Count { left: 0, width: 2, sum: 3, a_moves: true, rule: Rule::Parity }, None);
    assert_eq!(over.simulate(), Some(Side::B));
}

#[test]
fn simulate_reaches_every_outcome_of_a_game_with_chance() {
    let node = Node::new(0, SENTINEL, Count::start(1, 2, Rule::Parity), None);
    let mut a = 0;
    let mut b = 0;
    for _ in 0..400 {
        match node.simulate() {
            Some(Side::A) => a += 1,
            Some(Side::B) => b += 1,
            None => panic!("no draw in this game"),
        }
    }
    assert!(a > 0);
    assert!(b > 0);
}

// ----------------------------------------------------------------- tree

#[test]
fn a_new_tree_is_its_root() {
    let tree = Tree::new(Count::start(2, 3, Rule::Parity));
    assert_eq!(tree.len(), 1);
    let root = tree.node(ROOT);
    assert_eq!(root.idx, 0);
    assert_eq!(root.parent, SENTINEL);
    assert_eq!(root.action, None);
    assert!(root.children.is_empty());
    assert_eq!((root.wins, root.sims), (0, 0));
    assert_eq!(root.state, Count::start(2, 3, Rule::Parity));
}

#[test]
fn expand_makes_one_child_for_each_legal_turn() {
    let mut tree = Tree::new(Count::start(2, 3, Rule::Parity));
    tree.expand(ROOT);
    assert_eq!(tree.len(), 4);
    assert_eq!(tree.node(ROOT).children, vec![1, 2, 3]);
    assert_eq!(tree.node(ROOT).children.len(), tree.node(ROOT).state.turns().len());
    for turn in 0..3u8 {
        let child = tree.node(1 + usize::from(turn));
        assert_eq!(child.idx, 1 + usize::from(turn));
        assert_eq!(child.parent, ROOT);
        assert_eq!(child.action, Some(turn));
        assert!(child.children.is_empty());
        assert_eq!((child.wins, child.sims), (0, 0));
        assert_eq!(
            child.state,
            Count { left: 1, width: 3, sum: u32::from(turn), a_moves: false, rule: Rule::Parity }
        );
    }
    // The root is as it was, but for its children.
    assert_eq!(tree.node(ROOT).state, Count::start(2, 3, Rule::Parity));
    assert_eq!(tree.node(ROOT).parent, SENTINEL);
    assert_eq!(tree.node(ROOT).action, None);
}

#[test]
fn expand_below_the_root_appends_behind_the_arena() {
    let mut tree = Tree::new(Count::start(2, 2, Rule::Parity));
    tree.expand(ROOT);
    tree.expand(2);
    assert_eq!(
        shape(&tree),
        vec![(SENTINEL, vec![1, 2]), (0, vec![]), (0, vec![3, 4]), (2, vec![]), (2, vec![])]
    );
    assert_eq!(tree.node(3).action, Some(0));
    assert_eq!(tree.node(4).action, Some(1));
    assert_eq!(tree.node(4).state, Count { left: 0, width: 2, sum: 2, a_moves: true, rule: Rule::Parity });
}

#[test]
fn expand_of_a_finished_game_makes_no_child() {
    let mut tree = Tree::new(Count::start(1, 2, Rule::Parity));
    tree.expand(ROOT);
    tree.expand(1);
    assert_eq!(tree.len(), 3);
    assert!(tree.node(1).children.is_empty());
}

#[test]
fn backprop_counts_from_the_node_up_to_the_root() {
    let mut tree = Tree::new(Count::start(2, 2, Rule::Parity));
    tree.expand(ROOT);
    tree.expand(2);
    // A is to move at the root and at nodes 3 and 4, B at nodes 1 and 2.
    tree.backprop(4, Some(Side::A));
    assert_eq!(stats(&tree), vec![(0, 1), (0, 0), (1, 1), (0, 0), (0, 1)]);
    tree.backprop(3, Some(Side::B));
    assert_eq!(stats(&tree), vec![(1, 2), (0, 0), (1, 2), (1, 1), (0, 1)]);
    tree.backprop(1, Some(Side::A));
    assert_eq!(stats(&tree), vec![(1, 3), (1, 1), (1, 2), (1, 1), (0, 1)]);
    tree.backprop(ROOT, Some(Side::B));
    assert_eq!(stats(&tree), vec![(2, 4), (1, 1), (1, 2), (1, 1), (0, 1)]);
    // Nothing but the counters has changed.
    assert_eq!(
        shape(&tree),
        vec![(SENTINEL, vec![1, 2]), (0, vec![]), (0, vec![3, 4]), (2, vec![]), (2, vec![])]
    );
}

#[test]
fn backprop_counts_a_draw_as_a_win_of_the_player_at_the_root() {
    let mut tree = Tree::new(Count::start(2, 2, Rule::Draw));
    tree.expand(ROOT);
    tree.expand(1);
    // A is to move at the root: a draw is counted as if A had won.
    tree.backprop(3, None);
    assert_eq!(stats(&tree), vec![(0, 1), (1, 1), (0, 0), (0, 1), (0, 0)]);
    let mut same = Tree::new(Count::start(2, 2, Rule::Draw));
    same.expand(ROOT);
    same.expand(1);
    same.backprop(3, Some(Side::A));
    assert_eq!(stats(&same), stats(&tree));
}

#[test]
fn select_stops_at_a_root_without_children() {
    let tree = Tree::new(Count::start(2, 2, Rule::Parity));
    assert_eq!(tree.select(&ucb1), ROOT);
}

#[test]
fn select_takes_the_first_unvisited_child() {
    let mut tree = Tree::new(Count::start(2, 3, Rule::Parity));
    tree.expand(ROOT);
    assert_eq!(tree.select(&ucb1), 1);
    tree.backprop(1, Some(Side::A));
    assert_eq!(tree.select(&ucb1), 2);
    // However high a visited child ranks, an unvisited one goes first.
    let top = |_: u32, _: u32, _: u32| u64::MAX;
    assert_eq!(tree.select(&top), 2);
    tree.backprop(2, Some(Side::A));
    assert_eq!(tree.select(&top), 3);
    assert_eq!(tree.priorities(ROOT, &top), vec![Priority::Finite(u64::MAX), Priority::Finite(u64::MAX), Priority::Infinite]);
}

#[test]
fn select_takes_the_highest_rank_and_the_first_of_equals() {
    let mut tree = Tree::new(Count::start(2, 3, Rule::Parity));
    tree.expand(ROOT);
    // B is to move in the children: a win of A is a win for them.
    tree.backprop(1, Some(Side::B));
    tree.backprop(2, Some(Side::A));
    tree.backprop(3, Some(Side::A));
    assert_eq!(tree.priorities(ROOT, &by_wins), vec![Priority::Finite(0), Priority::Finite(1), Priority::Finite(1)]);
    assert_eq!(tree.select(&by_wins), 2);
    assert_eq!(tree.select(&flat), 1);
    tree.backprop(3, Some(Side::A));
    assert_eq!(tree.select(&by_wins), 3);
}

#[test]
fn select_descends_to_a_leaf() {
    let mut tree = Tree::new(Count::start(3, 2, Rule::Parity));
    tree.expand(ROOT);
    tree.backprop(1, Some(Side::A));
    tree.backprop(2, Some(Side::B));
    tree.expand(1);
    // Child 1 ranks highest; below it nothing was visited yet.
    assert_eq!(tree.select(&by_wins), 3);
    tree.backprop(3, Some(Side::A));
    assert_eq!(tree.select(&by_wins), 4);
}

#[test]
fn select_with_ucb1_prefers_the_better_of_two_children_visited_alike() {
    let mut tree = Tree::new(Count::start(2, 2, Rule::Parity));
    tree.expand(ROOT);
    tree.backprop(1, Some(Side::B));
    tree.backprop(2, Some(Side::A));
    assert_eq!(tree.select(&ucb1), 2);
    assert!(ucb1(1, 1, 2) > ucb1(0, 1, 2));
}

#[test]
fn most_simulated_is_the_first_child_with_the_most_simulations() {
    let mut tree = Tree::new(Count::start(2, 3, Rule::Parity));
    tree.expand(ROOT);
    assert_eq!(tree.most_simulated(), 1);
    tree.backprop(2, None);
    assert_eq!(tree.most_simulated(), 2);
    tree.backprop(3, None);
    assert_eq!(tree.most_simulated(), 2);
    tree.backprop(3, None);
    assert_eq!(tree.most_simulated(), 3);
    tree.backprop(1, None);
    tree.backprop(1, None);
    assert_eq!(tree.most_simulated(), 1);
}

#[test]
fn a_round_below_the_threshold_simulates_the_leaf_itself() {
    let mut tree = Tree::new(Count::start(3, 2, Rule::LastMover));
    tree.expand(ROOT);
    tree.round(&ucb1, 3);
    // Three turns: A plays the last one and wins, whatever is played.
    assert_eq!(tree.len(), 3);
    assert_eq!(stats(&tree), vec![(0, 1), (1, 1), (0, 0)]);
    tree.round(&ucb1, 3);
    assert_eq!(tree.len(), 3);
    assert_eq!(stats(&tree), vec![(0, 2), (1, 1), (1, 1)]);
}

#[test]
fn a_round_expands_a_leaf_only_above_the_threshold() {
    let mut tree = Tree::new(Count::start(3, 2, Rule::LastMover));
    tree.expand(ROOT);
    // With a threshold of 1 a child is expanded when it is reached with 2
    // simulations: that is the fourth round.
    for round in 1..=3u32 {
        tree.round(&flat, 1);
        assert_eq!(tree.len(), 3);
        assert_eq!(tree.node(ROOT).sims, round);
    }
    assert_eq!(stats(&tree), vec![(0, 3), (2, 2), (1, 1)]);
    tree.round(&flat, 1);
    assert_eq!(tree.len(), 5);
    assert_eq!(tree.node(1).children, vec![3, 4]);
    assert_eq!((tree.node(1).wins, tree.node(1).sims), (3, 3));
    // The simulation went through one of the two new children, where A is
    // to move and has won.
    assert_eq!(tree.node(3).sims + tree.node(4).sims, 1);
    assert_eq!(tree.node(3).wins + tree.node(4).wins, 0);
    assert_eq!((tree.node(ROOT).wins, tree.node(ROOT).sims), (0, 4));
}

#[test]
fn a_round_at_a_finished_leaf_falls_back_to_the_leaf() {
    let mut tree = Tree::new(Count::start(1, 1, Rule::LastMover));
    tree.expand(ROOT);
    for _ in 0..3 {
        tree.round(&ucb1, 0);
    }
    // The only child is a finished game: expanding it adds nothing.
    assert_eq!(tree.len(), 2);
    assert_eq!(stats(&tree), vec![(0, 3), (3, 3)]);
}

// --------------------------------------------------------------- search

#[test]
fn one_legal_turn_is_returned_without_a_simulation() {
    let game = Count::start(3, 1, Rule::Parity);
    assert_eq!(run(&game, &ucb1), 0);
    let tree = search(&game, &ucb1, 200, THRESHOLD);
    assert_eq!(tree.len(), 2);
    assert_eq!(stats(&tree), vec![(0, 0), (0, 0)]);
    assert_eq!(tree.node(1).action, Some(0));
}

#[test]
fn a_winning_only_turn_is_chosen_and_counted_as_won() {
    // A's only turn ends the game, and A has won.
    let game = Count::start(1, 1, Rule::LastMover);
    assert_eq!(run(&game, &ucb1), 0);
    let mut tree = Tree::new(game.clone());
    tree.expand(ROOT);
    for _ in 0..5 {
        tree.round(&ucb1, THRESHOLD);
    }
    let chosen = tree.most_simulated();
    assert_eq!(tree.node(chosen).action, Some(0));
    assert!(tree.node(chosen).sims > 0);
    assert!(tree.node(chosen).wins > 0);
    assert_eq!(stats(&tree), vec![(0, 5), (5, 5)]);
}

#[test]
fn a_game_of_draws_keeps_wins_within_simulations() {
    let game = Count::start(4, 2, Rule::Draw);
    let tree = search(&game, &ucb1, 60, THRESHOLD);
    assert!(tree.node(ROOT).sims > 0);
    for i in 0..tree.len() {
        assert!(tree.node(i).wins <= tree.node(i).sims);
    }
    let turn = run(&game, &ucb1);
    assert!(turn < 2);
}

#[test]
fn the_children_of_the_root_share_its_simulations() {
    let game = Count::start(3, 4, Rule::Parity);
    let tree = search(&game, &ucb1, 60, THRESHOLD);
    let root = tree.node(ROOT);
    assert_eq!(root.children.len(), 4);
    let below: u32 = root.children.iter().map(|c| tree.node(*c).sims).sum();
    assert!(root.sims > 0);
    assert_eq!(below, root.sims);
}

#[test]
fn a_searched_tree_is_a_tree() {
    let game = Count::start(4, 3, Rule::Parity);
    let tree = search(&game, &ucb1, 60, THRESHOLD);
    let mut parentless = 0;
    let mut without_action = 0;
    for i in 0..tree.len() {
        let node = tree.node(i);
        assert_eq!(node.idx, i);
        assert!(node.wins <= node.sims);
        if node.parent == SENTINEL {
            parentless += 1;
        } else {
            assert!(node.parent < i);
            assert_eq!(tree.node(node.parent).children.iter().filter(|c| **c == i).count(), 1);
            assert!(node.sims <= tree.node(node.parent).sims);
        }
        if node.action.is_none() {
            without_action += 1;
        }
        if !node.children.is_empty() {
            let turns = node.state.turns();
            assert_eq!(node.children.len(), turns.len());
            for (k, c) in node.children.iter().enumerate() {
                assert_eq!(tree.node(*c).parent, i);
                assert_eq!(tree.node(*c).action, Some(turns[k]));
                let mut next = node.state.clone();
                assert!(next.play(turns[k]));
                assert_eq!(tree.node(*c).state, next);
            }
            if i != ROOT {
                assert!(node.sims > THRESHOLD);
            }
        }
    }
    assert_eq!(parentless, 1);
    assert_eq!(without_action, 1);
    assert_eq!(tree.node(ROOT).parent, SENTINEL);
    assert_eq!(tree.node(ROOT).action, None);
}

#[test]
fn a_search_without_time_expands_the_root_and_stops() {
    let game = Count::start(3, 4, Rule::Parity);
    let tree = search(&game, &ucb1, 0, THRESHOLD);
    assert_eq!(tree.len(), 5);
    assert_eq!(stats(&tree), vec![(0, 0); 5]);
    assert_eq!(tree.most_simulated(), 1);
}

#[test]
fn a_search_of_a_finished_game_has_a_root_without_children() {
    let game = Count::start(0, 4, Rule::Parity);
    let tree = search(&game, &ucb1, 20, 0);
    assert_eq!(tree.len(), 1);
    assert!(tree.node(ROOT).children.is_empty());
    assert_eq!(tree.node(ROOT).wins, 0);
}

#[test]
fn run_finds_the_winning_turn() {
    // One turn is left, A is to play it, and A wins with an even sum: 0 or 2.
    let game = Count { left: 1, width: 3, sum: 0, a_moves: true, rule: Rule::Parity };
    let turn = run(&game, &ucb1);
    assert!(turn == 0 || turn == 2);
}

#[test]
fn run_returns_a_legal_turn() {
    let game = Count::start(3, 3, Rule::Draw);
    let turn = run(&game, &flat);
    assert!(game.turns().contains(&turn));
}

// --------------------------------------------------------------- random

#[test]
fn the_random_policy_plays_legal_turns_and_all_of_them() {
    let game = Count::start(2, 3, Rule::Parity);
    let mut seen = [false; 3];
    for _ in 0..600 {
        let turn = gamesweet::ai::rand::run(&game);
        assert!(turn < 3);
        seen[usize::from(turn)] = true;
    }
    assert_eq!(seen, [true, true, true]);
}

#[test]
fn the_random_policy_plays_the_only_turn() {
    let game = Count::start(2, 1, Rule::Parity);
    assert_eq!(gamesweet::ai::rand::run(&game), 0);
}
