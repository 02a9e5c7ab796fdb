//! Monte Carlo tree search: a tree of game states that grows round by round,
//! each round one selection, expansion, simulation and backpropagation.
use crate::ai::mcts::laws::{
    lemma_backed_up_keeps_form, lemma_expansion_keeps_form, lemma_first_max_unique,
    lemma_on_path_bounds, lemma_on_path_parent, lemma_rounds_keep_form, lemma_sims_below_root,
};
use crate::ai::mcts::model::{
    backed_up, backed_up_to, child_priorities, child_sims, choice, descent, effective, expansion,
    favourite, first_max, follow, grown, keys, linked, on_path, outcome, partial_expansion, playable,
    playout, ranking, round_of, round_through, rounds_of, scoring, searched, seeded, well_formed,
    Ranking,
};
use crate::ai::rand::pick;
use crate::{faithful, Game};
use std::time::{Duration, Instant};
use vstd::prelude::*;

pub mod laws;
pub mod model;

verus! {

/// The search time of `run`, in milliseconds.
pub const DURATION: u128 = 995;

/// The number of simulations that a leaf must exceed before `run` expands it.
pub const THRESHOLD: u32 = 3;

/// The handle of the root.
pub const ROOT: usize = 0;

/// The parent handle of the root: no node has this handle.
pub const SENTINEL: usize = usize::MAX;

/// `std::time::Instant`: a reading of the clock, of which verified code sees
/// nothing.
#[verifier::external_type_specification]
#[verifier::external_body]
pub struct ExInstant(Instant);

/// The current reading of the monotonic clock, from
/// `std::time::Instant::now`. Nothing is claimed of it.
#[verifier::external_body]
fn clock() -> Instant {
    Instant::now()
}

/// The time that has passed since `start`, from
/// `std::time::Instant::elapsed`. Two readings may differ, so nothing is
/// claimed of one.
#[verifier::external_body]
fn elapsed(start: &Instant) -> Duration {
    start.elapsed()
}

/// The whole milliseconds of `span`, from `std::time::Duration::as_millis`.
/// Verified code sees nothing in a `Duration`, so nothing is claimed of the
/// number.
#[verifier::external_body]
fn millis(span: &Duration) -> u128 {
    span.as_millis()
}

/// Run MCTS to select a turn: search for `DURATION` milliseconds, expanding
/// a leaf once it has more than `THRESHOLD` simulations, and play the most
/// simulated turn. `score` ranks the visited children during selection.
///
/// The game must have a legal turn. Where it has just one, that turn is
/// returned, and nothing was simulated to find it.
pub fn run<G: Game, S: Fn(u32, u32, u32) -> u64>(game: &G, score: &S) -> (turn: G::Turn)
    requires
        faithful::<G>(),
        scoring(score),
        game.legal().len() > 0,
    ensures
        game.legal().contains(turn),
        game.legal().len() == 1 ==> turn == game.legal()[0],
        exists|nodes: Seq<Node<G>>|
            searched(nodes, *game, ranking(score), THRESHOLD, nodes[0].sims as nat) && #[trigger] choice(
                nodes,
                turn,
            ),
{
    let tree = search(game, score, DURATION, THRESHOLD);

    // Play most simulated node
    let best = tree.most_simulated();
    let ghost k = choose|k: int| first_max(child_sims(tree@), k) && best == tree@[0].children@[k];
    proof {
        assert(well_formed(tree@));
        assert(linked(tree@, 0));
        assert(grown(tree@, 0));
        assert(tree@[best as int] == tree@[tree@[0].children@[k] as int]);
    }
    let action = tree.node(best).action.clone();
    proof {
        assert(cloned(tree@[best as int].action, action));
        assert(first_max(child_sims(tree@), k) && tree@[tree@[0].children@[k] as int].action == Some(
            action->0,
        ));
        assert(choice(tree@, action->0));
    }
    action.unwrap()
}

/// Build the search tree for `game`: a root for a copy of `game`, expanded at
/// once, and then, unless the root has exactly one child, rounds of
/// selection, expansion, simulation and backpropagation until `budget`
/// milliseconds have passed or the root's counter is full. A leaf is expanded
/// only when it has more than `threshold` simulations.
///
/// How many rounds there were depends on the clock; the root has counted
/// them.
pub fn search<G: Game, S: Fn(u32, u32, u32) -> u64>(
    game: &G,
    score: &S,
    budget: u128,
    threshold: u32,
) -> (tree: Tree<G>)
    requires
        faithful::<G>(),
        scoring(score),
    ensures
        tree.wf(),
        searched(tree@, *game, ranking(score), threshold, tree@[0].sims as nat),
        tree@[0].state == *game,
        tree@[0].children@.len() == game.legal().len(),
{
    // Record time MCTS was started
    let now = clock();

    // Create the game tree
    let state = game.clone();
    assert(cloned(*game, state));
    let mut tree = Tree::new(state);
    tree.expand(ROOT);  // expand at root
    let ghost seed = tree@;
    proof {
        assert forall|i: int| 0 <= i < seed.len() implies (#[trigger] seed[i]).sims == 0 && (i > 0
            ==> seed[i].children@.len() == 0) by {
            if i > 0 {
                assert(seed[i] == seed[1 + (i - 1)]);
            }
        }
        assert(seeded(seed, *game));
        assert(rounds_of(seed, tree@, ranking(score), threshold, 0));
    }

    // Return immediately if only one valid turn
    if tree.node(ROOT).children.len() == 1 {
        return tree;
    }
    while millis(&elapsed(&now)) < budget && tree.node(ROOT).sims < u32::MAX
        invariant
            faithful::<G>(),
            scoring(score),
            tree.wf(),
            seeded(seed, *game),
            game.legal().len() != 1,
            rounds_of(seed, tree@, ranking(score), threshold, tree@[0].sims as nat),
        decreases u32::MAX - tree@[0].sims,
    {
        let ghost before = tree@;
        tree.round(score, threshold);
        proof {
            let ranks = ranking(score);
            lemma_rounds_keep_form(seed, before, *game, ranks, threshold, before[0].sims as nat);
            assert(rounds_of(seed, before, ranks, threshold, before[0].sims as nat) && round_of(
                before,
                tree@,
                ranks,
                threshold,
            ));
            assert(rounds_of(seed, tree@, ranks, threshold, (before[0].sims + 1) as nat));
            lemma_rounds_keep_form(seed, tree@, *game, ranks, threshold, (before[0].sims + 1) as nat);
        }
    }
    proof {
        lemma_rounds_keep_form(seed, tree@, *game, ranking(score), threshold, tree@[0].sims as nat);
    }
    tree
}

/// How much selection wants to visit a node: a rank, or more than any rank.
#[derive(Clone, Copy, Debug, PartialEq, Eq)]
pub enum Priority {
    Finite(u64),
    Infinite,
}

impl Priority {
    /// The number by which priorities are ordered: the rank itself, and one
    /// more than the highest rank for `Infinite`.
    pub open spec fn key(self) -> int {
        match self {
            Priority::Finite(rank) => rank as int,
            Priority::Infinite => u64::MAX + 1,
        }
    }

    /// Whether this priority is strictly higher than `other`.
    pub fn exceeds(&self, other: &Priority) -> (higher: bool)
        ensures
            higher == (self.key() > other.key()),
    {
        match (self, other) {
            (Priority::Finite(a), Priority::Finite(b)) => *a > *b,
            (Priority::Finite(_), Priority::Infinite) => false,
            (Priority::Infinite, Priority::Finite(_)) => true,
            (Priority::Infinite, Priority::Infinite) => false,
        }
    }
}

/// The place of the highest priority; of several that are highest, the first.
pub fn best(priorities: &Vec<Priority>) -> (k: usize)
    requires
        priorities@.len() > 0,
    ensures
        first_max(keys(priorities@), k as int),
{
    let mut k: usize = 0;
    let mut i: usize = 1;
    while i < priorities.len()
        invariant
            1 <= i <= priorities@.len(),
            first_max(keys(priorities@).take(i as int), k as int),
        decreases priorities@.len() - i,
    {
        if priorities[i].exceeds(&priorities[k]) {
            k = i;
        }
        i += 1;
    }
    assert(keys(priorities@).take(i as int) == keys(priorities@));
    k
}

/// A single state in the game tree.
pub struct Node<G: Game> {
    // Position
    pub idx: usize,
    pub parent: usize,
    pub children: Vec<usize>,
    // State
    pub state: G,
    pub action: Option<G::Turn>,
    // Statistics
    pub wins: u32,
    pub sims: u32,
}

impl<G: Game> Node<G> {
    /// Create a new Node: no children yet, and no simulation.
    pub fn new(idx: usize, parent: usize, state: G, action: Option<G::Turn>) -> (node: Node<G>)
        ensures
            node.idx == idx,
            node.parent == parent,
            node.children@ == Seq::<usize>::empty(),
            node.state == state,
            node.action == action,
            node.wins == 0,
            node.sims == 0,
    {
        Node { idx, parent, children: Vec::new(), state, action, wins: 0, sims: 0 }
    }

    /// The priority of this node under a parent with `psims` simulations: a
    /// node that was never simulated has `Infinite`, any other the rank that
    /// `ranks` gives to its counters.
    pub open spec fn spec_priority(&self, psims: u32, ranks: Ranking) -> Priority {
        if self.sims == 0 {
            Priority::Infinite
        } else {
            Priority::Finite(ranks(self.wins, self.sims, psims))
        }
    }

    /// Calculate node priority
    pub fn priority<S: Fn(u32, u32, u32) -> u64>(&self, psims: u32, score: &S) -> (priority:
        Priority)
        requires
            scoring(score),
            self.sims > 0 ==> self.wins <= self.sims <= psims,
        ensures
            priority == self.spec_priority(psims, ranking(score)),
    {
        if self.sims == 0 {
            Priority::Infinite
        } else {
            Priority::Finite(score(self.wins, self.sims, psims))
        }
    }

    /// Simulate the game from this node: play random legal turns on a copy of
    /// the node's state until the game is over, and report its winner.
    pub fn simulate(&self) -> (winner: Option<G::Player>)
        requires
            faithful::<G>(),
        ensures
            outcome(self.state, winner),
    {
        // Create a copy of the current state to simulate
        let mut state = self.state.clone();
        assert(cloned(self.state, state));
        let ghost mut path: Seq<G::Turn> = Seq::empty();

        while !state.over()
            invariant
                faithful::<G>(),
                playable(self.state, path),
                state == follow(self.state, path),
            decreases state.horizon(),
        {
            // Policy: select a random move
            let turns = state.turns();
            let drawn = pick(&turns).unwrap();
            let action = drawn.clone();
            assert(cloned(*drawn, action));
            proof {
                assert(path.push(action).drop_last() == path);
                path = path.push(action);
            }
            state.play(action);
        }

        assert(playout(self.state, path));
        state.winner()
    }
}

/// The game tree from the current position: an arena of nodes that only
/// grows, each node named by its index, the root by `ROOT`.
pub struct Tree<G: Game> {
    arena: Vec<Node<G>>,
}

impl<G: Game> Tree<G> {
    /// The nodes of the tree, each at its handle.
    pub closed spec fn view(&self) -> Seq<Node<G>> {
        self.arena@
    }

    /// The tree's invariant: its nodes form a search tree.
    pub open spec fn wf(&self) -> bool {
        well_formed(self@)
    }

    /// Create a new Tree initialized with a root.
    pub fn new(state: G) -> (tree: Tree<G>)
        ensures
            tree.wf(),
            tree@.len() == 1,
            tree@[0].state == state,
            tree@[0].children@.len() == 0,
            tree@[0].wins == 0,
            tree@[0].sims == 0,
    {
        let mut arena = Vec::new();
        arena.push(Node::new(ROOT, SENTINEL, state, None));
        let tree = Tree { arena };
        assert(linked(tree.arena@, 0));
        tree
    }

    /// The number of nodes.
    pub fn len(&self) -> (n: usize)
        ensures
            n == self@.len(),
    {
        self.arena.len()
    }

    /// The node with handle `idx`.
    pub fn node(&self, idx: usize) -> (node: &Node<G>)
        requires
            idx < self@.len(),
        ensures
            *node == self@[idx as int],
    {
        &self.arena[idx]
    }

    /// The priorities of the children of `idx`, in their order.
    pub fn priorities<S: Fn(u32, u32, u32) -> u64>(&self, idx: usize, score: &S) -> (list: Vec<
        Priority,
    >)
        requires
            self.wf(),
            scoring(score),
            idx < self@.len(),
        ensures
            list@ == child_priorities(self@, ranking(score), idx as int),
    {
        let node = &self.arena[idx];
        let mut list: Vec<Priority> = Vec::new();
        let mut k: usize = 0;
        while k < node.children.len()
            invariant
                scoring(score),
                well_formed(self.arena@),
                idx < self.arena@.len(),
                *node == self.arena@[idx as int],
                k <= node.children@.len(),
                list@ == child_priorities(self.arena@, ranking(score), idx as int).take(k as int),
            decreases node.children@.len() - k,
        {
            let c = node.children[k];
            assert(linked(self.arena@, idx as int));
            assert(linked(self.arena@, c as int));
            let child = &self.arena[c];
            list.push(child.priority(node.sims, score));
            k += 1;
            assert(list@ == child_priorities(self.arena@, ranking(score), idx as int).take(k as int));
        }
        assert(list@ == child_priorities(self.arena@, ranking(score), idx as int));
        list
    }

    /// Explore the game tree: from the root, step to the child of highest
    /// priority, the first of them where several are highest, until a node
    /// without children is reached.
    pub fn select<S: Fn(u32, u32, u32) -> u64>(&self, score: &S) -> (leaf: usize)
        requires
            self.wf(),
            scoring(score),
        ensures
            leaf == descent(self@, ranking(score), 0),
            leaf < self@.len(),
            self@[leaf as int].children@.len() == 0,
    {
        let mut node = ROOT;  // start at the root

        // Loop until `node` has no children
        while self.arena[node].children.len() > 0
            invariant
                scoring(score),
                self.wf(),
                node < self.arena@.len(),
                descent(self.arena@, ranking(score), node as int) == descent(
                    self.arena@,
                    ranking(score),
                    0,
                ),
            decreases self.arena@.len() - node,
        {
            // Get the child with the highest priority
            let list = self.priorities(node, score);
            let k = best(&list);
            proof {
                lemma_first_max_unique(
                    keys(list@),
                    k as int,
                    favourite(self.arena@, ranking(score), node as int),
                );
                assert(linked(self.arena@, node as int));
            }
            node = self.arena[node].children[k];
        }
        node
    }

    /// Expand a node to create children in the game tree: one child for
    /// each legal turn of the node's state, in their order. The node must be
    /// a leaf.
    pub fn expand(&mut self, idx: usize)
        requires
            faithful::<G>(),
            old(self).wf(),
            idx < old(self)@.len(),
            old(self)@[idx as int].children@.len() == 0,
        ensures
            final(self).wf(),
            expansion(old(self)@, final(self)@, idx as int),
    {
        let turns = self.arena[idx].state.turns();
        let ghost before = self.arena@;
        let ghost legal = before[idx as int].state.legal();
        for action in it: turns.into_iter()
            invariant
                faithful::<G>(),
                idx < before.len(),
                legal == before[idx as int].state.legal(),
                it.seq() == legal,
                partial_expansion(before, self.arena@, idx as int, it.index() as int),
        {
            let ghost k = it.index() as int;
            // Clone state and play action
            let mut state = self.arena[idx].state.clone();
            assert(cloned(self.arena@[idx as int].state, state));
            let played = action.clone();
            assert(cloned(action, played));
            assert(legal[k] == action);
            state.play(played);

            // Add the new child
            let child = self.arena.len();
            self.arena.push(Node::new(child, idx, state, Some(action)));
            // Parent stores index of child
            self.arena[idx].children.push(child);
            assert(self.arena@.len() == self.arena.len());
            assert(partial_expansion(before, self.arena@, idx as int, k + 1));
        }
        proof {
            lemma_expansion_keeps_form(before, self.arena@, idx as int);
        }
    }

    /// Backpropagate the result of a simulation: every node from `idx` up to
    /// the root gets one more simulation, and one more win unless the winner
    /// is the player to move in its state. A draw counts as a win of the
    /// player to move at the root. The root's counter must not be full.
    pub fn backprop(&mut self, idx: usize, winner: Option<G::Player>)
        requires
            faithful::<G>(),
            old(self).wf(),
            idx < old(self)@.len(),
            old(self)@[0].sims < u32::MAX,
        ensures
            final(self).wf(),
            backed_up(old(self)@, final(self)@, idx as int, winner),
    {
        let ghost before = self.arena@;
        let ghost start = idx as int;
        let ghost given = winner;
        let winner = match winner {
            Some(player) => player,
            None => self.arena[ROOT].state.player(),
        };
        assert(linked(before, 0));

        // Backpropagate until the root
        let null = self.arena[ROOT].parent;
        let mut idx = idx;
        while idx != null
            invariant
                faithful::<G>(),
                well_formed(before),
                null == SENTINEL,
                before[0].sims < u32::MAX,
                winner == effective(before, given),
                0 <= start < before.len(),
                idx == SENTINEL || on_path(before, start, idx as int),
                backed_up_to(before, self.arena@, start, idx as int, given),
            decreases
                (if idx == SENTINEL {
                    0
                } else {
                    idx + 1
                }),
        {
            proof {
                lemma_on_path_bounds(before, start, idx as int);
                lemma_sims_below_root(before, idx as int);
                assert(linked(before, idx as int));
                if idx != 0 {
                    lemma_on_path_parent(before, start, idx as int);
                }
                assert forall|i: int| on_path(before, before[idx as int].parent as int, i) implies i
                    != idx by {
                    lemma_on_path_bounds(before, before[idx as int].parent as int, i);
                }
            }
            let node = &mut self.arena[idx];

            // Update statistics of node
            // NOTE: The game state stores the next player, but in MCTS, each
            //       node represents the current player.
            if winner != node.state.player() {
                node.wins += 1;
            }
            node.sims += 1;

            // Ascend to parent
            idx = node.parent;
        }
        proof {
            assert forall|i: int| !on_path(before, SENTINEL as int, i) by {
                if on_path(before, SENTINEL as int, i) {
                    lemma_on_path_bounds(before, SENTINEL as int, i);
                }
            }
            assert(backed_up(before, self.arena@, start, given));
            lemma_backed_up_keeps_form(before, self.arena@, start, given);
        }
    }

    /// The most simulated child of the root; of several with the most
    /// simulations, the first. The root must have a child.
    pub fn most_simulated(&self) -> (child: usize)
        requires
            self.wf(),
            self@[0].children@.len() > 0,
        ensures
            exists|k: int| first_max(child_sims(self@), k) && child == self@[0].children@[k],
    {
        let root = &self.arena[ROOT];
        let mut list: Vec<Priority> = Vec::new();
        let mut k: usize = 0;
        while k < root.children.len()
            invariant
                well_formed(self.arena@),
                *root == self.arena@[0],
                k <= root.children@.len(),
                list@.len() == k,
                keys(list@) == child_sims(self.arena@).take(k as int),
            decreases root.children@.len() - k,
        {
            let c = root.children[k];
            assert(linked(self.arena@, 0));
            list.push(Priority::Finite(self.arena[c].sims as u64));
            k += 1;
            assert(keys(list@) == child_sims(self.arena@).take(k as int));
        }
        assert(keys(list@) == child_sims(self.arena@));
        let k = best(&list);
        root.children[k]
    }

    /// One round of the search: select a leaf; if it has more than
    /// `threshold` simulations, expand it and pass to one of its new
    /// children, drawn at random; simulate from there and backpropagate the
    /// outcome. The root's counter must not be full.
    pub fn round<S: Fn(u32, u32, u32) -> u64>(&mut self, score: &S, threshold: u32)
        requires
            faithful::<G>(),
            scoring(score),
            old(self).wf(),
            old(self)@[0].sims < u32::MAX,
        ensures
            final(self).wf(),
            round_of(old(self)@, final(self)@, ranking(score), threshold),
    {
        let ghost before = self.arena@;

        // Select a leaf node to expand
        let mut leaf = self.select(score);
        let ghost selected = leaf as int;

        // Expand `leaf` if it's been simulated more than `threshold`
        if self.arena[leaf].sims > threshold {
            self.expand(leaf);
            leaf = match pick(&self.arena[leaf].children) {
                Some(child) => *child,
                None => leaf,
            };
        }
        let ghost mid = self.arena@;
        assert(linked(mid, selected));

        // Simulate at `leaf`
        let winner = self.arena[leaf].simulate();

        // Backpropagate the winner
        self.backprop(leaf, winner);
        proof {
            let path = choose|path: Seq<G::Turn>| #[trigger]
                playout(mid[leaf as int].state, path) && winner == follow(
                    mid[leaf as int].state,
                    path,
                ).victor();
            assert(round_through(
                before,
                mid,
                leaf as int,
                path,
                self.arena@,
                ranking(score),
                threshold,
            ));
        }
    }
}

} // verus!
