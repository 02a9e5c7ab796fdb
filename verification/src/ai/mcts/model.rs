//! The search tree as mathematics: what it means for a sequence of nodes to
//! be a search tree, and what each step of the search does to it.
use crate::ai::mcts::{Node, Priority, SENTINEL};
use crate::Game;
use vstd::prelude::*;

verus! {

/// Node `i` is linked into the arena: it knows its own handle, it has no
/// more wins than simulations, the root alone has no parent and no action,
/// every other node stands behind its parent, in its parent's list, with no
/// more simulations than its parent, and a list of children rises and names
/// nodes that name this one as their parent.
pub open spec fn linked<G: Game>(nodes: Seq<Node<G>>, i: int) -> bool {
    let n = nodes[i];
    &&& n.idx == i
    &&& n.wins <= n.sims
    &&& i == 0 ==> n.parent == SENTINEL && n.action is None
    &&& i != 0 ==> {
        &&& 0 <= n.parent < i
        &&& n.action is Some
        &&& nodes[n.parent as int].children@.contains(i as usize)
        &&& n.sims <= nodes[n.parent as int].sims
    }
    &&& forall|k: int|
        0 <= k < n.children@.len() ==> i < #[trigger] n.children@[k] < nodes.len()
            && nodes[n.children@[k] as int].parent == i
    &&& forall|j: int, k: int|
        0 <= j < k < n.children@.len() ==> #[trigger] n.children@[j] < #[trigger] n.children@[k]
}

/// The children of node `i` stand for the first legal turns of its state, in
/// their order: child `k` was reached by legal turn `k` and holds the position
/// after it.
pub open spec fn grown<G: Game>(nodes: Seq<Node<G>>, i: int) -> bool {
    let n = nodes[i];
    forall|k: int|
        0 <= k < n.children@.len() ==> {
            let c = nodes[#[trigger] n.children@[k] as int];
            &&& k < n.state.legal().len()
            &&& c.action == Some(n.state.legal()[k])
            &&& c.state == n.state.after(n.state.legal()[k])
        }
}

/// Node `i` has no children, or one for each legal turn of its state.
pub open spec fn expanded<G: Game>(nodes: Seq<Node<G>>, i: int) -> bool {
    let n = nodes[i];
    n.children@.len() == 0 || n.children@.len() == n.state.legal().len()
}

/// The nodes form a search tree, with the root at handle 0.
pub open spec fn well_formed<G: Game>(nodes: Seq<Node<G>>) -> bool {
    &&& 1 <= nodes.len() <= usize::MAX
    &&& forall|i: int|
        0 <= i < nodes.len() ==> #[trigger] linked(nodes, i) && grown(nodes, i) && expanded(nodes, i)
}

/// `score` can rank every visited node: it takes the wins and simulations of
/// a node that was simulated, with the simulations of its parent, which are
/// no fewer, and the same counters always get the same rank.
pub open spec fn scoring<S: Fn(u32, u32, u32) -> u64>(score: &S) -> bool {
    &&& forall|wins: u32, sims: u32, psims: u32|
        wins <= sims && 0 < sims <= psims ==> #[trigger] score.requires((wins, sims, psims))
    &&& forall|wins: u32, sims: u32, psims: u32, a: u64, b: u64|
        #[trigger] score.ensures((wins, sims, psims), a) && #[trigger] score.ensures(
            (wins, sims, psims),
            b,
        ) ==> a == b
}

/// A ranking of visited nodes: from the wins and simulations of a node and
/// the simulations of its parent to the node's rank.
pub type Ranking = spec_fn(u32, u32, u32) -> u64;

/// The ranking that `score` computes.
pub open spec fn ranking<S: Fn(u32, u32, u32) -> u64>(score: &S) -> Ranking {
    |wins: u32, sims: u32, psims: u32| choose|r: u64| score.ensures((wins, sims, psims), r)
}

/// The keys of a list of priorities.
pub open spec fn keys(priorities: Seq<Priority>) -> Seq<int> {
    priorities.map_values(|p: Priority| p.key())
}

/// `k` is the first place of `keys` that holds their maximum.
pub open spec fn first_max(keys: Seq<int>, k: int) -> bool {
    &&& 0 <= k < keys.len()
    &&& forall|j: int| 0 <= j < keys.len() ==> keys[j] <= keys[k]
    &&& forall|j: int| 0 <= j < k ==> keys[j] < keys[k]
}

/// The priorities of the children of node `i`, in their order.
pub open spec fn child_priorities<G: Game>(nodes: Seq<Node<G>>, ranks: Ranking, i: int) -> Seq<
    Priority,
> {
    nodes[i].children@.map_values(|c: usize| nodes[c as int].spec_priority(nodes[i].sims, ranks))
}

/// The place, among the children of node `i`, of the child that selection
/// steps to: the first of those with the highest priority.
pub open spec fn favourite<G: Game>(nodes: Seq<Node<G>>, ranks: Ranking, i: int) -> int {
    choose|k: int| first_max(keys(child_priorities(nodes, ranks, i)), k)
}

/// The leaf that selection reaches from node `i`: `i` itself if it has no
/// children, else the leaf reached from its favourite child.
pub open spec fn descent<G: Game>(nodes: Seq<Node<G>>, ranks: Ranking, i: int) -> int
    decreases nodes.len() - i,
{
    if 0 <= i < nodes.len() && nodes[i].children@.len() > 0 {
        let next = nodes[i].children@[favourite(nodes, ranks, i)] as int;
        if i < next < nodes.len() {
            descent(nodes, ranks, next)
        } else {
            i
        }
    } else {
        i
    }
}

/// The simulations of the children of the root, in their order.
pub open spec fn child_sims<G: Game>(nodes: Seq<Node<G>>) -> Seq<int> {
    nodes[0].children@.map_values(|c: usize| nodes[c as int].sims as int)
}

/// The numbers of `list`, added up.
pub open spec fn sum(list: Seq<int>) -> int
    decreases list.len(),
{
    if list.len() == 0 {
        0
    } else {
        sum(list.drop_last()) + list.last()
    }
}

/// The node through which the path from node `i` enters the root: `i` itself
/// if it is a child of the root, else the entry of its parent.
pub open spec fn entry<G: Game>(nodes: Seq<Node<G>>, i: int) -> int
    decreases i,
{
    if 0 < i < nodes.len() && 0 < nodes[i].parent < i {
        entry(nodes, nodes[i].parent as int)
    } else {
        i
    }
}

/// `turn` is what the tree plays: the turn to the most simulated child of the
/// root, and of several children with the most simulations, to the first.
pub open spec fn choice<G: Game>(nodes: Seq<Node<G>>, turn: G::Turn) -> bool {
    exists|k: int|
        first_max(child_sims(nodes), k) && nodes[#[trigger] nodes[0].children@[k] as int].action
            == Some(turn)
}

/// `after` is `before` with the first `upto` legal turns of the leaf `idx`
/// made into children: the old nodes are kept, node `idx` has got the handles
/// of the new nodes as its children, and the new nodes, one for each of those
/// turns and in their order, come behind the old ones, each without children
/// or simulations. The arena still has a handle for every node.
pub open spec fn partial_expansion<G: Game>(
    before: Seq<Node<G>>,
    after: Seq<Node<G>>,
    idx: int,
    upto: int,
) -> bool {
    let legal = before[idx].state.legal();
    &&& 0 <= upto <= legal.len()
    &&& after.len() == before.len() + upto <= usize::MAX
    &&& forall|i: int| 0 <= i < before.len() && i != idx ==> #[trigger] after[i] == before[i]
    &&& after[idx].idx == before[idx].idx
    &&& after[idx].parent == before[idx].parent
    &&& after[idx].state == before[idx].state
    &&& after[idx].action == before[idx].action
    &&& after[idx].wins == before[idx].wins
    &&& after[idx].sims == before[idx].sims
    &&& after[idx].children@ =~= Seq::new(upto as nat, |k: int| (before.len() + k) as usize)
    &&& forall|k: int|
        0 <= k < upto ==> {
            let c = #[trigger] after[before.len() + k];
            &&& c.idx == before.len() + k
            &&& c.parent == idx
            &&& c.children@.len() == 0
            &&& c.state == before[idx].state.after(legal[k])
            &&& c.action == Some(legal[k])
            &&& c.wins == 0
            &&& c.sims == 0
        }
}

/// `after` is `before` with the leaf `idx` expanded: every legal turn of its
/// state has been made into a child.
pub open spec fn expansion<G: Game>(before: Seq<Node<G>>, after: Seq<Node<G>>, idx: int) -> bool {
    partial_expansion(before, after, idx, before[idx].state.legal().len() as int)
}

/// The position reached from `from` by the turns of `path`.
pub open spec fn follow<G: Game>(from: G, path: Seq<G::Turn>) -> G
    decreases path.len(),
{
    if path.len() == 0 {
        from
    } else {
        follow(from, path.drop_last()).after(path.last())
    }
}

/// Every turn of `path` is legal where it is played, and the game is not over
/// before it.
pub open spec fn playable<G: Game>(from: G, path: Seq<G::Turn>) -> bool
    decreases path.len(),
{
    path.len() == 0 || {
        let at = follow(from, path.drop_last());
        &&& playable(from, path.drop_last())
        &&& !at.finished()
        &&& at.legal().contains(path.last())
    }
}

/// `path` plays the game from `from` to its end.
pub open spec fn playout<G: Game>(from: G, path: Seq<G::Turn>) -> bool {
    playable(from, path) && follow(from, path).finished()
}

/// Some play-through from `from` ends with `winner`.
pub open spec fn outcome<G: Game>(from: G, winner: Option<G::Player>) -> bool {
    exists|path: Seq<G::Turn>| #[trigger] playout(from, path) && winner == follow(from, path).victor()
}

/// Node `i` is node `from` or one of its ancestors.
pub open spec fn on_path<G: Game>(nodes: Seq<Node<G>>, from: int, i: int) -> bool
    decreases from,
{
    if 0 <= from < nodes.len() {
        if i == from {
            true
        } else if 0 <= nodes[from].parent < from {
            on_path(nodes, nodes[from].parent as int, i)
        } else {
            false
        }
    } else {
        false
    }
}

/// The player that backpropagation takes for the winner: the winner, or for
/// a draw the player to move at the root.
pub open spec fn effective<G: Game>(nodes: Seq<Node<G>>, winner: Option<G::Player>) -> G::Player {
    match winner {
        Some(player) => player,
        None => nodes[0].state.mover(),
    }
}

/// `after` is `before` with `extra(i)` more simulations in each node `i`, and
/// as many more wins unless `winner` is to move in its state. Nothing else
/// has changed.
pub open spec fn counted<G: Game>(
    before: Seq<Node<G>>,
    after: Seq<Node<G>>,
    winner: G::Player,
    extra: spec_fn(int) -> int,
) -> bool {
    &&& after.len() == before.len()
    &&& forall|i: int|
        0 <= i < before.len() ==> {
            &&& (#[trigger] after[i]).idx == before[i].idx
            &&& after[i].parent == before[i].parent
            &&& after[i].children == before[i].children
            &&& after[i].state == before[i].state
            &&& after[i].action == before[i].action
            &&& after[i].sims == before[i].sims + extra(i)
            &&& after[i].wins == before[i].wins + if winner != before[i].state.mover() {
                extra(i)
            } else {
                0
            }
        }
}

/// `after` is `before` with one simulation from node `idx`, won by `winner`,
/// counted in the nodes from `idx` up to the root, or, where `next` is a
/// node, up to but without `next`: each of them has one more simulation, and
/// one more win unless the winner, or for a draw the player to move at the
/// root, is to move in its state. Nothing else has changed.
pub open spec fn backed_up_to<G: Game>(
    before: Seq<Node<G>>,
    after: Seq<Node<G>>,
    idx: int,
    next: int,
    winner: Option<G::Player>,
) -> bool {
    counted(
        before,
        after,
        effective(before, winner),
        |i: int|
            if on_path(before, idx, i) && !on_path(before, next, i) {
                1int
            } else {
                0int
            },
    )
}

/// `after` is `before` with one simulation from node `idx`, won by `winner`,
/// counted in every node from `idx` up to the root.
pub open spec fn backed_up<G: Game>(
    before: Seq<Node<G>>,
    after: Seq<Node<G>>,
    idx: int,
    winner: Option<G::Player>,
) -> bool {
    counted(
        before,
        after,
        effective(before, winner),
        |i: int|
            if on_path(before, idx, i) {
                1int
            } else {
                0int
            },
    )
}

/// Every node but the root that has children has more than `threshold`
/// simulations.
pub open spec fn deferred<G: Game>(nodes: Seq<Node<G>>, threshold: u32) -> bool {
    forall|i: int|
        0 < i < nodes.len() && (#[trigger] nodes[i]).children@.len() > 0 ==> nodes[i].sims > threshold
}

/// `after` is `before` after one round of the search that expanded the
/// selected leaf into `mid`, or left the tree as it was, simulated from node
/// `at` along `path`, and counted the outcome.
pub open spec fn round_through<G: Game>(
    before: Seq<Node<G>>,
    mid: Seq<Node<G>>,
    at: int,
    path: Seq<G::Turn>,
    after: Seq<Node<G>>,
    ranks: Ranking,
    threshold: u32,
) -> bool {
    let leaf = descent(before, ranks, 0);
    &&& if before[leaf].sims > threshold {
        expansion(before, mid, leaf)
    } else {
        mid == before
    }
    &&& 0 <= at < mid.len()
    &&& if mid[leaf].children@.len() == 0 {
        at == leaf
    } else {
        mid[leaf].children@.contains(at as usize)
    }
    &&& playout(mid[at].state, path)
    &&& backed_up(mid, after, at, follow(mid[at].state, path).victor())
}

/// `after` is `before` after one round of the search: the leaf that selection
/// reaches is expanded if it has more than `threshold` simulations, and the
/// outcome of one play-through, from one of its new children if it has got
/// any and else from the leaf itself, is counted.
pub open spec fn round_of<G: Game>(
    before: Seq<Node<G>>,
    after: Seq<Node<G>>,
    ranks: Ranking,
    threshold: u32,
) -> bool {
    exists|mid: Seq<Node<G>>, at: int, path: Seq<G::Turn>| #[trigger]
        round_through(before, mid, at, path, after, ranks, threshold)
}

/// `nodes` is the tree that a search of `game` starts from: a root that holds
/// `game`, with a child for each of its legal turns, and nothing simulated
/// yet.
pub open spec fn seeded<G: Game>(nodes: Seq<Node<G>>, game: G) -> bool {
    &&& well_formed(nodes)
    &&& nodes[0].state == game
    &&& nodes.len() == 1 + game.legal().len()
    &&& nodes[0].children@.len() == game.legal().len()
    &&& forall|i: int|
        0 <= i < nodes.len() ==> (#[trigger] nodes[i]).sims == 0 && (i > 0 ==> nodes[i].children@.len()
            == 0)
}

/// `after` is reached from `before` by `n` rounds of the search.
pub open spec fn rounds_of<G: Game>(
    before: Seq<Node<G>>,
    after: Seq<Node<G>>,
    ranks: Ranking,
    threshold: u32,
    n: nat,
) -> bool
    decreases n,
{
    if n == 0 {
        after == before
    } else {
        exists|mid: Seq<Node<G>>|
            rounds_of(before, mid, ranks, threshold, (n - 1) as nat) && #[trigger] round_of(
                mid,
                after,
                ranks,
                threshold,
            )
    }
}

/// `nodes` is a tree that a search of `game` can yield: `rounds` rounds
/// after its start, and none where the game has just one legal turn.
pub open spec fn searched<G: Game>(
    nodes: Seq<Node<G>>,
    game: G,
    ranks: Ranking,
    threshold: u32,
    rounds: nat,
) -> bool {
    &&& game.legal().len() == 1 ==> rounds == 0
    &&& exists|seed: Seq<Node<G>>|
        seeded(seed, game) && #[trigger] rounds_of(seed, nodes, ranks, threshold, rounds)
}

} // verus!
