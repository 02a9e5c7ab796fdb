//! What holds of every search tree, and of every step of the search.
use crate::ai::mcts::model::{
    backed_up, child_priorities, child_sims, deferred, descent, entry, expanded, expansion, favourite,
    first_max, follow, grown, keys, linked, on_path, round_of, round_through, rounds_of, searched,
    seeded, sum, well_formed, Ranking,
};
use crate::ai::mcts::{Node, Priority, SENTINEL};
use crate::Game;
use vstd::prelude::*;

verus! {

/// At most one place is the first maximum.
pub proof fn lemma_first_max_unique(keys: Seq<int>, a: int, b: int)
    requires
        first_max(keys, a),
        first_max(keys, b),
    ensures
        a == b,
{
    assert(keys[a] <= keys[b] <= keys[a]);
}

/// A list that is not empty has a first maximum.
pub proof fn lemma_first_max_exists(keys: Seq<int>)
    requires
        keys.len() > 0,
    ensures
        exists|k: int| first_max(keys, k),
    decreases keys.len(),
{
    if keys.len() == 1 {
        assert(first_max(keys, 0));
    } else {
        let front = keys.drop_last();
        lemma_first_max_exists(front);
        let k = choose|k: int| first_max(front, k);
        assert(forall|j: int| 0 <= j < front.len() ==> front[j] == keys[j]);
        if keys.last() > keys[k] {
            assert(first_max(keys, keys.len() - 1));
        } else {
            assert(first_max(keys, k));
        }
    }
}

/// Every node of a search tree is linked, grown and expanded.
pub proof fn lemma_node_formed<G: Game>(nodes: Seq<Node<G>>, i: int)
    requires
        well_formed(nodes),
        0 <= i < nodes.len(),
    ensures
        linked(nodes, i),
        grown(nodes, i),
        expanded(nodes, i),
{
}

/// In a search tree no node has more wins than simulations.
pub proof fn lemma_wins_within_sims<G: Game>(nodes: Seq<Node<G>>, i: int)
    requires
        well_formed(nodes),
        0 <= i < nodes.len(),
    ensures
        nodes[i].wins <= nodes[i].sims,
{
    lemma_node_formed(nodes, i);
}

/// In a search tree the root has the sentinel for its parent and no action,
/// and it is the only node of which either holds.
pub proof fn lemma_root_alone<G: Game>(nodes: Seq<Node<G>>, i: int)
    requires
        well_formed(nodes),
        0 <= i < nodes.len(),
    ensures
        nodes[i].parent == SENTINEL <==> i == 0,
        nodes[i].action is None <==> i == 0,
{
    lemma_node_formed(nodes, i);
}

/// In a search tree a node that has children has one for each legal turn of
/// its state: child `k` was reached by legal turn `k`.
pub proof fn lemma_children_match_turns<G: Game>(nodes: Seq<Node<G>>, i: int, k: int)
    requires
        well_formed(nodes),
        0 <= i < nodes.len(),
        0 <= k < nodes[i].children@.len(),
    ensures
        nodes[i].children@.len() == nodes[i].state.legal().len(),
        nodes[nodes[i].children@[k] as int].action == Some(nodes[i].state.legal()[k]),
{
    lemma_node_formed(nodes, i);
}

/// A node on the path from `from` to the root is a node, and not behind `from`.
pub proof fn lemma_on_path_bounds<G: Game>(nodes: Seq<Node<G>>, from: int, i: int)
    requires
        on_path(nodes, from, i),
    ensures
        0 <= i <= from < nodes.len(),
    decreases from,
{
    if i != from {
        lemma_on_path_bounds(nodes, nodes[from].parent as int, i);
    }
}

/// With a node other than the root, its parent is on the path to the root.
pub proof fn lemma_on_path_parent<G: Game>(nodes: Seq<Node<G>>, from: int, i: int)
    requires
        well_formed(nodes),
        on_path(nodes, from, i),
        i != 0,
    ensures
        on_path(nodes, from, nodes[i].parent as int),
    decreases from,
{
    lemma_on_path_bounds(nodes, from, i);
    lemma_node_formed(nodes, i);
    lemma_node_formed(nodes, from);
    if i == from {
        assert(on_path(nodes, nodes[from].parent as int, nodes[i].parent as int));
    } else {
        lemma_on_path_parent(nodes, nodes[from].parent as int, i);
    }
}

/// The root is on the path from every node.
pub proof fn lemma_root_on_path<G: Game>(nodes: Seq<Node<G>>, i: int)
    requires
        well_formed(nodes),
        0 <= i < nodes.len(),
    ensures
        on_path(nodes, i, 0),
    decreases i,
{
    lemma_node_formed(nodes, i);
    if i != 0 {
        lemma_root_on_path(nodes, nodes[i].parent as int);
    }
}

/// No node has more simulations than the root.
pub proof fn lemma_sims_below_root<G: Game>(nodes: Seq<Node<G>>, i: int)
    requires
        well_formed(nodes),
        0 <= i < nodes.len(),
    ensures
        nodes[i].sims <= nodes[0].sims,
    decreases i,
{
    lemma_node_formed(nodes, i);
    if i != 0 {
        lemma_sims_below_root(nodes, nodes[i].parent as int);
    }
}

/// The leaf that selection reaches is a node without children.
pub proof fn lemma_descent_is_leaf<G: Game>(nodes: Seq<Node<G>>, ranks: Ranking, i: int)
    requires
        well_formed(nodes),
        0 <= i < nodes.len(),
    ensures
        0 <= descent(nodes, ranks, i) < nodes.len(),
        nodes[descent(nodes, ranks, i)].children@.len() == 0,
    decreases nodes.len() - i,
{
    if nodes[i].children@.len() > 0 {
        lemma_first_max_exists(keys(child_priorities(nodes, ranks, i)));
        let k = favourite(nodes, ranks, i);
        lemma_node_formed(nodes, i);
        lemma_descent_is_leaf(nodes, ranks, nodes[i].children@[k] as int);
    }
}

/// A node that was never simulated has the highest priority, so selection
/// never steps to a visited child of a node that has an unvisited child.
pub proof fn lemma_unvisited_first<G: Game>(nodes: Seq<Node<G>>, ranks: Ranking, i: int, unvisited: int)
    requires
        0 <= i < nodes.len(),
        0 <= unvisited < nodes[i].children@.len(),
        nodes[nodes[i].children@[unvisited] as int].sims == 0,
    ensures
        child_priorities(nodes, ranks, i)[unvisited] == Priority::Infinite,
        0 <= favourite(nodes, ranks, i) < nodes[i].children@.len(),
        nodes[nodes[i].children@[favourite(nodes, ranks, i)] as int].sims == 0,
{
    let list = child_priorities(nodes, ranks, i);
    lemma_first_max_exists(keys(list));
    let k = favourite(nodes, ranks, i);
    assert(keys(list)[unvisited] <= keys(list)[k]);
    assert(list[k].key() == keys(list)[k]);
}

/// Expanding a leaf of a search tree gives a search tree.
pub proof fn lemma_expansion_keeps_form<G: Game>(before: Seq<Node<G>>, after: Seq<Node<G>>, idx: int)
    requires
        well_formed(before),
        0 <= idx < before.len(),
        before[idx].children@.len() == 0,
        expansion(before, after, idx),
    ensures
        well_formed(after),
{
    assert forall|i: int| 0 <= i < after.len() implies #[trigger] linked(after, i) && grown(after, i)
        && expanded(after, i) by {
        if i >= before.len() {
            lemma_expansion_new_node(before, after, idx, i);
        } else if i == idx {
            lemma_expansion_leaf(before, after, idx);
        } else {
            lemma_expansion_old_node(before, after, idx, i);
        }
    }
}

/// A node that an expansion has made is in order.
proof fn lemma_expansion_new_node<G: Game>(before: Seq<Node<G>>, after: Seq<Node<G>>, idx: int, i: int)
    requires
        well_formed(before),
        0 <= idx < before.len(),
        expansion(before, after, idx),
        before.len() <= i < after.len(),
    ensures
        linked(after, i),
        grown(after, i),
        expanded(after, i),
{
    let k = i - before.len();
    let c = after[before.len() + k];
    assert(c == after[i]);
    assert(after[idx].children@[k] == i);
}

/// The node that an expansion has expanded is in order.
proof fn lemma_expansion_leaf<G: Game>(before: Seq<Node<G>>, after: Seq<Node<G>>, idx: int)
    requires
        well_formed(before),
        0 <= idx < before.len(),
        before[idx].children@.len() == 0,
        expansion(before, after, idx),
    ensures
        linked(after, idx),
        grown(after, idx),
        expanded(after, idx),
{
    let base = before.len() as int;
    let kids = after[idx].children@;
    lemma_node_formed(before, idx);
    assert forall|k: int| 0 <= k < kids.len() implies idx < #[trigger] kids[k] < after.len()
        && after[kids[k] as int].parent == idx by {
        assert(after[base + k].parent == idx);
    }
    assert forall|k: int| 0 <= k < kids.len() implies {
        let c = after[#[trigger] kids[k] as int];
        &&& k < after[idx].state.legal().len()
        &&& c.action == Some(after[idx].state.legal()[k])
        &&& c.state == after[idx].state.after(after[idx].state.legal()[k])
    } by {
        assert(after[base + k].parent == idx);
    }
    if idx != 0 {
        let p = before[idx].parent as int;
        assert(after[p] == before[p]);
    }
}

/// A node that an expansion has found and not expanded is in order.
proof fn lemma_expansion_old_node<G: Game>(before: Seq<Node<G>>, after: Seq<Node<G>>, idx: int, i: int)
    requires
        well_formed(before),
        0 <= idx < before.len(),
        before[idx].children@.len() == 0,
        expansion(before, after, idx),
        0 <= i < before.len(),
        i != idx,
    ensures
        linked(after, i),
        grown(after, i),
        expanded(after, i),
{
    lemma_node_formed(before, i);
    assert(after[i] == before[i]);
    let kids = before[i].children@;
    // A child of `i` may be the expanded leaf: what links it to `i` is kept.
    assert forall|k: int| 0 <= k < kids.len() implies {
        let c = #[trigger] kids[k] as int;
        &&& after[c].parent == before[c].parent
        &&& after[c].action == before[c].action
        &&& after[c].state == before[c].state
    } by {
        let c = kids[k] as int;
        if c != idx {
            assert(after[c] == before[c]);
        }
    }
    if i != 0 {
        let p = before[i].parent as int;
        if p == idx {
            assert(before[p].children@.contains(i as usize));
        }
        assert(after[p] == before[p]);
    }
}

/// Counting a simulation in a search tree gives a search tree.
pub proof fn lemma_backed_up_keeps_form<G: Game>(
    before: Seq<Node<G>>,
    after: Seq<Node<G>>,
    idx: int,
    winner: Option<G::Player>,
)
    requires
        well_formed(before),
        0 <= idx < before.len(),
        backed_up(before, after, idx, winner),
    ensures
        well_formed(after),
{
    assert forall|i: int| 0 <= i < after.len() implies #[trigger] linked(after, i) && grown(after, i)
        && expanded(after, i) by {
        lemma_backed_up_keeps_node(before, after, idx, winner, i);
    }
}

proof fn lemma_backed_up_keeps_node<G: Game>(
    before: Seq<Node<G>>,
    after: Seq<Node<G>>,
    idx: int,
    winner: Option<G::Player>,
    i: int,
)
    requires
        well_formed(before),
        0 <= idx < before.len(),
        backed_up(before, after, idx, winner),
        0 <= i < after.len(),
    ensures
        linked(after, i),
        grown(after, i),
        expanded(after, i),
{
    lemma_node_formed(before, i);
    let kids = before[i].children@;
    assert(after[i].children == before[i].children);
    assert forall|k: int| 0 <= k < kids.len() implies {
        let c = #[trigger] kids[k] as int;
        &&& after[c].parent == before[c].parent
        &&& after[c].action == before[c].action
        &&& after[c].state == before[c].state
    } by {
        let c = kids[k] as int;
        assert(after[c].idx == before[c].idx);
    }
    if i != 0 {
        let p = before[i].parent as int;
        if on_path(before, idx, i) {
            lemma_on_path_parent(before, idx, i);
        }
        assert(after[p].children == before[p].children);
        assert(after[i].sims <= after[p].sims);
    }
}

/// A list of which one number has grown by one adds up to one more.
pub proof fn lemma_sum_of_one_more(was: Seq<int>, is: Seq<int>, j: int)
    requires
        is.len() == was.len(),
        0 <= j < was.len(),
        forall|k: int|
            0 <= k < was.len() ==> is[k] == was[k] + if k == j {
                1int
            } else {
                0int
            },
    ensures
        sum(is) == sum(was) + 1,
    decreases was.len(),
{
    if j == was.len() - 1 {
        lemma_sum_of_same(was.drop_last(), is.drop_last());
    } else {
        lemma_sum_of_one_more(was.drop_last(), is.drop_last(), j);
    }
}

/// Lists of the same numbers add up to the same.
pub proof fn lemma_sum_of_same(was: Seq<int>, is: Seq<int>)
    requires
        is.len() == was.len(),
        forall|k: int| 0 <= k < was.len() ==> is[k] == was[k],
    ensures
        sum(is) == sum(was),
{
    assert(is =~= was);
}

/// A list of zeros adds up to zero.
pub proof fn lemma_sum_of_zeros(list: Seq<int>)
    requires
        forall|k: int| 0 <= k < list.len() ==> list[k] == 0,
    ensures
        sum(list) == 0,
    decreases list.len(),
{
    if list.len() > 0 {
        lemma_sum_of_zeros(list.drop_last());
    }
}

/// The path from a node other than the root enters the root through one of
/// the root's children.
pub proof fn lemma_entry_is_child<G: Game>(nodes: Seq<Node<G>>, i: int)
    requires
        well_formed(nodes),
        0 < i < nodes.len(),
    ensures
        0 < entry(nodes, i) <= i,
        nodes[entry(nodes, i)].parent == 0,
        on_path(nodes, i, entry(nodes, i)),
    decreases i,
{
    lemma_node_formed(nodes, i);
    if nodes[i].parent != 0 {
        lemma_entry_is_child(nodes, nodes[i].parent as int);
    }
}

/// The path from a node passes through no child of the root but its entry.
pub proof fn lemma_entry_alone<G: Game>(nodes: Seq<Node<G>>, i: int, c: int)
    requires
        well_formed(nodes),
        0 < i < nodes.len(),
        0 < c < nodes.len(),
        nodes[c].parent == 0,
        on_path(nodes, i, c),
    ensures
        c == entry(nodes, i),
    decreases i,
{
    lemma_node_formed(nodes, i);
    if c != i {
        let p = nodes[i].parent as int;
        assert(on_path(nodes, p, c));
        lemma_on_path_bounds(nodes, p, c);
        lemma_entry_alone(nodes, p, c);
    }
}

/// Counting a simulation from a node below the root adds one to the
/// simulations of the root's children, taken together.
pub proof fn lemma_backed_up_below_root<G: Game>(
    before: Seq<Node<G>>,
    after: Seq<Node<G>>,
    idx: int,
    winner: Option<G::Player>,
)
    requires
        well_formed(before),
        0 < idx < before.len(),
        backed_up(before, after, idx, winner),
    ensures
        sum(child_sims(after)) == sum(child_sims(before)) + 1,
{
    let kids = before[0].children@;
    let top = entry(before, idx);
    lemma_node_formed(before, 0);
    lemma_entry_is_child(before, idx);
    lemma_node_formed(before, top);
    assert(after[0].children == before[0].children);
    let j = choose|j: int| 0 <= j < kids.len() && kids[j] == top as usize;
    assert forall|k: int| 0 <= k < kids.len() implies child_sims(after)[k] == child_sims(before)[k]
        + if k == j {
        1int
    } else {
        0int
    } by {
        let c = kids[k] as int;
        if on_path(before, idx, c) {
            lemma_entry_alone(before, idx, c);
        }
        if k != j {
            assert(kids[k] != kids[j]);
        }
    }
    lemma_sum_of_one_more(child_sims(before), child_sims(after), j);
}

/// The tree between the expansion and the simulation of a round is a search
/// tree.
pub proof fn lemma_round_mid_formed<G: Game>(
    before: Seq<Node<G>>,
    mid: Seq<Node<G>>,
    at: int,
    path: Seq<G::Turn>,
    after: Seq<Node<G>>,
    ranks: Ranking,
    threshold: u32,
)
    requires
        well_formed(before),
        round_through(before, mid, at, path, after, ranks, threshold),
    ensures
        well_formed(mid),
{
    let leaf = descent(before, ranks, 0);
    lemma_descent_is_leaf(before, ranks, 0);
    if before[leaf].sims > threshold {
        lemma_expansion_keeps_form(before, mid, leaf);
    }
}

/// A round of the search on a search tree gives a search tree, with one more
/// simulation at the root.
pub proof fn lemma_round_keeps_form<G: Game>(
    before: Seq<Node<G>>,
    after: Seq<Node<G>>,
    ranks: Ranking,
    threshold: u32,
)
    requires
        well_formed(before),
        round_of(before, after, ranks, threshold),
    ensures
        well_formed(after),
        after[0].sims == before[0].sims + 1,
        after[0].state == before[0].state,
        after[0].children == before[0].children || after[0].children@.len()
            == before[0].state.legal().len(),
{
    let (mid, at, path) = choose|mid: Seq<Node<G>>, at: int, path: Seq<G::Turn>| #[trigger]
        round_through(before, mid, at, path, after, ranks, threshold);
    let leaf = descent(before, ranks, 0);
    lemma_descent_is_leaf(before, ranks, 0);
    lemma_round_mid_formed(before, mid, at, path, after, ranks, threshold);
    lemma_backed_up_keeps_form(mid, after, at, follow(mid[at].state, path).victor());
    lemma_root_on_path(mid, at);
    if leaf != 0 {
        assert(mid[0] == before[0]);
    }
}

/// No node is expanded twice: a round leaves the children of every node
/// that has children as they are.
pub proof fn lemma_round_keeps_children<G: Game>(
    before: Seq<Node<G>>,
    after: Seq<Node<G>>,
    ranks: Ranking,
    threshold: u32,
    i: int,
)
    requires
        well_formed(before),
        round_of(before, after, ranks, threshold),
        0 <= i < before.len(),
        before[i].children@.len() > 0,
    ensures
        after[i].children == before[i].children,
{
    let (mid, at, path) = choose|mid: Seq<Node<G>>, at: int, path: Seq<G::Turn>| #[trigger]
        round_through(before, mid, at, path, after, ranks, threshold);
    lemma_descent_is_leaf(before, ranks, 0);
    assert(mid[i] == before[i]);
}

/// A leaf is expanded only once it has more than `threshold` simulations: a
/// round grows the tree only at a leaf with more than `threshold`
/// simulations, and after it, as before, every node but the root that has
/// children has more than `threshold` simulations.
pub proof fn lemma_round_defers<G: Game>(
    before: Seq<Node<G>>,
    after: Seq<Node<G>>,
    ranks: Ranking,
    threshold: u32,
)
    requires
        well_formed(before),
        round_of(before, after, ranks, threshold),
        deferred(before, threshold),
    ensures
        after.len() != before.len() ==> before[descent(before, ranks, 0)].sims > threshold,
        deferred(after, threshold),
{
    let (mid, at, path) = choose|mid: Seq<Node<G>>, at: int, path: Seq<G::Turn>| #[trigger]
        round_through(before, mid, at, path, after, ranks, threshold);
    let leaf = descent(before, ranks, 0);
    lemma_descent_is_leaf(before, ranks, 0);
    assert forall|i: int|
        0 < i < after.len() && (#[trigger] after[i]).children@.len() > 0 implies after[i].sims
            > threshold by {
        assert(after[i].children == mid[i].children);
        if before[leaf].sims > threshold {
            if i < before.len() && i != leaf {
                assert(mid[i] == before[i]);
            } else if i >= before.len() {
                let c = mid[before.len() + (i - before.len())];
            }
        }
    }
}

/// Every simulation passes through one child of the root: a round of the
/// search on a tree whose root has children adds one to the simulations of
/// the root's children, taken together.
pub proof fn lemma_round_shares<G: Game>(
    before: Seq<Node<G>>,
    after: Seq<Node<G>>,
    ranks: Ranking,
    threshold: u32,
)
    requires
        well_formed(before),
        round_of(before, after, ranks, threshold),
        before[0].children@.len() > 0,
    ensures
        sum(child_sims(after)) == sum(child_sims(before)) + 1,
{
    let (mid, at, path) = choose|mid: Seq<Node<G>>, at: int, path: Seq<G::Turn>| #[trigger]
        round_through(before, mid, at, path, after, ranks, threshold);
    let leaf = descent(before, ranks, 0);
    lemma_descent_is_leaf(before, ranks, 0);
    lemma_round_mid_formed(before, mid, at, path, after, ranks, threshold);
    lemma_node_formed(before, 0);
    lemma_node_formed(mid, leaf);
    assert(mid[0] == before[0]);
    assert forall|k: int| 0 <= k < child_sims(before).len() implies child_sims(mid)[k] == child_sims(
        before,
    )[k] by {
        let c = before[0].children@[k] as int;
        if c != leaf {
            assert(mid[c] == before[c]);
        }
    }
    lemma_sum_of_same(child_sims(before), child_sims(mid));
    lemma_backed_up_below_root(mid, after, at, follow(mid[at].state, path).victor());
}

/// Every tree that is reached by rounds of the search from the start of a
/// search of `game` is a search tree; its root holds `game`, has a child for
/// each legal turn of `game` and as many simulations as there were rounds,
/// which are those of its children taken together; and every other node of
/// it that has children has more than `threshold` simulations.
pub proof fn lemma_rounds_keep_form<G: Game>(
    seed: Seq<Node<G>>,
    nodes: Seq<Node<G>>,
    game: G,
    ranks: Ranking,
    threshold: u32,
    n: nat,
)
    requires
        seeded(seed, game),
        rounds_of(seed, nodes, ranks, threshold, n),
    ensures
        well_formed(nodes),
        nodes[0].state == game,
        nodes[0].children@.len() == game.legal().len(),
        nodes[0].sims == n,
        nodes[0].children@.len() > 0 ==> sum(child_sims(nodes)) == n,
        deferred(nodes, threshold),
    decreases n,
{
    if n == 0 {
        lemma_node_formed(nodes, 0);
        lemma_sum_of_zeros(child_sims(nodes));
    } else {
        let mid = choose|mid: Seq<Node<G>>|
            rounds_of(seed, mid, ranks, threshold, (n - 1) as nat) && #[trigger] round_of(
                mid,
                nodes,
                ranks,
                threshold,
            );
        lemma_rounds_keep_form(seed, mid, game, ranks, threshold, (n - 1) as nat);
        lemma_round_keeps_form(mid, nodes, ranks, threshold);
        lemma_round_defers(mid, nodes, ranks, threshold);
        if nodes[0].children@.len() > 0 {
            lemma_round_shares(mid, nodes, ranks, threshold);
        }
    }
}

/// In every tree that a search can yield, no node has more wins than
/// simulations, the root alone has no parent and no action, every node with
/// children has one for each legal turn of its state, and no node but the
/// root has children unless it has more than `threshold` simulations. The
/// simulations of the root are the rounds of the search, and where the root
/// has children, those of its children taken together. Where the game has
/// just one legal turn, the tree is the root and its child, and nothing was
/// simulated.
pub proof fn lemma_searched_tree<G: Game>(
    nodes: Seq<Node<G>>,
    game: G,
    ranks: Ranking,
    threshold: u32,
    rounds: nat,
    i: int,
)
    requires
        searched(nodes, game, ranks, threshold, rounds),
        0 <= i < nodes.len(),
    ensures
        well_formed(nodes),
        nodes[i].wins <= nodes[i].sims,
        nodes[i].parent == SENTINEL <==> i == 0,
        nodes[i].action is None <==> i == 0,
        nodes[i].children@.len() == 0 || nodes[i].children@.len() == nodes[i].state.legal().len(),
        i != 0 && nodes[i].children@.len() > 0 ==> nodes[i].sims > threshold,
        nodes[0].sims == rounds,
        nodes[0].children@.len() > 0 ==> sum(child_sims(nodes)) == rounds,
        game.legal().len() == 1 ==> nodes.len() == 2 && nodes[i].sims == 0,
{
    let seed = choose|seed: Seq<Node<G>>|
        seeded(seed, game) && #[trigger] rounds_of(seed, nodes, ranks, threshold, rounds);
    lemma_rounds_keep_form(seed, nodes, game, ranks, threshold, rounds);
    lemma_node_formed(nodes, i);
}

} // verus!
