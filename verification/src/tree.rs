//! The tree that a search walks, and the tables that answer soundly in
//! it.
//!
//! A stored entry answers for every position of its hash. In a tree in
//! which positions of one hash are one position at one distance from the
//! root, what a search stores answers only for the node it was found at,
//! so a table that answers soundly before the search answers soundly
//! throughout.

use vstd::prelude::*;
use crate::rules::{Move, Pos, apply, legal};
use crate::search::{minimax_value, reply_value, flag_for, settles, window_sound};
use crate::tt::{Flag, TTEntry, TableView, probe_of, store_of};
use crate::utils::hash_of;

verus! {

/// A node of a search: a position, the depth it is searched to, and its
/// distance from the root.
pub struct Node {
    pub pos: Pos,
    pub depth: int,
    pub ply: int,
}

/// The node after a move.
pub open spec fn child_of(node: Node, m: Move) -> Node {
    Node { pos: apply(node.pos, m), depth: node.depth - 1, ply: node.ply + 1 }
}

/// The move is legal in `q` and leads to `p`.
pub open spec fn leads(q: Pos, m: Move, p: Pos) -> bool {
    legal(q, m) && p == apply(q, m)
}

/// The position is reached from `root` by `k` legal moves.
pub open spec fn reached(root: Pos, k: int, p: Pos) -> bool
    decreases k,
{
    if k <= 0 {
        k == 0 && p == root
    } else {
        exists|q: Pos, m: Move| reached(root, k - 1, q) && #[trigger] leads(q, m, p)
    }
}

/// The node stands in the tree of `root`: its position is reached from
/// the root's by as many moves as the node is less deep.
#[verifier::opaque]
pub open spec fn in_tree(root: Node, node: Node) -> bool {
    &&& node.depth <= root.depth
    &&& reached(root.pos, root.depth - node.depth, node.pos)
    &&& node.ply == root.ply + (root.depth - node.depth)
}

/// In the tree of `root`, positions of one hash are one position at one
/// distance from the root. Only the nodes that are searched one move deep
/// or deeper count: the table is not asked at the others.
#[verifier::opaque]
pub open spec fn tree_clean(root: Node) -> bool {
    forall|k1: int, p1: Pos, k2: int, p2: Pos|
        0 <= k1 < root.depth && 0 <= k2 < root.depth && #[trigger] reached(root.pos, k1, p1)
            && #[trigger] reached(root.pos, k2, p2) && hash_of(p1) == hash_of(p2) ==> p1 == p2 && k1
            == k2
}

/// The entry says nothing false of the node: where it is from a search at
/// least as deep, its score relates to the node's minimax value as its
/// flag says.
pub open spec fn entry_sound(e: TTEntry, node: Node) -> bool {
    e.depth >= node.depth ==> match e.flag {
        Flag::Exact => minimax_value(node.pos, node.depth, node.ply) == e.score,
        Flag::LowerBound => minimax_value(node.pos, node.depth, node.ply) >= e.score,
        Flag::UpperBound => minimax_value(node.pos, node.depth, node.ply) <= e.score,
    }
}

/// Whatever a node of the tree of `root` finds in the table says nothing
/// false of it.
#[verifier::opaque]
pub open spec fn table_sound(table: TableView, root: Node) -> bool {
    forall|k: int, p: Pos|
        0 <= k < root.depth && #[trigger] reached(root.pos, k, p) ==> match probe_of(
            table,
            hash_of(p),
        ) {
            Some(e) => entry_sound(e, Node { pos: p, depth: root.depth - k, ply: root.ply + k }),
            None => true,
        }
}

/// The table answers soundly in the tree of `root`: the tree is clean, and
/// what its nodes find in the table says nothing false of them.
pub open spec fn answers_soundly(table: TableView, root: Node) -> bool {
    tree_clean(root) && table_sound(table, root)
}

/// The node stands in the tree of `root`, in which the table answers
/// soundly.
pub open spec fn guarded(table: TableView, root: Node, node: Node) -> bool {
    in_tree(root, node) && answers_soundly(table, root)
}

/// Every node stands in its own tree.
pub proof fn lemma_in_own_tree(node: Node)
    ensures
        in_tree(node, node),
{
    reveal(in_tree);
}

/// The node after a legal move stands in the tree its parent stands in.
pub proof fn lemma_child_in_tree(root: Node, node: Node, m: Move)
    requires
        in_tree(root, node),
        legal(node.pos, m),
    ensures
        in_tree(root, child_of(node, m)),
{
    reveal(in_tree);
    let k = root.depth - node.depth + 1;
    assert(reached(root.pos, k - 1, node.pos));
    assert(leads(node.pos, m, apply(node.pos, m)));
    assert(reached(root.pos, k, apply(node.pos, m)));
}

/// A table without an entry answers soundly in every clean tree.
pub proof fn lemma_empty_table_sound(table: TableView, root: Node)
    requires
        forall|i: int| 0 <= i < table.slots.len() ==> (#[trigger] table.slots[i]).is_none(),
    ensures
        table_sound(table, root),
{
    reveal(table_sound);
    assert forall|k: int, p: Pos| 0 <= k < root.depth && #[trigger] reached(root.pos, k, p) implies (
    match probe_of(table, hash_of(p)) {
        Some(e) => entry_sound(e, Node { pos: p, depth: root.depth - k, ply: root.ply + k }),
        None => true,
    }) by {
        if table.slots.len() > 0 {
            let i = hash_of(p) as int % table.slots.len() as int;
            assert(table.slots[i].is_none());
        }
    }
}

/// What a node finds in a table that answers soundly says nothing false
/// of it.
pub proof fn lemma_found_sound(table: TableView, root: Node, node: Node)
    requires
        guarded(table, root, node),
        node.depth >= 1,
    ensures
        match probe_of(table, hash_of(node.pos)) {
            Some(e) => entry_sound(e, node),
            None => true,
        },
{
    reveal(in_tree);
    reveal(table_sound);
    let k = root.depth - node.depth;
    assert(reached(root.pos, k, node.pos));
}

/// An entry that settles the search of a node, in a table that answers
/// soundly, gives a fail-soft score of the node's minimax value.
pub proof fn lemma_answer_sound(table: TableView, root: Node, node: Node, alpha: int, beta: int)
    requires
        guarded(table, root, node),
        node.depth >= 1,
        alpha < beta,
        probe_of(table, hash_of(node.pos)).is_some(),
        settles(probe_of(table, hash_of(node.pos)).unwrap(), node.depth, alpha, beta),
    ensures
        window_sound(
            probe_of(table, hash_of(node.pos)).unwrap().score as int,
            alpha,
            beta,
            minimax_value(node.pos, node.depth, node.ply),
        ),
{
    lemma_found_sound(table, root, node);
}

/// Recording the result of the search of a node keeps a table sound: in a
/// clean tree the entry is found only at that very node.
pub proof fn lemma_store_sound(
    table: TableView,
    root: Node,
    node: Node,
    entry: TTEntry,
    alpha: int,
    beta: int,
)
    requires
        guarded(table, root, node),
        node.depth >= 1,
        entry.depth == node.depth,
        entry.flag == flag_for(entry.score as int, alpha, beta),
        window_sound(entry.score as int, alpha, beta, minimax_value(node.pos, node.depth, node.ply)),
    ensures
        table_sound(store_of(table, hash_of(node.pos), entry), root),
{
    reveal(in_tree);
    reveal(table_sound);
    reveal(tree_clean);
    let after = store_of(table, hash_of(node.pos), entry);
    let kn = root.depth - node.depth;
    assert(reached(root.pos, kn, node.pos));
    assert forall|k: int, p: Pos| 0 <= k < root.depth && #[trigger] reached(root.pos, k, p) implies (
    match probe_of(after, hash_of(p)) {
        Some(e) => entry_sound(e, Node { pos: p, depth: root.depth - k, ply: root.ply + k }),
        None => true,
    }) by {
        if hash_of(p) == hash_of(node.pos) {
            assert(p == node.pos && k == kn);
        }
    }
}


/// The slot holds what the search of a node of the tree of `root` has
/// recorded: the hash of a position of the tree, with the depth that the
/// position is searched to.
#[verifier::opaque]
pub open spec fn stored_in_tree(slot: Option<(u64, TTEntry)>, root: Node) -> bool {
    match slot {
        Some((key, e)) => exists|k: int, p: Pos|
            0 <= k < root.depth && #[trigger] reached(root.pos, k, p) && key == hash_of(p)
                && e.depth == root.depth - k,
        None => false,
    }
}

/// Every slot of `after` is as in `before`, or holds what the search of a
/// node of the tree of `root` has recorded.
pub open spec fn grown_in_tree(before: TableView, after: TableView, root: Node) -> bool {
    &&& after.slots.len() == before.slots.len()
    &&& forall|i: int|
        0 <= i < after.slots.len() ==> #[trigger] after.slots[i] == before.slots[i]
            || stored_in_tree(after.slots[i], root)
}

pub proof fn lemma_grown_same(table: TableView, root: Node)
    ensures
        grown_in_tree(table, table, root),
{
}

pub proof fn lemma_grown_twice(first: TableView, second: TableView, third: TableView, root: Node)
    requires
        grown_in_tree(first, second, root),
        grown_in_tree(second, third, root),
    ensures
        grown_in_tree(first, third, root),
{
    assert forall|i: int| 0 <= i < third.slots.len() implies #[trigger] third.slots[i]
        == first.slots[i] || stored_in_tree(third.slots[i], root) by {
        assert(second.slots[i] == first.slots[i] || stored_in_tree(second.slots[i], root));
    }
}

/// Recording the result of the search of a node of the tree grows the
/// table in the tree.
pub proof fn lemma_store_grown(table: TableView, root: Node, node: Node, entry: TTEntry)
    requires
        in_tree(root, node),
        node.depth >= 1,
        entry.depth == node.depth,
    ensures
        grown_in_tree(table, store_of(table, hash_of(node.pos), entry), root),
{
    reveal(in_tree);
    reveal(stored_in_tree);
    let after = store_of(table, hash_of(node.pos), entry);
    let k = root.depth - node.depth;
    assert(reached(root.pos, k, node.pos));
    assert(stored_in_tree(Some((hash_of(node.pos), entry)), root));
}

/// What a search to a lesser depth has recorded answers nothing in a
/// clean tree of the same position searched deeper: its entries are from
/// searches less deep than the nodes that find them.
pub proof fn lemma_deeper_sound(before: TableView, after: TableView, shallow: Node, deep: Node)
    requires
        shallow.pos == deep.pos,
        shallow.depth < deep.depth,
        tree_clean(deep),
        table_sound(before, deep),
        grown_in_tree(before, after, shallow),
    ensures
        table_sound(after, deep),
{
    reveal(stored_in_tree);
    reveal(table_sound);
    reveal(tree_clean);
    assert forall|k: int, p: Pos| 0 <= k < deep.depth && #[trigger] reached(deep.pos, k, p) implies (
    match probe_of(after, hash_of(p)) {
        Some(e) => entry_sound(e, Node { pos: p, depth: deep.depth - k, ply: deep.ply + k }),
        None => true,
    }) by {
        if after.slots.len() > 0 {
            let i = hash_of(p) as int % after.slots.len() as int;
            if after.slots[i] != before.slots[i] {
                assert(stored_in_tree(after.slots[i], shallow));
            }
        }
    }
}

/// Whether a table answers soundly depends on its slots alone.
pub proof fn lemma_sound_by_slots(first: TableView, second: TableView, root: Node)
    requires
        first.slots == second.slots,
        table_sound(first, root),
    ensures
        table_sound(second, root),
{
    reveal(table_sound);
    assert forall|k: int, p: Pos| 0 <= k < root.depth && #[trigger] reached(root.pos, k, p) implies (
    match probe_of(second, hash_of(p)) {
        Some(e) => entry_sound(e, Node { pos: p, depth: root.depth - k, ply: root.ply + k }),
        None => true,
    }) by {
        assert(probe_of(second, hash_of(p)) == probe_of(first, hash_of(p)));
    }
}


/// The root of a search of the position, `depth` moves deep.
pub open spec fn root_node(pos: Pos, depth: int) -> Node {
    Node { pos: pos, depth: depth, ply: 0 }
}

/// What the nodes of the trees of the position find in the table says
/// nothing false of them, for every depth of the tree above `lo` and up
/// to `hi`.
#[verifier::opaque]
pub open spec fn sound_between(table: TableView, pos: Pos, lo: int, hi: int) -> bool {
    forall|d: int| lo < d <= hi ==> #[trigger] table_sound(table, root_node(pos, d))
}

/// The table answers soundly in the trees of the position of every depth
/// up to `depth`.
pub open spec fn answers_soundly_upto(table: TableView, pos: Pos, depth: int) -> bool {
    tree_clean(root_node(pos, depth)) && sound_between(table, pos, 0, depth)
}

/// The move is a best move of the position searched `depth` moves deep:
/// it is legal, and its value is the minimax value of the position.
pub open spec fn is_best_move(pos: Pos, depth: int, m: Move) -> bool {
    legal(pos, m) && reply_value(pos, depth, 0, m) == minimax_value(pos, depth, 0)
}

/// A tree that is clean to some depth is clean to every lesser depth.
pub proof fn lemma_clean_less(pos: Pos, less: int, depth: int)
    requires
        tree_clean(root_node(pos, depth)),
        less <= depth,
    ensures
        tree_clean(root_node(pos, less)),
{
    reveal(tree_clean);
    let deep = root_node(pos, depth);
    assert forall|k1: int, p1: Pos, k2: int, p2: Pos|
        0 <= k1 < less && 0 <= k2 < less && #[trigger] reached(pos, k1, p1) && #[trigger] reached(
            pos,
            k2,
            p2,
        ) && hash_of(p1) == hash_of(p2) implies p1 == p2 && k1 == k2 by {
        assert(reached(deep.pos, k1, p1) && reached(deep.pos, k2, p2));
    }
}

pub proof fn lemma_sound_at(table: TableView, pos: Pos, lo: int, hi: int, d: int)
    requires
        sound_between(table, pos, lo, hi),
        lo < d <= hi,
    ensures
        table_sound(table, root_node(pos, d)),
{
    reveal(sound_between);
}

pub proof fn lemma_sound_narrower(table: TableView, pos: Pos, lo: int, hi: int, lo2: int, hi2: int)
    requires
        sound_between(table, pos, lo, hi),
        lo <= lo2,
        hi2 <= hi,
    ensures
        sound_between(table, pos, lo2, hi2),
{
    reveal(sound_between);
}

/// A search `done` moves deep leaves the table sound for every deeper
/// search of the position in a clean tree.
pub proof fn lemma_sound_after(
    before: TableView,
    after: TableView,
    pos: Pos,
    done: int,
    depth: int,
)
    requires
        tree_clean(root_node(pos, depth)),
        sound_between(before, pos, done, depth),
        grown_in_tree(before, after, root_node(pos, done)),
    ensures
        sound_between(after, pos, done, depth),
{
    reveal(sound_between);
    assert forall|d: int| done < d <= depth implies #[trigger] table_sound(after, root_node(pos, d)) by {
        lemma_clean_less(pos, d, depth);
        lemma_deeper_sound(before, after, root_node(pos, done), root_node(pos, d));
    }
}

/// Whether a table answers soundly up to a depth depends on its slots
/// alone.
pub proof fn lemma_sound_between_by_slots(
    first: TableView,
    second: TableView,
    pos: Pos,
    lo: int,
    hi: int,
)
    requires
        first.slots == second.slots,
        sound_between(first, pos, lo, hi),
    ensures
        sound_between(second, pos, lo, hi),
{
    reveal(sound_between);
    assert forall|d: int| lo < d <= hi implies #[trigger] table_sound(second, root_node(pos, d)) by {
        lemma_sound_by_slots(first, second, root_node(pos, d));
    }
}


/// A table without an entry answers soundly up to every depth to which
/// the tree of the position is clean.
pub proof fn lemma_empty_table_sound_upto(table: TableView, pos: Pos, depth: int)
    requires
        forall|i: int| 0 <= i < table.slots.len() ==> (#[trigger] table.slots[i]).is_none(),
        tree_clean(root_node(pos, depth)),
    ensures
        answers_soundly_upto(table, pos, depth),
{
    reveal(sound_between);
    assert forall|d: int| 0 < d <= depth implies #[trigger] table_sound(table, root_node(pos, d)) by {
        lemma_empty_table_sound(table, root_node(pos, d));
    }
}

} // verus!
