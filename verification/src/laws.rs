//! What holds of the partition model: how the counts and folds react to the
//! two ways a tree changes, that the split rule keeps the invariant, and the
//! laws that relate the operations to each other.

use crate::bounding_box::{
    lemma_rank_is_strict_weak_order, lemma_union_associative, lemma_union_commutative,
    lemma_union_is_least_cover, BoundingBox,
};
use crate::partition::{
    best_leaf, by_value, candidate_box, candidate_box_over, fresh_nodes, insert_all_nodes,
    insert_all_succeeds, insert_nodes, is_best_among, is_best_among_over, is_best_leaf,
    is_candidate, item_payloads, lemma_split_tiles_region, node_inv, occupied_count, owns,
    payloads, placed_at, placements, split_down, split_nodes, split_right, tiles_plane,
    total_bounding_box, tree_inv, whole_plane, zero_box, DataSize, Node,
};
use vstd::multiset::Multiset;
use vstd::prelude::*;
use vstd::seq_lib::{lemma_multiset_commutative, to_multiset_build, to_multiset_len};

verus! {

// Counting and folding

/// Every occupied node placed its payload at a representable rectangle.
pub open spec fn placed_in_bounds<T>(nodes: Seq<Node<T>>) -> bool {
    forall|i: int|
        0 <= i < nodes.len() ==> (#[trigger] nodes[i] matches Node::Occupied { placed, .. }
            ==> placed.in_bounds())
}

/// What holds of all nodes holds of all but the last.
proof fn lemma_placed_in_bounds_drop_last<T>(nodes: Seq<Node<T>>)
    requires
        placed_in_bounds(nodes),
        nodes.len() > 0,
    ensures
        placed_in_bounds(nodes.drop_last()),
{
    let rest = nodes.drop_last();
    assert forall|i: int| 0 <= i < rest.len() implies (#[trigger] rest[i] matches Node::Occupied {
        placed,
        ..
    } ==> placed.in_bounds()) by {
        assert(rest[i] == nodes[i]);
    }
}

/// Appending a node adds it to the count of occupied nodes if it is occupied.
pub proof fn lemma_count_push<T>(nodes: Seq<Node<T>>, node: Node<T>)
    ensures
        occupied_count(nodes.push(node)) == occupied_count(nodes) + if node is Occupied {
            1nat
        } else {
            0nat
        },
{
    assert(nodes.push(node).drop_last() =~= nodes);
}

/// Turning a free node into an occupied one raises the count by one.
pub proof fn lemma_count_occupy<T>(nodes: Seq<Node<T>>, i: int, node: Node<T>)
    requires
        0 <= i < nodes.len(),
        nodes[i] is Free,
        node is Occupied,
    ensures
        occupied_count(nodes.update(i, node)) == occupied_count(nodes) + 1,
    decreases nodes.len(),
{
    let after = nodes.update(i, node);
    if i == nodes.len() - 1 {
        assert(after.drop_last() =~= nodes.drop_last());
    } else {
        assert(after.drop_last() =~= nodes.drop_last().update(i, node));
        lemma_count_occupy(nodes.drop_last(), i, node);
    }
}

/// There is one placement for each occupied node.
pub proof fn lemma_placements_len<T>(nodes: Seq<Node<T>>)
    ensures
        placements(nodes).len() == occupied_count(nodes),
    decreases nodes.len(),
{
    if nodes.len() > 0 {
        lemma_placements_len(nodes.drop_last());
    }
}

/// The total bounding box starts at the origin and is representable.
pub proof fn lemma_total_bounding_box_in_bounds<T>(nodes: Seq<Node<T>>)
    requires
        placed_in_bounds(nodes),
    ensures
        total_bounding_box(nodes).in_bounds(),
        total_bounding_box(nodes).x == 0,
        total_bounding_box(nodes).y == 0,
    decreases nodes.len(),
{
    if nodes.len() > 0 {
        let rest = nodes.drop_last();
        lemma_placed_in_bounds_drop_last(nodes);
        lemma_total_bounding_box_in_bounds(rest);
        match nodes.last() {
            Node::Occupied { placed, .. } => {
                assert(nodes[nodes.len() - 1] is Occupied);
                lemma_union_is_least_cover(total_bounding_box(rest), placed, placed);
            },
            Node::Free { .. } => {},
        }
    }
}

/// Appending a free node leaves the total bounding box as it was.
pub proof fn lemma_total_bounding_box_push_free<T>(nodes: Seq<Node<T>>, region: BoundingBox)
    ensures
        total_bounding_box(nodes.push(Node::Free { region })) == total_bounding_box(nodes),
{
    assert(nodes.push(Node::Free { region }).drop_last() =~= nodes);
}

/// Turning a free node into an occupied one joins what it placed to the total
/// bounding box, wherever in the sequence the node stands.
pub proof fn lemma_total_bounding_box_occupy<T>(nodes: Seq<Node<T>>, i: int, node: Node<T>)
    requires
        placed_in_bounds(nodes),
        0 <= i < nodes.len(),
        nodes[i] is Free,
        node is Occupied,
        node->placed.in_bounds(),
    ensures
        total_bounding_box(nodes.update(i, node)) == total_bounding_box(nodes).spec_union(
            node->placed,
        ),
    decreases nodes.len(),
{
    let after = nodes.update(i, node);
    let rest = nodes.drop_last();
    if i == nodes.len() - 1 {
        assert(after.drop_last() =~= rest);
    } else {
        assert(after.drop_last() =~= rest.update(i, node));
        lemma_placed_in_bounds_drop_last(nodes);
        lemma_total_bounding_box_occupy(rest, i, node);
        lemma_total_bounding_box_in_bounds(rest);
        match nodes.last() {
            Node::Occupied { placed, .. } => {
                assert(nodes[nodes.len() - 1] is Occupied);
                let acc = total_bounding_box(rest);
                lemma_union_associative(acc, node->placed, placed);
                lemma_union_commutative(node->placed, placed);
                lemma_union_associative(acc, placed, node->placed);
            },
            Node::Free { .. } => {},
        }
    }
}

/// The total bounding box encloses every placement.
pub proof fn lemma_total_bounding_box_encloses<T>(nodes: Seq<Node<T>>, k: int)
    requires
        placed_in_bounds(nodes),
        0 <= k < placements(nodes).len(),
    ensures
        total_bounding_box(nodes).encloses(placements(nodes)[k].1),
    decreases nodes.len(),
{
    let rest = nodes.drop_last();
    let last = nodes.len() - 1;
    lemma_placed_in_bounds_drop_last(nodes);
    lemma_total_bounding_box_in_bounds(rest);
    if nodes[last] is Occupied {
        let placed = nodes[last]->placed;
        lemma_union_is_least_cover(total_bounding_box(rest), placed, placed);
        if k < placements(rest).len() {
            lemma_total_bounding_box_encloses(rest, k);
        }
    } else {
        lemma_total_bounding_box_encloses(rest, k);
    }
}

/// The position of the node that the placement at position `k` is read
/// from: the occupied node that has `k` occupied nodes before it.
pub open spec fn node_of_placement<T>(nodes: Seq<Node<T>>, k: int) -> int
    decreases nodes.len(),
{
    if nodes.len() == 0 {
        0
    } else if nodes.last() is Occupied && k == placements(nodes.drop_last()).len() {
        nodes.len() - 1
    } else {
        node_of_placement(nodes.drop_last(), k)
    }
}

/// Each placement is read from an occupied node, and later placements from
/// later nodes.
pub proof fn lemma_node_of_placement<T>(nodes: Seq<Node<T>>, k: int)
    requires
        0 <= k < placements(nodes).len(),
    ensures
        0 <= node_of_placement(nodes, k) < nodes.len(),
        nodes[node_of_placement(nodes, k)] is Occupied,
        placements(nodes)[k] == (
            nodes[node_of_placement(nodes, k)]->payload,
            nodes[node_of_placement(nodes, k)]->placed,
        ),
        forall|l: int|
            k < l < placements(nodes).len() ==> node_of_placement(nodes, k)
                < #[trigger] node_of_placement(nodes, l),
    decreases nodes.len(),
{
    let rest = nodes.drop_last();
    let last = nodes.len() - 1;
    if nodes[last] is Occupied && k == placements(rest).len() {
        assert(placements(nodes).len() == k + 1);
    } else {
        lemma_node_of_placement(rest, k);
        let from = node_of_placement(rest, k);
        assert(nodes[from] == rest[from]);
        assert forall|l: int| k < l < placements(nodes).len() implies node_of_placement(nodes, k)
            < #[trigger] node_of_placement(nodes, l) by {
            if nodes[last] is Occupied && l == placements(rest).len() {
                assert(node_of_placement(nodes, l) == last);
            } else {
                assert(node_of_placement(nodes, l) == node_of_placement(rest, l));
            }
        }
    }
}

// The invariant

/// A tree that satisfies the invariant placed every payload at a
/// representable rectangle.
pub proof fn lemma_inv_placed_in_bounds<T>(nodes: Seq<Node<T>>)
    requires
        tree_inv(nodes),
    ensures
        placed_in_bounds(nodes),
{
    assert forall|i: int| 0 <= i < nodes.len() implies (#[trigger] nodes[i] matches Node::Occupied {
        placed,
        ..
    } ==> placed.in_bounds()) by {
        assert(node_inv(nodes, i));
    }
}

/// The nodes of a new tree satisfy the invariant.
pub proof fn lemma_fresh_nodes_inv<T>()
    ensures
        tree_inv(fresh_nodes::<T>()),
        occupied_count(fresh_nodes::<T>()) == 0,
        total_bounding_box(fresh_nodes::<T>()) == zero_box(),
{
    let nodes = fresh_nodes::<T>();
    assert(nodes.drop_last() =~= Seq::<Node<T>>::empty());
    assert(occupied_count(nodes.drop_last()) == 0);
    assert(total_bounding_box(nodes.drop_last()) == zero_box());
    assert(node_inv(nodes, 0));
}

/// In a new tree the root's region is the whole plane, so the plane is tiled.
pub proof fn lemma_fresh_nodes_tile_plane<T>()
    ensures
        tiles_plane(fresh_nodes::<T>()),
{
    let nodes = fresh_nodes::<T>();
    assert forall|px: int, py: int| whole_plane().covers_cell(px, py) implies exists|i: int|
        0 <= i < nodes.len() && #[trigger] owns(nodes[i], px, py) by {
        assert(owns(nodes[0], px, py));
    }
}

/// Splitting a candidate keeps the invariant, adds two nodes of which none is
/// occupied, occupies one more node, and joins the payload's rectangle to the
/// total bounding box.
pub proof fn lemma_split_keeps_inv<T>(
    nodes: Seq<Node<T>>,
    i: int,
    width: u32,
    height: u32,
    payload: T,
)
    requires
        tree_inv(nodes),
        is_candidate(nodes, i, width, height),
        nodes.len() + 2 <= usize::MAX,
    ensures
        tree_inv(split_nodes(nodes, i, width, height, payload)),
        split_nodes(nodes, i, width, height, payload).len() == nodes.len() + 2,
        occupied_count(split_nodes(nodes, i, width, height, payload)) == occupied_count(nodes) + 1,
        total_bounding_box(split_nodes(nodes, i, width, height, payload)) == candidate_box(
            nodes,
            i,
            width,
            height,
        ),
{
    let region = nodes[i].spec_region();
    let occupied = Node::Occupied {
        region,
        payload,
        placed: placed_at(region, width, height),
        right_child: nodes.len() as usize,
        down_child: (nodes.len() + 1) as usize,
    };
    let right = Node::<T>::Free { region: split_right(region, width, height) };
    let down = Node::<T>::Free { region: split_down(region, width, height) };
    let step1 = nodes.update(i, occupied);
    let step2 = step1.push(right);
    let after = step2.push(down);
    assert(after == split_nodes(nodes, i, width, height, payload));
    assert(node_inv(nodes, i));
    lemma_split_tiles_region(region, width, height);
    lemma_inv_placed_in_bounds(nodes);

    lemma_count_occupy(nodes, i, occupied);
    lemma_count_push(step1, right);
    lemma_count_push(step2, down);

    lemma_total_bounding_box_occupy(nodes, i, occupied);
    lemma_total_bounding_box_push_free(step1, split_right(region, width, height));
    lemma_total_bounding_box_push_free(step2, split_down(region, width, height));

    assert forall|k: int| 0 <= k < after.len() implies #[trigger] node_inv(after, k) by {
        if k < nodes.len() && k != i {
            assert(node_inv(nodes, k));
            assert(after[k] == nodes[k]);
            if nodes[k] is Occupied {
                let rc = nodes[k]->right_child as int;
                let dc = nodes[k]->down_child as int;
                assert(after[rc].spec_region() == nodes[rc].spec_region());
                assert(after[dc].spec_region() == nodes[dc].spec_region());
            }
        }
    }
}

/// Splitting a candidate keeps the plane tiled: the cells of the candidate's
/// region go to the payload and to the two new free nodes, every other cell
/// stays with the node it belonged to.
pub proof fn lemma_split_keeps_tiling<T>(
    nodes: Seq<Node<T>>,
    i: int,
    width: u32,
    height: u32,
    payload: T,
)
    requires
        tree_inv(nodes),
        tiles_plane(nodes),
        is_candidate(nodes, i, width, height),
    ensures
        tiles_plane(split_nodes(nodes, i, width, height, payload)),
{
    let after = split_nodes(nodes, i, width, height, payload);
    let region = nodes[i].spec_region();
    let n = nodes.len() as int;
    assert(node_inv(nodes, i));
    lemma_split_tiles_region(region, width, height);
    let placed = placed_at(region, width, height);
    let right = split_right(region, width, height);
    let down = split_down(region, width, height);
    assert(after.len() == n + 2);
    assert(after[i] is Occupied && after[i]->placed == placed);
    assert(after[n] == Node::<T>::Free { region: right });
    assert(after[n + 1] == Node::<T>::Free { region: down });
    assert forall|px: int, py: int| whole_plane().covers_cell(px, py) implies exists|k: int|
        0 <= k < after.len() && #[trigger] owns(after[k], px, py) by {
        let k = choose|k: int| 0 <= k < nodes.len() && #[trigger] owns(nodes[k], px, py);
        if k != i {
            assert(after[k] == nodes[k]);
            assert(owns(after[k], px, py));
        } else {
            assert(region.covers_cell(px, py));
            if placed.covers_cell(px, py) {
                assert(owns(after[i], px, py));
            } else if right.covers_cell(px, py) {
                assert(owns(after[n], px, py));
            } else {
                assert(owns(after[n + 1], px, py));
            }
        }
    }
    assert forall|a: int, b: int, px: int, py: int|
        0 <= a < after.len() && 0 <= b < after.len() && a != b && #[trigger] owns(
            after[a],
            px,
            py,
        ) implies !#[trigger] owns(after[b], px, py) by {
        if owns(after[b], px, py) {
            // What a node owns now was owned before by the node itself, or
            // by the candidate if the node is one of the three that share
            // the candidate's region.
            let from_a = if a < n && a != i { a } else { i };
            let from_b = if b < n && b != i { b } else { i };
            assert(owns(nodes[from_a], px, py)) by {
                if a < n && a != i {
                    assert(after[a] == nodes[a]);
                }
            }
            assert(owns(nodes[from_b], px, py)) by {
                if b < n && b != i {
                    assert(after[b] == nodes[b]);
                }
            }
            // Before, no two nodes owned the cell: both are among the three,
            // and of those no two share a cell.
            assert(from_a == from_b);
            assert(false);
        }
    }
}

// The placement of choice

/// At most one position is the placement of choice.
pub proof fn lemma_best_leaf_unique<T>(nodes: Seq<Node<T>>, i: int, j: int, width: u32, height: u32)
    requires
        is_best_leaf(nodes, i, width, height),
        is_best_leaf(nodes, j, width, height),
    ensures
        i == j,
{
    let box_i = candidate_box(nodes, i, width, height);
    let box_j = candidate_box(nodes, j, width, height);
    assert(is_candidate(nodes, i, width, height));
    assert(is_candidate(nodes, j, width, height));
    if i < j {
        assert(box_j.ranks_before(box_i));
        assert(!box_j.ranks_before(box_i));
    } else if j < i {
        assert(box_i.ranks_before(box_j));
        assert(!box_i.ranks_before(box_j));
    }
}

/// A position that is the placement of choice is the one `best_leaf` names.
pub proof fn lemma_best_leaf_is<T>(nodes: Seq<Node<T>>, i: int, width: u32, height: u32)
    requires
        is_best_leaf(nodes, i, width, height),
    ensures
        best_leaf(nodes, width, height) == Some(i),
{
    assert(is_candidate(nodes, i, width, height));
    let chosen = choose|k: int| is_best_leaf(nodes, k, width, height);
    lemma_best_leaf_unique(nodes, i, chosen, width, height);
}

/// Scanning one node further keeps or replaces the placement of choice: a
/// candidate at position `n` takes over exactly when its resulting bounding
/// box ranks strictly before the one chosen among the first `n` nodes.
pub proof fn lemma_best_among_step<T>(
    current: BoundingBox,
    nodes: Seq<Node<T>>,
    best: int,
    width: u32,
    height: u32,
    n: int,
)
    requires
        0 <= n < nodes.len(),
        is_best_among_over(current, nodes, best, width, height, n),
    ensures
        is_best_among_over(
            current,
            nodes,
            if is_candidate(nodes, n, width, height) && candidate_box_over(
                current,
                nodes,
                n,
                width,
                height,
            ).ranks_before(candidate_box_over(current, nodes, best, width, height)) {
                n
            } else {
                best
            },
            width,
            height,
            n + 1,
        ),
{
    let box_n = candidate_box_over(current, nodes, n, width, height);
    let box_best = candidate_box_over(current, nodes, best, width, height);
    if is_candidate(nodes, n, width, height) && box_n.ranks_before(box_best) {
        assert forall|j: int|
            j < n + 1 && #[trigger] is_candidate(nodes, j, width, height) implies {
            &&& !candidate_box_over(current, nodes, j, width, height).ranks_before(box_n)
            &&& j < n ==> box_n.ranks_before(candidate_box_over(current, nodes, j, width, height))
        } by {
            let box_j = candidate_box_over(current, nodes, j, width, height);
            lemma_rank_is_strict_weak_order(box_j, box_n, box_best);
            lemma_rank_is_strict_weak_order(box_n, box_j, box_best);
            lemma_rank_is_strict_weak_order(box_n, box_n, box_n);
        }
    }
}

/// Among the first `n` nodes there is a placement of choice as soon as there
/// is a candidate.
pub proof fn lemma_best_leaf_exists<T>(nodes: Seq<Node<T>>, width: u32, height: u32, n: int)
    requires
        0 <= n <= nodes.len(),
    ensures
        (exists|j: int| j < n && is_candidate(nodes, j, width, height)) ==> exists|i: int|
            is_best_among(nodes, i, width, height, n),
    decreases n,
{
    if n > 0 {
        let m = n - 1;
        lemma_best_leaf_exists(nodes, width, height, m);
        if exists|j: int| j < m && is_candidate(nodes, j, width, height) {
            let best = choose|i: int| is_best_among(nodes, i, width, height, m);
            lemma_best_among_step(total_bounding_box(nodes), nodes, best, width, height, m);
            if is_candidate(nodes, m, width, height) && candidate_box(
                nodes,
                m,
                width,
                height,
            ).ranks_before(candidate_box(nodes, best, width, height)) {
                assert(is_best_among(nodes, m, width, height, n));
            } else {
                assert(is_best_among(nodes, best, width, height, n));
            }
        } else if is_candidate(nodes, m, width, height) {
            let only = candidate_box(nodes, m, width, height);
            lemma_rank_is_strict_weak_order(only, only, only);
            assert(is_best_among(nodes, m, width, height, n));
        }
    }
}

/// Whenever some free node is large enough, `best_leaf` names the placement
/// of choice.
pub proof fn lemma_best_leaf_is_best<T>(nodes: Seq<Node<T>>, width: u32, height: u32)
    ensures
        best_leaf(nodes, width, height) matches Some(i) ==> is_best_leaf(nodes, i, width, height),
        best_leaf(nodes, width, height) is None <==> forall|j: int|
            !is_candidate(nodes, j, width, height),
{
    if exists|j: int| is_candidate(nodes, j, width, height) {
        let j = choose|j: int| is_candidate(nodes, j, width, height);
        let n = nodes.len() as int;
        assert(j < n && is_candidate(nodes, j, width, height));
        lemma_best_leaf_exists(nodes, width, height, n);
        let best = choose|i: int| is_best_among(nodes, i, width, height, n);
        assert(is_best_leaf(nodes, best, width, height));
    }
}

// Insertions

/// One insertion keeps the invariant; when it finds room it adds two nodes
/// and makes the total bounding box the candidate box of the chosen node.
pub proof fn lemma_insert_keeps_inv<T>(nodes: Seq<Node<T>>, width: u32, height: u32, payload: T)
    requires
        tree_inv(nodes),
        nodes.len() + 2 <= usize::MAX,
    ensures
        tree_inv(insert_nodes(nodes, width, height, payload)),
        best_leaf(nodes, width, height) matches Some(i) ==> {
            &&& is_best_leaf(nodes, i, width, height)
            &&& insert_nodes(nodes, width, height, payload).len() == nodes.len() + 2
            &&& total_bounding_box(insert_nodes(nodes, width, height, payload)) == candidate_box(
                nodes,
                i,
                width,
                height,
            )
        },
{
    lemma_best_leaf_is_best(nodes, width, height);
    if let Some(best) = best_leaf(nodes, width, height) {
        lemma_split_keeps_inv(nodes, best, width, height, payload);
    }
}

/// Insertions keep the invariant and keep the plane tiled, whether they find
/// room or not.
pub proof fn lemma_insertions_keep_inv<T>(nodes: Seq<Node<T>>, items: Seq<(DataSize, T)>)
    requires
        tree_inv(nodes),
        tiles_plane(nodes),
        nodes.len() + 2 * items.len() <= usize::MAX,
    ensures
        tree_inv(insert_all_nodes(nodes, items)),
        tiles_plane(insert_all_nodes(nodes, items)),
    decreases items.len(),
{
    if items.len() > 0 {
        let size = items.first().0;
        let payload = items.first().1;
        lemma_best_leaf_is_best(nodes, size.width, size.height);
        if let Some(i) = best_leaf(nodes, size.width, size.height) {
            let next = insert_nodes(nodes, size.width, size.height, payload);
            lemma_split_keeps_inv(nodes, i, size.width, size.height, payload);
            lemma_split_keeps_tiling(nodes, i, size.width, size.height, payload);
            lemma_insertions_keep_inv(next, items.drop_first());
        }
    }
}

/// Insertions that all find room add two nodes each.
pub proof fn lemma_insertions_add_two_nodes_each<T>(nodes: Seq<Node<T>>, items: Seq<(DataSize, T)>)
    requires
        insert_all_succeeds(nodes, items),
    ensures
        insert_all_nodes(nodes, items).len() == nodes.len() + 2 * items.len(),
    decreases items.len(),
{
    if items.len() > 0 {
        let size = items.first().0;
        let payload = items.first().1;
        lemma_best_leaf_is_best(nodes, size.width, size.height);
        let i = best_leaf(nodes, size.width, size.height)->0;
        let next = insert_nodes(nodes, size.width, size.height, payload);
        assert(next == split_nodes(nodes, i, size.width, size.height, payload));
        assert(next.len() == nodes.len() + 2);
        assert(insert_all_nodes(nodes, items) == insert_all_nodes(next, items.drop_first()));
        lemma_insertions_add_two_nodes_each(next, items.drop_first());
    }
}

/// Insertions leave what is there: the tree never shrinks, every node keeps
/// its handle and its region, and a node that is occupied stays exactly as it
/// is. The one change a node can undergo is from free to occupied.
pub proof fn lemma_insertions_keep_what_is_there<T>(
    nodes: Seq<Node<T>>,
    items: Seq<(DataSize, T)>,
    handle: int,
)
    requires
        0 <= handle < nodes.len(),
    ensures
        handle < insert_all_nodes(nodes, items).len(),
        insert_all_nodes(nodes, items)[handle].spec_region() == nodes[handle].spec_region(),
        nodes[handle] is Occupied ==> insert_all_nodes(nodes, items)[handle] == nodes[handle],
    decreases items.len(),
{
    if items.len() > 0 {
        let size = items.first().0;
        let payload = items.first().1;
        lemma_best_leaf_is_best(nodes, size.width, size.height);
        if let Some(i) = best_leaf(nodes, size.width, size.height) {
            let next = insert_nodes(nodes, size.width, size.height, payload);
            assert(next == split_nodes(nodes, i, size.width, size.height, payload));
            assert(is_candidate(nodes, i, size.width, size.height));
            assert(next[handle].spec_region() == nodes[handle].spec_region());
            lemma_insertions_keep_what_is_there(next, items.drop_first(), handle);
        }
    }
}

/// The payloads are the first parts of the placements.
pub proof fn lemma_payloads_of_placements<T>(nodes: Seq<Node<T>>)
    ensures
        payloads(nodes).len() == placements(nodes).len(),
        forall|k: int|
            0 <= k < placements(nodes).len() ==> payloads(nodes)[k] == (#[trigger] placements(
                nodes,
            )[k]).0,
    decreases nodes.len(),
{
    if nodes.len() > 0 {
        lemma_payloads_of_placements(nodes.drop_last());
    }
}

/// Turning a free node into an occupied one adds its payload to the payloads,
/// once.
pub proof fn lemma_payloads_occupy<T>(nodes: Seq<Node<T>>, i: int, node: Node<T>)
    requires
        0 <= i < nodes.len(),
        nodes[i] is Free,
        node is Occupied,
    ensures
        payloads(nodes.update(i, node)).to_multiset() == payloads(nodes).to_multiset().insert(
            node->payload,
        ),
    decreases nodes.len(),
{
    let after = nodes.update(i, node);
    let rest = nodes.drop_last();
    if i == nodes.len() - 1 {
        assert(after.drop_last() =~= rest);
        to_multiset_build(payloads(rest), node->payload);
    } else {
        assert(after.drop_last() =~= rest.update(i, node));
        lemma_payloads_occupy(rest, i, node);
        if nodes.last() is Occupied {
            let kept = nodes.last()->payload;
            to_multiset_build(payloads(rest.update(i, node)), kept);
            to_multiset_build(payloads(rest), kept);
            assert(payloads(rest).to_multiset().insert(node->payload).insert(kept)
                =~= payloads(rest).to_multiset().insert(kept).insert(node->payload));
        }
    }
}

/// Splitting a candidate adds the payload to the payloads, once.
pub proof fn lemma_split_places_payload<T>(
    nodes: Seq<Node<T>>,
    i: int,
    width: u32,
    height: u32,
    payload: T,
)
    requires
        is_candidate(nodes, i, width, height),
    ensures
        payloads(split_nodes(nodes, i, width, height, payload)).to_multiset() == payloads(
            nodes,
        ).to_multiset().insert(payload),
{
    let after = split_nodes(nodes, i, width, height, payload);
    let with_right = after.drop_last();
    let occupied = with_right.drop_last();
    assert(occupied =~= nodes.update(i, after[i]));
    assert(payloads(after) == payloads(with_right));
    assert(payloads(with_right) == payloads(occupied));
    lemma_payloads_occupy(nodes, i, after[i]);
}

/// Insertions that all find room place each item's payload once and leave
/// the payloads that were placed before: the payloads of the tree are then
/// those it had and those of the items, each as often as it was inserted.
pub proof fn lemma_insertions_place_each_payload_once<T>(
    nodes: Seq<Node<T>>,
    items: Seq<(DataSize, T)>,
)
    requires
        insert_all_succeeds(nodes, items),
    ensures
        payloads(insert_all_nodes(nodes, items)).to_multiset() == payloads(nodes).to_multiset().add(
            item_payloads(items).to_multiset(),
        ),
    decreases items.len(),
{
    let had = payloads(nodes).to_multiset();
    assert(Seq::<T>::empty().to_multiset() =~= Multiset::<T>::empty()) by {
        to_multiset_len(Seq::<T>::empty());
    }
    if items.len() == 0 {
        assert(item_payloads(items) =~= Seq::<T>::empty());
        assert(had.add(Multiset::<T>::empty()) =~= had);
    } else {
        let size = items.first().0;
        let payload = items.first().1;
        let rest = items.drop_first();
        lemma_best_leaf_is_best(nodes, size.width, size.height);
        let i = best_leaf(nodes, size.width, size.height)->0;
        let next = insert_nodes(nodes, size.width, size.height, payload);
        lemma_split_places_payload(nodes, i, size.width, size.height, payload);
        lemma_insertions_place_each_payload_once(next, rest);
        let later = item_payloads(rest).to_multiset();
        assert(item_payloads(items) =~= seq![payload] + item_payloads(rest));
        lemma_multiset_commutative(seq![payload], item_payloads(rest));
        assert(seq![payload] =~= Seq::<T>::empty().push(payload));
        to_multiset_build(Seq::<T>::empty(), payload);
        assert(had.insert(payload).add(later) =~= had.add(
            Multiset::<T>::empty().insert(payload).add(later),
        ));
    }
}

/// The node is occupied by the payload of `item`, placed at the size that
/// `item` asks for.
pub open spec fn holds_item<T>(node: Node<T>, item: (DataSize, T)) -> bool {
    node matches Node::Occupied { payload, placed, .. } && payload == item.1 && placed.width
        == item.0.width && placed.height == item.0.height
}

/// Every occupied node of `nodes` either was occupied in `start`, by the same
/// payload at the same place, or holds one of the items.
pub open spec fn placed_from<T>(
    start: Seq<Node<T>>,
    items: Seq<(DataSize, T)>,
    nodes: Seq<Node<T>>,
) -> bool {
    forall|m: int|
        0 <= m < nodes.len() && (#[trigger] nodes[m]) is Occupied ==> {
            ||| m < start.len() && start[m] is Occupied && start[m]->payload == nodes[m]->payload
                && start[m]->placed == nodes[m]->placed
            ||| exists|j: int| 0 <= j < items.len() && holds_item(nodes[m], #[trigger] items[j])
        }
}

/// Inserting items occupies nodes with those items and with nothing else: it
/// leaves what was placed before where it was.
pub proof fn lemma_inserted_items_are_placed<T>(start: Seq<Node<T>>, items: Seq<(DataSize, T)>)
    ensures
        placed_from(start, items, insert_all_nodes(start, items)),
    decreases items.len(),
{
    let after = insert_all_nodes(start, items);
    if items.len() > 0 {
        let size = items.first().0;
        let payload = items.first().1;
        lemma_best_leaf_is_best(start, size.width, size.height);
        if let Some(i) = best_leaf(start, size.width, size.height) {
            let next = insert_nodes(start, size.width, size.height, payload);
            let rest = items.drop_first();
            assert(next == split_nodes(start, i, size.width, size.height, payload));
            assert(after == insert_all_nodes(next, rest));
            lemma_inserted_items_are_placed(next, rest);
            assert forall|m: int|
                0 <= m < after.len() && (#[trigger] after[m]) is Occupied implies {
                ||| m < start.len() && start[m] is Occupied && start[m]->payload
                    == after[m]->payload && start[m]->placed == after[m]->placed
                ||| exists|j: int| 0 <= j < items.len() && holds_item(after[m], #[trigger] items[j])
            } by {
                if m < next.len() && next[m] is Occupied && next[m]->payload == after[m]->payload
                    && next[m]->placed == after[m]->placed {
                    if m == i {
                        assert(holds_item(after[m], items[0]));
                    } else {
                        assert(next[m] == start[m]);
                    }
                } else {
                    let j = choose|j: int|
                        0 <= j < rest.len() && holds_item(after[m], #[trigger] rest[j]);
                    assert(rest[j] == items[j + 1]);
                    assert(holds_item(after[m], items[j + 1]));
                }
            }
        }
    }
}

// What holds of every tree

/// In every tree that satisfies the invariant there is one more free node
/// than there are occupied nodes, so `2n + 1` nodes for `n` payloads.
pub proof fn lemma_node_count<T>(nodes: Seq<Node<T>>)
    requires
        tree_inv(nodes),
    ensures
        nodes.len() == 2 * occupied_count(nodes) + 1,
        placements(nodes).len() == occupied_count(nodes),
{
    lemma_placements_len(nodes);
}

/// After `n` insertions into a new tree that all found room, the tree has
/// exactly `2n + 1` nodes.
pub proof fn lemma_node_count_after_insertions<T>(items: Seq<(DataSize, T)>)
    requires
        insert_all_succeeds(fresh_nodes::<T>(), items),
    ensures
        insert_all_nodes(fresh_nodes::<T>(), items).len() == 2 * items.len() + 1,
{
    lemma_insertions_add_two_nodes_each(fresh_nodes::<T>(), items);
}

/// An occupied node's region is tiled by what it placed and the regions of
/// its two children: the three lie inside the region, no cell belongs to two
/// of them, every cell of the region belongs to one, and the areas add up.
pub proof fn lemma_occupied_node_is_tiled<T>(nodes: Seq<Node<T>>, i: int)
    requires
        tree_inv(nodes),
        0 <= i < nodes.len(),
        nodes[i] is Occupied,
    ensures
        ({
            let region = nodes[i]->Occupied_region;
            let placed = nodes[i]->placed;
            let right = nodes[nodes[i]->right_child as int].spec_region();
            let down = nodes[nodes[i]->down_child as int].spec_region();
            &&& region.spec_area() == placed.spec_area() + right.spec_area() + down.spec_area()
            &&& region.encloses(placed) && region.encloses(right) && region.encloses(down)
            &&& forall|px: int, py: int|
                region.covers_cell(px, py) <==> (#[trigger] placed.covers_cell(px, py)
                    || right.covers_cell(px, py) || down.covers_cell(px, py))
            &&& forall|px: int, py: int|
                !(#[trigger] placed.covers_cell(px, py) && right.covers_cell(px, py))
            &&& forall|px: int, py: int|
                !(#[trigger] placed.covers_cell(px, py) && down.covers_cell(px, py))
            &&& forall|px: int, py: int|
                !(#[trigger] right.covers_cell(px, py) && down.covers_cell(px, py))
        }),
{
    assert(node_inv(nodes, i));
    let region = nodes[i]->Occupied_region;
    let placed = nodes[i]->placed;
    lemma_split_tiles_region(region, placed.width, placed.height);
}

/// No two placements overlap.
pub proof fn lemma_placements_do_not_overlap<T>(nodes: Seq<Node<T>>, k: int, l: int)
    requires
        tiles_plane(nodes),
        0 <= k < placements(nodes).len(),
        0 <= l < placements(nodes).len(),
        k != l,
    ensures
        forall|px: int, py: int|
            !(#[trigger] placements(nodes)[k].1.covers_cell(px, py) && placements(
                nodes,
            )[l].1.covers_cell(px, py)),
{
    lemma_node_of_placement(nodes, k);
    lemma_node_of_placement(nodes, l);
    let from_k = node_of_placement(nodes, k);
    let from_l = node_of_placement(nodes, l);
    assert(from_k != from_l);
    assert forall|px: int, py: int|
        !(#[trigger] placements(nodes)[k].1.covers_cell(px, py) && placements(
            nodes,
        )[l].1.covers_cell(px, py)) by {
        if placements(nodes)[k].1.covers_cell(px, py) {
            assert(owns(nodes[from_k], px, py));
            assert(!owns(nodes[from_l], px, py));
        }
    }
}

/// The first insertion into a new tree goes to the root, and the total
/// bounding box is then the inserted rectangle at the origin.
pub proof fn lemma_first_insert_bounding_box<T>(width: u32, height: u32, payload: T)
    ensures
        best_leaf(fresh_nodes::<T>(), width, height) == Some(0int),
        total_bounding_box(insert_nodes(fresh_nodes::<T>(), width, height, payload))
            == (BoundingBox { x: 0, y: 0, width, height }),
{
    let nodes = fresh_nodes::<T>();
    lemma_fresh_nodes_inv::<T>();
    assert(is_candidate(nodes, 0, width, height));
    let only = candidate_box(nodes, 0, width, height);
    lemma_rank_is_strict_weak_order(only, only, only);
    assert(is_best_leaf(nodes, 0, width, height));
    lemma_best_leaf_is(nodes, 0, width, height);
    lemma_split_keeps_inv(nodes, 0, width, height, payload);
}

/// Once a payload with a positive width and a positive height sits at the
/// root, a payload as large as the whole plane finds no room; after a first
/// payload without width or without height it still does.
pub proof fn lemma_whole_plane_finds_no_room_beside_a_payload<T>(
    first_width: u32,
    first_height: u32,
    payload: T,
)
    ensures
        best_leaf(
            insert_nodes(fresh_nodes::<T>(), first_width, first_height, payload),
            u32::MAX,
            u32::MAX,
        ) is None <==> first_width >= 1 && first_height >= 1,
{
    let nodes = fresh_nodes::<T>();
    lemma_first_insert_bounding_box(first_width, first_height, payload);
    let after = insert_nodes(nodes, first_width, first_height, payload);
    assert(after == split_nodes(nodes, 0, first_width, first_height, payload));
    assert(after.len() == 3);
    assert(after[0] is Occupied);
    assert(after[1].spec_region() == split_right(whole_plane(), first_width, first_height));
    assert(after[2].spec_region() == split_down(whole_plane(), first_width, first_height));
    if first_width >= 1 && first_height >= 1 {
        assert forall|j: int| !is_candidate(after, j, u32::MAX, u32::MAX) by {
            if 0 <= j < 3 {
                assert(j == 0 || j == 1 || j == 2);
            }
        }
    } else if first_width == 0 {
        assert(is_candidate(after, 1, u32::MAX, u32::MAX));
    } else {
        assert(is_candidate(after, 2, u32::MAX, u32::MAX));
    }
}

/// Reading the placements back twice from the same tree gives the same
/// result.
pub proof fn lemma_flatten_is_repeatable<T>(
    nodes: Seq<Node<T>>,
    first: Seq<(&T, BoundingBox)>,
    second: Seq<(&T, BoundingBox)>,
)
    requires
        by_value(first) == placements(nodes),
        by_value(second) == placements(nodes),
    ensures
        first == second,
{
    assert(first.len() == by_value(first).len());
    assert(second.len() == by_value(second).len());
    assert forall|k: int| 0 <= k < first.len() implies first[k] == second[k] by {
        assert(by_value(first)[k] == by_value(second)[k]);
    }
    assert(first =~= second);
}

} // verus!
