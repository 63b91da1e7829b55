//! The guillotine partition as a mathematical object: the nodes of the tree,
//! the rule that splits a free region, and what holds of every tree that the
//! rule can build.
//!
//! A tree is modelled as the sequence of its nodes in creation order; the
//! handle of a node is its position in that sequence.

use crate::arena::Handle;
use crate::bounding_box::BoundingBox;
use vstd::prelude::*;

verus! {

/// One block of the partition.
pub enum Node<T> {
    /// Unallocated space.
    Free { region: BoundingBox },
    /// Space that was handed out. `placed` is the corner of `region` that the
    /// payload took; the two children are the free blocks that cover the rest.
    Occupied {
        region: BoundingBox,
        payload: T,
        placed: BoundingBox,
        right_child: Handle,
        down_child: Handle,
    },
}

impl<T> Node<T> {
    /// The block of space the node stands for, free or not.
    pub open spec fn spec_region(self) -> BoundingBox {
        match self {
            Node::Free { region } => region,
            Node::Occupied { region, .. } => region,
        }
    }

    /// A free node covering `bb`.
    pub fn leaf(bb: BoundingBox) -> (node: Self)
        ensures
            node == (Node::<T>::Free { region: bb }),
    {
        Node::Free { region: bb }
    }

    /// Whether the node is free.
    pub fn is_leaf(&self) -> (r: bool)
        ensures
            r == (*self is Free),
    {
        match self {
            Node::Free { .. } => true,
            Node::Occupied { .. } => false,
        }
    }

    /// The block of space the node stands for, free or not.
    pub fn region(&self) -> (bb: BoundingBox)
        ensures
            bb == self.spec_region(),
    {
        match self {
            Node::Free { region } => *region,
            Node::Occupied { region, .. } => *region,
        }
    }
}

/// The all-zero rectangle, the value every bounding-box fold starts from.
pub open spec fn zero_box() -> BoundingBox {
    BoundingBox { x: 0, y: 0, width: 0, height: 0 }
}

/// The whole representable plane, the region of a new tree's root.
pub open spec fn whole_plane() -> BoundingBox {
    BoundingBox { x: 0, y: 0, width: u32::MAX, height: u32::MAX }
}

/// The part of `region` that a `width` by `height` payload takes: it sits in
/// the corner nearest the origin.
pub open spec fn placed_at(region: BoundingBox, width: u32, height: u32) -> BoundingBox {
    BoundingBox { x: region.x, y: region.y, width, height }
}

/// Whether the leftover below the payload keeps the full width of the region.
/// It does when more is left over downwards than to the right.
pub open spec fn down_keeps_full_width(region: BoundingBox, width: u32, height: u32) -> bool {
    region.height - height > region.width - width
}

/// The free block to the right of the payload.
pub open spec fn split_right(region: BoundingBox, width: u32, height: u32) -> BoundingBox {
    BoundingBox {
        x: (region.x + width) as u32,
        y: region.y,
        width: (region.width - width) as u32,
        height: if down_keeps_full_width(region, width, height) {
            height
        } else {
            region.height
        },
    }
}

/// The free block below the payload.
pub open spec fn split_down(region: BoundingBox, width: u32, height: u32) -> BoundingBox {
    BoundingBox {
        x: region.x,
        y: (region.y + height) as u32,
        width: if down_keeps_full_width(region, width, height) {
            region.width
        } else {
            width
        },
        height: (region.height - height) as u32,
    }
}

/// Computes the two free blocks that remain of `region` once a `width` by
/// `height` payload has taken its corner: first the one to the right, then
/// the one below.
pub fn split_region(region: BoundingBox, width: u32, height: u32) -> (parts: (
    BoundingBox,
    BoundingBox,
))
    requires
        region.in_bounds(),
        region.spec_can_contain(width, height),
    ensures
        parts.0 == split_right(region, width, height),
        parts.1 == split_down(region, width, height),
{
    let width_remainder: u32 = region.width - width;
    let height_remainder: u32 = region.height - height;
    if height_remainder > width_remainder {
        (
            BoundingBox {
                x: region.x + width,
                y: region.y,
                width: width_remainder,
                height,
            },
            BoundingBox {
                x: region.x,
                y: region.y + height,
                width: region.width,
                height: height_remainder,
            },
        )
    } else {
        (
            BoundingBox {
                x: region.x + width,
                y: region.y,
                width: width_remainder,
                height: region.height,
            },
            BoundingBox { x: region.x, y: region.y + height, width, height: height_remainder },
        )
    }
}

/// The payload's corner and the two leftover blocks tile the region: each
/// lies inside it, every cell of the region belongs to exactly one of them,
/// and their areas add up to the region's.
pub proof fn lemma_split_tiles_region(region: BoundingBox, width: u32, height: u32)
    requires
        region.in_bounds(),
        region.spec_can_contain(width, height),
    ensures
        ({
            let placed = placed_at(region, width, height);
            let right = split_right(region, width, height);
            let down = split_down(region, width, height);
            &&& placed.in_bounds() && right.in_bounds() && down.in_bounds()
            &&& region.encloses(placed) && region.encloses(right) && region.encloses(down)
            &&& region.spec_area() == placed.spec_area() + right.spec_area() + down.spec_area()
            &&& forall|px: int, py: int|
                region.covers_cell(px, py) <==> (#[trigger] placed.covers_cell(px, py)
                    || right.covers_cell(px, py) || down.covers_cell(px, py))
            &&& forall|px: int, py: int|
                !(#[trigger] placed.covers_cell(px, py) && right.covers_cell(px, py))
            &&& forall|px: int, py: int|
                !(#[trigger] placed.covers_cell(px, py) && down.covers_cell(px, py))
            &&& forall|px: int, py: int|
                !(#[trigger] right.covers_cell(px, py) && down.covers_cell(px, py))
        }),
{
    let big_w = region.width as int;
    let big_h = region.height as int;
    let w = width as int;
    let h = height as int;
    assert(big_w * big_h == w * h + (big_w - w) * h + big_w * (big_h - h)) by (nonlinear_arith);
    assert(big_w * big_h == w * h + (big_w - w) * big_h + w * (big_h - h)) by (nonlinear_arith);
}

/// The size that is reserved for one payload.
pub struct DataSize {
    pub width: u32,
    pub height: u32,
}

/// The nodes of a tree into which nothing was inserted yet: a single free
/// node that spans the whole plane.
pub open spec fn fresh_nodes<T>() -> Seq<Node<T>> {
    seq![Node::Free { region: whole_plane() }]
}

/// How many of the nodes are occupied.
pub open spec fn occupied_count<T>(nodes: Seq<Node<T>>) -> nat
    decreases nodes.len(),
{
    if nodes.len() == 0 {
        0
    } else {
        occupied_count(nodes.drop_last()) + if nodes.last() is Occupied {
            1nat
        } else {
            0nat
        }
    }
}

/// The union of what the occupied nodes placed, folded in creation order
/// from the all-zero rectangle.
pub open spec fn total_bounding_box<T>(nodes: Seq<Node<T>>) -> BoundingBox
    decreases nodes.len(),
{
    if nodes.len() == 0 {
        zero_box()
    } else {
        let rest = total_bounding_box(nodes.drop_last());
        match nodes.last() {
            Node::Occupied { placed, .. } => rest.spec_union(placed),
            Node::Free { .. } => rest,
        }
    }
}

/// Each occupied node's payload with the rectangle it was placed at, in
/// creation order of the nodes.
pub open spec fn placements<T>(nodes: Seq<Node<T>>) -> Seq<(T, BoundingBox)>
    decreases nodes.len(),
{
    if nodes.len() == 0 {
        Seq::empty()
    } else {
        let rest = placements(nodes.drop_last());
        match nodes.last() {
            Node::Occupied { payload, placed, .. } => rest.push((payload, placed)),
            Node::Free { .. } => rest,
        }
    }
}

/// The payloads of the occupied nodes, in creation order of the nodes.
pub open spec fn payloads<T>(nodes: Seq<Node<T>>) -> Seq<T>
    decreases nodes.len(),
{
    if nodes.len() == 0 {
        Seq::empty()
    } else {
        match nodes.last() {
            Node::Occupied { payload, .. } => payloads(nodes.drop_last()).push(payload),
            Node::Free { .. } => payloads(nodes.drop_last()),
        }
    }
}

/// The payloads of the items, in the order of the items.
pub open spec fn item_payloads<T>(items: Seq<(DataSize, T)>) -> Seq<T> {
    Seq::new(items.len(), |i: int| items[i].1)
}

/// Reads borrowed payloads with their rectangles as the pairs they stand for.
pub open spec fn by_value<T>(pairs: Seq<(&T, BoundingBox)>) -> Seq<(T, BoundingBox)> {
    pairs.map_values(|pair: (&T, BoundingBox)| (*pair.0, pair.1))
}

/// What must hold of the node at position `i`: its region is representable,
/// and if it is occupied, the payload sits in the region's corner and the
/// two children, created later and side by side, cover exactly what the
/// split rule leaves over.
pub open spec fn node_inv<T>(nodes: Seq<Node<T>>, i: int) -> bool {
    &&& nodes[i].spec_region().in_bounds()
    &&& nodes[i] matches Node::Occupied { region, placed, right_child, down_child, .. } ==> {
        &&& region.spec_can_contain(placed.width, placed.height)
        &&& placed == placed_at(region, placed.width, placed.height)
        &&& i < right_child
        &&& down_child == right_child + 1
        &&& down_child < nodes.len()
        &&& nodes[right_child as int].spec_region() == split_right(
            region,
            placed.width,
            placed.height,
        )
        &&& nodes[down_child as int].spec_region() == split_down(
            region,
            placed.width,
            placed.height,
        )
    }
}

/// The invariant of a partition tree: the root spans the whole plane, every
/// node is sound, and there are two free children for each occupied node.
pub open spec fn tree_inv<T>(nodes: Seq<Node<T>>) -> bool {
    &&& nodes.len() >= 1
    &&& nodes[0].spec_region() == whole_plane()
    &&& forall|i: int| 0 <= i < nodes.len() ==> #[trigger] node_inv(nodes, i)
    &&& nodes.len() == 2 * occupied_count(nodes) + 1
}

/// The cell at `(px, py)` belongs to the node: it lies in the region of a
/// free node, or in what an occupied node placed.
pub open spec fn owns<T>(node: Node<T>, px: int, py: int) -> bool {
    match node {
        Node::Free { region } => region.covers_cell(px, py),
        Node::Occupied { placed, .. } => placed.covers_cell(px, py),
    }
}

/// The free regions and the placed rectangles tile the plane: every cell of
/// the plane belongs to a node, and no cell belongs to two.
pub open spec fn tiles_plane<T>(nodes: Seq<Node<T>>) -> bool {
    &&& forall|px: int, py: int|
        whole_plane().covers_cell(px, py) ==> exists|i: int|
            0 <= i < nodes.len() && #[trigger] owns(nodes[i], px, py)
    &&& forall|i: int, j: int, px: int, py: int|
        0 <= i < nodes.len() && 0 <= j < nodes.len() && i != j && #[trigger] owns(nodes[i], px, py)
            ==> !#[trigger] owns(nodes[j], px, py)
}

/// The node at position `i` is free and large enough for a `width` by
/// `height` payload.
pub open spec fn is_candidate<T>(nodes: Seq<Node<T>>, i: int, width: u32, height: u32) -> bool {
    &&& 0 <= i < nodes.len()
    &&& nodes[i] is Free
    &&& nodes[i].spec_region().spec_can_contain(width, height)
}

/// What the bounding box `current` would become if the payload were placed
/// in the node at position `i`.
pub open spec fn candidate_box_over<T>(
    current: BoundingBox,
    nodes: Seq<Node<T>>,
    i: int,
    width: u32,
    height: u32,
) -> BoundingBox {
    current.spec_union(placed_at(nodes[i].spec_region(), width, height))
}

/// What the total bounding box would become if the payload were placed in the
/// node at position `i`.
pub open spec fn candidate_box<T>(nodes: Seq<Node<T>>, i: int, width: u32, height: u32)
    -> BoundingBox {
    candidate_box_over(total_bounding_box(nodes), nodes, i, width, height)
}

/// Position `i` is the placement of choice among the first `n` nodes when
/// the bounding box so far is `current`: a candidate whose resulting
/// bounding box no other candidate's ranks before, and the first such in
/// creation order.
pub open spec fn is_best_among_over<T>(
    current: BoundingBox,
    nodes: Seq<Node<T>>,
    i: int,
    width: u32,
    height: u32,
    n: int,
) -> bool {
    &&& i < n
    &&& is_candidate(nodes, i, width, height)
    &&& forall|j: int|
        j < n && #[trigger] is_candidate(nodes, j, width, height) ==> {
            &&& !candidate_box_over(current, nodes, j, width, height).ranks_before(
                candidate_box_over(current, nodes, i, width, height),
            )
            &&& j < i ==> candidate_box_over(current, nodes, i, width, height).ranks_before(
                candidate_box_over(current, nodes, j, width, height),
            )
        }
}

/// Position `i` is the placement of choice among the first `n` nodes, the
/// bounding box so far being the total bounding box of the tree.
pub open spec fn is_best_among<T>(
    nodes: Seq<Node<T>>,
    i: int,
    width: u32,
    height: u32,
    n: int,
) -> bool {
    is_best_among_over(total_bounding_box(nodes), nodes, i, width, height, n)
}

/// Position `i` is the placement of choice among all nodes.
pub open spec fn is_best_leaf<T>(nodes: Seq<Node<T>>, i: int, width: u32, height: u32) -> bool {
    is_best_among(nodes, i, width, height, nodes.len() as int)
}

/// The placement of choice, or `None` when no free node is large enough.
pub open spec fn best_leaf<T>(nodes: Seq<Node<T>>, width: u32, height: u32) -> Option<int> {
    if exists|i: int| is_candidate(nodes, i, width, height) {
        Some(choose|i: int| is_best_leaf(nodes, i, width, height))
    } else {
        None
    }
}

/// The nodes after the free node at position `i` took a `width` by `height`
/// payload: that node is occupied, in place, and two free nodes were
/// appended, first the block to the right, then the block below.
pub open spec fn split_nodes<T>(
    nodes: Seq<Node<T>>,
    i: int,
    width: u32,
    height: u32,
    payload: T,
) -> Seq<Node<T>> {
    let region = nodes[i].spec_region();
    nodes.update(
        i,
        Node::Occupied {
            region,
            payload,
            placed: placed_at(region, width, height),
            right_child: nodes.len() as usize,
            down_child: (nodes.len() + 1) as usize,
        },
    ).push(Node::Free { region: split_right(region, width, height) }).push(
        Node::Free { region: split_down(region, width, height) },
    )
}

/// The nodes after one insertion: split at the placement of choice, or
/// unchanged when there is none.
pub open spec fn insert_nodes<T>(nodes: Seq<Node<T>>, width: u32, height: u32, payload: T) -> Seq<
    Node<T>,
> {
    match best_leaf(nodes, width, height) {
        Some(i) => split_nodes(nodes, i, width, height, payload),
        None => nodes,
    }
}

/// Whether inserting the items one after the other finds room for each.
pub open spec fn insert_all_succeeds<T>(nodes: Seq<Node<T>>, items: Seq<(DataSize, T)>) -> bool
    decreases items.len(),
{
    if items.len() == 0 {
        true
    } else {
        let (size, payload) = items.first();
        best_leaf(nodes, size.width, size.height) is Some && insert_all_succeeds(
            insert_nodes(nodes, size.width, size.height, payload),
            items.drop_first(),
        )
    }
}

/// The nodes after inserting the items one after the other, stopping at the
/// first that finds no room. What was inserted before it stays.
pub open spec fn insert_all_nodes<T>(nodes: Seq<Node<T>>, items: Seq<(DataSize, T)>) -> Seq<
    Node<T>,
>
    decreases items.len(),
{
    if items.len() == 0 {
        nodes
    } else {
        let (size, payload) = items.first();
        if best_leaf(nodes, size.width, size.height) is Some {
            insert_all_nodes(
                insert_nodes(nodes, size.width, size.height, payload),
                items.drop_first(),
            )
        } else {
            nodes
        }
    }
}

} // verus!
