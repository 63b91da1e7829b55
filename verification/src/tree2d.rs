//! The partition tree: an arena of nodes that hands out rectangular regions
//! of the plane, one insertion at a time.

pub use crate::arena::Handle;
use crate::arena::Arena;
use crate::bounding_box::BoundingBox;
use crate::laws::{
    lemma_best_among_step, lemma_best_leaf_is, lemma_fresh_nodes_inv,
    lemma_fresh_nodes_tile_plane, lemma_inv_placed_in_bounds, lemma_split_keeps_inv,
    lemma_split_keeps_tiling, lemma_total_bounding_box_in_bounds, placed_in_bounds,
};
pub use crate::partition::{DataSize, Node};
use crate::partition::{
    best_leaf, by_value, candidate_box, candidate_box_over, fresh_nodes, insert_all_nodes,
    insert_all_succeeds, insert_nodes, is_best_among_over, is_best_leaf, is_candidate, node_inv,
    placements, split_nodes, split_region, tiles_plane, total_bounding_box, tree_inv,
};
use vstd::prelude::*;

verus! {

/// The error of an insertion that found no free region large enough. Its view
/// is the text of its message.
#[derive(Debug)]
pub struct InsertionError {
    msg: String,
}

impl Clone for InsertionError {
    fn clone(&self) -> (copy: Self)
        ensures
            copy@ == self@,
    {
        InsertionError { msg: self.msg.clone() }
    }
}

impl View for InsertionError {
    type V = Seq<char>;

    closed spec fn view(&self) -> Seq<char> {
        self.msg@
    }
}

impl InsertionError {
    /// The message of the one error an insertion can end in.
    pub open spec fn no_space_message() -> Seq<char> {
        "Error inserting data, no partition large enough"@
    }

    /// The error of an insertion for which no free node was large enough.
    pub fn no_space() -> (error: Self)
        ensures
            error@ == Self::no_space_message(),
    {
        InsertionError { msg: "Error inserting data, no partition large enough".to_owned() }
    }

    /// A short name for this kind of error.
    pub fn description(&self) -> (text: &'static str)
        ensures
            text@ == "error inserting data, not enough space"@,
    {
        "error inserting data, not enough space"
    }

    /// The message, as it is shown to a user.
    pub fn to_string(&self) -> (text: String)
        ensures
            text@ == self@,
    {
        self.msg.clone()
    }
}

/// A guillotine partition of the plane. Its view is the sequence of its nodes
/// in creation order.
pub struct Tree2d<T> {
    root: Handle,
    nodes: Arena<Node<T>>,
}

impl<T> View for Tree2d<T> {
    type V = Seq<Node<T>>;

    closed spec fn view(&self) -> Seq<Node<T>> {
        self.nodes@
    }
}

impl<T> Tree2d<T> {
    /// The handle of the root node.
    pub closed spec fn spec_root(&self) -> Handle {
        self.root
    }

    /// The tree is one that `new` and the insertions can build: its root is
    /// the first node, its nodes satisfy the invariant and tile the plane, and
    /// every node has a handle.
    pub open spec fn well_formed(&self) -> bool {
        &&& self.spec_root() == 0
        &&& tree_inv(self@)
        &&& tiles_plane(self@)
        &&& self@.len() <= usize::MAX
    }

    /// A tree with a single free node that spans the whole plane.
    pub fn new() -> (tree: Self)
        ensures
            tree.well_formed(),
            tree@ == fresh_nodes::<T>(),
    {
        let node: Node<T> = Node::leaf(
            BoundingBox { x: 0, y: 0, width: u32::MAX, height: u32::MAX },
        );
        let mut nodes = Arena::new();
        let root = nodes.store(node);
        proof {
            assert(nodes@ =~= fresh_nodes::<T>());
            lemma_fresh_nodes_inv::<T>();
            lemma_fresh_nodes_tile_plane::<T>();
        }
        Tree2d { root, nodes }
    }

    /// The handle of the root node. In a well-formed tree it is the first
    /// handle there is.
    pub fn root(&self) -> (handle: Handle)
        ensures
            handle == self.spec_root(),
    {
        self.root
    }

    /// The number of nodes, free and occupied.
    pub fn node_count(&self) -> (n: usize)
        ensures
            n == self@.len(),
    {
        self.nodes.len()
    }

    /// The node behind `handle`, or `None` when the tree has no such node.
    pub fn node(&self, handle: Handle) -> (node: Option<&Node<T>>)
        ensures
            handle < self@.len() ==> node == Some(&self@[handle as int]),
            handle >= self@.len() ==> node is None,
    {
        self.nodes.get(handle)
    }

    /// The union of everything placed so far; the all-zero rectangle while the
    /// tree is empty.
    pub fn get_total_bounding_box(&self) -> (bb: BoundingBox)
        requires
            self.well_formed(),
        ensures
            bb == total_bounding_box(self@),
    {
        let mut result = BoundingBox { x: 0, y: 0, width: 0, height: 0 };
        let n: usize = self.nodes.len();
        let mut i: usize = 0;
        proof {
            lemma_inv_placed_in_bounds(self@);
        }
        while i < n
            invariant
                i <= n,
                n == self@.len(),
                placed_in_bounds(self@),
                result == total_bounding_box(self@.take(i as int)),
            decreases n - i,
        {
            proof {
                lemma_total_bounding_box_in_bounds(self@.take(i as int));
                assert(self@.take(i + 1).drop_last() =~= self@.take(i as int));
                assert(self@.take(i + 1).last() == self@[i as int]);
            }
            if let Some(node) = self.nodes.get(i) {
                if let Node::Occupied { placed, .. } = node {
                    result = result + *placed;
                }
            }
            i += 1;
        }
        proof {
            assert(self@.take(n as int) =~= self@);
        }
        result
    }

    /// Places a `width` by `height` payload in the free node of choice and
    /// splits that node. Fails, and leaves the tree as it was, when no free
    /// node can contain the payload.
    pub fn insert(&mut self, width: u32, height: u32, data: T) -> (r: Result<(), InsertionError>)
        requires
            old(self).well_formed(),
        ensures
            final(self).well_formed(),
            final(self)@ == insert_nodes(old(self)@, width, height, data),
            r is Ok <==> best_leaf(old(self)@, width, height) is Some,
            r is Ok <==> exists|i: int| is_candidate(old(self)@, i, width, height),
            r is Ok ==> final(self)@.len() == old(self)@.len() + 2,
            r is Ok ==> total_bounding_box(final(self)@) == candidate_box(
                old(self)@,
                best_leaf(old(self)@, width, height)->0,
                width,
                height,
            ),
            r matches Err(error) ==> error@ == InsertionError::no_space_message(),
    {
        let handle = self.get_smallest_leaf_handle_for_data(width, height);
        match handle {
            None => Err(InsertionError::no_space()),
            Some(handle) => {
                proof {
                    assert(is_candidate(self@, handle as int, width, height));
                }
                self.partition(handle, data, width, height);
                Ok(())
            },
        }
    }

    /// Inserts the items in order and stops at the first for which no free
    /// node is large enough. The items inserted before that one stay.
    pub fn insert_all(&mut self, data: Vec<(DataSize, T)>) -> (r: Result<(), InsertionError>)
        requires
            old(self).well_formed(),
        ensures
            final(self).well_formed(),
            final(self)@ == insert_all_nodes(old(self)@, data@),
            r is Ok <==> insert_all_succeeds(old(self)@, data@),
            r is Ok ==> final(self)@.len() == old(self)@.len() + 2 * data@.len(),
            r matches Err(error) ==> error@ == InsertionError::no_space_message(),
    {
        let ghost items = data@;
        let ghost mut done: int = 0;
        proof {
            assert(items.skip(0) =~= items);
        }
        for item in it: data
            invariant
                self.well_formed(),
                it.seq() == items,
                done == it.index(),
                insert_all_nodes(old(self)@, items) == insert_all_nodes(
                    self@,
                    items.skip(it.index() as int),
                ),
                insert_all_succeeds(old(self)@, items) == insert_all_succeeds(
                    self@,
                    items.skip(it.index() as int),
                ),
                self@.len() == old(self)@.len() + 2 * it.index(),
        {
            let (size, payload) = item;
            proof {
                let rest = items.skip(done);
                assert(rest.first() == items[done]);
                assert(rest.drop_first() =~= items.skip(done + 1));
            }
            let DataSize { width, height } = size;
            match self.insert(width, height, payload) {
                Ok(()) => {},
                Err(error) => {
                    return Err(error);
                },
            }
            proof {
                done = done + 1;
            }
        }
        Ok(())
    }

    /// Every payload with the rectangle it was placed at, one entry for each
    /// occupied node, in creation order of the nodes.
    pub fn flatten(&self) -> (pairs: Vec<(&T, BoundingBox)>)
        ensures
            by_value(pairs@) == placements(self@),
    {
        let mut result: Vec<(&T, BoundingBox)> = Vec::new();
        let n: usize = self.nodes.len();
        let mut i: usize = 0;
        while i < n
            invariant
                i <= n,
                n == self@.len(),
                by_value(result@) == placements(self@.take(i as int)),
            decreases n - i,
        {
            proof {
                assert(self@.take(i + 1).drop_last() =~= self@.take(i as int));
                assert(self@.take(i + 1).last() == self@[i as int]);
            }
            if let Some(node) = self.nodes.get(i) {
                match node {
                    Node::Free { .. } => (),
                    Node::Occupied { payload, placed, .. } => {
                        let ghost before = result@;
                        result.push((payload, *placed));
                        proof {
                            assert(by_value(result@) =~= by_value(before).push(
                                (*payload, *placed),
                            ));
                        }
                    },
                }
            }
            i += 1;
        }
        proof {
            assert(self@.take(n as int) =~= self@);
        }
        result
    }

    /// The handles of the free nodes, in creation order.
    pub fn leaves(&self) -> (handles: Vec<Handle>)
        ensures
            forall|k: int|
                0 <= k < handles@.len() ==> handles@[k] < self@.len() && self@[handles@[k] as int]
                    is Free,
            forall|k: int, l: int| 0 <= k < l < handles@.len() ==> handles@[k] < handles@[l],
            forall|i: int|
                0 <= i < self@.len() && self@[i] is Free ==> handles@.contains(i as usize),
    {
        let mut result: Vec<Handle> = Vec::new();
        let n: usize = self.nodes.len();
        let mut i: usize = 0;
        while i < n
            invariant
                i <= n,
                n == self@.len(),
                forall|k: int|
                    0 <= k < result@.len() ==> result@[k] < i && self@[result@[k] as int] is Free,
                forall|k: int, l: int| 0 <= k < l < result@.len() ==> result@[k] < result@[l],
                forall|j: int| 0 <= j < i && self@[j] is Free ==> result@.contains(j as usize),
            decreases n - i,
        {
            if let Some(node) = self.nodes.get(i) {
                if node.is_leaf() {
                    let ghost before = result@;
                    result.push(i);
                    proof {
                        assert(result@[before.len() as int] == i);
                        assert forall|j: int|
                            0 <= j < i && self@[j] is Free implies result@.contains(j as usize) by {
                            let k = choose|k: int| 0 <= k < before.len() && before[k] == j as usize;
                            assert(result@[k] == j as usize);
                        }
                    }
                }
            }
            i += 1;
        }
        result
    }

    /// The free node in which a `width` by `height` payload is to be placed
    /// when the bounding box so far is `current_bb`, together with the
    /// bounding box that placing it there results in: of the free nodes that
    /// can contain the payload, the one that makes the bounding box rank
    /// lowest, and of several such the one created first. `None` when no free
    /// node can contain the payload.
    pub fn get_smallest_leaf_for_data(
        &self,
        current_bb: BoundingBox,
        width: u32,
        height: u32,
    ) -> (found: Option<(Handle, BoundingBox)>)
        requires
            self.well_formed(),
            current_bb.in_bounds(),
        ensures
            match found {
                Some((handle, bb)) => {
                    &&& is_best_among_over(
                        current_bb,
                        self@,
                        handle as int,
                        width,
                        height,
                        self@.len() as int,
                    )
                    &&& bb == candidate_box_over(current_bb, self@, handle as int, width, height)
                },
                None => forall|j: int| !is_candidate(self@, j, width, height),
            },
    {
        let n: usize = self.nodes.len();
        let mut best: Option<(Handle, BoundingBox)> = None;
        let mut i: usize = 0;
        while i < n
            invariant
                i <= n,
                n == self@.len(),
                tree_inv(self@),
                current_bb.in_bounds(),
                match best {
                    Some((handle, bb)) => {
                        &&& is_best_among_over(
                            current_bb,
                            self@,
                            handle as int,
                            width,
                            height,
                            i as int,
                        )
                        &&& bb == candidate_box_over(
                            current_bb,
                            self@,
                            handle as int,
                            width,
                            height,
                        )
                    },
                    None => forall|j: int| j < i ==> !is_candidate(self@, j, width, height),
                },
            decreases n - i,
        {
            proof {
                assert(node_inv(self@, i as int));
                if let Some((handle, bb)) = best {
                    lemma_best_among_step(
                        current_bb,
                        self@,
                        handle as int,
                        width,
                        height,
                        i as int,
                    );
                }
            }
            if let Some(node) = self.nodes.get(i) {
                if node.is_leaf() && node.region().can_contain(width, height) {
                    let region = node.region();
                    let bb = current_bb + BoundingBox { x: region.x, y: region.y, width, height };
                    match best {
                        None => {
                            best = Some((i, bb));
                        },
                        Some((_, best_bb)) => {
                            if bb.is_ranked_before(&best_bb) {
                                best = Some((i, bb));
                            }
                        },
                    }
                }
            }
            i += 1;
        }
        best
    }

    /// The free node in which a `width` by `height` payload is to be placed:
    /// of the free nodes that can contain it, the one that makes the total
    /// bounding box rank lowest, and of several such the one created first.
    /// `None` when no free node can contain the payload.
    pub fn get_smallest_leaf_handle_for_data(&self, width: u32, height: u32) -> (found: Option<
        Handle,
    >)
        requires
            self.well_formed(),
        ensures
            match found {
                Some(handle) => is_best_leaf(self@, handle as int, width, height) && best_leaf(
                    self@,
                    width,
                    height,
                ) == Some(handle as int),
                None => best_leaf(self@, width, height) is None && forall|j: int|
                    !is_candidate(self@, j, width, height),
            },
    {
        let total_bb = self.get_total_bounding_box();
        proof {
            lemma_inv_placed_in_bounds(self@);
            lemma_total_bounding_box_in_bounds(self@);
        }
        match self.get_smallest_leaf_for_data(total_bb, width, height) {
            None => None,
            Some((handle, _)) => {
                proof {
                    lemma_best_leaf_is(self@, handle as int, width, height);
                }
                Some(handle)
            },
        }
    }

    /// Hands the corner of the free node behind `handle` to `data` and leaves
    /// the rest of its region to two new free nodes.
    pub fn partition(&mut self, handle: Handle, data: T, width: u32, height: u32)
        requires
            old(self).well_formed(),
            is_candidate(old(self)@, handle as int, width, height),
        ensures
            final(self).well_formed(),
            final(self)@ == split_nodes(old(self)@, handle as int, width, height, data),
            final(self)@.len() == old(self)@.len() + 2,
            total_bounding_box(final(self)@) == candidate_box(
                old(self)@,
                handle as int,
                width,
                height,
            ),
    {
        proof {
            assert(node_inv(self@, handle as int));
        }
        let parts = match self.nodes.get(handle) {
            None => None,
            Some(node) => Some(split_region(node.region(), width, height)),
        };
        if let Some((bb_right, bb_down)) = parts {
            let right_handle = self.nodes.store(Node::leaf(bb_right));
            let down_handle = self.nodes.store(Node::leaf(bb_down));
            if let Some(node) = self.nodes.get_mut(handle) {
                let region = node.region();
                let data_bb = BoundingBox { x: region.x, y: region.y, width, height };
                *node = Node::Occupied {
                    region,
                    payload: data,
                    placed: data_bb,
                    right_child: right_handle,
                    down_child: down_handle,
                };
            }
        }
        proof {
            assert(self@ =~= split_nodes(old(self)@, handle as int, width, height, data));
            lemma_split_keeps_inv(old(self)@, handle as int, width, height, data);
            lemma_split_keeps_tiling(old(self)@, handle as int, width, height, data);
        }
    }
}

} // verus!
