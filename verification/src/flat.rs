use vstd::prelude::*;
use crate::lbvh::{BVHBuildNode, BVHNodeType, node_count};

verus! {

/// Content of a node of the flattened BVH: a leaf holds the offset of its
/// first primitive in the primitive order and the primitive count; an interior
/// node holds its split axis and the offset of its second child (the first
/// child directly follows it).
#[derive(Clone, Copy, Debug)]
pub enum LinearBVHNodeType {
    Leaf(u32, u16),
    Interior(u8, u32),
}

/// A node of the BVH laid out in depth-first order in linear memory.
#[derive(Clone, Copy, Debug)]
pub struct LinearBVHNode<B> {
    pub bounds: B,
    pub content: LinearBVHNodeType,
}

/// `nodes[at ..]` holds `tree` in depth-first order: the first child of an
/// interior node follows it and its second child follows the whole first
/// subtree. Leaf and interior fields are narrowed as the node layout requires.
pub open spec fn flattened_at<B>(nodes: Seq<LinearBVHNode<B>>, at: int, tree: BVHBuildNode<B>) -> bool
    decreases tree,
{
    &&& 0 <= at < nodes.len()
    &&& nodes[at].bounds == tree.bounds
    &&& match tree.content {
        BVHNodeType::Leaf(first, n) => nodes[at].content == LinearBVHNodeType::Leaf(first as u32, n as u16),
        BVHNodeType::Interior(axis, c0, c1) => {
            &&& nodes[at].content == LinearBVHNodeType::Interior(axis as u8, (at + 1 + node_count(*c0)) as u32)
            &&& flattened_at(nodes, at + 1, *c0)
            &&& flattened_at(nodes, at + 1 + node_count(*c0), *c1)
        },
    }
}

proof fn lemma_node_count_pos<B>(tree: BVHBuildNode<B>)
    ensures
        node_count(tree) >= 1,
{
}

/// `flattened_at` only depends on the entries that the subtree occupies.
proof fn lemma_flattened_frame<B>(a: Seq<LinearBVHNode<B>>, b: Seq<LinearBVHNode<B>>, at: int, tree: BVHBuildNode<B>)
    requires
        flattened_at(a, at, tree),
        at + node_count(tree) <= b.len(),
        forall|k: int| at <= k < at + node_count(tree) ==> #[trigger] a[k] == b[k],
    ensures
        flattened_at(b, at, tree),
    decreases tree,
{
    match tree.content {
        BVHNodeType::Leaf(_, _) => {},
        BVHNodeType::Interior(_, c0, c1) => {
            lemma_flattened_frame(a, b, at + 1, *c0);
            lemma_flattened_frame(a, b, at + 1 + node_count(*c0), *c1);
        },
    }
}

/// Writes `node` and its subtree into `nodes` in depth-first order starting
/// at `*offset`, advancing `*offset` past it. Returns the node's own offset.
pub fn flatten_bvh_tree<B: Copy>(nodes: &mut Vec<LinearBVHNode<B>>, node: &BVHBuildNode<B>, offset: &mut usize) -> (my_offset: usize)
    requires
        *old(offset) + node_count(*node) <= old(nodes).len(),
    ensures
        my_offset == *old(offset),
        *final(offset) == *old(offset) + node_count(*node),
        final(nodes).len() == old(nodes).len(),
        flattened_at(final(nodes)@, my_offset as int, *node),
        forall|k: int| 0 <= k < old(nodes).len() && !(*old(offset) <= k < *old(offset) + node_count(*node))
            ==> #[trigger] final(nodes)@[k] == old(nodes)@[k],
    decreases node,
{
    let my_offset = *offset;
    *offset = my_offset + 1;
    let bounds = node.bounds;
    match &node.content {
        BVHNodeType::Leaf(prim_offset, nprims) => {
            let content = LinearBVHNodeType::Leaf(*prim_offset as u32, *nprims as u16);
            nodes.set(my_offset, LinearBVHNode { bounds, content });
        },
        BVHNodeType::Interior(axis, c0, c1) => {
            nodes.set(my_offset, LinearBVHNode { bounds, content: LinearBVHNodeType::Leaf(0, 0) });
            let ghost n1 = nodes@;
            let _first_offset = flatten_bvh_tree(nodes, c0, offset);
            let ghost n2 = nodes@;
            let second_offset = flatten_bvh_tree(nodes, c1, offset);
            let ghost n3 = nodes@;
            nodes.set(my_offset, LinearBVHNode { bounds, content: LinearBVHNodeType::Interior(*axis as u8, second_offset as u32) });
            proof {
                lemma_node_count_pos(**c0);
                lemma_node_count_pos(**c1);
                let c0n = node_count(**c0);
                lemma_flattened_frame(n2, nodes@, my_offset + 1, **c0);
                lemma_flattened_frame(n3, nodes@, my_offset + 1 + c0n, **c1);
            }
        },
    }
    my_offset
}

/// Every interior node names an axis below 3 and children inside `nodes`.
pub open spec fn linear_wf<B>(nodes: Seq<LinearBVHNode<B>>) -> bool {
    forall|i: int|
        0 <= i < nodes.len() ==> match #[trigger] nodes[i].content {
            LinearBVHNodeType::Interior(axis, second) => axis < 3 && i + 1 < nodes.len() && second < nodes.len(),
            LinearBVHNodeType::Leaf(_, _) => true,
        }
}

/// Checks `linear_wf`.
pub fn nodes_well_formed<B>(nodes: &Vec<LinearBVHNode<B>>) -> (r: bool)
    ensures
        r == linear_wf(nodes@),
{
    let n = nodes.len();
    let mut i: usize = 0;
    while i < n
        invariant
            n == nodes@.len(),
            0 <= i <= n,
            forall|k: int|
                0 <= k < i ==> match #[trigger] nodes@[k].content {
                    LinearBVHNodeType::Interior(axis, second) => axis < 3 && k + 1 < n && second < n,
                    LinearBVHNodeType::Leaf(_, _) => true,
                },
        decreases n - i,
    {
        match nodes[i].content {
            LinearBVHNodeType::Interior(axis, second) => {
                if !(axis < 3 && i + 1 < n && (second as usize) < n) {
                    return false;
                }
            },
            LinearBVHNodeType::Leaf(_, _) => {},
        }
        i = i + 1;
    }
    true
}

/// Every split axis in `tree` is one of the three coordinate axes.
pub open spec fn axes_in_range<B>(tree: BVHBuildNode<B>) -> bool
    decreases tree,
{
    match tree.content {
        BVHNodeType::Leaf(_, _) => true,
        BVHNodeType::Interior(axis, c0, c1) => axis < 3 && axes_in_range(*c0) && axes_in_range(*c1),
    }
}

/// The node at `k` of `nodes` names an axis below 3 and children inside `nodes`.
pub open spec fn linear_node_ok<B>(nodes: Seq<LinearBVHNode<B>>, k: int) -> bool {
    match nodes[k].content {
        LinearBVHNodeType::Interior(axis, second) => axis < 3 && k + 1 < nodes.len() && second < nodes.len(),
        LinearBVHNodeType::Leaf(_, _) => true,
    }
}

proof fn lemma_flattened_nodes_ok<B>(nodes: Seq<LinearBVHNode<B>>, at: int, tree: BVHBuildNode<B>)
    requires
        flattened_at(nodes, at, tree),
        axes_in_range(tree),
        at + node_count(tree) <= nodes.len(),
        nodes.len() <= u32::MAX,
    ensures
        forall|k: int| at <= k < at + node_count(tree) ==> linear_node_ok(nodes, k),
    decreases tree,
{
    match tree.content {
        BVHNodeType::Leaf(_, _) => {},
        BVHNodeType::Interior(axis, c0, c1) => {
            lemma_node_count_pos(*c0);
            lemma_node_count_pos(*c1);
            lemma_flattened_nodes_ok(nodes, at + 1, *c0);
            lemma_flattened_nodes_ok(nodes, at + 1 + node_count(*c0), *c1);
            assert(linear_node_ok(nodes, at));
        },
    }
}

/// A tree whose axes are coordinate axes, flattened into exactly as many
/// nodes as it has (at most `u32::MAX`), can be walked: every interior node
/// names an axis below 3 and both children inside the node array.
pub proof fn flattened_tree_well_formed<B>(nodes: Seq<LinearBVHNode<B>>, tree: BVHBuildNode<B>)
    requires
        flattened_at(nodes, 0, tree),
        axes_in_range(tree),
        nodes.len() == node_count(tree),
        nodes.len() <= u32::MAX,
    ensures
        linear_wf(nodes),
{
    lemma_flattened_nodes_ok(nodes, 0, tree);
    assert forall|i: int| 0 <= i < nodes.len() implies match #[trigger] nodes[i].content {
        LinearBVHNodeType::Interior(axis, second) => axis < 3 && i + 1 < nodes.len() && second < nodes.len(),
        LinearBVHNodeType::Leaf(_, _) => true,
    } by {
        assert(linear_node_ok(nodes, i));
    }
}

} // verus!
