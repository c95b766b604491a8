use vstd::prelude::*;
use crate::morton::{MortonPrimitive, stable_key_order};
use crate::lbvh::{BVHBuildNode, BVHNodeType, node_count, unions_ok, lemma_lbvh_unions, lbvh_ok, treelets_ok, build_treelets, bit_of, lbvh_split, leaf_bounds_ok, lemma_lbvh_leaf_bounds};
use crate::flat::{LinearBVHNode, LinearBVHNodeType, flattened_at, flatten_bvh_tree, axes_in_range, linear_wf, flattened_tree_well_formed};
use crate::sah::{build_upper_sah, tree_leaves, forest_leaves, forest_axes_in_range, plan_ok, sah_over, planned_joins, frontier, upper_unions, UpperShape, lemma_upper_leaf_bounds, planned_top};
use crate::traverse::leaf_in_order;
use vstd::multiset::Multiset;

verus! {

broadcast use vstd::multiset::group_multiset_axioms;

/// Bounding volume hierarchy over primitives `P` whose bounds are `B`, with
/// a transform `T` and, for meshes, one material `M` shared by all
/// primitives. The nodes are laid out in depth-first order; leaves refer to
/// primitives through `order`.
pub struct BVHAccel<P, T, M, B> {
    pub primitives: Vec<P>,
    /// BVH tree nodes arranged in linear memory
    pub nodes: Vec<LinearBVHNode<B>>,
    pub transform: T,
    /// Used if all the primitives share the same material
    pub material: Option<M>,
    /// The order in which primitives are accessed following BVH construction:
    /// each element is an index into `primitives`; leaf offsets index into it.
    pub order: Vec<usize>,
    /// Limit to how many primitives there may be per node
    pub max_prims_per_node: u8,
}

/// `root` joins the LBVH treelets emitted for the sorted primitives `sorted`
/// into one tree: the treelets stand in it unchanged, each once, under new
/// interior nodes, each split as `plan` chose for the treelets below it (the
/// top one when handed the treelets in their order); so its leaves are
/// exactly the treelets' leaves, each of its interior nodes has a union of its
/// children's bounds, and each leaf has the bounds that `union` folds from
/// `empty` over its primitives' bounds `pb`.
pub open spec fn bvh_of<B, F: Fn(&B, &B) -> B, G: Fn(&Vec<Box<BVHBuildNode<B>>>) -> (usize, Vec<bool>)>(
    root: BVHBuildNode<B>,
    sorted: Seq<MortonPrimitive>,
    max: int,
    pb: Seq<B>,
    empty: B,
    union: F,
    plan: G,
) -> bool {
    &&& exists|ts: Seq<Box<BVHBuildNode<B>>>, starts: Seq<int>|
        #[trigger] treelets_ok(ts, sorted, starts, max, pb, empty, union) && tree_leaves(root) == forest_leaves(ts)
            && sah_over(root, ts, plan, union) && planned_top(root, ts, plan, union)
    &&& unions_ok(root, union)
    &&& leaf_bounds_ok(root, sorted, pb, empty, union)
}

/// `ts` are the LBVH treelets emitted for the sorted primitives `sorted`.
pub open spec fn bvh_of_forest<B, F: Fn(&B, &B) -> B>(
    ts: Seq<Box<BVHBuildNode<B>>>,
    sorted: Seq<MortonPrimitive>,
    max: int,
    pb: Seq<B>,
    empty: B,
    union: F,
) -> bool {
    exists|starts: Seq<int>| #[trigger] treelets_ok(ts, sorted, starts, max, pb, empty, union)
}

proof fn lemma_bvh_of<B, F: Fn(&B, &B) -> B, G: Fn(&Vec<Box<BVHBuildNode<B>>>) -> (usize, Vec<bool>)>(
    root: BVHBuildNode<B>,
    ts: Seq<Box<BVHBuildNode<B>>>,
    sorted: Seq<MortonPrimitive>,
    max: int,
    pb: Seq<B>,
    empty: B,
    union: F,
    plan: G,
)
    requires
        bvh_of_forest(ts, sorted, max, pb, empty, union),
        tree_leaves(root) == forest_leaves(ts),
        unions_ok(root, union),
        sah_over(root, ts, plan, union),
        planned_top(root, ts, plan, union),
        sorted.len() <= usize::MAX,
    ensures
        bvh_of(root, sorted, max, pb, empty, union, plan),
{
    let starts = choose|starts: Seq<int>| treelets_ok(ts, sorted, starts, max, pb, empty, union);
    assert(treelets_ok(ts, sorted, starts, max, pb, empty, union));
    lemma_root_leaf_bounds(root, ts, sorted, starts, max, pb, empty, union, plan);
}

/// Leaves of a tree over the LBVH treelets have the bounds of their
/// primitives.
proof fn lemma_root_leaf_bounds<B, F: Fn(&B, &B) -> B, G: Fn(&Vec<Box<BVHBuildNode<B>>>) -> (usize, Vec<bool>)>(
    root: BVHBuildNode<B>,
    ts: Seq<Box<BVHBuildNode<B>>>,
    sorted: Seq<MortonPrimitive>,
    starts: Seq<int>,
    max: int,
    pb: Seq<B>,
    empty: B,
    union: F,
    plan: G,
)
    requires
        treelets_ok(ts, sorted, starts, max, pb, empty, union),
        sah_over(root, ts, plan, union),
        sorted.len() <= usize::MAX,
    ensures
        leaf_bounds_ok(root, sorted, pb, empty, union),
{
    broadcast use vstd::seq_lib::group_to_multiset_ensures;
    let shape = choose|shape: UpperShape|
        #[trigger] frontier(root, shape).to_multiset() == ts.to_multiset() && upper_unions(root, shape, union)
            && planned_joins(root, shape, plan, union);
    let fr = frontier(root, shape);
    assert forall|i: int| 0 <= i < fr.len() implies leaf_bounds_ok(*#[trigger] fr[i], sorted, pb, empty, union) by {
        assert(fr.to_multiset().count(fr[i]) > 0);
        assert(ts.to_multiset().count(fr[i]) > 0);
        assert(ts.contains(fr[i]));
        let k = choose|k: int| 0 <= k < ts.len() && ts[k] == fr[i];
        let ps = sorted.subrange(starts[k], starts[k + 1]);
        assert(ps =~= sorted.subrange(starts[k], starts[k] + ps.len()));
        lemma_lbvh_leaf_bounds(*ts[k], ps, starts[k], 18, max, pb, empty, union, sorted);
    }
    lemma_upper_leaf_bounds(root, shape, sorted, pb, empty, union);
}

proof fn lemma_lbvh_axes<B, F: Fn(&B, &B) -> B>(
    node: BVHBuildNode<B>,
    ps: Seq<MortonPrimitive>,
    first: int,
    level: nat,
    max: int,
    pb: Seq<B>,
    empty: B,
    union: F,
)
    requires
        lbvh_ok(node, ps, first, level, max, pb, empty, union),
    ensures
        axes_in_range(node),
    decreases level,
{
    let bit = level - 1;
    if level == 0 || ps.len() < max {
    } else if bit_of(ps[0].code, bit) == bit_of(ps.last().code, bit) {
        lemma_lbvh_axes(node, ps, first, (level - 1) as nat, max, pb, empty, union);
    } else {
        let q = lbvh_split(ps, bit);
        match node.content {
            BVHNodeType::Interior(axis, c0, c1) => {
                lemma_lbvh_axes(*c0, ps.take(q), first, (level - 1) as nat, max, pb, empty, union);
                lemma_lbvh_axes(*c1, ps.skip(q), first + q, (level - 1) as nat, max, pb, empty, union);
            },
            BVHNodeType::Leaf(_, _) => {},
        }
    }
}

/// Every treelet that the LBVH step emits splits only on the three axes.
proof fn lemma_treelets_axes<B, F: Fn(&B, &B) -> B>(
    ts: Seq<Box<BVHBuildNode<B>>>,
    sorted: Seq<MortonPrimitive>,
    starts: Seq<int>,
    max: int,
    pb: Seq<B>,
    empty: B,
    union: F,
)
    requires
        treelets_ok(ts, sorted, starts, max, pb, empty, union),
    ensures
        forest_axes_in_range(ts),
{
    assert forall|k: int| 0 <= k < ts.len() implies axes_in_range(*#[trigger] ts[k]) by {
        lemma_lbvh_axes(*ts[k], sorted.subrange(starts[k], starts[k + 1]), starts[k], 18, max, pb, empty, union);
    }
}

/// Every leaf of `tree` covers a range of the primitive order inside
/// `lo .. hi`.
pub open spec fn leaves_within<B>(tree: BVHBuildNode<B>, lo: int, hi: int) -> bool
    decreases tree,
{
    match tree.content {
        BVHNodeType::Leaf(first, n) => lo <= first && first + n <= hi,
        BVHNodeType::Interior(_, c0, c1) => leaves_within(*c0, lo, hi) && leaves_within(*c1, lo, hi),
    }
}

proof fn lemma_within_widen<B>(tree: BVHBuildNode<B>, lo: int, hi: int, lo2: int, hi2: int)
    requires
        leaves_within(tree, lo, hi),
        lo2 <= lo,
        hi <= hi2,
    ensures
        leaves_within(tree, lo2, hi2),
    decreases tree,
{
    match tree.content {
        BVHNodeType::Leaf(_, _) => {},
        BVHNodeType::Interior(_, c0, c1) => {
            lemma_within_widen(*c0, lo, hi, lo2, hi2);
            lemma_within_widen(*c1, lo, hi, lo2, hi2);
        },
    }
}

proof fn lemma_lbvh_within<B, F: Fn(&B, &B) -> B>(
    node: BVHBuildNode<B>,
    ps: Seq<MortonPrimitive>,
    first: int,
    level: nat,
    max: int,
    pb: Seq<B>,
    empty: B,
    union: F,
)
    requires
        lbvh_ok(node, ps, first, level, max, pb, empty, union),
        0 <= first,
        first + ps.len() <= usize::MAX,
    ensures
        leaves_within(node, first, first + ps.len()),
    decreases level,
{
    let bit = level - 1;
    if level == 0 || ps.len() < max {
    } else if bit_of(ps[0].code, bit) == bit_of(ps.last().code, bit) {
        lemma_lbvh_within(node, ps, first, (level - 1) as nat, max, pb, empty, union);
    } else {
        let q = lbvh_split(ps, bit);
        match node.content {
            BVHNodeType::Interior(_, c0, c1) => {
                lemma_lbvh_within(*c0, ps.take(q), first, (level - 1) as nat, max, pb, empty, union);
                lemma_lbvh_within(*c1, ps.skip(q), first + q, (level - 1) as nat, max, pb, empty, union);
                lemma_within_widen(*c0, first, first + q, first, first + ps.len());
                lemma_within_widen(*c1, first + q, first + ps.len(), first, first + ps.len());
            },
            BVHNodeType::Leaf(_, _) => {},
        }
    }
}

/// The leaf pairs of `tree` all lie in `lo .. hi` exactly when
/// `leaves_within` says so.
proof fn lemma_within_leaves<B>(tree: BVHBuildNode<B>, lo: int, hi: int)
    ensures
        leaves_within(tree, lo, hi) <==> (forall|x: (usize, usize)| #[trigger] tree_leaves(tree).count(x) > 0 ==> lo <= x.0
            && x.0 + x.1 <= hi),
    decreases tree,
{
    match tree.content {
        BVHNodeType::Leaf(f, n) => {
            if !leaves_within(tree, lo, hi) {
                assert(tree_leaves(tree).count((f, n)) > 0);
            }
        },
        BVHNodeType::Interior(_, c0, c1) => {
            lemma_within_leaves(*c0, lo, hi);
            lemma_within_leaves(*c1, lo, hi);
            if !leaves_within(*c0, lo, hi) {
                let x = choose|x: (usize, usize)| tree_leaves(*c0).count(x) > 0 && !(lo <= x.0 && x.0 + x.1 <= hi);
                assert(tree_leaves(tree).count(x) > 0);
            }
            if !leaves_within(*c1, lo, hi) {
                let x = choose|x: (usize, usize)| tree_leaves(*c1).count(x) > 0 && !(lo <= x.0 && x.0 + x.1 <= hi);
                assert(tree_leaves(tree).count(x) > 0);
            }
        },
    }
}

proof fn lemma_forest_within<B>(ts: Seq<Box<BVHBuildNode<B>>>, lo: int, hi: int)
    requires
        forall|k: int| 0 <= k < ts.len() ==> leaves_within(*#[trigger] ts[k], lo, hi),
    ensures
        forall|x: (usize, usize)| #[trigger] forest_leaves(ts).count(x) > 0 ==> lo <= x.0 && x.0 + x.1 <= hi,
    decreases ts.len(),
{
    if ts.len() > 0 {
        let rest = ts.drop_last();
        assert forall|k: int| 0 <= k < rest.len() implies leaves_within(*#[trigger] rest[k], lo, hi) by {
            assert(rest[k] == ts[k]);
        }
        lemma_forest_within(rest, lo, hi);
        assert(leaves_within(*ts[ts.len() - 1], lo, hi));
        lemma_within_leaves(*ts.last(), lo, hi);
        assert(forest_leaves(ts) == forest_leaves(rest).add(tree_leaves(*ts.last())));
        assert forall|x: (usize, usize)| #[trigger] forest_leaves(ts).count(x) > 0 implies lo <= x.0 && x.0 + x.1 <= hi by {
            if forest_leaves(rest).count(x) == 0 {
                assert(tree_leaves(*ts.last()).count(x) > 0);
            }
        }
    } else {
        assert(forest_leaves(ts) == Multiset::<(usize, usize)>::empty());
    }
}

/// The leaves that `flattened_at` lays out from `tree` lie inside a primitive
/// order of length `m` when those of the tree do.
proof fn lemma_flattened_in_order<B>(nodes: Seq<LinearBVHNode<B>>, at: int, tree: BVHBuildNode<B>, m: int)
    requires
        flattened_at(nodes, at, tree),
        leaves_within(tree, 0, m),
    ensures
        forall|k: int| at <= k < at + node_count(tree) ==> leaf_in_order(#[trigger] nodes[k].content, m),
    decreases tree,
{
    match tree.content {
        BVHNodeType::Leaf(f, n) => {
            assert((f as u32) as usize <= f) by (bit_vector);
            assert((n as u16) as usize <= n) by (bit_vector);
        },
        BVHNodeType::Interior(_, c0, c1) => {
            lemma_flattened_in_order(nodes, at + 1, *c0, m);
            lemma_flattened_in_order(nodes, at + 1 + node_count(*c0), *c1, m);
        },
    }
}

/// The leaves of the LBVH treelets lie inside the sorted primitives.
proof fn lemma_treelets_within<B, F: Fn(&B, &B) -> B>(
    ts: Seq<Box<BVHBuildNode<B>>>,
    sorted: Seq<MortonPrimitive>,
    starts: Seq<int>,
    max: int,
    pb: Seq<B>,
    empty: B,
    union: F,
)
    requires
        treelets_ok(ts, sorted, starts, max, pb, empty, union),
        sorted.len() <= usize::MAX,
    ensures
        forall|x: (usize, usize)| #[trigger] forest_leaves(ts).count(x) > 0 ==> x.0 + x.1 <= sorted.len(),
{
    assert forall|k: int| 0 <= k < ts.len() implies leaves_within(*#[trigger] ts[k], 0, sorted.len() as int) by {
        let sub = sorted.subrange(starts[k], starts[k + 1]);
        lemma_lbvh_within(*ts[k], sub, starts[k], 18, max, pb, empty, union);
        lemma_within_widen(*ts[k], starts[k], starts[k] + sub.len(), 0, sorted.len() as int);
    }
    lemma_forest_within(ts, 0, sorted.len() as int);
}

/// What the rest of the build needs of the LBVH treelets.
proof fn lemma_treelet_facts<B, F: Fn(&B, &B) -> B>(
    ts: Seq<Box<BVHBuildNode<B>>>,
    sorted: Seq<MortonPrimitive>,
    starts: Seq<int>,
    max: int,
    pb: Seq<B>,
    empty: B,
    union: F,
)
    requires
        treelets_ok(ts, sorted, starts, max, pb, empty, union),
        sorted.len() <= usize::MAX,
    ensures
        forest_axes_in_range(ts),
        bvh_of_forest(ts, sorted, max, pb, empty, union),
        forall|x: (usize, usize)| #[trigger] forest_leaves(ts).count(x) > 0 ==> x.0 + x.1 <= sorted.len(),
        forall|k: int| 0 <= k < ts.len() ==> unions_ok(*#[trigger] ts[k], union),
{
    lemma_treelets_axes(ts, sorted, starts, max, pb, empty, union);
    lemma_treelets_within(ts, sorted, starts, max, pb, empty, union);
    assert forall|k: int| 0 <= k < ts.len() implies unions_ok(*#[trigger] ts[k], union) by {
        lemma_lbvh_unions(*ts[k], sorted.subrange(starts[k], starts[k + 1]), starts[k], 18, max, pb, empty, union);
    }
}

/// What `BVHAccel::new` lays out refers only to primitives it was given.
proof fn lemma_built_traversable<B>(
    nodes: Seq<LinearBVHNode<B>>,
    order: Seq<usize>,
    n: int,
    root: BVHBuildNode<B>,
    ts: Seq<Box<BVHBuildNode<B>>>,
    sorted: Seq<MortonPrimitive>,
    morton_in: Seq<MortonPrimitive>,
    perm: Seq<int>,
)
    requires
        flattened_at(nodes, 0, root),
        node_count(root) == nodes.len(),
        tree_leaves(root) == forest_leaves(ts),
        forall|x: (usize, usize)| #[trigger] forest_leaves(ts).count(x) > 0 ==> x.0 + x.1 <= n,
        order.len() == n,
        sorted.len() == n,
        forall|i: int| 0 <= i < n ==> #[trigger] order[i] == sorted[i].index,
        stable_key_order(sorted, morton_in, perm),
        forall|i: int| 0 <= i < morton_in.len() ==> (#[trigger] morton_in[i]).index == i,
    ensures
        forall|k: int| 0 <= k < nodes.len() ==> leaf_in_order(#[trigger] nodes[k].content, n),
        forall|i: int| 0 <= i < order.len() ==> #[trigger] order[i] < n,
{
    assert forall|x: (usize, usize)| #[trigger] tree_leaves(root).count(x) > 0 implies 0 <= x.0 && x.0 + x.1 <= n by {
        assert(forest_leaves(ts).count(x) > 0);
    }
    lemma_within_leaves(root, 0, n);
    lemma_flattened_in_order(nodes, 0, root, n);
    assert forall|i: int| 0 <= i < order.len() implies #[trigger] order[i] < n by {
        assert(sorted[i] == morton_in[perm[i]]);
    }
}

/// What `BVHAccel::new` builds from the Morton-coded primitives
/// `morton_prims` with bounds `pb`: `order` lists the primitives' indices
/// sorted stably by Morton code, and `nodes` is the depth-first layout of a
/// tree that joins the LBVH treelets over that order as `bvh_of` says.
pub open spec fn built_from<B, F: Fn(&B, &B) -> B, G: Fn(&Vec<Box<BVHBuildNode<B>>>) -> (usize, Vec<bool>)>(
    nodes: Seq<LinearBVHNode<B>>,
    order: Seq<usize>,
    morton_prims: Seq<MortonPrimitive>,
    max: int,
    pb: Seq<B>,
    empty: B,
    union: F,
    plan: G,
) -> bool {
    exists|sorted: Seq<MortonPrimitive>, perm: Seq<int>, root: BVHBuildNode<B>|
        #[trigger] stable_key_order(sorted, morton_prims, perm)
        && order.len() == sorted.len()
        && (forall|i: int| 0 <= i < sorted.len() ==> #[trigger] order[i] == sorted[i].index)
        && #[trigger] flattened_at(nodes, 0, root)
        && nodes.len() == crate::lbvh::node_count(root)
        && bvh_of(root, sorted, max, pb, empty, union, plan)
}

fn filled<X: Copy>(n: usize, x: X) -> (v: Vec<X>)
    ensures
        v@.len() == n,
{
    let mut v: Vec<X> = Vec::new();
    let mut i: usize = 0;
    while i < n
        invariant
            0 <= i <= n,
            v@.len() == i,
        decreases n - i,
    {
        v.push(x);
        i = i + 1;
    }
    v
}

impl<P, T, M, B: Copy> BVHAccel<P, T, M, B> {
    /// Builds the hierarchy over `primitives`: primitive `i` has bounds
    /// `prim_bounds[i]` and Morton code `morton_prims[i].code`. The
    /// primitives are sorted by Morton code and grouped into LBVH treelets,
    /// the treelets are joined by the surface area heuristic (`plan`), and the
    /// resulting tree is flattened. At most `max_prims_per_node` (capped at
    /// 255) primitives are kept together without trying to split them.
    /// There has to be a primitive: over none, the upper levels would be
    /// split without end.
    #[verifier::rlimit(50)]
    pub fn new<F: Fn(&B, &B) -> B, G: Fn(&Vec<Box<BVHBuildNode<B>>>) -> (usize, Vec<bool>)>(
        primitives: Vec<P>,
        transform: T,
        material: Option<M>,
        max_prims_per_node: usize,
        morton_prims: Vec<MortonPrimitive>,
        prim_bounds: &Vec<B>,
        empty: B,
        union: &F,
        plan: &G,
    ) -> (accel: BVHAccel<P, T, M, B>)
        requires
            primitives@.len() >= 1,
            morton_prims@.len() == primitives@.len(),
            prim_bounds@.len() == primitives@.len(),
            forall|i: int| 0 <= i < morton_prims@.len() ==> (#[trigger] morton_prims@[i]).index == i,
            4 * primitives@.len() <= usize::MAX,
            forall|a: &B, b: &B| call_requires(*union, (a, b)),
            forall|v: &Vec<Box<BVHBuildNode<B>>>| call_requires(*plan, (v,)),
            forall|v: &Vec<Box<BVHBuildNode<B>>>, r: (usize, Vec<bool>)| call_ensures(*plan, (v,), r) ==> plan_ok(v@, r),
        ensures
            accel.primitives == primitives,
            accel.transform == transform,
            accel.material == material,
            accel.max_prims_per_node == (if max_prims_per_node < 255 { max_prims_per_node } else { 255 }),
            built_from(accel.nodes@, accel.order@, morton_prims@, accel.max_prims_per_node as int, prim_bounds@, empty, *union, *plan),
            accel.nodes@.len() <= u32::MAX ==> linear_wf(accel.nodes@),
            accel.nodes@.len() <= u32::MAX ==> accel.traversable(),
    {
        let nprims = primitives.len();
        let max: u8 = if max_prims_per_node < 255 { max_prims_per_node as u8 } else { 255u8 };
        let mut order: Vec<usize> = filled(nprims, usize::MAX);
        let mut morton_prims = morton_prims;
        let ghost morton_in = morton_prims@;
        let mut total_nodes: usize = 0;
        proof {
            assert forall|i: int| 0 <= i < morton_prims@.len() implies (#[trigger] morton_prims@[i]).index
                < prim_bounds@.len() by {}
        }
        let treelets = build_treelets(&mut morton_prims, prim_bounds, empty, union, max, &mut order, &mut total_nodes);
        let ghost sorted = morton_prims@;
        let ghost ts = treelets@;
        let ghost perm = choose|perm: Seq<int>| stable_key_order(sorted, morton_in, perm);
        proof {
            let starts = choose|starts: Seq<int>|
                treelets_ok(ts, sorted, starts, max as int, prim_bounds@, empty, *union);
            lemma_treelet_facts(ts, sorted, starts, max as int, prim_bounds@, empty, *union);
        }
        let ghost tv = treelets;
        let root = build_upper_sah(treelets, &mut total_nodes, empty, union, plan);
        proof {
            if ts.len() >= 2 {
                let planned = choose|planned: (usize, Vec<bool>)|
                    #[trigger] call_ensures(*plan, (&tv,), planned) && crate::sah::upper_split(*root, ts, planned, *union);
                assert(call_ensures(*plan, (&tv,), planned));
            }
            assert(planned_top(*root, ts, *plan, *union));
        }
        let mut nodes: Vec<LinearBVHNode<B>> = filled(total_nodes,
            LinearBVHNode { bounds: empty, content: LinearBVHNodeType::Leaf(0, 0) });
        let mut offset: usize = 0;
        flatten_bvh_tree(&mut nodes, &root, &mut offset);
        proof {
            assert(sorted.len() == nprims);
            lemma_bvh_of(*root, ts, sorted, max as int, prim_bounds@, empty, *union, *plan);
            if nodes@.len() <= u32::MAX {
                flattened_tree_well_formed(nodes@, *root);
            }
            assert(stable_key_order(sorted, morton_in, perm));
            assert(flattened_at(nodes@, 0, *root));
            lemma_built_traversable(nodes@, order@, nprims as int, *root, ts, sorted, morton_in, perm);
        }
        BVHAccel { primitives, nodes, transform, material, order, max_prims_per_node: max }
    }
}

} // verus!
