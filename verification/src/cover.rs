use vstd::prelude::*;
use vstd::multiset::Multiset;
use crate::morton::{MortonPrimitive, stable_key_order, morton_key};
use crate::lbvh::{BVHBuildNode, BVHNodeType, lbvh_ok, treelets_ok, bit_of, lbvh_split, leaf_bounds_ok, unions_ok, union_fold, fold_steps, prim_bounds_of, leaves_small_or_flat, lemma_treelets_flat, splits_on_coded_axis, treelets_split_on_coded_axes};
use crate::sah::{tree_leaves, forest_leaves, sah_over};
use crate::accel::{bvh_of, built_from};
use crate::lbvh::node_count;
use crate::flat::{LinearBVHNode, LinearBVHNodeType, flattened_at};
use crate::traverse::{bounds_hit, walk_leaves, leaf_prims};

verus! {

broadcast use vstd::multiset::group_multiset_axioms, vstd::seq_lib::group_to_multiset_ensures;

/// The leaves of `tree` from left to right, as (first, count) pairs.
pub open spec fn leaf_list<B>(tree: BVHBuildNode<B>) -> Seq<(usize, usize)>
    decreases tree,
{
    match tree.content {
        BVHNodeType::Leaf(first, n) => seq![(first, n)],
        BVHNodeType::Interior(_, c0, c1) => leaf_list(*c0) + leaf_list(*c1),
    }
}

/// The leaves of the trees of `ts`, tree by tree.
pub open spec fn forest_list<B>(ts: Seq<Box<BVHBuildNode<B>>>) -> Seq<(usize, usize)>
    decreases ts.len(),
{
    if ts.len() == 0 {
        Seq::empty()
    } else {
        forest_list(ts.drop_last()) + leaf_list(*ts.last())
    }
}

/// The ranges `ranges` (first, count), in order, follow each other without
/// gap or overlap from `lo` up to `hi`.
pub open spec fn tiles(ranges: Seq<(usize, usize)>, lo: int, hi: int) -> bool
    decreases ranges.len(),
{
    if ranges.len() == 0 {
        lo == hi
    } else {
        ranges[0].0 == lo && tiles(ranges.drop_first(), lo + ranges[0].1, hi)
    }
}

proof fn lemma_tiles_concat(a: Seq<(usize, usize)>, b: Seq<(usize, usize)>, lo: int, mid: int, hi: int)
    requires
        tiles(a, lo, mid),
        tiles(b, mid, hi),
    ensures
        tiles(a + b, lo, hi),
    decreases a.len(),
{
    if a.len() == 0 {
        assert(a + b =~= b);
    } else {
        lemma_tiles_concat(a.drop_first(), b, lo + a[0].1, mid, hi);
        assert((a + b).drop_first() =~= a.drop_first() + b);
    }
}

proof fn lemma_leaf_list_multiset<B>(tree: BVHBuildNode<B>)
    ensures
        leaf_list(tree).to_multiset() == tree_leaves(tree),
    decreases tree,
{
    match tree.content {
        BVHNodeType::Leaf(first, n) => {
            assert(seq![(first, n)] =~= Seq::<(usize, usize)>::empty().push((first, n)));
        },
        BVHNodeType::Interior(_, c0, c1) => {
            lemma_leaf_list_multiset(*c0);
            lemma_leaf_list_multiset(*c1);
            vstd::seq_lib::lemma_multiset_commutative(leaf_list(*c0), leaf_list(*c1));
        },
    }
}

proof fn lemma_forest_list_multiset<B>(ts: Seq<Box<BVHBuildNode<B>>>)
    ensures
        forest_list(ts).to_multiset() == forest_leaves(ts),
    decreases ts.len(),
{
    if ts.len() > 0 {
        lemma_forest_list_multiset(ts.drop_last());
        lemma_leaf_list_multiset(*ts.last());
        vstd::seq_lib::lemma_multiset_commutative(forest_list(ts.drop_last()), leaf_list(*ts.last()));
    }
}

/// The leaves of an LBVH subtree tile the primitives it was built over.
proof fn lemma_lbvh_tiles<B, F: Fn(&B, &B) -> B>(
    node: BVHBuildNode<B>,
    ps: Seq<MortonPrimitive>,
    first: int,
    level: nat,
    max: int,
    pb: Seq<B>,
    empty: B,
    union: F,
)
    requires
        lbvh_ok(node, ps, first, level, max, pb, empty, union),
        0 <= first,
        first + ps.len() <= usize::MAX,
    ensures
        tiles(leaf_list(node), first, first + ps.len()),
    decreases level,
{
    let bit = level - 1;
    if level == 0 || ps.len() < max {
        let l = leaf_list(node);
        assert(l.drop_first() =~= Seq::<(usize, usize)>::empty());
        assert(l[0] == (first as usize, ps.len() as usize));
        assert(tiles(l.drop_first(), first + ps.len(), first + ps.len()));
    } else if bit_of(ps[0].code, bit) == bit_of(ps.last().code, bit) {
        lemma_lbvh_tiles(node, ps, first, (level - 1) as nat, max, pb, empty, union);
    } else {
        let q = lbvh_split(ps, bit);
        match node.content {
            BVHNodeType::Interior(_, c0, c1) => {
                lemma_lbvh_tiles(*c0, ps.take(q), first, (level - 1) as nat, max, pb, empty, union);
                lemma_lbvh_tiles(*c1, ps.skip(q), first + q, (level - 1) as nat, max, pb, empty, union);
                lemma_tiles_concat(leaf_list(*c0), leaf_list(*c1), first, first + q, first + ps.len());
            },
            BVHNodeType::Leaf(_, _) => {},
        }
    }
}

/// The leaves of the first `k` LBVH treelets, treelet by treelet, tile the
/// sorted primitives they were built over.
proof fn lemma_treelets_tile<B, F: Fn(&B, &B) -> B>(
    ts: Seq<Box<BVHBuildNode<B>>>,
    sorted: Seq<MortonPrimitive>,
    starts: Seq<int>,
    max: int,
    pb: Seq<B>,
    empty: B,
    union: F,
    k: int,
)
    requires
        treelets_ok(ts, sorted, starts, max, pb, empty, union),
        sorted.len() <= usize::MAX,
        0 <= k <= ts.len(),
    ensures
        tiles(forest_list(ts.take(k)), 0, starts[k]),
    decreases k,
{
    if k == 0 {
        assert(ts.take(0).len() == 0);
    } else {
        lemma_treelets_tile(ts, sorted, starts, max, pb, empty, union, k - 1);
        let sub = sorted.subrange(starts[k - 1], starts[k]);
        assert(lbvh_ok(*ts[k - 1], sub, starts[k - 1], 18, max, pb, empty, union));
        lemma_lbvh_tiles(*ts[k - 1], sub, starts[k - 1], 18, max, pb, empty, union);
        lemma_tiles_concat(forest_list(ts.take(k - 1)), leaf_list(*ts[k - 1]), 0, starts[k - 1], starts[k]);
        assert(ts.take(k).drop_last() =~= ts.take(k - 1));
        assert(ts.take(k).last() == ts[k - 1]);
    }
}

/// The leaves of a hierarchy built over sorted primitives, taken in a
/// suitable order, tile the whole primitive order: every position of it lies
/// in exactly one leaf.
pub proof fn built_leaves_tile_primitives<B, F: Fn(&B, &B) -> B, G: Fn(&Vec<Box<BVHBuildNode<B>>>) -> (usize, Vec<bool>)>(
    root: BVHBuildNode<B>,
    sorted: Seq<MortonPrimitive>,
    max: int,
    pb: Seq<B>,
    empty: B,
    union: F,
    plan: G,
)
    requires
        bvh_of(root, sorted, max, pb, empty, union, plan),
        sorted.len() <= usize::MAX,
    ensures
        exists|l: Seq<(usize, usize)>| l.to_multiset() == tree_leaves(root) && #[trigger] tiles(l, 0, sorted.len() as int),
{
    let (ts, starts) = choose|ts: Seq<Box<BVHBuildNode<B>>>, starts: Seq<int>|
        treelets_ok(ts, sorted, starts, max, pb, empty, union) && tree_leaves(root) == forest_leaves(ts);
    lemma_treelets_tile(ts, sorted, starts, max, pb, empty, union, ts.len() as int);
    assert(ts.take(ts.len() as int) =~= ts);
    lemma_forest_list_multiset(ts);
    let l = forest_list(ts);
    assert(l.to_multiset() == tree_leaves(root) && tiles(l, 0, sorted.len() as int));
}

/// The leaves as the flattened node layout holds them: first offsets as
/// `u32`, counts as `u16`.
pub open spec fn narrow_leaves(l: Seq<(usize, usize)>) -> Seq<(u32, u16)> {
    l.map_values(|x: (usize, usize)| (x.0 as u32, x.1 as u16))
}

/// Every leaf of `tree` fits the node layout: its first offset fits in a
/// `u32` and its count in a `u16`.
pub open spec fn leaves_fit<B>(tree: BVHBuildNode<B>) -> bool
    decreases tree,
{
    match tree.content {
        BVHNodeType::Leaf(first, n) => first <= u32::MAX && n <= u16::MAX,
        BVHNodeType::Interior(_, c0, c1) => leaves_fit(*c0) && leaves_fit(*c1),
    }
}

proof fn lemma_narrow_concat(a: Seq<(usize, usize)>, b: Seq<(usize, usize)>)
    ensures
        narrow_leaves(a + b) == narrow_leaves(a) + narrow_leaves(b),
{
    assert(narrow_leaves(a + b) =~= narrow_leaves(a) + narrow_leaves(b));
}

/// A walk on which every bounds test hits lists every leaf of the flattened
/// tree, the order of siblings aside.
proof fn lemma_full_walk<B, H: Fn(&B) -> bool>(
    nodes: Seq<LinearBVHNode<B>>,
    at: int,
    tree: BVHBuildNode<B>,
    dir_is_neg: [bool; 3],
    hits: H,
)
    requires
        flattened_at(nodes, at, tree),
        nodes.len() <= u32::MAX,
        forall|b: B| bounds_hit(hits, b),
    ensures
        walk_leaves(nodes, at, dir_is_neg, hits).to_multiset() == narrow_leaves(leaf_list(tree)).to_multiset(),
    decreases tree,
{
    assert(bounds_hit(hits, nodes[at].bounds));
    match tree.content {
        BVHNodeType::Leaf(first, n) => {
            let w = seq![(first as u32, n as u16)];
            assert(narrow_leaves(leaf_list(tree)) =~= w);
            assert(walk_leaves(nodes, at, dir_is_neg, hits) =~= w);
            assert(walk_leaves(nodes, at, dir_is_neg, hits) == narrow_leaves(leaf_list(tree)));
        },
        BVHNodeType::Interior(_, c0, c1) => {
            lemma_full_walk(nodes, at + 1, *c0, dir_is_neg, hits);
            lemma_full_walk(nodes, at + 1 + node_count(*c0), *c1, dir_is_neg, hits);
            lemma_narrow_concat(leaf_list(*c0), leaf_list(*c1));
            let w0 = walk_leaves(nodes, at + 1, dir_is_neg, hits);
            let w1 = walk_leaves(nodes, at + 1 + node_count(*c0), dir_is_neg, hits);
            vstd::seq_lib::lemma_multiset_commutative(w0, w1);
            vstd::seq_lib::lemma_multiset_commutative(w1, w0);
            vstd::seq_lib::lemma_multiset_commutative(narrow_leaves(leaf_list(*c0)), narrow_leaves(leaf_list(*c1)));
            let second = at + 1 + node_count(*c0);
            assert(flattened_at(nodes, second, *c1));
            assert(flattened_at(nodes, at + 1, *c0));
            assert(second < nodes.len() && at + 1 < nodes.len());
            assert((second as u32) as int == second);
            assert(nodes[at].content matches LinearBVHNodeType::Interior(axis, sec) && sec as int == second);
            assert(walk_leaves(nodes, at, dir_is_neg, hits) == w0 + w1 || walk_leaves(nodes, at, dir_is_neg, hits) == w1 + w0);
            assert(leaf_list(tree) == leaf_list(*c0) + leaf_list(*c1));
        },
    }
}

proof fn lemma_leaf_prims_remove(order: Seq<usize>, s: Seq<(u32, u16)>, j: int)
    requires
        0 <= j < s.len(),
    ensures
        leaf_prims(order, s).to_multiset() == leaf_prims(order, s.remove(j)).to_multiset().add(
            order.subrange(s[j].0 as int, s[j].0 + s[j].1).to_multiset(),
        ),
    decreases s.len(),
{
    let d = s.drop_last();
    let last = order.subrange(s.last().0 as int, s.last().0 + s.last().1);
    vstd::seq_lib::lemma_multiset_commutative(leaf_prims(order, d), last);
    if j < s.len() - 1 {
        lemma_leaf_prims_remove(order, d, j);
        assert(s.remove(j).drop_last() =~= d.remove(j));
        assert(s.remove(j).last() == s.last());
        vstd::seq_lib::lemma_multiset_commutative(leaf_prims(order, d.remove(j)), last);
    } else {
        assert(s.remove(j) =~= d);
    }
}

/// Listing leaves in another order lists the same primitives.
proof fn lemma_leaf_prims_perm(order: Seq<usize>, s1: Seq<(u32, u16)>, s2: Seq<(u32, u16)>)
    requires
        s1.to_multiset() == s2.to_multiset(),
    ensures
        leaf_prims(order, s1).to_multiset() == leaf_prims(order, s2).to_multiset(),
    decreases s1.len(),
{
    if s1.len() == 0 {
        assert(s2.to_multiset().len() == s2.len());
        assert(s2.len() == 0);
    } else {
        let x = s1.last();
        let d = s1.drop_last();
        assert(d.push(x) =~= s1);
        assert(s2.to_multiset().count(x) > 0);
        assert(s2.contains(x));
        let j = choose|j: int| 0 <= j < s2.len() && s2[j] == x;
        let r = s2.remove(j);
        assert(r.to_multiset() =~= d.to_multiset());
        lemma_leaf_prims_perm(order, d, r);
        lemma_leaf_prims_remove(order, s2, j);
        vstd::seq_lib::lemma_multiset_commutative(
            leaf_prims(order, d),
            order.subrange(x.0 as int, x.0 + x.1),
        );
    }
}

proof fn lemma_tiles_last(l: Seq<(usize, usize)>, lo: int, hi: int)
    requires
        tiles(l, lo, hi),
        l.len() > 0,
    ensures
        l.last().0 + l.last().1 == hi,
        tiles(l.drop_last(), lo, l.last().0 as int),
    decreases l.len(),
{
    if l.len() == 1 {
        assert(l.drop_first().len() == 0);
        assert(tiles(l.drop_first(), lo + l[0].1, hi));
        assert(lo + l[0].1 == hi);
        assert(l.drop_last().len() == 0);
        assert(l.last() == l[0]);
    } else {
        lemma_tiles_last(l.drop_first(), lo + l[0].1, hi);
        assert(l.drop_first().last() == l.last());
        assert(l.drop_first().drop_last() =~= l.drop_last().drop_first());
        assert(l.drop_last()[0] == l[0]);
    }
}

/// The primitives of leaves that tile `lo .. hi` are those positions of the
/// primitive order, in order.
proof fn lemma_tiled_prims(order: Seq<usize>, l: Seq<(usize, usize)>, lo: int, hi: int)
    requires
        tiles(l, lo, hi),
        0 <= lo,
        hi <= order.len(),
        forall|i: int| 0 <= i < l.len() ==> (#[trigger] l[i]).0 <= u32::MAX && l[i].1 <= u16::MAX,
    ensures
        leaf_prims(order, narrow_leaves(l)) == order.subrange(lo, hi),
    decreases l.len(),
{
    if l.len() == 0 {
        assert(narrow_leaves(l).len() == 0);
        assert(order.subrange(lo, hi).len() == 0);
    } else {
        lemma_tiles_last(l, lo, hi);
        let d = l.drop_last();
        assert forall|i: int| 0 <= i < d.len() implies (#[trigger] d[i]).0 <= u32::MAX && d[i].1 <= u16::MAX by {
            assert(d[i] == l[i]);
        }
        assert(lo <= l.last().0) by {
            lemma_tiles_lower(d, lo, l.last().0 as int);
        }
        lemma_tiled_prims(order, d, lo, l.last().0 as int);
        let n = narrow_leaves(l);
        assert(n.drop_last() =~= narrow_leaves(d));
        let x = l[l.len() - 1];
        assert(x.0 <= u32::MAX && x.1 <= u16::MAX);
        assert(n.last() == (x.0 as u32, x.1 as u16));
        assert((x.0 as u32) as int == x.0 as int);
        assert((x.1 as u16) as int == x.1 as int);
        assert(order.subrange(lo, l.last().0 as int) + order.subrange(l.last().0 as int, hi) =~= order.subrange(lo, hi));
    }
}

proof fn lemma_tiles_lower(l: Seq<(usize, usize)>, lo: int, hi: int)
    requires
        tiles(l, lo, hi),
    ensures
        lo <= hi,
    decreases l.len(),
{
    if l.len() > 0 {
        lemma_tiles_lower(l.drop_first(), lo + l[0].1, hi);
    }
}

proof fn lemma_leaf_list_fit<B>(tree: BVHBuildNode<B>)
    requires
        leaves_fit(tree),
    ensures
        forall|i: int| 0 <= i < leaf_list(tree).len() ==> (#[trigger] leaf_list(tree)[i]).0 <= u32::MAX
            && leaf_list(tree)[i].1 <= u16::MAX,
    decreases tree,
{
    match tree.content {
        BVHNodeType::Leaf(_, _) => {},
        BVHNodeType::Interior(_, c0, c1) => {
            lemma_leaf_list_fit(*c0);
            lemma_leaf_list_fit(*c1);
            let a = leaf_list(*c0);
            let b = leaf_list(*c1);
            assert forall|i: int| 0 <= i < (a + b).len() implies (#[trigger] (a + b)[i]).0 <= u32::MAX
                && (a + b)[i].1 <= u16::MAX by {
                if i < a.len() {
                    assert((a + b)[i] == a[i]);
                } else {
                    assert((a + b)[i] == b[i - a.len()]);
                }
            }
        },
    }
}

proof fn lemma_narrow_perm(a: Seq<(usize, usize)>, b: Seq<(usize, usize)>)
    requires
        a.to_multiset() == b.to_multiset(),
    ensures
        narrow_leaves(a).to_multiset() == narrow_leaves(b).to_multiset(),
    decreases a.len(),
{
    if a.len() == 0 {
        assert(b.to_multiset().len() == b.len());
        assert(narrow_leaves(a).len() == 0);
        assert(narrow_leaves(b).len() == 0);
    } else {
        let x = a.last();
        let d = a.drop_last();
        assert(d.push(x) =~= a);
        assert(b.to_multiset().count(x) > 0);
        assert(b.contains(x));
        let j = choose|j: int| 0 <= j < b.len() && b[j] == x;
        let r = b.remove(j);
        assert(r.to_multiset() =~= d.to_multiset());
        lemma_narrow_perm(d, r);
        assert(narrow_leaves(a) =~= narrow_leaves(d).push((x.0 as u32, x.1 as u16)));
        assert(narrow_leaves(r) =~= narrow_leaves(b).remove(j));
        let nb = narrow_leaves(b);
        assert(nb[j] == (x.0 as u32, x.1 as u16));
        vstd::seq_lib::to_multiset_remove(nb, j);
        assert(nb.to_multiset().count(nb[j]) > 0) by {
            assert(nb.contains(nb[j]));
        }
        assert(nb.to_multiset() =~= nb.remove(j).to_multiset().insert(nb[j]));
    }
}

/// When every bounds test hits, walking the hierarchy built over the sorted
/// primitives reaches every position of the primitive order exactly once:
/// the primitives tested are those of `order`, each as often as it occurs
/// there. This needs every leaf to fit the node layout.
pub proof fn full_walk_tests_every_primitive<B, H: Fn(&B) -> bool, F: Fn(&B, &B) -> B, G: Fn(&Vec<Box<BVHBuildNode<B>>>) -> (usize, Vec<bool>)>(
    nodes: Seq<LinearBVHNode<B>>,
    root: BVHBuildNode<B>,
    order: Seq<usize>,
    sorted: Seq<MortonPrimitive>,
    max: int,
    pb: Seq<B>,
    empty: B,
    union: F,
    plan: G,
    dir_is_neg: [bool; 3],
    hits: H,
)
    requires
        flattened_at(nodes, 0, root),
        nodes.len() <= u32::MAX,
        bvh_of(root, sorted, max, pb, empty, union, plan),
        sorted.len() <= usize::MAX,
        order.len() == sorted.len(),
        leaves_fit(root),
        forall|b: B| bounds_hit(hits, b),
    ensures
        leaf_prims(order, walk_leaves(nodes, 0, dir_is_neg, hits)).to_multiset() == order.to_multiset(),
{
    built_leaves_tile_primitives(root, sorted, max, pb, empty, union, plan);
    let l = choose|l: Seq<(usize, usize)>| l.to_multiset() == tree_leaves(root) && tiles(l, 0, sorted.len() as int);
    lemma_full_walk(nodes, 0, root, dir_is_neg, hits);
    lemma_leaf_list_multiset(root);
    lemma_narrow_perm(l, leaf_list(root));
    lemma_leaf_list_fit(root);
    assert forall|i: int| 0 <= i < l.len() implies (#[trigger] l[i]).0 <= u32::MAX && l[i].1 <= u16::MAX by {
        assert(l.to_multiset().count(l[i]) > 0);
        assert(leaf_list(root).contains(l[i]));
        let k = choose|k: int| 0 <= k < leaf_list(root).len() && leaf_list(root)[k] == l[i];
        assert(leaf_list(root)[k].0 <= u32::MAX);
    }
    lemma_tiled_prims(order, l, 0, order.len() as int);
    assert(order.subrange(0, order.len() as int) =~= order);
    lemma_leaf_prims_perm(order, walk_leaves(nodes, 0, dir_is_neg, hits), narrow_leaves(l));
}

/// Sorting primitives numbered by position lists each of them once: the
/// numbers of the sorted primitives are distinct and below their count.
pub proof fn sorted_numbers_distinct(sorted: Seq<MortonPrimitive>, input: Seq<MortonPrimitive>, perm: Seq<int>, i: int, j: int)
    requires
        stable_key_order(sorted, input, perm),
        forall|k: int| 0 <= k < input.len() ==> (#[trigger] input[k]).index == k,
        0 <= i < sorted.len(),
        0 <= j < sorted.len(),
        i != j,
    ensures
        sorted[i].index != sorted[j].index,
        sorted[i].index < sorted.len(),
{
    assert(sorted[i] == input[perm[i]]);
    assert(sorted[j] == input[perm[j]]);
    if i < j {
        assert(morton_key(sorted[i].code) < morton_key(sorted[j].code) || perm[i] < perm[j]);
    } else {
        assert(morton_key(sorted[j].code) < morton_key(sorted[i].code) || perm[j] < perm[i]);
    }
}

/// The bounds test `hits` meets every union, by `union`, of bounds of which
/// it meets one.
pub open spec fn hits_unions<B, H: Fn(&B) -> bool, F: Fn(&B, &B) -> B>(hits: H, union: F) -> bool {
    forall|a: B, b: B, c: B|
        #[trigger] call_ensures(union, (&a, &b), c) && (bounds_hit(hits, a) || bounds_hit(hits, b)) ==> bounds_hit(hits, c)
}

proof fn lemma_partials_hit<B, H: Fn(&B) -> bool, F: Fn(&B, &B) -> B>(
    union: F,
    hits: H,
    acc: B,
    items: Seq<B>,
    res: B,
    partials: Seq<B>,
    i: int,
    j: int,
)
    requires
        fold_steps(union, acc, items, res, partials),
        hits_unions(hits, union),
        0 <= i < j <= items.len(),
        bounds_hit(hits, items[i]),
    ensures
        bounds_hit(hits, partials[j]),
    decreases j,
{
    let m = j - 1;
    assert(call_ensures(union, (&partials[m], &items[m]), partials[m + 1]));
    assert(partials[m + 1] == partials[j]);
    if j > i + 1 {
        lemma_partials_hit(union, hits, acc, items, res, partials, i, j - 1);
    }
}

/// Folding `union` over bounds of which the test meets one gives bounds it
/// meets.
proof fn lemma_fold_hit<B, H: Fn(&B) -> bool, F: Fn(&B, &B) -> B>(union: F, hits: H, acc: B, items: Seq<B>, res: B, i: int)
    requires
        union_fold(union, acc, items, res),
        hits_unions(hits, union),
        0 <= i < items.len(),
        bounds_hit(hits, items[i]),
    ensures
        bounds_hit(hits, res),
{
    let partials = choose|partials: Seq<B>| fold_steps(union, acc, items, res, partials);
    lemma_partials_hit(union, hits, acc, items, res, partials, i, items.len() as int);
}

/// A walk of the flattened `tree` reaches the leaf `x` covering position `i`
/// of the primitive order when the test meets the bounds of the primitive
/// at `i`; and the test meets the bounds of `tree`.
proof fn lemma_walk_reaches<B, H: Fn(&B) -> bool, F: Fn(&B, &B) -> B>(
    nodes: Seq<LinearBVHNode<B>>,
    at: int,
    tree: BVHBuildNode<B>,
    sorted: Seq<MortonPrimitive>,
    pb: Seq<B>,
    empty: B,
    union: F,
    dir_is_neg: [bool; 3],
    hits: H,
    x: (usize, usize),
    i: int,
)
    requires
        flattened_at(nodes, at, tree),
        nodes.len() <= u32::MAX,
        leaf_bounds_ok(tree, sorted, pb, empty, union),
        unions_ok(tree, union),
        leaves_fit(tree),
        hits_unions(hits, union),
        leaf_list(tree).contains(x),
        x.0 <= i < x.0 + x.1,
        bounds_hit(hits, pb[sorted[i].index as int]),
    ensures
        bounds_hit(hits, tree.bounds),
        walk_leaves(nodes, at, dir_is_neg, hits).contains((x.0 as u32, x.1 as u16)),
    decreases tree,
{
    match tree.content {
        BVHNodeType::Leaf(first, n) => {
            assert(leaf_list(tree)[0] == (first, n));
            assert(x == (first, n));
            let items = prim_bounds_of(sorted.subrange(first as int, first + n), pb);
            assert(items[i - first] == pb[sorted[i].index as int]);
            lemma_fold_hit(union, hits, empty, items, tree.bounds, i - first);
            assert(walk_leaves(nodes, at, dir_is_neg, hits) =~= seq![(first as u32, n as u16)]);
            assert(walk_leaves(nodes, at, dir_is_neg, hits)[0] == (x.0 as u32, x.1 as u16));
        },
        BVHNodeType::Interior(_, c0, c1) => {
            let l0 = leaf_list(*c0);
            let l1 = leaf_list(*c1);
            assert(leaf_list(tree) == l0 + l1);
            let k = choose|k: int| 0 <= k < leaf_list(tree).len() && leaf_list(tree)[k] == x;
            let second = at + 1 + node_count(*c0);
            let w0 = walk_leaves(nodes, at + 1, dir_is_neg, hits);
            let w1 = walk_leaves(nodes, second, dir_is_neg, hits);
            let y = (x.0 as u32, x.1 as u16);
            if k < l0.len() {
                assert(l0[k] == x);
                lemma_walk_reaches(nodes, at + 1, *c0, sorted, pb, empty, union, dir_is_neg, hits, x, i);
                assert(bounds_hit(hits, c0.bounds));
            } else {
                assert(l1[k - l0.len()] == x);
                lemma_walk_reaches(nodes, second, *c1, sorted, pb, empty, union, dir_is_neg, hits, x, i);
                assert(bounds_hit(hits, c1.bounds));
            }
            assert(call_ensures(union, (&c0.bounds, &c1.bounds), tree.bounds));
            assert(bounds_hit(hits, tree.bounds));
            assert(flattened_at(nodes, second, *c1));
            assert(flattened_at(nodes, at + 1, *c0));
            assert(second < nodes.len() && at + 1 < nodes.len());
            assert((second as u32) as int == second);
            assert(nodes[at].content matches LinearBVHNodeType::Interior(axis, sec) && sec as int == second);
            let w = walk_leaves(nodes, at, dir_is_neg, hits);
            assert(w == w0 + w1 || w == w1 + w0);
            assert(w0.contains(y) || w1.contains(y));
            if w0.contains(y) {
                let j = choose|j: int| 0 <= j < w0.len() && w0[j] == y;
                if w == w0 + w1 {
                    assert(w[j] == y);
                } else {
                    assert(w[w1.len() + j] == y);
                }
            } else {
                let j = choose|j: int| 0 <= j < w1.len() && w1[j] == y;
                if w == w0 + w1 {
                    assert(w[w0.len() + j] == y);
                } else {
                    assert(w[j] == y);
                }
            }
        },
    }
}

/// Ranges that tile `lo .. hi` cover every position in it.
proof fn lemma_tiles_cover(l: Seq<(usize, usize)>, lo: int, hi: int, i: int)
    requires
        tiles(l, lo, hi),
        lo <= i < hi,
    ensures
        exists|k: int| 0 <= k < l.len() && (#[trigger] l[k]).0 <= i < l[k].0 + l[k].1 && l[k].0 + l[k].1 <= hi,
    decreases l.len(),
{
    if l.len() > 0 {
        lemma_tiles_lower(l.drop_first(), lo + l[0].1, hi);
        if i < lo + l[0].1 {
            assert(l[0].0 <= i < l[0].0 + l[0].1);
        } else {
            lemma_tiles_cover(l.drop_first(), lo + l[0].1, hi, i);
            let k = choose|k: int| 0 <= k < l.drop_first().len() && (#[trigger] l.drop_first()[k]).0 <= i < l.drop_first()[k].0
                + l.drop_first()[k].1 && l.drop_first()[k].0 + l.drop_first()[k].1 <= hi;
            assert(l[k + 1] == l.drop_first()[k]);
        }
    }
}

/// A walk of a hierarchy built over the sorted primitives never skips a
/// primitive whose bounds the ray meets, so long as the bounds test meets
/// every union of bounds of which it meets one: some leaf that the walk tests
/// covers the primitive's position in the primitive order.
pub proof fn walk_tests_every_hit_primitive<B, H: Fn(&B) -> bool, F: Fn(&B, &B) -> B, G: Fn(&Vec<Box<BVHBuildNode<B>>>) -> (usize, Vec<bool>)>(
    nodes: Seq<LinearBVHNode<B>>,
    root: BVHBuildNode<B>,
    sorted: Seq<MortonPrimitive>,
    max: int,
    pb: Seq<B>,
    empty: B,
    union: F,
    plan: G,
    dir_is_neg: [bool; 3],
    hits: H,
    i: int,
)
    requires
        flattened_at(nodes, 0, root),
        nodes.len() <= u32::MAX,
        bvh_of(root, sorted, max, pb, empty, union, plan),
        sorted.len() <= usize::MAX,
        leaves_fit(root),
        hits_unions(hits, union),
        0 <= i < sorted.len(),
        bounds_hit(hits, pb[sorted[i].index as int]),
    ensures
        exists|w: int|
            0 <= w < walk_leaves(nodes, 0, dir_is_neg, hits).len() && (#[trigger] walk_leaves(nodes, 0, dir_is_neg, hits)[w]).0
                <= i < walk_leaves(nodes, 0, dir_is_neg, hits)[w].0 + walk_leaves(nodes, 0, dir_is_neg, hits)[w].1
                <= sorted.len(),
{
    built_leaves_tile_primitives(root, sorted, max, pb, empty, union, plan);
    let l = choose|l: Seq<(usize, usize)>| l.to_multiset() == tree_leaves(root) && tiles(l, 0, sorted.len() as int);
    lemma_tiles_cover(l, 0, sorted.len() as int, i);
    let k = choose|k: int| 0 <= k < l.len() && (#[trigger] l[k]).0 <= i < l[k].0 + l[k].1 && l[k].0 + l[k].1 <= sorted.len();
    let x = l[k];
    lemma_leaf_list_multiset(root);
    assert(l.to_multiset().count(x) > 0);
    assert(leaf_list(root).to_multiset().count(x) > 0);
    assert(leaf_list(root).contains(x));
    lemma_walk_reaches(nodes, 0, root, sorted, pb, empty, union, dir_is_neg, hits, x, i);
    let walk = walk_leaves(nodes, 0, dir_is_neg, hits);
    let y = (x.0 as u32, x.1 as u16);
    let w = choose|w: int| 0 <= w < walk.len() && walk[w] == y;
    lemma_leaf_list_fit(root);
    let kk = choose|kk: int| 0 <= kk < leaf_list(root).len() && leaf_list(root)[kk] == x;
    assert(x.0 <= u32::MAX && x.1 <= u16::MAX);
    assert(walk[w].0 <= i < walk[w].0 + walk[w].1);
}

/// The primitives of the walked leaves include that at every position that
/// one of the leaves covers.
proof fn lemma_leaf_prims_has(order: Seq<usize>, leaves: Seq<(u32, u16)>, w: int, j: int)
    requires
        0 <= w < leaves.len(),
        leaves[w].0 <= j < leaves[w].0 + leaves[w].1,
        leaves[w].0 + leaves[w].1 <= order.len(),
    ensures
        leaf_prims(order, leaves).contains(order[j]),
    decreases leaves.len(),
{
    let pre = leaf_prims(order, leaves.drop_last());
    let x = leaves.last();
    let part = order.subrange(x.0 as int, x.0 + x.1);
    assert(leaf_prims(order, leaves) == pre + part);
    if w == leaves.len() - 1 {
        assert((pre + part)[pre.len() + (j - x.0)] == order[j]);
    } else {
        assert(leaves.drop_last()[w] == leaves[w]);
        lemma_leaf_prims_has(order, leaves.drop_last(), w, j);
        let m = choose|m: int| 0 <= m < pre.len() && pre[m] == order[j];
        assert((pre + part)[m] == order[j]);
    }
}

/// The number of primitives of `prims` whose Morton code has key `c`.
pub open spec fn key_count(prims: Seq<MortonPrimitive>, c: u32) -> nat {
    Set::new(|i: int| 0 <= i < prims.len() && morton_key(prims[i].code) == c).len()
}

/// A run of sorted primitives of one key is no longer than the number of
/// primitives with that key.
proof fn lemma_run_count(sorted: Seq<MortonPrimitive>, input: Seq<MortonPrimitive>, perm: Seq<int>, f: int, n: int)
    requires
        stable_key_order(sorted, input, perm),
        forall|k: int| 0 <= k < input.len() ==> (#[trigger] input[k]).index == k,
        0 <= f,
        0 < n,
        f + n <= sorted.len(),
        forall|j: int| f <= j < f + n ==> #[trigger] morton_key(sorted[j].code) == morton_key(sorted[f].code),
    ensures
        n <= key_count(input, morton_key(sorted[f].code)),
{
    let c = morton_key(sorted[f].code);
    let idx = sorted.subrange(f, f + n).map_values(|p: MortonPrimitive| p.index as int);
    assert forall|a: int, b: int| 0 <= a < idx.len() && 0 <= b < idx.len() && a != b implies idx[a] != idx[b] by {
        sorted_numbers_distinct(sorted, input, perm, f + a, f + b);
    }
    assert(idx.no_duplicates());
    idx.unique_seq_to_set();
    let big = Set::new(|i: int| 0 <= i < input.len() && morton_key(input[i].code) == c);
    assert forall|e: int| idx.to_set().contains(e) implies big.contains(e) by {
        assert(idx.contains(e));
        let a = choose|a: int| 0 <= a < idx.len() && idx[a] == e;
        let j = f + a;
        assert(morton_key(sorted[j].code) == c);
        assert(sorted[j] == input[perm[j]]);
        assert(input[perm[j]].index == perm[j]);
    }
    vstd::set_lib::lemma_int_range(0, input.len() as int);
    assert(big.subset_of(vstd::set_lib::set_int_range(0, input.len() as int)));
    vstd::set_lib::lemma_len_subset(big, vstd::set_lib::set_int_range(0, input.len() as int));
    vstd::set_lib::lemma_len_subset(idx.to_set(), big);
}

proof fn lemma_list_small_or_flat<B>(tree: BVHBuildNode<B>, sorted: Seq<MortonPrimitive>, max: int, x: (usize, usize))
    requires
        leaves_small_or_flat(tree, sorted, max),
        leaf_list(tree).contains(x),
    ensures
        x.1 < max || forall|j: int| x.0 <= j < x.0 + x.1 ==> #[trigger] morton_key(sorted[j].code) == morton_key(sorted[x.0 as int].code),
    decreases tree,
{
    match tree.content {
        BVHNodeType::Leaf(first, n) => {
            assert(leaf_list(tree)[0] == (first, n));
        },
        BVHNodeType::Interior(_, c0, c1) => {
            let l0 = leaf_list(*c0);
            let l1 = leaf_list(*c1);
            assert(leaf_list(tree) == l0 + l1);
            let k = choose|k: int| 0 <= k < leaf_list(tree).len() && leaf_list(tree)[k] == x;
            if k < l0.len() {
                assert(l0[k] == x);
                lemma_list_small_or_flat(*c0, sorted, max, x);
            } else {
                assert(l1[k - l0.len()] == x);
                lemma_list_small_or_flat(*c1, sorted, max, x);
            }
        },
    }
}

proof fn lemma_list_in_order<B, F: Fn(&B, &B) -> B>(tree: BVHBuildNode<B>, sorted: Seq<MortonPrimitive>, pb: Seq<B>, empty: B, union: F, x: (usize, usize))
    requires
        leaf_bounds_ok(tree, sorted, pb, empty, union),
        leaf_list(tree).contains(x),
    ensures
        x.0 + x.1 <= sorted.len(),
    decreases tree,
{
    match tree.content {
        BVHNodeType::Leaf(first, n) => {
            assert(leaf_list(tree)[0] == (first, n));
        },
        BVHNodeType::Interior(_, c0, c1) => {
            let l0 = leaf_list(*c0);
            let l1 = leaf_list(*c1);
            assert(leaf_list(tree) == l0 + l1);
            let k = choose|k: int| 0 <= k < leaf_list(tree).len() && leaf_list(tree)[k] == x;
            if k < l0.len() {
                assert(l0[k] == x);
                lemma_list_in_order(*c0, sorted, pb, empty, union, x);
            } else {
                assert(l1[k - l0.len()] == x);
                lemma_list_in_order(*c1, sorted, pb, empty, union, x);
            }
        },
    }
}

proof fn lemma_fit_from_list<B>(tree: BVHBuildNode<B>)
    requires
        forall|x: (usize, usize)| #[trigger] leaf_list(tree).contains(x) ==> x.0 <= u32::MAX && x.1 <= u16::MAX,
    ensures
        leaves_fit(tree),
    decreases tree,
{
    match tree.content {
        BVHNodeType::Leaf(first, n) => {
            assert(leaf_list(tree)[0] == (first, n));
            assert(leaf_list(tree).contains((first, n)));
        },
        BVHNodeType::Interior(_, c0, c1) => {
            let l0 = leaf_list(*c0);
            let l1 = leaf_list(*c1);
            assert(leaf_list(tree) == l0 + l1);
            assert forall|x: (usize, usize)| #[trigger] l0.contains(x) implies x.0 <= u32::MAX && x.1 <= u16::MAX by {
                let k = choose|k: int| 0 <= k < l0.len() && l0[k] == x;
                assert(leaf_list(tree)[k] == x);
                assert(leaf_list(tree).contains(x));
            }
            assert forall|x: (usize, usize)| #[trigger] l1.contains(x) implies x.0 <= u32::MAX && x.1 <= u16::MAX by {
                let k = choose|k: int| 0 <= k < l1.len() && l1[k] == x;
                assert(leaf_list(tree)[l0.len() + k] == x);
                assert(leaf_list(tree).contains(x));
            }
            lemma_fit_from_list(*c0);
            lemma_fit_from_list(*c1);
        },
    }
}

proof fn lemma_forest_list_has<B>(ts: Seq<Box<BVHBuildNode<B>>>, x: (usize, usize))
    requires
        forest_list(ts).contains(x),
    ensures
        exists|k: int| 0 <= k < ts.len() && #[trigger] leaf_list(*ts[k]).contains(x),
    decreases ts.len(),
{
    let d = ts.drop_last();
    let pre = forest_list(d);
    let last = leaf_list(*ts.last());
    assert(forest_list(ts) == pre + last);
    let j = choose|j: int| 0 <= j < (pre + last).len() && (pre + last)[j] == x;
    if j < pre.len() {
        assert(pre[j] == x);
        assert(pre.contains(x));
        lemma_forest_list_has(d, x);
        let k = choose|k: int| 0 <= k < d.len() && #[trigger] leaf_list(*d[k]).contains(x);
        assert(d[k] == ts[k]);
    } else {
        assert(last[j - pre.len()] == x);
        assert(ts.last() == ts[ts.len() - 1]);
        assert(leaf_list(*ts[ts.len() - 1]).contains(x));
    }
}

/// Every leaf of a hierarchy built over the sorted primitives fits the node
/// layout when the order fits `u32` offsets, fewer than `u16::MAX` are kept
/// together without a split, and no Morton key is shared by more than
/// `u16::MAX` primitives.
proof fn lemma_built_leaves_fit<B, F: Fn(&B, &B) -> B, G: Fn(&Vec<Box<BVHBuildNode<B>>>) -> (usize, Vec<bool>)>(
    root: BVHBuildNode<B>,
    sorted: Seq<MortonPrimitive>,
    max: int,
    pb: Seq<B>,
    empty: B,
    union: F,
    plan: G,
    input: Seq<MortonPrimitive>,
    perm: Seq<int>,
)
    requires
        bvh_of(root, sorted, max, pb, empty, union, plan),
        stable_key_order(sorted, input, perm),
        forall|k: int| 0 <= k < input.len() ==> (#[trigger] input[k]).index == k,
        sorted.len() <= u32::MAX,
        max <= u16::MAX,
        forall|c: u32| #[trigger] key_count(input, c) <= u16::MAX,
    ensures
        leaves_fit(root),
{
    let (ts, starts) = choose|ts: Seq<Box<BVHBuildNode<B>>>, starts: Seq<int>|
        treelets_ok(ts, sorted, starts, max, pb, empty, union) && tree_leaves(root) == forest_leaves(ts);
    lemma_treelets_flat(ts, sorted, starts, max, pb, empty, union, input, perm);
    lemma_leaf_list_multiset(root);
    lemma_forest_list_multiset(ts);
    assert forall|x: (usize, usize)| #[trigger] leaf_list(root).contains(x) implies x.0 <= u32::MAX && x.1 <= u16::MAX by {
        lemma_list_in_order(root, sorted, pb, empty, union, x);
        assert(leaf_list(root).to_multiset().count(x) > 0);
        assert(forest_list(ts).to_multiset().count(x) > 0);
        assert(forest_list(ts).contains(x));
        lemma_forest_list_has(ts, x);
        let k = choose|k: int| 0 <= k < ts.len() && #[trigger] leaf_list(*ts[k]).contains(x);
        lemma_list_small_or_flat(*ts[k], sorted, max, x);
        if x.1 >= max && x.1 > 0 {
            lemma_run_count(sorted, input, perm, x.0 as int, x.1 as int);
            assert(key_count(input, morton_key(sorted[x.0 as int].code)) <= u16::MAX);
        }
    }
    lemma_fit_from_list(root);
}

/// What `BVHAccel::new` builds never lets `intersect` skip a primitive whose
/// bounds the ray meets, so long as the bounds test meets every union of
/// bounds of which it meets one: the primitives that the walk tests include
/// the primitive at every position of the primitive order whose bounds are
/// hit. This needs every leaf to fit the node layout, `u32` offsets and
/// `u16` counts: the order has at most `u32::MAX` positions, fewer than
/// `u16::MAX` primitives are kept together without a split, and no Morton
/// key is shared by more than `u16::MAX` primitives (they would end in one
/// leaf whose count the layout cuts short).
pub proof fn built_walk_tests_every_hit_primitive<B, H: Fn(&B) -> bool, F: Fn(&B, &B) -> B, G: Fn(&Vec<Box<BVHBuildNode<B>>>) -> (usize, Vec<bool>)>(
    nodes: Seq<LinearBVHNode<B>>,
    order: Seq<usize>,
    morton_prims: Seq<MortonPrimitive>,
    max: int,
    pb: Seq<B>,
    empty: B,
    union: F,
    plan: G,
    dir_is_neg: [bool; 3],
    hits: H,
    i: int,
)
    requires
        built_from(nodes, order, morton_prims, max, pb, empty, union, plan),
        nodes.len() <= u32::MAX,
        order.len() <= u32::MAX,
        max <= u16::MAX,
        forall|k: int| 0 <= k < morton_prims.len() ==> (#[trigger] morton_prims[k]).index == k,
        forall|c: u32| #[trigger] key_count(morton_prims, c) <= u16::MAX,
        hits_unions(hits, union),
        0 <= i < order.len(),
        bounds_hit(hits, pb[order[i] as int]),
    ensures
        leaf_prims(order, walk_leaves(nodes, 0, dir_is_neg, hits)).contains(order[i]),
{
    let (sorted, perm, root) = choose|sorted: Seq<MortonPrimitive>, perm: Seq<int>, root: BVHBuildNode<B>|
        #[trigger] stable_key_order(sorted, morton_prims, perm) && order.len() == sorted.len() && (forall|i: int|
            0 <= i < sorted.len() ==> #[trigger] order[i] == sorted[i].index) && #[trigger] flattened_at(nodes, 0, root)
            && nodes.len() == node_count(root) && bvh_of(root, sorted, max, pb, empty, union, plan);
    assert(order[i] == sorted[i].index);
    lemma_built_leaves_fit(root, sorted, max, pb, empty, union, plan, morton_prims, perm);
    walk_tests_every_hit_primitive(nodes, root, sorted, max, pb, empty, union, plan, dir_is_neg, hits, i);
    let walk = walk_leaves(nodes, 0, dir_is_neg, hits);
    let w = choose|w: int| 0 <= w < walk.len() && (#[trigger] walk[w]).0 <= i < walk[w].0 + walk[w].1 <= sorted.len();
    lemma_leaf_prims_has(order, walk, w, i);
}

/// `within(a, b)` says that bounds `b` contain bounds `a`; `union` gives
/// bounds that contain both its arguments.
pub open spec fn union_contains<B, F: Fn(&B, &B) -> B>(within: spec_fn(B, B) -> bool, union: F) -> bool {
    forall|a: B, b: B, c: B| #[trigger] call_ensures(union, (&a, &b), c) ==> within(a, c) && within(b, c)
}

/// Containment of bounds is transitive.
pub open spec fn within_transitive<B>(within: spec_fn(B, B) -> bool) -> bool {
    forall|a: B, b: B, c: B| #[trigger] within(a, b) && #[trigger] within(b, c) ==> within(a, c)
}

/// Position `i` of the primitive order lies in a leaf of `tree`.
pub open spec fn covers<B>(tree: BVHBuildNode<B>, i: int) -> bool
    decreases tree,
{
    match tree.content {
        BVHNodeType::Leaf(first, n) => first <= i < first + n,
        BVHNodeType::Interior(_, c0, c1) => covers(*c0, i) || covers(*c1, i),
    }
}

/// Every node of `tree` has bounds that contain, by `within`, the bounds
/// `pb` of every primitive below it (the primitive at position `i` of the
/// order `sorted` for each position `i` that a leaf below it covers).
pub open spec fn bounds_contain<B>(tree: BVHBuildNode<B>, sorted: Seq<MortonPrimitive>, pb: Seq<B>, within: spec_fn(B, B) -> bool) -> bool
    decreases tree,
{
    &&& forall|i: int| #[trigger] covers(tree, i) ==> within(pb[sorted[i].index as int], tree.bounds)
    &&& match tree.content {
        BVHNodeType::Leaf(_, _) => true,
        BVHNodeType::Interior(_, c0, c1) => bounds_contain(*c0, sorted, pb, within) && bounds_contain(*c1, sorted, pb, within),
    }
}

proof fn lemma_partials_contain<B, F: Fn(&B, &B) -> B>(
    union: F,
    within: spec_fn(B, B) -> bool,
    acc: B,
    items: Seq<B>,
    res: B,
    partials: Seq<B>,
    i: int,
    j: int,
)
    requires
        fold_steps(union, acc, items, res, partials),
        union_contains(within, union),
        within_transitive(within),
        0 <= i < j <= items.len(),
    ensures
        within(items[i], partials[j]),
    decreases j,
{
    let m = j - 1;
    assert(call_ensures(union, (&partials[m], &items[m]), partials[m + 1]));
    assert(partials[m + 1] == partials[j]);
    if j > i + 1 {
        lemma_partials_contain(union, within, acc, items, res, partials, i, j - 1);
        assert(within(partials[m], partials[j]));
    }
}

/// Folding `union` gives bounds that contain every folded item.
proof fn lemma_fold_contains<B, F: Fn(&B, &B) -> B>(union: F, within: spec_fn(B, B) -> bool, acc: B, items: Seq<B>, res: B, i: int)
    requires
        union_fold(union, acc, items, res),
        union_contains(within, union),
        within_transitive(within),
        0 <= i < items.len(),
    ensures
        within(items[i], res),
{
    let partials = choose|partials: Seq<B>| fold_steps(union, acc, items, res, partials);
    lemma_partials_contain(union, within, acc, items, res, partials, i, items.len() as int);
}

proof fn lemma_bounds_contain<B, F: Fn(&B, &B) -> B>(
    tree: BVHBuildNode<B>,
    sorted: Seq<MortonPrimitive>,
    pb: Seq<B>,
    empty: B,
    union: F,
    within: spec_fn(B, B) -> bool,
)
    requires
        leaf_bounds_ok(tree, sorted, pb, empty, union),
        unions_ok(tree, union),
        union_contains(within, union),
        within_transitive(within),
    ensures
        bounds_contain(tree, sorted, pb, within),
    decreases tree,
{
    match tree.content {
        BVHNodeType::Leaf(first, n) => {
            let items = prim_bounds_of(sorted.subrange(first as int, first + n), pb);
            assert forall|i: int| #[trigger] covers(tree, i) implies within(pb[sorted[i].index as int], tree.bounds) by {
                assert(items[i - first] == pb[sorted[i].index as int]);
                lemma_fold_contains(union, within, empty, items, tree.bounds, i - first);
            }
        },
        BVHNodeType::Interior(_, c0, c1) => {
            lemma_bounds_contain(*c0, sorted, pb, empty, union, within);
            lemma_bounds_contain(*c1, sorted, pb, empty, union, within);
            assert(call_ensures(union, (&c0.bounds, &c1.bounds), tree.bounds));
            assert(within(c0.bounds, tree.bounds) && within(c1.bounds, tree.bounds));
            assert forall|i: int| #[trigger] covers(tree, i) implies within(pb[sorted[i].index as int], tree.bounds) by {
                if covers(*c0, i) {
                    assert(within(pb[sorted[i].index as int], c0.bounds));
                } else {
                    assert(covers(*c1, i));
                    assert(within(pb[sorted[i].index as int], c1.bounds));
                }
            }
        },
    }
}

/// A leaf of `tree` that covers position `i` means that `tree` covers it.
proof fn lemma_leaf_covers<B>(tree: BVHBuildNode<B>, x: (usize, usize), i: int)
    requires
        leaf_list(tree).contains(x),
        x.0 <= i < x.0 + x.1,
    ensures
        covers(tree, i),
    decreases tree,
{
    match tree.content {
        BVHNodeType::Leaf(first, n) => {
            assert(leaf_list(tree)[0] == (first, n));
        },
        BVHNodeType::Interior(_, c0, c1) => {
            let l0 = leaf_list(*c0);
            let l1 = leaf_list(*c1);
            assert(leaf_list(tree) == l0 + l1);
            let k = choose|k: int| 0 <= k < leaf_list(tree).len() && leaf_list(tree)[k] == x;
            if k < l0.len() {
                assert(l0[k] == x);
                lemma_leaf_covers(*c0, x, i);
            } else {
                assert(l1[k - l0.len()] == x);
                lemma_leaf_covers(*c1, x, i);
            }
        },
    }
}

/// In a hierarchy built over the sorted primitives, with a `union` whose
/// result contains both its arguments, every node's bounds contain the
/// bounds of every primitive below it, and the root's bounds those of every
/// primitive.
pub proof fn hierarchy_bounds_contain_primitives<B, F: Fn(&B, &B) -> B, G: Fn(&Vec<Box<BVHBuildNode<B>>>) -> (usize, Vec<bool>)>(
    root: BVHBuildNode<B>,
    sorted: Seq<MortonPrimitive>,
    max: int,
    pb: Seq<B>,
    empty: B,
    union: F,
    plan: G,
    within: spec_fn(B, B) -> bool,
)
    requires
        bvh_of(root, sorted, max, pb, empty, union, plan),
        sorted.len() <= usize::MAX,
        union_contains(within, union),
        within_transitive(within),
    ensures
        bounds_contain(root, sorted, pb, within),
        forall|i: int| 0 <= i < sorted.len() ==> within(pb[sorted[i].index as int], root.bounds),
{
    lemma_bounds_contain(root, sorted, pb, empty, union, within);
    built_leaves_tile_primitives(root, sorted, max, pb, empty, union, plan);
    let l = choose|l: Seq<(usize, usize)>| l.to_multiset() == tree_leaves(root) && tiles(l, 0, sorted.len() as int);
    lemma_leaf_list_multiset(root);
    assert forall|i: int| 0 <= i < sorted.len() implies within(pb[sorted[i].index as int], root.bounds) by {
        lemma_tiles_cover(l, 0, sorted.len() as int, i);
        let k = choose|k: int| 0 <= k < l.len() && (#[trigger] l[k]).0 <= i < l[k].0 + l[k].1 && l[k].0 + l[k].1 <= sorted.len();
        let x = l[k];
        assert(l.to_multiset().count(x) > 0);
        assert(leaf_list(root).to_multiset().count(x) > 0);
        assert(leaf_list(root).contains(x));
        lemma_leaf_covers(root, x, i);
    }
}

/// What `BVHAccel::new` builds, with a `union` whose result contains both
/// its arguments: the nodes are the depth-first layout of a tree each of
/// whose nodes has bounds containing those of every primitive below it, and
/// the root node's bounds contain those of every primitive in the order.
pub proof fn built_bounds_contain_primitives<B, F: Fn(&B, &B) -> B, G: Fn(&Vec<Box<BVHBuildNode<B>>>) -> (usize, Vec<bool>)>(
    nodes: Seq<LinearBVHNode<B>>,
    order: Seq<usize>,
    morton_prims: Seq<MortonPrimitive>,
    max: int,
    pb: Seq<B>,
    empty: B,
    union: F,
    plan: G,
    within: spec_fn(B, B) -> bool,
)
    requires
        built_from(nodes, order, morton_prims, max, pb, empty, union, plan),
        order.len() <= usize::MAX,
        union_contains(within, union),
        within_transitive(within),
    ensures
        exists|sorted: Seq<MortonPrimitive>, root: BVHBuildNode<B>|
            flattened_at(nodes, 0, root) && sorted.len() == order.len() && (forall|i: int|
                0 <= i < sorted.len() ==> #[trigger] order[i] == sorted[i].index) && #[trigger] bounds_contain(root, sorted, pb, within),
        forall|i: int| 0 <= i < order.len() ==> within(pb[order[i] as int], nodes[0].bounds),
{
    let (sorted, perm, root) = choose|sorted: Seq<MortonPrimitive>, perm: Seq<int>, root: BVHBuildNode<B>|
        #[trigger] stable_key_order(sorted, morton_prims, perm) && order.len() == sorted.len() && (forall|i: int|
            0 <= i < sorted.len() ==> #[trigger] order[i] == sorted[i].index) && #[trigger] flattened_at(nodes, 0, root)
            && nodes.len() == node_count(root) && bvh_of(root, sorted, max, pb, empty, union, plan);
    hierarchy_bounds_contain_primitives(root, sorted, max, pb, empty, union, plan, within);
    assert(nodes[0].bounds == root.bounds);
    assert forall|i: int| 0 <= i < order.len() implies within(pb[order[i] as int], nodes[0].bounds) by {
        assert(order[i] == sorted[i].index);
    }
}

/// Every interior node of every tree in `ts` splits on the axis of the
/// coordinate that its split Morton bit interleaves.
pub open spec fn all_split_on_coded_axes<B>(ts: Seq<Box<BVHBuildNode<B>>>, sorted: Seq<MortonPrimitive>) -> bool {
    forall|k: int| 0 <= k < ts.len() ==> splits_on_coded_axis(*#[trigger] ts[k], sorted)
}

/// What `BVHAccel::new` builds is the depth-first layout of a tree made of
/// LBVH treelets over the sorted primitives, joined by upper nodes, where
/// every interior node of every treelet splits on the axis of the coordinate
/// that its split Morton bit interleaves (bit `3k` of a code being bit `k`
/// of x).
pub proof fn built_treelets_split_on_coded_axes<B, F: Fn(&B, &B) -> B, G: Fn(&Vec<Box<BVHBuildNode<B>>>) -> (usize, Vec<bool>)>(
    nodes: Seq<LinearBVHNode<B>>,
    order: Seq<usize>,
    morton_prims: Seq<MortonPrimitive>,
    max: int,
    pb: Seq<B>,
    empty: B,
    union: F,
    plan: G,
)
    requires
        built_from(nodes, order, morton_prims, max, pb, empty, union, plan),
        order.len() <= usize::MAX,
    ensures
        exists|sorted: Seq<MortonPrimitive>, root: BVHBuildNode<B>, ts: Seq<Box<BVHBuildNode<B>>>|
            #![trigger flattened_at(nodes, 0, root), sah_over(root, ts, plan, union), all_split_on_coded_axes(ts, sorted)]
            flattened_at(nodes, 0, root) && sorted.len() == order.len() && (forall|i: int|
                0 <= i < sorted.len() ==> #[trigger] order[i] == sorted[i].index) && sah_over(root, ts, plan, union)
                && all_split_on_coded_axes(ts, sorted),
{
    let (sorted, perm, root) = choose|sorted: Seq<MortonPrimitive>, perm: Seq<int>, root: BVHBuildNode<B>|
        #[trigger] stable_key_order(sorted, morton_prims, perm) && order.len() == sorted.len() && (forall|i: int|
            0 <= i < sorted.len() ==> #[trigger] order[i] == sorted[i].index) && #[trigger] flattened_at(nodes, 0, root)
            && nodes.len() == node_count(root) && bvh_of(root, sorted, max, pb, empty, union, plan);
    let (ts, starts) = choose|ts: Seq<Box<BVHBuildNode<B>>>, starts: Seq<int>|
        #[trigger] treelets_ok(ts, sorted, starts, max, pb, empty, union) && tree_leaves(root) == forest_leaves(ts)
            && sah_over(root, ts, plan, union) && crate::sah::planned_top(root, ts, plan, union);
    treelets_split_on_coded_axes(ts, sorted, starts, max, pb, empty, union, morton_prims, perm);
    assert(all_split_on_coded_axes(ts, sorted));
}

} // verus!
