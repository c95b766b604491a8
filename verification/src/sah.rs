use vstd::prelude::*;
use vstd::multiset::Multiset;
use crate::lbvh::{BVHBuildNode, BVHNodeType, node_count, forest_node_count, unions_ok, leaf_bounds_ok};
use crate::morton::MortonPrimitive;
use crate::flat::axes_in_range;

verus! {

broadcast use vstd::multiset::group_multiset_axioms, vstd::seq_lib::group_to_multiset_ensures;

/// Calls `partition::partition`, which rearranges the slice in place so that
/// every element whose flag is set comes before every element whose flag is
/// clear, and returns the two parts. The claim is that the result is a
/// rearrangement of the input, flags set first; which rearrangement is not
/// stated. Returns the length of the first part.
#[verifier::external_body]
fn partition_by_flag<T>(data: &mut Vec<(bool, T)>) -> (k: usize)
    ensures
        final(data)@.len() == old(data)@.len(),
        final(data)@.to_multiset() == old(data)@.to_multiset(),
        k <= final(data)@.len(),
        forall|i: int| 0 <= i < k ==> (#[trigger] final(data)@[i]).0,
        forall|i: int| k <= i < final(data)@.len() ==> !(#[trigger] final(data)@[i]).0,
{
    let (low, _high) = partition::partition(data.as_mut_slice(), |e: &(bool, T)| e.0);
    low.len()
}

/// The leaves of `tree`, as (offset, count) pairs into the primitive order.
pub open spec fn tree_leaves<B>(tree: BVHBuildNode<B>) -> Multiset<(usize, usize)>
    decreases tree,
{
    match tree.content {
        BVHNodeType::Leaf(first, n) => Multiset::singleton((first, n)),
        BVHNodeType::Interior(_, c0, c1) => tree_leaves(*c0).add(tree_leaves(*c1)),
    }
}

/// The leaves of all the trees in `ts`.
pub open spec fn forest_leaves<B>(ts: Seq<Box<BVHBuildNode<B>>>) -> Multiset<(usize, usize)>
    decreases ts.len(),
{
    if ts.len() == 0 {
        Multiset::empty()
    } else {
        forest_leaves(ts.drop_last()).add(tree_leaves(*ts.last()))
    }
}

/// The leaves of all the trees in flagged pairs.
pub open spec fn pair_leaves<B>(ps: Seq<(bool, Box<BVHBuildNode<B>>)>) -> Multiset<(usize, usize)>
    decreases ps.len(),
{
    if ps.len() == 0 {
        Multiset::empty()
    } else {
        pair_leaves(ps.drop_last()).add(tree_leaves(*ps.last().1))
    }
}

/// Every split axis in every tree of `ts` is a coordinate axis.
pub open spec fn forest_axes_in_range<B>(ts: Seq<Box<BVHBuildNode<B>>>) -> bool {
    forall|i: int| 0 <= i < ts.len() ==> axes_in_range(*#[trigger] ts[i])
}

/// What a split plan has to deliver for a set of treelet roots: a coordinate
/// axis and one flag per root telling whether it goes to the lower side;
/// with two or more roots, both sides get at least one.
pub open spec fn plan_ok<B>(roots: Seq<Box<BVHBuildNode<B>>>, plan: (usize, Vec<bool>)) -> bool {
    &&& plan.0 < 3
    &&& plan.1@.len() == roots.len()
    &&& roots.len() >= 2 ==> (exists|i: int| 0 <= i < roots.len() && plan.1@[i]) && (exists|j: int|
        0 <= j < roots.len() && !plan.1@[j])
}

/// The leaves of the roots whose flag is `side`.
pub open spec fn side_leaves<B>(roots: Seq<Box<BVHBuildNode<B>>>, flags: Seq<bool>, side: bool) -> Multiset<(usize, usize)>
    decreases roots.len(),
{
    if roots.len() == 0 {
        Multiset::empty()
    } else {
        let rest = side_leaves(roots.drop_last(), flags, side);
        if flags[roots.len() - 1] == side {
            rest.add(tree_leaves(*roots.last()))
        } else {
            rest
        }
    }
}

/// `root` is the interior node that the upper levels put over `roots` with
/// the split `planned`: split along the planned axis, its first child holds
/// the leaves of the flagged roots and its second child those of the others,
/// and its bounds are a union of its children's bounds.
pub open spec fn upper_split<B, F: Fn(&B, &B) -> B>(
    root: BVHBuildNode<B>,
    roots: Seq<Box<BVHBuildNode<B>>>,
    planned: (usize, Vec<bool>),
    union: F,
) -> bool {
    match root.content {
        BVHNodeType::Interior(axis, c0, c1) => {
            &&& axis == planned.0
            &&& tree_leaves(*c0) == side_leaves(roots, planned.1@, true)
            &&& tree_leaves(*c1) == side_leaves(roots, planned.1@, false)
            &&& call_ensures(union, (&c0.bounds, &c1.bounds), root.bounds)
        },
        BVHNodeType::Leaf(_, _) => false,
    }
}

/// How the upper levels of the hierarchy sit over the treelet roots: at
/// `Root` a treelet root stands unchanged, at `Join` the upper levels made an
/// interior node over the two parts.
pub enum UpperShape {
    Root,
    Join(Box<UpperShape>, Box<UpperShape>),
}

/// The subtrees of `tree` at which `shape` ends, left to right.
pub open spec fn frontier<B>(tree: BVHBuildNode<B>, shape: UpperShape) -> Seq<Box<BVHBuildNode<B>>>
    decreases shape,
{
    match shape {
        UpperShape::Root => seq![Box::new(tree)],
        UpperShape::Join(s0, s1) => match tree.content {
            BVHNodeType::Interior(_, c0, c1) => frontier(*c0, *s0) + frontier(*c1, *s1),
            BVHNodeType::Leaf(_, _) => Seq::empty(),
        },
    }
}

/// Above the ends of `shape`, `tree` consists of interior nodes whose bounds
/// are a union of their children's bounds.
pub open spec fn upper_unions<B, F: Fn(&B, &B) -> B>(tree: BVHBuildNode<B>, shape: UpperShape, union: F) -> bool
    decreases shape,
{
    match shape {
        UpperShape::Root => true,
        UpperShape::Join(s0, s1) => match tree.content {
            BVHNodeType::Interior(_, c0, c1) => {
                &&& call_ensures(union, (&c0.bounds, &c1.bounds), tree.bounds)
                &&& upper_unions(*c0, *s0, union)
                &&& upper_unions(*c1, *s1, union)
            },
            BVHNodeType::Leaf(_, _) => false,
        },
    }
}

/// `root` consists of the trees `roots`, each once and unchanged, joined by
/// interior nodes whose bounds are unions of their children's bounds.
pub open spec fn upper_over<B, F: Fn(&B, &B) -> B>(root: BVHBuildNode<B>, roots: Seq<Box<BVHBuildNode<B>>>, union: F) -> bool {
    exists|shape: UpperShape|
        #[trigger] frontier(root, shape).to_multiset() == roots.to_multiset() && upper_unions(root, shape, union)
}

/// Where every tree at the ends of `shape` has leaves with the bounds of
/// their primitives, so has `tree`.
pub(crate) proof fn lemma_upper_leaf_bounds<B, F: Fn(&B, &B) -> B>(
    tree: BVHBuildNode<B>,
    shape: UpperShape,
    sorted: Seq<MortonPrimitive>,
    pb: Seq<B>,
    empty: B,
    union: F,
)
    requires
        upper_unions(tree, shape, union),
        forall|i: int| 0 <= i < frontier(tree, shape).len() ==> leaf_bounds_ok(
            *#[trigger] frontier(tree, shape)[i],
            sorted,
            pb,
            empty,
            union,
        ),
    ensures
        leaf_bounds_ok(tree, sorted, pb, empty, union),
    decreases shape,
{
    match shape {
        UpperShape::Root => {
            assert(*frontier(tree, shape)[0] == tree);
        },
        UpperShape::Join(s0, s1) => match tree.content {
            BVHNodeType::Interior(_, c0, c1) => {
                let f0 = frontier(*c0, *s0);
                let f1 = frontier(*c1, *s1);
                assert(frontier(tree, shape) == f0 + f1);
                assert forall|i: int| 0 <= i < f0.len() implies leaf_bounds_ok(*#[trigger] f0[i], sorted, pb, empty, union) by {
                    assert(frontier(tree, shape)[i] == f0[i]);
                }
                assert forall|i: int| 0 <= i < f1.len() implies leaf_bounds_ok(*#[trigger] f1[i], sorted, pb, empty, union) by {
                    assert(frontier(tree, shape)[f0.len() + i] == f1[i]);
                }
                lemma_upper_leaf_bounds(*c0, *s0, sorted, pb, empty, union);
                lemma_upper_leaf_bounds(*c1, *s1, sorted, pb, empty, union);
            },
            BVHNodeType::Leaf(_, _) => {},
        },
    }
}

/// Sequences with the same elements keep them when mapped.
proof fn lemma_map_multiset<A, C>(s1: Seq<A>, s2: Seq<A>, f: spec_fn(A) -> C)
    requires
        s1.to_multiset() == s2.to_multiset(),
    ensures
        s1.map_values(f).to_multiset() == s2.map_values(f).to_multiset(),
    decreases s1.len(),
{
    if s1.len() == 0 {
        assert(s2.to_multiset().len() == s2.len());
        assert(s1.map_values(f) =~= Seq::<C>::empty());
        assert(s2.map_values(f) =~= Seq::<C>::empty());
    } else {
        let x = s1.last();
        let d = s1.drop_last();
        assert(d.push(x) =~= s1);
        assert(s1.to_multiset() == d.to_multiset().insert(x));
        assert(s2.to_multiset().count(x) > 0);
        assert(s2.contains(x));
        let j = choose|j: int| 0 <= j < s2.len() && s2[j] == x;
        let r = s2.remove(j);
        assert(r.to_multiset() =~= d.to_multiset());
        lemma_map_multiset(d, r, f);
        let m2 = s2.map_values(f);
        assert(r.map_values(f) =~= m2.remove(j));
        assert(m2[j] == f(x));
        assert(m2.remove(j).to_multiset() == m2.to_multiset().remove(f(x)));
        assert(m2.contains(f(x)));
        assert(m2.to_multiset() =~= m2.remove(j).to_multiset().insert(f(x)));
        assert(s1.map_values(f) =~= d.map_values(f).push(f(x)));
        assert(s1.map_values(f).to_multiset() =~= d.map_values(f).to_multiset().insert(f(x)));
    }
}

/// With two or more treelet roots, the top node of `root` splits them as
/// `plan` chose when handed them.
pub open spec fn planned_top<B, F: Fn(&B, &B) -> B, G: Fn(&Vec<Box<BVHBuildNode<B>>>) -> (usize, Vec<bool>)>(
    root: BVHBuildNode<B>,
    roots: Seq<Box<BVHBuildNode<B>>>,
    plan: G,
    union: F,
) -> bool {
    roots.len() >= 2 ==> exists|v: Vec<Box<BVHBuildNode<B>>>, planned: (usize, Vec<bool>)|
        v@ == roots && #[trigger] call_ensures(plan, (&v,), planned) && upper_split(root, roots, planned, union)
}

/// At every interior node that the upper levels made (each join of
/// `shape`), `tree` is split as `plan` chose when handed the roots below
/// that node, in some order.
pub open spec fn planned_joins<B, F: Fn(&B, &B) -> B, G: Fn(&Vec<Box<BVHBuildNode<B>>>) -> (usize, Vec<bool>)>(
    tree: BVHBuildNode<B>,
    shape: UpperShape,
    plan: G,
    union: F,
) -> bool
    decreases shape,
{
    match shape {
        UpperShape::Root => true,
        UpperShape::Join(s0, s1) => match tree.content {
            BVHNodeType::Interior(_, c0, c1) => {
                &&& exists|v: Vec<Box<BVHBuildNode<B>>>, planned: (usize, Vec<bool>)|
                    v@.to_multiset() == frontier(tree, shape).to_multiset() && #[trigger] call_ensures(plan, (&v,), planned)
                        && upper_split(tree, v@, planned, union)
                &&& planned_joins(*c0, *s0, plan, union)
                &&& planned_joins(*c1, *s1, plan, union)
            },
            BVHNodeType::Leaf(_, _) => false,
        },
    }
}

/// `root` is built over `roots` as `upper_over` says, and each interior node
/// that the upper levels made is split as `plan` chose for the roots below it.
pub open spec fn sah_over<B, F: Fn(&B, &B) -> B, G: Fn(&Vec<Box<BVHBuildNode<B>>>) -> (usize, Vec<bool>)>(
    root: BVHBuildNode<B>,
    roots: Seq<Box<BVHBuildNode<B>>>,
    plan: G,
    union: F,
) -> bool {
    exists|shape: UpperShape|
        #[trigger] frontier(root, shape).to_multiset() == roots.to_multiset() && upper_unions(root, shape, union)
            && planned_joins(root, shape, plan, union)
}

/// The leaves of the pairs whose flag is `side`.
spec fn flag_leaves<B>(ps: Seq<(bool, Box<BVHBuildNode<B>>)>, side: bool) -> Multiset<(usize, usize)>
    decreases ps.len(),
{
    if ps.len() == 0 {
        Multiset::empty()
    } else {
        let rest = flag_leaves(ps.drop_last(), side);
        if ps.last().0 == side {
            rest.add(tree_leaves(*ps.last().1))
        } else {
            rest
        }
    }
}

proof fn lemma_flag_leaves_remove<B>(s: Seq<(bool, Box<BVHBuildNode<B>>)>, j: int, side: bool)
    requires
        0 <= j < s.len(),
    ensures
        flag_leaves(s, side) == (if s[j].0 == side {
            flag_leaves(s.remove(j), side).add(tree_leaves(*s[j].1))
        } else {
            flag_leaves(s.remove(j), side)
        }),
    decreases s.len(),
{
    if j == s.len() - 1 {
        assert(s.remove(j) =~= s.drop_last());
    } else {
        let d = s.drop_last();
        lemma_flag_leaves_remove(d, j, side);
        assert(s.remove(j).drop_last() =~= d.remove(j));
        assert(s.remove(j).last() == s.last());
        if s[j].0 == side {
            assert(flag_leaves(s, side) =~= flag_leaves(s.remove(j), side).add(tree_leaves(*s[j].1)));
        } else {
            assert(flag_leaves(s, side) =~= flag_leaves(s.remove(j), side));
        }
    }
}

proof fn lemma_flag_leaves_perm<B>(s1: Seq<(bool, Box<BVHBuildNode<B>>)>, s2: Seq<(bool, Box<BVHBuildNode<B>>)>, side: bool)
    requires
        s1.to_multiset() == s2.to_multiset(),
    ensures
        flag_leaves(s1, side) == flag_leaves(s2, side),
    decreases s1.len(),
{
    if s1.len() == 0 {
        assert(s1.to_multiset().len() == 0);
        assert(s2.to_multiset().len() == s2.len());
        assert(s2.len() == 0);
    } else {
        let x = s1.last();
        let d = s1.drop_last();
        assert(d.push(x) =~= s1);
        assert(s1.to_multiset() == d.to_multiset().insert(x));
        assert(s2.to_multiset().count(x) > 0);
        assert(s2.contains(x));
        let j = choose|j: int| 0 <= j < s2.len() && s2[j] == x;
        let r = s2.remove(j);
        assert(r.to_multiset() =~= d.to_multiset());
        lemma_flag_leaves_perm(d, r, side);
        lemma_flag_leaves_remove(s2, j, side);
    }
}

/// With every flag equal to `flag`, the pairs on side `flag` are all of them
/// and those on the other side none.
proof fn lemma_flag_leaves_uniform<B>(s: Seq<(bool, Box<BVHBuildNode<B>>)>, flag: bool)
    requires
        forall|i: int| 0 <= i < s.len() ==> (#[trigger] s[i]).0 == flag,
    ensures
        flag_leaves(s, flag) == pair_leaves(s),
        flag_leaves(s, !flag) == Multiset::<(usize, usize)>::empty(),
    decreases s.len(),
{
    if s.len() > 0 {
        let d = s.drop_last();
        assert forall|i: int| 0 <= i < d.len() implies (#[trigger] d[i]).0 == flag by {
            assert(d[i] == s[i]);
        }
        lemma_flag_leaves_uniform(d, flag);
        assert(s.last() == s[s.len() - 1]);
    }
}

proof fn lemma_flag_leaves_split<B>(s: Seq<(bool, Box<BVHBuildNode<B>>)>, k: int, side: bool)
    requires
        0 <= k <= s.len(),
    ensures
        flag_leaves(s, side) == flag_leaves(s.take(k), side).add(flag_leaves(s.skip(k), side)),
    decreases s.len(),
{
    if k == s.len() {
        assert(s.take(k) =~= s);
        assert(s.skip(k).len() == 0);
        assert(flag_leaves(s, side) =~= flag_leaves(s.take(k), side).add(flag_leaves(s.skip(k), side)));
    } else {
        let d = s.drop_last();
        lemma_flag_leaves_split(d, k, side);
        assert(d.take(k) =~= s.take(k));
        assert(s.skip(k).drop_last() =~= d.skip(k));
        assert(s.skip(k).last() == s.last());
        assert(flag_leaves(s, side) =~= flag_leaves(s.take(k), side).add(flag_leaves(s.skip(k), side)));
    }
}

proof fn lemma_flag_side<B>(ps: Seq<(bool, Box<BVHBuildNode<B>>)>, ts: Seq<Box<BVHBuildNode<B>>>, flags: Seq<bool>, side: bool)
    requires
        ps.len() == ts.len(),
        flags.len() >= ts.len(),
        forall|i: int| 0 <= i < ps.len() ==> #[trigger] ps[i] == (flags[i], ts[i]),
    ensures
        flag_leaves(ps, side) == side_leaves(ts, flags, side),
    decreases ps.len(),
{
    if ps.len() > 0 {
        let n = ps.len() as int;
        let fl = flags;
        assert forall|i: int| 0 <= i < ps.drop_last().len() implies #[trigger] ps.drop_last()[i] == (fl[i], ts.drop_last()[i]) by {
            assert(ps.drop_last()[i] == ps[i]);
        }
        lemma_flag_side(ps.drop_last(), ts.drop_last(), flags, side);
        assert(ps[n - 1] == (flags[n - 1], ts[n - 1]));
    }
}

proof fn lemma_node_count_leaves<B>(tree: BVHBuildNode<B>)
    ensures
        node_count(tree) + 1 == 2 * tree_leaves(tree).len(),
    decreases tree,
{
    match tree.content {
        BVHNodeType::Leaf(_, _) => {},
        BVHNodeType::Interior(_, c0, c1) => {
            lemma_node_count_leaves(*c0);
            lemma_node_count_leaves(*c1);
        },
    }
}

proof fn lemma_forest_count_leaves<B>(ts: Seq<Box<BVHBuildNode<B>>>)
    ensures
        forest_node_count(ts) + ts.len() == 2 * forest_leaves(ts).len(),
    decreases ts.len(),
{
    if ts.len() > 0 {
        lemma_forest_count_leaves(ts.drop_last());
        lemma_node_count_leaves(*ts.last());
    }
}

proof fn lemma_pair_leaves_remove<B>(s: Seq<(bool, Box<BVHBuildNode<B>>)>, j: int)
    requires
        0 <= j < s.len(),
    ensures
        pair_leaves(s) == pair_leaves(s.remove(j)).add(tree_leaves(*s[j].1)),
    decreases s.len(),
{
    if j == s.len() - 1 {
        assert(s.remove(j) =~= s.drop_last());
    } else {
        let d = s.drop_last();
        lemma_pair_leaves_remove(d, j);
        assert(s.remove(j).drop_last() =~= d.remove(j));
        assert(s.remove(j).last() == s.last());
        assert(pair_leaves(s) =~= pair_leaves(s.remove(j)).add(tree_leaves(*s[j].1)));
    }
}

proof fn lemma_pair_leaves_perm<B>(s1: Seq<(bool, Box<BVHBuildNode<B>>)>, s2: Seq<(bool, Box<BVHBuildNode<B>>)>)
    requires
        s1.to_multiset() == s2.to_multiset(),
    ensures
        pair_leaves(s1) == pair_leaves(s2),
    decreases s1.len(),
{
    if s1.len() == 0 {
        assert(s1.to_multiset().len() == 0);
        assert(s2.to_multiset().len() == s2.len());
        assert(s2.len() == 0);
    } else {
        let x = s1.last();
        let d = s1.drop_last();
        assert(d.push(x) =~= s1);
        assert(s1.to_multiset() == d.to_multiset().insert(x));
        assert(s2.to_multiset().count(x) > 0);
        assert(s2.contains(x));
        let j = choose|j: int| 0 <= j < s2.len() && s2[j] == x;
        let r = s2.remove(j);
        assert(r.to_multiset() =~= d.to_multiset());
        lemma_pair_leaves_perm(d, r);
        lemma_pair_leaves_remove(s2, j);
    }
}

proof fn lemma_pair_leaves_split<B>(s: Seq<(bool, Box<BVHBuildNode<B>>)>, k: int)
    requires
        0 <= k <= s.len(),
    ensures
        pair_leaves(s) == pair_leaves(s.take(k)).add(pair_leaves(s.skip(k))),
    decreases s.len(),
{
    if k == s.len() {
        assert(s.take(k) =~= s);
        assert(s.skip(k).len() == 0);
        assert(pair_leaves(s) =~= pair_leaves(s.take(k)).add(pair_leaves(s.skip(k))));
    } else {
        let d = s.drop_last();
        lemma_pair_leaves_split(d, k);
        assert(d.take(k) =~= s.take(k));
        assert(s.skip(k).drop_last() =~= d.skip(k));
        assert(s.skip(k).last() == s.last());
        assert(pair_leaves(s) =~= pair_leaves(s.take(k)).add(pair_leaves(s.skip(k))));
    }
}

/// Pairs each item with its flag, keeping the order.
fn zip_flags<T>(items: Vec<T>, flags: &Vec<bool>) -> (r: Vec<(bool, T)>)
    requires
        items@.len() == flags@.len(),
    ensures
        r@.len() == items@.len(),
        forall|i: int| 0 <= i < r@.len() ==> #[trigger] r@[i] == (flags@[i], items@[i]),
{
    let ghost orig = items@;
    let n = items.len();
    let mut items = items;
    let mut rev: Vec<T> = Vec::new();
    while items.len() > 0
        invariant
            items@.len() + rev@.len() == n,
            n == orig.len(),
            items@ == orig.take(items@.len() as int),
            forall|j: int| 0 <= j < rev@.len() ==> #[trigger] rev@[j] == orig[n - 1 - j],
        decreases items@.len(),
    {
        let x = items.pop().unwrap();
        proof {
            assert(items@ =~= orig.take(items@.len() as int));
        }
        rev.push(x);
    }
    let mut out: Vec<(bool, T)> = Vec::new();
    let mut i: usize = 0;
    while rev.len() > 0
        invariant
            i + rev@.len() == n,
            n == orig.len(),
            flags@.len() == n,
            forall|j: int| 0 <= j < rev@.len() ==> #[trigger] rev@[j] == orig[n - 1 - j],
            out@.len() == i,
            forall|j: int| 0 <= j < i ==> #[trigger] out@[j] == (flags@[j], orig[j]),
        decreases rev@.len(),
    {
        let x = rev.pop().unwrap();
        out.push((flags[i], x));
        i = i + 1;
    }
    out
}

/// The trees of the pairs, keeping the order.
fn unzip_trees<B>(pairs: Vec<(bool, Box<BVHBuildNode<B>>)>) -> (r: Vec<Box<BVHBuildNode<B>>>)
    ensures
        r@.len() == pairs@.len(),
        forall|i: int| 0 <= i < r@.len() ==> #[trigger] r@[i] == pairs@[i].1,
        forest_leaves(r@) == pair_leaves(pairs@),
{
    let ghost orig = pairs@;
    let n = pairs.len();
    let mut pairs = pairs;
    let mut rev: Vec<(bool, Box<BVHBuildNode<B>>)> = Vec::new();
    while pairs.len() > 0
        invariant
            pairs@.len() + rev@.len() == n,
            n == orig.len(),
            pairs@ == orig.take(pairs@.len() as int),
            forall|j: int| 0 <= j < rev@.len() ==> #[trigger] rev@[j] == orig[n - 1 - j],
        decreases pairs@.len(),
    {
        let x = pairs.pop().unwrap();
        proof {
            assert(pairs@ =~= orig.take(pairs@.len() as int));
        }
        rev.push(x);
    }
    let mut out: Vec<Box<BVHBuildNode<B>>> = Vec::new();
    let mut i: usize = 0;
    proof {
        assert(orig.take(0) =~= Seq::<(bool, Box<BVHBuildNode<B>>)>::empty());
    }
    while rev.len() > 0
        invariant
            i + rev@.len() == n,
            n == orig.len(),
            forall|j: int| 0 <= j < rev@.len() ==> #[trigger] rev@[j] == orig[n - 1 - j],
            out@.len() == i,
            forall|j: int| 0 <= j < i ==> #[trigger] out@[j] == orig[j].1,
            forest_leaves(out@) == pair_leaves(orig.take(i as int)),
        decreases rev@.len(),
    {
        let x = rev.pop().unwrap();
        let ghost before = out@;
        out.push(x.1);
        proof {
            assert(out@.drop_last() =~= before);
            assert(orig.take(i + 1).drop_last() =~= orig.take(i as int));
        }
        i = i + 1;
    }
    proof {
        assert(orig.take(n as int) =~= orig);
    }
    out
}

/// Builds the upper levels of the BVH over the treelet roots. One root is
/// the tree itself. Otherwise a new interior node splits the roots in two
/// along the axis that `plan` chooses, the roots that `plan` flags going to
/// the first side, and each side is built the same way; the node's bounds are
/// the union of its children's. The roots end up unchanged, each once, as
/// the subtrees under the new nodes. Counts the new interior nodes in
/// `total_nodes`.
///
/// `plan` stands for the surface area heuristic over the roots' bounds. Where
/// it would put every root on one side the split would repeat forever, so it
/// is required to split every set of two or more roots.
pub fn build_upper_sah<B: Copy, F: Fn(&B, &B) -> B, P: Fn(&Vec<Box<BVHBuildNode<B>>>) -> (usize, Vec<bool>)>(
    treelet_roots: Vec<Box<BVHBuildNode<B>>>,
    total_nodes: &mut usize,
    empty: B,
    union: &F,
    plan: &P,
) -> (root: Box<BVHBuildNode<B>>)
    requires
        treelet_roots@.len() >= 1,
        *old(total_nodes) + treelet_roots@.len() <= usize::MAX,
        forall|a: &B, b: &B| call_requires(*union, (a, b)),
        forall|v: &Vec<Box<BVHBuildNode<B>>>| call_requires(*plan, (v,)),
        forall|v: &Vec<Box<BVHBuildNode<B>>>, r: (usize, Vec<bool>)| call_ensures(*plan, (v,), r) ==> plan_ok(v@, r),
    ensures
        treelet_roots@.len() == 1 ==> root == treelet_roots@[0],
        tree_leaves(*root) == forest_leaves(treelet_roots@),
        *final(total_nodes) == *old(total_nodes) + treelet_roots@.len() - 1,
        node_count(*root) == forest_node_count(treelet_roots@) + treelet_roots@.len() - 1,
        forest_axes_in_range(treelet_roots@) ==> axes_in_range(*root),
        (forall|k: int| 0 <= k < treelet_roots@.len() ==> unions_ok(*#[trigger] treelet_roots@[k], *union)) ==> unions_ok(
            *root,
            *union,
        ),
        upper_over(*root, treelet_roots@, *union),
        sah_over(*root, treelet_roots@, *plan, *union),
        treelet_roots@.len() >= 2 ==> exists|planned: (usize, Vec<bool>)|
            #[trigger] call_ensures(*plan, (&treelet_roots,), planned) && upper_split(*root, treelet_roots@, planned, *union),
    decreases treelet_roots@.len(),
{
    let ncount = treelet_roots.len();
    if ncount == 1 {
        let ghost roots = treelet_roots@;
        let mut roots_vec = treelet_roots;
        let only = roots_vec.pop().unwrap();
        proof {
            assert(roots.drop_last().len() == 0);
            assert(only == roots.last());
            assert(forest_leaves(roots.drop_last()) == Multiset::<(usize, usize)>::empty());
            assert(forest_node_count(roots.drop_last()) == 0);
            assert(forest_leaves(roots) =~= tree_leaves(*only));
            assert(axes_in_range(*roots[0]) ==> axes_in_range(*only));
            assert(frontier(*only, UpperShape::Root) =~= roots);
            assert(upper_unions(*only, UpperShape::Root, *union));
            assert(frontier(*only, UpperShape::Root).to_multiset() == roots.to_multiset());
            assert(planned_joins(*only, UpperShape::Root, *plan, *union));
        }
        return only;
    }
    *total_nodes = *total_nodes + 1;
    let ghost tv = treelet_roots;
    let planned = plan(&treelet_roots);
    proof {
        assert(plan_ok(treelet_roots@, planned));
    }
    let (dim, goes_low) = planned;
    let ghost roots = treelet_roots@;
    let mut pairs = zip_flags(treelet_roots, &goes_low);
    let ghost zipped = pairs@;
    proof {
        assert(pair_leaves(zipped) == forest_leaves(roots)) by {
            lemma_pair_forest(zipped, roots);
        }
    }
    let k = partition_by_flag(&mut pairs);
    let ghost parted = pairs@;
    proof {
        assert(flag_leaves(parted, true) == side_leaves(roots, goes_low@, true)
            && flag_leaves(parted, false) == side_leaves(roots, goes_low@, false)) by {
            lemma_flag_side(zipped, roots, goes_low@, true);
            lemma_flag_side(zipped, roots, goes_low@, false);
            lemma_flag_leaves_perm(parted, zipped, true);
            lemma_flag_leaves_perm(parted, zipped, false);
        }
        assert(flag_leaves(parted, true) == pair_leaves(parted.take(k as int))
            && flag_leaves(parted, false) == pair_leaves(parted.skip(k as int))) by {
            let lo_part = parted.take(k as int);
            let hi_part = parted.skip(k as int);
            assert forall|i: int| 0 <= i < lo_part.len() implies (#[trigger] lo_part[i]).0 == true by {
                assert(lo_part[i] == parted[i]);
            }
            assert forall|i: int| 0 <= i < hi_part.len() implies (#[trigger] hi_part[i]).0 == false by {
                assert(hi_part[i] == parted[k + i]);
            }
            lemma_flag_leaves_uniform(lo_part, true);
            lemma_flag_leaves_uniform(hi_part, false);
            lemma_flag_leaves_split(parted, k as int, true);
            lemma_flag_leaves_split(parted, k as int, false);
            assert(flag_leaves(parted, true) =~= pair_leaves(lo_part));
            assert(flag_leaves(parted, false) =~= pair_leaves(hi_part));
        }
        lemma_pair_leaves_perm(parted, zipped);
        lemma_pair_leaves_split(parted, k as int);
        // both sides are nonempty
        let i = choose|i: int| 0 <= i < roots.len() && goes_low@[i];
        let j = choose|j: int| 0 <= j < roots.len() && !goes_low@[j];
        assert(zipped.contains(zipped[i]));
        assert(parted.to_multiset().count(zipped[i]) > 0);
        assert(parted.contains(zipped[i]));
        assert(k > 0);
        assert(zipped.contains(zipped[j]));
        assert(parted.to_multiset().count(zipped[j]) > 0);
        assert(parted.contains(zipped[j]));
        assert(k < parted.len());
        assert forall|m: int| 0 <= m < parted.len() implies exists|z: int| 0 <= z < roots.len() && (#[trigger] parted[m]).1 == roots[z] by {
            assert(parted.to_multiset().count(parted[m]) > 0);
            assert(zipped.contains(parted[m]));
            let z = choose|z: int| 0 <= z < zipped.len() && zipped[z] == parted[m];
            assert(zipped[z].1 == roots[z]);
        }
        assert forall|m: int| 0 <= m < parted.len() implies axes_in_range(*(#[trigger] parted[m]).1) <== forest_axes_in_range(roots) by {
            if forest_axes_in_range(roots) {
                assert(parted.to_multiset().count(parted[m]) > 0);
                assert(zipped.contains(parted[m]));
                let z = choose|z: int| 0 <= z < zipped.len() && zipped[z] == parted[m];
                assert(zipped[z].1 == roots[z]);
            }
        }
    }
    let hi_pairs = pairs.split_off(k);
    let ghost lo_seq = pairs@;
    let ghost hi_seq = hi_pairs@;
    proof {
        assert(lo_seq =~= parted.take(k as int));
        assert(hi_seq =~= parted.skip(k as int));
    }
    let lo = unzip_trees(pairs);
    let hi = unzip_trees(hi_pairs);
    proof {
        assert(forest_axes_in_range(roots) ==> forest_axes_in_range(lo@)) by {
            if forest_axes_in_range(roots) {
                assert forall|m: int| 0 <= m < lo@.len() implies axes_in_range(*#[trigger] lo@[m]) by {
                    assert(lo@[m] == lo_seq[m].1);
                    assert(lo_seq[m] == parted[m]);
                }
            }
        }
        assert(forest_axes_in_range(roots) ==> forest_axes_in_range(hi@)) by {
            if forest_axes_in_range(roots) {
                assert forall|m: int| 0 <= m < hi@.len() implies axes_in_range(*#[trigger] hi@[m]) by {
                    assert(hi@[m] == hi_seq[m].1);
                    assert(hi_seq[m] == parted[k + m]);
                }
            }
        }
        lemma_forest_count_leaves(roots);
        lemma_forest_count_leaves(lo@);
        lemma_forest_count_leaves(hi@);
    }
    proof {
        if forall|k: int| 0 <= k < roots.len() ==> unions_ok(*#[trigger] roots[k], *union) {
            assert forall|m: int| 0 <= m < lo@.len() implies unions_ok(*#[trigger] lo@[m], *union) by {
                assert(lo@[m] == lo_seq[m].1);
                assert(lo_seq[m] == parted[m]);
                let z = choose|z: int| 0 <= z < roots.len() && parted[m].1 == roots[z];
                assert(unions_ok(*roots[z], *union));
            }
            assert forall|m: int| 0 <= m < hi@.len() implies unions_ok(*#[trigger] hi@[m], *union) by {
                assert(hi@[m] == hi_seq[m].1);
                assert(hi_seq[m] == parted[k + m]);
                let z = choose|z: int| 0 <= z < roots.len() && parted[k + m].1 == roots[z];
                assert(unions_ok(*roots[z], *union));
            }
        }
    }
    let c0 = build_upper_sah(lo, total_nodes, empty, union, plan);
    let c1 = build_upper_sah(hi, total_nodes, empty, union, plan);
    proof {
        lemma_node_count_leaves(*c0);
        lemma_node_count_leaves(*c1);
    }
    let ghost gc0 = c0;
    let ghost gc1 = c1;
    let mut node = BVHBuildNode { content: BVHNodeType::Leaf(0, 0), bounds: empty };
    node.init_interior(dim, c0, c1, union);
    proof {
        lemma_node_count_leaves(node);
        assert(upper_split(node, roots, planned, *union));
        assert forall|m: int| 0 <= m < lo@.len() implies #[trigger] lo@[m] == parted[m].1 by {
            assert(lo@[m] == lo_seq[m].1);
            assert(lo_seq[m] == parted[m]);
        }
        assert forall|m: int| 0 <= m < hi@.len() implies #[trigger] hi@[m] == parted[k + m].1 by {
            assert(hi@[m] == hi_seq[m].1);
            assert(hi_seq[m] == parted[k + m]);
        }
        lemma_join_over(node, dim, gc0, gc1, lo@, hi@, parted, zipped, roots, k as int, *union, *plan, tv, planned);
    }
    Box::new(node)
}

/// A node joining trees over `lo` and `hi`, which split a rearrangement of
/// the pairs over `roots`, is a tree over `roots`, split as `plan` chose
/// for them.
proof fn lemma_join_over<B, F: Fn(&B, &B) -> B, G: Fn(&Vec<Box<BVHBuildNode<B>>>) -> (usize, Vec<bool>)>(
    node: BVHBuildNode<B>,
    dim: usize,
    c0: Box<BVHBuildNode<B>>,
    c1: Box<BVHBuildNode<B>>,
    lo: Seq<Box<BVHBuildNode<B>>>,
    hi: Seq<Box<BVHBuildNode<B>>>,
    parted: Seq<(bool, Box<BVHBuildNode<B>>)>,
    zipped: Seq<(bool, Box<BVHBuildNode<B>>)>,
    roots: Seq<Box<BVHBuildNode<B>>>,
    k: int,
    union: F,
    plan: G,
    tv: Vec<Box<BVHBuildNode<B>>>,
    planned: (usize, Vec<bool>),
)
    requires
        node.content == BVHNodeType::<B>::Interior(dim, c0, c1),
        call_ensures(union, (&c0.bounds, &c1.bounds), node.bounds),
        sah_over(*c0, lo, plan, union),
        sah_over(*c1, hi, plan, union),
        0 <= k <= parted.len(),
        lo.len() == k,
        hi.len() == parted.len() - k,
        forall|m: int| 0 <= m < lo.len() ==> #[trigger] lo[m] == parted[m].1,
        forall|m: int| 0 <= m < hi.len() ==> #[trigger] hi[m] == parted[k + m].1,
        parted.to_multiset() == zipped.to_multiset(),
        zipped.len() == roots.len(),
        forall|i: int| 0 <= i < zipped.len() ==> #[trigger] zipped[i].1 == roots[i],
        tv@ == roots,
        call_ensures(plan, (&tv,), planned),
        upper_split(node, roots, planned, union),
    ensures
        upper_over(node, roots, union),
        sah_over(node, roots, plan, union),
{
    let s0 = choose|s: UpperShape|
        #[trigger] frontier(*c0, s).to_multiset() == lo.to_multiset() && upper_unions(*c0, s, union) && planned_joins(
            *c0,
            s,
            plan,
            union,
        );
    let s1 = choose|s: UpperShape|
        #[trigger] frontier(*c1, s).to_multiset() == hi.to_multiset() && upper_unions(*c1, s, union) && planned_joins(
            *c1,
            s,
            plan,
            union,
        );
    let sh = UpperShape::Join(Box::new(s0), Box::new(s1));
    assert(frontier(node, sh) == frontier(*c0, s0) + frontier(*c1, s1));
    vstd::seq_lib::lemma_multiset_commutative(frontier(*c0, s0), frontier(*c1, s1));
    let g = |p: (bool, Box<BVHBuildNode<B>>)| p.1;
    lemma_map_multiset(parted, zipped, g);
    assert(zipped.map_values(g) =~= roots);
    assert(parted.map_values(g) =~= lo + hi);
    vstd::seq_lib::lemma_multiset_commutative(lo, hi);
    assert(upper_unions(node, sh, union));
    assert(frontier(node, sh).to_multiset() == roots.to_multiset());
    assert(tv@.to_multiset() == frontier(node, sh).to_multiset());
    assert(call_ensures(plan, (&tv,), planned));
    assert(planned_joins(node, sh, plan, union));
}

proof fn lemma_pair_forest<B>(ps: Seq<(bool, Box<BVHBuildNode<B>>)>, ts: Seq<Box<BVHBuildNode<B>>>)
    requires
        ps.len() == ts.len(),
        forall|i: int| 0 <= i < ps.len() ==> (#[trigger] ps[i]).1 == ts[i],
    ensures
        pair_leaves(ps) == forest_leaves(ts),
    decreases ps.len(),
{
    if ps.len() > 0 {
        lemma_pair_forest(ps.drop_last(), ts.drop_last());
    }
}

} // verus!
