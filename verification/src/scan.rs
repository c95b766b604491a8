use vstd::prelude::*;
use crate::morton::{MortonPrimitive};
use crate::lbvh::BVHBuildNode;
use crate::flat::{LinearBVHNode, LinearBVHNodeType};
use crate::traverse::{bounds_hit, walk_leaves, leaf_prims, prim_calls, state_after, leaf_in_order};
use crate::accel::built_from;
use crate::cover::{hits_unions, built_walk_tests_every_hit_primitive, key_count};

verus! {

/// The intersection state after testing the primitives `prims[xs[0]]`,
/// `prims[xs[1]]`, ... in turn from `start`, where testing primitive `p`
/// turns state `s` into `nearer(s, p)`: a linear scan.
pub open spec fn scan<P, S>(nearer: spec_fn(S, P) -> S, prims: Seq<P>, start: S, xs: Seq<usize>) -> S
    decreases xs.len(),
{
    if xs.len() == 0 {
        start
    } else {
        nearer(scan(nearer, prims, start, xs.drop_last()), prims[xs.last() as int])
    }
}

/// `nearer` keeps the nearer of two hits: the state after testing two
/// primitives does not depend on their order, and testing a primitive again
/// changes nothing.
pub open spec fn keeps_nearer<P, S>(nearer: spec_fn(S, P) -> S) -> bool {
    &&& forall|s: S, p: P, q: P| #[trigger] nearer(nearer(s, p), q) == nearer(nearer(s, q), p)
    &&& forall|s: S, p: P| #[trigger] nearer(nearer(s, p), p) == nearer(s, p)
}

/// `xs` without any occurrence of `x`.
pub open spec fn without(xs: Seq<usize>, x: usize) -> Seq<usize>
    decreases xs.len(),
{
    if xs.len() == 0 {
        xs
    } else {
        let w = without(xs.drop_last(), x);
        if xs.last() == x {
            w
        } else {
            w.push(xs.last())
        }
    }
}

proof fn lemma_without(xs: Seq<usize>, x: usize)
    ensures
        forall|z: usize| #[trigger] without(xs, x).contains(z) <==> z != x && xs.contains(z),
        without(xs, x).len() <= xs.len(),
        xs.contains(x) ==> without(xs, x).len() < xs.len(),
        !xs.contains(x) ==> without(xs, x) == xs,
    decreases xs.len(),
{
    if xs.len() > 0 {
        let d = xs.drop_last();
        lemma_without(d, x);
        let w = without(d, x);
        assert forall|z: usize| #[trigger] without(xs, x).contains(z) <==> z != x && xs.contains(z) by {
            if xs.contains(z) && z != x {
                let i = choose|i: int| 0 <= i < xs.len() && xs[i] == z;
                if i < xs.len() - 1 {
                    assert(d[i] == z);
                    assert(w.contains(z));
                    let j = choose|j: int| 0 <= j < w.len() && w[j] == z;
                    if xs.last() != x {
                        assert(w.push(xs.last())[j] == z);
                    }
                } else {
                    assert(without(xs, x) == w.push(xs.last()));
                    assert(without(xs, x)[w.len() as int] == z);
                }
            }
            if without(xs, x).contains(z) {
                let j = choose|j: int| 0 <= j < without(xs, x).len() && without(xs, x)[j] == z;
                if xs.last() != x && j == w.len() {
                    assert(xs[xs.len() - 1] == z);
                } else {
                    assert(w[j] == z);
                    assert(w.contains(z));
                    let i = choose|i: int| 0 <= i < d.len() && d[i] == z;
                    assert(xs[i] == z);
                }
            }
        }
        if xs.contains(x) && !d.contains(x) {
            let i = choose|i: int| 0 <= i < xs.len() && xs[i] == x;
            if i < xs.len() - 1 {
                assert(d[i] == x);
            }
            assert(xs.last() == x);
        }
        if !xs.contains(x) {
            assert(xs[xs.len() - 1] != x);
            assert forall|z: usize| d.contains(z) implies xs.contains(z) by {
                let i = choose|i: int| 0 <= i < d.len() && d[i] == z;
                assert(xs[i] == z);
            }
            assert(xs =~= d.push(xs.last()));
        }
    }
}

/// Scanning `xs` comes to scanning it without `x` and testing `x` last.
proof fn lemma_scan_last<P, S>(nearer: spec_fn(S, P) -> S, prims: Seq<P>, start: S, xs: Seq<usize>, x: usize)
    requires
        keeps_nearer(nearer),
        xs.contains(x),
    ensures
        scan(nearer, prims, start, xs) == nearer(scan(nearer, prims, start, without(xs, x)), prims[x as int]),
    decreases xs.len(),
{
    let d = xs.drop_last();
    let y = xs.last();
    let px = prims[x as int];
    if y == x {
        if d.contains(x) {
            lemma_scan_last(nearer, prims, start, d, x);
            let f = scan(nearer, prims, start, without(d, x));
            assert(nearer(nearer(f, px), px) == nearer(f, px));
        } else {
            lemma_without(d, x);
        }
    } else {
        let i = choose|i: int| 0 <= i < xs.len() && xs[i] == x;
        assert(d[i] == x);
        lemma_scan_last(nearer, prims, start, d, x);
        let f = scan(nearer, prims, start, without(d, x));
        let py = prims[y as int];
        assert(nearer(nearer(f, px), py) == nearer(nearer(f, py), px));
        assert(without(xs, x).drop_last() == without(d, x));
    }
}

/// Scans of two sequences that hold the same live primitives come to the
/// same state, where testing a primitive that is not live changes nothing.
proof fn lemma_scan_same_live<P, S>(
    nearer: spec_fn(S, P) -> S,
    prims: Seq<P>,
    start: S,
    live: spec_fn(usize) -> bool,
    xs: Seq<usize>,
    ys: Seq<usize>,
)
    requires
        keeps_nearer(nearer),
        forall|x: usize, s: S| !live(x) ==> #[trigger] nearer(s, prims[x as int]) == s,
        forall|x: usize| #[trigger] live(x) ==> (xs.contains(x) <==> ys.contains(x)),
    ensures
        scan(nearer, prims, start, xs) == scan(nearer, prims, start, ys),
    decreases xs.len() + ys.len(),
{
    if xs.len() > 0 {
        let x = xs.last();
        let d = xs.drop_last();
        assert forall|z: usize| #[trigger] d.contains(z) ==> xs.contains(z) by {
            if d.contains(z) {
                let i = choose|i: int| 0 <= i < d.len() && d[i] == z;
                assert(xs[i] == z);
            }
        }
        assert forall|z: usize| #[trigger] xs.contains(z) && z != x ==> d.contains(z) by {
            if xs.contains(z) && z != x {
                let i = choose|i: int| 0 <= i < xs.len() && xs[i] == z;
                assert(d[i] == z);
            }
        }
        if !live(x) {
            assert(nearer(scan(nearer, prims, start, d), prims[x as int]) == scan(nearer, prims, start, d));
            lemma_scan_same_live(nearer, prims, start, live, d, ys);
        } else if d.contains(x) {
            lemma_scan_last(nearer, prims, start, d, x);
            let f = scan(nearer, prims, start, without(d, x));
            assert(nearer(nearer(f, prims[x as int]), prims[x as int]) == nearer(f, prims[x as int]));
            lemma_scan_same_live(nearer, prims, start, live, d, ys);
        } else {
            assert(xs[xs.len() - 1] == x);
            assert(ys.contains(x));
            lemma_without(ys, x);
            lemma_scan_last(nearer, prims, start, ys, x);
            lemma_scan_same_live(nearer, prims, start, live, d, without(ys, x));
        }
    } else if ys.len() > 0 {
        let y = ys.last();
        let d = ys.drop_last();
        assert(ys[ys.len() - 1] == y);
        assert(!live(y));
        assert forall|z: usize| #[trigger] live(z) implies (xs.contains(z) <==> d.contains(z)) by {
            if d.contains(z) {
                let i = choose|i: int| 0 <= i < d.len() && d[i] == z;
                assert(ys[i] == z);
            }
        }
        assert(nearer(scan(nearer, prims, start, d), prims[y as int]) == scan(nearer, prims, start, d));
        lemma_scan_same_live(nearer, prims, start, live, xs, d);
    }
}

/// Tests recorded by `prim_calls` with a test that turns state `s` into
/// `nearer(s, p)` end in the state that a scan of the tested primitives
/// gives.
proof fn lemma_calls_scan<P, S, X: Fn(&P, S) -> (bool, S)>(
    test: X,
    nearer: spec_fn(S, P) -> S,
    prims: Seq<P>,
    tested: Seq<usize>,
    start: S,
    calls: Seq<(bool, S)>,
    k: int,
)
    requires
        prim_calls(test, prims, tested, start, calls),
        forall|p: P, s: S, r: (bool, S)| call_ensures(test, (&p, s), r) ==> r.1 == nearer(s, p),
        0 <= k <= calls.len(),
    ensures
        state_after(start, calls.take(k)) == scan(nearer, prims, start, tested.take(k)),
    decreases k,
{
    reveal(prim_calls);
    if k == 0 {
        assert(calls.take(0).len() == 0);
        assert(tested.take(0).len() == 0);
    } else {
        lemma_calls_scan(test, nearer, prims, tested, start, calls, k - 1);
        let m = k - 1;
        assert(call_ensures(
            test,
            (&prims[tested[m] as int], if m == 0 { start } else { calls[m - 1].1 }),
            calls[m],
        ));
        if m > 0 {
            assert(calls.take(m).last() == calls[m - 1]);
        }
        assert(tested.take(k).drop_last() =~= tested.take(m));
        assert(tested.take(k).last() == tested[m]);
        assert(calls.take(k).last() == calls[m]);
    }
}

/// The leaves that a walk reaches are leaves of the node layout, so they lie
/// in the primitive order when every leaf of the layout does.
proof fn lemma_walk_in_order<B, H: Fn(&B) -> bool>(nodes: Seq<LinearBVHNode<B>>, k: int, dir_is_neg: [bool; 3], hits: H, m: int)
    requires
        forall|j: int| 0 <= j < nodes.len() ==> leaf_in_order(#[trigger] nodes[j].content, m),
    ensures
        forall|w: int|
            0 <= w < walk_leaves(nodes, k, dir_is_neg, hits).len() ==> (#[trigger] walk_leaves(nodes, k, dir_is_neg, hits)[w]).0
                + walk_leaves(nodes, k, dir_is_neg, hits)[w].1 <= m,
    decreases nodes.len() - k,
{
    if k < 0 || k >= nodes.len() || !bounds_hit(hits, nodes[k].bounds) {
    } else {
        assert(leaf_in_order(nodes[k].content, m));
        match nodes[k].content {
            LinearBVHNodeType::Leaf(first, count) => {},
            LinearBVHNodeType::Interior(axis, second) => {
                if second <= k || second >= nodes.len() || k + 1 >= nodes.len() {
                } else {
                    lemma_walk_in_order(nodes, second as int, dir_is_neg, hits, m);
                    lemma_walk_in_order(nodes, k + 1, dir_is_neg, hits, m);
                    let w0 = walk_leaves(nodes, k + 1, dir_is_neg, hits);
                    let w1 = walk_leaves(nodes, second as int, dir_is_neg, hits);
                    let w = walk_leaves(nodes, k, dir_is_neg, hits);
                    assert(w == w0 + w1 || w == w1 + w0);
                    assert forall|j: int| 0 <= j < w.len() implies (#[trigger] w[j]).0 + w[j].1 <= m by {
                        if w == w0 + w1 {
                            if j < w0.len() {
                                assert(w[j] == w0[j]);
                            } else {
                                assert(w[j] == w1[j - w0.len()]);
                            }
                        } else {
                            if j < w1.len() {
                                assert(w[j] == w1[j]);
                            } else {
                                assert(w[j] == w0[j - w1.len()]);
                            }
                        }
                    }
                }
            },
        }
    }
}

/// The primitives of leaves that lie in the primitive order are primitives
/// of the order.
proof fn lemma_leaf_prims_in_order(order: Seq<usize>, leaves: Seq<(u32, u16)>)
    requires
        forall|w: int| 0 <= w < leaves.len() ==> (#[trigger] leaves[w]).0 + leaves[w].1 <= order.len(),
    ensures
        forall|x: usize| #[trigger] leaf_prims(order, leaves).contains(x) ==> order.contains(x),
    decreases leaves.len(),
{
    if leaves.len() > 0 {
        let d = leaves.drop_last();
        assert forall|w: int| 0 <= w < d.len() implies (#[trigger] d[w]).0 + d[w].1 <= order.len() by {
            assert(d[w] == leaves[w]);
        }
        lemma_leaf_prims_in_order(order, d);
        let pre = leaf_prims(order, d);
        let l = leaves.last();
        assert(l == leaves[leaves.len() - 1]);
        let part = order.subrange(l.0 as int, l.0 + l.1);
        assert(leaf_prims(order, leaves) == pre + part);
        assert forall|x: usize| #[trigger] leaf_prims(order, leaves).contains(x) implies order.contains(x) by {
            let j = choose|j: int| 0 <= j < (pre + part).len() && (pre + part)[j] == x;
            if j < pre.len() {
                assert(pre[j] == x);
                assert(pre.contains(x));
            } else {
                assert(order[l.0 + (j - pre.len())] == x);
            }
        }
    }
}

/// Intersecting a ray with what `BVHAccel::new` built gives what a linear
/// scan over all the primitives in the primitive order gives, where the
/// primitive test keeps the nearer hit (`nearer`), a primitive whose bounds
/// the ray misses cannot change the intersection state, and the bounds test
/// meets every union of bounds of which it meets one. `calls` are the tests
/// that `BVHAccel::intersect` records. Every leaf has to fit the node
/// layout, as `built_walk_tests_every_hit_primitive` says.
pub proof fn intersect_is_a_linear_scan<P, S, B, H: Fn(&B) -> bool, X: Fn(&P, S) -> (bool, S), F: Fn(&B, &B) -> B, G: Fn(&Vec<Box<BVHBuildNode<B>>>) -> (usize, Vec<bool>)>(
    prims: Seq<P>,
    nodes: Seq<LinearBVHNode<B>>,
    order: Seq<usize>,
    morton_prims: Seq<MortonPrimitive>,
    max: int,
    pb: Seq<B>,
    empty: B,
    union: F,
    plan: G,
    dir_is_neg: [bool; 3],
    hits: H,
    test: X,
    nearer: spec_fn(S, P) -> S,
    start: S,
    calls: Seq<(bool, S)>,
)
    requires
        built_from(nodes, order, morton_prims, max, pb, empty, union, plan),
        nodes.len() <= u32::MAX,
        order.len() <= u32::MAX,
        max <= u16::MAX,
        forall|k: int| 0 <= k < morton_prims.len() ==> (#[trigger] morton_prims[k]).index == k,
        forall|c: u32| #[trigger] key_count(morton_prims, c) <= u16::MAX,
        forall|j: int| 0 <= j < nodes.len() ==> leaf_in_order(#[trigger] nodes[j].content, order.len() as int),
        forall|i: int| 0 <= i < order.len() ==> #[trigger] order[i] < prims.len(),
        hits_unions(hits, union),
        keeps_nearer(nearer),
        forall|p: P, s: S, r: (bool, S)| call_ensures(test, (&p, s), r) ==> r.1 == nearer(s, p),
        forall|i: int, s: S|
            0 <= i < prims.len() && !bounds_hit(hits, pb[i]) ==> #[trigger] nearer(s, prims[i]) == s,
        prim_calls(test, prims, leaf_prims(order, walk_leaves(nodes, 0, dir_is_neg, hits)), start, calls),
    ensures
        state_after(start, calls) == scan(nearer, prims, start, order),
{
    let walk = walk_leaves(nodes, 0, dir_is_neg, hits);
    let tested = leaf_prims(order, walk);
    reveal(prim_calls);
    lemma_calls_scan(test, nearer, prims, tested, start, calls, calls.len() as int);
    assert(calls.take(calls.len() as int) =~= calls);
    assert(tested.take(calls.len() as int) =~= tested);
    lemma_walk_in_order(nodes, 0, dir_is_neg, hits, order.len() as int);
    lemma_leaf_prims_in_order(order, walk);
    let live = |x: usize| x >= prims.len() || bounds_hit(hits, pb[x as int]);
    assert forall|x: usize, s: S| !live(x) implies #[trigger] nearer(s, prims[x as int]) == s by {
        assert(nearer(s, prims[x as int]) == s);
    }
    assert forall|x: usize| #[trigger] live(x) implies (tested.contains(x) <==> order.contains(x)) by {
        if order.contains(x) {
            let i = choose|i: int| 0 <= i < order.len() && order[i] == x;
            assert(order[i] < prims.len());
            built_walk_tests_every_hit_primitive(nodes, order, morton_prims, max, pb, empty, union, plan, dir_is_neg, hits, i);
        }
    }
    lemma_scan_same_live(nearer, prims, start, live, tested, order);
}

} // verus!
