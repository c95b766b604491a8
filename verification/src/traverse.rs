use vstd::prelude::*;
use crate::lbvh::{BVHBuildNode, BVHNodeType, node_count};
use crate::flat::{LinearBVHNode, LinearBVHNodeType, flattened_at, linear_wf};
use crate::accel::BVHAccel;

verus! {

/// The ray meets bounds `b`, by the bounds test `hits`.
pub open spec fn bounds_hit<B, H: Fn(&B) -> bool>(hits: H, b: B) -> bool {
    call_ensures(hits, (&b,), true)
}

/// The leaves, as (first primitive, primitive count), that a front-to-back
/// walk of the flattened BVH from node `k` tests: a node whose bounds the
/// ray misses is skipped with everything below it; at an interior node the
/// child nearer along the split axis (the second one where the ray direction
/// is negative along the axis) is walked first.
pub open spec fn walk_leaves<B, H: Fn(&B) -> bool>(
    nodes: Seq<LinearBVHNode<B>>,
    k: int,
    dir_is_neg: [bool; 3],
    hits: H,
) -> Seq<(u32, u16)>
    decreases nodes.len() - k,
{
    if k < 0 || k >= nodes.len() || !bounds_hit(hits, nodes[k].bounds) {
        Seq::empty()
    } else {
        match nodes[k].content {
            LinearBVHNodeType::Leaf(first, count) => seq![(first, count)],
            LinearBVHNodeType::Interior(axis, second) => {
                if second <= k || second >= nodes.len() || k + 1 >= nodes.len() {
                    Seq::empty()
                } else if dir_is_neg[axis as int] {
                    walk_leaves(nodes, second as int, dir_is_neg, hits) + walk_leaves(nodes, k + 1, dir_is_neg, hits)
                } else {
                    walk_leaves(nodes, k + 1, dir_is_neg, hits) + walk_leaves(nodes, second as int, dir_is_neg, hits)
                }
            },
        }
    }
}

/// The walks from the nodes on a stack, the top one first.
pub open spec fn walk_stack<B, H: Fn(&B) -> bool>(
    nodes: Seq<LinearBVHNode<B>>,
    stack: Seq<usize>,
    dir_is_neg: [bool; 3],
    hits: H,
) -> Seq<(u32, u16)>
    decreases stack.len(),
{
    if stack.len() == 0 {
        Seq::empty()
    } else {
        walk_leaves(nodes, stack.last() as int, dir_is_neg, hits) + walk_stack(
            nodes,
            stack.drop_last(),
            dir_is_neg,
            hits,
        )
    }
}

/// The primitives of the given leaves, through the primitive order, leaf by
/// leaf.
pub open spec fn leaf_prims(order: Seq<usize>, leaves: Seq<(u32, u16)>) -> Seq<usize>
    decreases leaves.len(),
{
    if leaves.len() == 0 {
        Seq::empty()
    } else {
        leaf_prims(order, leaves.drop_last()) + order.subrange(
            leaves.last().0 as int,
            leaves.last().0 + leaves.last().1,
        )
    }
}

/// `calls` records the primitive tests, in order, of `tested` with `test`,
/// each test taking the intersection state that the one before it left,
/// starting from `start`: the hit flag and the state each test returned.
#[verifier::opaque]
pub open spec fn prim_calls<P, S, X: Fn(&P, S) -> (bool, S)>(
    test: X,
    prims: Seq<P>,
    tested: Seq<usize>,
    start: S,
    calls: Seq<(bool, S)>,
) -> bool {
    &&& calls.len() == tested.len()
    &&& forall|k: int|
        0 <= k < calls.len() ==> call_ensures(
            test,
            (&prims[tested[k] as int], if k == 0 { start } else { calls[k - 1].1 }),
            #[trigger] calls[k],
        )
}

/// A leaf's primitives lie inside a primitive order of length `m`.
pub open spec fn leaf_in_order(content: LinearBVHNodeType, m: int) -> bool {
    match content {
        LinearBVHNodeType::Leaf(first, count) => first + count <= m,
        LinearBVHNodeType::Interior(_, _) => true,
    }
}

/// Number of nodes of the trees on a stack.
pub open spec fn stack_count<B>(ts: Seq<BVHBuildNode<B>>) -> nat
    decreases ts.len(),
{
    if ts.len() == 0 {
        0
    } else {
        stack_count(ts.drop_last()) + node_count(ts.last())
    }
}

/// The state a primitive test starts from after the tests `calls`.
pub open spec fn state_after<S>(start: S, calls: Seq<(bool, S)>) -> S {
    if calls.len() == 0 {
        start
    } else {
        calls.last().1
    }
}

/// Some test in `calls` hit.
#[verifier::opaque]
pub open spec fn any_hit<S>(calls: Seq<(bool, S)>) -> bool {
    exists|k: int| 0 <= k < calls.len() && (#[trigger] calls[k]).0
}

proof fn lemma_prim_calls_push<P, S, X: Fn(&P, S) -> (bool, S)>(
    test: X,
    prims: Seq<P>,
    tested: Seq<usize>,
    start: S,
    calls: Seq<(bool, S)>,
    idx: usize,
    got: bool,
    next: S,
)
    requires
        prim_calls(test, prims, tested, start, calls),
        call_ensures(test, (&prims[idx as int], state_after(start, calls)), (got, next)),
    ensures
        prim_calls(test, prims, tested.push(idx), start, calls.push((got, next))),
        state_after(start, calls.push((got, next))) == next,
{
    reveal(prim_calls);
    let c2 = calls.push((got, next));
    let t2 = tested.push(idx);
    assert forall|k: int| 0 <= k < c2.len() implies call_ensures(
        test,
        (&prims[t2[k] as int], if k == 0 { start } else { c2[k - 1].1 }),
        #[trigger] c2[k],
    ) by {
        if k < calls.len() {
            assert(c2[k] == calls[k]);
            assert(t2[k] == tested[k]);
            if k > 0 {
                assert(c2[k - 1] == calls[k - 1]);
            }
        }
    }
}

proof fn lemma_any_hit_push<S>(calls: Seq<(bool, S)>, got: bool, next: S)
    ensures
        any_hit(calls.push((got, next))) == (any_hit(calls) || got),
{
    reveal(any_hit);
    let c2 = calls.push((got, next));
    if any_hit(calls) {
        let k = choose|k: int| 0 <= k < calls.len() && (#[trigger] calls[k]).0;
        assert(c2[k] == calls[k]);
    }
    if got {
        assert(c2[calls.len() as int].0);
    }
    if any_hit(c2) {
        let k = choose|k: int| 0 <= k < c2.len() && (#[trigger] c2[k]).0;
        if k < calls.len() {
            assert(c2[k] == calls[k]);
        }
    }
}

proof fn lemma_stack_count_push<B>(ts: Seq<BVHBuildNode<B>>, t: BVHBuildNode<B>)
    ensures
        stack_count(ts.push(t)) == stack_count(ts) + node_count(t),
{
    assert(ts.push(t).drop_last() =~= ts);
}

proof fn lemma_walk_stack_push<B, H: Fn(&B) -> bool>(
    nodes: Seq<LinearBVHNode<B>>,
    stack: Seq<usize>,
    k: usize,
    dir_is_neg: [bool; 3],
    hits: H,
)
    ensures
        walk_stack(nodes, stack.push(k), dir_is_neg, hits) == walk_leaves(nodes, k as int, dir_is_neg, hits) + walk_stack(
            nodes,
            stack,
            dir_is_neg,
            hits,
        ),
{
    assert(stack.push(k).drop_last() =~= stack);
}

impl<P, T, M, B> BVHAccel<P, T, M, B> {
    /// The nodes hold a tree in depth-first order, leaves refer to primitives
    /// through `order`, and `order` refers to primitives.
    pub open spec fn traversable(&self) -> bool {
        &&& linear_wf(self.nodes@)
        &&& self.nodes@.len() <= u32::MAX
        &&& exists|root: BVHBuildNode<B>| #[trigger] flattened_at(self.nodes@, 0, root)
        &&& forall|k: int| 0 <= k < self.nodes@.len() ==> leaf_in_order(#[trigger] self.nodes@[k].content, self.order@.len() as int)
        &&& forall|i: int| 0 <= i < self.order@.len() ==> #[trigger] self.order@[i] < self.primitives@.len()
    }

    /// Tests the `count` primitives of a leaf that starts at `first` in the
    /// primitive order, continuing the record `calls` of the tests so far.
    fn test_leaf<S, X: Fn(&P, S) -> (bool, S)>(
        &self,
        first: u32,
        count: u16,
        hit: bool,
        state: S,
        hits_prim: &X,
        Ghost(tested): Ghost<Seq<usize>>,
        Ghost(start): Ghost<S>,
        Ghost(calls): Ghost<Seq<(bool, S)>>,
    ) -> (r: (bool, S, Ghost<Seq<(bool, S)>>))
        requires
            first + count <= self.order@.len(),
            forall|i: int| 0 <= i < self.order@.len() ==> #[trigger] self.order@[i] < self.primitives@.len(),
            forall|p: &P, s: S| call_requires(*hits_prim, (p, s)),
            prim_calls(*hits_prim, self.primitives@, tested, start, calls),
            hit == any_hit(calls),
            state == state_after(start, calls),
        ensures
            prim_calls(
                *hits_prim,
                self.primitives@,
                tested + self.order@.subrange(first as int, first + count),
                start,
                r.2@,
            ),
            r.0 == any_hit(r.2@),
            r.1 == state_after(start, r.2@),
    {
        let mut hit = hit;
        let mut state = state;
        let ghost mut calls = calls;
        let olen = self.order.len();
        let mut i: u16 = 0;
        while i < count
            invariant
                olen == self.order@.len(),
                first + count <= self.order@.len(),
                forall|i: int| 0 <= i < self.order@.len() ==> #[trigger] self.order@[i] < self.primitives@.len(),
                0 <= i <= count,
                forall|p: &P, s: S| call_requires(*hits_prim, (p, s)),
                prim_calls(*hits_prim, self.primitives@, tested + self.order@.subrange(first as int, first + i), start, calls),
                hit == any_hit(calls),
                state == state_after(start, calls),
            decreases count - i,
        {
            let at = first as usize + i as usize;
            let idx = self.order[at];
            let ghost before = tested + self.order@.subrange(first as int, first + i);
            let (got, next_state) = hits_prim(&self.primitives[idx], state);
            proof {
                lemma_prim_calls_push(*hits_prim, self.primitives@, before, start, calls, idx, got, next_state);
                lemma_any_hit_push(calls, got, next_state);
                calls = calls.push((got, next_state));
                assert(tested + self.order@.subrange(first as int, first + i + 1) =~= before.push(idx));
            }
            if got {
                hit = true;
            }
            state = next_state;
            i = i + 1;
        }
        (hit, state, Ghost(calls))
    }

    /// Intersects a ray with the primitives of the hierarchy, front to back.
    /// `dir_is_neg` tells along which axes the ray direction is negative,
    /// `hits_bounds` whether the ray meets given bounds, and `hits_prim`
    /// whether it meets a primitive nearer than the intersection state it is
    /// given, with the updated state. Every primitive of every leaf that the
    /// walk reaches is tested once, in walk order, each test taking the state
    /// the one before it left; the result says whether any test hit, with the
    /// final state.
    pub fn intersect<S, H: Fn(&B) -> bool, X: Fn(&P, S) -> (bool, S)>(
        &self,
        dir_is_neg: &[bool; 3],
        isect: S,
        hits_bounds: &H,
        hits_prim: &X,
    ) -> (r: (bool, S))
        requires
            self.traversable(),
            forall|b: &B| call_requires(*hits_bounds, (b,)),
            forall|b: &B, r1: bool, r2: bool|
                call_ensures(*hits_bounds, (b,), r1) && call_ensures(*hits_bounds, (b,), r2) ==> r1 == r2,
            forall|p: &P, s: S| call_requires(*hits_prim, (p, s)),
        ensures
            exists|calls: Seq<(bool, S)>|
                {
                    &&& #[trigger] prim_calls(
                        *hits_prim,
                        self.primitives@,
                        leaf_prims(self.order@, walk_leaves(self.nodes@, 0, *dir_is_neg, *hits_bounds)),
                        isect,
                        calls,
                    )
                    &&& r.0 == any_hit(calls)
                    &&& r.1 == state_after(isect, calls)
                },
    {
        let ghost nodes = self.nodes@;
        let ghost order = self.order@;
        let ghost dir = *dir_is_neg;
        let ghost h = *hits_bounds;
        let ghost root = choose|root: BVHBuildNode<B>| flattened_at(nodes, 0, root);
        let ghost whole = walk_leaves(nodes, 0, dir, h);
        let mut hit = false;
        let mut state = isect;
        let mut current: usize = 0;
        let mut to_visit: Vec<usize> = Vec::new();
        let mut finished = false;
        let ghost mut cur_tree = root;
        let ghost mut stack_trees: Seq<BVHBuildNode<B>> = Seq::empty();
        let ghost mut done: Seq<(u32, u16)> = Seq::empty();
        let ghost mut calls: Seq<(bool, S)> = Seq::empty();
        proof {
            assert(done + walk_leaves(nodes, 0, dir, h) + walk_stack(nodes, to_visit@, dir, h) =~= whole);
            reveal(prim_calls);
            reveal(any_hit);
            assert(leaf_prims(order, done).len() == 0);
        }
        while !finished
            invariant
                nodes == self.nodes@,
                order == self.order@,
                dir == *dir_is_neg,
                h == *hits_bounds,
                self.traversable(),
                whole == walk_leaves(nodes, 0, dir, h),
                forall|b: &B| call_requires(*hits_bounds, (b,)),
                forall|b: &B, r1: bool, r2: bool|
                    call_ensures(*hits_bounds, (b,), r1) && call_ensures(*hits_bounds, (b,), r2) ==> r1 == r2,
                forall|p: &P, s: S| call_requires(*hits_prim, (p, s)),
                to_visit@.len() == stack_trees.len(),
                forall|i: int| 0 <= i < to_visit@.len() ==> flattened_at(nodes, #[trigger] to_visit@[i] as int, stack_trees[i]),
                !finished ==> flattened_at(nodes, current as int, cur_tree),
                !finished ==> whole == done + walk_leaves(nodes, current as int, dir, h) + walk_stack(nodes, to_visit@, dir, h),
                finished ==> whole == done,
                prim_calls(*hits_prim, self.primitives@, leaf_prims(order, done), isect, calls),
                hit == any_hit(calls),
                state == state_after(isect, calls),
            decreases (if finished { 0 } else { node_count(cur_tree) + stack_count(stack_trees) + 1 }),
        {
            proof {
                assert(linear_wf(nodes));
                assert(leaf_in_order(nodes[current as int].content, order.len() as int));
            }
            let touched = hits_bounds(&self.nodes[current].bounds);
            let ghost walk_here = walk_leaves(nodes, current as int, dir, h);
            proof {
                if !touched {
                    assert(!bounds_hit(h, nodes[current as int].bounds));
                    assert(walk_here =~= Seq::<(u32, u16)>::empty());
                }
            }
            let mut pop_next = true;
            if touched {
                match self.nodes[current].content {
                    LinearBVHNodeType::Leaf(first, count) => {
                        let (h2, s2, Ghost(c2)) = self.test_leaf(first, count, hit, state, hits_prim,
                            Ghost(leaf_prims(order, done)), Ghost(isect), Ghost(calls));
                        hit = h2;
                        state = s2;
                        proof {
                            calls = c2;
                            let done2 = done.push((first, count));
                            assert(done2.drop_last() =~= done);
                            assert(walk_here == seq![(first, count)]);
                            assert(done + walk_here =~= done2);
                            done = done2;
                        }
                    },
                    LinearBVHNodeType::Interior(axis, second) => {
                        proof {
                            assert(axis < 3);
                        }
                        let ghost c0 = match cur_tree.content {
                            BVHNodeType::Interior(_, c0, _) => *c0,
                            BVHNodeType::Leaf(_, _) => cur_tree,
                        };
                        let ghost c1 = match cur_tree.content {
                            BVHNodeType::Interior(_, _, c1) => *c1,
                            BVHNodeType::Leaf(_, _) => cur_tree,
                        };
                        proof {
                            assert(cur_tree.content is Interior);
                            assert(flattened_at(nodes, current + 1, c0));
                            assert(flattened_at(nodes, current + 1 + node_count(c0), c1));
                            assert(second as int == current + 1 + node_count(c0));
                            assert(node_count(cur_tree) == 1 + node_count(c0) + node_count(c1));
                        }
                        let ghost old_stack = to_visit@;
                        let ghost old_trees = stack_trees;
                        if dir_is_neg[axis as usize] {
                            to_visit.push(current + 1);
                            current = second as usize;
                            proof {
                                stack_trees = stack_trees.push(c0);
                                cur_tree = c1;
                            }
                        } else {
                            to_visit.push(second as usize);
                            current = current + 1;
                            proof {
                                stack_trees = stack_trees.push(c1);
                                cur_tree = c0;
                            }
                        }
                        proof {
                            lemma_stack_count_push(old_trees, stack_trees.last());
                            assert(stack_trees =~= old_trees.push(stack_trees.last()));
                            lemma_walk_stack_push(nodes, old_stack, to_visit@.last(), dir, h);
                            assert(to_visit@ =~= old_stack.push(to_visit@.last()));
                            assert(whole == done + walk_leaves(nodes, current as int, dir, h) + walk_stack(nodes, to_visit@, dir, h));
                        }
                        pop_next = false;
                    },
                }
            } else {
                proof {
                    assert(done + walk_here =~= done);
                }
            }
            if pop_next {
                let ghost old_stack = to_visit@;
                let ghost old_trees = stack_trees;
                match to_visit.pop() {
                    Some(next) => {
                        current = next;
                        proof {
                            cur_tree = old_trees.last();
                            stack_trees = old_trees.drop_last();
                            assert(to_visit@ =~= old_stack.drop_last());
                            assert(flattened_at(nodes, old_stack[old_stack.len() - 1] as int, old_trees[old_trees.len() - 1]));
                        }
                    },
                    None => {
                        finished = true;
                    },
                }
            }
        }
        (hit, state)
    }
}

} // verus!
