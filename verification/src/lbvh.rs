use vstd::prelude::*;
use crate::morton::{MortonPrimitive, morton_key, radix_sort, stable_key_order};
use crate::cover::covers;

verus! {

/// Content of a node of the BVH while it is being built: a leaf holds the
/// offset of its first primitive in the primitive order and the number of
/// primitives; an interior node holds its split axis and its two children.
#[verifier::reject_recursive_types(B)]
pub enum BVHNodeType<B> {
    Leaf(usize, usize),
    Interior(usize, Box<BVHBuildNode<B>>, Box<BVHBuildNode<B>>),
}

/// A BVH tree entry with the bounds `B` of everything below it.
#[verifier::reject_recursive_types(B)]
pub struct BVHBuildNode<B> {
    pub content: BVHNodeType<B>,
    pub bounds: B,
}

impl<B> BVHBuildNode<B> {
    /// Turns this node into a leaf over `n` primitives starting at offset
    /// `first` of the primitive order.
    pub fn init_leaf(&mut self, first: usize, n: usize, bounds: B)
        ensures
            final(self).content == BVHNodeType::<B>::Leaf(first, n),
            final(self).bounds == bounds,
    {
        self.content = BVHNodeType::Leaf(first, n);
        self.bounds = bounds;
    }

    /// Turns this node into an interior node split along `axis` over the two
    /// children; its bounds are the union of the children's bounds.
    pub fn init_interior<F: Fn(&B, &B) -> B>(
        &mut self,
        axis: usize,
        c0: Box<BVHBuildNode<B>>,
        c1: Box<BVHBuildNode<B>>,
        union: &F,
    )
        requires
            call_requires(*union, (&c0.bounds, &c1.bounds)),
        ensures
            final(self).content == BVHNodeType::<B>::Interior(axis, c0, c1),
            call_ensures(*union, (&c0.bounds, &c1.bounds), final(self).bounds),
    {
        let bounds = union(&c0.bounds, &c1.bounds);
        self.content = BVHNodeType::Interior(axis, c0, c1);
        self.bounds = bounds;
    }
}

/// Number of nodes in the tree below and including `node`.
pub open spec fn node_count<B>(node: BVHBuildNode<B>) -> nat
    decreases node,
{
    match node.content {
        BVHNodeType::Leaf(_, _) => 1,
        BVHNodeType::Interior(_, c0, c1) => 1 + node_count(*c0) + node_count(*c1),
    }
}

/// `partials` records a run of folding `f` over `items` from `acc` to `res`:
/// each step is a possible result of `f` on the previous value and the next item.
pub open spec fn fold_steps<B, F: Fn(&B, &B) -> B>(f: F, acc: B, items: Seq<B>, res: B, partials: Seq<B>) -> bool {
    &&& partials.len() == items.len() + 1
    &&& partials[0] == acc
    &&& partials[items.len() as int] == res
    &&& forall|i: int| 0 <= i < items.len() ==> call_ensures(f, (&partials[i], &items[i]), #[trigger] partials[i + 1])
}

/// `res` is a possible result of folding `f` over `items` starting from `acc`.
pub open spec fn union_fold<B, F: Fn(&B, &B) -> B>(f: F, acc: B, items: Seq<B>, res: B) -> bool {
    exists|partials: Seq<B>| fold_steps(f, acc, items, res, partials)
}

/// Whether bit `bit` of `code` is set.
pub open spec fn bit_of(code: u32, bit: int) -> bool {
    (code >> (bit as u32)) & 1u32 == 1u32
}

/// Within `ps`, keys are sorted and agree on every bit above `bit`.
pub open spec fn sorted_agreeing_above(ps: Seq<MortonPrimitive>, bit: int) -> bool {
    forall|i: int, j: int|
        #![trigger ps[i], ps[j]]
        0 <= i <= j < ps.len() ==> {
            &&& morton_key(ps[i].code) <= morton_key(ps[j].code)
            &&& morton_key(ps[i].code) >> ((bit + 1) as u32) == morton_key(ps[j].code) >> ((bit + 1) as u32)
        }
}

/// The position where bit `bit` of the codes switches from clear to set.
pub open spec fn lbvh_split(ps: Seq<MortonPrimitive>, bit: int) -> int {
    choose|q: int| #![trigger ps[q]] 0 < q < ps.len() && !bit_of(ps[q - 1].code, bit) && bit_of(ps[q].code, bit)
}

/// The bounds of the primitives `ps` (through their `index`) as given by `pb`.
pub open spec fn prim_bounds_of<B>(ps: Seq<MortonPrimitive>, pb: Seq<B>) -> Seq<B> {
    Seq::new(ps.len(), |i: int| pb[ps[i].index as int])
}

/// `node` is the LBVH subtree that `emit_lbvh` builds for the primitives `ps`
/// whose first one sits at offset `first` of the primitive order, starting at
/// bit `level - 1`: a leaf once the bits run out or fewer than `max`
/// primitives remain; otherwise, where the bit does not split the primitives
/// the next lower bit is tried, and where it does the node splits at the first
/// primitive with the bit set, on axis `bit % 3`. Leaf bounds fold `union`
/// over the primitives' bounds from `empty`; interior bounds are a union of
/// the children's bounds.
pub open spec fn lbvh_ok<B, F: Fn(&B, &B) -> B>(
    node: BVHBuildNode<B>,
    ps: Seq<MortonPrimitive>,
    first: int,
    level: nat,
    max: int,
    pb: Seq<B>,
    empty: B,
    union: F,
) -> bool
    decreases level,
{
    let bit = level - 1;
    if level == 0 || ps.len() < max {
        &&& node.content == BVHNodeType::<B>::Leaf(first as usize, ps.len() as usize)
        &&& union_fold(union, empty, prim_bounds_of(ps, pb), node.bounds)
    } else if bit_of(ps[0].code, bit) == bit_of(ps.last().code, bit) {
        lbvh_ok(node, ps, first, (level - 1) as nat, max, pb, empty, union)
    } else {
        let q = lbvh_split(ps, bit);
        &&& 0 < q < ps.len()
        &&& node.content matches BVHNodeType::Interior(axis, c0, c1)
        &&& axis == bit % 3
        &&& lbvh_ok(*c0, ps.take(q), first, (level - 1) as nat, max, pb, empty, union)
        &&& lbvh_ok(*c1, ps.skip(q), first + q, (level - 1) as nat, max, pb, empty, union)
        &&& call_ensures(union, (&c0.bounds, &c1.bounds), node.bounds)
    }
}

proof fn lemma_bit_mono(a: u32, c: u32, b: u32, t: u32)
    requires
        b < 30,
        t == b + 1,
        a & 0x3fff_ffffu32 <= c & 0x3fff_ffffu32,
        (a & 0x3fff_ffffu32) >> t == (c & 0x3fff_ffffu32) >> t,
        (a >> b) & 1u32 == 1u32,
    ensures
        (c >> b) & 1u32 == 1u32,
{
    assert((c >> b) & 1u32 == 1u32) by (bit_vector)
        requires
            b < 30,
            t == b + 1,
            a & 0x3fff_ffffu32 <= c & 0x3fff_ffffu32,
            (a & 0x3fff_ffffu32) >> t == (c & 0x3fff_ffffu32) >> t,
            (a >> b) & 1u32 == 1u32,
    ;
}

proof fn lemma_agree_lower(a: u32, c: u32, b: u32, t: u32)
    requires
        b < 30,
        t == b + 1,
        (a & 0x3fff_ffffu32) >> t == (c & 0x3fff_ffffu32) >> t,
        ((a >> b) & 1u32 == 1u32) == ((c >> b) & 1u32 == 1u32),
    ensures
        (a & 0x3fff_ffffu32) >> b == (c & 0x3fff_ffffu32) >> b,
{
    assert((a >> b) & 1u32 == (c >> b) & 1u32) by (bit_vector)
        requires
            ((a >> b) & 1u32 == 1u32) == ((c >> b) & 1u32 == 1u32),
    ;
    assert((a & 0x3fff_ffffu32) >> b == (c & 0x3fff_ffffu32) >> b) by (bit_vector)
        requires
            b < 30,
            t == b + 1,
            (a & 0x3fff_ffffu32) >> t == (c & 0x3fff_ffffu32) >> t,
            (a >> b) & 1u32 == (c >> b) & 1u32,
    ;
}

proof fn lemma_mask_bit(a: u32, c: u32, b: u32)
    requires
        b < 32,
    ensures
        (a & (1u32 << b) == c & (1u32 << b)) <==> (((a >> b) & 1u32 == 1u32) == ((c >> b) & 1u32 == 1u32)),
{
    assert((a & (1u32 << b) == c & (1u32 << b)) <==> (((a >> b) & 1u32 == 1u32) == ((c >> b) & 1u32 == 1u32))) by (bit_vector)
        requires
            b < 32,
    ;
}

/// Monotonicity of bit `bit` inside a slice sorted and agreeing above it.
proof fn lemma_slice_bit_mono(ps: Seq<MortonPrimitive>, bit: int, i: int, j: int)
    requires
        0 <= bit < 30,
        sorted_agreeing_above(ps, bit),
        0 <= i <= j < ps.len(),
        bit_of(ps[i].code, bit),
    ensures
        bit_of(ps[j].code, bit),
{
    let a = ps[i].code;
    let c = ps[j].code;
    assert(morton_key(a) <= morton_key(c));
    lemma_bit_mono(a, c, bit as u32, (bit + 1) as u32);
}

/// Both halves of a split (or the whole, when the bit is constant) agree on
/// every bit above `bit - 1`.
proof fn lemma_agree_at_lower(ps: Seq<MortonPrimitive>, bit: int)
    requires
        0 <= bit < 30,
        sorted_agreeing_above(ps, bit),
        forall|i: int, j: int| 0 <= i <= j < ps.len() ==> bit_of(#[trigger] ps[i].code, bit) == bit_of(#[trigger] ps[j].code, bit),
    ensures
        sorted_agreeing_above(ps, bit - 1),
{
    assert forall|i: int, j: int|
        #![trigger ps[i], ps[j]]
        0 <= i <= j < ps.len() implies {
            &&& morton_key(ps[i].code) <= morton_key(ps[j].code)
            &&& morton_key(ps[i].code) >> ((bit - 1 + 1) as u32) == morton_key(ps[j].code) >> ((bit - 1 + 1) as u32)
        } by {
        assert(bit_of(ps[i].code, bit) == bit_of(ps[j].code, bit));
        lemma_agree_lower(ps[i].code, ps[j].code, bit as u32, (bit + 1) as u32);
    }
}

/// Folds `union` over the bounds of the primitives in `prims[start .. start + n]`.
fn leaf_bounds<B: Copy, F: Fn(&B, &B) -> B>(
    prims: &Vec<MortonPrimitive>,
    start: usize,
    n: usize,
    prim_bounds: &Vec<B>,
    empty: B,
    union: &F,
) -> (r: B)
    requires
        start + n <= prims.len(),
        forall|i: int| start <= i < start + n ==> (#[trigger] prims@[i]).index < prim_bounds.len(),
        forall|a: &B, b: &B| call_requires(*union, (a, b)),
    ensures
        union_fold(*union, empty, prim_bounds_of(prims@.subrange(start as int, start + n), prim_bounds@), r),
{
    let ghost ps = prims@.subrange(start as int, start + n);
    let ghost all = prim_bounds_of(ps, prim_bounds@);
    let mut b = empty;
    let mut i: usize = 0;
    let ghost mut partials: Seq<B> = seq![empty];
    while i < n
        invariant
            0 <= i <= n,
            start + n <= prims.len(),
            ps == prims@.subrange(start as int, start + n),
            all == prim_bounds_of(ps, prim_bounds@),
            forall|k: int| start <= k < start + n ==> (#[trigger] prims@[k]).index < prim_bounds.len(),
            forall|a: &B, b: &B| call_requires(*union, (a, b)),
            partials.len() == i + 1,
            partials[0] == empty,
            partials[i as int] == b,
            forall|k: int| 0 <= k < i ==> call_ensures(*union, (&partials[k], &all[k]), #[trigger] partials[k + 1]),
        decreases n - i,
    {
        let idx = prims[start + i].index;
        let next = union(&b, &prim_bounds[idx]);
        proof {
            assert(all[i as int] == prim_bounds@[idx as int]);
            partials = partials.push(next);
        }
        b = next;
        i = i + 1;
    }
    proof {
        assert(fold_steps(*union, empty, all, b, partials));
    }
    b
}

/// Every bit at `bit` is the same across `ps` when the first and last agree.
proof fn lemma_constant_bit(ps: Seq<MortonPrimitive>, bit: int)
    requires
        0 <= bit < 30,
        ps.len() > 0,
        sorted_agreeing_above(ps, bit),
        bit_of(ps[0].code, bit) == bit_of(ps.last().code, bit),
    ensures
        forall|i: int, j: int| 0 <= i <= j < ps.len() ==> bit_of(#[trigger] ps[i].code, bit) == bit_of(#[trigger] ps[j].code, bit),
{
    let n = ps.len() as int;
    assert forall|i: int, j: int| 0 <= i <= j < ps.len() implies bit_of(#[trigger] ps[i].code, bit) == bit_of(#[trigger] ps[j].code, bit) by {
        if bit_of(ps[i].code, bit) {
            lemma_slice_bit_mono(ps, bit, i, j);
        } else if bit_of(ps[j].code, bit) {
            if bit_of(ps[0].code, bit) {
                lemma_slice_bit_mono(ps, bit, 0, i);
            } else {
                lemma_slice_bit_mono(ps, bit, j, n - 1);
            }
        }
    }
}

/// Sub-slices keep the ordering property.
proof fn lemma_sub_agreeing(ps: Seq<MortonPrimitive>, bit: int, a: int, b: int)
    requires
        sorted_agreeing_above(ps, bit),
        0 <= a <= b <= ps.len(),
    ensures
        sorted_agreeing_above(ps.subrange(a, b), bit),
{
    let sub = ps.subrange(a, b);
    assert forall|i: int, j: int|
        #![trigger sub[i], sub[j]]
        0 <= i <= j < sub.len() implies {
            &&& morton_key(sub[i].code) <= morton_key(sub[j].code)
            &&& morton_key(sub[i].code) >> ((bit + 1) as u32) == morton_key(sub[j].code) >> ((bit + 1) as u32)
        } by {
        assert(sub[i] == ps[a + i]);
        assert(sub[j] == ps[a + j]);
    }
}

/// Recursively emits the LBVH subtree for `prims[start .. start + nprims]`
/// starting at bit `bit_index`, recording the primitive order of its leaves
/// from `*ordered_prims_offset` on and counting the nodes it creates.
fn emit_lbvh<B: Copy, F: Fn(&B, &B) -> B>(
    prims: &Vec<MortonPrimitive>,
    start: usize,
    nprims: usize,
    prim_bounds: &Vec<B>,
    empty: B,
    union: &F,
    max_prims_per_node: u8,
    order: &mut Vec<usize>,
    total_nodes: &mut usize,
    ordered_prims_offset: &mut usize,
    bit_index: i32,
) -> (node: Box<BVHBuildNode<B>>)
    requires
        nprims >= 1,
        start + nprims <= prims.len(),
        -1 <= bit_index <= 29,
        sorted_agreeing_above(prims@.subrange(start as int, start + nprims), bit_index as int),
        forall|i: int| start <= i < start + nprims ==> (#[trigger] prims@[i]).index < prim_bounds.len(),
        forall|a: &B, b: &B| call_requires(*union, (a, b)),
        *old(ordered_prims_offset) + nprims <= old(order).len(),
        *old(total_nodes) + 2 * nprims <= usize::MAX,
    ensures
        lbvh_ok(*node, prims@.subrange(start as int, start + nprims), *old(ordered_prims_offset) as int,
            (bit_index + 1) as nat, max_prims_per_node as int, prim_bounds@, empty, *union),
        *final(ordered_prims_offset) == *old(ordered_prims_offset) + nprims,
        *final(total_nodes) == *old(total_nodes) + node_count(*node),
        node_count(*node) <= 2 * nprims - 1,
        final(order).len() == old(order).len(),
        forall|k: int| *old(ordered_prims_offset) <= k < *old(ordered_prims_offset) + nprims
            ==> #[trigger] final(order)@[k] == prims@[start + k - *old(ordered_prims_offset)].index,
        forall|k: int| 0 <= k < old(order).len() && !(*old(ordered_prims_offset) <= k < *old(ordered_prims_offset) + nprims)
            ==> #[trigger] final(order)@[k] == old(order)@[k],
    decreases bit_index + 1,
{
    let ghost ps = prims@.subrange(start as int, start + nprims);
    let ghost off0 = *ordered_prims_offset as int;
    if bit_index == -1 || nprims < max_prims_per_node as usize {
        // Create and return a leaf node of the LBVH treelet
        let first_prim_offset = *ordered_prims_offset;
        *ordered_prims_offset = first_prim_offset + nprims;
        *total_nodes = *total_nodes + 1;
        let bounds = leaf_bounds(prims, start, nprims, prim_bounds, empty, union);
        let mut i: usize = 0;
        let ghost order0 = order@;
        while i < nprims
            invariant
                0 <= i <= nprims,
                start + nprims <= prims.len(),
                first_prim_offset + nprims <= order.len(),
                order.len() == order0.len(),
                first_prim_offset == off0,
                forall|k: int| first_prim_offset <= k < first_prim_offset + i
                    ==> #[trigger] order@[k] == prims@[start + k - first_prim_offset].index,
                forall|k: int| 0 <= k < order0.len() && !(first_prim_offset <= k < first_prim_offset + i)
                    ==> #[trigger] order@[k] == order0[k],
            decreases nprims - i,
        {
            let idx = prims[start + i].index;
            order.set(first_prim_offset + i, idx);
            i = i + 1;
        }
        let mut node = BVHBuildNode { content: BVHNodeType::Leaf(0, 0), bounds: empty };
        node.init_leaf(first_prim_offset, nprims, bounds);
        return Box::new(node);
    }
    let bit: u32 = bit_index as u32;
    let mask: u32 = 1u32 << bit;
    proof {
        lemma_mask_bit(prims@[start as int].code, prims@[start + nprims - 1].code, bit);
        assert(ps[0] == prims@[start as int]);
        assert(ps.last() == prims@[start + nprims - 1]);
    }
    // Advance to next subtree level if there's no LBVH split for this bit
    if (prims[start].code & mask) == (prims[start + nprims - 1].code & mask) {
        proof {
            lemma_constant_bit(ps, bit as int);
            lemma_agree_at_lower(ps, bit as int);
        }
        return emit_lbvh(prims, start, nprims, prim_bounds, empty, union, max_prims_per_node,
            order, total_nodes, ordered_prims_offset, bit_index - 1);
    }
    proof {
        if bit_of(ps[0].code, bit as int) {
            lemma_slice_bit_mono(ps, bit as int, 0, nprims - 1);
        }
    }
    // Find LVBH split point for this dimension
    let mut search_start: usize = 0;
    let mut search_end: usize = nprims - 1;
    while search_start + 1 != search_end
        invariant
            0 <= search_start < search_end <= nprims - 1,
            2 * nprims <= usize::MAX,
            start + nprims <= prims.len(),
            bit < 30,
            mask == 1u32 << bit,
            ps == prims@.subrange(start as int, start + nprims),
            !bit_of(ps[search_start as int].code, bit as int),
            bit_of(ps[search_end as int].code, bit as int),
        decreases search_end - search_start,
    {
        let mid = (search_start + search_end) / 2;
        proof {
            lemma_mask_bit(prims@[start + search_start].code, prims@[start + mid].code, bit);
            assert(ps[search_start as int] == prims@[start + search_start]);
            assert(ps[mid as int] == prims@[start + mid]);
        }
        if (prims[start + search_start].code & mask) == (prims[start + mid].code & mask) {
            search_start = mid;
        } else {
            search_end = mid;
        }
    }
    let split_offset = search_end;
    proof {
        let q = split_offset as int;
        assert(0 < q < ps.len() && !bit_of(ps[q - 1].code, bit as int) && bit_of(ps[q].code, bit as int));
        let c = lbvh_split(ps, bit as int);
        if c < q {
            lemma_slice_bit_mono(ps, bit as int, c, q - 1);
        } else if c > q {
            lemma_slice_bit_mono(ps, bit as int, q, c - 1);
        }
        assert(c == q);
        // the two halves each have a constant bit
        let left = ps.take(q);
        let right = ps.skip(q);
        lemma_sub_agreeing(ps, bit as int, 0, q);
        lemma_sub_agreeing(ps, bit as int, q, ps.len() as int);
        assert(left =~= ps.subrange(0, q));
        assert(right =~= ps.subrange(q, ps.len() as int));
        assert forall|i: int, j: int| 0 <= i <= j < left.len() implies bit_of(#[trigger] left[i].code, bit as int)
            == bit_of(#[trigger] left[j].code, bit as int) by {
            if bit_of(left[i].code, bit as int) {
                lemma_slice_bit_mono(ps, bit as int, i, q - 1);
            }
            if bit_of(left[j].code, bit as int) {
                lemma_slice_bit_mono(ps, bit as int, j, q - 1);
            }
        }
        assert forall|i: int, j: int| 0 <= i <= j < right.len() implies bit_of(#[trigger] right[i].code, bit as int)
            == bit_of(#[trigger] right[j].code, bit as int) by {
            lemma_slice_bit_mono(ps, bit as int, q, q + i);
            lemma_slice_bit_mono(ps, bit as int, q, q + j);
        }
        lemma_agree_at_lower(left, bit as int);
        lemma_agree_at_lower(right, bit as int);
        assert(prims@.subrange(start as int, start + split_offset) =~= left);
        assert(prims@.subrange(start + split_offset, start + split_offset + (nprims - split_offset)) =~= right);
    }
    *total_nodes = *total_nodes + 1;
    // Create and return the interior LBVH node
    let lbvh0 = emit_lbvh(prims, start, split_offset, prim_bounds, empty, union, max_prims_per_node,
        order, total_nodes, ordered_prims_offset, bit_index - 1);
    let lbvh1 = emit_lbvh(prims, start + split_offset, nprims - split_offset, prim_bounds, empty, union,
        max_prims_per_node, order, total_nodes, ordered_prims_offset, bit_index - 1);
    let axis = (bit % 3) as usize;
    let mut node = BVHBuildNode { content: BVHNodeType::Leaf(0, 0), bounds: empty };
    node.init_interior(axis, lbvh0, lbvh1, union);
    Box::new(node)
}

/// Every interior node of `tree` has as bounds a union, by `union`, of its
/// children's bounds.
pub open spec fn unions_ok<B, F: Fn(&B, &B) -> B>(tree: BVHBuildNode<B>, union: F) -> bool
    decreases tree,
{
    match tree.content {
        BVHNodeType::Leaf(_, _) => true,
        BVHNodeType::Interior(_, c0, c1) => {
            &&& call_ensures(union, (&c0.bounds, &c1.bounds), tree.bounds)
            &&& unions_ok(*c0, union)
            &&& unions_ok(*c1, union)
        },
    }
}

/// The interior nodes of an LBVH subtree have the unions of their children's
/// bounds.
pub(crate) proof fn lemma_lbvh_unions<B, F: Fn(&B, &B) -> B>(
    node: BVHBuildNode<B>,
    ps: Seq<MortonPrimitive>,
    first: int,
    level: nat,
    max: int,
    pb: Seq<B>,
    empty: B,
    union: F,
)
    requires
        lbvh_ok(node, ps, first, level, max, pb, empty, union),
    ensures
        unions_ok(node, union),
    decreases level,
{
    let bit = level - 1;
    if level == 0 || ps.len() < max {
    } else if bit_of(ps[0].code, bit) == bit_of(ps.last().code, bit) {
        lemma_lbvh_unions(node, ps, first, (level - 1) as nat, max, pb, empty, union);
    } else {
        let q = lbvh_split(ps, bit);
        match node.content {
            BVHNodeType::Interior(_, c0, c1) => {
                lemma_lbvh_unions(*c0, ps.take(q), first, (level - 1) as nat, max, pb, empty, union);
                lemma_lbvh_unions(*c1, ps.skip(q), first + q, (level - 1) as nat, max, pb, empty, union);
            },
            BVHNodeType::Leaf(_, _) => {},
        }
    }
}


/// Every leaf `Leaf(first, n)` of `tree` covers primitives `first .. first + n`
/// of the order `sorted`, and its bounds fold `union` from `empty` over those
/// primitives' bounds `pb`.
pub open spec fn leaf_bounds_ok<B, F: Fn(&B, &B) -> B>(
    tree: BVHBuildNode<B>,
    sorted: Seq<MortonPrimitive>,
    pb: Seq<B>,
    empty: B,
    union: F,
) -> bool
    decreases tree,
{
    match tree.content {
        BVHNodeType::Leaf(first, n) => {
            &&& first + n <= sorted.len()
            &&& union_fold(union, empty, prim_bounds_of(sorted.subrange(first as int, first + n), pb), tree.bounds)
        },
        BVHNodeType::Interior(_, c0, c1) => {
            &&& leaf_bounds_ok(*c0, sorted, pb, empty, union)
            &&& leaf_bounds_ok(*c1, sorted, pb, empty, union)
        },
    }
}

/// The leaves of an LBVH subtree over a run of the primitive order have the
/// bounds of the primitives they cover.
#[verifier::spinoff_prover]
pub(crate) proof fn lemma_lbvh_leaf_bounds<B, F: Fn(&B, &B) -> B>(
    node: BVHBuildNode<B>,
    ps: Seq<MortonPrimitive>,
    first: int,
    level: nat,
    max: int,
    pb: Seq<B>,
    empty: B,
    union: F,
    sorted: Seq<MortonPrimitive>,
)
    requires
        lbvh_ok(node, ps, first, level, max, pb, empty, union),
        0 <= first,
        first + ps.len() <= sorted.len(),
        sorted.len() <= usize::MAX,
        ps == sorted.subrange(first, first + ps.len()),
    ensures
        leaf_bounds_ok(node, sorted, pb, empty, union),
    decreases level,
{
    let bit = level - 1;
    if level == 0 || ps.len() < max {
        lemma_leaf_node_bounds(node, ps, first, pb, empty, union, sorted);
    } else if bit_of(ps[0].code, bit) == bit_of(ps.last().code, bit) {
        lemma_lbvh_leaf_bounds(node, ps, first, (level - 1) as nat, max, pb, empty, union, sorted);
    } else {
        let q = lbvh_split(ps, bit);
        match node.content {
            BVHNodeType::Interior(_, c0, c1) => {
                lemma_run_halves(sorted, ps, first, q);
                lemma_lbvh_leaf_bounds(*c0, ps.take(q), first, (level - 1) as nat, max, pb, empty, union, sorted);
                lemma_lbvh_leaf_bounds(*c1, ps.skip(q), first + q, (level - 1) as nat, max, pb, empty, union, sorted);
            },
            BVHNodeType::Leaf(_, _) => {},
        }
    }
}

/// The two parts of a run of the primitive order are runs too.
proof fn lemma_run_halves(sorted: Seq<MortonPrimitive>, ps: Seq<MortonPrimitive>, first: int, q: int)
    requires
        0 <= first,
        0 <= q <= ps.len(),
        first + ps.len() <= sorted.len(),
        ps == sorted.subrange(first, first + ps.len()),
    ensures
        ps.take(q) == sorted.subrange(first, first + q),
        ps.skip(q) == sorted.subrange(first + q, first + ps.len()),
{
    assert(ps.take(q) =~= sorted.subrange(first, first + q));
    assert(ps.skip(q) =~= sorted.subrange(first + q, first + ps.len()));
}

proof fn lemma_leaf_node_bounds<B, F: Fn(&B, &B) -> B>(
    node: BVHBuildNode<B>,
    ps: Seq<MortonPrimitive>,
    first: int,
    pb: Seq<B>,
    empty: B,
    union: F,
    sorted: Seq<MortonPrimitive>,
)
    requires
        node.content == BVHNodeType::<B>::Leaf(first as usize, ps.len() as usize),
        union_fold(union, empty, prim_bounds_of(ps, pb), node.bounds),
        0 <= first,
        first + ps.len() <= sorted.len(),
        sorted.len() <= usize::MAX,
        ps == sorted.subrange(first, first + ps.len()),
    ensures
        leaf_bounds_ok(node, sorted, pb, empty, union),
{
    let f = first as usize;
    let n = ps.len() as usize;
    assert(f as int == first && n as int == ps.len());
    assert(sorted.subrange(f as int, f + n) == ps);
}

/// Every leaf `Leaf(first, n)` of `tree` holds fewer than `max` primitives,
/// or primitives at positions `first .. first + n` of `sorted` that all have
/// one Morton key.
pub open spec fn leaves_small_or_flat<B>(tree: BVHBuildNode<B>, sorted: Seq<MortonPrimitive>, max: int) -> bool
    decreases tree,
{
    match tree.content {
        BVHNodeType::Leaf(first, n) => n < max || forall|j: int|
            first <= j < first + n ==> #[trigger] morton_key(sorted[j].code) == morton_key(sorted[first as int].code),
        BVHNodeType::Interior(_, c0, c1) => leaves_small_or_flat(*c0, sorted, max) && leaves_small_or_flat(*c1, sorted, max),
    }
}

/// Where bit `bit` goes from clear at `lo` to set at `hi`, it switches at
/// some position in between.
proof fn lemma_transition(ps: Seq<MortonPrimitive>, bit: int, lo: int, hi: int)
    requires
        0 <= lo < hi < ps.len(),
        !bit_of(ps[lo].code, bit),
        bit_of(ps[hi].code, bit),
    ensures
        exists|q: int| #![trigger ps[q]] 0 < q < ps.len() && !bit_of(ps[q - 1].code, bit) && bit_of(ps[q].code, bit),
    decreases hi - lo,
{
    if bit_of(ps[lo + 1].code, bit) {
        assert(!bit_of(ps[(lo + 1) - 1].code, bit));
    } else {
        lemma_transition(ps, bit, lo + 1, hi);
    }
}

/// The leaves of an LBVH subtree over a run of the primitive order whose
/// keys are sorted and agree above bit `level - 1` hold fewer than `max`
/// primitives, or primitives of one key.
pub(crate) proof fn lemma_lbvh_flat<B, F: Fn(&B, &B) -> B>(
    node: BVHBuildNode<B>,
    ps: Seq<MortonPrimitive>,
    first: int,
    level: nat,
    max: int,
    pb: Seq<B>,
    empty: B,
    union: F,
    sorted: Seq<MortonPrimitive>,
)
    requires
        lbvh_ok(node, ps, first, level, max, pb, empty, union),
        level <= 18,
        ps.len() > 0,
        sorted_agreeing_above(ps, level - 1),
        0 <= first,
        first + ps.len() <= sorted.len(),
        sorted.len() <= usize::MAX,
        ps == sorted.subrange(first, first + ps.len()),
    ensures
        leaves_small_or_flat(node, sorted, max),
    decreases level,
{
    let bit = level - 1;
    if level == 0 || ps.len() < max {
        let f = first as usize;
        let n = ps.len() as usize;
        assert(f as int == first && n as int == ps.len());
        if ps.len() >= max {
            assert(forall|x: u32| x >> 0u32 == x) by (bit_vector);
            assert forall|j: int| f <= j < f + n implies #[trigger] morton_key(sorted[j].code) == morton_key(sorted[f as int].code) by {
                assert(sorted[j] == ps[j - first]);
                assert(sorted[f as int] == ps[0]);
                let a = ps[0];
                let c = ps[j - first];
                assert(morton_key(a.code) >> ((bit + 1) as u32) == morton_key(c.code) >> ((bit + 1) as u32));
            }
        }
    } else if bit_of(ps[0].code, bit) == bit_of(ps.last().code, bit) {
        lemma_constant_bit(ps, bit);
        lemma_agree_at_lower(ps, bit);
        lemma_lbvh_flat(node, ps, first, (level - 1) as nat, max, pb, empty, union, sorted);
    } else {
        let n = ps.len() as int;
        if bit_of(ps[0].code, bit) {
            lemma_slice_bit_mono(ps, bit, 0, n - 1);
        }
        lemma_transition(ps, bit, 0, n - 1);
        let q = lbvh_split(ps, bit);
        assert(0 < q < n && !bit_of(ps[q - 1].code, bit) && bit_of(ps[q].code, bit));
        let left = ps.take(q);
        let right = ps.skip(q);
        lemma_sub_agreeing(ps, bit, 0, q);
        lemma_sub_agreeing(ps, bit, q, n);
        assert(left =~= ps.subrange(0, q));
        assert(right =~= ps.subrange(q, n));
        assert forall|i: int, j: int| 0 <= i <= j < left.len() implies bit_of(#[trigger] left[i].code, bit)
            == bit_of(#[trigger] left[j].code, bit) by {
            if bit_of(left[i].code, bit) {
                lemma_slice_bit_mono(ps, bit, i, q - 1);
            }
            if bit_of(left[j].code, bit) {
                lemma_slice_bit_mono(ps, bit, j, q - 1);
            }
        }
        assert forall|i: int, j: int| 0 <= i <= j < right.len() implies bit_of(#[trigger] right[i].code, bit)
            == bit_of(#[trigger] right[j].code, bit) by {
            lemma_slice_bit_mono(ps, bit, q, q + i);
            lemma_slice_bit_mono(ps, bit, q, q + j);
        }
        lemma_agree_at_lower(left, bit);
        lemma_agree_at_lower(right, bit);
        lemma_run_halves(sorted, ps, first, q);
        match node.content {
            BVHNodeType::Interior(_, c0, c1) => {
                lemma_lbvh_flat(*c0, left, first, (level - 1) as nat, max, pb, empty, union, sorted);
                lemma_lbvh_flat(*c1, right, first + q, (level - 1) as nat, max, pb, empty, union, sorted);
            },
            BVHNodeType::Leaf(_, _) => {},
        }
    }
}

/// The bits 18 to 29 of a Morton code, on which primitives are grouped into
/// treelets.
pub open spec fn treelet_mask(code: u32) -> u32 {
    code & 0x3ffc_0000u32
}

/// Total number of nodes in a sequence of trees.
pub open spec fn forest_node_count<B>(ts: Seq<Box<BVHBuildNode<B>>>) -> nat
    decreases ts.len(),
{
    if ts.len() == 0 {
        0
    } else {
        forest_node_count(ts.drop_last()) + node_count(*ts.last())
    }
}

/// `ts` are the treelets of the sorted primitives `ps`: `starts` cuts `ps`
/// into maximal runs of equal treelet mask, and treelet `k` is the LBVH
/// emitted from bit 17 for run `k`, whose leaves start at offset `starts[k]`.
pub open spec fn treelets_ok<B, F: Fn(&B, &B) -> B>(
    ts: Seq<Box<BVHBuildNode<B>>>,
    ps: Seq<MortonPrimitive>,
    starts: Seq<int>,
    max: int,
    pb: Seq<B>,
    empty: B,
    union: F,
) -> bool {
    &&& starts.len() == ts.len() + 1
    &&& starts[0] == 0
    &&& starts[ts.len() as int] == ps.len()
    &&& forall|k: int| 0 <= k <= ts.len() ==> 0 <= #[trigger] starts[k] <= ps.len()
    &&& forall|k: int| 0 <= k < ts.len() ==> #[trigger] starts[k] < starts[k + 1]
    &&& forall|k: int, i: int|
        0 <= k < ts.len() && starts[k] <= i < starts[k + 1] ==> treelet_mask(#[trigger] ps[i].code)
            == treelet_mask(#[trigger] ps[starts[k]].code)
    &&& forall|k: int|
        0 <= k < ts.len() && starts[k + 1] < ps.len() ==> treelet_mask(ps[#[trigger] starts[k + 1]].code)
            != treelet_mask(ps[starts[k]].code)
    &&& forall|k: int|
        0 <= k < ts.len() ==> lbvh_ok(*#[trigger] ts[k], ps.subrange(starts[k], starts[k + 1]), starts[k], 18, max, pb,
            empty, union)
}

proof fn lemma_treelet_mask_key(a: u32, c: u32)
    requires
        a & 0x3ffc_0000u32 == c & 0x3ffc_0000u32,
    ensures
        (a & 0x3fff_ffffu32) >> 18u32 == (c & 0x3fff_ffffu32) >> 18u32,
{
    assert((a & 0x3fff_ffffu32) >> 18u32 == (c & 0x3fff_ffffu32) >> 18u32) by (bit_vector)
        requires
            a & 0x3ffc_0000u32 == c & 0x3ffc_0000u32,
    ;
}

proof fn lemma_forest_push<B>(ts: Seq<Box<BVHBuildNode<B>>>, t: Box<BVHBuildNode<B>>)
    ensures
        forest_node_count(ts.push(t)) == forest_node_count(ts) + node_count(*t),
{
    assert(ts.push(t).drop_last() =~= ts);
}

/// Sorts the primitives by Morton code and emits one LBVH treelet per run of
/// primitives that agree on the treelet mask (bits 18 to 29), each from bit
/// 17 down. Fills `order` with the primitive numbers in leaf order and adds
/// the number of nodes created to `total_nodes`.
pub fn build_treelets<B: Copy, F: Fn(&B, &B) -> B>(
    morton_prims: &mut Vec<MortonPrimitive>,
    prim_bounds: &Vec<B>,
    empty: B,
    union: &F,
    max_prims_per_node: u8,
    order: &mut Vec<usize>,
    total_nodes: &mut usize,
) -> (treelets: Vec<Box<BVHBuildNode<B>>>)
    requires
        old(order).len() == old(morton_prims).len(),
        forall|i: int| 0 <= i < old(morton_prims).len() ==> (#[trigger] old(morton_prims)@[i]).index < prim_bounds.len(),
        forall|a: &B, b: &B| call_requires(*union, (a, b)),
        *old(total_nodes) + 2 * old(morton_prims).len() <= usize::MAX,
    ensures
        exists|perm: Seq<int>| stable_key_order(final(morton_prims)@, old(morton_prims)@, perm),
        exists|starts: Seq<int>|
            treelets_ok(treelets@, final(morton_prims)@, starts, max_prims_per_node as int, prim_bounds@, empty, *union),
        final(order).len() == old(order).len(),
        forall|i: int| 0 <= i < final(order).len() ==> #[trigger] final(order)@[i] == final(morton_prims)@[i].index,
        *final(total_nodes) == *old(total_nodes) + forest_node_count(treelets@),
        forest_node_count(treelets@) <= 2 * old(morton_prims).len(),
        treelets@.len() <= old(morton_prims).len(),
        old(morton_prims).len() >= 1 ==> treelets@.len() >= 1,
{
    let ghost old_ps = morton_prims@;
    // Once sorted, primitives in opposite subdivisions of the vector are in
    // spatially different regions
    radix_sort(morton_prims);
    let ghost perm = choose|perm: Seq<int>| stable_key_order(morton_prims@, old_ps, perm);
    let ghost ps = morton_prims@;
    let n = morton_prims.len();
    proof {
        assert forall|i: int| 0 <= i < n implies (#[trigger] ps[i]).index < prim_bounds.len() by {
            assert(ps[i] == old_ps[perm[i]]);
        }
    }
    let mask: u32 = 0b00111111111111000000000000000000u32;
    let mut treelets: Vec<Box<BVHBuildNode<B>>> = Vec::new();
    let mut start: usize = 0;
    let mut ordered_prims_offset: usize = 0;
    let mut total: usize = 0;
    let ghost mut starts: Seq<int> = seq![0int];
    let mut end: usize = 1;
    while end <= n
        invariant
            n == morton_prims.len(),
            ps == morton_prims@,
            stable_key_order(ps, old_ps, perm),
            order.len() == n,
            *total_nodes + 2 * n <= usize::MAX,
            forall|i: int| 0 <= i < n ==> (#[trigger] ps[i]).index < prim_bounds.len(),
            forall|a: &B, b: &B| call_requires(*union, (a, b)),
            mask == 0x3ffc_0000u32,
            1 <= end <= n + 1,
            start < end,
            start <= n,
            end == n + 1 ==> start == n,
            ordered_prims_offset == start,
            total == forest_node_count(treelets@),
            total <= 2 * start,
            treelets.len() <= start,
            starts.len() == treelets.len() + 1,
            starts[0] == 0,
            starts[treelets.len() as int] == start,
            forall|k: int| 0 <= k <= treelets.len() ==> 0 <= #[trigger] starts[k] <= n,
            forall|k: int| 0 <= k < treelets.len() ==> #[trigger] starts[k] < starts[k + 1],
            forall|k: int, i: int|
                0 <= k < treelets.len() && starts[k] <= i < starts[k + 1] ==> treelet_mask(#[trigger] ps[i].code)
                    == treelet_mask(#[trigger] ps[starts[k]].code),
            forall|k: int|
                0 <= k < treelets.len() && starts[k + 1] < n ==> treelet_mask(ps[#[trigger] starts[k + 1]].code)
                    != treelet_mask(ps[starts[k]].code),
            forall|k: int|
                0 <= k < treelets.len() ==> lbvh_ok(*#[trigger] treelets@[k], ps.subrange(starts[k], starts[k + 1]), starts[k], 18,
                    max_prims_per_node as int, prim_bounds@, empty, *union),
            start < n ==> forall|i: int| start <= i < end ==> treelet_mask(#[trigger] ps[i].code) == treelet_mask(ps[start as int].code),
            forall|i: int| 0 <= i < start ==> #[trigger] order@[i] == ps[i].index,
        decreases n + 1 - end,
    {
        if end == n || (morton_prims[start].code & mask) != (morton_prims[end].code & mask) {
            // Add entry to treelets for this treelet
            let nprims = end - start;
            let mut nodes_created: usize = 0;
            let ghost sub = ps.subrange(start as int, end as int);
            proof {
                assert forall|i: int, j: int|
                    #![trigger sub[i], sub[j]]
                    0 <= i <= j < sub.len() implies {
                        &&& morton_key(sub[i].code) <= morton_key(sub[j].code)
                        &&& morton_key(sub[i].code) >> ((17 + 1) as u32) == morton_key(sub[j].code) >> ((17 + 1) as u32)
                    } by {
                    assert(sub[i] == ps[start + i]);
                    assert(sub[j] == ps[start + j]);
                    if i < j {
                        assert(morton_key(ps[start + i].code) <= morton_key(ps[start + j].code));
                    }
                    assert(treelet_mask(ps[start + i].code) == treelet_mask(ps[start as int].code));
                    assert(treelet_mask(ps[start + j].code) == treelet_mask(ps[start as int].code));
                    lemma_treelet_mask_key(ps[start + i].code, ps[start + j].code);
                }
            }
            let ghost order_before = order@;
            let node = emit_lbvh(morton_prims, start, nprims, prim_bounds, empty, union, max_prims_per_node,
                order, &mut nodes_created, &mut ordered_prims_offset, 17);
            proof {
                lemma_forest_push(treelets@, node);
                starts = starts.push(end as int);
                assert forall|i: int| 0 <= i < end implies #[trigger] order@[i] == ps[i].index by {
                    if i < start {
                        assert(order@[i] == order_before[i]);
                    }
                }
            }
            total = total + nodes_created;
            treelets.push(node);
            start = end;
        }
        end = end + 1;
    }
    *total_nodes = *total_nodes + total;
    proof {
        assert(treelets_ok(treelets@, ps, starts, max_prims_per_node as int, prim_bounds@, empty, *union));
    }
    treelets
}

/// The leaves of the LBVH treelets over the sorted primitives hold fewer
/// than `max` primitives, or primitives of one Morton key.
pub(crate) proof fn lemma_treelets_flat<B, F: Fn(&B, &B) -> B>(
    ts: Seq<Box<BVHBuildNode<B>>>,
    sorted: Seq<MortonPrimitive>,
    starts: Seq<int>,
    max: int,
    pb: Seq<B>,
    empty: B,
    union: F,
    input: Seq<MortonPrimitive>,
    perm: Seq<int>,
)
    requires
        treelets_ok(ts, sorted, starts, max, pb, empty, union),
        stable_key_order(sorted, input, perm),
        sorted.len() <= usize::MAX,
    ensures
        forall|k: int| 0 <= k < ts.len() ==> leaves_small_or_flat(*#[trigger] ts[k], sorted, max),
{
    assert forall|k: int| 0 <= k < ts.len() implies leaves_small_or_flat(*#[trigger] ts[k], sorted, max) by {
        let a = starts[k];
        let b = starts[k + 1];
        let ps = sorted.subrange(a, b);
        assert forall|i: int, j: int|
            #![trigger ps[i], ps[j]]
            0 <= i <= j < ps.len() implies {
                &&& morton_key(ps[i].code) <= morton_key(ps[j].code)
                &&& morton_key(ps[i].code) >> ((17int + 1) as u32) == morton_key(ps[j].code) >> ((17int + 1) as u32)
            } by {
            assert(ps[i] == sorted[a + i]);
            assert(ps[j] == sorted[a + j]);
            if i < j {
                assert(morton_key(sorted[a + i].code) < morton_key(sorted[a + j].code) || (morton_key(sorted[a + i].code)
                    == morton_key(sorted[a + j].code) && perm[a + i] < perm[a + j]));
            }
            assert(treelet_mask(sorted[a + i].code) == treelet_mask(sorted[a].code));
            assert(treelet_mask(sorted[a + j].code) == treelet_mask(sorted[a].code));
            lemma_treelet_mask_key(sorted[a + i].code, sorted[a + j].code);
        }
        assert(ps =~= sorted.subrange(a, a + ps.len()));
        lemma_lbvh_flat(*ts[k], ps, a, 18, max, pb, empty, union, sorted);
    }
}

/// The children `c0` and `c1` of a node split the node's primitives at bit
/// `b` of their Morton codes, taken through the sorted order `sorted`: both
/// hold primitives, those of `c0` have the bit clear and those of `c1` set,
/// and all of them agree on every bit above it.
pub open spec fn split_at_bit<B>(c0: BVHBuildNode<B>, c1: BVHBuildNode<B>, sorted: Seq<MortonPrimitive>, b: int) -> bool {
    &&& exists|j: int| #[trigger] covers(c0, j)
    &&& exists|j: int| #[trigger] covers(c1, j)
    &&& forall|j: int| #[trigger] covers(c0, j) ==> !bit_of(sorted[j].code, b)
    &&& forall|j: int| #[trigger] covers(c1, j) ==> bit_of(sorted[j].code, b)
    &&& forall|i: int, j: int|
        (covers(c0, i) || covers(c1, i)) && (covers(c0, j) || covers(c1, j)) ==> morton_key(#[trigger] sorted[i].code)
            >> ((b + 1) as u32) == morton_key(#[trigger] sorted[j].code) >> ((b + 1) as u32)
}

/// Every interior node of `tree` splits its primitives at some Morton bit
/// `b`, and its split axis is the coordinate that bit interleaves: bit `3k`
/// of a code is bit `k` of x (axis 0), bit `3k + 1` of y (axis 1), bit
/// `3k + 2` of z (axis 2).
pub open spec fn splits_on_coded_axis<B>(tree: BVHBuildNode<B>, sorted: Seq<MortonPrimitive>) -> bool
    decreases tree,
{
    match tree.content {
        BVHNodeType::Leaf(_, _) => true,
        BVHNodeType::Interior(axis, c0, c1) => {
            &&& exists|b: int| 0 <= b < 30 && #[trigger] split_at_bit(*c0, *c1, sorted, b) && axis == b % 3
            &&& splits_on_coded_axis(*c0, sorted)
            &&& splits_on_coded_axis(*c1, sorted)
        },
    }
}

/// An LBVH subtree over the run `first .. first + ps.len()` of the sorted
/// order holds the primitives of that run, starting with the first.
proof fn lemma_lbvh_covers<B, F: Fn(&B, &B) -> B>(
    node: BVHBuildNode<B>,
    ps: Seq<MortonPrimitive>,
    first: int,
    level: nat,
    max: int,
    pb: Seq<B>,
    empty: B,
    union: F,
)
    requires
        lbvh_ok(node, ps, first, level, max, pb, empty, union),
        ps.len() > 0,
        0 <= first,
        first + ps.len() <= usize::MAX,
    ensures
        covers(node, first),
        forall|j: int| #[trigger] covers(node, j) ==> first <= j < first + ps.len(),
    decreases level,
{
    let bit = level - 1;
    if level == 0 || ps.len() < max {
        assert((first as usize) as int == first && (ps.len() as usize) as int == ps.len());
        assert forall|j: int| #[trigger] covers(node, j) implies first <= j < first + ps.len() by {}
    } else if bit_of(ps[0].code, bit) == bit_of(ps.last().code, bit) {
        lemma_lbvh_covers(node, ps, first, (level - 1) as nat, max, pb, empty, union);
    } else {
        let q = lbvh_split(ps, bit);
        match node.content {
            BVHNodeType::Interior(_, c0, c1) => {
                lemma_lbvh_covers(*c0, ps.take(q), first, (level - 1) as nat, max, pb, empty, union);
                lemma_lbvh_covers(*c1, ps.skip(q), first + q, (level - 1) as nat, max, pb, empty, union);
                assert forall|j: int| #[trigger] covers(node, j) implies first <= j < first + ps.len() by {
                    if covers(*c0, j) {
                    } else {
                        assert(covers(*c1, j));
                    }
                }
            },
            BVHNodeType::Leaf(_, _) => {},
        }
    }
}

/// Every interior node of an LBVH subtree over a run of the primitive order
/// whose keys are sorted and agree above bit `level - 1` splits on the axis
/// of its split bit.
pub(crate) proof fn lemma_lbvh_coded_axis<B, F: Fn(&B, &B) -> B>(
    node: BVHBuildNode<B>,
    ps: Seq<MortonPrimitive>,
    first: int,
    level: nat,
    max: int,
    pb: Seq<B>,
    empty: B,
    union: F,
    sorted: Seq<MortonPrimitive>,
)
    requires
        lbvh_ok(node, ps, first, level, max, pb, empty, union),
        level <= 18,
        ps.len() > 0,
        sorted_agreeing_above(ps, level - 1),
        0 <= first,
        first + ps.len() <= sorted.len(),
        sorted.len() <= usize::MAX,
        ps == sorted.subrange(first, first + ps.len()),
    ensures
        splits_on_coded_axis(node, sorted),
    decreases level,
{
    let bit = level - 1;
    if level == 0 || ps.len() < max {
    } else if bit_of(ps[0].code, bit) == bit_of(ps.last().code, bit) {
        lemma_constant_bit(ps, bit);
        lemma_agree_at_lower(ps, bit);
        lemma_lbvh_coded_axis(node, ps, first, (level - 1) as nat, max, pb, empty, union, sorted);
    } else {
        let n = ps.len() as int;
        if bit_of(ps[0].code, bit) {
            lemma_slice_bit_mono(ps, bit, 0, n - 1);
        }
        lemma_transition(ps, bit, 0, n - 1);
        let q = lbvh_split(ps, bit);
        assert(0 < q < n && !bit_of(ps[q - 1].code, bit) && bit_of(ps[q].code, bit));
        let left = ps.take(q);
        let right = ps.skip(q);
        lemma_sub_agreeing(ps, bit, 0, q);
        lemma_sub_agreeing(ps, bit, q, n);
        assert(left =~= ps.subrange(0, q));
        assert(right =~= ps.subrange(q, n));
        assert forall|i: int, j: int| 0 <= i <= j < left.len() implies bit_of(#[trigger] left[i].code, bit)
            == bit_of(#[trigger] left[j].code, bit) by {
            if bit_of(left[i].code, bit) {
                lemma_slice_bit_mono(ps, bit, i, q - 1);
            }
            if bit_of(left[j].code, bit) {
                lemma_slice_bit_mono(ps, bit, j, q - 1);
            }
        }
        assert forall|i: int, j: int| 0 <= i <= j < right.len() implies bit_of(#[trigger] right[i].code, bit)
            == bit_of(#[trigger] right[j].code, bit) by {
            lemma_slice_bit_mono(ps, bit, q, q + i);
            lemma_slice_bit_mono(ps, bit, q, q + j);
        }
        lemma_agree_at_lower(left, bit);
        lemma_agree_at_lower(right, bit);
        lemma_run_halves(sorted, ps, first, q);
        match node.content {
            BVHNodeType::Interior(axis, c0, c1) => {
                lemma_lbvh_coded_axis(*c0, left, first, (level - 1) as nat, max, pb, empty, union, sorted);
                lemma_lbvh_coded_axis(*c1, right, first + q, (level - 1) as nat, max, pb, empty, union, sorted);
                lemma_lbvh_covers(*c0, left, first, (level - 1) as nat, max, pb, empty, union);
                lemma_lbvh_covers(*c1, right, first + q, (level - 1) as nat, max, pb, empty, union);
                assert forall|j: int| #[trigger] covers(*c0, j) implies !bit_of(sorted[j].code, bit) by {
                    assert(sorted[j] == ps[j - first]);
                    if bit_of(ps[j - first].code, bit) {
                        lemma_slice_bit_mono(ps, bit, j - first, q - 1);
                    }
                }
                assert forall|j: int| #[trigger] covers(*c1, j) implies bit_of(sorted[j].code, bit) by {
                    assert(sorted[j] == ps[j - first]);
                    lemma_slice_bit_mono(ps, bit, q, j - first);
                }
                assert forall|i: int, j: int|
                    (covers(*c0, i) || covers(*c1, i)) && (covers(*c0, j) || covers(*c1, j)) implies morton_key(
                    #[trigger] sorted[i].code,
                ) >> ((bit + 1) as u32) == morton_key(#[trigger] sorted[j].code) >> ((bit + 1) as u32) by {
                    assert(sorted[i] == ps[i - first]);
                    assert(sorted[j] == ps[j - first]);
                    let a = ps[i - first];
                    let c = ps[j - first];
                    if i <= j {
                        assert(morton_key(a.code) >> ((bit + 1) as u32) == morton_key(c.code) >> ((bit + 1) as u32));
                    } else {
                        assert(morton_key(c.code) >> ((bit + 1) as u32) == morton_key(a.code) >> ((bit + 1) as u32));
                    }
                }
                assert(covers(*c0, first) && covers(*c1, first + q));
                assert(split_at_bit(*c0, *c1, sorted, bit));
            },
            BVHNodeType::Leaf(_, _) => {},
        }
    }
}

/// The primitives of a run of equal treelet mask in the sorted order are
/// sorted by key and agree on every bit above bit 17.
proof fn lemma_treelet_run_agreeing<B, F: Fn(&B, &B) -> B>(
    ts: Seq<Box<BVHBuildNode<B>>>,
    sorted: Seq<MortonPrimitive>,
    starts: Seq<int>,
    max: int,
    pb: Seq<B>,
    empty: B,
    union: F,
    input: Seq<MortonPrimitive>,
    perm: Seq<int>,
    k: int,
)
    requires
        treelets_ok(ts, sorted, starts, max, pb, empty, union),
        stable_key_order(sorted, input, perm),
        0 <= k < ts.len(),
    ensures
        sorted_agreeing_above(sorted.subrange(starts[k], starts[k + 1]), 17),
{
    let a = starts[k];
    let ps = sorted.subrange(a, starts[k + 1]);
    assert forall|i: int, j: int|
        #![trigger ps[i], ps[j]]
        0 <= i <= j < ps.len() implies {
            &&& morton_key(ps[i].code) <= morton_key(ps[j].code)
            &&& morton_key(ps[i].code) >> ((17int + 1) as u32) == morton_key(ps[j].code) >> ((17int + 1) as u32)
        } by {
        assert(ps[i] == sorted[a + i]);
        assert(ps[j] == sorted[a + j]);
        if i < j {
            assert(morton_key(sorted[a + i].code) < morton_key(sorted[a + j].code) || (morton_key(sorted[a + i].code)
                == morton_key(sorted[a + j].code) && perm[a + i] < perm[a + j]));
        }
        assert(treelet_mask(sorted[a + i].code) == treelet_mask(sorted[a].code));
        assert(treelet_mask(sorted[a + j].code) == treelet_mask(sorted[a].code));
        lemma_treelet_mask_key(sorted[a + i].code, sorted[a + j].code);
    }
}

/// Every interior node of the LBVH treelets that `build_treelets` emits over
/// the sorted primitives splits on the axis of the coordinate that its split
/// bit interleaves.
pub proof fn treelets_split_on_coded_axes<B, F: Fn(&B, &B) -> B>(
    ts: Seq<Box<BVHBuildNode<B>>>,
    sorted: Seq<MortonPrimitive>,
    starts: Seq<int>,
    max: int,
    pb: Seq<B>,
    empty: B,
    union: F,
    input: Seq<MortonPrimitive>,
    perm: Seq<int>,
)
    requires
        treelets_ok(ts, sorted, starts, max, pb, empty, union),
        stable_key_order(sorted, input, perm),
        sorted.len() <= usize::MAX,
    ensures
        forall|k: int| 0 <= k < ts.len() ==> splits_on_coded_axis(*#[trigger] ts[k], sorted),
{
    assert forall|k: int| 0 <= k < ts.len() implies splits_on_coded_axis(*#[trigger] ts[k], sorted) by {
        lemma_treelet_run_agreeing(ts, sorted, starts, max, pb, empty, union, input, perm, k);
        let ps = sorted.subrange(starts[k], starts[k + 1]);
        assert(ps =~= sorted.subrange(starts[k], starts[k] + ps.len()));
        lemma_lbvh_coded_axis(*ts[k], ps, starts[k], 18, max, pb, empty, union, sorted);
    }
}

} // verus!
