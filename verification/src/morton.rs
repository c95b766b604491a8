use vstd::prelude::*;

verus! {

/// Places bit `k` of `v` at bit `3 * k`, for the ten lowest bits of `v`.
pub open spec fn spread10(v: u32) -> u32 {
    ((v & 0x001) << 0u32) | ((v & 0x002) << 2u32) | ((v & 0x004) << 4u32) | ((v & 0x008) << 6u32)
        | ((v & 0x010) << 8u32) | ((v & 0x020) << 10u32) | ((v & 0x040) << 12u32)
        | ((v & 0x080) << 14u32) | ((v & 0x100) << 16u32) | ((v & 0x200) << 18u32)
}

/// The value whose ten bits `left_shift_3` spreads: 1024 is clamped to 1023,
/// and bits 24 and 25 of a larger input fold onto bits 8 and 9.
pub open spec fn spread_source(x: u32) -> u32 {
    let c: u32 = if x == 1024 { 1023 } else { x };
    (c & 0x3ff) | ((c >> 16u32) & 0x300)
}

/// "Spreads" out the bottom 10 bits over the 32 bit range. The
/// lowest-significant bit stays in place, the next moves 3 spots ahead, the
/// next 6, etc.
///
/// Before: ----------------------abcdefghij
/// After:  ----a--b--c--d--e--f--g--h--i--j
pub fn left_shift_3(x: u32) -> (r: u32)
    ensures
        r == spread10(spread_source(x)),
        x <= 1024 ==> r == spread10(if x == 1024 { 1023u32 } else { x }),
        r & 0x09249249u32 == r,
{
    let mut x = x;
    if x == 1024 {
        x = x - 1;
    }
    let ghost c = x;
    x = (x | (x << 16u32)) & 0b00000011000000000000000011111111u32;
    let ghost s1 = x;
    x = (x | (x << 8u32)) & 0b00000011000000001111000000001111u32;
    let ghost s2 = x;
    x = (x | (x << 4u32)) & 0b00000011000011000011000011000011u32;
    let ghost s3 = x;
    x = (x | (x << 2u32)) & 0b00001001001001001001001001001001u32;
    assert(x == spread10((c & 0x3ff) | ((c >> 16u32) & 0x300))) by (bit_vector)
        requires
            s1 == (c | (c << 16u32)) & 0x030000FFu32,
            s2 == (s1 | (s1 << 8u32)) & 0x0300F00Fu32,
            s3 == (s2 | (s2 << 4u32)) & 0x030C30C3u32,
            x == (s3 | (s3 << 2u32)) & 0x09249249u32,
    ;
    assert(spread10((c & 0x3ff) | ((c >> 16u32) & 0x300)) & 0x09249249u32
        == spread10((c & 0x3ff) | ((c >> 16u32) & 0x300))) by (bit_vector);
    assert(c <= 1023 ==> (c & 0x3ff) | ((c >> 16u32) & 0x300) == c) by (bit_vector);
    x
}

} // verus!

verus! {

/// A primitive tagged with its Morton code, the unit that the radix sort and
/// the LBVH emission order.
#[derive(Clone, Copy, Debug)]
pub struct MortonPrimitive {
    pub index: usize,
    pub code: u32,
}

/// The 30 bits of a Morton code that the radix sort orders by.
pub open spec fn morton_key(code: u32) -> u32 {
    code & 0x3fff_ffffu32
}

/// The bits of `code` below bit `bits`.
pub open spec fn low_bits(code: u32, bits: u32) -> u32 {
    code & !(0xffff_ffffu32 << bits)
}

/// The radix digit of `code` that the pass starting at `lowbit` sorts on.
pub open spec fn radix_digit(code: u32, lowbit: u32) -> int {
    ((code >> lowbit) & 63u32) as int
}

/// `cur[i]` is the element `orig[perm[i]]` for every position.
pub open spec fn tracks(cur: Seq<MortonPrimitive>, orig: Seq<MortonPrimitive>, perm: Seq<int>) -> bool {
    &&& cur.len() == orig.len()
    &&& perm.len() == cur.len()
    &&& forall|i: int| 0 <= i < cur.len() ==> 0 <= #[trigger] perm[i] < orig.len() && cur[i] == orig[perm[i]]
}

/// Positions are strictly ordered by (the low `bits` bits of the code, the
/// position in the input).
pub open spec fn ordered_by_low(cur: Seq<MortonPrimitive>, perm: Seq<int>, bits: u32) -> bool {
    forall|i: int, j: int|
        #![trigger cur[i], cur[j]]
        0 <= i < j < cur.len() ==> {
            ||| low_bits(cur[i].code, bits) < low_bits(cur[j].code, bits)
            ||| (low_bits(cur[i].code, bits) == low_bits(cur[j].code, bits) && perm[i] < perm[j])
        }
}

/// `out` is `inp` stably sorted by `morton_key`, with `perm[i]` the position in
/// `inp` of `out[i]`. The order is strict on (key, position in the input), so
/// `perm` is one-to-one and `out` is a rearrangement of `inp`.
pub open spec fn stable_key_order(out: Seq<MortonPrimitive>, inp: Seq<MortonPrimitive>, perm: Seq<int>) -> bool {
    &&& tracks(out, inp, perm)
    &&& forall|i: int, j: int|
        #![trigger out[i], out[j]]
        0 <= i < j < out.len() ==> {
            ||| morton_key(out[i].code) < morton_key(out[j].code)
            ||| (morton_key(out[i].code) == morton_key(out[j].code) && perm[i] < perm[j])
        }
}

/// Number of the first `k` elements of `s` whose radix digit at `lowbit` is `d`.
pub open spec fn digit_count(s: Seq<MortonPrimitive>, lowbit: u32, d: int, k: int) -> nat
    decreases k,
{
    if k <= 0 {
        0
    } else {
        digit_count(s, lowbit, d, k - 1) + (if radix_digit(s[k - 1].code, lowbit) == d { 1nat } else { 0nat })
    }
}

/// Number of the first `k` elements of `s` whose radix digit is below `d`.
pub open spec fn digit_start(s: Seq<MortonPrimitive>, lowbit: u32, d: int, k: int) -> nat
    decreases d,
{
    if d <= 0 {
        0
    } else {
        digit_start(s, lowbit, d - 1, k) + digit_count(s, lowbit, d - 1, k)
    }
}

proof fn lemma_digit_range(c: u32, lowbit: u32)
    ensures
        0 <= radix_digit(c, lowbit) < 64,
{
    assert((c >> lowbit) & 63u32 <= 63u32) by (bit_vector);
}

proof fn lemma_digit_count_mono(s: Seq<MortonPrimitive>, lowbit: u32, d: int, i: int, k: int)
    requires
        0 <= i <= k,
    ensures
        digit_count(s, lowbit, d, i) <= digit_count(s, lowbit, d, k),
    decreases k - i,
{
    if i < k {
        lemma_digit_count_mono(s, lowbit, d, i, k - 1);
    }
}

proof fn lemma_digit_count_le(s: Seq<MortonPrimitive>, lowbit: u32, d: int, k: int)
    requires
        0 <= k,
    ensures
        digit_count(s, lowbit, d, k) <= k,
    decreases k,
{
    if k > 0 {
        lemma_digit_count_le(s, lowbit, d, k - 1);
    }
}

proof fn lemma_digit_start_step(s: Seq<MortonPrimitive>, lowbit: u32, d: int, k: int)
    requires
        0 <= k,
    ensures
        digit_start(s, lowbit, d, k + 1) == digit_start(s, lowbit, d, k)
            + (if 0 <= radix_digit(s[k].code, lowbit) < d { 1nat } else { 0nat }),
    decreases d,
{
    if d > 0 {
        lemma_digit_start_step(s, lowbit, d - 1, k);
        lemma_digit_range(s[k].code, lowbit);
    }
}

proof fn lemma_digit_start_zero(s: Seq<MortonPrimitive>, lowbit: u32, d: int)
    ensures
        digit_start(s, lowbit, d, 0) == 0,
    decreases d,
{
    if d > 0 {
        lemma_digit_start_zero(s, lowbit, d - 1);
    }
}

proof fn lemma_digit_start_total(s: Seq<MortonPrimitive>, lowbit: u32, k: int)
    requires
        0 <= k <= s.len(),
    ensures
        digit_start(s, lowbit, 64, k) == k,
    decreases k,
{
    lemma_digit_start_zero(s, lowbit, 64);
    if k > 0 {
        lemma_digit_start_total(s, lowbit, k - 1);
        lemma_digit_start_step(s, lowbit, 64, k - 1);
        lemma_digit_range(s[k - 1].code, lowbit);
        assert(k - 1 + 1 == k);
    }
}

proof fn lemma_digit_start_mono(s: Seq<MortonPrimitive>, lowbit: u32, d: int, e: int, k: int)
    requires
        0 <= d <= e,
    ensures
        digit_start(s, lowbit, d, k) <= digit_start(s, lowbit, e, k),
    decreases e - d,
{
    if d < e {
        lemma_digit_start_mono(s, lowbit, d, e - 1, k);
    }
}

proof fn lemma_bucket_end_bound(s: Seq<MortonPrimitive>, lowbit: u32, e: int, i: int)
    requires
        0 <= e < 64,
        0 <= i <= s.len(),
    ensures
        digit_start(s, lowbit, e, s.len() as int) + digit_count(s, lowbit, e, i) <= digit_start(s, lowbit, e + 1, s.len() as int),
        digit_start(s, lowbit, e + 1, s.len() as int) <= s.len(),
{
    let n = s.len() as int;
    lemma_digit_count_mono(s, lowbit, e, i, n);
    lemma_digit_start_mono(s, lowbit, e + 1, 64, n);
    lemma_digit_start_total(s, lowbit, n);
}

/// Every position below `digit_start(.., top, ..)` lies in the bucket of some digit below `top`.
proof fn lemma_find_bucket(s: Seq<MortonPrimitive>, lowbit: u32, q: int, top: int) -> (d: int)
    requires
        0 <= q < digit_start(s, lowbit, top, s.len() as int),
        0 <= top,
    ensures
        0 <= d < top,
        digit_start(s, lowbit, d, s.len() as int) <= q < digit_start(s, lowbit, d + 1, s.len() as int),
    decreases top,
{
    let n = s.len() as int;
    if q >= digit_start(s, lowbit, top - 1, n) {
        top - 1
    } else {
        lemma_find_bucket(s, lowbit, q, top - 1)
    }
}

proof fn lemma_low_bits_step(a: u32, b: u32, s: u32, t: u32)
    requires
        s <= 24,
        t == s + 6,
    ensures
        ((a >> s) & 63u32) < ((b >> s) & 63u32) ==> low_bits(a, t) < low_bits(b, t),
        ((a >> s) & 63u32) == ((b >> s) & 63u32) ==> (low_bits(a, t) < low_bits(b, t) <==> low_bits(a, s)
            < low_bits(b, s)),
        ((a >> s) & 63u32) == ((b >> s) & 63u32) ==> (low_bits(a, t) == low_bits(b, t) <==> low_bits(a, s)
            == low_bits(b, s)),
{
    assert(((a >> s) & 63u32) < ((b >> s) & 63u32) ==> (a & !(0xffff_ffffu32 << t)) < (b & !(0xffff_ffffu32 << t)))
        by (bit_vector)
        requires
            s <= 24,
            t == s + 6,
    ;
    assert(((a >> s) & 63u32) == ((b >> s) & 63u32) ==> ((a & !(0xffff_ffffu32 << t)) < (b & !(0xffff_ffffu32 << t))
        <==> (a & !(0xffff_ffffu32 << s)) < (b & !(0xffff_ffffu32 << s)))) by (bit_vector)
        requires
            s <= 24,
            t == s + 6,
    ;
    assert(((a >> s) & 63u32) == ((b >> s) & 63u32) ==> ((a & !(0xffff_ffffu32 << t)) == (b & !(0xffff_ffffu32 << t))
        <==> (a & !(0xffff_ffffu32 << s)) == (b & !(0xffff_ffffu32 << s)))) by (bit_vector)
        requires
            s <= 24,
            t == s + 6,
    ;
}

/// One stable counting-sort pass on the six-bit digit starting at `lowbit`.
fn radix_pass(input: &Vec<MortonPrimitive>, lowbit: u32, Ghost(orig): Ghost<Seq<MortonPrimitive>>, Ghost(perm): Ghost<Seq<int>>)
    -> (res: (Vec<MortonPrimitive>, Ghost<Seq<int>>))
    requires
        lowbit <= 24,
        tracks(input@, orig, perm),
        ordered_by_low(input@, perm, lowbit),
    ensures
        tracks(res.0@, orig, res.1@),
        ordered_by_low(res.0@, res.1@, (lowbit + 6) as u32),
{
    let n = input.len();
    let ghost s = input@;
    let mut bucket_count: Vec<usize> = vec![0usize; 64];
    let mut i: usize = 0;
    while i < n
        invariant
            n == input.len(),
            s == input@,
            lowbit <= 24,
            0 <= i <= n,
            bucket_count.len() == 64,
            forall|d: int| 0 <= d < 64 ==> #[trigger] bucket_count@[d] == digit_count(s, lowbit, d, i as int),
        decreases n - i,
    {
        let bucket = ((input[i].code >> lowbit) & 63u32) as usize;
        proof {
            lemma_digit_range(input@[i as int].code, lowbit);
            lemma_digit_count_mono(s, lowbit, bucket as int, i as int, n as int);
            lemma_digit_count_mono(s, lowbit, bucket as int, i + 1, n as int);
            lemma_digit_count_le(s, lowbit, bucket as int, n as int);
            assert(digit_count(s, lowbit, bucket as int, i + 1) == digit_count(s, lowbit, bucket as int, i as int) + 1);
        }
        let c = bucket_count[bucket];
        bucket_count.set(bucket, c + 1);
        i = i + 1;
    }
    let mut out_index: Vec<usize> = vec![0usize; 64];
    let mut b: usize = 1;
    while b < 64
        invariant
            n == input.len(),
            s == input@,
            1 <= b <= 64,
            bucket_count.len() == 64,
            out_index.len() == 64,
            forall|d: int| 0 <= d < 64 ==> #[trigger] bucket_count@[d] == digit_count(s, lowbit, d, n as int),
            forall|d: int| 0 <= d < b ==> #[trigger] out_index@[d] == digit_start(s, lowbit, d, n as int),
        decreases 64 - b,
    {
        proof {
            lemma_digit_start_mono(s, lowbit, b as int, 64, n as int);
            lemma_digit_start_total(s, lowbit, n as int);
        }
        let v = out_index[b - 1] + bucket_count[b - 1];
        out_index.set(b, v);
        b = b + 1;
    }
    let mut output: Vec<MortonPrimitive> = Vec::new();
    let mut k: usize = 0;
    while k < n
        invariant
            0 <= k <= n,
            n == input.len(),
            output.len() == k,
        decreases n - k,
    {
        output.push(MortonPrimitive { index: 0, code: 0 });
        k = k + 1;
    }
    let ghost mut src: Seq<int> = Seq::new(n as nat, |q: int| 0int);
    proof {
        lemma_digit_start_total(s, lowbit, n as int);
    }
    i = 0;
    while i < n
        invariant
            n == input.len(),
            s == input@,
            lowbit <= 24,
            0 <= i <= n,
            output.len() == n,
            src.len() == n,
            out_index.len() == 64,
            digit_start(s, lowbit, 64, n as int) == n,
            forall|d: int| 0 <= d < 64 ==> #[trigger] out_index@[d] == digit_start(s, lowbit, d, n as int) + digit_count(s, lowbit, d, i as int),
            forall|d: int, q: int|
                #![trigger out_index@[d], src[q]]
                0 <= d < 64 && digit_start(s, lowbit, d, n as int) <= q < out_index@[d] ==> {
                    &&& 0 <= src[q] < i
                    &&& radix_digit(s[src[q]].code, lowbit) == d
                    &&& output@[q] == s[src[q]]
                },
            forall|d: int, q1: int, q2: int|
                #![trigger out_index@[d], src[q1], src[q2]]
                0 <= d < 64 && digit_start(s, lowbit, d, n as int) <= q1 < q2 < out_index@[d] ==> src[q1] < src[q2],
        decreases n - i,
    {
        let mp = input[i];
        let bucket = ((mp.code >> lowbit) & 63u32) as usize;
        let ghost d = bucket as int;
        proof {
            lemma_digit_range(mp.code, lowbit);
            lemma_digit_count_mono(s, lowbit, d, i + 1, n as int);
            assert(digit_count(s, lowbit, d, i + 1) == digit_count(s, lowbit, d, i as int) + 1);
            assert(digit_start(s, lowbit, d + 1, n as int) == digit_start(s, lowbit, d, n as int) + digit_count(s, lowbit, d, n as int));
            lemma_digit_start_mono(s, lowbit, d + 1, 64, n as int);
        }
        let ghost old_oi = out_index@;
        let ghost old_src = src;
        let ghost old_out = output@;
        let pos = out_index[bucket];
        output.set(pos, mp);
        proof {
            src = src.update(pos as int, i as int);
        }
        out_index.set(bucket, pos + 1);
        proof {
            assert forall|e: int| 0 <= e < 64 implies #[trigger] out_index@[e] == digit_start(s, lowbit, e, n as int)
                + digit_count(s, lowbit, e, i + 1) by {
            }
            assert forall|e: int, q: int|
                #![trigger out_index@[e], src[q]]
                0 <= e < 64 && digit_start(s, lowbit, e, n as int) <= q < out_index@[e] implies {
                    &&& 0 <= src[q] < i + 1
                    &&& radix_digit(s[src[q]].code, lowbit) == e
                    &&& output@[q] == s[src[q]]
                } by {
                if q == pos as int {
                    if e < d {
                        lemma_digit_start_mono(s, lowbit, e + 1, d, n as int);
                        lemma_digit_count_mono(s, lowbit, e, i as int, n as int);
                        assert(digit_start(s, lowbit, e + 1, n as int) == digit_start(s, lowbit, e, n as int)
                            + digit_count(s, lowbit, e, n as int));
                        assert(false);
                    } else if e > d {
                        lemma_digit_start_mono(s, lowbit, d + 1, e, n as int);
                        assert(false);
                    } else {
                        assert(src[q] == i);
                        assert(output@[q] == mp);
                        assert(s[i as int] == mp);
                    }
                } else {
                    lemma_bucket_end_bound(s, lowbit, e, i + 1);
                    assert(q < old_oi[e]);
                    assert(0 <= old_src[q] < i);
                    assert(src[q] == old_src[q]);
                    assert(output@[q] == old_out[q]);
                }
            }
            assert forall|e: int, q1: int, q2: int|
                #![trigger out_index@[e], src[q1], src[q2]]
                0 <= e < 64 && digit_start(s, lowbit, e, n as int) <= q1 < q2 < out_index@[e] implies src[q1] < src[q2] by {
                if q2 == pos as int {
                    if e == d {
                        assert(q1 < old_oi[e]);
                        assert(0 <= old_src[q1] < i);
                    } else if e < d {
                        lemma_digit_start_mono(s, lowbit, e + 1, d, n as int);
                        lemma_digit_count_mono(s, lowbit, e, i as int, n as int);
                        assert(digit_start(s, lowbit, e + 1, n as int) == digit_start(s, lowbit, e, n as int)
                            + digit_count(s, lowbit, e, n as int));
                    } else {
                        lemma_digit_start_mono(s, lowbit, d + 1, e, n as int);
                    }
                } else if q1 == pos as int {
                    if e < d {
                        lemma_digit_start_mono(s, lowbit, e + 1, d, n as int);
                        lemma_digit_count_mono(s, lowbit, e, i as int, n as int);
                        assert(digit_start(s, lowbit, e + 1, n as int) == digit_start(s, lowbit, e, n as int)
                            + digit_count(s, lowbit, e, n as int));
                    } else if e > d {
                        lemma_digit_start_mono(s, lowbit, d + 1, e, n as int);
                    }
                } else {
                    lemma_bucket_end_bound(s, lowbit, e, i + 1);
                    assert(q2 < old_oi[e]);
                    assert(old_src[q1] < old_src[q2]);
                }
            }
        }
        i = i + 1;
    }
    // Every position lies in the filled part of some bucket.
    let ghost perm2 = Seq::new(n as nat, |q: int| perm[src[q]]);
    proof {
        assert forall|d: int| 0 <= d < 64 implies #[trigger] out_index@[d] == digit_start(s, lowbit, d + 1, n as int) by {
        }
        assert forall|q: int| 0 <= q < n implies {
            &&& 0 <= #[trigger] src[q] < n
            &&& output@[q] == s[src[q]]
        } by {
            let d = lemma_find_bucket(s, lowbit, q, 64);
            assert(out_index@[d] == digit_start(s, lowbit, d + 1, n as int));
        }
        assert(tracks(output@, orig, perm2));
        assert forall|q1: int, q2: int|
            #![trigger output@[q1], output@[q2]]
            0 <= q1 < q2 < output@.len() implies {
                ||| low_bits(output@[q1].code, (lowbit + 6) as u32) < low_bits(output@[q2].code, (lowbit + 6) as u32)
                ||| (low_bits(output@[q1].code, (lowbit + 6) as u32) == low_bits(output@[q2].code, (lowbit + 6) as u32)
                    && perm2[q1] < perm2[q2])
            } by {
            let d1 = lemma_find_bucket(s, lowbit, q1, 64);
            let d2 = lemma_find_bucket(s, lowbit, q2, 64);
            assert(out_index@[d1] == digit_start(s, lowbit, d1 + 1, n as int));
            assert(out_index@[d2] == digit_start(s, lowbit, d2 + 1, n as int));
            assert(0 <= src[q1] < n);
            assert(0 <= src[q2] < n);
            assert(radix_digit(output@[q1].code, lowbit) == d1);
            assert(radix_digit(output@[q2].code, lowbit) == d2);
            lemma_low_bits_step(output@[q1].code, output@[q2].code, lowbit, (lowbit + 6) as u32);
            if d1 > d2 {
                lemma_digit_start_mono(s, lowbit, d2 + 1, d1, n as int);
            } else if d1 == d2 {
                assert(src[q1] < src[q2]);
                let a = src[q1];
                let b = src[q2];
                assert(input@[a] == s[a]);
                assert(input@[b] == s[b]);
            }
        }
    }
    (output, Ghost(perm2))
}

/// Sorts the primitives by the low 30 bits of their Morton code with five
/// stable counting-sort passes of six bits each. Primitives with equal keys
/// keep their relative order.
pub fn radix_sort(v: &mut Vec<MortonPrimitive>)
    ensures
        exists|perm: Seq<int>| stable_key_order(final(v)@, old(v)@, perm),
{
    let ghost orig = v@;
    let mut cur: Vec<MortonPrimitive> = v.clone();
    proof {
        assert(cur@ == orig);
    }
    let ghost mut perm: Seq<int> = Seq::new(orig.len(), |i: int| i);
    proof {
        assert forall|i: int, j: int| #![trigger cur@[i], cur@[j]] 0 <= i < j < cur@.len() implies
            perm[i] < perm[j] && low_bits(cur@[i].code, 0) == low_bits(cur@[j].code, 0) by {
            let a = cur@[i].code;
            let b = cur@[j].code;
            assert(a & !(0xffff_ffffu32 << 0u32) == b & !(0xffff_ffffu32 << 0u32)) by (bit_vector);
        }
    }
    let mut pass: u32 = 0;
    while pass < 5
        invariant
            0 <= pass <= 5,
            tracks(cur@, orig, perm),
            ordered_by_low(cur@, perm, (pass * 6) as u32),
        decreases 5 - pass,
    {
        let (next, Ghost(next_perm)) = radix_pass(&cur, pass * 6, Ghost(orig), Ghost(perm));
        cur = next;
        proof {
            perm = next_perm;
            assert((pass + 1) * 6 == pass * 6 + 6);
        }
        pass = pass + 1;
    }
    proof {
        assert forall|c: u32| #[trigger] low_bits(c, 30) == morton_key(c) by {
            assert(c & !(0xffff_ffffu32 << 30u32) == c & 0x3fff_ffffu32) by (bit_vector);
        }
        assert(stable_key_order(cur@, orig, perm));
    }
    *v = cur;
}

} // verus!

verus! {

/// Interleaves the coordinates of a point scaled to `[0, 1024]` into a Morton
/// code: bit `3k` of the code is bit `k` of x, bit `3k + 1` bit `k` of y and
/// bit `3k + 2` bit `k` of z.
pub fn encode_morton_3(v: &[u32; 3]) -> (r: u32)
    ensures
        r == (spread10(spread_source(v[2])) << 2u32) | (spread10(spread_source(v[1])) << 1u32)
            | spread10(spread_source(v[0])),
        morton_key(r) == r,
{
    let z = left_shift_3(v[2]);
    let y = left_shift_3(v[1]);
    let x = left_shift_3(v[0]);
    let r = (z << 2u32) | (y << 1u32) | x;
    assert(((z << 2u32) | (y << 1u32) | x) & 0x3fff_ffffu32 == (z << 2u32) | (y << 1u32) | x) by (bit_vector)
        requires
            z & 0x09249249u32 == z,
            y & 0x09249249u32 == y,
            x & 0x09249249u32 == x,
    ;
    r
}

} // verus!
