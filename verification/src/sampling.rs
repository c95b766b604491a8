use vstd::prelude::*;

verus! {

/// How many rays a camera traces per pixel: a `root` × `root` grid of
/// samples, evenly spaced `1 / root` of a pixel apart.
#[derive(Clone, Copy, Debug)]
pub struct Supersampling {
    /// Samples per row and per column of the grid
    pub root: usize,
}

impl Supersampling {
    /// The grid sizes that `new` and `set` produce.
    pub open spec fn wf(&self) -> bool {
        1 <= self.root <= 256
    }

    /// One sample per pixel.
    pub fn new() -> (s: Supersampling)
        ensures
            s.root == 1,
            s.wf(),
    {
        Supersampling { root: 1 }
    }

    /// Total number of samples per pixel.
    pub fn num_samples(&self) -> (n: usize)
        requires
            self.wf(),
        ensures
            n == self.root * self.root,
    {
        proof {
            vstd::arithmetic::mul::lemma_mul_upper_bound(self.root as int, 256, self.root as int, 256);
        }
        self.root * self.root
    }

    /// A grid of `base + 1` samples per side: 0 gives 1 sample, 1 gives 4,
    /// 2 gives 9, and so on.
    pub fn set(&mut self, base: u8)
        requires
            base < 255,
        ensures
            final(self).root == base + 1,
            final(self).wf(),
    {
        self.root = base as usize + 1;
    }

    /// Slot of the sample in grid column `i`, row `j` among the pixel's
    /// samples.
    pub fn sample_index(&self, i: usize, j: usize) -> (idx: usize)
        requires
            self.wf(),
            i < self.root,
            j < self.root,
        ensures
            idx == i * self.root + j,
            idx < self.root * self.root,
    {
        proof {
            lemma_grid_slot(i as int, j as int, self.root as int);
            vstd::arithmetic::mul::lemma_mul_upper_bound(self.root as int, 256, self.root as int, 256);
        }
        i * self.root + j
    }
}

proof fn lemma_grid_slot(i: int, j: int, n: int)
    requires
        0 <= i < n,
        0 <= j < n,
    ensures
        0 <= i * n + j < n * n,
{
    vstd::arithmetic::mul::lemma_mul_inequality(i, n - 1, n);
    vstd::arithmetic::mul::lemma_mul_is_distributive_sub_other_way(n, n, 1);
    vstd::arithmetic::mul::lemma_mul_nonnegative(i, n);
}

/// The sample slots of a `n` × `n` grid are distinct: two grid cells share
/// a slot only if they are the same cell, and every slot lies below `n * n`.
pub proof fn sample_slots_distinct(n: int, i1: int, j1: int, i2: int, j2: int)
    requires
        0 <= i1 < n,
        0 <= j1 < n,
        0 <= i2 < n,
        0 <= j2 < n,
        i1 * n + j1 == i2 * n + j2,
    ensures
        i1 == i2,
        j1 == j2,
        0 <= i1 * n + j1 < n * n,
{
    lemma_grid_slot(i1, j1, n);
    if i1 < i2 {
        vstd::arithmetic::mul::lemma_mul_inequality(i1 + 1, i2, n);
        vstd::arithmetic::mul::lemma_mul_is_distributive_add_other_way(n, i1, 1);
    } else if i2 < i1 {
        vstd::arithmetic::mul::lemma_mul_inequality(i2 + 1, i1, n);
        vstd::arithmetic::mul::lemma_mul_is_distributive_add_other_way(n, i2, 1);
    }
}

/// `draws` are the sampler's results, in order, of one call of `next` that
/// returned `r`: each is a possible result of the sampler, every draw but the
/// last came back empty, and the last one is `r` (when `r` is empty, every
/// draw came back empty).
pub open spec fn light_draws<L, S: Fn() -> Option<L>>(sampler: S, draws: Seq<Option<L>>, r: Option<L>) -> bool {
    &&& forall|i: int| 0 <= i < draws.len() ==> call_ensures(sampler, (), #[trigger] draws[i])
    &&& forall|i: int| 0 <= i < draws.len() - 1 ==> (#[trigger] draws[i]) is None
    &&& r is Some ==> draws.len() >= 1 && draws.last() == r
    &&& r is None ==> forall|i: int| 0 <= i < draws.len() ==> (#[trigger] draws[i]) is None
}

/// Draws samples of a light until one is visible from the shaded point:
/// at most `remaining` more draws are made.
pub struct LightSampleIterator<S> {
    /// Draws one sample; `None` when the sample is not visible
    pub sampler: S,
    /// Number of samples remaining
    pub remaining: usize,
}

impl<S> LightSampleIterator<S> {
    pub fn new(sampler: S, samples: usize) -> (it: LightSampleIterator<S>)
        ensures
            it.sampler == sampler,
            it.remaining == samples,
    {
        LightSampleIterator { sampler, remaining: samples }
    }

    /// Draws samples until one is visible and returns it, using up one
    /// remaining draw per sample; `None` once the draws are used up.
    pub fn next<L>(&mut self) -> (r: Option<L>)
        where
            S: Fn() -> Option<L>,
        requires
            call_requires(old(self).sampler, ()),
        ensures
            final(self).sampler == old(self).sampler,
            final(self).remaining <= old(self).remaining,
            r is None ==> final(self).remaining == 0,
            exists|draws: Seq<Option<L>>| #[trigger] light_draws(old(self).sampler, draws, r)
                && draws.len() == old(self).remaining - final(self).remaining,
    {
        let ghost mut draws: Seq<Option<L>> = Seq::empty();
        while self.remaining > 0
            invariant
                self.sampler == old(self).sampler,
                self.remaining <= old(self).remaining,
                call_requires(self.sampler, ()),
                draws.len() == old(self).remaining - self.remaining,
                light_draws(self.sampler, draws, None),
            decreases self.remaining,
        {
            self.remaining = self.remaining - 1;
            let drawn = (self.sampler)();
            let ghost before = draws;
            proof {
                draws = draws.push(drawn);
                assert(draws.drop_last() =~= before);
            }
            match drawn {
                Some(light) => {
                    proof {
                        assert forall|i: int| 0 <= i < draws.len() - 1 implies (#[trigger] draws[i]) is None by {
                            assert(draws[i] == before[i]);
                        }
                        assert(light_draws(self.sampler, draws, Some(light)));
                    }
                    return Some(light);
                },
                None => {
                    proof {
                        assert forall|i: int| 0 <= i < draws.len() implies (#[trigger] draws[i]) is None by {
                            if i < before.len() {
                                assert(draws[i] == before[i]);
                            }
                        }
                    }
                },
            }
        }
        None
    }

    /// Bounds on the number of samples still to come.
    pub fn size_hint(&self) -> (r: (usize, Option<usize>))
        ensures
            r == (0usize, Some(self.remaining)),
    {
        (0, Some(self.remaining))
    }
}

} // verus!
