use vstd::prelude::*;

verus! {

/// Classification flags of a scattering function, combined bitwise.
#[derive(Clone, Copy, Debug, PartialEq, Eq, Structural)]
pub struct BxDFType {
    pub bits: u32,
}

impl BxDFType {
    /// No flag.
    pub fn none() -> (r: BxDFType)
        ensures
            r.bits == 0,
    {
        BxDFType { bits: 0 }
    }

    /// Light is reflected.
    pub fn reflection() -> (r: BxDFType)
        ensures
            r.bits == 1,
    {
        BxDFType { bits: 1 }
    }

    /// Light is transmitted.
    pub fn transmission() -> (r: BxDFType)
        ensures
            r.bits == 2,
    {
        BxDFType { bits: 2 }
    }

    /// Diffuse scattering.
    pub fn diffuse() -> (r: BxDFType)
        ensures
            r.bits == 4,
    {
        BxDFType { bits: 4 }
    }

    /// Glossy scattering.
    pub fn glossy() -> (r: BxDFType)
        ensures
            r.bits == 8,
    {
        BxDFType { bits: 8 }
    }

    /// Perfectly specular scattering.
    pub fn specular() -> (r: BxDFType)
        ensures
            r.bits == 16,
    {
        BxDFType { bits: 16 }
    }

    /// Every flag.
    pub fn all() -> (r: BxDFType)
        ensures
            r.bits == 31,
    {
        BxDFType { bits: 31 }
    }

    /// Flags set in either.
    pub fn union(self, other: BxDFType) -> (r: BxDFType)
        ensures
            r.bits == self.bits | other.bits,
    {
        BxDFType { bits: self.bits | other.bits }
    }

    /// Flags set in both.
    pub fn intersection(self, other: BxDFType) -> (r: BxDFType)
        ensures
            r.bits == self.bits & other.bits,
    {
        BxDFType { bits: self.bits & other.bits }
    }

    /// The raw flag bits.
    pub fn bits(self) -> (r: u32)
        ensures
            r == self.bits,
    {
        self.bits
    }
}

/// Used for asymmetric BSDFs (involving reflection/refraction).
#[derive(Clone, Copy, Debug, PartialEq, Eq, Structural)]
pub enum TransportMode {
    Radiance,
    Importance,
}

/// The kinds of scattering function a material can be built from.
#[derive(Clone, Copy, Debug, PartialEq, Eq, Structural)]
pub enum BxDFKind {
    /// Where f always evaluates to the same thing. Used for backgrounds.
    Constant,
    /// With specular reflection.
    SpecularReflection,
    /// With specular transmission.
    SpecularTransmission,
    /// Combined specular reflection and transmission.
    Specular,
    /// Lambertian diffuse reflection.
    QuickDiffuse,
    /// Oren-Nayar diffuse reflection.
    Diffuse,
    /// Microfacet reflection.
    MicrofacetReflection,
    /// Microfacet transmission.
    MicrofacetTransmission,
}

/// The flags of each kind of scattering function (reflection 1,
/// transmission 2, diffuse 4, glossy 8, specular 16).
pub open spec fn kind_bits(kind: BxDFKind) -> u32 {
    match kind {
        BxDFKind::Constant => 0,
        BxDFKind::SpecularReflection => 17,
        BxDFKind::SpecularTransmission => 18,
        BxDFKind::Specular => 19,
        BxDFKind::QuickDiffuse => 5,
        BxDFKind::Diffuse => 5,
        BxDFKind::MicrofacetReflection => 9,
        BxDFKind::MicrofacetTransmission => 10,
    }
}

/// Every flag of `kind` is among `flags`.
pub open spec fn kind_matches(kind: BxDFKind, flags: u32) -> bool {
    kind_bits(kind) & flags == kind_bits(kind)
}

/// `kind` has at least one of `flags`.
pub open spec fn kind_has(kind: BxDFKind, flags: u32) -> bool {
    kind_bits(kind) & flags != 0
}

impl BxDFKind {
    /// Type flags of this kind of function.
    pub fn t(&self) -> (r: BxDFType)
        ensures
            r.bits == kind_bits(*self),
    {
        assert(1u32 | 16u32 == 17u32 && 2u32 | 16u32 == 18u32 && (1u32 | 2u32) | 16u32 == 19u32 && 1u32 | 4u32 == 5u32
            && 1u32 | 8u32 == 9u32 && 2u32 | 8u32 == 10u32) by (bit_vector);
        match self {
            BxDFKind::Constant => BxDFType::none(),
            BxDFKind::SpecularReflection => BxDFType::reflection().union(BxDFType::specular()),
            BxDFKind::SpecularTransmission => BxDFType::transmission().union(BxDFType::specular()),
            BxDFKind::Specular => BxDFType::reflection().union(BxDFType::transmission()).union(BxDFType::specular()),
            BxDFKind::QuickDiffuse => BxDFType::reflection().union(BxDFType::diffuse()),
            BxDFKind::Diffuse => BxDFType::reflection().union(BxDFType::diffuse()),
            BxDFKind::MicrofacetReflection => BxDFType::reflection().union(BxDFType::glossy()),
            BxDFKind::MicrofacetTransmission => BxDFType::transmission().union(BxDFType::glossy()),
        }
    }

    /// Whether all of this function's flags are among `flags`.
    pub fn matches(&self, flags: BxDFType) -> (r: bool)
        ensures
            r == kind_matches(*self, flags.bits),
    {
        let t = self.t();
        t.intersection(flags) == t
    }

    /// Whether this function has any of `flags`.
    pub fn has_t(&self, flags: BxDFType) -> (r: bool)
        ensures
            r == kind_has(*self, flags.bits),
    {
        self.t().intersection(flags) != BxDFType::none()
    }

    /// Whether this function contributes to light that is reflected
    /// (`reflect`) or else transmitted.
    pub fn contributes(&self, reflect: bool) -> (r: bool)
        ensures
            r == ((reflect && kind_has(*self, 1)) || (!reflect && kind_has(*self, 2))),
    {
        (reflect && self.has_t(BxDFType::reflection())) || (!reflect && self.has_t(BxDFType::transmission()))
    }
}

/// Which flag sets each kind of scattering function matches and meets, flag
/// by flag (reflection 1, transmission 2, diffuse 4, glossy 8, specular 16):
/// a kind matches a set exactly when the set holds each of the kind's flags,
/// and has one of a set exactly when the set holds one of them. A
/// background (`Constant`) has no flag; specular functions reflect and/or
/// transmit specularly, Lambertian and Oren-Nayar functions reflect
/// diffusely, and microfacet functions reflect or transmit glossily. In
/// particular a Lambertian function is matched and met by exactly the sets
/// that match and meet an Oren-Nayar one.
pub proof fn kinds_match_their_flags(f: u32)
    ensures
        kind_matches(BxDFKind::Constant, f),
        !kind_has(BxDFKind::Constant, f),
        kind_matches(BxDFKind::SpecularReflection, f) <==> f & 1 != 0 && f & 16 != 0,
        kind_has(BxDFKind::SpecularReflection, f) <==> f & 1 != 0 || f & 16 != 0,
        kind_matches(BxDFKind::SpecularTransmission, f) <==> f & 2 != 0 && f & 16 != 0,
        kind_has(BxDFKind::SpecularTransmission, f) <==> f & 2 != 0 || f & 16 != 0,
        kind_matches(BxDFKind::Specular, f) <==> f & 1 != 0 && f & 2 != 0 && f & 16 != 0,
        kind_has(BxDFKind::Specular, f) <==> f & 1 != 0 || f & 2 != 0 || f & 16 != 0,
        kind_matches(BxDFKind::QuickDiffuse, f) <==> f & 1 != 0 && f & 4 != 0,
        kind_has(BxDFKind::QuickDiffuse, f) <==> f & 1 != 0 || f & 4 != 0,
        kind_matches(BxDFKind::Diffuse, f) <==> f & 1 != 0 && f & 4 != 0,
        kind_has(BxDFKind::Diffuse, f) <==> f & 1 != 0 || f & 4 != 0,
        kind_matches(BxDFKind::MicrofacetReflection, f) <==> f & 1 != 0 && f & 8 != 0,
        kind_has(BxDFKind::MicrofacetReflection, f) <==> f & 1 != 0 || f & 8 != 0,
        kind_matches(BxDFKind::MicrofacetTransmission, f) <==> f & 2 != 0 && f & 8 != 0,
        kind_has(BxDFKind::MicrofacetTransmission, f) <==> f & 2 != 0 || f & 8 != 0,
        kind_matches(BxDFKind::QuickDiffuse, f) == kind_matches(BxDFKind::Diffuse, f),
        kind_has(BxDFKind::QuickDiffuse, f) == kind_has(BxDFKind::Diffuse, f),
{
    assert(0u32 & f == 0u32) by (bit_vector);
    assert((17u32 & f == 17u32) <==> f & 1 != 0 && f & 16 != 0) by (bit_vector);
    assert((17u32 & f != 0u32) <==> f & 1 != 0 || f & 16 != 0) by (bit_vector);
    assert((18u32 & f == 18u32) <==> f & 2 != 0 && f & 16 != 0) by (bit_vector);
    assert((18u32 & f != 0u32) <==> f & 2 != 0 || f & 16 != 0) by (bit_vector);
    assert((19u32 & f == 19u32) <==> f & 1 != 0 && f & 2 != 0 && f & 16 != 0) by (bit_vector);
    assert((19u32 & f != 0u32) <==> f & 1 != 0 || f & 2 != 0 || f & 16 != 0) by (bit_vector);
    assert((5u32 & f == 5u32) <==> f & 1 != 0 && f & 4 != 0) by (bit_vector);
    assert((5u32 & f != 0u32) <==> f & 1 != 0 || f & 4 != 0) by (bit_vector);
    assert((9u32 & f == 9u32) <==> f & 1 != 0 && f & 8 != 0) by (bit_vector);
    assert((9u32 & f != 0u32) <==> f & 1 != 0 || f & 8 != 0) by (bit_vector);
    assert((10u32 & f == 10u32) <==> f & 2 != 0 && f & 8 != 0) by (bit_vector);
    assert((10u32 & f != 0u32) <==> f & 2 != 0 || f & 8 != 0) by (bit_vector);
}

/// Every kind of function matches the full set of flags, and a kind with any
/// flag that matches a set also has one of them: a matching component is
/// selected by `has_t` over the same flags.
pub proof fn matching_kind_has_flags(kind: BxDFKind, flags: u32)
    ensures
        kind_matches(kind, 31),
        kind_matches(kind, flags) && kind != BxDFKind::Constant ==> kind_has(kind, flags),
        kind == BxDFKind::Constant ==> kind_matches(kind, flags) && !kind_has(kind, flags),
{
    let b = kind_bits(kind);
    assert(b & 31u32 == b) by (bit_vector)
        requires
            b == 0 || b == 17 || b == 18 || b == 19 || b == 5 || b == 9 || b == 10,
    ;
    assert(b & flags == b && b != 0 ==> b & flags != 0) by (bit_vector);
    assert(b == 0 ==> b & flags == b && b & flags == 0) by (bit_vector);
}

/// Most scattering functions one surface combines.
pub const MAX_BXDFS: usize = 8;

/// Number of the `kinds` that match `flags`.
pub open spec fn count_matching(kinds: Seq<BxDFKind>, flags: u32) -> nat
    decreases kinds.len(),
{
    if kinds.len() == 0 {
        0
    } else {
        count_matching(kinds.drop_last(), flags) + (if kind_matches(kinds.last(), flags) { 1nat } else { 0nat })
    }
}

/// `comp` clamped to the last of `m` matching components.
pub open spec fn clamp_pick(comp: int, m: int) -> int {
    if comp < m { comp } else { m - 1 }
}

/// The components of a BSDF: up to `MAX_BXDFS` scattering functions, each
/// with its kind.
pub struct BxDFs<T> {
    entries: Vec<(BxDFKind, T)>,
}

impl<T> BxDFs<T> {
    /// The kinds of the components, in order.
    pub closed spec fn kinds(&self) -> Seq<BxDFKind> {
        Seq::new(self.entries@.len(), |i: int| self.entries@[i].0)
    }

    /// The components, in order.
    pub closed spec fn items(&self) -> Seq<T> {
        Seq::new(self.entries@.len(), |i: int| self.entries@[i].1)
    }

    /// No component.
    pub fn new() -> (r: BxDFs<T>)
        ensures
            r.kinds().len() == 0,
            r.items().len() == 0,
    {
        BxDFs { entries: Vec::new() }
    }

    /// Adds a component of the given kind.
    pub fn add(&mut self, kind: BxDFKind, b: T)
        requires
            old(self).kinds().len() < MAX_BXDFS,
        ensures
            final(self).kinds() == old(self).kinds().push(kind),
            final(self).items() == old(self).items().push(b),
    {
        self.entries.push((kind, b));
        proof {
            assert(self.kinds() =~= old(self).kinds().push(kind));
            assert(self.items() =~= old(self).items().push(b));
        }
    }

    /// Number of components.
    pub fn num_components(&self) -> (r: usize)
        ensures
            r == self.kinds().len(),
    {
        self.entries.len()
    }

    /// The kind of component `i`.
    pub fn kind(&self, i: usize) -> (r: BxDFKind)
        requires
            i < self.kinds().len(),
        ensures
            r == self.kinds()[i as int],
    {
        self.entries[i].0
    }

    /// Component `i`.
    pub fn get(&self, i: usize) -> (r: &T)
        requires
            i < self.kinds().len(),
        ensures
            *r == self.items()[i as int],
    {
        &self.entries[i].1
    }

    /// Number of components whose flags are all among `flags`.
    pub fn num_matching_components(&self, flags: BxDFType) -> (r: usize)
        ensures
            r == count_matching(self.kinds(), flags.bits),
    {
        let mut count: usize = 0;
        let mut i: usize = 0;
        while i < self.entries.len()
            invariant
                0 <= i <= self.entries@.len(),
                count == count_matching(self.kinds().take(i as int), flags.bits),
                count <= i,
            decreases self.entries@.len() - i,
        {
            proof {
                assert(self.kinds().take(i + 1).drop_last() =~= self.kinds().take(i as int));
            }
            if self.entries[i].0.matches(flags) {
                count = count + 1;
            }
            i = i + 1;
        }
        proof {
            assert(self.kinds().take(i as int) =~= self.kinds());
        }
        count
    }

    /// Index of the component chosen to sample a direction for `flags`: the
    /// `comp`th of the matching components, counting from zero, with `comp`
    /// clamped to the last one. `None` if no component matches.
    pub fn pick_matching(&self, flags: BxDFType, comp: usize) -> (r: Option<usize>)
        ensures
            count_matching(self.kinds(), flags.bits) == 0 <==> r is None,
            r matches Some(i) ==> i < self.kinds().len() && kind_matches(self.kinds()[i as int], flags.bits)
                && count_matching(self.kinds().take(i as int), flags.bits) == clamp_pick(comp as int, count_matching(self.kinds(), flags.bits) as int),
    {
        let matching_comps = self.num_matching_components(flags);
        if matching_comps == 0 {
            return None;
        }
        let target = if comp < matching_comps { comp } else { matching_comps - 1 };
        let mut seen: usize = 0;
        let mut i: usize = 0;
        while i < self.entries.len()
            invariant
                0 <= i <= self.entries@.len(),
                matching_comps == count_matching(self.kinds(), flags.bits),
                target < matching_comps,
                target == clamp_pick(comp as int, matching_comps as int),
                seen == count_matching(self.kinds().take(i as int), flags.bits),
                seen <= target,
            decreases self.entries@.len() - i,
        {
            proof {
                assert(self.kinds().take(i + 1).drop_last() =~= self.kinds().take(i as int));
            }
            if self.entries[i].0.matches(flags) {
                if seen == target {
                    proof {
                        assert(self.kinds()[i as int] == self.entries@[i as int].0);
                    }
                    return Some(i);
                }
                seen = seen + 1;
            }
            i = i + 1;
        }
        proof {
            assert(self.kinds().take(i as int) =~= self.kinds());
        }
        None
    }
}

} // verus!
