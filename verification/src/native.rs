use vstd::prelude::*;

verus! {

/// A wrapper around a value of the library (for a language binding), which
/// hands out the wrapped value.
pub trait Native {
    type Output: Sized;

    /// The wrapped value.
    spec fn native(&self) -> Self::Output;

    fn into_native(self) -> (r: Self::Output)
        ensures
            r == self.native(),
    ;

    fn as_native(&self) -> (r: &Self::Output)
        ensures
            *r == self.native(),
    ;

    fn as_native_mut(&mut self) -> (r: &mut Self::Output)
        ensures
            *r == old(self).native(),
            final(self).native() == *final(r),
    ;
}

} // verus!
