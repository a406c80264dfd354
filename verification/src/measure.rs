use vstd::prelude::*;

verus! {

/// An associative aggregation with an identity element: the monoid that every
/// element of a measured sequence projects into. Implementors must prove the
/// identity and associativity laws, and supply executable `zero` and `combine`
/// that agree with the specification-level operations.
pub trait Measure: Sized + Copy {
    /// The identity element.
    spec fn spec_zero() -> Self;

    /// The combining operation, as a total mathematical function.
    spec fn spec_combine(self, other: Self) -> Self;

    /// The identity laws: combining with the zero element changes nothing.
    proof fn lemma_zero_identity(x: Self)
        ensures
            Self::spec_zero().spec_combine(x) == x,
            x.spec_combine(Self::spec_zero()) == x,
    ;

    /// The associativity law: grouping of combinations does not matter.
    proof fn lemma_combine_associative(x: Self, y: Self, z: Self)
        ensures
            x.spec_combine(y).spec_combine(z) == x.spec_combine(y.spec_combine(z)),
    ;

    fn zero() -> (r: Self)
        ensures
            r == Self::spec_zero(),
    ;

    fn combine(&self, other: &Self) -> (r: Self)
        ensures
            r == self.spec_combine(*other),
    ;
}

/// An element type together with a total derivation of a measure from it.
pub trait Measured<M: Measure>: Sized {
    spec fn spec_measure(self) -> M;

    fn measure(&self) -> (r: M)
        ensures
            r == self.spec_measure(),
    ;
}

/// A predicate over measures, used by `split` to locate the boundary element
/// at which the predicate over the running prefix measure flips to true.
pub trait MeasurePredicate<M: Measure>: Sized {
    spec fn spec_test(self, m: M) -> bool;

    fn test(&self, m: &M) -> (b: bool)
        ensures
            b == self.spec_test(*m),
    ;
}

} // verus!
