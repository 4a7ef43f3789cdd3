//! Scalar arithmetic that neurons compute with.

use vstd::prelude::*;

verus! {

/// Scalar type of activations, weights and biases.
///
/// Every operation is a function of its operands alone.  Each executable
/// method has a specification function of the same name with the suffix
/// `_spec`, which stands for the value that the method returns; the network's
/// contracts are written over these.
///
/// The crate holds no implementation: callers bring their own, such as one
/// over `f32`, and give each specification function the body of its method.
/// What is proved of a network holds of such an implementation as far as its
/// methods return the same result whenever they are given the same operands;
/// nothing here checks that.  Of the arithmetic itself, such as the range of
/// the sigmoid, nothing is assumed and nothing is proved.
pub trait Numeric: Copy {
    /// The additive identity: the sum of no contributions.
    spec fn zero_spec() -> Self;

    /// The multiplicative identity: the weight of a plain connection.
    spec fn one_spec() -> Self;

    /// `self + rhs`.
    spec fn plus_spec(self, rhs: Self) -> Self;

    /// `self - rhs`.
    spec fn minus_spec(self, rhs: Self) -> Self;

    /// `self * rhs`.
    spec fn times_spec(self, rhs: Self) -> Self;

    /// The logistic function `1 / (1 + e^(-self))`.
    spec fn sigmoid_spec(self) -> Self;

    /// Returns the additive identity.
    fn zero() -> (r: Self)
        ensures
            r == Self::zero_spec(),
    ;

    /// Returns the multiplicative identity.
    fn one() -> (r: Self)
        ensures
            r == Self::one_spec(),
    ;

    /// Returns `self + rhs`.
    fn plus(self, rhs: Self) -> (r: Self)
        ensures
            r == self.plus_spec(rhs),
    ;

    /// Returns `self - rhs`.
    fn minus(self, rhs: Self) -> (r: Self)
        ensures
            r == self.minus_spec(rhs),
    ;

    /// Returns `self * rhs`.
    fn times(self, rhs: Self) -> (r: Self)
        ensures
            r == self.times_spec(rhs),
    ;

    /// Calculates the sigmoid function for the current numeric value.
    fn sigmoid(&self) -> (r: Self)
        ensures
            r == self.sigmoid_spec(),
    ;
}

} // verus!
