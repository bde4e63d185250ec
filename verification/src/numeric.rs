//! The arithmetic that the simulator consumes but does not define.
//!
//! Amplitudes and real numbers are supplied by the user of the library as two
//! types that implement [`Amplitude`] and [`Real`]. The library never looks
//! inside a value of either type: every number it produces is the result of one
//! of the operations below, and every contract in the crate says which
//! operation, applied to which operands, produced which value.

use vstd::prelude::*;

verus! {

/// Real numbers: probabilities, norms, angles and frequencies.
pub trait Real: Copy {
    /// The number zero.
    fn zero() -> Self;

    /// `self + rhs`.
    fn plus(&self, rhs: &Self) -> Self;

    /// `self - rhs`.
    fn minus(&self, rhs: &Self) -> Self;

    /// `self * self`.
    fn square(&self) -> Self;

    /// The non-negative square root of `self`.
    fn root(&self) -> Self;

    /// Whether `self < rhs`.
    fn less_than(&self, rhs: &Self) -> bool;

    /// `count / total`.
    fn ratio(count: usize, total: usize) -> Self;

    /// One draw from the uniform distribution on the half-open unit interval.
    fn draw() -> Self;

    /// `self` as a percentage, with two decimals and without the sign `%`.
    fn percent_text(&self) -> String;

    /// `self`, an angle in radians, in whole degrees.
    fn degrees_text(&self) -> String;
}

/// Complex amplitudes over the real numbers `Self::Real`.
pub trait Amplitude: Copy {
    type Real: Real;

    /// The amplitude zero.
    fn zero() -> Self;

    /// The amplitude one.
    fn one() -> Self;

    /// `self + rhs`.
    fn plus(&self, rhs: &Self) -> Self;

    /// `self * rhs`.
    fn times(&self, rhs: &Self) -> Self;

    /// `-self`.
    fn negated(&self) -> Self;

    /// The complex conjugate of `self`.
    fn conjugate(&self) -> Self;

    /// The squared magnitude of `self`.
    fn norm_sqr(&self) -> Self::Real;

    /// `self / divisor`, for a real divisor.
    fn over(&self, divisor: &Self::Real) -> Self;

    /// Whether `self` and `rhs` are the same number.
    fn same(&self, rhs: &Self) -> bool;

    /// The spinor of a basis rotated by `angle`: the sine and the cosine of
    /// half the angle, in this order, each as an amplitude.
    fn spinor(angle: &Self::Real) -> (Self, Self);

    /// The real and the imaginary part of `self`, in this order, each with
    /// three decimals.
    fn parts_text(&self) -> (String, String);
}

/// `r` is a value that [`Real::zero`] returns.
pub open spec fn real_zero<R: Real>(r: R) -> bool {
    call_ensures(R::zero, (), r)
}

/// `r` is a value that [`Real::plus`] returns for `a + b`.
pub open spec fn real_sum<R: Real>(a: R, b: R, r: R) -> bool {
    call_ensures(R::plus, (&a, &b), r)
}

/// `r` is a value that [`Real::minus`] returns for `a - b`.
pub open spec fn real_difference<R: Real>(a: R, b: R, r: R) -> bool {
    call_ensures(R::minus, (&a, &b), r)
}

/// `r` is a value that [`Real::square`] returns for `a`.
pub open spec fn real_square<R: Real>(a: R, r: R) -> bool {
    call_ensures(R::square, (&a,), r)
}

/// `r` is a value that [`Real::root`] returns for `a`.
pub open spec fn real_root<R: Real>(a: R, r: R) -> bool {
    call_ensures(R::root, (&a,), r)
}

/// `r` is an answer that [`Real::less_than`] gives to `a < b`.
pub open spec fn real_less<R: Real>(a: R, b: R, r: bool) -> bool {
    call_ensures(R::less_than, (&a, &b), r)
}

/// `r` is a value that [`Real::ratio`] returns for `count / total`.
pub open spec fn real_ratio<R: Real>(count: usize, total: usize, r: R) -> bool {
    call_ensures(R::ratio, (count, total), r)
}

/// `r` is a value that [`Real::draw`] returns.
pub open spec fn real_draw<R: Real>(r: R) -> bool {
    call_ensures(R::draw, (), r)
}

/// `text` is what [`Real::percent_text`] writes for `r`.
pub open spec fn real_percent_text<R: Real>(r: R, text: Seq<char>) -> bool {
    exists|s: String| #[trigger] call_ensures(R::percent_text, (&r,), s) && s@ == text
}

/// `text` is what [`Real::degrees_text`] writes for `r`.
pub open spec fn real_degrees_text<R: Real>(r: R, text: Seq<char>) -> bool {
    exists|s: String| #[trigger] call_ensures(R::degrees_text, (&r,), s) && s@ == text
}

/// `z` is a value that [`Amplitude::zero`] returns.
pub open spec fn amp_zero<A: Amplitude>(z: A) -> bool {
    call_ensures(A::zero, (), z)
}

/// `z` is a value that [`Amplitude::one`] returns.
pub open spec fn amp_one<A: Amplitude>(z: A) -> bool {
    call_ensures(A::one, (), z)
}

/// `r` is a value that [`Amplitude::plus`] returns for `a + b`.
pub open spec fn amp_sum<A: Amplitude>(a: A, b: A, r: A) -> bool {
    call_ensures(A::plus, (&a, &b), r)
}

/// `r` is a value that [`Amplitude::times`] returns for `a * b`.
pub open spec fn amp_product<A: Amplitude>(a: A, b: A, r: A) -> bool {
    call_ensures(A::times, (&a, &b), r)
}

/// `r` is a value that [`Amplitude::negated`] returns for `a`.
pub open spec fn amp_negation<A: Amplitude>(a: A, r: A) -> bool {
    call_ensures(A::negated, (&a,), r)
}

/// `r` is a value that [`Amplitude::conjugate`] returns for `a`.
pub open spec fn amp_conjugate<A: Amplitude>(a: A, r: A) -> bool {
    call_ensures(A::conjugate, (&a,), r)
}

/// `r` is a value that [`Amplitude::norm_sqr`] returns for `a`.
pub open spec fn amp_norm_sqr<A: Amplitude>(a: A, r: A::Real) -> bool {
    call_ensures(A::norm_sqr, (&a,), r)
}

/// `r` is a value that [`Amplitude::over`] returns for `a / d`.
pub open spec fn amp_quotient<A: Amplitude>(a: A, d: A::Real, r: A) -> bool {
    call_ensures(A::over, (&a, &d), r)
}

/// `r` is an answer that [`Amplitude::same`] gives to `a == b`.
pub open spec fn amp_same<A: Amplitude>(a: A, b: A, r: bool) -> bool {
    call_ensures(A::same, (&a, &b), r)
}

/// `r` is a pair that [`Amplitude::spinor`] returns for `angle`.
pub open spec fn amp_spinor<A: Amplitude>(angle: A::Real, r: (A, A)) -> bool {
    call_ensures(A::spinor, (&angle,), r)
}

/// `re` and `im` are what [`Amplitude::parts_text`] writes for `a`.
pub open spec fn amp_parts_text<A: Amplitude>(a: A, re: Seq<char>, im: Seq<char>) -> bool {
    exists|s: (String, String)|
        #[trigger] call_ensures(A::parts_text, (&a,), s) && s.0@ == re && s.1@ == im
}

} // verus!
