//! The arithmetic that the engine asks of the values it differentiates.

use vstd::prelude::*;

verus! {

/// A value that can flow through a computation graph.
///
/// The engine never looks inside a value: it only combines values through the
/// operations below. Nothing is demanded of an implementation here; every
/// contract of the engine is stated relative to what the implementation's own
/// operations return, through the relations that follow the trait.
pub trait Scalar: Sized + Clone {
    /// The multiplicative identity in the shape of `self`.
    fn ones_like(&self) -> Self;

    /// The sum `self + other`.
    fn plus(&self, other: &Self) -> Self;

    /// The product `self * other`.
    fn times(&self, other: &Self) -> Self;

    /// The product `2 * self`.
    fn twice(&self) -> Self;

    /// The exponential of `self`.
    fn exp(&self) -> Self;
}

/// `r` is a result of `a.ones_like()`.
pub open spec fn is_ones_like<V: Scalar>(a: V, r: V) -> bool {
    call_ensures(V::ones_like, (&a,), r)
}

/// `r` is a result of `a.plus(&b)`.
pub open spec fn is_sum<V: Scalar>(a: V, b: V, r: V) -> bool {
    call_ensures(V::plus, (&a, &b), r)
}

/// `r` is a result of `a.times(&b)`.
pub open spec fn is_product<V: Scalar>(a: V, b: V, r: V) -> bool {
    call_ensures(V::times, (&a, &b), r)
}

/// `r` is a result of `a.twice()`.
pub open spec fn is_twice<V: Scalar>(a: V, r: V) -> bool {
    call_ensures(V::twice, (&a,), r)
}

/// `r` is a result of `a.exp()`.
pub open spec fn is_exp<V: Scalar>(a: V, r: V) -> bool {
    call_ensures(V::exp, (&a,), r)
}

/// Every operation of `V` is a function of its arguments: two calls on equal
/// arguments return equal values.
pub open spec fn deterministic<V: Scalar>() -> bool {
    &&& forall|a: V, r: V, s: V| #[trigger] is_ones_like(a, r)
        && #[trigger] is_ones_like(a, s) ==> r == s
    &&& forall|a: V, b: V, r: V, s: V| #[trigger] is_sum(a, b, r)
        && #[trigger] is_sum(a, b, s) ==> r == s
    &&& forall|a: V, b: V, r: V, s: V|
        #[trigger] is_product(a, b, r) && #[trigger] is_product(a, b, s) ==> r == s
    &&& forall|a: V, r: V, s: V| #[trigger] is_twice(a, r) && #[trigger] is_twice(a, s) ==> r == s
    &&& forall|a: V, r: V, s: V| #[trigger] is_exp(a, r) && #[trigger] is_exp(a, s) ==> r == s
    &&& forall|a: V, r: V, s: V| #[trigger] cloned(a, r) && #[trigger] cloned(a, s) ==> r == s
}

} // verus!
