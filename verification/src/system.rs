//! The [`System`] trait: an autonomous ODE vector field `x' = f(x)` on `R^N`,
//! evaluated in a [`Scalar`] algebra.

use vstd::prelude::*;

use crate::scalar::Scalar;

verus! {

/// An autonomous ODE vector field `x' = f(x)` on `R^N`, evaluated in the
/// [`Scalar`] algebra `A`.
///
/// Implementors write `eval` once over the algebra's operations. An
/// implementation verified against a mathematical description of its field
/// states it in `field` and sets `obeys_field_spec`; otherwise nothing is
/// claimed of `eval` beyond well-formedness.
pub trait System<A: Scalar, const N: usize> {
    /// Whether `field` describes what `eval` computes.
    open spec fn obeys_field_spec() -> bool {
        false
    }

    /// The field `f` on models.
    open spec fn field(&self, x: Seq<A::Model>) -> Seq<A::Model> {
        arbitrary()
    }

    /// Evaluate the field `f(x)`.
    fn eval(&self, x: &[A; N]) -> (r: [A; N])
        requires
            forall|i: int| 0 <= i < N ==> #[trigger] x@[i].wf(),
        ensures
            forall|i: int| 0 <= i < N ==> #[trigger] r@[i].wf(),
            Self::obeys_field_spec() ==> r@.map_values(|v: A| v.model()) == self.field(
                x@.map_values(|v: A| v.model()),
            ),
    ;

    /// Human-readable name (for reports and plots); `"system"` unless the
    /// implementor names its field.
    fn name(&self) -> (r: &str)
        default_ensures
            r@ == "system"@,
    {
        "system"
    }

    /// Dimension `N`.
    fn dim(&self) -> (r: usize)
        ensures
            r == N,
    {
        N
    }
}

} // verus!
