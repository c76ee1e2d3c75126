//! Integrator-side items that carry no numerics: the marker tying an
//! integrator to the system it steps.

use vstd::prelude::*;

use crate::scalar::Scalar;
use crate::system::System;

verus! {

/// Marker that an integrator is tied to a particular system (documentation
/// aid; no methods). Most integrators simply hold `&S`.
pub trait ForSystem<S, A: Scalar, const N: usize> where S: System<A, N> {

}

} // verus!
