//! The classical explicit Runge–Kutta (RK4) integrator: the fast,
//! non-rigorous reference that propagates a single point (the initial-box
//! center).

use vstd::prelude::*;

verus! {

/// RK4 on a single point. Holds a reference to the system.
pub struct Rk4<'a, S, const N: usize> {
    sys: &'a S,
}

impl<'a, S, const N: usize> Rk4<'a, S, N> {
    /// The system this integrator steps.
    pub closed spec fn system(&self) -> &'a S {
        self.sys
    }

    /// Build an RK4 integrator for `sys`.
    pub fn new(sys: &'a S) -> (r: Self)
        ensures
            r.system() == sys,
    {
        Rk4 { sys }
    }

    /// The system this integrator steps.
    pub fn sys(&self) -> (r: &'a S)
        ensures
            r == self.system(),
    {
        self.sys
    }

    /// Short label for reports and plots.
    pub fn label(&self) -> (r: String)
        ensures
            r@ == "RK4"@,
    {
        "RK4".to_owned()
    }

    /// RK4 yields an approximation, not a guaranteed enclosure.
    pub fn is_rigorous(&self) -> (r: bool)
        ensures
            !r,
    {
        false
    }
}

} // verus!
