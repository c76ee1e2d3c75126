//! Integrators: the classical RK4 reference, and the verified Taylor-Model
//! step (its composition from the time series and its adaptive time
//! bisection schedule).

pub mod rk4;
pub mod taylor;

pub use rk4::Rk4;
pub use taylor::{
    adaptive_step, advance_series, coeff_k1_over_box, compose_step, init_state, state_bounds, step_with_remainder,
    StepAction, SubdivSchedule,
};
