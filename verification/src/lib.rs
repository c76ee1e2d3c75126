//! tmflow: modular ODE flow propagation over a generic scalar algebra.
//!
//! A vector field `x' = f(x)` is written once against the [`Scalar`]
//! algebra ([`System`]) and evaluated in whichever algebra implements it.
//! This crate holds the verified core:
//!
//! * [`Jet`]: truncated time-power series, itself a [`Scalar`] (Cauchy
//!   product), and [`time_series`], the automatic time-Taylor expansion of
//!   any system;
//! * [`Poly`] and [`TaylorModel`]: sparse multivariate polynomials and
//!   Taylor Models over an enclosure algebra ([`Coefficient`]), with
//!   truncation at the model's order and remainder propagation;
//! * [`integrators`]: the composition of a verified Taylor-Model step from
//!   the time series, the bound on its Lagrange remainder factor, its
//!   adaptive bisection schedule, and the RK4 handle.
//!
//! Every operation states, over mathematical models of its operands, which
//! combination of coefficient operations it performs.

pub mod integrator;
pub mod integrators;
pub mod jet;
pub mod poly;
pub mod scalar;
pub mod system;
pub mod taylor_model;

pub use integrator::ForSystem;
pub use integrators::{Rk4, StepAction, SubdivSchedule};
pub use jet::{time_series, Jet};
pub use poly::{Coefficient, Poly};
pub use scalar::Scalar;
pub use system::System;
pub use taylor_model::TaylorModel;
