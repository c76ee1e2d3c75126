# tmflow

Modular ODE flow propagation with swappable integrators: a vector field is
written once over a small `Scalar` algebra and evaluated in plain `f64`,
outward-rounded intervals, Taylor Models, or time jets.

## Layout

- `src/` — the verified library (Verus):
  - `scalar.rs`: the `Scalar` algebra trait, with a mathematical model of
    each value and each operation; binary exponentiation and the law that
    it computes the n-th power;
  - `system.rs`: the `System` trait (a vector field over an algebra);
  - `jet.rs`: truncated time series (`Jet`, Cauchy product with constant
    broadcast) and `time_series`, the automatic time-Taylor expansion;
  - `poly.rs`: sparse polynomials keyed by exponent vectors in
    lexicographic order, and the `Coefficient` interface of an enclosure
    algebra;
  - `taylor_model.rs`: Taylor Models with truncation at the order and
    remainder propagation;
  - `integrators/`: the RK4 handle, and the verified Taylor-Model step —
    its composition from the time series, its Lagrange remainder factor,
    and its adaptive time-bisection schedule.
- `tests/` — tests of the library on exact test algebras.
- `app/` — the floating-point side: `Interval`, lifting of real constants,
  the Van der Pol system, the `Integrator` trait and both integrators, the
  propagation driver and JSON output.
