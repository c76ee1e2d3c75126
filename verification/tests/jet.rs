use tmflow::jet::{push_next_coefficients, round_jets, time_series, Jet};
use tmflow::scalar::{powi_by_squaring, Scalar};
use tmflow::system::System;

/// Plain f64 arithmetic as a coefficient algebra.
#[derive(Clone, Copy, Debug, PartialEq)]
struct R(f64);

impl Scalar for R {
    type Model = f64;
    fn model(&self) -> f64 {
        self.0
    }
    fn wf(&self) -> bool {
        true
    }
    fn add_spec(a: f64, b: f64) -> f64 {
        a + b
    }
    fn sub_spec(a: f64, b: f64) -> f64 {
        a - b
    }
    fn mul_spec(a: f64, b: f64) -> f64 {
        a * b
    }
    fn neg_spec(a: f64) -> f64 {
        -a
    }
    fn one_spec() -> f64 {
        1.0
    }
    fn zero_spec() -> f64 {
        0.0
    }
    fn div_spec(a: f64, d: u32) -> f64 {
        a / d as f64
    }
    fn powi_spec(a: f64, n: u32) -> f64 {
        a.powi(n as i32)
    }
    fn dup(&self) -> R {
        *self
    }
    fn add(self, o: R) -> R {
        R(self.0 + o.0)
    }
    fn sub(self, o: R) -> R {
        R(self.0 - o.0)
    }
    fn mul(self, o: R) -> R {
        R(self.0 * o.0)
    }
    fn neg(self) -> R {
        R(-self.0)
    }
    fn one() -> R {
        R(1.0)
    }
    fn zero() -> R {
        R(0.0)
    }
    fn div_u32(self, d: u32) -> R {
        R(self.0 / d as f64)
    }
    fn powi(self, n: u32) -> R {
        powi_by_squaring(self, n)
    }
}

fn jet(v: &[f64]) -> Jet<R> {
    Jet {
        c: v.iter().map(|&x| R(x)).collect(),
    }
}

fn vals(j: &Jet<R>) -> Vec<f64> {
    j.c.iter().map(|x| x.0).collect()
}

/// Trivial linear system x' = x → solution e^t, A[j] = 1/j!.
struct Exp;
impl System<Jet<R>, 1> for Exp {
    fn eval(&self, x: &[Jet<R>; 1]) -> [Jet<R>; 1] {
        [x[0].dup()]
    }
}

/// x' = x^2, x(0) = 1 → x(t) = 1/(1-t), every coefficient 1.
struct Square;
impl System<Jet<R>, 1> for Square {
    fn eval(&self, x: &[Jet<R>; 1]) -> [Jet<R>; 1] {
        [x[0].dup().mul(x[0].dup())]
    }
}

/// Harmonic oscillator x' = y, y' = -x from (1, 0): cos t, -sin t.
struct Osc;
impl System<Jet<R>, 2> for Osc {
    fn eval(&self, x: &[Jet<R>; 2]) -> [Jet<R>; 2] {
        [x[1].dup(), x[0].dup().neg()]
    }
    fn name(&self) -> &str {
        "oscillator"
    }
}

#[test]
fn exp_series_is_reciprocal_factorials() {
    let s = time_series(&Exp, &[R(1.0)], 6);
    let mut fact = 1.0;
    for (j, &coeff) in s[0].iter().enumerate() {
        if j > 0 {
            fact *= j as f64;
        }
        assert!((coeff.0 - 1.0 / fact).abs() < 1e-12, "coeff {j}");
    }
}

#[test]
fn square_series_is_all_ones() {
    let s = time_series(&Square, &[R(1.0)], 5);
    assert_eq!(s[0].len(), 6);
    for c in &s[0] {
        assert_eq!(c.0, 1.0);
    }
}

#[test]
fn oscillator_series_is_cos_and_minus_sin() {
    let s = time_series(&Osc, &[R(1.0), R(0.0)], 4);
    assert_eq!(vals(&Jet { c: s[0].clone() }), vec![1.0, 0.0, -0.5, 0.0, 1.0 / 24.0]);
    assert_eq!(vals(&Jet { c: s[1].clone() }), vec![0.0, -1.0, 0.0, 1.0 / 6.0, 0.0]);
    assert_eq!(Osc.name(), "oscillator");
    assert_eq!(Osc.dim(), 2);
    assert_eq!(Exp.name(), "system");
}

#[test]
fn order_zero_series_is_initial_value() {
    let s = time_series(&Square, &[R(3.0)], 0);
    assert_eq!(s[0], vec![R(3.0)]);
}

#[test]
fn constant_seed_coeff_and_order() {
    let c = Jet::constant(R(2.5), 3);
    assert_eq!(vals(&c), vec![2.5, 0.0, 0.0, 0.0]);
    assert_eq!(c.order(), 3);
    let s = Jet::seed(R(-1.0), 2);
    assert_eq!(vals(&s), vec![-1.0, 0.0, 0.0]);
    assert_eq!(c.coeff(0), R(2.5));
    assert_eq!(c.coeff(7), R(0.0));
}

#[test]
fn add_and_sub_pad_to_the_longer_operand() {
    let a = jet(&[1.0, 2.0, 3.0]);
    let b = jet(&[10.0, 20.0]);
    assert_eq!(vals(&a.dup().add(b.dup())), vec![11.0, 22.0, 3.0]);
    assert_eq!(vals(&b.dup().sub(a.dup())), vec![9.0, 18.0, -3.0]);
    assert_eq!(vals(&a.neg()), vec![-1.0, -2.0, -3.0]);
}

#[test]
fn mul_is_truncated_cauchy_product() {
    // (1 + 2t + 3t^2)(4 + 5t) truncated to order 1: 4 + 13t.
    let a = jet(&[1.0, 2.0, 3.0]);
    let b = jet(&[4.0, 5.0]);
    assert_eq!(vals(&a.dup().mul(b.dup())), vec![4.0, 13.0]);
    // Same order: (1 + t)^2 = 1 + 2t + t^2.
    let c = jet(&[1.0, 1.0, 0.0]);
    assert_eq!(vals(&c.dup().mul(c.dup())), vec![1.0, 2.0, 1.0]);
}

#[test]
fn degree_zero_jet_broadcasts_in_mul() {
    let k = jet(&[3.0]);
    let a = jet(&[1.0, 2.0, 3.0]);
    assert_eq!(vals(&k.dup().mul(a.dup())), vec![3.0, 6.0, 9.0]);
    assert_eq!(vals(&a.dup().mul(k.dup())), vec![3.0, 6.0, 9.0]);
    assert_eq!(vals(&Jet::<R>::one().mul(a.dup())), vec![1.0, 2.0, 3.0]);
}

#[test]
fn one_zero_and_div() {
    assert_eq!(vals(&Jet::<R>::one()), vec![1.0]);
    assert_eq!(vals(&Jet::<R>::zero()), vec![0.0]);
    assert_eq!(vals(&jet(&[2.0, 4.0, 6.0]).div_u32(2)), vec![1.0, 2.0, 3.0]);
}

#[test]
fn jet_powi_matches_repeated_product() {
    let a = jet(&[1.0, 1.0, 0.0, 0.0]);
    // (1 + t)^3 = 1 + 3t + 3t^2 + t^3.
    assert_eq!(vals(&a.dup().powi(3)), vec![1.0, 3.0, 3.0, 1.0]);
    assert_eq!(vals(&a.dup().powi(0)), vec![1.0]);
    assert_eq!(vals(&a.dup().powi(1)), vec![1.0, 1.0, 0.0, 0.0]);
}

#[test]
fn powi_by_squaring_values() {
    assert_eq!(powi_by_squaring(R(2.0), 0), R(1.0));
    assert_eq!(powi_by_squaring(R(2.0), 1), R(2.0));
    assert_eq!(powi_by_squaring(R(2.0), 10), R(1024.0));
    assert_eq!(powi_by_squaring(R(-3.0), 3), R(-27.0));
    assert_eq!(powi_by_squaring(R(1.5), 2), R(2.25));
}

#[test]
fn higher_order_series_extends_lower_order_one() {
    let lo = time_series(&Osc, &[R(0.5), R(2.0)], 3);
    let hi = time_series(&Osc, &[R(0.5), R(2.0)], 6);
    for i in 0..2 {
        assert_eq!(lo[i].len(), 4);
        assert_eq!(hi[i].len(), 7);
        assert_eq!(&hi[i][..4], &lo[i][..]);
    }
}

#[test]
fn one_round_of_the_recurrence() {
    let coeffs = vec![vec![R(1.0), R(2.0)], vec![R(3.0), R(4.0)]];
    let jets = round_jets(&coeffs);
    assert_eq!(vals(&jets[0]), vec![1.0, 2.0]);
    assert_eq!(vals(&jets[1]), vec![3.0, 4.0]);
    // f = (x1, x0): coefficient 1 of each, divided by 2.
    let f = [jets[1].dup(), jets[0].dup()];
    let mut rows = coeffs.clone();
    push_next_coefficients(&mut rows, &f, 1);
    assert_eq!(rows[0], vec![R(1.0), R(2.0), R(2.0)]);
    assert_eq!(rows[1], vec![R(3.0), R(4.0), R(1.0)]);
}
