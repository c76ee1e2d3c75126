use tmflow::integrators::taylor::{
    adaptive_step,
    advance_series, coeff_k1_over_box, compose_step, init_state, state_bounds, step_with_remainder,
};
use tmflow::integrators::{Rk4, StepAction, SubdivSchedule};
use tmflow::jet::Jet;
use tmflow::poly::Coefficient;
use tmflow::scalar::{powi_by_squaring, Scalar};
use tmflow::system::System;
use tmflow::taylor_model::TaylorModel;

/// Plain (not outward-rounded) f64 intervals as a test coefficient algebra;
/// every value used below is exactly representable.
#[derive(Clone, Copy, Debug, PartialEq)]
struct Iv {
    lo: f64,
    hi: f64,
}

fn iv(lo: f64, hi: f64) -> Iv {
    Iv { lo, hi }
}

fn pt(x: f64) -> Iv {
    Iv { lo: x, hi: x }
}

fn iv_mul(a: Iv, b: Iv) -> Iv {
    let p = [a.lo * b.lo, a.lo * b.hi, a.hi * b.lo, a.hi * b.hi];
    Iv {
        lo: p.iter().cloned().fold(f64::INFINITY, f64::min),
        hi: p.iter().cloned().fold(f64::NEG_INFINITY, f64::max),
    }
}

impl Scalar for Iv {
    type Model = Iv;
    fn model(&self) -> Iv {
        *self
    }
    fn wf(&self) -> bool {
        self.lo <= self.hi
    }
    fn add_spec(a: Iv, b: Iv) -> Iv {
        Iv { lo: a.lo + b.lo, hi: a.hi + b.hi }
    }
    fn sub_spec(a: Iv, b: Iv) -> Iv {
        Iv { lo: a.lo - b.hi, hi: a.hi - b.lo }
    }
    fn mul_spec(a: Iv, b: Iv) -> Iv {
        iv_mul(a, b)
    }
    fn neg_spec(a: Iv) -> Iv {
        Iv { lo: -a.hi, hi: -a.lo }
    }
    fn one_spec() -> Iv {
        pt(1.0)
    }
    fn zero_spec() -> Iv {
        pt(0.0)
    }
    fn div_spec(a: Iv, d: u32) -> Iv {
        iv_mul(a, pt(1.0 / d as f64))
    }
    fn powi_spec(a: Iv, n: u32) -> Iv {
        powi_by_squaring(a, n)
    }
    fn dup(&self) -> Iv {
        *self
    }
    fn add(self, o: Iv) -> Iv {
        Iv::add_spec(self, o)
    }
    fn sub(self, o: Iv) -> Iv {
        Iv::sub_spec(self, o)
    }
    fn mul(self, o: Iv) -> Iv {
        iv_mul(self, o)
    }
    fn neg(self) -> Iv {
        Iv::neg_spec(self)
    }
    fn one() -> Iv {
        pt(1.0)
    }
    fn zero() -> Iv {
        pt(0.0)
    }
    fn div_u32(self, d: u32) -> Iv {
        Iv::div_spec(self, d)
    }
    fn powi(self, n: u32) -> Iv {
        powi_by_squaring(self, n)
    }
}

impl Coefficient for Iv {
    fn unit_spec() -> Iv {
        iv(-1.0, 1.0)
    }
    fn is_zero_spec(m: Iv) -> bool {
        m.lo == 0.0 && m.hi == 0.0
    }
    fn recip_spec(d: u32) -> Iv {
        pt(1.0 / d as f64)
    }
    fn unit() -> Iv {
        iv(-1.0, 1.0)
    }
    fn recip_u32(d: u32) -> Iv {
        pt(1.0 / d as f64)
    }
    fn is_zero(&self) -> bool {
        Iv::is_zero_spec(*self)
    }
}

/// x' = x, in interval and Taylor-Model jet arithmetic.
struct Growth;

impl System<Jet<Iv>, 1> for Growth {
    fn eval(&self, x: &[Jet<Iv>; 1]) -> [Jet<Iv>; 1] {
        [x[0].dup()]
    }
}

impl System<Jet<TaylorModel<Iv>>, 1> for Growth {
    fn eval(&self, x: &[Jet<TaylorModel<Iv>>; 1]) -> [Jet<TaylorModel<Iv>>; 1] {
        [x[0].dup()]
    }
}

fn terms(t: &TaylorModel<Iv>) -> Vec<(Vec<u32>, Iv)> {
    (0..t.poly.len()).map(|i| (t.poly.key(i).clone(), *t.poly.coeff(i))).collect()
}

fn close(a: Iv, b: Iv) -> bool {
    (a.lo - b.lo).abs() < 1e-12 && (a.hi - b.hi).abs() < 1e-12
}

#[test]
fn rk4_handle_label_and_rigour() {
    let sys = Growth;
    let rk = Rk4::<Growth, 1>::new(&sys);
    assert_eq!(rk.label(), "RK4");
    assert!(!rk.is_rigorous());
    assert!(std::ptr::eq(rk.sys(), &sys));
}

#[test]
fn schedule_whole_step_succeeds() {
    let mut s = SubdivSchedule::new(6);
    assert_eq!(s.action(), StepAction::Substep { divisor: 1 });
    assert!(!s.record(true));
    assert_eq!(s.action(), StepAction::Done);
}

#[test]
fn schedule_bisects_after_a_failure() {
    let mut s = SubdivSchedule::new(3);
    assert_eq!(s.action(), StepAction::Substep { divisor: 1 });
    assert!(s.record(false));
    assert_eq!(s.action(), StepAction::Substep { divisor: 2 });
    assert!(!s.record(true));
    assert_eq!(s.action(), StepAction::Substep { divisor: 2 });
    assert!(s.record(false));
    assert_eq!(s.action(), StepAction::Substep { divisor: 4 });
    for _ in 0..4 {
        assert!(!s.record(true));
    }
    assert_eq!(s.action(), StepAction::Done);
}

#[test]
fn schedule_gives_up_past_the_limit() {
    let mut s = SubdivSchedule::new(1);
    assert!(s.record(false));
    assert_eq!(s.action(), StepAction::Substep { divisor: 2 });
    assert!(s.record(false));
    assert_eq!(s.action(), StepAction::GiveUp);
    let mut z = SubdivSchedule::new(0);
    assert!(z.record(false));
    assert_eq!(z.action(), StepAction::GiveUp);
}

#[test]
fn schedule_depth_is_capped_by_the_divisor_width() {
    let mut s = SubdivSchedule::new(40);
    for d in 0..32u32 {
        assert_eq!(s.action(), StepAction::Substep { divisor: 1u32 << d });
        assert!(s.record(false));
    }
    assert_eq!(s.action(), StepAction::GiveUp);
}

#[test]
fn advance_series_sums_powers_of_h() {
    // 1 + 2 h + 3 h^2 at h = 0.5, over one variable.
    let coeffs = vec![
        TaylorModel::constant(pt(1.0), 2, 1),
        TaylorModel::constant(pt(2.0), 2, 1),
        TaylorModel::constant(pt(3.0), 2, 1),
    ];
    let r = advance_series(&coeffs, &pt(0.5), 2, 1);
    assert_eq!(terms(&r), vec![(vec![0], pt(2.75))]);
    assert_eq!((r.order, r.nvar), (2, 1));
    // Only the first order + 1 coefficients enter.
    let r1 = advance_series(&coeffs, &pt(0.5), 1, 1);
    assert_eq!(terms(&r1), vec![(vec![0], pt(2.0))]);
    let none = advance_series(&Vec::new(), &pt(0.5), 2, 1);
    assert_eq!(terms(&none), vec![]);
}

#[test]
fn compose_step_folds_the_remainder() {
    let series = [vec![
        TaylorModel::variable(0, 1, 1, pt(1.0), pt(1.0)),
        TaylorModel::constant(pt(4.0), 1, 1),
    ]];
    let r = compose_step(&series, &pt(0.25), 1, &[iv(-1.0, 2.0)], &iv(-0.5, 0.5));
    assert_eq!(terms(&r[0]), vec![(vec![0], pt(2.0)), (vec![1], pt(1.0))]);
    assert_eq!(r[0].rem, iv(-1.0, 1.0));
}

#[test]
fn step_with_remainder_follows_the_exponential() {
    let state = [TaylorModel::variable(0, 3, 1, pt(1.0), pt(0.5))];
    let r = step_with_remainder(&Growth, &state, &pt(0.5), 3, &[pt(0.0)], &pt(0.0));
    let e = 1.0 + 0.5 + 0.125 + 0.125 / 6.0 * 1.0;
    let t = terms(&r[0]);
    assert_eq!(t.len(), 2);
    assert_eq!(t[0].0, vec![0]);
    assert!(close(t[0].1, pt(e)));
    assert_eq!(t[1].0, vec![1]);
    assert!(close(t[1].1, pt(0.5 * e)));
    assert_eq!(r[0].rem, pt(0.0));
}

#[test]
fn remainder_factor_is_next_coefficient_over_the_box() {
    // x' = x: the (k+1)-th coefficient over B is B / (k+1)!.
    let c = coeff_k1_over_box(&Growth, &[iv(1.0, 2.0)], 2);
    assert!(close(c[0], iv(1.0 / 6.0, 2.0 / 6.0)));
    let c0 = coeff_k1_over_box(&Growth, &[iv(1.0, 2.0)], 0);
    assert_eq!(c0[0], iv(1.0, 2.0));
}

#[test]
fn init_state_and_bounds() {
    let st = init_state(&[pt(1.0), pt(2.0)], &[pt(0.5), pt(0.25)], 3);
    assert_eq!(terms(&st[0]), vec![(vec![0, 0], pt(1.0)), (vec![1, 0], pt(0.5))]);
    assert_eq!(terms(&st[1]), vec![(vec![0, 0], pt(2.0)), (vec![0, 1], pt(0.25))]);
    assert_eq!((st[1].order, st[1].nvar), (3, 2));
    let b = state_bounds(&st);
    assert_eq!(b, [iv(0.5, 1.5), iv(1.75, 2.25)]);
}

#[test]
fn schedule_ends_within_its_budget() {
    // Fail every third sub-step; the schedule must end (Done or GiveUp)
    // after at most sum_{d<=max} 2^d reports.
    let max = 4u32;
    let mut s = SubdivSchedule::new(max);
    let mut reports = 0u32;
    let bound: u32 = (0..=max).map(|d| 1u32 << d).sum();
    while let StepAction::Substep { divisor } = s.action() {
        assert!(divisor <= 1u32 << max);
        reports += 1;
        s.record(reports % 3 != 0);
        assert!(reports <= bound);
    }
}

#[test]
fn adaptive_step_takes_the_first_depth_that_succeeds() {
    // Sub-steps of h/m succeed only for m >= 4: depths 0 and 1 fail.
    let raw = |x: &u64, m: u32| if m >= 4 { Some(*x + m as u64) } else { None };
    assert_eq!(adaptive_step(&10u64, 3, raw), Some(10 + 4 * 4));
    assert_eq!(adaptive_step(&10u64, 1, raw), None);
    // Always succeeds: the whole step at depth 0.
    assert_eq!(adaptive_step(&1u64, 0, |x: &u64, _m: u32| Some(*x * 3)), Some(3));
}

#[test]
fn adaptive_step_restarts_from_the_initial_state() {
    // A sub-step fails once its input reaches 12: from 5 the whole step
    // (+8) succeeds; from 13 every depth fails at once.
    let raw = |x: &u64, m: u32| if *x < 12 { Some(*x + 8 / m as u64) } else { None };
    assert_eq!(adaptive_step(&5u64, 3, raw), Some(13));
    assert_eq!(adaptive_step(&13u64, 3, raw), None);
    // Depth 0 fails at once; depth 1 succeeds 0 -> 1 and then fails;
    // depth 2 restarts from 0 and runs 0 -> 1 -> 2 -> 3 -> 4.
    let raw2 = |x: &u64, m: u32| if m == 1 || (*x >= 1 && m < 4) { None } else { Some(*x + 1) };
    assert_eq!(adaptive_step(&0u64, 5, raw2), Some(4));
}
