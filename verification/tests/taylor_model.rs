use tmflow::poly::{exp_add, exp_degree, exp_eq, exp_lt, zero_exp, Coefficient, Poly};
use tmflow::scalar::{powi_by_squaring, Scalar};
use tmflow::taylor_model::TaylorModel;

/// Plain (not outward-rounded) f64 intervals as a test coefficient algebra;
/// every value used below is exactly representable.
#[derive(Clone, Copy, Debug, PartialEq)]
struct Iv {
    lo: f64,
    hi: f64,
}

fn iv(lo: f64, hi: f64) -> Iv {
    Iv { lo, hi }
}

fn pt(x: f64) -> Iv {
    Iv { lo: x, hi: x }
}

fn iv_mul(a: Iv, b: Iv) -> Iv {
    let p = [a.lo * b.lo, a.lo * b.hi, a.hi * b.lo, a.hi * b.hi];
    Iv {
        lo: p.iter().cloned().fold(f64::INFINITY, f64::min),
        hi: p.iter().cloned().fold(f64::NEG_INFINITY, f64::max),
    }
}

impl Scalar for Iv {
    type Model = Iv;
    fn model(&self) -> Iv {
        *self
    }
    fn wf(&self) -> bool {
        self.lo <= self.hi
    }
    fn add_spec(a: Iv, b: Iv) -> Iv {
        Iv { lo: a.lo + b.lo, hi: a.hi + b.hi }
    }
    fn sub_spec(a: Iv, b: Iv) -> Iv {
        Iv { lo: a.lo - b.hi, hi: a.hi - b.lo }
    }
    fn mul_spec(a: Iv, b: Iv) -> Iv {
        iv_mul(a, b)
    }
    fn neg_spec(a: Iv) -> Iv {
        Iv { lo: -a.hi, hi: -a.lo }
    }
    fn one_spec() -> Iv {
        pt(1.0)
    }
    fn zero_spec() -> Iv {
        pt(0.0)
    }
    fn div_spec(a: Iv, d: u32) -> Iv {
        iv_mul(a, pt(1.0 / d as f64))
    }
    fn powi_spec(a: Iv, n: u32) -> Iv {
        powi_by_squaring(a, n)
    }
    fn dup(&self) -> Iv {
        *self
    }
    fn add(self, o: Iv) -> Iv {
        Iv::add_spec(self, o)
    }
    fn sub(self, o: Iv) -> Iv {
        Iv::sub_spec(self, o)
    }
    fn mul(self, o: Iv) -> Iv {
        iv_mul(self, o)
    }
    fn neg(self) -> Iv {
        Iv::neg_spec(self)
    }
    fn one() -> Iv {
        pt(1.0)
    }
    fn zero() -> Iv {
        pt(0.0)
    }
    fn div_u32(self, d: u32) -> Iv {
        Iv::div_spec(self, d)
    }
    fn powi(self, n: u32) -> Iv {
        powi_by_squaring(self, n)
    }
}

impl Coefficient for Iv {
    fn unit_spec() -> Iv {
        iv(-1.0, 1.0)
    }
    fn is_zero_spec(m: Iv) -> bool {
        m.lo == 0.0 && m.hi == 0.0
    }
    fn recip_spec(d: u32) -> Iv {
        pt(1.0 / d as f64)
    }
    fn unit() -> Iv {
        iv(-1.0, 1.0)
    }
    fn recip_u32(d: u32) -> Iv {
        pt(1.0 / d as f64)
    }
    fn is_zero(&self) -> bool {
        Iv::is_zero_spec(*self)
    }
}

/// The terms of a polynomial as (exponent, coefficient) pairs, in order.
fn terms(p: &Poly<Iv>) -> Vec<(Vec<u32>, Iv)> {
    (0..p.len()).map(|i| (p.key(i).clone(), *p.coeff(i))).collect()
}

fn tm_terms(t: &TaylorModel<Iv>) -> Vec<(Vec<u32>, Iv)> {
    terms(&t.poly)
}

#[test]
fn exponent_helpers() {
    assert_eq!(zero_exp(3), vec![0, 0, 0]);
    assert_eq!(zero_exp(0), Vec::<u32>::new());
    assert_eq!(exp_degree(&vec![1, 2, 3]), 6);
    assert_eq!(exp_degree(&vec![]), 0);
    assert_eq!(exp_add(&vec![1, 0, 2], &vec![0, 3, 1]), vec![1, 3, 3]);
    assert!(exp_lt(&vec![0, 1], &vec![1, 0]));
    assert!(!exp_lt(&vec![1, 0], &vec![0, 1]));
    assert!(exp_lt(&vec![1], &vec![1, 0]));
    assert!(!exp_lt(&vec![1, 0], &vec![1, 0]));
    assert!(exp_eq(&vec![2, 1], &vec![2, 1]));
    assert!(!exp_eq(&vec![2, 1], &vec![2]));
}

#[test]
fn poly_keeps_terms_sorted_and_combines_equal_keys() {
    let mut p: Poly<Iv> = Poly::new();
    assert_eq!(p.len(), 0);
    p.add_term(vec![1, 0], pt(2.0));
    p.add_term(vec![0, 0], pt(1.0));
    p.add_term(vec![0, 2], pt(5.0));
    p.add_term(vec![1, 0], pt(3.0));
    assert_eq!(
        terms(&p),
        vec![(vec![0, 0], pt(1.0)), (vec![0, 2], pt(5.0)), (vec![1, 0], pt(5.0))]
    );
    assert_eq!(p.get(&vec![1, 0]), Some(&pt(5.0)));
    assert_eq!(p.get(&vec![2, 0]), None);
    p.sub_term(vec![0, 2], pt(1.0));
    p.sub_term(vec![2, 0], pt(4.0));
    assert_eq!(
        terms(&p),
        vec![
            (vec![0, 0], pt(1.0)),
            (vec![0, 2], pt(4.0)),
            (vec![1, 0], pt(5.0)),
            (vec![2, 0], pt(-4.0))
        ]
    );
}

#[test]
fn poly_scaled_negated_and_without_zeros() {
    let mut p: Poly<Iv> = Poly::new();
    p.add_term(vec![0], pt(1.0));
    p.add_term(vec![1], pt(-2.0));
    p.add_term(vec![2], pt(0.0));
    assert_eq!(
        terms(&p.scaled(&pt(3.0))),
        vec![(vec![0], pt(3.0)), (vec![1], pt(-6.0)), (vec![2], pt(0.0))]
    );
    assert_eq!(
        terms(&p.negated()),
        vec![(vec![0], pt(-1.0)), (vec![1], pt(2.0)), (vec![2], pt(-0.0))]
    );
    assert_eq!(terms(&p.without_zeros()), vec![(vec![0], pt(1.0)), (vec![1], pt(-2.0))]);
    assert_eq!(terms(&p.dup()), terms(&p));
}

#[test]
fn poly_bound_and_evaluation() {
    // 1 - 2 s0 + 3 s0 s1
    let mut p: Poly<Iv> = Poly::new();
    p.add_term(vec![0, 0], pt(1.0));
    p.add_term(vec![1, 0], pt(-2.0));
    p.add_term(vec![1, 1], pt(3.0));
    // Over [-1,1]^2: 1 + [-2,2] + [-3,3].
    assert_eq!(p.bound_over_domain(), iv(-4.0, 6.0));
    // At s = (2, 3): 1 - 4 + 18.
    assert_eq!(p.eval_terms(&[pt(2.0), pt(3.0)]), pt(15.0));
}

#[test]
fn constant_and_variable_models() {
    let c = TaylorModel::constant(pt(2.0), 3, 2);
    assert_eq!(tm_terms(&c), vec![(vec![0, 0], pt(2.0))]);
    assert_eq!((c.rem, c.order, c.nvar), (pt(0.0), 3, 2));
    let z = TaylorModel::constant(pt(0.0), 3, 2);
    assert_eq!(tm_terms(&z), vec![]);
    let x = TaylorModel::variable(1, 3, 2, pt(1.0), pt(0.5));
    assert_eq!(tm_terms(&x), vec![(vec![0, 0], pt(1.0)), (vec![0, 1], pt(0.5))]);
    assert!(!x.is_bare());
    let y = TaylorModel::variable(0, 3, 2, pt(0.0), pt(2.0));
    assert_eq!(tm_terms(&y), vec![(vec![1, 0], pt(2.0))]);
}

#[test]
fn bare_constants_promote_in_binary_operations() {
    let one = TaylorModel::<Iv>::one();
    assert!(one.is_bare());
    assert!(TaylorModel::<Iv>::zero().is_bare());
    assert_eq!(tm_terms(&TaylorModel::<Iv>::zero()), vec![]);
    let x = TaylorModel::variable(0, 2, 2, pt(0.0), pt(1.0));
    let s = x.add(one);
    assert_eq!(tm_terms(&s), vec![(vec![0, 0], pt(1.0)), (vec![1, 0], pt(1.0))]);
    assert_eq!((s.order, s.nvar), (2, 2));
    let t = TaylorModel::<Iv>::one().add(TaylorModel::variable(1, 2, 2, pt(0.0), pt(1.0)));
    assert_eq!(tm_terms(&t), vec![(vec![0, 0], pt(1.0)), (vec![0, 1], pt(1.0))]);
    assert_eq!((t.order, t.nvar), (2, 2));
}

#[test]
fn add_sub_neg_cancel_exactly() {
    let x = TaylorModel::variable(0, 2, 1, pt(1.0), pt(1.0));
    let d = x.dup().sub(x.dup());
    assert_eq!(tm_terms(&d), vec![]);
    let n = x.dup().neg();
    assert_eq!(tm_terms(&n), vec![(vec![0], pt(-1.0)), (vec![1], pt(-1.0))]);
    let s = x.dup().add(x);
    assert_eq!(tm_terms(&s), vec![(vec![0], pt(2.0)), (vec![1], pt(2.0))]);
}

#[test]
fn mul_truncates_above_order_into_remainder() {
    let x = TaylorModel::variable(0, 1, 2, pt(0.0), pt(1.0));
    let y = TaylorModel::variable(1, 1, 2, pt(0.0), pt(1.0));
    let p = x.dup().mul(y.dup());
    assert_eq!(tm_terms(&p), vec![]);
    assert_eq!(p.rem, iv(-1.0, 1.0));
    // Within the order the product is exact.
    let x2 = TaylorModel::variable(0, 2, 2, pt(0.0), pt(1.0));
    let q = x2.dup().mul(x2.dup());
    assert_eq!(tm_terms(&q), vec![(vec![2, 0], pt(1.0))]);
    assert_eq!(q.rem, pt(0.0));
    // (1 + s)^2 = 1 + 2 s + s^2.
    let u = TaylorModel::variable(0, 2, 1, pt(1.0), pt(1.0));
    let sq = u.dup().mul(u.dup());
    assert_eq!(tm_terms(&sq), vec![(vec![0], pt(1.0)), (vec![1], pt(2.0)), (vec![2], pt(1.0))]);
    assert_eq!(tm_terms(&u.dup().powi(2)), tm_terms(&sq));
    assert_eq!(tm_terms(&u.powi(0)), vec![(vec![], pt(1.0))]);
}

#[test]
fn mul_propagates_remainders() {
    // (s + [-1,1]) * 2 with order 1, one variable.
    let mut a = TaylorModel::variable(0, 1, 1, pt(0.0), pt(1.0));
    a.rem = iv(-1.0, 1.0);
    let b = TaylorModel::constant(pt(2.0), 1, 1);
    let p = a.mul(b);
    assert_eq!(tm_terms(&p), vec![(vec![1], pt(2.0))]);
    // over 0, B(p1)·I2 = 0, I1·B(p2) = [-2,2], I1·I2 = 0.
    assert_eq!(p.rem, iv(-2.0, 2.0));
}

#[test]
fn scale_div_bound_and_evaluation() {
    let x = TaylorModel::variable(0, 2, 1, pt(1.0), pt(0.5));
    let s = x.scale(pt(4.0));
    assert_eq!(tm_terms(&s), vec![(vec![0], pt(4.0)), (vec![1], pt(2.0))]);
    let h = x.dup().div_u32(2);
    assert_eq!(tm_terms(&h), vec![(vec![0], pt(0.5)), (vec![1], pt(0.25))]);
    assert_eq!(x.bound(), iv(0.5, 1.5));
    assert_eq!(x.const_part(), pt(1.0));
    assert_eq!(TaylorModel::variable(0, 2, 1, pt(0.0), pt(1.0)).const_part(), pt(0.0));
    assert_eq!(x.eval_terms(&[pt(2.0)]), pt(2.0));
    let mut r = x.dup();
    r.rem = iv(-0.5, 0.5);
    assert_eq!(r.bound_over(&[iv(0.0, 1.0)]), iv(0.5, 2.0));
    assert_eq!(r.bound(), iv(0.0, 2.0));
}

#[test]
fn bare_constant_promotes_in_products_on_either_side() {
    let x = TaylorModel::variable(1, 3, 2, pt(0.0), pt(1.0));
    let c = TaylorModel::constant(pt(3.0), 0, 0);
    assert!(c.is_bare());
    let l = c.dup().mul(x.dup());
    let r = x.dup().mul(c.dup());
    for p in [&l, &r] {
        assert_eq!((p.order, p.nvar), (3, 2));
        assert_eq!(tm_terms(p), vec![(vec![0, 1], pt(3.0))]);
    }
    let d = c.sub(x);
    assert_eq!(tm_terms(&d), vec![(vec![0, 0], pt(3.0)), (vec![0, 1], pt(-1.0))]);
}

#[test]
fn product_terms_never_exceed_the_order() {
    let u = TaylorModel::variable(0, 3, 2, pt(1.0), pt(1.0));
    let v = TaylorModel::variable(1, 3, 2, pt(-1.0), pt(2.0));
    let p = u.dup().mul(v.dup()).mul(u.dup()).mul(v.dup());
    for (e, _) in tm_terms(&p) {
        assert!(e.iter().sum::<u32>() <= 3);
    }
    assert!(p.rem.hi > 0.0);
}

#[test]
fn bare_constant_remainder_is_kept() {
    let x = TaylorModel::variable(0, 2, 1, pt(0.0), pt(1.0));
    let mut c = TaylorModel::constant(pt(2.0), 0, 0);
    c.rem = iv(-0.5, 0.5);
    let s = c.dup().add(x.dup());
    assert_eq!(tm_terms(&s), vec![(vec![0], pt(2.0)), (vec![1], pt(1.0))]);
    assert_eq!(s.rem, iv(-0.5, 0.5));
    let t = x.dup().sub(c.dup());
    assert_eq!(t.rem, iv(-0.5, 0.5));
    // (s)(2 + [-0.5, 0.5]): B(p1)·I2 = [-1,1]·[-0.5,0.5].
    let p = x.mul(c);
    assert_eq!(tm_terms(&p), vec![(vec![1], pt(2.0))]);
    assert_eq!(p.rem, iv(-0.5, 0.5));
}
