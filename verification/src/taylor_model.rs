//! Verified k-th order [`TaylorModel`]s over `n` variables with
//! [`Coefficient`] coefficients.
//!
//! A Taylor Model of a function `g` over the normalized domain
//! `D = [-1, 1]^n` is
//!
//! ```text
//!     g(s)  ∈  p(s) + I      for all s ∈ D,
//! ```
//!
//! where `p` is a polynomial of degree `<= k` with enclosure coefficients and
//! `I` is an enclosure remainder bounding everything `p` omits. Products
//! convolve the coefficients; terms of degree `> k` are bounded over `D` and
//! swept into the remainder, and the cross terms are propagated as
//! `(p1 + I1)(p2 + I2) = p1 p2 + p1 I2 + I1 p2 + I1 I2`.
//!
//! A model with `nvar == 0` is a *bare constant* (as produced by `one` and
//! `zero`): it has no dimension yet, and binary operations promote it to the
//! order and dimension of the other operand.

use vstd::prelude::*;

use crate::poly::{
    degree, degrees_within, eval_fold, exp_add, exp_degree, exp_sum, keep_nonzero,
    lemma_degree_exp_sum, lemma_entry_le_degree, lex_lt, lex_lt_from, lookup, lower_bound,
    map_coeffs, sorted_keys, upsert, vars_cover, zero_exp, zeros, bound_fold, Coefficient, Exp,
    Poly,
};
use crate::scalar::{lemma_pow_tree_some, pow_tree, powi_tree, Scalar};

verus! {

/// The largest exponent degree and order a model carries (keeps every
/// degree computed in `u32`, products included).
pub open spec fn max_degree() -> nat {
    0x7fff_ffff
}

/// Model of a Taylor Model: its terms in ascending exponent order, its
/// remainder, its order and its number of variables.
pub type TmModel<M> = (Seq<(Seq<u32>, M)>, M, u32, usize);

/// A verified Taylor Model with coefficients in `C`.
#[derive(Clone)]
pub struct TaylorModel<C: Coefficient> {
    /// Polynomial coefficients keyed by exponent vector.
    pub poly: Poly<C>,
    /// Remainder bounding all omitted contributions.
    pub rem: C,
    /// Maximum polynomial degree `k`.
    pub order: u32,
    /// Number of variables `n`.
    pub nvar: usize,
}

/// The terms of a constant model: none for an exactly-zero constant,
/// otherwise the constant at the zero exponent.
pub open spec fn constant_terms<C: Coefficient>(c: C::Model, nvar: nat) -> Seq<(Seq<u32>, C::Model)> {
    if C::is_zero_spec(c) {
        Seq::empty()
    } else {
        seq![(zeros(nvar), c)]
    }
}

/// Model of a constant of explicit order and dimension (zero remainder).
pub open spec fn tm_constant<C: Coefficient>(c: C::Model, order: u32, nvar: usize) -> TmModel<C::Model> {
    (constant_terms::<C>(c, nvar as nat), C::zero_spec(), order, nvar)
}

/// The exponent vector of variable `i` among `n`.
pub open spec fn unit_exp(i: nat, n: nat) -> Seq<u32> {
    zeros(n).update(i as int, 1u32)
}

/// Model of the coordinate `x_i = center + half · s_i`.
pub open spec fn tm_variable<C: Coefficient>(
    i: nat,
    order: u32,
    nvar: usize,
    center: C::Model,
    half: C::Model,
) -> TmModel<C::Model> {
    (constant_terms::<C>(center, nvar as nat).push((unit_exp(i, nvar as nat), half)), C::zero_spec(), order, nvar)
}

/// The value a bare constant holds.
pub open spec fn bare_value<C: Coefficient>(m: TmModel<C::Model>) -> C::Model {
    match lookup(m.0, Seq::<u32>::empty()) {
        Some(c) => c,
        None => C::zero_spec(),
    }
}

/// A bare constant re-keyed to `(order, nvar)`: its value becomes the
/// constant term and its remainder is kept; any other model unchanged.
pub open spec fn tm_promote<C: Coefficient>(m: TmModel<C::Model>, order: u32, nvar: usize) -> TmModel<
    C::Model,
> {
    if m.3 != 0 {
        m
    } else {
        (constant_terms::<C>(bare_value::<C>(m), nvar as nat), m.1, order, nvar)
    }
}

/// The `(order, nvar)` of a pair: the first operand's unless it is bare.
pub open spec fn tm_dims<M>(a: TmModel<M>, b: TmModel<M>) -> (u32, usize) {
    if a.3 != 0 {
        (a.2, a.3)
    } else {
        (b.2, b.3)
    }
}

/// The first `n` terms of `q` added into `p`, in order.
pub open spec fn add_fold<C: Coefficient>(
    p: Seq<(Seq<u32>, C::Model)>,
    q: Seq<(Seq<u32>, C::Model)>,
    n: nat,
) -> Seq<(Seq<u32>, C::Model)>
    decreases n,
{
    if n == 0 {
        p
    } else {
        let t = q[n - 1];
        upsert(add_fold::<C>(p, q, (n - 1) as nat), t.0, |x: C::Model| C::add_spec(x, t.1), t.1)
    }
}

/// The first `n` terms of `q` subtracted from `p`, in order.
pub open spec fn sub_fold<C: Coefficient>(
    p: Seq<(Seq<u32>, C::Model)>,
    q: Seq<(Seq<u32>, C::Model)>,
    n: nat,
) -> Seq<(Seq<u32>, C::Model)>
    decreases n,
{
    if n == 0 {
        p
    } else {
        let t = q[n - 1];
        upsert(
            sub_fold::<C>(p, q, (n - 1) as nat),
            t.0,
            |x: C::Model| C::sub_spec(x, t.1),
            C::neg_spec(t.1),
        )
    }
}

/// Model of `a + b`.
pub open spec fn tm_add<C: Coefficient>(a: TmModel<C::Model>, b: TmModel<C::Model>) -> TmModel<
    C::Model,
> {
    let (order, nvar) = tm_dims(a, b);
    let pa = tm_promote::<C>(a, order, nvar);
    let pb = tm_promote::<C>(b, order, nvar);
    (
        keep_nonzero::<C>(add_fold::<C>(pa.0, pb.0, pb.0.len())),
        C::add_spec(pa.1, pb.1),
        order,
        nvar,
    )
}

/// Model of `a - b`.
pub open spec fn tm_sub<C: Coefficient>(a: TmModel<C::Model>, b: TmModel<C::Model>) -> TmModel<
    C::Model,
> {
    let (order, nvar) = tm_dims(a, b);
    let pa = tm_promote::<C>(a, order, nvar);
    let pb = tm_promote::<C>(b, order, nvar);
    (
        keep_nonzero::<C>(sub_fold::<C>(pa.0, pb.0, pb.0.len())),
        C::sub_spec(pa.1, pb.1),
        order,
        nvar,
    )
}

/// Model of `-a`.
pub open spec fn tm_neg<C: Coefficient>(a: TmModel<C::Model>) -> TmModel<C::Model> {
    (map_coeffs(a.0, |x: C::Model| C::neg_spec(x)), C::neg_spec(a.1), a.2, a.3)
}

/// Model of `a` scaled by `alpha`.
pub open spec fn tm_scale<C: Coefficient>(a: TmModel<C::Model>, alpha: C::Model) -> TmModel<
    C::Model,
> {
    (
        keep_nonzero::<C>(map_coeffs(a.0, |x: C::Model| C::mul_spec(x, alpha))),
        C::mul_spec(a.1, alpha),
        a.2,
        a.3,
    )
}

/// One pair of terms of a product: their product coefficient is added at
/// the summed exponent if its degree is at most `k`, and otherwise bounded
/// over the domain and added to the overflow.
pub open spec fn mul_step<C: Coefficient>(
    st: (Seq<(Seq<u32>, C::Model)>, C::Model),
    t1: (Seq<u32>, C::Model),
    t2: (Seq<u32>, C::Model),
    k: u32,
) -> (Seq<(Seq<u32>, C::Model)>, C::Model) {
    let e = exp_sum(t1.0, t2.0);
    let prod = C::mul_spec(t1.1, t2.1);
    if degree(e) <= k {
        (upsert(st.0, e, |x: C::Model| C::add_spec(x, prod), prod), st.1)
    } else {
        (st.0, C::add_spec(st.1, C::mul_spec(prod, C::unit_spec())))
    }
}

/// The term `t1` multiplied with the first `n` terms of `q`.
pub open spec fn mul_row<C: Coefficient>(
    st: (Seq<(Seq<u32>, C::Model)>, C::Model),
    t1: (Seq<u32>, C::Model),
    q: Seq<(Seq<u32>, C::Model)>,
    n: nat,
    k: u32,
) -> (Seq<(Seq<u32>, C::Model)>, C::Model)
    decreases n,
{
    if n == 0 {
        st
    } else {
        mul_step::<C>(mul_row::<C>(st, t1, q, (n - 1) as nat, k), t1, q[n - 1], k)
    }
}

/// The first `m` terms of `p` each multiplied with all of `q`.
pub open spec fn mul_rows<C: Coefficient>(
    st: (Seq<(Seq<u32>, C::Model)>, C::Model),
    p: Seq<(Seq<u32>, C::Model)>,
    q: Seq<(Seq<u32>, C::Model)>,
    m: nat,
    k: u32,
) -> (Seq<(Seq<u32>, C::Model)>, C::Model)
    decreases m,
{
    if m == 0 {
        st
    } else {
        mul_row::<C>(mul_rows::<C>(st, p, q, (m - 1) as nat, k), p[m - 1], q, q.len(), k)
    }
}

/// Model of `a * b`: the degree-`k` truncated product of the polynomials,
/// with the overflow and the cross terms
/// `over + B(p1)·I2 + I1·B(p2) + I1·I2` in the remainder.
pub open spec fn tm_mul<C: Coefficient>(a: TmModel<C::Model>, b: TmModel<C::Model>) -> TmModel<
    C::Model,
> {
    let (k, nvar) = tm_dims(a, b);
    let pa = tm_promote::<C>(a, k, nvar);
    let pb = tm_promote::<C>(b, k, nvar);
    let st = mul_rows::<C>((Seq::empty(), C::zero_spec()), pa.0, pb.0, pa.0.len(), k);
    let b1 = bound_fold::<C>(pa.0, pa.0.len());
    let b2 = bound_fold::<C>(pb.0, pb.0.len());
    let rem = C::add_spec(
        C::add_spec(C::add_spec(st.1, C::mul_spec(b1, pb.1)), C::mul_spec(pa.1, b2)),
        C::mul_spec(pa.1, pb.1),
    );
    (keep_nonzero::<C>(st.0), rem, k, nvar)
}

/// [`tm_mul`] as a function value.
pub open spec fn tm_mul_fn<C: Coefficient>() -> spec_fn(TmModel<C::Model>, TmModel<C::Model>) -> TmModel<
    C::Model,
> {
    |a: TmModel<C::Model>, b: TmModel<C::Model>| tm_mul::<C>(a, b)
}

/// Model of a bare constant.
pub open spec fn tm_bare<C: Coefficient>(c: C::Model) -> TmModel<C::Model> {
    (constant_terms::<C>(c, 0), C::zero_spec(), 0, 0)
}

proof fn lemma_zeros_degree(n: nat)
    ensures
        degree(zeros(n)) == 0,
    decreases n,
{
    if n > 0 {
        assert(zeros(n).drop_last() =~= zeros((n - 1) as nat));
        lemma_zeros_degree((n - 1) as nat);
    }
}

proof fn lemma_unit_degree(i: nat, n: nat)
    requires
        i < n,
    ensures
        degree(unit_exp(i, n)) == 1,
    decreases n,
{
    if n - 1 == i {
        assert(unit_exp(i, n).drop_last() =~= zeros(i));
        lemma_zeros_degree(i);
    } else {
        assert(unit_exp(i, n).drop_last() =~= unit_exp(i, (n - 1) as nat));
        lemma_unit_degree(i, (n - 1) as nat);
    }
}

proof fn lemma_zeros_before_unit(i: nat, n: nat, j: int)
    requires
        i < n,
        0 <= j <= i,
    ensures
        lex_lt_from(zeros(n), unit_exp(i, n), j),
    decreases i - j,
{
    if j < i {
        lemma_zeros_before_unit(i, n, j + 1);
    }
}

/// Combining a key of bounded degree keeps every degree bounded.
proof fn lemma_upsert_degrees<M>(
    s: Seq<(Seq<u32>, M)>,
    e: Seq<u32>,
    present: spec_fn(M) -> M,
    absent: M,
    b: nat,
)
    requires
        degrees_within(s, b),
        degree(e) <= b,
    ensures
        degrees_within(upsert(s, e, present, absent), b),
{
    let r = upsert(s, e, present, absent);
    let i = lower_bound(s, e) as int;
    crate::poly::lemma_lower_bound(s, e);
    assert forall|p: int| 0 <= p < r.len() implies degree(#[trigger] r[p].0) <= b by {
        if i < s.len() && s[i].0 == e {
            assert(r[p].0 == s[p].0);
        } else if p < i {
            assert(r[p] == s[p]);
        } else if p > i {
            assert(r[p] == s[p - 1]);
        }
    }
}

/// Dropping zero coefficients keeps every degree bound.
proof fn lemma_keep_nonzero_degrees<C: Coefficient>(s: Seq<(Seq<u32>, C::Model)>, b: nat)
    requires
        degrees_within(s, b),
    ensures
        degrees_within(keep_nonzero::<C>(s), b),
    decreases s.len(),
{
    if s.len() > 0 {
        assert(degrees_within(s.drop_last(), b)) by {
            assert forall|i: int| 0 <= i < s.drop_last().len() implies degree(
                #[trigger] s.drop_last()[i].0,
            ) <= b by {
                assert(s.drop_last()[i] == s[i]);
            }
        }
        lemma_keep_nonzero_degrees::<C>(s.drop_last(), b);
        let rest = keep_nonzero::<C>(s.drop_last());
        assert(degree(s.last().0) <= b);
        assert forall|i: int| 0 <= i < rest.push(s.last()).len() implies degree(
            #[trigger] rest.push(s.last())[i].0,
        ) <= b by {
            if i < rest.len() {
                assert(rest.push(s.last())[i] == rest[i]);
            }
        }
    }
}

/// The products of one term with the first `n` terms of `q` only insert
/// exponents of degree at most `k`.
proof fn lemma_mul_row_degrees<C: Coefficient>(
    st: (Seq<(Seq<u32>, C::Model)>, C::Model),
    t1: (Seq<u32>, C::Model),
    q: Seq<(Seq<u32>, C::Model)>,
    n: nat,
    k: u32,
)
    requires
        degrees_within(st.0, k as nat),
    ensures
        degrees_within(mul_row::<C>(st, t1, q, n, k).0, k as nat),
    decreases n,
{
    if n > 0 {
        let prev = mul_row::<C>(st, t1, q, (n - 1) as nat, k);
        lemma_mul_row_degrees::<C>(st, t1, q, (n - 1) as nat, k);
        let e = exp_sum(t1.0, q[n - 1].0);
        let prod = C::mul_spec(t1.1, q[n - 1].1);
        if degree(e) <= k {
            lemma_upsert_degrees(prev.0, e, |x: C::Model| C::add_spec(x, prod), prod, k as nat);
        }
    }
}

/// The products of the first `m` terms of `p` with all of `q` only insert
/// exponents of degree at most `k`.
proof fn lemma_mul_rows_degrees<C: Coefficient>(
    st: (Seq<(Seq<u32>, C::Model)>, C::Model),
    p: Seq<(Seq<u32>, C::Model)>,
    q: Seq<(Seq<u32>, C::Model)>,
    m: nat,
    k: u32,
)
    requires
        degrees_within(st.0, k as nat),
    ensures
        degrees_within(mul_rows::<C>(st, p, q, m, k).0, k as nat),
    decreases m,
{
    if m > 0 {
        lemma_mul_rows_degrees::<C>(st, p, q, (m - 1) as nat, k);
        lemma_mul_row_degrees::<C>(
            mul_rows::<C>(st, p, q, (m - 1) as nat, k),
            p[m - 1],
            q,
            q.len(),
            k,
        );
    }
}

/// Law: a product is truncated at its order. Every term of `a * b` has
/// degree at most the product's order `k`; everything of higher degree went
/// into the remainder.
pub proof fn lemma_mul_degree_bound<C: Coefficient>(a: TmModel<C::Model>, b: TmModel<C::Model>)
    ensures
        degrees_within(tm_mul::<C>(a, b).0, tm_mul::<C>(a, b).2 as nat),
{
    let (k, nvar) = tm_dims(a, b);
    let pa = tm_promote::<C>(a, k, nvar);
    let pb = tm_promote::<C>(b, k, nvar);
    let st0 = (Seq::<(Seq<u32>, C::Model)>::empty(), C::zero_spec());
    lemma_mul_rows_degrees::<C>(st0, pa.0, pb.0, pa.0.len(), k);
    lemma_keep_nonzero_degrees::<C>(mul_rows::<C>(st0, pa.0, pb.0, pa.0.len(), k).0, k as nat);
}

/// Law: a bare constant (as lifted from a real number) mixes with a model
/// of fixed dimension: on either side of `+`, `-` and `*` it is promoted to
/// the other operand's order and number of variables, as the constant term
/// holding its value, and its remainder enters the result's remainder.
pub proof fn lemma_bare_promotes<C: Coefficient>(c: TmModel<C::Model>, m: TmModel<C::Model>)
    requires
        c.3 == 0,
        m.3 != 0,
    ensures
        tm_promote::<C>(c, m.2, m.3) == (
            tm_constant::<C>(bare_value::<C>(c), m.2, m.3).0,
            c.1,
            m.2,
            m.3,
        ),
        tm_add::<C>(c, m).1 == C::add_spec(c.1, m.1),
        tm_add::<C>(m, c).1 == C::add_spec(m.1, c.1),
        tm_sub::<C>(c, m).1 == C::sub_spec(c.1, m.1),
        tm_sub::<C>(m, c).1 == C::sub_spec(m.1, c.1),
        (tm_add::<C>(c, m).2, tm_add::<C>(c, m).3) == (m.2, m.3),
        (tm_add::<C>(m, c).2, tm_add::<C>(m, c).3) == (m.2, m.3),
        (tm_sub::<C>(c, m).2, tm_sub::<C>(c, m).3) == (m.2, m.3),
        (tm_sub::<C>(m, c).2, tm_sub::<C>(m, c).3) == (m.2, m.3),
        (tm_mul::<C>(c, m).2, tm_mul::<C>(c, m).3) == (m.2, m.3),
        (tm_mul::<C>(m, c).2, tm_mul::<C>(m, c).3) == (m.2, m.3),
{
}

/// Law: the product of `(p1 + I1)(p2 + I2)` is the truncated product of
/// the polynomials with remainder
/// `over + B(p1)·I2 + I1·B(p2) + I1·I2`, where `I1`, `I2` are the operands'
/// own remainders, `B(p)` bounds a polynomial over the domain and `over`
/// bounds the product terms above the order; and the polynomial part of a
/// product does not depend on the operands' remainders.
pub proof fn lemma_mul_remainder<C: Coefficient>(
    a: TmModel<C::Model>,
    b: TmModel<C::Model>,
    ra: C::Model,
    rb: C::Model,
)
    ensures
        tm_mul::<C>(a, b).1 == C::add_spec(
            C::add_spec(
                C::add_spec(
                    mul_rows::<C>(
                        (Seq::empty(), C::zero_spec()),
                        tm_promote::<C>(a, tm_dims(a, b).0, tm_dims(a, b).1).0,
                        tm_promote::<C>(b, tm_dims(a, b).0, tm_dims(a, b).1).0,
                        tm_promote::<C>(a, tm_dims(a, b).0, tm_dims(a, b).1).0.len(),
                        tm_dims(a, b).0,
                    ).1,
                    C::mul_spec(
                        bound_fold::<C>(
                            tm_promote::<C>(a, tm_dims(a, b).0, tm_dims(a, b).1).0,
                            tm_promote::<C>(a, tm_dims(a, b).0, tm_dims(a, b).1).0.len(),
                        ),
                        b.1,
                    ),
                ),
                C::mul_spec(
                    a.1,
                    bound_fold::<C>(
                        tm_promote::<C>(b, tm_dims(a, b).0, tm_dims(a, b).1).0,
                        tm_promote::<C>(b, tm_dims(a, b).0, tm_dims(a, b).1).0.len(),
                    ),
                ),
            ),
            C::mul_spec(a.1, b.1),
        ),
        tm_mul::<C>((a.0, ra, a.2, a.3), (b.0, rb, b.2, b.3)).0 == tm_mul::<C>(a, b).0,
{
}

/// Law: sums, differences and negations combine the operands'
/// remainders: `rem(a + b) = rem(a) + rem(b)`, `rem(a - b) = rem(a) -
/// rem(b)`, `rem(-a) = -rem(a)`, whichever operand is a bare constant; and
/// the result has the dimensioned operand's order and number of variables.
pub proof fn lemma_linear_ops_remainders<C: Coefficient>(a: TmModel<C::Model>, b: TmModel<C::Model>)
    ensures
        tm_add::<C>(a, b).1 == C::add_spec(a.1, b.1),
        tm_sub::<C>(a, b).1 == C::sub_spec(a.1, b.1),
        tm_neg::<C>(a).1 == C::neg_spec(a.1),
        (tm_neg::<C>(a).2, tm_neg::<C>(a).3) == (a.2, a.3),
        a.3 != 0 ==> (tm_add::<C>(a, b).2, tm_add::<C>(a, b).3) == (a.2, a.3),
        a.3 == 0 ==> (tm_add::<C>(a, b).2, tm_add::<C>(a, b).3) == (b.2, b.3),
        a.3 != 0 ==> (tm_sub::<C>(a, b).2, tm_sub::<C>(a, b).3) == (a.2, a.3),
        a.3 == 0 ==> (tm_sub::<C>(a, b).2, tm_sub::<C>(a, b).3) == (b.2, b.3),
{
}

/// Law: scaling scales the whole model. The remainder of `t · alpha` is
/// `rem(t) · alpha` (and dividing by `d` multiplies it by the enclosure of
/// `1/d`); order and dimension are kept.
pub proof fn lemma_scale_whole_model<C: Coefficient>(a: TmModel<C::Model>, alpha: C::Model, d: u32)
    ensures
        tm_scale::<C>(a, alpha).1 == C::mul_spec(a.1, alpha),
        tm_scale::<C>(a, alpha).2 == a.2,
        tm_scale::<C>(a, alpha).3 == a.3,
        <TaylorModel<C> as Scalar>::div_spec(a, d).1 == C::mul_spec(a.1, C::recip_spec(d)),
{
}

impl<C: Coefficient> TaylorModel<C> {
    /// The exponent bound every model respects.
    pub open spec fn degrees_ok(&self) -> bool {
        &&& self.order <= max_degree()
        &&& degrees_within(self.poly.model(), max_degree())
    }

    /// Constant model `c` (zero remainder) of explicit order and dimension.
    pub fn constant(c: C, order: u32, nvar: usize) -> (r: Self)
        requires
            c.wf(),
            order <= max_degree(),
        ensures
            r.wf(),
            r.model() == tm_constant::<C>(c.model(), order, nvar),
    {
        let mut poly = Poly::new();
        let ghost cm = c.model();
        if !c.is_zero() {
            let z = zero_exp(nvar);
            poly.add_term(z, c);
            proof {
                lemma_zeros_degree(nvar as nat);
            }
        }
        assert(poly.model() =~= constant_terms::<C>(cm, nvar as nat));
        let r = TaylorModel { poly, rem: C::zero(), order, nvar };
        r
    }

    /// A bare (dimension-agnostic) constant.
    fn bare(c: C) -> (r: Self)
        requires
            c.wf(),
        ensures
            r.wf(),
            r.model() == tm_bare::<C>(c.model()),
    {
        let mut poly = Poly::new();
        let ghost cm = c.model();
        if !c.is_zero() {
            poly.add_term(Vec::new(), c);
            proof {
                lemma_zeros_degree(0);
                assert(zeros(0) =~= Seq::<u32>::empty());
            }
        }
        assert(poly.model() =~= constant_terms::<C>(cm, 0));
        TaylorModel { poly, rem: C::zero(), order: 0, nvar: 0 }
    }

    /// True if this is a bare (dimension-agnostic) constant.
    pub fn is_bare(&self) -> (r: bool)
        ensures
            r == (self.nvar == 0),
    {
        self.nvar == 0
    }

    /// Model of the physical coordinate `x_i = center + half · s_i`,
    /// `s_i ∈ [-1, 1]`, in the normalized variables `s`.
    pub fn variable(i: usize, order: u32, nvar: usize, center: C, half: C) -> (r: Self)
        requires
            i < nvar,
            center.wf(),
            half.wf(),
            order <= max_degree(),
        ensures
            r.wf(),
            r.model() == tm_variable::<C>(i as nat, order, nvar, center.model(), half.model()),
    {
        let ghost cm = center.model();
        let ghost hm = half.model();
        let mut poly = Poly::new();
        proof {
            lemma_zeros_degree(nvar as nat);
            lemma_unit_degree(i as nat, nvar as nat);
            lemma_zeros_before_unit(i as nat, nvar as nat, 0);
            crate::poly::lemma_lex_order(unit_exp(i as nat, nvar as nat), zeros(nvar as nat), zeros(nvar as nat));
        }
        if !center.is_zero() {
            poly.add_term(zero_exp(nvar), center);
        }
        assert(poly.model() =~= constant_terms::<C>(cm, nvar as nat));
        let mut e = zero_exp(nvar);
        e.set(i, 1);
        assert(e@ =~= unit_exp(i as nat, nvar as nat));
        let ghost before = poly.model();
        poly.add_term(e, half);
        proof {
            crate::poly::lemma_lower_bound(before, unit_exp(i as nat, nvar as nat));
            assert(lower_bound(before, unit_exp(i as nat, nvar as nat)) == before.len());
        }
        assert(poly.model() =~= before.push((unit_exp(i as nat, nvar as nat), hm)));
        TaylorModel { poly, rem: C::zero(), order, nvar }
    }

    /// A bare constant re-keyed to `(order, nvar)`; a copy of any other model.
    fn promote(&self, order: u32, nvar: usize) -> (r: Self)
        requires
            self.wf(),
            order <= max_degree(),
        ensures
            r.wf(),
            r.model() == tm_promote::<C>(self.model(), order, nvar),
    {
        if !self.is_bare() {
            return self.dup();
        }
        let empty: Exp = Vec::new();
        assert(empty@ =~= Seq::<u32>::empty());
        let c = match self.poly.get(&empty) {
            Some(c) => c.dup(),
            None => C::zero(),
        };
        let mut r = TaylorModel::constant(c, order, nvar);
        r.rem = self.rem.dup();
        r
    }

    /// The `(order, nvar)` of a pair: the first operand's unless it is bare.
    fn dims(a: &Self, b: &Self) -> (r: (u32, usize))
        ensures
            r == tm_dims(a.model(), b.model()),
    {
        if !a.is_bare() {
            (a.order, a.nvar)
        } else {
            (b.order, b.nvar)
        }
    }

    /// The same model without its exactly-zero coefficients.
    fn clean(self) -> (r: Self)
        requires
            self.wf(),
        ensures
            r.wf(),
            r.model() == (keep_nonzero::<C>(self.model().0), self.model().1, self.order, self.nvar),
    {
        let poly = self.poly.without_zeros();
        TaylorModel { poly, rem: self.rem, order: self.order, nvar: self.nvar }
    }

    /// Multiply by a scalar coefficient (coefficients and remainder scale).
    pub fn scale(&self, alpha: C) -> (r: Self)
        requires
            self.wf(),
            alpha.wf(),
        ensures
            r.wf(),
            r.model() == tm_scale::<C>(self.model(), alpha.model()),
            r.rem.model() == C::mul_spec(self.rem.model(), alpha.model()),
            r.order == self.order,
            r.nvar == self.nvar,
    {
        let poly = self.poly.scaled(&alpha);
        let r = TaylorModel {
            poly,
            rem: self.rem.dup().mul(alpha),
            order: self.order,
            nvar: self.nvar,
        };
        proof {
            assert forall|p: int| 0 <= p < r.poly.model().len() implies degree(
                #[trigger] r.poly.model()[p].0,
            ) <= max_degree() by {
                assert(r.poly.model()[p].0 == self.poly.model()[p].0);
            }
        }
        r.clean()
    }

    /// Enclosure of the whole model over `[-1, 1]^n`: `p(D) + I`.
    pub fn bound(&self) -> (r: C)
        requires
            self.wf(),
        ensures
            r.wf(),
            r.model() == C::add_spec(
                bound_fold::<C>(self.poly.model(), self.poly.model().len()),
                self.rem.model(),
            ),
    {
        self.poly.bound_over_domain().add(self.rem.dup())
    }

    /// The constant (degree-0) coefficient.
    pub fn const_part(&self) -> (r: C)
        requires
            self.wf(),
        ensures
            r.wf(),
            r.model() == match lookup(self.poly.model(), zeros(self.nvar as nat)) {
                Some(c) => c,
                None => C::zero_spec(),
            },
    {
        let z = zero_exp(self.nvar);
        match self.poly.get(&z) {
            Some(c) => c.dup(),
            None => C::zero(),
        }
    }

    /// The polynomial part at the given variable values:
    /// `Σ c_e Π var(i)^{e_i}`.
    pub fn eval_terms(&self, vars: &[C]) -> (r: C)
        requires
            self.wf(),
            forall|i: int| 0 <= i < vars@.len() ==> #[trigger] vars@[i].wf(),
            vars_cover(self.poly.model(), vars@.len()),
        ensures
            r.wf(),
            r.model() == eval_fold::<C>(
                self.poly.model(),
                vars@.map_values(|v: C| v.model()),
                self.poly.model().len(),
            ),
    {
        self.poly.eval_terms(vars)
    }

    /// Enclosure of polynomial plus remainder over a box of variable
    /// ranges (or at a point, given point enclosures).
    pub fn bound_over(&self, box_iv: &[C]) -> (r: C)
        requires
            self.wf(),
            forall|i: int| 0 <= i < box_iv@.len() ==> #[trigger] box_iv@[i].wf(),
            vars_cover(self.poly.model(), box_iv@.len()),
        ensures
            r.wf(),
            r.model() == C::add_spec(
                eval_fold::<C>(
                    self.poly.model(),
                    box_iv@.map_values(|v: C| v.model()),
                    self.poly.model().len(),
                ),
                self.rem.model(),
            ),
    {
        self.eval_terms(box_iv).add(self.rem.dup())
    }
}

impl<C: Coefficient> Scalar for TaylorModel<C> {
    type Model = TmModel<C::Model>;

    open spec fn model(&self) -> TmModel<C::Model> {
        (self.poly.model(), self.rem.model(), self.order, self.nvar)
    }

    open spec fn wf(&self) -> bool {
        &&& self.poly.wf()
        &&& self.rem.wf()
        &&& self.degrees_ok()
    }

    open spec fn add_spec(a: TmModel<C::Model>, b: TmModel<C::Model>) -> TmModel<C::Model> {
        tm_add::<C>(a, b)
    }

    open spec fn sub_spec(a: TmModel<C::Model>, b: TmModel<C::Model>) -> TmModel<C::Model> {
        tm_sub::<C>(a, b)
    }

    open spec fn mul_spec(a: TmModel<C::Model>, b: TmModel<C::Model>) -> TmModel<C::Model> {
        tm_mul::<C>(a, b)
    }

    open spec fn neg_spec(a: TmModel<C::Model>) -> TmModel<C::Model> {
        tm_neg::<C>(a)
    }

    open spec fn one_spec() -> TmModel<C::Model> {
        tm_bare::<C>(C::one_spec())
    }

    open spec fn zero_spec() -> TmModel<C::Model> {
        tm_bare::<C>(C::zero_spec())
    }

    open spec fn div_spec(a: TmModel<C::Model>, d: u32) -> TmModel<C::Model> {
        tm_scale::<C>(a, C::recip_spec(d))
    }

    open spec fn powi_spec(a: TmModel<C::Model>, n: u32) -> TmModel<C::Model> {
        powi_tree(tm_mul_fn::<C>(), tm_bare::<C>(C::one_spec()), a, n as nat)
    }

    fn dup(&self) -> (r: Self) {
        TaylorModel { poly: self.poly.dup(), rem: self.rem.dup(), order: self.order, nvar: self.nvar }
    }

    fn add(self, o: Self) -> (r: Self) {
        let (order, nvar) = TaylorModel::dims(&self, &o);
        let a = self.promote(order, nvar);
        let b = o.promote(order, nvar);
        let ghost q = b.poly.model();
        let mut poly = a.poly;
        let mut j: usize = 0;
        while j < b.poly.len()
            invariant
                b.wf(),
                q == b.poly.model(),
                j <= q.len(),
                poly.wf(),
                degrees_within(poly.model(), max_degree()),
                poly.model() == add_fold::<C>(a.poly.model(), q, j as nat),
            decreases q.len() - j,
        {
            let e = b.poly.key(j).clone();
            assert(e@ =~= q[j as int].0);
            let c = b.poly.coeff(j).dup();
            proof {
                lemma_upsert_degrees(
                    poly.model(),
                    e@,
                    |x: C::Model| C::add_spec(x, c.model()),
                    c.model(),
                    max_degree(),
                );
            }
            poly.add_term(e, c);
            j = j + 1;
        }
        let r = TaylorModel { poly, rem: a.rem.add(b.rem), order, nvar };
        r.clean()
    }

    fn sub(self, o: Self) -> (r: Self) {
        let (order, nvar) = TaylorModel::dims(&self, &o);
        let a = self.promote(order, nvar);
        let b = o.promote(order, nvar);
        let ghost q = b.poly.model();
        let mut poly = a.poly;
        let mut j: usize = 0;
        while j < b.poly.len()
            invariant
                b.wf(),
                q == b.poly.model(),
                j <= q.len(),
                poly.wf(),
                degrees_within(poly.model(), max_degree()),
                poly.model() == sub_fold::<C>(a.poly.model(), q, j as nat),
            decreases q.len() - j,
        {
            let e = b.poly.key(j).clone();
            assert(e@ =~= q[j as int].0);
            let c = b.poly.coeff(j).dup();
            proof {
                lemma_upsert_degrees(
                    poly.model(),
                    e@,
                    |x: C::Model| C::sub_spec(x, c.model()),
                    C::neg_spec(c.model()),
                    max_degree(),
                );
            }
            poly.sub_term(e, c);
            j = j + 1;
        }
        let r = TaylorModel { poly, rem: a.rem.sub(b.rem), order, nvar };
        r.clean()
    }

    fn neg(self) -> (r: Self) {
        let poly = self.poly.negated();
        let r = TaylorModel { poly, rem: self.rem.neg(), order: self.order, nvar: self.nvar };
        proof {
            assert forall|p: int| 0 <= p < r.poly.model().len() implies degree(
                #[trigger] r.poly.model()[p].0,
            ) <= max_degree() by {
                assert(r.poly.model()[p].0 == self.poly.model()[p].0);
            }
        }
        r
    }

    /// Degree-`k`-truncated product; the excess is swept into the remainder.
    fn mul(self, o: Self) -> (r: Self) {
        let (k, nvar) = TaylorModel::dims(&self, &o);
        let a = self.promote(k, nvar);
        let b = o.promote(k, nvar);
        let ghost p = a.poly.model();
        let ghost q = b.poly.model();
        let unit = C::unit();
        let mut new_poly: Poly<C> = Poly::new();
        let mut over_deg = C::zero();
        let mut i: usize = 0;
        while i < a.poly.len()
            invariant
                a.wf(),
                b.wf(),
                k <= max_degree(),
                p == a.poly.model(),
                q == b.poly.model(),
                i <= p.len(),
                unit.wf(),
                unit.model() == C::unit_spec(),
                new_poly.wf(),
                over_deg.wf(),
                degrees_within(new_poly.model(), max_degree()),
                (new_poly.model(), over_deg.model()) == mul_rows::<C>(
                    (Seq::empty(), C::zero_spec()),
                    p,
                    q,
                    i as nat,
                    k,
                ),
            decreases p.len() - i,
        {
            let ghost row0 = (new_poly.model(), over_deg.model());
            let mut j: usize = 0;
            while j < b.poly.len()
                invariant
                    a.wf(),
                    b.wf(),
                    k <= max_degree(),
                    p == a.poly.model(),
                    q == b.poly.model(),
                    i < p.len(),
                    j <= q.len(),
                    unit.wf(),
                    unit.model() == C::unit_spec(),
                    new_poly.wf(),
                    over_deg.wf(),
                    degrees_within(new_poly.model(), max_degree()),
                    (new_poly.model(), over_deg.model()) == mul_row::<C>(
                        row0,
                        p[i as int],
                        q,
                        j as nat,
                        k,
                    ),
                decreases q.len() - j,
            {
                let e1 = a.poly.key(i);
                let e2 = b.poly.key(j);
                proof {
                    assert(degree(p[i as int].0) <= max_degree());
                    assert(degree(q[j as int].0) <= max_degree());
                    assert forall|x: int| 0 <= x < e1@.len() && x < e2@.len() implies e1@[x] + e2@[x]
                        <= u32::MAX by {
                        lemma_entry_le_degree(e1@, x);
                        lemma_entry_le_degree(e2@, x);
                    }
                    lemma_degree_exp_sum(e1@, e2@);
                }
                let e = exp_add(e1, e2);
                let prod = a.poly.coeff(i).dup().mul(b.poly.coeff(j).dup());
                let deg = exp_degree(&e);
                if deg <= k {
                    proof {
                        lemma_upsert_degrees(
                            new_poly.model(),
                            e@,
                            |x: C::Model| C::add_spec(x, prod.model()),
                            prod.model(),
                            max_degree(),
                        );
                    }
                    new_poly.add_term(e, prod);
                } else {
                    over_deg = over_deg.add(prod.mul(unit.dup()));
                }
                j = j + 1;
            }
            i = i + 1;
        }
        // (p1 + I1)(p2 + I2) = p1 p2 + p1 I2 + I1 p2 + I1 I2
        let b1 = a.poly.bound_over_domain();
        let b2 = b.poly.bound_over_domain();
        let rem = over_deg.add(b1.mul(b.rem.dup())).add(a.rem.dup().mul(b2)).add(
            a.rem.dup().mul(b.rem.dup()),
        );
        let r = TaylorModel { poly: new_poly, rem, order: k, nvar };
        r.clean()
    }

    fn one() -> (r: Self) {
        TaylorModel::bare(C::one())
    }

    fn zero() -> (r: Self) {
        TaylorModel::bare(C::zero())
    }

    /// Rigorous: scale by an enclosure of the true rational `1/d`.
    fn div_u32(self, d: u32) -> (r: Self) {
        self.scale(C::recip_u32(d))
    }

    /// Binary exponentiation over the truncated product (see
    /// [`crate::scalar::powi_by_squaring`]).
    fn powi(self, n: u32) -> (r: Self) {
        if n == 0 {
            return Self::one();
        }
        let ghost x = self.model();
        let ghost op = tm_mul_fn::<C>();
        let mut k = n;
        let mut base = self;
        let mut acc: Option<Self> = None;
        proof {
            lemma_pow_tree_some(op, None, x, n as nat);
        }
        while k > 0
            invariant
                base.wf(),
                acc matches Some(a) ==> a.wf(),
                op == tm_mul_fn::<C>(),
                pow_tree(op, tm_model_of(acc), base.model(), k as nat) == pow_tree(
                    op,
                    None,
                    x,
                    n as nat,
                ),
                pow_tree(op, None, x, n as nat) is Some,
            decreases k,
        {
            let ghost acc_m = tm_model_of(acc);
            let ghost base_m = base.model();
            let ghost kk = k as nat;
            assert(k & 1 == k % 2) by (bit_vector);
            assert(k >> 1 == k / 2) by (bit_vector);
            if k & 1 == 1 {
                acc = Some(
                    match acc {
                        None => base.dup(),
                        Some(a) => a.mul(base.dup()),
                    },
                );
            }
            k = k >> 1;
            if k > 0 {
                base = base.dup().mul(base);
            }
            assert(pow_tree(op, acc_m, base_m, kk) == pow_tree(
                op,
                tm_model_of(acc),
                base.model(),
                k as nat,
            ));
        }
        match acc {
            Some(a) => a,
            None => Self::one(),
        }
    }
}

/// The model of an optional accumulator.
pub open spec fn tm_model_of<C: Coefficient>(acc: Option<TaylorModel<C>>) -> Option<TmModel<C::Model>> {
    match acc {
        Some(a) => Some((a.poly.model(), a.rem.model(), a.order, a.nvar)),
        None => None,
    }
}

} // verus!
