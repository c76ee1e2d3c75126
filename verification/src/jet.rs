//! [`Jet`]: truncated power series in time, `Σ_{j=0}^{order} c[j] · t^j`,
//! with [`Scalar`] coefficients.
//!
//! `Jet<A>` is itself a [`Scalar`] (multiplication is the Cauchy product), so
//! evaluating any [`System`] on jets expands its solution in time
//! automatically; [`time_series`] runs that recurrence:
//!
//! ```text
//!     (j+1) A[j+1] = [ f(x) ]_j
//! ```
//!
//! Knowing `A[0..=j]`, the field is evaluated on jets of order `j` carrying
//! those coefficients, and the `j`-th coefficient of each component of the
//! result, divided by `j+1`, is the next solution coefficient.

use vstd::prelude::*;

use crate::scalar::{lemma_pow_tree_some, pow_tree, powi_tree, Scalar};
use crate::system::System;

verus! {

/// A truncated time-power series `Σ c[j] t^j`, `j = 0..=order`, with
/// coefficients in the [`Scalar`] algebra `A`.
#[derive(Clone)]
pub struct Jet<A: Scalar> {
    /// Coefficients `c[0..=order]`; `c[j]` multiplies `t^j`.
    pub c: Vec<A>,
}

/// Models of a sequence of coefficients.
pub open spec fn models<A: Scalar>(c: Seq<A>) -> Seq<A::Model> {
    c.map_values(|x: A| x.model())
}

/// Every coefficient is well formed.
pub open spec fn all_wf<A: Scalar>(c: Seq<A>) -> bool {
    forall|i: int| 0 <= i < c.len() ==> #[trigger] c[i].wf()
}

/// The `j`-th coefficient of a series model, zero past its end.
pub open spec fn coeff_at<A: Scalar>(s: Seq<A::Model>, j: int) -> A::Model {
    if 0 <= j < s.len() {
        s[j]
    } else {
        A::zero_spec()
    }
}

/// The larger of two lengths.
pub open spec fn max_len(a: nat, b: nat) -> nat {
    if a >= b {
        a
    } else {
        b
    }
}

/// Coefficient-wise sum, padded with zeros to the longer operand.
pub open spec fn series_add<A: Scalar>(a: Seq<A::Model>, b: Seq<A::Model>) -> Seq<A::Model> {
    Seq::new(
        max_len(a.len(), b.len()),
        |j: int| A::add_spec(coeff_at::<A>(a, j), coeff_at::<A>(b, j)),
    )
}

/// Coefficient-wise difference, padded with zeros to the longer operand.
pub open spec fn series_sub<A: Scalar>(a: Seq<A::Model>, b: Seq<A::Model>) -> Seq<A::Model> {
    Seq::new(
        max_len(a.len(), b.len()),
        |j: int| A::sub_spec(coeff_at::<A>(a, j), coeff_at::<A>(b, j)),
    )
}

/// Coefficient-wise negation.
pub open spec fn series_neg<A: Scalar>(a: Seq<A::Model>) -> Seq<A::Model> {
    a.map_values(|x: A::Model| A::neg_spec(x))
}

/// Coefficient-wise division by `d`.
pub open spec fn series_div<A: Scalar>(a: Seq<A::Model>, d: u32) -> Seq<A::Model> {
    a.map_values(|x: A::Model| A::div_spec(x, d))
}

/// The first `m` terms of the `k`-th Cauchy coefficient, accumulated from
/// zero in the order `a[0] b[k], a[1] b[k-1], ...`.
pub open spec fn cauchy<A: Scalar>(a: Seq<A::Model>, b: Seq<A::Model>, k: int, m: nat) -> A::Model
    decreases m,
{
    if m == 0 {
        A::zero_spec()
    } else {
        A::add_spec(
            cauchy::<A>(a, b, k, (m - 1) as nat),
            A::mul_spec(a[m - 1], b[k - (m - 1)]),
        )
    }
}

/// The product of two series: a single-coefficient operand is a scalar and
/// multiplies every coefficient of the other (left factor first); otherwise
/// the Cauchy product truncated to the smaller order.
pub open spec fn series_mul<A: Scalar>(a: Seq<A::Model>, b: Seq<A::Model>) -> Seq<A::Model> {
    if a.len() == 1 {
        b.map_values(|x: A::Model| A::mul_spec(a[0], x))
    } else if b.len() == 1 {
        a.map_values(|x: A::Model| A::mul_spec(x, b[0]))
    } else {
        let n = if a.len() <= b.len() {
            a.len()
        } else {
            b.len()
        };
        Seq::new(n, |k: int| cauchy::<A>(a, b, k, (k + 1) as nat))
    }
}

/// A series model of `order + 1` coefficients: `c0` then zeros.
pub open spec fn constant_series<A: Scalar>(c0: A::Model, order: nat) -> Seq<A::Model> {
    Seq::new(order + 1, |j: int| if j == 0 { c0 } else { A::zero_spec() })
}

/// The model of an optional jet accumulator.
pub open spec fn jet_model_of<A: Scalar>(acc: Option<Jet<A>>) -> Option<Seq<A::Model>> {
    match acc {
        Some(a) => Some(models(a.c@)),
        None => None,
    }
}

/// [`series_mul`] as a function value.
pub open spec fn series_mul_fn<A: Scalar>() -> spec_fn(Seq<A::Model>, Seq<A::Model>) -> Seq<
    A::Model,
> {
    |a: Seq<A::Model>, b: Seq<A::Model>| series_mul::<A>(a, b)
}

impl<A: Scalar> Jet<A> {
    /// Maximum time order retained: one less than the number of coefficients.
    pub fn order(&self) -> (r: usize)
        requires
            self.c.len() >= 1,
        ensures
            r == self.c.len() - 1,
    {
        self.c.len() - 1
    }

    /// A constant jet `c0 + 0·t + …` of the given order.
    pub fn constant(c0: A, order: usize) -> (r: Self)
        requires
            c0.wf(),
            order < usize::MAX,
        ensures
            r.wf(),
            r.model() == constant_series::<A>(c0.model(), order as nat),
    {
        let ghost m0 = c0.model();
        let mut c: Vec<A> = Vec::new();
        c.push(c0);
        let mut j: usize = 0;
        while j < order
            invariant
                j <= order,
                c.len() == j + 1,
                all_wf(c@),
                c@[0].model() == m0,
                forall|i: int| 1 <= i < c.len() ==> #[trigger] c@[i].model() == A::zero_spec(),
            decreases order - j,
        {
            c.push(A::zero());
            j = j + 1;
        }
        let r = Jet { c };
        assert(r.model() =~= constant_series::<A>(m0, order as nat));
        r
    }

    /// A seed jet for a state variable: value `c0` at `t = 0`, all higher
    /// coefficients zero (they are filled in by the recurrence).
    pub fn seed(c0: A, order: usize) -> (r: Self)
        requires
            c0.wf(),
            order < usize::MAX,
        ensures
            r.wf(),
            r.model() == constant_series::<A>(c0.model(), order as nat),
    {
        Jet::constant(c0, order)
    }

    /// The `j`-th coefficient (zero if out of range).
    pub fn coeff(&self, j: usize) -> (r: A)
        requires
            all_wf(self.c@),
        ensures
            r.wf(),
            r.model() == coeff_at::<A>(models(self.c@), j as int),
    {
        if j < self.c.len() {
            self.c[j].dup()
        } else {
            A::zero()
        }
    }
}

impl<A: Scalar> Scalar for Jet<A> {
    type Model = Seq<A::Model>;

    open spec fn model(&self) -> Seq<A::Model> {
        models(self.c@)
    }

    open spec fn wf(&self) -> bool {
        self.c.len() >= 1 && all_wf(self.c@)
    }

    open spec fn add_spec(a: Seq<A::Model>, b: Seq<A::Model>) -> Seq<A::Model> {
        series_add::<A>(a, b)
    }

    open spec fn sub_spec(a: Seq<A::Model>, b: Seq<A::Model>) -> Seq<A::Model> {
        series_sub::<A>(a, b)
    }

    open spec fn mul_spec(a: Seq<A::Model>, b: Seq<A::Model>) -> Seq<A::Model> {
        series_mul::<A>(a, b)
    }

    open spec fn neg_spec(a: Seq<A::Model>) -> Seq<A::Model> {
        series_neg::<A>(a)
    }

    open spec fn one_spec() -> Seq<A::Model> {
        seq![A::one_spec()]
    }

    open spec fn zero_spec() -> Seq<A::Model> {
        seq![A::zero_spec()]
    }

    open spec fn div_spec(a: Seq<A::Model>, d: u32) -> Seq<A::Model> {
        series_div::<A>(a, d)
    }

    open spec fn powi_spec(a: Seq<A::Model>, n: u32) -> Seq<A::Model> {
        powi_tree(series_mul_fn::<A>(), seq![A::one_spec()], a, n as nat)
    }

    fn dup(&self) -> (r: Self) {
        let mut c: Vec<A> = Vec::new();
        let mut j: usize = 0;
        while j < self.c.len()
            invariant
                j <= self.c.len(),
                all_wf(self.c@),
                c.len() == j,
                all_wf(c@),
                forall|i: int| 0 <= i < j ==> #[trigger] c@[i].model() == self.c@[i].model(),
            decreases self.c.len() - j,
        {
            c.push(self.c[j].dup());
            j = j + 1;
        }
        let r = Jet { c };
        assert(r.model() =~= self.model());
        r
    }

    fn add(self, o: Self) -> (r: Self) {
        let n = if self.c.len() >= o.c.len() {
            self.c.len()
        } else {
            o.c.len()
        };
        let mut c: Vec<A> = Vec::new();
        let mut j: usize = 0;
        while j < n
            invariant
                j <= n,
                n == max_len(self.c.len() as nat, o.c.len() as nat),
                all_wf(self.c@),
                all_wf(o.c@),
                c.len() == j,
                all_wf(c@),
                forall|i: int|
                    0 <= i < j ==> #[trigger] c@[i].model() == A::add_spec(
                        coeff_at::<A>(models(self.c@), i),
                        coeff_at::<A>(models(o.c@), i),
                    ),
            decreases n - j,
        {
            c.push(self.coeff(j).add(o.coeff(j)));
            j = j + 1;
        }
        let r = Jet { c };
        assert(r.model() =~= series_add::<A>(self.model(), o.model()));
        r
    }

    fn sub(self, o: Self) -> (r: Self) {
        let n = if self.c.len() >= o.c.len() {
            self.c.len()
        } else {
            o.c.len()
        };
        let mut c: Vec<A> = Vec::new();
        let mut j: usize = 0;
        while j < n
            invariant
                j <= n,
                n == max_len(self.c.len() as nat, o.c.len() as nat),
                all_wf(self.c@),
                all_wf(o.c@),
                c.len() == j,
                all_wf(c@),
                forall|i: int|
                    0 <= i < j ==> #[trigger] c@[i].model() == A::sub_spec(
                        coeff_at::<A>(models(self.c@), i),
                        coeff_at::<A>(models(o.c@), i),
                    ),
            decreases n - j,
        {
            c.push(self.coeff(j).sub(o.coeff(j)));
            j = j + 1;
        }
        let r = Jet { c };
        assert(r.model() =~= series_sub::<A>(self.model(), o.model()));
        r
    }

    fn neg(self) -> (r: Self) {
        let mut c: Vec<A> = Vec::new();
        let mut j: usize = 0;
        while j < self.c.len()
            invariant
                j <= self.c.len(),
                all_wf(self.c@),
                c.len() == j,
                all_wf(c@),
                forall|i: int|
                    0 <= i < j ==> #[trigger] c@[i].model() == A::neg_spec(self.c@[i].model()),
            decreases self.c.len() - j,
        {
            c.push(self.c[j].dup().neg());
            j = j + 1;
        }
        let r = Jet { c };
        assert(r.model() =~= series_neg::<A>(self.model()));
        r
    }

    fn mul(self, o: Self) -> (r: Self) {
        let ghost am = self.model();
        let ghost bm = o.model();
        // A single-coefficient jet is a scalar: broadcast it over the other
        // operand instead of truncating the product to order 0.
        if self.order() == 0 {
            let s = self.coeff(0);
            let mut c: Vec<A> = Vec::new();
            let mut j: usize = 0;
            while j < o.c.len()
                invariant
                    j <= o.c.len(),
                    all_wf(o.c@),
                    s.wf(),
                    s.model() == am[0],
                    c.len() == j,
                    all_wf(c@),
                    forall|i: int|
                        0 <= i < j ==> #[trigger] c@[i].model() == A::mul_spec(
                            am[0],
                            o.c@[i].model(),
                        ),
                decreases o.c.len() - j,
            {
                c.push(s.dup().mul(o.c[j].dup()));
                j = j + 1;
            }
            let r = Jet { c };
            assert(r.model() =~= series_mul::<A>(am, bm));
            return r;
        }
        if o.order() == 0 {
            let s = o.coeff(0);
            let mut c: Vec<A> = Vec::new();
            let mut j: usize = 0;
            while j < self.c.len()
                invariant
                    j <= self.c.len(),
                    all_wf(self.c@),
                    s.wf(),
                    s.model() == bm[0],
                    c.len() == j,
                    all_wf(c@),
                    forall|i: int|
                        0 <= i < j ==> #[trigger] c@[i].model() == A::mul_spec(
                            self.c@[i].model(),
                            bm[0],
                        ),
                decreases self.c.len() - j,
            {
                c.push(self.c[j].dup().mul(s.dup()));
                j = j + 1;
            }
            let r = Jet { c };
            assert(r.model() =~= series_mul::<A>(am, bm));
            return r;
        }
        let order = if self.order() <= o.order() {
            self.order()
        } else {
            o.order()
        };
        let mut c: Vec<A> = Vec::new();
        let mut z: usize = 0;
        while z <= order
            invariant
                z <= order + 1,
                order < self.c.len(),
                order < o.c.len(),
                c.len() == z,
                all_wf(c@),
                forall|k: int| 0 <= k < z ==> #[trigger] c@[k].model() == A::zero_spec(),
            decreases order + 1 - z,
        {
            c.push(A::zero());
            z = z + 1;
        }
        let mut i: usize = 0;
        while i <= order
            invariant
                i <= order + 1,
                order < self.c.len(),
                order < o.c.len(),
                all_wf(self.c@),
                all_wf(o.c@),
                am == models(self.c@),
                bm == models(o.c@),
                c.len() == order + 1,
                all_wf(c@),
                forall|k: int|
                    0 <= k <= order ==> #[trigger] c@[k].model() == cauchy::<A>(
                        am,
                        bm,
                        k,
                        if i <= k {
                            i as nat
                        } else {
                            (k + 1) as nat
                        },
                    ),
            decreases order + 1 - i,
        {
            let mut j: usize = 0;
            while j <= order - i
                invariant
                    i <= order,
                    j <= order - i + 1,
                    order < self.c.len(),
                    order < o.c.len(),
                    all_wf(self.c@),
                    all_wf(o.c@),
                    am == models(self.c@),
                    bm == models(o.c@),
                    c.len() == order + 1,
                    all_wf(c@),
                    forall|k: int|
                        0 <= k <= order ==> #[trigger] c@[k].model() == cauchy::<A>(
                            am,
                            bm,
                            k,
                            if k < i {
                                (k + 1) as nat
                            } else if k < i + j {
                                (i + 1) as nat
                            } else {
                                i as nat
                            },
                        ),
                decreases order - i + 1 - j,
            {
                let t = c[i + j].dup().add(self.coeff(i).mul(o.coeff(j)));
                c.set(i + j, t);
                j = j + 1;
            }
            i = i + 1;
        }
        let r = Jet { c };
        assert(r.model() =~= series_mul::<A>(am, bm));
        r
    }

    fn one() -> (r: Self) {
        let r = Jet { c: vec![A::one()] };
        assert(r.model() =~= seq![A::one_spec()]);
        r
    }

    fn zero() -> (r: Self) {
        let r = Jet { c: vec![A::zero()] };
        assert(r.model() =~= seq![A::zero_spec()]);
        r
    }

    fn div_u32(self, d: u32) -> (r: Self) {
        let mut c: Vec<A> = Vec::new();
        let mut j: usize = 0;
        while j < self.c.len()
            invariant
                j <= self.c.len(),
                d >= 1,
                all_wf(self.c@),
                c.len() == j,
                all_wf(c@),
                forall|i: int|
                    0 <= i < j ==> #[trigger] c@[i].model() == A::div_spec(self.c@[i].model(), d),
            decreases self.c.len() - j,
        {
            c.push(self.c[j].dup().div_u32(d));
            j = j + 1;
        }
        let r = Jet { c };
        assert(r.model() =~= series_div::<A>(self.model(), d));
        r
    }

    /// Binary exponentiation over the Cauchy product (see
    /// [`crate::scalar::powi_by_squaring`]).
    fn powi(self, n: u32) -> (r: Self) {
        if n == 0 {
            return Self::one();
        }
        let ghost x = self.model();
        let ghost op = series_mul_fn::<A>();
        let mut k = n;
        let mut base = self;
        let mut acc: Option<Self> = None;
        proof {
            lemma_pow_tree_some(op, None, x, n as nat);
        }
        while k > 0
            invariant
                base.wf(),
                acc matches Some(a) ==> a.wf(),
                op == series_mul_fn::<A>(),
                pow_tree(op, jet_model_of(acc), base.model(), k as nat) == pow_tree(
                    op,
                    None,
                    x,
                    n as nat,
                ),
                pow_tree(op, None, x, n as nat) is Some,
            decreases k,
        {
            let ghost acc_m = jet_model_of(acc);
            let ghost base_m = base.model();
            let ghost kk = k as nat;
            assert(k & 1 == k % 2) by (bit_vector);
            assert(k >> 1 == k / 2) by (bit_vector);
            if k & 1 == 1 {
                acc = Some(
                    match acc {
                        None => base.dup(),
                        Some(a) => a.mul(base.dup()),
                    },
                );
            }
            k = k >> 1;
            if k > 0 {
                base = base.dup().mul(base);
            }
            assert(pow_tree(op, acc_m, base_m, kk) == pow_tree(
                op,
                jet_model_of(acc),
                base.model(),
                k as nat,
            ));
        }
        match acc {
            Some(a) => a,
            None => Self::one(),
        }
    }
}

/// The solution coefficients of `x' = f(x)`, `x(0) = x0`, after `j` rounds
/// of the recurrence: per component, `A[0] = x0` and
/// `A[m+1] = [f(A[0..=m])]_m / (m+1)`, where `f` is applied to the jets
/// carrying the coefficients known so far.
pub open spec fn series<S: System<Jet<A>, N>, const N: usize, A: Scalar>(
    sys: &S,
    x0: Seq<A::Model>,
    j: nat,
) -> Seq<Seq<A::Model>>
    decreases j,
{
    if j == 0 {
        x0.map_values(|v: A::Model| seq![v])
    } else {
        let prev = series::<S, N, A>(sys, x0, (j - 1) as nat);
        let f = sys.field(prev);
        Seq::new(
            prev.len(),
            |i: int| prev[i].push(A::div_spec(coeff_at::<A>(f[i], (j - 1) as int), j as u32)),
        )
    }
}

/// Law: addition and subtraction of series pad to the longer operand. The
/// result has as many coefficients as the longer operand, whichever side it
/// is on, and coefficient `j` combines coefficient `j` of each operand
/// (zero past an operand's end).
pub proof fn lemma_series_add_sub_pad<A: Scalar>(a: Seq<A::Model>, b: Seq<A::Model>)
    ensures
        series_add::<A>(a, b).len() == if a.len() >= b.len() {
            a.len()
        } else {
            b.len()
        },
        series_add::<A>(a, b).len() == series_add::<A>(b, a).len(),
        series_sub::<A>(a, b).len() == series_add::<A>(a, b).len(),
        forall|j: int|
            0 <= j < series_add::<A>(a, b).len() ==> #[trigger] series_add::<A>(a, b)[j]
                == A::add_spec(
                if j < a.len() {
                    a[j]
                } else {
                    A::zero_spec()
                },
                if j < b.len() {
                    b[j]
                } else {
                    A::zero_spec()
                },
            ),
        forall|j: int|
            0 <= j < series_sub::<A>(a, b).len() ==> #[trigger] series_sub::<A>(a, b)[j]
                == A::sub_spec(
                if j < a.len() {
                    a[j]
                } else {
                    A::zero_spec()
                },
                if j < b.len() {
                    b[j]
                } else {
                    A::zero_spec()
                },
            ),
{
}

/// Law: negation and division by `d` act on every coefficient and keep
/// the number of coefficients.
pub proof fn lemma_series_neg_div<A: Scalar>(a: Seq<A::Model>, d: u32)
    ensures
        series_neg::<A>(a).len() == a.len(),
        series_div::<A>(a, d).len() == a.len(),
        forall|j: int| 0 <= j < a.len() ==> #[trigger] series_neg::<A>(a)[j] == A::neg_spec(a[j]),
        forall|j: int|
            0 <= j < a.len() ==> #[trigger] series_div::<A>(a, d)[j] == A::div_spec(a[j], d),
{
}

/// Law: a degree-0 jet is a constant and broadcasts over the other
/// operand's order in a product, on either side; the product keeps every
/// coefficient of the longer operand instead of collapsing to order 0.
pub proof fn lemma_constant_jet_broadcasts<A: Scalar>(c: A::Model, b: Seq<A::Model>)
    ensures
        series_mul::<A>(seq![c], b).len() == b.len(),
        series_mul::<A>(b, seq![c]).len() == b.len(),
        forall|j: int|
            0 <= j < b.len() ==> #[trigger] series_mul::<A>(seq![c], b)[j] == A::mul_spec(
                c,
                b[j],
            ),
        b.len() != 1 ==> forall|j: int|
            0 <= j < b.len() ==> #[trigger] series_mul::<A>(b, seq![c])[j] == A::mul_spec(
                b[j],
                c,
            ),
{
}

/// Law: asking for more orders only appends coefficients. The recurrence to
/// order `n` has `n + 1` coefficients per component, and its first `m + 1`
/// are those of the recurrence to order `m <= n`.
pub proof fn lemma_series_prefix<S: System<Jet<A>, N>, const N: usize, A: Scalar>(
    sys: &S,
    x0: Seq<A::Model>,
    m: nat,
    n: nat,
)
    requires
        m <= n,
    ensures
        series::<S, N, A>(sys, x0, n).len() == x0.len(),
        forall|i: int|
            0 <= i < x0.len() ==> {
                &&& (#[trigger] series::<S, N, A>(sys, x0, n)[i]).len() == n + 1
                &&& series::<S, N, A>(sys, x0, n)[i].subrange(0, (m + 1) as int) == series::<S, N, A>(
                    sys,
                    x0,
                    m,
                )[i]
            },
    decreases n,
{
    if n == 0 {
        assert forall|i: int| 0 <= i < x0.len() implies (#[trigger] series::<S, N, A>(
            sys,
            x0,
            n,
        )[i]).subrange(0, (m + 1) as int) == series::<S, N, A>(sys, x0, m)[i] by {
            assert(series::<S, N, A>(sys, x0, n)[i].subrange(0, 1) =~= series::<S, N, A>(
                sys,
                x0,
                n,
            )[i]);
        }
    } else {
        let k = (n - 1) as nat;
        lemma_series_prefix::<S, N, A>(sys, x0, k, k);
        if m < n {
            lemma_series_prefix::<S, N, A>(sys, x0, m, k);
        }
        assert forall|i: int| 0 <= i < x0.len() implies {
            &&& (#[trigger] series::<S, N, A>(sys, x0, n)[i]).len() == n + 1
            &&& series::<S, N, A>(sys, x0, n)[i].subrange(0, (m + 1) as int) == series::<S, N, A>(
                sys,
                x0,
                m,
            )[i]
        } by {
            let prev = series::<S, N, A>(sys, x0, k);
            let cur = series::<S, N, A>(sys, x0, n);
            assert(cur[i] == prev[i].push(
                A::div_spec(coeff_at::<A>(sys.field(prev)[i], k as int), n as u32),
            ));
            if m < n {
                assert(cur[i].subrange(0, (m + 1) as int) =~= prev[i].subrange(0, (m + 1) as int));
            } else {
                assert(cur[i].subrange(0, (m + 1) as int) =~= cur[i]);
            }
        }
    }
}

/// std's conversion of a vector into an array, `TryFrom<Vec<T>>` for
/// `[T; N]` (called as `try_into`). The contract claims what std documents:
/// it succeeds exactly when the vector holds `N` items, giving them in
/// order, and otherwise hands the vector back unchanged.
#[verifier::external_body]
fn array_try_from_vec<T, const N: usize>(v: Vec<T>) -> (r: Result<[T; N], Vec<T>>)
    ensures
        v.len() == N ==> r is Ok && r->Ok_0@ == v@,
        v.len() != N ==> r is Err && r->Err_0@ == v@,
{
    v.try_into()
}

/// The `N` items of a vector of length `N`, in order, as an array.
pub(crate) fn array_from_vec<T, const N: usize>(v: Vec<T>) -> (r: [T; N])
    requires
        v.len() == N,
    ensures
        r@ == v@,
{
    array_try_from_vec(v).ok().unwrap()
}

/// Models of rows of coefficients.
pub open spec fn rows_models<A: Scalar>(rows: Seq<Vec<A>>) -> Seq<Seq<A::Model>> {
    rows.map_values(|row: Vec<A>| models(row@))
}

/// Round `j` of the recurrence as it ran: the field was evaluated on the
/// jets `x`, which carry the coefficients `0..=j` of every component (and
/// are well formed), `eval` returned `f` for them, and coefficient `j + 1`
/// of each component is coefficient `j` of `f` divided by `j + 1`.
pub open spec fn round_matches<S: System<Jet<A>, N>, const N: usize, A: Scalar>(
    sys: &S,
    rows: Seq<Seq<A::Model>>,
    j: int,
    x: [Jet<A>; N],
    f: [Jet<A>; N],
) -> bool {
    &&& forall|m: int|
        0 <= m < N ==> (#[trigger] x@[m]).wf() && x@[m].model() == rows[m].subrange(0, j + 1)
    &&& call_ensures(S::eval, (sys, &x), f)
    &&& forall|i: int|
        0 <= i < N ==> #[trigger] rows[i][j + 1] == A::div_spec(
            coeff_at::<A>(f@[i].model(), j),
            (j + 1) as u32,
        )
}

/// Rounds `0..order` of the recurrence, on the jets `xs[j]` with results
/// `fs[j]`, produced the rows.
pub open spec fn recurrence_witness<S: System<Jet<A>, N>, const N: usize, A: Scalar>(
    sys: &S,
    rows: Seq<Seq<A::Model>>,
    order: int,
    xs: Seq<[Jet<A>; N]>,
    fs: Seq<[Jet<A>; N]>,
) -> bool {
    &&& xs.len() == order
    &&& fs.len() == order
    &&& forall|j: int| 0 <= j < order ==> #[trigger] round_matches::<S, N, A>(sys, rows, j, xs[j], fs[j])
}

/// `rows` are the time-Taylor coefficients to order `order` computed by
/// the recurrence from `x0`: per component, `order + 1` coefficients
/// starting with `x0[i]`, each later one obtained from an evaluation of the
/// field on the jets of the coefficients before it.
pub open spec fn is_time_series<S: System<Jet<A>, N>, const N: usize, A: Scalar>(
    sys: &S,
    x0: Seq<A::Model>,
    order: nat,
    rows: Seq<Seq<A::Model>>,
) -> bool {
    &&& rows.len() == N
    &&& forall|i: int|
        0 <= i < N ==> (#[trigger] rows[i]).len() == order + 1 && rows[i][0] == x0[i]
    &&& exists|xs: Seq<[Jet<A>; N]>, fs: Seq<[Jet<A>; N]>|
        #[trigger] recurrence_witness::<S, N, A>(sys, rows, order as int, xs, fs)
}

/// A finished round stays finished when coefficients are appended.
proof fn lemma_round_matches_extend<S: System<Jet<A>, N>, const N: usize, A: Scalar>(
    sys: &S,
    rows: Seq<Seq<A::Model>>,
    rows2: Seq<Seq<A::Model>>,
    j: int,
    k: int,
    x: [Jet<A>; N],
    f: [Jet<A>; N],
)
    requires
        0 <= k < j,
        rows.len() == N,
        rows2.len() == N,
        forall|m: int|
            0 <= m < N ==> (#[trigger] rows[m]).len() == j + 1 && rows2[m].len() >= j + 1
                && rows2[m].subrange(0, j + 1) == rows[m],
        round_matches::<S, N, A>(sys, rows, k, x, f),
    ensures
        round_matches::<S, N, A>(sys, rows2, k, x, f),
{
    assert forall|m: int| 0 <= m < N implies (#[trigger] x@[m]).wf() && x@[m].model()
        == rows2[m].subrange(0, k + 1) by {
        assert(rows[m].len() == j + 1);
        assert(rows2[m].subrange(0, k + 1) =~= rows2[m].subrange(0, j + 1).subrange(0, k + 1));
    }
    assert forall|i: int| 0 <= i < N implies #[trigger] rows2[i][k + 1] == A::div_spec(
        coeff_at::<A>(f@[i].model(), k),
        (k + 1) as u32,
    ) by {
        assert(rows[i].len() == j + 1);
        assert(rows2[i].subrange(0, j + 1)[k + 1] == rows2[i][k + 1]);
        assert(rows[i][k + 1] == A::div_spec(coeff_at::<A>(f@[i].model(), k), (k + 1) as u32));
    }
}

/// The jets one round of the recurrence evaluates the field on: per
/// component, the jet carrying the coefficients computed so far.
pub fn round_jets<A: Scalar>(coeffs: &Vec<Vec<A>>) -> (r: Vec<Jet<A>>)
    requires
        forall|k: int|
            0 <= k < coeffs@.len() ==> all_wf(#[trigger] coeffs@[k]@) && coeffs@[k]@.len() >= 1,
    ensures
        r.len() == coeffs.len(),
        forall|k: int|
            0 <= k < r@.len() ==> (#[trigger] r@[k]).wf() && r@[k].model() == models(
                coeffs@[k]@,
            ),
{
    let mut jets: Vec<Jet<A>> = Vec::new();
    let mut i: usize = 0;
    while i < coeffs.len()
        invariant
            i <= coeffs.len(),
            forall|k: int|
                0 <= k < coeffs@.len() ==> all_wf(#[trigger] coeffs@[k]@) && coeffs@[k]@.len()
                    >= 1,
            jets.len() == i,
            forall|k: int|
                0 <= k < i ==> (#[trigger] jets@[k]).wf() && jets@[k].model() == models(
                    coeffs@[k]@,
                ),
        decreases coeffs.len() - i,
    {
        let mut c: Vec<A> = Vec::new();
        let mut m: usize = 0;
        while m < coeffs[i].len()
            invariant
                i < coeffs.len(),
                all_wf(coeffs@[i as int]@),
                m <= coeffs@[i as int]@.len(),
                c.len() == m,
                all_wf(c@),
                forall|q: int|
                    0 <= q < m ==> #[trigger] c@[q].model() == coeffs@[i as int]@[q].model(),
            decreases coeffs@[i as int]@.len() - m,
        {
            c.push(coeffs[i][m].dup());
            m = m + 1;
        }
        let jet = Jet { c };
        assert(jet.model() =~= models(coeffs@[i as int]@));
        jets.push(jet);
        i = i + 1;
    }
    jets
}

/// Fold the field's value on the jets of round `j` into the coefficients:
/// coefficient `j` of component `i` of `f`, divided by `j + 1`, is appended
/// to row `i`.
pub fn push_next_coefficients<A: Scalar, const N: usize>(
    coeffs: &mut Vec<Vec<A>>,
    f: &[Jet<A>; N],
    j: usize,
)
    requires
        old(coeffs).len() == N,
        j < u32::MAX,
        forall|k: int| 0 <= k < N ==> all_wf(#[trigger] old(coeffs)@[k]@),
        forall|k: int| 0 <= k < N ==> #[trigger] f@[k].wf(),
    ensures
        final(coeffs).len() == N,
        forall|k: int|
            0 <= k < N ==> {
                &&& all_wf(#[trigger] final(coeffs)@[k]@)
                &&& models(final(coeffs)@[k]@) == models(old(coeffs)@[k]@).push(
                    A::div_spec(coeff_at::<A>(f@[k].model(), j as int), (j + 1) as u32),
                )
            },
{
    let d = (j as u32) + 1;
    let ghost before = coeffs@;
    let mut i: usize = 0;
    while i < N
        invariant
            i <= N,
            d == j + 1,
            coeffs.len() == N,
            before.len() == N,
            forall|k: int| 0 <= k < N ==> #[trigger] f@[k].wf(),
            forall|k: int| i <= k < N ==> #[trigger] coeffs@[k] == before[k],
            forall|k: int| 0 <= k < N ==> all_wf(#[trigger] before[k]@),
            forall|k: int|
                0 <= k < i ==> {
                    &&& all_wf(#[trigger] coeffs@[k]@)
                    &&& models(coeffs@[k]@) == models(before[k]@).push(
                        A::div_spec(coeff_at::<A>(f@[k].model(), j as int), d),
                    )
                },
        decreases N - i,
    {
        assert(f@[i as int].wf());
        let fj = f[i].coeff(j);
        let v = fj.div_u32(d);
        let ghost old_row = coeffs@[i as int]@;
        coeffs[i].push(v);
        assert(models(coeffs@[i as int]@) =~= models(old_row).push(v.model()));
        i = i + 1;
    }
}

/// The time-Taylor coefficients `A[0..=order]` of the solution of
/// `x' = f(x)` with `x(0) = x0`, in the coefficient algebra `A`: per state
/// component (outer index), the coefficients by time order (inner index).
///
/// Works for any [`System`], since it only evaluates the field on [`Jet`]s:
/// for each `j < order`, `eval` is called on the jets carrying `A[0..=j]`,
/// and `A[j+1]` is coefficient `j` of its result divided by `j+1` (with the
/// algebra's rigorous `div_u32`). When the system describes its field, the
/// coefficients are those of [`series`].
pub fn time_series<S, const N: usize, A: Scalar>(sys: &S, x0: &[A; N], order: usize) -> (r: [Vec<
    A,
>; N]) where S: System<Jet<A>, N>
    requires
        forall|i: int| 0 <= i < N ==> #[trigger] x0@[i].wf(),
        order <= u32::MAX,
    ensures
        forall|i: int|
            0 <= i < N ==> {
                &&& all_wf(#[trigger] r@[i]@)
                &&& r@[i]@.len() == order + 1
                &&& r@[i]@[0].model() == x0@[i].model()
            },
        is_time_series::<S, N, A>(sys, models(x0@), order as nat, rows_models(r@)),
        S::obeys_field_spec() ==> forall|i: int|
            0 <= i < N ==> models(#[trigger] r@[i]@) == series::<S, N, A>(
                sys,
                models(x0@),
                order as nat,
            )[i],
{
    let ghost x0m = models(x0@);
    let mut coeffs: Vec<Vec<A>> = Vec::new();
    let mut i: usize = 0;
    while i < N
        invariant
            i <= N,
            x0m == models(x0@),
            forall|k: int| 0 <= k < N ==> #[trigger] x0@[k].wf(),
            coeffs.len() == i,
            forall|k: int|
                0 <= k < i ==> {
                    &&& all_wf(#[trigger] coeffs@[k]@)
                    &&& coeffs@[k]@.len() == 1
                    &&& coeffs@[k]@[0].model() == x0m[k]
                    &&& models(coeffs@[k]@) == series::<S, N, A>(sys, x0m, 0)[k]
                },
        decreases N - i,
    {
        let mut ci: Vec<A> = Vec::new();
        ci.push(x0[i].dup());
        assert(models(ci@) =~= seq![x0m[i as int]]);
        coeffs.push(ci);
        i = i + 1;
    }
    let ghost mut xs: Seq<[Jet<A>; N]> = Seq::empty();
    let ghost mut fs: Seq<[Jet<A>; N]> = Seq::empty();
    let mut j: usize = 0;
    while j < order
        invariant
            j <= order,
            order <= u32::MAX,
            x0m == models(x0@),
            coeffs.len() == N,
            series::<S, N, A>(sys, x0m, j as nat).len() == N,
            forall|k: int|
                0 <= k < N ==> {
                    &&& all_wf(#[trigger] coeffs@[k]@)
                    &&& coeffs@[k]@.len() == j + 1
                    &&& coeffs@[k]@[0].model() == x0m[k]
                },
            S::obeys_field_spec() ==> forall|k: int|
                0 <= k < N ==> models(#[trigger] coeffs@[k]@) == series::<S, N, A>(
                    sys,
                    x0m,
                    j as nat,
                )[k],
            recurrence_witness::<S, N, A>(sys, rows_models(coeffs@), j as int, xs, fs),
        decreases order - j,
    {
        let ghost prev = series::<S, N, A>(sys, x0m, j as nat);
        let ghost cur = rows_models(coeffs@);
        let jets = round_jets(&coeffs);
        let arr: [Jet<A>; N] = array_from_vec(jets);
        assert(arr@.map_values(|v: Jet<A>| v.model()) =~= cur);
        assert(S::obeys_field_spec() ==> cur =~= prev);
        let f = sys.eval(&arr);
        let ghost fm = f@.map_values(|v: Jet<A>| v.model());
        push_next_coefficients(&mut coeffs, &f, j);
        proof {
            let rows2 = rows_models(coeffs@);
            assert forall|m: int| 0 <= m < N implies (#[trigger] cur[m]).len() == j + 1
                && rows2[m].len() >= j + 1 && rows2[m].subrange(0, j + 1) == cur[m] by {
                assert(rows2[m] == cur[m].push(
                    A::div_spec(coeff_at::<A>(f@[m].model(), j as int), (j + 1) as u32),
                ));
                assert(rows2[m].subrange(0, j + 1) =~= cur[m]);
            }
            assert forall|k: int| 0 <= k < j implies #[trigger] round_matches::<S, N, A>(
                sys,
                rows2,
                k,
                xs[k],
                fs[k],
            ) by {
                assert(round_matches::<S, N, A>(sys, cur, k, xs[k], fs[k]));
                lemma_round_matches_extend::<S, N, A>(sys, cur, rows2, j as int, k, xs[k], fs[k]);
            }
            assert(round_matches::<S, N, A>(sys, rows2, j as int, arr, f)) by {
                assert forall|m: int| 0 <= m < N implies (#[trigger] arr@[m]).wf()
                    && arr@[m].model() == rows2[m].subrange(0, j + 1) by {
                    assert(cur[m] == models(coeffs@[m]@).subrange(0, j + 1));
                }
                assert forall|i: int| 0 <= i < N implies #[trigger] rows2[i][j + 1]
                    == A::div_spec(coeff_at::<A>(f@[i].model(), j as int), (j + 1) as u32) by {
                    assert(rows2[i] == cur[i].push(
                        A::div_spec(coeff_at::<A>(f@[i].model(), j as int), (j + 1) as u32),
                    ));
                }
            }
            xs = xs.push(arr);
            fs = fs.push(f);
            assert forall|k: int| 0 <= k < j + 1 implies #[trigger] round_matches::<S, N, A>(
                sys,
                rows2,
                k,
                xs[k],
                fs[k],
            ) by {}
            assert(series::<S, N, A>(sys, x0m, (j + 1) as nat) =~= Seq::new(
                prev.len(),
                |k: int|
                    prev[k].push(
                        A::div_spec(coeff_at::<A>(sys.field(prev)[k], j as int), (j + 1) as u32),
                    ),
            ));
            assert forall|k: int| 0 <= k < N implies {
                &&& all_wf(#[trigger] coeffs@[k]@)
                &&& coeffs@[k]@.len() == j + 2
                &&& coeffs@[k]@[0].model() == x0m[k]
            } by {
                assert(rows2[k] == cur[k].push(
                    A::div_spec(coeff_at::<A>(f@[k].model(), j as int), (j + 1) as u32),
                ));
                assert(models(coeffs@[k]@)[0] == coeffs@[k]@[0].model());
                assert(cur[k][0] == x0m[k]);
            }
            if S::obeys_field_spec() {
                assert(fm == sys.field(prev));
                assert forall|k: int| 0 <= k < N implies models(#[trigger] coeffs@[k]@)
                    == series::<S, N, A>(sys, x0m, (j + 1) as nat)[k] by {
                    assert(fm[k] == f@[k].model());
                }
            }
        }
        j = j + 1;
    }
    let r: [Vec<A>; N] = array_from_vec(coeffs);
    proof {
        assert(rows_models(r@) =~= rows_models(coeffs@));
        assert(recurrence_witness::<S, N, A>(sys, rows_models(r@), order as int, xs, fs));
        assert forall|i: int| 0 <= i < N implies (#[trigger] rows_models(r@)[i]).len() == order
            + 1 && rows_models(r@)[i][0] == x0m[i] by {
            assert(rows_models(r@)[i] == models(r@[i]@));
        }
    }
    r
}

} // verus!
