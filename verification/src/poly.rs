//! Sparse multivariate polynomials over a [`Coefficient`] algebra: terms
//! keyed by exponent vectors, kept in the ascending lexicographic order of
//! the vectors (the order of an ordered map keyed by `Vec<u32>`), which is
//! also the order in which every operation visits them.

use vstd::prelude::*;

use crate::scalar::{mul_of, naive_pow, Scalar};

verus! {

/// Exponent vector (one entry per variable).
pub type Exp = Vec<u32>;

/// A [`Scalar`] that can serve as a Taylor-Model coefficient: an enclosure
/// algebra with the symmetric unit range `[-1, 1]` and an exact zero test.
pub trait Coefficient: Scalar {
    /// Model of the unit range.
    spec fn unit_spec() -> Self::Model;

    /// Whether a model is exactly zero.
    spec fn is_zero_spec(m: Self::Model) -> bool;

    /// Model of the enclosure of `1 / d`.
    spec fn recip_spec(d: u32) -> Self::Model;

    /// The symmetric unit range `[-1, 1]` (the normalized domain coordinate).
    fn unit() -> (r: Self)
        ensures
            r.wf(),
            r.model() == Self::unit_spec(),
    ;

    /// A rigorous enclosure of `1 / d` for a positive integer `d`.
    fn recip_u32(d: u32) -> (r: Self)
        requires
            d >= 1,
        ensures
            r.wf(),
            r.model() == Self::recip_spec(d),
    ;

    /// True if this coefficient is exactly zero.
    fn is_zero(&self) -> (r: bool)
        requires
            self.wf(),
        ensures
            r == Self::is_zero_spec(self.model()),
    ;
}

/// Strict lexicographic order on exponent sequences from position `i` on:
/// the first difference decides, and a proper prefix comes first.
pub open spec fn lex_lt_from(a: Seq<u32>, b: Seq<u32>, i: int) -> bool
    decreases a.len() - i,
{
    if i >= a.len() {
        i < b.len()
    } else if i >= b.len() {
        false
    } else if a[i] < b[i] {
        true
    } else if a[i] > b[i] {
        false
    } else {
        lex_lt_from(a, b, i + 1)
    }
}

/// Strict lexicographic order on exponent sequences (the order of `Vec<u32>`).
pub open spec fn lex_lt(a: Seq<u32>, b: Seq<u32>) -> bool {
    lex_lt_from(a, b, 0)
}

/// Keys strictly ascending (hence pairwise distinct).
pub open spec fn sorted_keys<M>(s: Seq<(Seq<u32>, M)>) -> bool {
    forall|i: int, j: int| 0 <= i < j < s.len() ==> lex_lt(#[trigger] s[i].0, #[trigger] s[j].0)
}

/// Index of the first key that is not below `e` (the insertion point of `e`).
pub open spec fn lower_bound<M>(s: Seq<(Seq<u32>, M)>, e: Seq<u32>) -> nat
    decreases s.len(),
{
    if s.len() == 0 {
        0
    } else if !lex_lt(s[0].0, e) {
        0
    } else {
        1 + lower_bound(s.drop_first(), e)
    }
}

/// The value stored at key `e`, if any.
pub open spec fn lookup<M>(s: Seq<(Seq<u32>, M)>, e: Seq<u32>) -> Option<M> {
    let i = lower_bound(s, e) as int;
    if i < s.len() && s[i].0 == e {
        Some(s[i].1)
    } else {
        None
    }
}

/// Combine `e` into the terms: a present value `x` becomes `present(x)`;
/// otherwise `(e, absent)` is inserted at its place in the order.
pub open spec fn upsert<M>(
    s: Seq<(Seq<u32>, M)>,
    e: Seq<u32>,
    present: spec_fn(M) -> M,
    absent: M,
) -> Seq<(Seq<u32>, M)> {
    let i = lower_bound(s, e) as int;
    if i < s.len() && s[i].0 == e {
        s.update(i, (e, present(s[i].1)))
    } else {
        s.insert(i, (e, absent))
    }
}

/// The sum of the entries of an exponent vector.
pub open spec fn degree(e: Seq<u32>) -> nat
    decreases e.len(),
{
    if e.len() == 0 {
        0
    } else {
        degree(e.drop_last()) + e.last() as nat
    }
}

/// Every exponent's degree is at most `bound`.
pub open spec fn degrees_within<M>(s: Seq<(Seq<u32>, M)>, bound: nat) -> bool {
    forall|i: int| 0 <= i < s.len() ==> degree(#[trigger] s[i].0) <= bound
}

/// The exponent vector of `n` zeros.
pub open spec fn zeros(n: nat) -> Seq<u32> {
    Seq::new(n, |i: int| 0u32)
}

/// The entrywise sum of two exponent vectors, over their common length.
pub open spec fn exp_sum(a: Seq<u32>, b: Seq<u32>) -> Seq<u32> {
    let n = if a.len() <= b.len() {
        a.len()
    } else {
        b.len()
    };
    Seq::new(n, |i: int| (a[i] + b[i]) as u32)
}

/// The terms with every coefficient mapped through `f`.
pub open spec fn map_coeffs<M>(s: Seq<(Seq<u32>, M)>, f: spec_fn(M) -> M) -> Seq<(Seq<u32>, M)> {
    s.map_values(|t: (Seq<u32>, M)| (t.0, f(t.1)))
}

/// The terms whose coefficient is not exactly zero, in order.
pub open spec fn keep_nonzero<C: Coefficient>(s: Seq<(Seq<u32>, C::Model)>) -> Seq<
    (Seq<u32>, C::Model),
>
    decreases s.len(),
{
    if s.len() == 0 {
        s
    } else {
        let rest = keep_nonzero::<C>(s.drop_last());
        if C::is_zero_spec(s.last().1) {
            rest
        } else {
            rest.push(s.last())
        }
    }
}

/// Enclosure of the first `n` terms over `[-1, 1]^n`, accumulated from zero
/// in term order: a degree-0 term contributes its coefficient, any other
/// term its coefficient times the unit range.
pub open spec fn bound_fold<C: Coefficient>(s: Seq<(Seq<u32>, C::Model)>, n: nat) -> C::Model
    decreases n,
{
    if n == 0 {
        C::zero_spec()
    } else {
        let t = s[n - 1];
        if degree(t.0) == 0 {
            C::add_spec(bound_fold::<C>(s, (n - 1) as nat), t.1)
        } else {
            C::add_spec(bound_fold::<C>(s, (n - 1) as nat), C::mul_spec(t.1, C::unit_spec()))
        }
    }
}

/// The monomial `c · Π var(i)^{e_i}` over the first `n` variables, each
/// factor with a positive exponent multiplied in variable order.
pub open spec fn monomial<C: Coefficient>(e: Seq<u32>, c: C::Model, vars: Seq<C::Model>, n: nat) -> C::Model
    decreases n,
{
    if n == 0 {
        c
    } else {
        let t = monomial::<C>(e, c, vars, (n - 1) as nat);
        if e[n - 1] > 0 {
            C::mul_spec(t, C::powi_spec(vars[n - 1], e[n - 1]))
        } else {
            t
        }
    }
}

/// Sum of the first `n` monomials, accumulated from zero in term order.
pub open spec fn eval_fold<C: Coefficient>(s: Seq<(Seq<u32>, C::Model)>, vars: Seq<C::Model>, n: nat) -> C::Model
    decreases n,
{
    if n == 0 {
        C::zero_spec()
    } else {
        C::add_spec(
            eval_fold::<C>(s, vars, (n - 1) as nat),
            monomial::<C>(s[n - 1].0, s[n - 1].1, vars, s[n - 1].0.len()),
        )
    }
}

/// The monomial `c · Π_i v_i^{e_i}` over the first `n` variables with each
/// power written as the `e_i`-fold product `v_i · v_i · ... · v_i`.
pub open spec fn monomial_by_products<C: Coefficient>(
    e: Seq<u32>,
    c: C::Model,
    vars: Seq<C::Model>,
    n: nat,
) -> C::Model
    decreases n,
{
    if n == 0 {
        c
    } else if e[n - 1] > 0 {
        C::mul_spec(
            monomial_by_products::<C>(e, c, vars, (n - 1) as nat),
            naive_pow(mul_of::<C>(), vars[n - 1], e[n - 1] as nat),
        )
    } else {
        monomial_by_products::<C>(e, c, vars, (n - 1) as nat)
    }
}

/// Law: a term `c · s^e` is evaluated with the powers its exponent asks
/// for. In an algebra whose power is repeated multiplication, each variable
/// `v_i` enters the monomial as the `e_i`-fold product of itself (so
/// `s^2` at `v` is `v · v`, not `v`).
pub proof fn lemma_monomial_uses_powers<C: Coefficient>(
    e: Seq<u32>,
    c: C::Model,
    vars: Seq<C::Model>,
    n: nat,
)
    requires
        forall|v: C::Model, k: u32| k >= 1 ==> #[trigger] C::powi_spec(v, k) == naive_pow(
            mul_of::<C>(),
            v,
            k as nat,
        ),
    ensures
        monomial::<C>(e, c, vars, n) == monomial_by_products::<C>(e, c, vars, n),
    decreases n,
{
    if n > 0 {
        lemma_monomial_uses_powers::<C>(e, c, vars, (n - 1) as nat);
        if e[n - 1] > 0 {
            assert(C::powi_spec(vars[n - 1], e[n - 1]) == naive_pow(
                mul_of::<C>(),
                vars[n - 1],
                e[n - 1] as nat,
            ));
        }
    }
}

/// Every variable an exponent raises to a positive power is among `vars`.
pub open spec fn vars_cover<M>(s: Seq<(Seq<u32>, M)>, nvars: nat) -> bool {
    forall|k: int, i: int|
        0 <= k < s.len() && 0 <= i < s[k].0.len() && #[trigger] s[k].0[i] > 0 ==> i < nvars
}

/// An entry of an exponent vector is at most its degree.
pub proof fn lemma_entry_le_degree(e: Seq<u32>, i: int)
    requires
        0 <= i < e.len(),
    ensures
        e[i] <= degree(e),
    decreases e.len(),
{
    if i < e.len() - 1 {
        lemma_entry_le_degree(e.drop_last(), i);
    }
}

/// The degree of a prefix is at most the degree of the whole.
pub proof fn lemma_degree_prefix(e: Seq<u32>, n: int)
    requires
        0 <= n <= e.len(),
    ensures
        degree(e.subrange(0, n)) <= degree(e),
    decreases e.len(),
{
    if n < e.len() {
        assert(e.drop_last().subrange(0, n) =~= e.subrange(0, n));
        lemma_degree_prefix(e.drop_last(), n);
    } else {
        assert(e.subrange(0, n) =~= e);
    }
}

/// The degree of an entrywise sum is at most the sum of the degrees.
pub proof fn lemma_degree_exp_sum(a: Seq<u32>, b: Seq<u32>)
    requires
        forall|i: int| 0 <= i < a.len() && i < b.len() ==> a[i] + b[i] <= u32::MAX,
    ensures
        degree(exp_sum(a, b)) <= degree(a) + degree(b),
    decreases a.len() + b.len(),
{
    let s = exp_sum(a, b);
    if s.len() > 0 {
        let n = s.len();
        if a.len() > n {
            lemma_degree_exp_sum(a.drop_last(), b);
            assert(exp_sum(a.drop_last(), b) =~= s);
        } else if b.len() > n {
            lemma_degree_exp_sum(a, b.drop_last());
            assert(exp_sum(a, b.drop_last()) =~= s);
        } else {
            lemma_degree_exp_sum(a.drop_last(), b.drop_last());
            assert(exp_sum(a.drop_last(), b.drop_last()) =~= s.drop_last());
        }
    }
}

proof fn lemma_lex_irrefl(a: Seq<u32>, i: int)
    ensures
        !lex_lt_from(a, a, i),
    decreases a.len() - i,
{
    if i < a.len() {
        lemma_lex_irrefl(a, i + 1);
    }
}

proof fn lemma_lex_trans(a: Seq<u32>, b: Seq<u32>, c: Seq<u32>, i: int)
    requires
        lex_lt_from(a, b, i),
        lex_lt_from(b, c, i),
    ensures
        lex_lt_from(a, c, i),
    decreases a.len() - i,
{
    if i < a.len() && i < b.len() && i < c.len() && a[i] == b[i] && b[i] == c[i] {
        lemma_lex_trans(a, b, c, i + 1);
    }
}

/// Two sequences that agree before `i` and neither precede the other from
/// `i` on are equal.
proof fn lemma_lex_total(a: Seq<u32>, b: Seq<u32>, i: int)
    requires
        0 <= i <= a.len(),
        i <= b.len(),
        a.subrange(0, i) == b.subrange(0, i),
        !lex_lt_from(a, b, i),
        !lex_lt_from(b, a, i),
    ensures
        a == b,
    decreases a.len() - i,
{
    if i < a.len() {
        assert(a.subrange(0, i + 1) =~= a.subrange(0, i).push(a[i]));
        assert(b.subrange(0, i + 1) =~= b.subrange(0, i).push(b[i]));
        lemma_lex_total(a, b, i + 1);
    } else {
        assert(a =~= a.subrange(0, i));
        assert(b =~= b.subrange(0, i));
    }
}

/// Lexicographic order is a strict total order.
pub proof fn lemma_lex_order(a: Seq<u32>, b: Seq<u32>, c: Seq<u32>)
    ensures
        !lex_lt(a, a),
        lex_lt(a, b) && lex_lt(b, c) ==> lex_lt(a, c),
        a != b ==> lex_lt(a, b) || lex_lt(b, a),
{
    lemma_lex_irrefl(a, 0);
    if lex_lt(a, b) && lex_lt(b, c) {
        lemma_lex_trans(a, b, c, 0);
    }
    if !lex_lt(a, b) && !lex_lt(b, a) {
        assert(a.subrange(0, 0) =~= b.subrange(0, 0));
        lemma_lex_total(a, b, 0);
    }
}

/// The insertion point splits the keys into those below `e` and the rest.
pub proof fn lemma_lower_bound<M>(s: Seq<(Seq<u32>, M)>, e: Seq<u32>)
    ensures
        lower_bound(s, e) <= s.len(),
        forall|k: int| 0 <= k < lower_bound(s, e) ==> lex_lt(#[trigger] s[k].0, e),
        lower_bound(s, e) < s.len() ==> !lex_lt(s[lower_bound(s, e) as int].0, e),
    decreases s.len(),
{
    if s.len() > 0 && lex_lt(s[0].0, e) {
        lemma_lower_bound(s.drop_first(), e);
        assert forall|k: int| 0 <= k < lower_bound(s, e) implies lex_lt(#[trigger] s[k].0, e) by {
            if k > 0 {
                assert(s[k] == s.drop_first()[k - 1]);
            }
        }
    }
}

/// A scan that stops at the first key not below `e` finds the insertion
/// point.
proof fn lemma_lower_bound_at<M>(s: Seq<(Seq<u32>, M)>, e: Seq<u32>, i: int)
    requires
        0 <= i <= s.len(),
        forall|k: int| 0 <= k < i ==> lex_lt(#[trigger] s[k].0, e),
        i < s.len() ==> !lex_lt(s[i].0, e),
    ensures
        lower_bound(s, e) == i,
    decreases s.len(),
{
    if i > 0 {
        assert(lex_lt(s[0].0, e));
        assert forall|k: int| 0 <= k < i - 1 implies lex_lt(#[trigger] s.drop_first()[k].0, e) by {
            assert(s.drop_first()[k] == s[k + 1]);
        }
        lemma_lower_bound_at(s.drop_first(), e, i - 1);
    }
}

/// Combining a key into sorted terms keeps them sorted.
pub proof fn lemma_upsert_sorted<M>(
    s: Seq<(Seq<u32>, M)>,
    e: Seq<u32>,
    present: spec_fn(M) -> M,
    absent: M,
)
    requires
        sorted_keys(s),
    ensures
        sorted_keys(upsert(s, e, present, absent)),
        upsert(s, e, present, absent).len() == if lookup(s, e) is Some {
            s.len()
        } else {
            s.len() + 1
        },
{
    lemma_lower_bound(s, e);
    let i = lower_bound(s, e) as int;
    let r = upsert(s, e, present, absent);
    if i < s.len() && s[i].0 == e {
        assert forall|p: int, q: int| 0 <= p < q < r.len() implies lex_lt(
            #[trigger] r[p].0,
            #[trigger] r[q].0,
        ) by {
            assert(r[p].0 == s[p].0);
            assert(r[q].0 == s[q].0);
        }
    } else {
        assert forall|p: int, q: int| 0 <= p < q < r.len() implies lex_lt(
            #[trigger] r[p].0,
            #[trigger] r[q].0,
        ) by {
            if q < i {
                assert(r[p] == s[p] && r[q] == s[q]);
            } else if q == i {
                assert(r[p] == s[p]);
            } else if p == i {
                assert(r[q] == s[q - 1]);
                // e is not above s[i], and differs from it
                lemma_lex_order(s[i].0, e, s[q - 1].0);
                if q - 1 > i {
                    lemma_lex_order(e, s[i].0, s[q - 1].0);
                }
            } else if p < i {
                assert(r[p] == s[p] && r[q] == s[q - 1]);
            } else {
                assert(r[p] == s[p - 1] && r[q] == s[q - 1]);
            }
        }
    }
}

/// In sorted terms, the entry holding key `e` is the one `lookup` finds.
proof fn lemma_lookup_at<M>(s: Seq<(Seq<u32>, M)>, e: Seq<u32>, k: int)
    requires
        sorted_keys(s),
        0 <= k < s.len(),
        s[k].0 == e,
    ensures
        lower_bound(s, e) == k,
        lookup(s, e) == Some(s[k].1),
{
    lemma_lex_order(e, e, e);
    assert forall|p: int| 0 <= p < k implies lex_lt(#[trigger] s[p].0, e) by {}
    lemma_lower_bound_at(s, e, k);
}

/// Law: terms behave as a map from exponents to coefficients. After
/// combining `e` into sorted terms, looking `e` up gives the combined value
/// (`present` of the old one, or `absent` if there was none), and every
/// other key reads as before.
pub proof fn lemma_upsert_lookup<M>(
    s: Seq<(Seq<u32>, M)>,
    e: Seq<u32>,
    present: spec_fn(M) -> M,
    absent: M,
    other: Seq<u32>,
)
    requires
        sorted_keys(s),
    ensures
        lookup(upsert(s, e, present, absent), e) == Some(
            match lookup(s, e) {
                Some(x) => present(x),
                None => absent,
            },
        ),
        other != e ==> lookup(upsert(s, e, present, absent), other) == lookup(s, other),
{
    lemma_upsert_sorted(s, e, present, absent);
    lemma_lower_bound(s, e);
    let i = lower_bound(s, e) as int;
    let r = upsert(s, e, present, absent);
    let found = i < s.len() && s[i].0 == e;
    lemma_lookup_at(r, e, i);
    if other != e {
        assert(found ==> r[i] == (e, present(s[i].1)));
        match lookup(s, other) {
            Some(v) => {
                let k = lower_bound(s, other) as int;
                assert(s[k].0 == other);
                assert(k != i || !found);
                if found || k < i {
                    assert(r[k] == s[k]);
                    lemma_lookup_at(r, other, k);
                } else {
                    assert(r[k + 1] == s[k]);
                    lemma_lookup_at(r, other, k + 1);
                }
            },
            None => {
                if lookup(r, other) is Some {
                    let j = lower_bound(r, other) as int;
                    assert(r[j].0 == other);
                    if found {
                        assert(j != i);
                        assert(r[j] == s[j]);
                        lemma_lookup_at(s, other, j);
                    } else if j < i {
                        assert(r[j] == s[j]);
                        lemma_lookup_at(s, other, j);
                    } else {
                        assert(j != i);
                        assert(r[j] == s[j - 1]);
                        lemma_lookup_at(s, other, j - 1);
                    }
                }
            },
        }
    }
}

/// A sparse polynomial: `(exponent, coefficient)` terms with strictly
/// ascending exponents.
#[derive(Clone)]
pub struct Poly<C: Coefficient> {
    terms: Vec<(Exp, C)>,
}

/// Models of a list of terms.
pub open spec fn terms_model<C: Coefficient>(t: Seq<(Exp, C)>) -> Seq<(Seq<u32>, C::Model)> {
    t.map_values(|x: (Exp, C)| (x.0@, x.1.model()))
}

impl<C: Coefficient> Poly<C> {
    /// The terms, in ascending order of their exponents.
    pub closed spec fn model(&self) -> Seq<(Seq<u32>, C::Model)> {
        terms_model(self.terms@)
    }

    /// Exponents strictly ascending and every coefficient well formed.
    pub closed spec fn wf(&self) -> bool {
        &&& sorted_keys(self.model())
        &&& forall|i: int| 0 <= i < self.terms@.len() ==> (#[trigger] self.terms@[i]).1.wf()
    }

    /// The polynomial with no terms.
    pub fn new() -> (r: Self)
        ensures
            r.wf(),
            r.model() == Seq::<(Seq<u32>, C::Model)>::empty(),
    {
        let r = Poly { terms: Vec::new() };
        assert(r.model() =~= Seq::<(Seq<u32>, C::Model)>::empty());
        r
    }

    /// Number of terms.
    pub fn len(&self) -> (r: usize)
        ensures
            r == self.model().len(),
    {
        self.terms.len()
    }

    /// The exponent of the `i`-th term.
    pub fn key(&self, i: usize) -> (r: &Exp)
        requires
            i < self.model().len(),
        ensures
            r@ == self.model()[i as int].0,
    {
        &self.terms[i].0
    }

    /// The coefficient of the `i`-th term.
    pub fn coeff(&self, i: usize) -> (r: &C)
        requires
            self.wf(),
            i < self.model().len(),
        ensures
            r.wf(),
            r.model() == self.model()[i as int].1,
    {
        assert(self.terms@[i as int].1.wf());
        &self.terms[i].1
    }

    /// Position of the first term whose exponent is not below `e`.
    fn position(&self, e: &Exp) -> (r: usize)
        ensures
            r == lower_bound(self.model(), e@),
    {
        let ghost s = self.model();
        let mut i: usize = 0;
        while i < self.terms.len() && exp_lt(&self.terms[i].0, e)
            invariant
                i <= self.terms@.len(),
                s == self.model(),
                s.len() == self.terms@.len(),
                forall|k: int| 0 <= k < i ==> lex_lt(#[trigger] s[k].0, e@),
            decreases self.terms@.len() - i,
        {
            i = i + 1;
        }
        proof {
            lemma_lower_bound_at(s, e@, i as int);
        }
        i
    }

    /// The coefficient stored at exponent `e`, if any.
    pub fn get(&self, e: &Exp) -> (r: Option<&C>)
        requires
            self.wf(),
        ensures
            match r {
                Some(c) => c.wf() && lookup(self.model(), e@) == Some(c.model()),
                None => lookup(self.model(), e@) is None,
            },
    {
        let i = self.position(e);
        if i < self.terms.len() && exp_eq(&self.terms[i].0, e) {
            assert(self.terms@[i as int].1.wf());
            Some(&self.terms[i].1)
        } else {
            None
        }
    }

    /// Add `c` to the coefficient at `e`, inserting `c` if there is none.
    pub fn add_term(&mut self, e: Exp, c: C)
        requires
            old(self).wf(),
            c.wf(),
        ensures
            final(self).wf(),
            final(self).model() == upsert(
                old(self).model(),
                e@,
                |x: C::Model| C::add_spec(x, c.model()),
                c.model(),
            ),
    {
        let ghost s = self.model();
        let ghost cm = c.model();
        proof {
            lemma_upsert_sorted(s, e@, |x: C::Model| C::add_spec(x, cm), cm);
        }
        let ghost t0 = self.terms@;
        let i = self.position(&e);
        proof {
            lemma_lower_bound(s, e@);
        }
        if i < self.terms.len() && exp_eq(&self.terms[i].0, &e) {
            assert(self.terms@[i as int].1.wf());
            let (k, v) = self.terms.remove(i);
            self.terms.insert(i, (k, v.add(c)));
        } else {
            self.terms.insert(i, (e, c));
        }
        assert(self.model() =~= upsert(s, e@, |x: C::Model| C::add_spec(x, cm), cm));
        assert forall|p: int| 0 <= p < self.terms@.len() implies (#[trigger] self.terms@[p]).1.wf() by {
            if p < i {
                assert(self.terms@[p] == t0[p]);
            } else if p > i {
                if lookup(s, e@) is Some {
                    assert(self.terms@[p] == t0[p]);
                } else {
                    assert(self.terms@[p] == t0[p - 1]);
                }
            }
        }
    }

    /// Subtract `c` from the coefficient at `e`, inserting `-c` if there is
    /// none.
    pub fn sub_term(&mut self, e: Exp, c: C)
        requires
            old(self).wf(),
            c.wf(),
        ensures
            final(self).wf(),
            final(self).model() == upsert(
                old(self).model(),
                e@,
                |x: C::Model| C::sub_spec(x, c.model()),
                C::neg_spec(c.model()),
            ),
    {
        let ghost s = self.model();
        let ghost cm = c.model();
        proof {
            lemma_upsert_sorted(s, e@, |x: C::Model| C::sub_spec(x, cm), C::neg_spec(cm));
        }
        let ghost t0 = self.terms@;
        let i = self.position(&e);
        proof {
            lemma_lower_bound(s, e@);
        }
        if i < self.terms.len() && exp_eq(&self.terms[i].0, &e) {
            assert(self.terms@[i as int].1.wf());
            let (k, v) = self.terms.remove(i);
            self.terms.insert(i, (k, v.sub(c)));
        } else {
            self.terms.insert(i, (e, c.neg()));
        }
        assert(self.model() =~= upsert(
            s,
            e@,
            |x: C::Model| C::sub_spec(x, cm),
            C::neg_spec(cm),
        ));
        assert forall|p: int| 0 <= p < self.terms@.len() implies (#[trigger] self.terms@[p]).1.wf() by {
            if p < i {
                assert(self.terms@[p] == t0[p]);
            } else if p > i {
                if lookup(s, e@) is Some {
                    assert(self.terms@[p] == t0[p]);
                } else {
                    assert(self.terms@[p] == t0[p - 1]);
                }
            }
        }
    }

    /// A copy with the same terms.
    pub fn dup(&self) -> (r: Self)
        requires
            self.wf(),
        ensures
            r.wf(),
            r.model() == self.model(),
    {
        let mut terms: Vec<(Exp, C)> = Vec::new();
        let mut i: usize = 0;
        while i < self.terms.len()
            invariant
                self.wf(),
                i <= self.terms@.len(),
                terms.len() == i,
                forall|k: int| 0 <= k < i ==> (#[trigger] terms@[k]).1.wf(),
                terms_model(terms@) == self.model().take(i as int),
            decreases self.terms@.len() - i,
        {
            assert(self.terms@[i as int].1.wf());
            let k = self.terms[i].0.clone();
            assert(k@ =~= self.terms@[i as int].0@);
            let c = self.terms[i].1.dup();
            terms.push((k, c));
            assert(terms_model(terms@) =~= self.model().take(i + 1));
            i = i + 1;
        }
        let r = Poly { terms };
        assert(r.model() =~= self.model());
        r
    }

    /// Every coefficient multiplied by `alpha` (on the right).
    pub fn scaled(&self, alpha: &C) -> (r: Self)
        requires
            self.wf(),
            alpha.wf(),
        ensures
            r.wf(),
            r.model() == map_coeffs(self.model(), |x: C::Model| C::mul_spec(x, alpha.model())),
    {
        let ghost f = |x: C::Model| C::mul_spec(x, alpha.model());
        let mut terms: Vec<(Exp, C)> = Vec::new();
        let mut i: usize = 0;
        while i < self.terms.len()
            invariant
                self.wf(),
                alpha.wf(),
                f == (|x: C::Model| C::mul_spec(x, alpha.model())),
                i <= self.terms@.len(),
                terms.len() == i,
                forall|k: int| 0 <= k < i ==> (#[trigger] terms@[k]).1.wf(),
                terms_model(terms@) == map_coeffs(self.model(), f).take(i as int),
            decreases self.terms@.len() - i,
        {
            assert(self.terms@[i as int].1.wf());
            let k = self.terms[i].0.clone();
            assert(k@ =~= self.terms@[i as int].0@);
            let c = self.terms[i].1.dup().mul(alpha.dup());
            terms.push((k, c));
            assert(terms_model(terms@) =~= map_coeffs(self.model(), f).take(i + 1));
            i = i + 1;
        }
        let r = Poly { terms };
        assert(r.model() =~= map_coeffs(self.model(), f));
        r
    }

    /// Every coefficient negated.
    pub fn negated(&self) -> (r: Self)
        requires
            self.wf(),
        ensures
            r.wf(),
            r.model() == map_coeffs(self.model(), |x: C::Model| C::neg_spec(x)),
    {
        let ghost f = |x: C::Model| C::neg_spec(x);
        let mut terms: Vec<(Exp, C)> = Vec::new();
        let mut i: usize = 0;
        while i < self.terms.len()
            invariant
                self.wf(),
                f == (|x: C::Model| C::neg_spec(x)),
                i <= self.terms@.len(),
                terms.len() == i,
                forall|k: int| 0 <= k < i ==> (#[trigger] terms@[k]).1.wf(),
                terms_model(terms@) == map_coeffs(self.model(), f).take(i as int),
            decreases self.terms@.len() - i,
        {
            assert(self.terms@[i as int].1.wf());
            let k = self.terms[i].0.clone();
            assert(k@ =~= self.terms@[i as int].0@);
            let c = self.terms[i].1.dup().neg();
            terms.push((k, c));
            assert(terms_model(terms@) =~= map_coeffs(self.model(), f).take(i + 1));
            i = i + 1;
        }
        let r = Poly { terms };
        assert(r.model() =~= map_coeffs(self.model(), f));
        r
    }

    /// The terms whose coefficient is not exactly zero.
    pub fn without_zeros(&self) -> (r: Self)
        requires
            self.wf(),
        ensures
            r.wf(),
            forall|b: nat| degrees_within(self.model(), b) ==> degrees_within(r.model(), b),
            r.model() == keep_nonzero::<C>(self.model()),
    {
        let ghost s = self.model();
        let ghost mut from: Seq<int> = Seq::empty();
        let mut terms: Vec<(Exp, C)> = Vec::new();
        let mut i: usize = 0;
        while i < self.terms.len()
            invariant
                self.wf(),
                s == self.model(),
                from.len() == terms@.len(),
                i <= s.len(),
                s.len() == self.terms@.len(),
                forall|k: int| 0 <= k < terms@.len() ==> (#[trigger] terms@[k]).1.wf(),
                sorted_keys(terms_model(terms@)),
                forall|p: int, q: int|
                    0 <= p < terms@.len() && i <= q < s.len() ==> lex_lt(
                        #[trigger] terms_model(terms@)[p].0,
                        #[trigger] s[q].0,
                    ),
                forall|p: int|
                    0 <= p < terms@.len() ==> 0 <= #[trigger] from[p] < i && terms_model(terms@)[p]
                        == s[from[p]],
                terms_model(terms@) == keep_nonzero::<C>(
                    s.take(i as int),
                ),
            decreases s.len() - i,
        {
            assert(self.terms@[i as int].1.wf());
            let ghost before = terms_model(terms@);
            assert(s.take(i + 1).drop_last() =~= s.take(i as int));
            if !self.terms[i].1.is_zero() {
                let k = self.terms[i].0.clone();
                assert(k@ =~= self.terms@[i as int].0@);
                let c = self.terms[i].1.dup();
                terms.push((k, c));
                assert(terms_model(terms@) =~= before.push(s[i as int]));
                proof {
                    from = from.push(i as int);
                }
            }
            i = i + 1;
        }
        assert(s.take(s.len() as int) =~= s);
        let r = Poly { terms };
        assert forall|b: nat| degrees_within(s, b) implies degrees_within(r.model(), b) by {
            assert forall|p: int| 0 <= p < r.model().len() implies degree(
                #[trigger] r.model()[p].0,
            ) <= b by {
                assert(r.model()[p] == s[from[p]]);
            }
        }
        r
    }

    /// Enclosure of the polynomial over `s ∈ [-1, 1]^n`: each `|s_i| <= 1`,
    /// so a monomial of degree `>= 1` ranges over `c · [-1, 1]`, and the
    /// degree-0 term contributes its constant.
    pub fn bound_over_domain(&self) -> (r: C)
        requires
            self.wf(),
            degrees_within(self.model(), u32::MAX as nat),
        ensures
            r.wf(),
            r.model() == bound_fold::<C>(self.model(), self.model().len()),
    {
        let mut total = C::zero();
        let unit = C::unit();
        let mut i: usize = 0;
        while i < self.terms.len()
            invariant
                self.wf(),
                degrees_within(self.model(), u32::MAX as nat),
                i <= self.terms@.len(),
                total.wf(),
                unit.wf(),
                unit.model() == C::unit_spec(),
                total.model() == bound_fold::<C>(self.model(), i as nat),
            decreases self.terms@.len() - i,
        {
            assert(self.terms@[i as int].1.wf());
            assert(degree(self.model()[i as int].0) <= u32::MAX);
            let deg = exp_degree(&self.terms[i].0);
            if deg == 0 {
                total = total.add(self.terms[i].1.dup());
            } else {
                total = total.add(self.terms[i].1.dup().mul(unit.dup()));
            }
            i = i + 1;
        }
        total
    }

    /// `Σ c_e Π var(i)^{e_i}`, accumulated in term order.
    pub fn eval_terms(&self, vars: &[C]) -> (r: C)
        requires
            self.wf(),
            forall|i: int| 0 <= i < vars@.len() ==> #[trigger] vars@[i].wf(),
            vars_cover(self.model(), vars@.len()),
        ensures
            r.wf(),
            r.model() == eval_fold::<C>(
                self.model(),
                vars@.map_values(|v: C| v.model()),
                self.model().len(),
            ),
    {
        let ghost vm = vars@.map_values(|v: C| v.model());
        let mut val = C::zero();
        let mut k: usize = 0;
        while k < self.terms.len()
            invariant
                self.wf(),
                forall|i: int| 0 <= i < vars@.len() ==> #[trigger] vars@[i].wf(),
                vars_cover(self.model(), vars@.len()),
                vm == vars@.map_values(|v: C| v.model()),
                k <= self.terms@.len(),
                val.wf(),
                val.model() == eval_fold::<C>(self.model(), vm, k as nat),
            decreases self.terms@.len() - k,
        {
            assert(self.terms@[k as int].1.wf());
            let e = &self.terms[k].0;
            let ghost em = self.model()[k as int].0;
            let ghost cm = self.model()[k as int].1;
            let mut term = self.terms[k].1.dup();
            let mut i: usize = 0;
            while i < e.len()
                invariant
                    forall|q: int| 0 <= q < vars@.len() ==> #[trigger] vars@[q].wf(),
                    vars_cover(self.model(), vars@.len()),
                    vm == vars@.map_values(|v: C| v.model()),
                    k < self.model().len(),
                    em == self.model()[k as int].0,
                    e@ == em,
                    i <= e@.len(),
                    term.wf(),
                    term.model() == monomial::<C>(em, cm, vm, i as nat),
                decreases e@.len() - i,
            {
                let p = e[i];
                if p > 0 {
                    assert(self.model()[k as int].0[i as int] > 0);
                    term = term.mul(vars[i].dup().powi(p));
                }
                i = i + 1;
            }
            val = val.add(term);
            k = k + 1;
        }
        val
    }
}

/// The exponent vector of `n` zeros.
pub fn zero_exp(n: usize) -> (r: Exp)
    ensures
        r@ == zeros(n as nat),
{
    let r = vec![0u32; n];
    assert(r@ =~= zeros(n as nat));
    r
}

/// The degree (sum of entries) of an exponent vector.
pub fn exp_degree(e: &Exp) -> (r: u32)
    requires
        degree(e@) <= u32::MAX,
    ensures
        r == degree(e@),
{
    let mut total: u32 = 0;
    let mut i: usize = 0;
    while i < e.len()
        invariant
            i <= e@.len(),
            degree(e@) <= u32::MAX,
            total == degree(e@.subrange(0, i as int)),
        decreases e@.len() - i,
    {
        proof {
            lemma_degree_prefix(e@, i + 1);
            assert(e@.subrange(0, i + 1).drop_last() =~= e@.subrange(0, i as int));
        }
        total = total + e[i];
        i = i + 1;
    }
    assert(e@.subrange(0, i as int) =~= e@);
    total
}

/// The entrywise sum of two exponent vectors over their common length (the
/// exponent of a product of monomials).
pub fn exp_add(a: &Exp, b: &Exp) -> (r: Exp)
    requires
        forall|i: int| 0 <= i < a@.len() && i < b@.len() ==> a@[i] + b@[i] <= u32::MAX,
    ensures
        r@ == exp_sum(a@, b@),
{
    let n = if a.len() <= b.len() {
        a.len()
    } else {
        b.len()
    };
    let mut r: Exp = Vec::new();
    let mut i: usize = 0;
    while i < n
        invariant
            i <= n,
            n <= a@.len(),
            n <= b@.len(),
            n == exp_sum(a@, b@).len(),
            forall|k: int| 0 <= k < a@.len() && k < b@.len() ==> a@[k] + b@[k] <= u32::MAX,
            r@ == exp_sum(a@, b@).take(i as int),
        decreases n - i,
    {
        r.push(a[i] + b[i]);
        assert(r@ =~= exp_sum(a@, b@).take(i + 1));
        i = i + 1;
    }
    assert(r@ =~= exp_sum(a@, b@));
    r
}

/// `a < b` in the lexicographic order of exponent vectors.
pub fn exp_lt(a: &Exp, b: &Exp) -> (r: bool)
    ensures
        r == lex_lt(a@, b@),
{
    let mut i: usize = 0;
    while i < a.len() && i < b.len() && a[i] == b[i]
        invariant
            i <= a@.len(),
            i <= b@.len(),
            lex_lt(a@, b@) == lex_lt_from(a@, b@, i as int),
        decreases a@.len() - i,
    {
        i = i + 1;
    }
    if i >= a.len() {
        i < b.len()
    } else if i >= b.len() {
        false
    } else {
        a[i] < b[i]
    }
}

/// Equality of exponent vectors.
pub fn exp_eq(a: &Exp, b: &Exp) -> (r: bool)
    ensures
        r == (a@ == b@),
{
    if a.len() != b.len() {
        return false;
    }
    let mut i: usize = 0;
    while i < a.len()
        invariant
            i <= a@.len(),
            a@.len() == b@.len(),
            a@.subrange(0, i as int) == b@.subrange(0, i as int),
        decreases a@.len() - i,
    {
        if a[i] != b[i] {
            return false;
        }
        assert(a@.subrange(0, i + 1) =~= a@.subrange(0, i as int).push(a@[i as int]));
        assert(b@.subrange(0, i + 1) =~= b@.subrange(0, i as int).push(b@[i as int]));
        i = i + 1;
    }
    assert(a@ =~= a@.subrange(0, i as int));
    assert(b@ =~= b@.subrange(0, i as int));
    true
}

} // verus!
