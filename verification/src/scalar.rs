//! The [`Scalar`] algebra trait: the small ring-like interface a polynomial
//! vector field is written against, once, and then evaluated in whichever
//! number system implements it.
//!
//! Every implementor exposes a mathematical *model* of its values together
//! with spec-level descriptions of its operations; the executable operations
//! are tied to those descriptions by their contracts. This is what lets the
//! generic algorithms of the crate ([`crate::jet::Jet`] arithmetic and the
//! time-series recurrence) state exactly which combination of coefficient
//! operations they perform, in which order, whatever the coefficient algebra.

use vstd::prelude::*;

verus! {

/// A commutative-ring-like algebra supporting the operations a polynomial ODE
/// vector field needs: `+ - * neg`, the constants `0` and `1`, division by a
/// positive integer, and non-negative integer powers.
///
/// Operations consume their operands (value semantics); `dup` is the
/// model-preserving copy used by generic code.
pub trait Scalar: Sized + Clone {
    /// The mathematical value a `Self` stands for.
    type Model;

    /// The model of this value.
    spec fn model(&self) -> Self::Model;

    /// Well-formedness: the representation invariant of the algebra.
    spec fn wf(&self) -> bool;

    /// Model of `a + b`.
    spec fn add_spec(a: Self::Model, b: Self::Model) -> Self::Model;

    /// Model of `a - b`.
    spec fn sub_spec(a: Self::Model, b: Self::Model) -> Self::Model;

    /// Model of `a * b`.
    spec fn mul_spec(a: Self::Model, b: Self::Model) -> Self::Model;

    /// Model of `-a`.
    spec fn neg_spec(a: Self::Model) -> Self::Model;

    /// Model of the multiplicative identity.
    spec fn one_spec() -> Self::Model;

    /// Model of the additive identity.
    spec fn zero_spec() -> Self::Model;

    /// Model of `a / d` for a positive integer `d`.
    spec fn div_spec(a: Self::Model, d: u32) -> Self::Model;

    /// Model of `a.powi(n)`.
    spec fn powi_spec(a: Self::Model, n: u32) -> Self::Model;

    /// A copy of `self` with the same model.
    fn dup(&self) -> (r: Self)
        requires
            self.wf(),
        ensures
            r.wf(),
            r.model() == self.model(),
    ;

    /// `self + o`.
    fn add(self, o: Self) -> (r: Self)
        requires
            self.wf(),
            o.wf(),
        ensures
            r.wf(),
            r.model() == Self::add_spec(self.model(), o.model()),
    ;

    /// `self - o`.
    fn sub(self, o: Self) -> (r: Self)
        requires
            self.wf(),
            o.wf(),
        ensures
            r.wf(),
            r.model() == Self::sub_spec(self.model(), o.model()),
    ;

    /// `self * o`.
    fn mul(self, o: Self) -> (r: Self)
        requires
            self.wf(),
            o.wf(),
        ensures
            r.wf(),
            r.model() == Self::mul_spec(self.model(), o.model()),
    ;

    /// `-self`.
    fn neg(self) -> (r: Self)
        requires
            self.wf(),
        ensures
            r.wf(),
            r.model() == Self::neg_spec(self.model()),
    ;

    /// The multiplicative identity.
    fn one() -> (r: Self)
        ensures
            r.wf(),
            r.model() == Self::one_spec(),
    ;

    /// The additive identity.
    fn zero() -> (r: Self)
        ensures
            r.wf(),
            r.model() == Self::zero_spec(),
    ;

    /// Divide by a positive integer `d` (rigorously, for verified backends).
    fn div_u32(self, d: u32) -> (r: Self)
        requires
            self.wf(),
            d >= 1,
        ensures
            r.wf(),
            r.model() == Self::div_spec(self.model(), d),
    ;

    /// Non-negative integer power. [`powi_by_squaring`] is the generic
    /// binary exponentiation an implementor may delegate to; backends may
    /// instead supply a tighter power.
    fn powi(self, n: u32) -> (r: Self)
        requires
            self.wf(),
        ensures
            r.wf(),
            r.model() == Self::powi_spec(self.model(), n),
    ;
}

/// Non-negative integer power by binary exponentiation over `mul`/`one`:
/// `one` for `n == 0`, otherwise the product tree of [`pow_tree`].
pub fn powi_by_squaring<A: Scalar>(x: A, n: u32) -> (r: A)
    requires
        x.wf(),
    ensures
        r.wf(),
        r.model() == powi_tree(mul_of::<A>(), A::one_spec(), x.model(), n as nat),
{
    if n == 0 {
        return A::one();
    }
    let ghost xm = x.model();
    let ghost op = mul_of::<A>();
    let mut k = n;
    let mut base = x;
    let mut acc: Option<A> = None;
    proof {
        lemma_pow_tree_some(op, None, xm, n as nat);
    }
    while k > 0
        invariant
            base.wf(),
            acc matches Some(a) ==> a.wf(),
            op == mul_of::<A>(),
            pow_tree(op, model_of(acc), base.model(), k as nat) == pow_tree(
                op,
                None,
                xm,
                n as nat,
            ),
            pow_tree(op, None, xm, n as nat) is Some,
        decreases k,
    {
        let ghost acc_m = model_of(acc);
        let ghost base_m = base.model();
        let ghost kk = k as nat;
        assert(k & 1 == k % 2) by (bit_vector);
        assert(k >> 1 == k / 2) by (bit_vector);
        if k & 1 == 1 {
            acc = Some(
                match acc {
                    None => base.dup(),
                    Some(a) => a.mul(base.dup()),
                },
            );
        }
        k = k >> 1;
        if k > 0 {
            base = base.dup().mul(base);
        }
        assert(pow_tree(op, acc_m, base_m, kk) == pow_tree(
            op,
            model_of(acc),
            base.model(),
            k as nat,
        ));
    }
    match acc {
        Some(a) => a,
        None => A::one(),
    }
}

/// The model of an optional accumulator.
pub open spec fn model_of<A: Scalar>(acc: Option<A>) -> Option<A::Model> {
    match acc {
        Some(a) => Some(a.model()),
        None => None,
    }
}

/// The algebra's multiplication on models, as a function value.
pub open spec fn mul_of<A: Scalar>() -> spec_fn(A::Model, A::Model) -> A::Model {
    |a: A::Model, b: A::Model| A::mul_spec(a, b)
}

/// The product tree that binary exponentiation builds with `op`: consume
/// the bits of `k` from the least significant one, multiplying the
/// accumulator by the current base for each set bit and squaring the base
/// while bits remain.
pub open spec fn pow_tree<M>(op: spec_fn(M, M) -> M, acc: Option<M>, base: M, k: nat) -> Option<
    M,
>
    decreases k,
{
    if k == 0 {
        acc
    } else {
        let acc2 = if k % 2 == 1 {
            Some(
                match acc {
                    None => base,
                    Some(a) => op(a, base),
                },
            )
        } else {
            acc
        };
        let k2 = k / 2;
        let base2 = if k2 > 0 {
            op(base, base)
        } else {
            base
        };
        pow_tree(op, acc2, base2, k2)
    }
}

/// Binary exponentiation of `x` to the `n`: `one` for `n == 0`, otherwise
/// the product tree of [`pow_tree`].
pub open spec fn powi_tree<M>(op: spec_fn(M, M) -> M, one: M, x: M, n: nat) -> M {
    if n == 0 {
        one
    } else {
        pow_tree(op, None, x, n).unwrap()
    }
}

/// The left-nested power `(..((x * x) * x) ..) * x` with `n >= 1` factors.
pub open spec fn naive_pow<M>(op: spec_fn(M, M) -> M, x: M, n: nat) -> M
    decreases n,
{
    if n <= 1 {
        x
    } else {
        op(naive_pow(op, x, (n - 1) as nat), x)
    }
}

/// `op` is associative.
pub open spec fn associative<M>(op: spec_fn(M, M) -> M) -> bool {
    forall|a: M, b: M, c: M| #[trigger] op(op(a, b), c) == op(a, op(b, c))
}

/// Binary exponentiation always ends with an accumulator once a set bit has
/// been consumed or one was already present.
pub proof fn lemma_pow_tree_some<M>(op: spec_fn(M, M) -> M, acc: Option<M>, base: M, k: nat)
    requires
        acc is Some || k > 0,
    ensures
        pow_tree(op, acc, base, k) is Some,
    decreases k,
{
    if k > 0 {
        let acc2 = if k % 2 == 1 {
            Some(
                match acc {
                    None => base,
                    Some(a) => op(a, base),
                },
            )
        } else {
            acc
        };
        let k2 = k / 2;
        let base2 = if k2 > 0 {
            op(base, base)
        } else {
            base
        };
        lemma_pow_tree_some(op, acc2, base2, k2);
    }
}

/// `x^a * x^b == x^(a+b)` for an associative multiplication.
proof fn lemma_naive_pow_add<M>(op: spec_fn(M, M) -> M, x: M, a: nat, b: nat)
    requires
        associative(op),
        a >= 1,
        b >= 1,
    ensures
        op(naive_pow(op, x, a), naive_pow(op, x, b)) == naive_pow(op, x, a + b),
    decreases b,
{
    if b > 1 {
        lemma_naive_pow_add(op, x, a, (b - 1) as nat);
        assert(op(op(naive_pow(op, x, a), naive_pow(op, x, (b - 1) as nat)), x) == op(
            naive_pow(op, x, a),
            op(naive_pow(op, x, (b - 1) as nat), x),
        ));
    }
}

/// What the binary-exponentiation loop computes, from any intermediate state
/// whose base is `x^p`.
proof fn lemma_pow_tree_value<M>(op: spec_fn(M, M) -> M, x: M, acc: Option<M>, p: nat, k: nat)
    requires
        associative(op),
        p >= 1,
        k >= 1,
    ensures
        pow_tree(op, acc, naive_pow(op, x, p), k) == Some(
            match acc {
                None => naive_pow(op, x, p * k),
                Some(a) => op(a, naive_pow(op, x, p * k)),
            },
        ),
    decreases k,
{
    let base = naive_pow(op, x, p);
    let k2 = k / 2;
    let acc2 = if k % 2 == 1 {
        Some(
            match acc {
                None => base,
                Some(a) => op(a, base),
            },
        )
    } else {
        acc
    };
    let base2 = if k2 > 0 {
        op(base, base)
    } else {
        base
    };
    assert(pow_tree(op, acc, base, k) == pow_tree(op, acc2, base2, k2));
    if k % 2 == 1 {
        if k2 == 0 {
            assert(k == 1);
            assert(p * k == p) by (nonlinear_arith)
                requires
                    k == 1,
            ;
        } else {
            lemma_naive_pow_add(op, x, p, p);
            assert(base2 == naive_pow(op, x, 2 * p));
            lemma_pow_tree_value(op, x, acc2, 2 * p, k2);
            assert(p + 2 * p * k2 == p * k) by (nonlinear_arith)
                requires
                    k == 2 * k2 + 1,
            ;
            assert(2 * p * k2 >= 1) by (nonlinear_arith)
                requires
                    p >= 1,
                    k2 >= 1,
            ;
            lemma_naive_pow_add(op, x, p, 2 * p * k2);
            let big = naive_pow(op, x, 2 * p * k2);
            assert(op(base, big) == naive_pow(op, x, p * k));
            match acc {
                None => {},
                Some(a) => {
                    assert(op(op(a, base), big) == op(a, op(base, big)));
                },
            }
        }
    } else {
        assert(k2 >= 1);
        lemma_naive_pow_add(op, x, p, p);
        assert(base2 == naive_pow(op, x, 2 * p));
        lemma_pow_tree_value(op, x, acc, 2 * p, k2);
        assert(2 * p * k2 == p * k) by (nonlinear_arith)
            requires
                k == 2 * k2,
        ;
    }
}

/// Law: binary exponentiation computes the `n`-th power. For `n >= 1` and an
/// associative multiplication, the product tree of binary exponentiation
/// equals the `n`-fold product of `x` with itself.
pub proof fn lemma_powi_is_power<M>(op: spec_fn(M, M) -> M, one: M, x: M, n: nat)
    requires
        associative(op),
        n >= 1,
    ensures
        powi_tree(op, one, x, n) == naive_pow(op, x, n),
{
    lemma_pow_tree_value(op, x, None, 1, n);
    assert(1 * n == n);
}

} // verus!
