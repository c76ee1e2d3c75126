//! The verified Taylor-Model step.
//!
//! A raw step of size `h` expands the state (Taylor Models in the
//! normalized initial-box coordinates) in time with [`time_series`],
//! evaluates that time polynomial at `t = h`, and folds the validated
//! Lagrange remainder (the next time coefficient bounded over an a priori
//! box, times `[0, h]^{k+1}`) into each remainder.
//!
//! Around the raw steps, the adaptive time bisection: a step is first tried
//! whole; whenever a raw sub-step fails (its a priori enclosure does not
//! contract), the step is restarted from the initial state with twice as
//! many sub-steps, up to `2^max_subdiv` sub-steps. [`SubdivSchedule`] makes
//! every decision, and [`adaptive_step`] runs it with the raw sub-step it is
//! given.

use vstd::arithmetic::power2::pow2;
use vstd::prelude::*;

use crate::jet::{all_wf, is_time_series, models, rows_models, series, time_series, Jet};
use crate::poly::Coefficient;
use crate::scalar::Scalar;
use crate::system::System;
use crate::taylor_model::{max_degree, tm_add, tm_constant, tm_scale, TaylorModel, TmModel};

verus! {

/// What the adaptive step asks for next.
#[derive(PartialEq, Eq, Structural, Debug, Clone, Copy)]
pub enum StepAction {
    /// Run one raw sub-step of size `h / divisor` on the current state.
    Substep { divisor: u32 },
    /// Every sub-step at the current depth succeeded: the current state is
    /// the result of the step.
    Done,
    /// No depth up to the limit let all its sub-steps succeed.
    GiveUp,
}

/// State of the adaptive bisection of one step: the current depth (the
/// step is cut into `2^depth` sub-steps) and how many of those sub-steps
/// have succeeded so far.
pub struct SubdivSchedule {
    max_subdiv: u32,
    depth: u32,
    done: u32,
}

impl SubdivSchedule {
    /// The deepest bisection tried.
    pub closed spec fn max_depth(&self) -> u32 {
        self.max_subdiv
    }

    /// The current depth.
    pub closed spec fn cur_depth(&self) -> u32 {
        self.depth
    }

    /// Sub-steps that have succeeded at the current depth.
    pub closed spec fn succeeded(&self) -> u32 {
        self.done
    }

    /// Representation invariant: the depth never passes the first one that
    /// is refused, and no more sub-steps succeed than the depth calls for.
    pub closed spec fn wf(&self) -> bool {
        &&& self.depth <= 32
        &&& self.depth <= self.max_subdiv + 1
        &&& self.depth < 32 ==> self.done <= pow2(self.depth as nat)
        &&& self.depth >= 32 || self.depth > self.max_subdiv ==> self.done == 0
    }

    /// The work left before the schedule must end: a failure moves to the
    /// next of at most 33 depths, and a success brings the current depth's
    /// count of sub-steps one closer to its `2^depth`.
    pub closed spec fn budget(&self) -> nat {
        ((33 - self.depth) * 0x2_0000_0000 + if self.depth < 32 {
            pow2(self.depth as nat) - self.done
        } else {
            0
        }) as nat
    }

    /// The action the schedule calls for in this state.
    pub open spec fn spec_action(&self) -> StepAction {
        if self.cur_depth() > self.max_depth() || self.cur_depth() >= 32 {
            StepAction::GiveUp
        } else if self.succeeded() == pow2(self.cur_depth() as nat) {
            StepAction::Done
        } else {
            StepAction::Substep { divisor: pow2(self.cur_depth() as nat) as u32 }
        }
    }

    /// Start a step: try it whole first.
    pub fn new(max_subdiv: u32) -> (r: Self)
        ensures
            r.wf(),
            r.max_depth() == max_subdiv,
            r.cur_depth() == 0,
            r.succeeded() == 0,
    {
        SubdivSchedule { max_subdiv, depth: 0, done: 0 }
    }

    /// What to do next. The divisor of a sub-step is `2^depth`; a depth of
    /// 32 or more cannot be expressed as a `u32` divisor and ends the step
    /// like an exhausted limit.
    pub fn action(&self) -> (r: StepAction)
        requires
            self.wf(),
        ensures
            r == self.spec_action(),
    {
        if self.depth > self.max_subdiv || self.depth >= 32 {
            return StepAction::GiveUp;
        }
        proof {
            vstd::bits::lemma_u32_pow2_no_overflow(self.depth as nat);
            vstd::bits::lemma_u32_shl_is_mul(1u32, self.depth);
        }
        let m = 1u32 << self.depth;
        if self.done == m {
            StepAction::Done
        } else {
            StepAction::Substep { divisor: m }
        }
    }

    /// Report the outcome of the sub-step just run. A success counts toward
    /// the current depth; a failure doubles the number of sub-steps and
    /// restarts the step from its initial state. Returns whether the caller
    /// must restart from the initial state.
    pub fn record(&mut self, ok: bool) -> (restart: bool)
        requires
            old(self).wf(),
            old(self).spec_action() is Substep,
        ensures
            final(self).wf(),
            final(self).max_depth() == old(self).max_depth(),
            restart == !ok,
            ok ==> final(self).cur_depth() == old(self).cur_depth() && final(self).succeeded()
                == old(self).succeeded() + 1,
            !ok ==> final(self).cur_depth() == old(self).cur_depth() + 1 && final(self).succeeded()
                == 0,
            final(self).budget() < old(self).budget(),
    {
        proof {
            vstd::bits::lemma_u32_pow2_no_overflow(self.depth as nat);
            if self.depth + 1 < 32 {
                vstd::bits::lemma_u32_pow2_no_overflow((self.depth + 1) as nat);
            }
        }
        if ok {
            self.done = self.done + 1;
            false
        } else {
            self.depth = self.depth + 1;
            self.done = 0;
            true
        }
    }
}

/// The state a chain of sub-steps has reached after its first `m` steps.
pub open spec fn chain_at<T>(start: T, xs: Seq<T>, m: int) -> T {
    if m == 0 {
        start
    } else {
        xs[m - 1]
    }
}

/// Each state of `xs` is a successful raw sub-step (of `h / divisor`) from
/// the one before it, the first from `start`.
pub open spec fn chain_from<T, F: Fn(&T, u32) -> Option<T>>(
    raw: F,
    start: T,
    xs: Seq<T>,
    divisor: u32,
) -> bool {
    forall|m: int|
        0 <= m < xs.len() ==> call_ensures(raw, (&chain_at(start, xs, m), divisor), Some(
            #[trigger] xs[m],
        ))
}

/// At depth `d` the step succeeds along `xs`: `2^d` successful sub-steps
/// of `h / 2^d` from `start`.
pub open spec fn succeeds_at<T, F: Fn(&T, u32) -> Option<T>>(
    raw: F,
    start: T,
    d: nat,
    xs: Seq<T>,
) -> bool {
    &&& d < 32
    &&& xs.len() == pow2(d)
    &&& chain_from(raw, start, xs, pow2(d) as u32)
}

/// At depth `d` the step fails: after fewer than `2^d` successful sub-steps
/// of `h / 2^d` from `start`, the next one failed.
pub open spec fn fails_at<T, F: Fn(&T, u32) -> Option<T>>(raw: F, start: T, d: nat) -> bool {
    exists|xs: Seq<T>|
        #![trigger chain_from(raw, start, xs, pow2(d) as u32)]
        xs.len() < pow2(d) && chain_from(raw, start, xs, pow2(d) as u32) && call_ensures(
            raw,
            (&chain_at(start, xs, xs.len() as int), pow2(d) as u32),
            None,
        )
}

/// One adaptive step: depth 0 first tries one raw sub-step of the whole
/// step; whenever a raw sub-step fails, the next depth restarts from
/// `state` with twice as many sub-steps of half the size, up to
/// `2^max_subdiv` sub-steps (and below `2^32`). `raw(x, m)` runs one raw
/// sub-step of `h / m` from `x`.
///
/// The result is the state the first depth whose sub-steps all succeed
/// reaches, every shallower depth having failed; `None` if every depth up
/// to the limit failed.
pub fn adaptive_step<T, F: Fn(&T, u32) -> Option<T>>(state: &T, max_subdiv: u32, raw: F) -> (r:
    Option<T>)
    requires
        forall|x: &T, m: u32| #[trigger] call_requires(raw, (x, m)),
    ensures
        r is Some ==> exists|d: nat, xs: Seq<T>|
            #[trigger] succeeds_at(raw, *state, d, xs) && d <= max_subdiv && r->0 == xs.last()
                && forall|e: nat| e < d ==> #[trigger] fails_at(raw, *state, e),
        r is None ==> forall|e: nat|
            e <= max_subdiv && e < 32 ==> #[trigger] fails_at(raw, *state, e),
{
    let mut sched = SubdivSchedule::new(max_subdiv);
    let mut cur: Option<T> = None;
    let ghost mut chain: Seq<T> = Seq::empty();
    loop
        invariant
            forall|x: &T, m: u32| #[trigger] call_requires(raw, (x, m)),
            sched.wf(),
            sched.max_depth() == max_subdiv,
            chain.len() == sched.succeeded(),
            chain.len() == 0 ==> cur is None,
            chain.len() > 0 ==> cur == Some(chain.last()),
            sched.cur_depth() < 32 ==> chain_from(
                raw,
                *state,
                chain,
                pow2(sched.cur_depth() as nat) as u32,
            ),
            forall|e: nat| e < sched.cur_depth() ==> #[trigger] fails_at(raw, *state, e),
        decreases sched.budget(),
    {
        let action = sched.action();
        match action {
            StepAction::Substep { divisor } => {
                proof {
                    lemma_substep_divisor(sched);
                }
                let ghost d = sched.cur_depth() as nat;
                let ghost from = chain_at(*state, chain, chain.len() as int);
                let next = match &cur {
                    None => raw(state, divisor),
                    Some(c) => raw(c, divisor),
                };
                assert(call_ensures(raw, (&from, divisor), next));
                match next {
                    Some(n) => {
                        proof {
                            let c2 = chain.push(n);
                            assert forall|m: int| 0 <= m < c2.len() implies call_ensures(
                                raw,
                                (&chain_at(*state, c2, m), divisor),
                                Some(#[trigger] c2[m]),
                            ) by {
                                if m < chain.len() {
                                    assert(c2[m] == chain[m]);
                                    assert(chain_at(*state, c2, m) == chain_at(*state, chain, m));
                                }
                            }
                            chain = c2;
                        }
                        cur = Some(n);
                        sched.record(true);
                    },
                    None => {
                        proof {
                            assert(chain.len() < pow2(d));
                            assert(fails_at(raw, *state, d));
                            assert forall|e: nat| e < d + 1 implies #[trigger] fails_at(
                                raw,
                                *state,
                                e,
                            ) by {}
                            chain = Seq::empty();
                        }
                        cur = None;
                        sched.record(false);
                    },
                }
            },
            StepAction::Done => {
                proof {
                    vstd::arithmetic::power2::lemma_pow2_pos(sched.cur_depth() as nat);
                    assert(succeeds_at(raw, *state, sched.cur_depth() as nat, chain));
                }
                return cur;
            },
            StepAction::GiveUp => {
                return None;
            },
        }
    }
}

/// Law: the schedule only ever asks for sub-steps of `h / 2^depth` with
/// `depth <= max_subdiv`, so a step is cut into at most `2^max_subdiv`
/// sub-steps.
pub proof fn lemma_substep_divisor(s: SubdivSchedule)
    requires
        s.wf(),
        s.spec_action() is Substep,
    ensures
        s.cur_depth() <= s.max_depth(),
        s.spec_action()->divisor as nat == pow2(s.cur_depth() as nat),
        pow2(s.cur_depth() as nat) <= pow2(s.max_depth() as nat),
{
    vstd::bits::lemma_u32_pow2_no_overflow(s.cur_depth() as nat);
    if s.cur_depth() < s.max_depth() {
        vstd::arithmetic::power2::lemma_pow2_strictly_increases(
            s.cur_depth() as nat,
            s.max_depth() as nat,
        );
    }
}

/// The order-`k` time polynomial `Σ_{j<n} A[j] · h^j` of a Taylor-Model
/// series, accumulated from the zero model of the given order and dimension
/// in increasing `j`, paired with the power `h^n` reached (as the running
/// products `1 · h · h · ...`).
pub open spec fn time_poly_at<C: Coefficient>(
    coeffs: Seq<TmModel<C::Model>>,
    h: C::Model,
    order: u32,
    nvar: usize,
    n: nat,
) -> (TmModel<C::Model>, C::Model)
    decreases n,
{
    if n == 0 {
        (tm_constant::<C>(C::zero_spec(), order, nvar), C::one_spec())
    } else {
        let (acc, hp) = time_poly_at::<C>(coeffs, h, order, nvar, (n - 1) as nat);
        (tm_add::<C>(acc, tm_scale::<C>(coeffs[n - 1], hp)), C::mul_spec(hp, h))
    }
}

/// `h^j` as the running product `1 · h · ... · h` of `j` factors `h`.
pub open spec fn h_power<C: Coefficient>(h: C::Model, j: nat) -> C::Model
    decreases j,
{
    if j == 0 {
        C::one_spec()
    } else {
        C::mul_spec(h_power::<C>(h, (j - 1) as nat), h)
    }
}

/// `Σ_{j<n} rem(A_j) · h^j`, accumulated from zero in increasing `j`: the
/// remainders the series coefficients carry, moved to `t = h`.
pub open spec fn remainder_sum<C: Coefficient>(
    coeffs: Seq<TmModel<C::Model>>,
    h: C::Model,
    n: nat,
) -> C::Model
    decreases n,
{
    if n == 0 {
        C::zero_spec()
    } else {
        C::add_spec(
            remainder_sum::<C>(coeffs, h, (n - 1) as nat),
            C::mul_spec(coeffs[n - 1].1, h_power::<C>(h, (n - 1) as nat)),
        )
    }
}

/// The time polynomial at `t = h` carries the remainders of its
/// coefficients, each moved by its power of `h`.
proof fn lemma_time_poly_remainder<C: Coefficient>(
    coeffs: Seq<TmModel<C::Model>>,
    h: C::Model,
    order: u32,
    nvar: usize,
    n: nat,
)
    ensures
        time_poly_at::<C>(coeffs, h, order, nvar, n).1 == h_power::<C>(h, n),
        time_poly_at::<C>(coeffs, h, order, nvar, n).0.1 == remainder_sum::<C>(coeffs, h, n),
    decreases n,
{
    if n > 0 {
        lemma_time_poly_remainder::<C>(coeffs, h, order, nvar, (n - 1) as nat);
    }
}

/// Law: a step keeps every remainder it is handed. The remainder of each
/// composed component is the remainders of its series coefficients moved
/// to `t = h` (`Σ rem(A_j) · h^j`) plus the validated Lagrange remainder
/// `ck1 · hk1`; with a single coefficient `A_0` and a zero Lagrange term it
/// is `rem(A_0) + 0`.
pub proof fn lemma_step_keeps_remainders<C: Coefficient>(
    coeffs: Seq<TmModel<C::Model>>,
    h: C::Model,
    order: u32,
    nvar: usize,
    ck1: C::Model,
    hk1: C::Model,
)
    ensures
        advanced_component::<C>(coeffs, h, order, nvar, ck1, hk1).1 == C::add_spec(
            remainder_sum::<C>(coeffs, h, poly_terms(coeffs.len(), order)),
            C::mul_spec(ck1, hk1),
        ),
        coeffs.len() == 1 ==> remainder_sum::<C>(coeffs, h, poly_terms(coeffs.len(), order))
            == C::add_spec(C::zero_spec(), C::mul_spec(coeffs[0].1, C::one_spec())),
{
    lemma_time_poly_remainder::<C>(coeffs, h, order, nvar, poly_terms(coeffs.len(), order));
    if coeffs.len() == 1 {
        assert(poly_terms(coeffs.len(), order) == 1);
        assert(remainder_sum::<C>(coeffs, h, 1) == C::add_spec(
            remainder_sum::<C>(coeffs, h, 0),
            C::mul_spec(coeffs[0].1, h_power::<C>(h, 0)),
        ));
    }
}

/// How many series coefficients enter the time polynomial of order `order`.
pub open spec fn poly_terms(len: nat, order: u32) -> nat {
    if len <= order + 1 {
        len
    } else {
        (order + 1) as nat
    }
}

/// Evaluate the time polynomial of order `order` of one state component at
/// `t = h`: the coefficients `A[0..=order]` (those present) scaled by the
/// powers of `h` and summed onto the zero model of order `order` over `nvar`
/// variables.
pub fn advance_series<C: Coefficient>(
    coeffs: &Vec<TaylorModel<C>>,
    h: &C,
    order: u32,
    nvar: usize,
) -> (r: TaylorModel<C>)
    requires
        h.wf(),
        order <= max_degree(),
        all_wf(coeffs@),
    ensures
        r.wf(),
        r.model() == time_poly_at::<C>(
            models(coeffs@),
            h.model(),
            order,
            nvar,
            poly_terms(coeffs@.len(), order),
        ).0,
{
    let ghost cm = models(coeffs@);
    let mut acc = TaylorModel::constant(C::zero(), order, nvar);
    let mut hp = C::one();
    let n: usize = if coeffs.len() <= order as usize {
        coeffs.len()
    } else {
        order as usize + 1
    };
    let mut j: usize = 0;
    while j < n
        invariant
            h.wf(),
            all_wf(coeffs@),
            cm == models(coeffs@),
            n == poly_terms(coeffs@.len(), order),
            j <= n,
            n <= coeffs@.len(),
            acc.wf(),
            hp.wf(),
            (acc.model(), hp.model()) == time_poly_at::<C>(cm, h.model(), order, nvar, j as nat),
        decreases n - j,
    {
        assert(coeffs@[j as int].wf());
        let term = coeffs[j].scale(hp.dup());
        acc = acc.add(term);
        hp = hp.mul(h.dup());
        j = j + 1;
    }
    acc
}

/// A state component after one step, from its time series: the time
/// polynomial at `t = h`, with the remainder `ck1 · hk1` (the Lagrange
/// remainder factor times the symmetric power `[0, h]^{k+1}`) added to its
/// remainder.
pub open spec fn advanced_component<C: Coefficient>(
    coeffs: Seq<TmModel<C::Model>>,
    h: C::Model,
    order: u32,
    nvar: usize,
    ck1: C::Model,
    hk1: C::Model,
) -> TmModel<C::Model> {
    let p = time_poly_at::<C>(coeffs, h, order, nvar, poly_terms(coeffs.len(), order)).0;
    (p.0, C::add_spec(p.1, C::mul_spec(ck1, hk1)), p.2, p.3)
}

/// Compose one raw step from the Taylor-Model time series of the state:
/// each component becomes its time polynomial at `t = h` over the `N`
/// normalized variables, and the validated remainder `ck1[i] · hk1` is
/// folded into its remainder.
pub fn compose_step<C: Coefficient, const N: usize>(
    series_tm: &[Vec<TaylorModel<C>>; N],
    h: &C,
    order: u32,
    ck1: &[C; N],
    hk1: &C,
) -> (r: [TaylorModel<C>; N])
    requires
        h.wf(),
        hk1.wf(),
        order <= max_degree(),
        forall|i: int| 0 <= i < N ==> all_wf(#[trigger] series_tm@[i]@),
        forall|i: int| 0 <= i < N ==> #[trigger] ck1@[i].wf(),
    ensures
        forall|i: int|
            0 <= i < N ==> {
                &&& (#[trigger] r@[i]).wf()
                &&& r@[i].model() == advanced_component::<C>(
                    models(series_tm@[i]@),
                    h.model(),
                    order,
                    N,
                    ck1@[i].model(),
                    hk1.model(),
                )
                &&& r@[i].rem.model() == C::add_spec(
                    remainder_sum::<C>(
                        models(series_tm@[i]@),
                        h.model(),
                        poly_terms(series_tm@[i]@.len(), order),
                    ),
                    C::mul_spec(ck1@[i].model(), hk1.model()),
                )
            },
{
    let mut out: Vec<TaylorModel<C>> = Vec::new();
    let mut i: usize = 0;
    while i < N
        invariant
            i <= N,
            h.wf(),
            hk1.wf(),
            order <= max_degree(),
            forall|k: int| 0 <= k < N ==> all_wf(#[trigger] series_tm@[k]@),
            forall|k: int| 0 <= k < N ==> #[trigger] ck1@[k].wf(),
            out.len() == i,
            forall|k: int|
                0 <= k < i ==> {
                    &&& (#[trigger] out@[k]).wf()
                    &&& out@[k].model() == advanced_component::<C>(
                        models(series_tm@[k]@),
                        h.model(),
                        order,
                        N,
                        ck1@[k].model(),
                        hk1.model(),
                    )
                },
        decreases N - i,
    {
        assert(all_wf(series_tm@[i as int]@));
        assert(ck1@[i as int].wf());
        let mut next = advance_series(&series_tm[i], h, order, N);
        let extra = ck1[i].dup().mul(hk1.dup());
        next.rem = next.rem.add(extra);
        out.push(next);
        i = i + 1;
    }
    let r: [TaylorModel<C>; N] = crate::jet::array_from_vec(out);
    proof {
        assert forall|k: int| 0 <= k < N implies (#[trigger] r@[k]).rem.model() == C::add_spec(
            remainder_sum::<C>(
                models(series_tm@[k]@),
                h.model(),
                poly_terms(series_tm@[k]@.len(), order),
            ),
            C::mul_spec(ck1@[k].model(), hk1.model()),
        ) by {
            assert(models(series_tm@[k]@).len() == series_tm@[k]@.len());
            lemma_step_keeps_remainders::<C>(
                models(series_tm@[k]@),
                h.model(),
                order,
                N,
                ck1@[k].model(),
                hk1.model(),
            );
        }
    }
    r
}

/// One raw step of the verified integrator, given the validated remainder
/// factor: the Taylor-Model time series of `state` to order `order` is
/// computed on jets, and [`compose_step`] turns it into the next state.
/// When the system describes its field, the result is the composition of
/// the exact recurrence of [`series`].
pub fn step_with_remainder<S, C: Coefficient, const N: usize>(
    sys: &S,
    state: &[TaylorModel<C>; N],
    h: &C,
    order: u32,
    ck1: &[C; N],
    hk1: &C,
) -> (r: [TaylorModel<C>; N]) where S: System<Jet<TaylorModel<C>>, N>
    requires
        h.wf(),
        hk1.wf(),
        order <= max_degree(),
        forall|i: int| 0 <= i < N ==> #[trigger] state@[i].wf(),
        forall|i: int| 0 <= i < N ==> #[trigger] ck1@[i].wf(),
    ensures
        forall|i: int| 0 <= i < N ==> (#[trigger] r@[i]).wf(),
        exists|rows: Seq<Seq<TmModel<C::Model>>>|
            #[trigger] is_time_series::<S, N, TaylorModel<C>>(sys, models(state@), order as nat, rows)
                && forall|i: int|
                0 <= i < N ==> (#[trigger] r@[i]).model() == advanced_component::<C>(
                    rows[i],
                    h.model(),
                    order,
                    N,
                    ck1@[i].model(),
                    hk1.model(),
                ),
        S::obeys_field_spec() ==> forall|i: int|
            0 <= i < N ==> (#[trigger] r@[i]).model() == advanced_component::<C>(
                series::<S, N, TaylorModel<C>>(sys, models(state@), order as nat)[i],
                h.model(),
                order,
                N,
                ck1@[i].model(),
                hk1.model(),
            ),
{
    let series_tm = time_series(sys, state, order as usize);
    let r = compose_step(&series_tm, h, order, ck1, hk1);
    proof {
        let rows = rows_models(series_tm@);
        assert(is_time_series::<S, N, TaylorModel<C>>(sys, models(state@), order as nat, rows));
        assert forall|i: int| 0 <= i < N implies (#[trigger] r@[i]).model()
            == advanced_component::<C>(rows[i], h.model(), order, N, ck1@[i].model(), hk1.model()) by {
            assert(rows[i] == models(series_tm@[i]@));
        }
    }
    r
}

/// The `(k+1)`-th time-Taylor coefficient of each component over the box
/// `b`: the Lagrange remainder factor of a step of order `k`, from the time
/// series evaluated in the box's own algebra, seeded with the whole box.
pub fn coeff_k1_over_box<S, A: Scalar, const N: usize>(sys: &S, b: &[A; N], order: u32) -> (r: [A;
    N]) where S: System<Jet<A>, N>
    requires
        forall|i: int| 0 <= i < N ==> #[trigger] b@[i].wf(),
        order < u32::MAX,
    ensures
        forall|i: int| 0 <= i < N ==> (#[trigger] r@[i]).wf(),
        exists|rows: Seq<Seq<A::Model>>|
            #[trigger] is_time_series::<S, N, A>(sys, models(b@), (order + 1) as nat, rows)
                && forall|i: int| 0 <= i < N ==> (#[trigger] r@[i]).model() == rows[i][order + 1],
        S::obeys_field_spec() ==> forall|i: int|
            0 <= i < N ==> (#[trigger] r@[i]).model() == series::<S, N, A>(
                sys,
                models(b@),
                (order + 1) as nat,
            )[i][order + 1],
{
    let k1 = order as usize + 1;
    let s = time_series(sys, b, k1);
    let mut out: Vec<A> = Vec::new();
    let mut i: usize = 0;
    while i < N
        invariant
            i <= N,
            k1 == order + 1,
            forall|k: int|
                0 <= k < N ==> {
                    &&& all_wf(#[trigger] s@[k]@)
                    &&& s@[k]@.len() == k1 + 1
                },
            S::obeys_field_spec() ==> forall|k: int|
                0 <= k < N ==> models(#[trigger] s@[k]@) == series::<S, N, A>(
                    sys,
                    models(b@),
                    k1 as nat,
                )[k],
            out.len() == i,
            forall|k: int|
                0 <= k < i ==> (#[trigger] out@[k]).wf() && out@[k].model() == models(
                    s@[k]@,
                )[k1 as int],
            S::obeys_field_spec() ==> forall|k: int|
                0 <= k < i ==> (#[trigger] out@[k]).model() == series::<S, N, A>(
                    sys,
                    models(b@),
                    k1 as nat,
                )[k][k1 as int],
        decreases N - i,
    {
        assert(all_wf(s@[i as int]@));
        assert(s@[i as int]@[k1 as int].wf());
        assert(models(s@[i as int]@)[k1 as int] == s@[i as int]@[k1 as int].model());
        out.push(s[i][k1].dup());
        i = i + 1;
    }
    let r: [A; N] = crate::jet::array_from_vec(out);
    proof {
        let rows = rows_models(s@);
        assert(is_time_series::<S, N, A>(sys, models(b@), (order + 1) as nat, rows));
        assert forall|i: int| 0 <= i < N implies (#[trigger] r@[i]).model() == rows[i][order
            + 1] by {
            assert(rows[i] == models(s@[i]@));
        }
    }
    r
}

/// The initial state of the verified integrator for the box with the given
/// centers and half-widths: component `i` is the coordinate
/// `center[i] + half[i] · s_i` over the `N` normalized variables.
pub fn init_state<C: Coefficient, const N: usize>(center: &[C; N], half: &[C; N], order: u32) -> (r: [TaylorModel<C>; N])
    requires
        order <= max_degree(),
        forall|i: int| 0 <= i < N ==> #[trigger] center@[i].wf(),
        forall|i: int| 0 <= i < N ==> #[trigger] half@[i].wf(),
    ensures
        forall|i: int|
            0 <= i < N ==> {
                &&& (#[trigger] r@[i]).wf()
                &&& r@[i].model() == crate::taylor_model::tm_variable::<C>(
                    i as nat,
                    order,
                    N,
                    center@[i].model(),
                    half@[i].model(),
                )
            },
{
    let mut out: Vec<TaylorModel<C>> = Vec::new();
    let mut i: usize = 0;
    while i < N
        invariant
            i <= N,
            order <= max_degree(),
            forall|k: int| 0 <= k < N ==> #[trigger] center@[k].wf(),
            forall|k: int| 0 <= k < N ==> #[trigger] half@[k].wf(),
            out.len() == i,
            forall|k: int|
                0 <= k < i ==> {
                    &&& (#[trigger] out@[k]).wf()
                    &&& out@[k].model() == crate::taylor_model::tm_variable::<C>(
                        k as nat,
                        order,
                        N,
                        center@[k].model(),
                        half@[k].model(),
                    )
                },
        decreases N - i,
    {
        assert(center@[i as int].wf());
        assert(half@[i as int].wf());
        out.push(TaylorModel::variable(i, order, N, center[i].dup(), half[i].dup()));
        i = i + 1;
    }
    crate::jet::array_from_vec(out)
}

/// The enclosure of each state component over the whole normalized domain
/// (the verified bounding box of the state).
pub fn state_bounds<C: Coefficient, const N: usize>(state: &[TaylorModel<C>; N]) -> (r: [C; N])
    requires
        forall|i: int| 0 <= i < N ==> #[trigger] state@[i].wf(),
    ensures
        forall|i: int|
            0 <= i < N ==> {
                &&& (#[trigger] r@[i]).wf()
                &&& r@[i].model() == C::add_spec(
                    crate::poly::bound_fold::<C>(
                        state@[i].poly.model(),
                        state@[i].poly.model().len(),
                    ),
                    state@[i].rem.model(),
                )
            },
{
    let mut out: Vec<C> = Vec::new();
    let mut i: usize = 0;
    while i < N
        invariant
            i <= N,
            forall|k: int| 0 <= k < N ==> #[trigger] state@[k].wf(),
            out.len() == i,
            forall|k: int|
                0 <= k < i ==> {
                    &&& (#[trigger] out@[k]).wf()
                    &&& out@[k].model() == C::add_spec(
                        crate::poly::bound_fold::<C>(
                            state@[k].poly.model(),
                            state@[k].poly.model().len(),
                        ),
                        state@[k].rem.model(),
                    )
                },
        decreases N - i,
    {
        assert(state@[i as int].wf());
        out.push(state[i].bound());
        i = i + 1;
    }
    crate::jet::array_from_vec(out)
}

} // verus!
