//! Symbolic runs of unit fractions and the concrete terms they expand to.

use crate::bignat::BigNat;
use crate::fraction::{frac_add, frac_eq, frac_sum, lemma_frac_add_congr, lemma_frac_eq_trans};
use vstd::prelude::*;

verus! {

/// A run `(base, step, start, end)`. With `step`, `start` and `end` all zero it
/// is the whole number `base`; otherwise it stands for the unit fractions
/// `1 / ((base - step + step * k) * (base + step * k))` for `k` in
/// `start..=end`.
pub struct SymbolicTerm {
    pub base: BigNat,
    pub step: BigNat,
    pub start: BigNat,
    pub end: BigNat,
}

/// A concrete term `num / den`: a whole number (`den == 1`) or a unit fraction
/// (`num == 1`).
pub struct Term {
    pub num: BigNat,
    pub den: BigNat,
}

impl Clone for SymbolicTerm {
    fn clone(&self) -> (r: Self)
        ensures
            r.base@ == self.base@,
            r.step@ == self.step@,
            r.start@ == self.start@,
            r.end@ == self.end@,
    {
        SymbolicTerm {
            base: self.base.clone(),
            step: self.step.clone(),
            start: self.start.clone(),
            end: self.end.clone(),
        }
    }
}

impl Clone for Term {
    fn clone(&self) -> (r: Self)
        ensures
            r.num@ == self.num@,
            r.den@ == self.den@,
    {
        Term { num: self.num.clone(), den: self.den.clone() }
    }
}

/// Denominator of the unit fraction at index `k` of a run.
pub open spec fn unit_den(b: int, v: int, k: int) -> int {
    (b - v + v * k) * (b + v * k)
}

impl SymbolicTerm {
    pub open spec fn is_whole(&self) -> bool {
        self.step@ == 0 && self.start@ == 0 && self.end@ == 0
    }

    /// Number of unit fractions the run stands for (one for a whole marker).
    pub open spec fn run_len(&self) -> int {
        self.end@ - self.start@ + 1
    }

    /// The closed-form value of the run.
    pub open spec fn value(&self) -> (int, int) {
        if self.is_whole() {
            (self.base@ as int, 1)
        } else {
            let (b, v) = (self.base@ as int, self.step@ as int);
            (self.run_len(), (b - v + v * self.start@) * (b + v * self.end@))
        }
    }

    /// A run as the recurrence builds it: positive base and step, and indices
    /// from one on.
    pub open spec fn is_run(&self) -> bool {
        &&& !self.is_whole()
        &&& self.base@ >= 1
        &&& self.step@ >= 1
        &&& 1 <= self.start@ <= self.end@
    }

    /// A whole marker or a run as the recurrence builds it.
    pub open spec fn is_built(&self) -> bool {
        self.is_whole() || self.is_run()
    }

    /// `self` and `o` hold the same four numbers.
    pub open spec fn same_as(&self, o: SymbolicTerm) -> bool {
        self.base@ == o.base@ && self.step@ == o.step@ && self.start@ == o.start@ && self.end@
            == o.end@
    }

    /// Every denominator of the run is positive.
    pub open spec fn wf(&self) -> bool {
        self.is_whole() || (self.start@ <= self.end@ && self.base@ + self.step@ * self.start@
            > self.step@)
    }

    /// The concrete terms of the run, in order.
    pub open spec fn run_values(&self) -> Seq<(int, int)> {
        if self.is_whole() {
            seq![(self.base@ as int, 1int)]
        } else {
            unit_run(self.base@ as int, self.step@ as int, self.start@ as int, self.run_len() as nat)
        }
    }
}

/// `n` consecutive unit fractions of a run, from index `i`.
pub open spec fn unit_run(b: int, v: int, i: int, n: nat) -> Seq<(int, int)> {
    Seq::new(n, |k: int| (1int, unit_den(b, v, i + k)))
}

impl Term {
    pub open spec fn value(&self) -> (int, int) {
        (self.num@ as int, self.den@ as int)
    }
}

/// The values of a list of symbolic terms.
pub open spec fn sym_values(s: Seq<SymbolicTerm>) -> Seq<(int, int)> {
    s.map_values(|t: SymbolicTerm| t.value())
}

/// The values of a list of concrete terms.
pub open spec fn term_values(s: Seq<Term>) -> Seq<(int, int)> {
    s.map_values(|t: Term| t.value())
}

/// Every symbolic term of `s` is well formed.
pub open spec fn all_wf(s: Seq<SymbolicTerm>) -> bool {
    forall|i: int| 0 <= i < s.len() ==> (#[trigger] s[i]).wf()
}

/// Every fraction of `s` is a unit fraction `1/n` with `n >= 2`.
pub open spec fn all_units(s: Seq<(int, int)>) -> bool {
    forall|i: int| 0 <= i < s.len() ==> (#[trigger] s[i]).0 == 1 && s[i].1 >= 2
}

/// Every term of `s` is a run as the recurrence builds it.
pub open spec fn all_runs(s: Seq<SymbolicTerm>) -> bool {
    forall|i: int| 0 <= i < s.len() ==> (#[trigger] s[i]).is_run()
}

/// Every term of `s` is a whole marker or a run as the recurrence builds it.
pub open spec fn all_built(s: Seq<SymbolicTerm>) -> bool {
    forall|i: int| 0 <= i < s.len() ==> (#[trigger] s[i]).is_built()
}

pub proof fn lemma_preds_push(s: Seq<SymbolicTerm>, t: SymbolicTerm)
    ensures
        all_wf(s.push(t)) == (all_wf(s) && t.wf()),
        all_runs(s.push(t)) == (all_runs(s) && t.is_run()),
        all_built(s.push(t)) == (all_built(s) && t.is_built()),
{
    let u = s.push(t);
    assert(u[s.len() as int] == t);
    assert(forall|i: int| 0 <= i < s.len() ==> u[i] == s[i]);
    if all_wf(s) && t.wf() {
        assert forall|i: int| 0 <= i < u.len() implies (#[trigger] u[i]).wf() by {
            if i < s.len() {
                assert(u[i] == s[i]);
            }
        }
    }
    if all_runs(s) && t.is_run() {
        assert forall|i: int| 0 <= i < u.len() implies (#[trigger] u[i]).is_run() by {
            if i < s.len() {
                assert(u[i] == s[i]);
            }
        }
    }
    if all_built(s) && t.is_built() {
        assert forall|i: int| 0 <= i < u.len() implies (#[trigger] u[i]).is_built() by {
            if i < s.len() {
                assert(u[i] == s[i]);
            }
        }
    }
    if all_wf(u) {
        assert forall|i: int| 0 <= i < s.len() implies (#[trigger] s[i]).wf() by {
            assert(u[i] == s[i]);
        }
    }
    if all_runs(u) {
        assert forall|i: int| 0 <= i < s.len() implies (#[trigger] s[i]).is_run() by {
            assert(u[i] == s[i]);
        }
    }
    if all_built(u) {
        assert forall|i: int| 0 <= i < s.len() implies (#[trigger] s[i]).is_built() by {
            assert(u[i] == s[i]);
        }
    }
}

pub proof fn lemma_preds_concat(s: Seq<SymbolicTerm>, u: Seq<SymbolicTerm>)
    ensures
        all_wf(s) && all_wf(u) ==> all_wf(s + u),
        all_runs(s) && all_runs(u) ==> all_runs(s + u),
        all_built(s) && all_built(u) ==> all_built(s + u),
{
    let w = s + u;
    assert(forall|i: int| 0 <= i < s.len() ==> w[i] == s[i]);
    assert(forall|i: int| s.len() <= i < w.len() ==> w[i] == u[i - s.len()]);
}

/// A run as the recurrence builds it is worth less than one.
pub proof fn lemma_run_below_one(t: SymbolicTerm)
    requires
        t.is_run(),
    ensures
        t.value().0 < t.value().1,
{
    let (b, v, i, j) = (t.base@ as int, t.step@ as int, t.start@ as int, t.end@ as int);
    assert((j - i + 1) < (b - v + v * i) * (b + v * j)) by (nonlinear_arith)
        requires
            b >= 1,
            v >= 1,
            1 <= i <= j,
    ;
}

/// The concrete terms that a list of symbolic terms expands to.
pub open spec fn expansion(s: Seq<SymbolicTerm>) -> Seq<(int, int)>
    decreases s.len(),
{
    if s.len() == 0 {
        Seq::empty()
    } else {
        expansion(s.drop_last()) + s.last().run_values()
    }
}

proof fn lemma_telescope_step(n: int, a: int, b: int, c: int, v: int)
    requires
        a + (n - 1) * v == b,
        c == b + v,
    ensures
        ((n - 1) * (b * c) + 1 * (a * b)) * (a * c) == n * ((a * b) * (b * c)),
{
    assert((n - 1) * c + a == n * b) by (nonlinear_arith)
        requires
            a + (n - 1) * v == b,
            c == b + v,
    ;
    assert(((n - 1) * (b * c) + 1 * (a * b)) * (a * c) == ((n - 1) * c + a) * ((a * b) * c))
        by (nonlinear_arith);
    assert((n * b) * ((a * b) * c) == n * ((a * b) * (b * c))) by (nonlinear_arith);
}

/// The `n` unit fractions of a run from index `i` telescope to
/// `n / ((b - v + v * i) * (b + v * (i + n - 1)))`.
pub proof fn lemma_unit_run_sum(b: int, v: int, i: int, n: nat)
    requires
        b - v + v * i > 0,
        v >= 0,
        n >= 1,
    ensures
        frac_eq(frac_sum(unit_run(b, v, i, n)), (n as int, (b - v + v * i) * (b + v * (i + n - 1)))),
    decreases n,
{
    let a = b - v + v * i;
    if n == 1 {
        assert(unit_run(b, v, i, n) =~= seq![(1int, unit_den(b, v, i))]);
        crate::fraction::lemma_sum_single((1int, unit_den(b, v, i)));
    } else {
        let m = (n - 1) as nat;
        let s = unit_run(b, v, i, n);
        assert(s.drop_last() =~= unit_run(b, v, i, m));
        lemma_unit_run_sum(b, v, i, m);
        let bb = b + v * (i + m - 1);
        let cc = b + v * (i + n - 1);
        assert(a + (n - 1) * v == bb && cc == bb + v) by (nonlinear_arith)
            requires
                a == b - v + v * i,
                bb == b + v * (i + m - 1),
                cc == b + v * (i + n - 1),
                m == n - 1,
        ;
        assert(bb >= a) by (nonlinear_arith)
            requires
                a + (n - 1) * v == bb,
                v >= 0,
                n >= 1,
        ;
        let x = s.last();
        assert(x == (1int, bb * cc));
        lemma_telescope_step(n as int, a, bb, cc, v);
        lemma_frac_add_congr(frac_sum(s.drop_last()), (m as int, a * bb), x, x);
        assert((a * bb) * (bb * cc) > 0) by (nonlinear_arith)
            requires
                a > 0,
                bb >= a,
                cc >= bb,
        ;
        lemma_frac_eq_trans(
            frac_add(frac_sum(s.drop_last()), x),
            frac_add((m as int, a * bb), x),
            (n as int, a * cc),
        );
    }
}

/// A well-formed symbolic term has a positive denominator.
pub proof fn lemma_value_pos(t: SymbolicTerm)
    requires
        t.wf(),
    ensures
        t.value().1 > 0,
{
    if !t.is_whole() {
        let (b, v, i, j) = (t.base@ as int, t.step@ as int, t.start@ as int, t.end@ as int);
        assert((b - v + v * i) * (b + v * j) > 0) by (nonlinear_arith)
            requires
                b + v * i > v,
                i <= j,
                v >= 0,
        ;
    }
}

/// The expansion of a well-formed term sums to its closed-form value.
pub proof fn lemma_run_values_sum(t: SymbolicTerm)
    requires
        t.wf(),
    ensures
        frac_eq(frac_sum(t.run_values()), t.value()),
{
    if t.is_whole() {
        crate::fraction::lemma_sum_single((t.base@ as int, 1int));
    } else {
        let (b, v, i, j) = (t.base@ as int, t.step@ as int, t.start@ as int, t.end@ as int);
        lemma_unit_run_sum(b, v, i, t.run_len() as nat);
        assert(i + t.run_len() - 1 == j);
    }
}

/// Expanding a list of well-formed symbolic terms keeps its value.
pub proof fn lemma_expansion_sum(s: Seq<SymbolicTerm>)
    requires
        all_wf(s),
    ensures
        frac_eq(frac_sum(expansion(s)), frac_sum(sym_values(s))),
    decreases s.len(),
{
    if s.len() == 0 {
        assert(sym_values(s) =~= Seq::empty());
    } else {
        let s1 = s.drop_last();
        assert(all_wf(s1)) by {
            assert forall|k: int| 0 <= k < s1.len() implies (#[trigger] s1[k]).wf() by {
                assert(s1[k] == s[k]);
            }
        }
        lemma_expansion_sum(s1);
        lemma_run_values_sum(s.last());
        crate::fraction::lemma_sum_concat(expansion(s1), s.last().run_values());
        lemma_frac_add_congr(
            frac_sum(expansion(s1)),
            frac_sum(sym_values(s1)),
            frac_sum(s.last().run_values()),
            s.last().value(),
        );
        assert(sym_values(s).drop_last() =~= sym_values(s1));
    }
}

/// The sum of the values of a list of symbolic terms.
pub open spec fn sym_sum(s: Seq<SymbolicTerm>) -> (int, int) {
    frac_sum(sym_values(s))
}

pub proof fn lemma_sym_sum_push(s: Seq<SymbolicTerm>, t: SymbolicTerm)
    ensures
        sym_sum(s.push(t)) == frac_add(sym_sum(s), t.value()),
{
    assert(sym_values(s.push(t)).drop_last() =~= sym_values(s));
}

pub proof fn lemma_sym_sum_concat(a: Seq<SymbolicTerm>, b: Seq<SymbolicTerm>)
    ensures
        sym_sum(a + b) == frac_add(sym_sum(a), sym_sum(b)),
{
    assert(sym_values(a + b) =~= sym_values(a) + sym_values(b));
    crate::fraction::lemma_sum_concat(sym_values(a), sym_values(b));
}

pub proof fn lemma_sym_sum_pos(s: Seq<SymbolicTerm>)
    requires
        all_wf(s),
    ensures
        sym_sum(s).1 > 0,
{
    assert forall|i: int| 0 <= i < sym_values(s).len() implies (#[trigger] sym_values(s)[i]).1
        > 0 by {
        lemma_value_pos(s[i]);
    }
    crate::fraction::lemma_sum_pos(sym_values(s));
}

} // verus!
