//! Exact rational arithmetic on pairs `(numerator, denominator)`, used to
//! state what the decomposition preserves.

use vstd::prelude::*;

verus! {

/// `a + b` over a common denominator, without reduction.
pub open spec fn frac_add(a: (int, int), b: (int, int)) -> (int, int) {
    (a.0 * b.1 + b.0 * a.1, a.1 * b.1)
}

/// `a` and `b` denote the same rational number.
pub open spec fn frac_eq(a: (int, int), b: (int, int)) -> bool {
    a.0 * b.1 == b.0 * a.1
}

/// The sum of a sequence of fractions, added left to right.
pub open spec fn frac_sum(s: Seq<(int, int)>) -> (int, int)
    decreases s.len(),
{
    if s.len() == 0 {
        (0, 1)
    } else {
        frac_add(frac_sum(s.drop_last()), s.last())
    }
}

/// Every fraction of `s` has a positive denominator.
pub open spec fn pos_dens(s: Seq<(int, int)>) -> bool {
    forall|i: int| 0 <= i < s.len() ==> (#[trigger] s[i]).1 > 0
}

pub proof fn lemma_frac_eq_trans(a: (int, int), b: (int, int), c: (int, int))
    requires
        b.1 > 0,
        frac_eq(a, b),
        frac_eq(b, c),
    ensures
        frac_eq(a, c),
{
    let (a0, a1, b0, b1, c0, c1) = (a.0, a.1, b.0, b.1, c.0, c.1);
    assert((a0 * c1 - c0 * a1) * b1 == 0) by (nonlinear_arith)
        requires
            a0 * b1 == b0 * a1,
            b0 * c1 == c0 * b1,
    ;
    assert(a0 * c1 - c0 * a1 == 0) by (nonlinear_arith)
        requires
            (a0 * c1 - c0 * a1) * b1 == 0,
            b1 > 0,
    ;
}

pub proof fn lemma_frac_add_congr(a: (int, int), a2: (int, int), b: (int, int), b2: (int, int))
    requires
        frac_eq(a, a2),
        frac_eq(b, b2),
    ensures
        frac_eq(frac_add(a, b), frac_add(a2, b2)),
{
    let (x0, x1, y0, y1, u0, u1, w0, w1) = (a.0, a.1, a2.0, a2.1, b.0, b.1, b2.0, b2.1);
    lemma_cross_expand(x0, x1, u0, u1, y1, w1);
    lemma_cross_expand(y0, y1, w0, w1, x1, u1);
    assert((y0 * x1) * (u1 * w1) == (y0 * x1) * (w1 * u1)) by (nonlinear_arith);
    assert((w0 * u1) * (x1 * y1) == (w0 * u1) * (y1 * x1)) by (nonlinear_arith);
}

proof fn lemma_cross_expand(m0: int, m1: int, k0: int, k1: int, e1: int, f1: int)
    ensures
        (m0 * k1 + k0 * m1) * (e1 * f1) == (m0 * e1) * (k1 * f1) + (k0 * f1) * (m1 * e1),
{
    assert((m0 * k1 + k0 * m1) * (e1 * f1) == (m0 * k1) * (e1 * f1) + (k0 * m1) * (e1 * f1))
        by (nonlinear_arith);
    assert((m0 * k1) * (e1 * f1) == (m0 * e1) * (k1 * f1)) by (nonlinear_arith);
    assert((k0 * m1) * (e1 * f1) == (k0 * f1) * (m1 * e1)) by (nonlinear_arith);
}

pub proof fn lemma_frac_add_assoc(a: (int, int), b: (int, int), c: (int, int))
    ensures
        frac_add(frac_add(a, b), c) == frac_add(a, frac_add(b, c)),
{
    lemma_assoc_ints(a.0, a.1, b.0, b.1, c.0, c.1);
}

proof fn lemma_assoc_ints(a0: int, a1: int, b0: int, b1: int, c0: int, c1: int)
    ensures
        (a0 * b1 + b0 * a1) * c1 + c0 * (a1 * b1) == a0 * (b1 * c1) + (b0 * c1 + c0 * b1) * a1,
        (a1 * b1) * c1 == a1 * (b1 * c1),
{
    assert((a0 * b1 + b0 * a1) * c1 == a0 * b1 * c1 + b0 * a1 * c1) by (nonlinear_arith);
    assert((b0 * c1 + c0 * b1) * a1 == b0 * c1 * a1 + c0 * b1 * a1) by (nonlinear_arith);
    assert(a0 * b1 * c1 == a0 * (b1 * c1)) by (nonlinear_arith);
    assert(b0 * a1 * c1 == b0 * c1 * a1) by (nonlinear_arith);
    assert(c0 * (a1 * b1) == c0 * b1 * a1) by (nonlinear_arith);
    assert((a1 * b1) * c1 == a1 * (b1 * c1)) by (nonlinear_arith);
}

pub proof fn lemma_frac_add_comm(a: (int, int), b: (int, int))
    ensures
        frac_add(a, b) == frac_add(b, a),
{
    assert(a.1 * b.1 == b.1 * a.1) by (nonlinear_arith);
}

pub proof fn lemma_frac_add_pos(a: (int, int), b: (int, int))
    requires
        a.1 > 0,
        b.1 > 0,
    ensures
        frac_add(a, b).1 > 0,
{
    assert(a.1 * b.1 > 0) by (nonlinear_arith)
        requires
            a.1 > 0,
            b.1 > 0,
    ;
}

/// A sum of fractions with positive denominators has a positive denominator.
pub proof fn lemma_sum_pos(s: Seq<(int, int)>)
    requires
        pos_dens(s),
    ensures
        frac_sum(s).1 > 0,
    decreases s.len(),
{
    if s.len() > 0 {
        lemma_sum_pos(s.drop_last());
        lemma_frac_add_pos(frac_sum(s.drop_last()), s.last());
    }
}

/// Summing a concatenation is adding the two sums.
pub proof fn lemma_sum_concat(a: Seq<(int, int)>, b: Seq<(int, int)>)
    ensures
        frac_sum(a + b) == frac_add(frac_sum(a), frac_sum(b)),
    decreases b.len(),
{
    let sa = frac_sum(a);
    if b.len() == 0 {
        assert(a + b =~= a);
        assert(sa.0 * 1 + 0 * sa.1 == sa.0 && sa.1 * 1 == sa.1) by (nonlinear_arith);
    } else {
        let b1 = b.drop_last();
        assert((a + b).drop_last() =~= a + b1);
        assert((a + b).last() == b.last());
        lemma_sum_concat(a, b1);
        lemma_frac_add_assoc(sa, frac_sum(b1), b.last());
    }
}

/// Inserting `x` anywhere in `s` adds `x` to its sum.
pub proof fn lemma_sum_insert(s: Seq<(int, int)>, p: int, x: (int, int))
    requires
        0 <= p <= s.len(),
    ensures
        frac_sum(s.insert(p, x)) == frac_add(frac_sum(s), x),
{
    let pre = s.subrange(0, p);
    let post = s.subrange(p, s.len() as int);
    assert(s.insert(p, x) =~= (pre + seq![x]) + post);
    assert(s =~= pre + post);
    lemma_sum_concat(pre + seq![x], post);
    lemma_sum_concat(pre, seq![x]);
    lemma_sum_concat(pre, post);
    lemma_sum_single(x);
    lemma_frac_add_assoc(frac_sum(pre), x, frac_sum(post));
    lemma_frac_add_comm(x, frac_sum(post));
    lemma_frac_add_assoc(frac_sum(pre), frac_sum(post), x);
}

pub proof fn lemma_sum_single(x: (int, int))
    ensures
        frac_sum(seq![x]) == x,
{
    assert(seq![x].drop_last() =~= Seq::<(int, int)>::empty());
    assert(frac_sum(Seq::<(int, int)>::empty()) == (0int, 1int));
    assert(0 * x.1 + x.0 * 1 == x.0 && 1 * x.1 == x.1) by (nonlinear_arith);
}

/// Replacing a summand by an equal fraction keeps an equation.
pub proof fn lemma_frac_replace(r: (int, int), x: (int, int), x2: (int, int), s: (int, int))
    requires
        r.1 > 0,
        x.1 > 0,
        frac_eq(x, x2),
        frac_eq(frac_add(r, x), s),
    ensures
        frac_eq(frac_add(r, x2), s),
{
    lemma_frac_add_congr(r, r, x2, x);
    lemma_frac_add_pos(r, x);
    lemma_frac_eq_trans(frac_add(r, x2), frac_add(r, x), s);
}

/// `add(r, add(p, x))` keeps its value when `x` is replaced by an equal
/// fraction.
pub proof fn lemma_replace_inner(r: (int, int), p: (int, int), x: (int, int), x2: (int, int), s: (int, int))
    requires
        r.1 > 0,
        p.1 > 0,
        x.1 > 0,
        x2.1 > 0,
        frac_eq(x, x2),
        frac_eq(frac_add(r, frac_add(p, x2)), s),
    ensures
        frac_eq(frac_add(r, frac_add(p, x)), s),
{
    lemma_frac_add_congr(p, p, x, x2);
    lemma_frac_add_pos(p, x2);
    lemma_frac_add_pos(p, x);
    lemma_frac_replace(r, frac_add(p, x2), frac_add(p, x), s);
}

/// `add(add(r, h), add(p, t)) == add(r, add(p, add(h, t)))`.
pub proof fn lemma_regroup(r: (int, int), h: (int, int), p: (int, int), t: (int, int))
    ensures
        frac_add(frac_add(r, h), frac_add(p, t)) == frac_add(r, frac_add(p, frac_add(h, t))),
{
    lemma_frac_add_assoc(r, h, frac_add(p, t));
    lemma_frac_add_assoc(h, p, t);
    lemma_frac_add_comm(h, p);
    lemma_frac_add_assoc(p, h, t);
}

/// `a` is at most `b` (for positive denominators).
pub open spec fn frac_le(a: (int, int), b: (int, int)) -> bool {
    a.0 * b.1 <= b.0 * a.1
}

/// Every fraction of `s` is non-negative with a positive denominator.
pub open spec fn nonneg(s: Seq<(int, int)>) -> bool {
    forall|i: int| 0 <= i < s.len() ==> (#[trigger] s[i]).0 >= 0 && s[i].1 > 0
}

pub proof fn lemma_sum_nonneg(s: Seq<(int, int)>)
    requires
        nonneg(s),
    ensures
        frac_sum(s).0 >= 0,
        frac_sum(s).1 > 0,
    decreases s.len(),
{
    if s.len() > 0 {
        let s1 = s.drop_last();
        assert(nonneg(s1)) by {
            assert forall|i: int| 0 <= i < s1.len() implies (#[trigger] s1[i]).0 >= 0 && s1[i].1 > 0 by {
                assert(s1[i] == s[i]);
            }
        }
        lemma_sum_nonneg(s1);
        let (a, b) = (frac_sum(s1), s.last());
        assert(a.0 * b.1 + b.0 * a.1 >= 0 && a.1 * b.1 > 0) by (nonlinear_arith)
            requires
                a.0 >= 0,
                a.1 > 0,
                b.0 >= 0,
                b.1 > 0,
        ;
    }
}

proof fn lemma_le_add(x: (int, int), y: (int, int))
    requires
        x.0 >= 0,
        x.1 > 0,
        y.0 >= 0,
        y.1 > 0,
    ensures
        frac_le(x, frac_add(x, y)),
        frac_le(y, frac_add(x, y)),
{
    assert(x.0 * (x.1 * y.1) <= (x.0 * y.1 + y.0 * x.1) * x.1) by (nonlinear_arith)
        requires
            x.0 >= 0,
            x.1 > 0,
            y.0 >= 0,
            y.1 > 0,
    ;
    assert(y.0 * (x.1 * y.1) <= (x.0 * y.1 + y.0 * x.1) * y.1) by (nonlinear_arith)
        requires
            x.0 >= 0,
            x.1 > 0,
            y.0 >= 0,
            y.1 > 0,
    ;
}

proof fn lemma_le_trans(a: (int, int), b: (int, int), c: (int, int))
    requires
        a.1 > 0,
        b.1 > 0,
        c.1 > 0,
        frac_le(a, b),
        frac_le(b, c),
    ensures
        frac_le(a, c),
{
    assert(a.0 * c.1 <= c.0 * a.1) by (nonlinear_arith)
        requires
            a.0 * b.1 <= b.0 * a.1,
            b.0 * c.1 <= c.0 * b.1,
            a.1 > 0,
            b.1 > 0,
            c.1 > 0,
    ;
}

/// A stretch of non-negative fractions adds up to at most the whole sum.
pub proof fn lemma_sum_part_le(p: Seq<(int, int)>, r: Seq<(int, int)>, q: Seq<(int, int)>)
    requires
        nonneg(p),
        nonneg(r),
        nonneg(q),
    ensures
        frac_le(frac_sum(r), frac_sum(p + r + q)),
{
    lemma_sum_nonneg(p);
    lemma_sum_nonneg(r);
    lemma_sum_nonneg(q);
    lemma_sum_concat(p + r, q);
    lemma_sum_concat(p, r);
    let (sp, sr, sq) = (frac_sum(p), frac_sum(r), frac_sum(q));
    lemma_le_add(sp, sr);
    lemma_frac_add_pos(sp, sr);
    assert(frac_add(sp, sr).0 >= 0) by (nonlinear_arith)
        requires
            sp.0 >= 0,
            sp.1 > 0,
            sr.0 >= 0,
            sr.1 > 0,
            frac_add(sp, sr) == (sp.0 * sr.1 + sr.0 * sp.1, sp.1 * sr.1),
    ;
    lemma_le_add(frac_add(sp, sr), sq);
    lemma_frac_add_pos(frac_add(sp, sr), sq);
    lemma_le_trans(sr, frac_add(sp, sr), frac_add(frac_add(sp, sr), sq));
}

/// A fraction at most `s`, where `s` equals a fraction below one, is below one.
pub proof fn lemma_below_one(x: (int, int), s: (int, int), t: (int, int))
    requires
        x.1 > 0,
        s.1 > 0,
        t.1 > 0,
        frac_le(x, s),
        frac_eq(s, t),
        t.0 < t.1,
    ensures
        x.0 < x.1,
{
    assert(x.0 * s.1 * t.1 < x.1 * s.1 * t.1) by (nonlinear_arith)
        requires
            x.0 * s.1 <= s.0 * x.1,
            s.0 * t.1 == t.0 * s.1,
            t.0 < t.1,
            x.1 > 0,
            s.1 > 0,
            t.1 > 0,
    ;
    assert(x.0 < x.1) by (nonlinear_arith)
        requires
            x.0 * s.1 * t.1 < x.1 * s.1 * t.1,
            s.1 > 0,
            t.1 > 0,
    ;
}

/// A fraction equal to one at most a fraction below one is below one.
pub proof fn lemma_below_one_eq(x: (int, int), r: (int, int), s: (int, int), t: (int, int))
    requires
        x.1 > 0,
        r.1 > 0,
        s.1 > 0,
        t.1 > 0,
        frac_eq(x, r),
        frac_le(r, s),
        frac_eq(s, t),
        t.0 < t.1,
    ensures
        x.0 < x.1,
{
    lemma_below_one(r, s, t);
    assert(x.0 < x.1) by (nonlinear_arith)
        requires
            x.0 * r.1 == r.0 * x.1,
            r.0 < r.1,
            x.1 > 0,
            r.1 > 0,
    ;
}

} // verus!
