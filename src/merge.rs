//! Coalescing consecutive terms whose sum is a single unit fraction.

use crate::bignat::{nat_add, nat_mul, BigNat};
use crate::decompose::reduce;
use crate::fraction::{
    frac_add, frac_eq, frac_sum, lemma_frac_add_congr, lemma_frac_add_pos, lemma_frac_eq_trans,
    lemma_sum_concat, lemma_sum_pos, lemma_sum_single, pos_dens,
};
use crate::repair::{lemma_pos_push, lemma_term_values_push};
use crate::terms::{all_units, term_values, Term};
use vstd::prelude::*;

verus! {

/// `q` is a unit fraction `1/m`.
pub open spec fn is_unit(q: (int, int)) -> bool {
    q.0 > 0 && q.1 % q.0 == 0
}

/// The last index `k` in `i..=j` such that `k == i` or the terms `i..=k` add
/// up to a unit fraction.
pub open spec fn span_end(vals: Seq<(int, int)>, i: int, j: int) -> int
    decreases j - i,
{
    if j <= i {
        i
    } else if is_unit(frac_sum(vals.subrange(i, j + 1))) {
        j
    } else {
        span_end(vals, i, j - 1)
    }
}

/// The spans `(first, last)` that `merge` turns into single terms, from
/// index `i` on: each runs from its first index to `span_end`.
pub open spec fn spans_from(vals: Seq<(int, int)>, i: int) -> Seq<(int, int)>
    decreases vals.len() - i,
{
    if i < 0 || i >= vals.len() {
        Seq::empty()
    } else {
        let e = span_end(vals, i, vals.len() - 1);
        let e2 = if e < i || e >= vals.len() {
            i
        } else {
            e
        };
        seq![(i, e2)] + spans_from(vals, e2 + 1)
    }
}

proof fn lemma_span_end_range(vals: Seq<(int, int)>, i: int, j: int)
    ensures
        i <= span_end(vals, i, j),
        j >= i ==> span_end(vals, i, j) <= j,
    decreases j - i,
{
    if j > i && !is_unit(frac_sum(vals.subrange(i, j + 1))) {
        lemma_span_end_range(vals, i, j - 1);
    }
}

proof fn lemma_span_end_unit(vals: Seq<(int, int)>, i: int, j: int)
    ensures
        span_end(vals, i, j) == i || is_unit(frac_sum(vals.subrange(i, span_end(vals, i, j) + 1))),
    decreases j - i,
{
    if j > i && !is_unit(frac_sum(vals.subrange(i, j + 1))) {
        lemma_span_end_unit(vals, i, j - 1);
    }
}

/// A fraction in lowest terms has numerator one exactly when it is a unit
/// fraction.
proof fn lemma_reduced_unit(a: int, b: int, s: (int, int))
    requires
        a >= 0,
        b > 0,
        s.1 > 0,
        crate::bignat::coprime(a as nat, b as nat),
        frac_eq((a, b), s),
    ensures
        (a == 1) == is_unit(s),
{
    if a == 1 {
        assert(s.1 == s.0 * b) by (nonlinear_arith)
            requires
                a * s.1 == s.0 * b,
                a == 1,
        ;
        assert(s.0 > 0) by (nonlinear_arith)
            requires
                s.1 == s.0 * b,
                s.1 > 0,
                b > 0,
        ;
        vstd::arithmetic::div_mod::lemma_mod_multiples_basic(b, s.0);
        assert(s.1 == b * s.0) by (nonlinear_arith)
            requires
                s.1 == s.0 * b,
        ;
    }
    if is_unit(s) {
        vstd::arithmetic::div_mod::lemma_fundamental_div_mod(s.1, s.0);
        let m = s.1 / s.0;
        assert(a * m == b && a > 0) by (nonlinear_arith)
            requires
                a * s.1 == s.0 * b,
                s.1 == s.0 * m + 0,
                s.0 > 0,
                b > 0,
                a >= 0,
        ;
        if a > 1 {
            vstd::arithmetic::div_mod::lemma_mod_multiples_basic(m, a);
            vstd::arithmetic::div_mod::lemma_mod_multiples_basic(1, a);
            assert(b == m * a) by (nonlinear_arith)
                requires
                    a * m == b,
            ;
            assert((a as nat) % (a as nat) == 0 && (b as nat) % (a as nat) == 0);
        }
    }
}

/// `t` is what `merge` makes of the span `sp` of `vals`: the span's sum in
/// lowest terms, which is `1/m` when the sum is a unit fraction, and the
/// term itself when a single unit fraction or whole number stands alone.
pub open spec fn merged_term(t: Term, sp: (int, int), vals: Seq<(int, int)>) -> bool {
    let sum = frac_sum(vals.subrange(sp.0, sp.1 + 1));
    &&& t.den@ > 0
    &&& crate::bignat::coprime(t.num@, t.den@)
    &&& frac_eq(t.value(), sum)
    &&& is_unit(sum) ==> t.num@ == 1
    &&& sp.1 == sp.0 && (vals[sp.0].0 == 1 || vals[sp.0].1 == 1) ==> t.value() == vals[sp.0]
}

/// From each position, replaces the longest span of terms whose running sum
/// is a unit fraction `1/m` by the single term `1/m`; a term that starts no
/// such span stays, in lowest terms.
pub fn merge(eg: &Vec<Term>) -> (r: Vec<Term>)
    requires
        pos_dens(term_values(eg@)),
    ensures
        pos_dens(term_values(r@)),
        frac_eq(frac_sum(term_values(r@)), frac_sum(term_values(eg@))),
        r@.len() <= eg@.len(),
        eg@.len() == 1 && (eg@[0].num@ == 1 || eg@[0].den@ == 1) ==> term_values(r@) == term_values(eg@),
        r@.len() == spans_from(term_values(eg@), 0).len(),
        forall|k: int|
            0 <= k < r@.len() ==> merged_term(
                #[trigger] r@[k],
                spans_from(term_values(eg@), 0)[k],
                term_values(eg@),
            ),
        all_units(term_values(eg@)) && frac_sum(term_values(eg@)).0 < frac_sum(term_values(eg@)).1
            ==> all_units(term_values(r@)),
{
    let ghost units = all_units(term_values(eg@)) && frac_sum(term_values(eg@)).0 < frac_sum(
        term_values(eg@),
    ).1;
    let ghost vals = term_values(eg@);
    let one = BigNat::from_u32(1);
    let mut ret: Vec<Term> = Vec::new();
    let mut i: usize = 0;
    let ghost mut gs: Seq<(int, int)> = Seq::empty();
    proof {
        assert(gs + spans_from(vals, 0) =~= spans_from(vals, 0));
        assert(term_values(ret@) =~= Seq::empty());
        assert(vals.subrange(0, 0) =~= Seq::<(int, int)>::empty());
    }
    while i < eg.len()
        invariant
            vals == term_values(eg@),
            pos_dens(vals),
            one@ == 1,
            i <= eg@.len(),
            ret@.len() <= i,
            pos_dens(term_values(ret@)),
            frac_eq(frac_sum(term_values(ret@)), frac_sum(vals.subrange(0, i as int))),
            eg@.len() == 1 && (eg@[0].num@ == 1 || eg@[0].den@ == 1) ==> (i == 0 && ret@.len() == 0)
                || (i == 1 && term_values(ret@) == vals),
            spans_from(vals, 0) == gs + spans_from(vals, i as int),
            gs.len() == ret@.len(),
            forall|k: int| 0 <= k < ret@.len() ==> merged_term(#[trigger] ret@[k], gs[k], vals),
            units == (all_units(vals) && frac_sum(vals).0 < frac_sum(vals).1),
            units ==> all_units(term_values(ret@)),
        decreases eg@.len() - i,
    {
        proof {
            assert(vals[i as int].1 > 0);
        }
        let (a0, b0) = reduce(&eg[i].num, &eg[i].den);
        let mut best_num = a0.clone();
        let mut best_den = b0.clone();
        let mut best_j: usize = i;
        let mut a = a0;
        let mut b = b0;
        let mut j: usize = i + 1;
        proof {
            assert(vals.subrange(i as int, i + 1) =~= seq![vals[i as int]]);
            lemma_sum_single(vals[i as int]);
        }
        while j < eg.len()
            invariant
                vals == term_values(eg@),
                pos_dens(vals),
                one@ == 1,
                i <= best_j < j <= eg@.len(),
                b@ > 0,
                best_den@ > 0,
                frac_eq((a@ as int, b@ as int), frac_sum(vals.subrange(i as int, j as int))),
                frac_eq((best_num@ as int, best_den@ as int), frac_sum(vals.subrange(i as int, best_j + 1))),
                best_j == i ==> best_num@ == a0@ && best_den@ == b0@,
                best_j == span_end(vals, i as int, j - 1),
                crate::bignat::coprime(a@, b@),
                crate::bignat::coprime(best_num@, best_den@),
            decreases eg@.len() - j,
        {
            let t = &eg[j];
            let num = nat_add(&nat_mul(&a, &t.den), &nat_mul(&t.num, &b));
            let den = nat_mul(&b, &t.den);
            proof {
                let x = vals[j as int];
                assert(x == (t.num@ as int, t.den@ as int));
                assert(x.1 > 0);
                let sub = vals.subrange(i as int, j + 1);
                assert(sub.drop_last() =~= vals.subrange(i as int, j as int));
                assert(sub.last() == x);
                lemma_frac_add_congr(frac_sum(sub.drop_last()), (a@ as int, b@ as int), x, x);
                assert(den@ > 0) by (nonlinear_arith)
                    requires
                        den@ == b@ * t.den@,
                        b@ > 0,
                        t.den@ > 0,
                ;
                crate::repair::lemma_pos_subrange(vals, i as int, j as int);
                lemma_sum_pos(vals.subrange(i as int, j as int));
            }
            let (na, nb) = reduce(&num, &den);
            proof {
                let x = vals[j as int];
                let sub = vals.subrange(i as int, j + 1);
                assert(frac_add((a@ as int, b@ as int), x) == (num@ as int, den@ as int));
                lemma_frac_add_pos(frac_sum(sub.drop_last()), x);
                lemma_frac_eq_trans((na@ as int, nb@ as int), (num@ as int, den@ as int), frac_sum(sub));
                lemma_sum_pos(sub);
                lemma_reduced_unit(na@ as int, nb@ as int, frac_sum(sub));
            }
            a = na;
            b = nb;
            if a == one {
                best_num = a.clone();
                best_den = b.clone();
                best_j = j;
            }
            j = j + 1;
        }
        let ghost before = ret@;
        ret.push(Term { num: best_num, den: best_den });
        proof {
            lemma_span_end_range(vals, i as int, vals.len() - 1);
            assert(spans_from(vals, i as int) == seq![(i as int, best_j as int)] + spans_from(vals, best_j + 1));
            assert(gs.push((i as int, best_j as int)) + spans_from(vals, best_j + 1) =~= gs + spans_from(vals, i as int));
            crate::repair::lemma_pos_subrange(vals, i as int, best_j + 1);
            lemma_sum_pos(vals.subrange(i as int, best_j + 1));
            lemma_reduced_unit(best_num@ as int, best_den@ as int, frac_sum(vals.subrange(i as int, best_j + 1)));
            assert(merged_term(ret@.last(), (i as int, best_j as int), vals));
            if units {
                let span = vals.subrange(i as int, best_j + 1);
                let tv = ret@.last().value();
                if best_j == i {
                    assert(vals[i as int].0 == 1);
                    assert(tv == vals[i as int]);
                } else {
                    lemma_span_end_unit(vals, i as int, vals.len() - 1);
                    assert(is_unit(frac_sum(span)));
                    assert(vals =~= vals.subrange(0, i as int) + span + vals.subrange(best_j + 1, vals.len() as int));
                    crate::repair::lemma_units_sub(vals, 0, i as int);
                    crate::repair::lemma_units_sub(vals, i as int, best_j + 1);
                    crate::repair::lemma_units_sub(vals, best_j + 1, vals.len() as int);
                    crate::fraction::lemma_sum_part_le(vals.subrange(0, i as int), span, vals.subrange(best_j + 1, vals.len() as int));
                    lemma_sum_pos(vals);
                    crate::fraction::lemma_below_one_eq(tv, frac_sum(span), frac_sum(vals), frac_sum(vals));
                }
                assert forall|k: int| 0 <= k < term_values(ret@).len() implies (#[trigger] term_values(ret@)[k]).0
                    == 1 && term_values(ret@)[k].1 >= 2 by {
                    if k < before.len() {
                        assert(term_values(ret@)[k] == term_values(before)[k]);
                    } else {
                        assert(term_values(ret@)[k] == tv);
                    }
                }
            }
            assert forall|k: int| 0 <= k < ret@.len() implies merged_term(#[trigger] ret@[k], gs.push((i as int, best_j as int))[k], vals) by {
                if k < before.len() {
                    assert(ret@[k] == before[k]);
                }
            }
            gs = gs.push((i as int, best_j as int));
            let head = vals.subrange(0, i as int);
            let span = vals.subrange(i as int, best_j + 1);
            let bv = (best_num@ as int, best_den@ as int);
            lemma_term_values_push(before, Term { num: best_num, den: best_den });
            assert(term_values(before).push(bv).drop_last() =~= term_values(before));
            assert(frac_sum(term_values(ret@)) == frac_add(frac_sum(term_values(before)), bv));
            assert(vals.subrange(0, best_j + 1) =~= head + span);
            lemma_sum_concat(head, span);
            crate::repair::lemma_pos_subrange(vals, 0, i as int);
            lemma_sum_pos(head);
            lemma_sum_pos(term_values(before));
            lemma_frac_add_congr(frac_sum(term_values(before)), frac_sum(head), bv, frac_sum(span));
            lemma_pos_push(term_values(before), bv);
            if eg@.len() == 1 && (eg@[0].num@ == 1 || eg@[0].den@ == 1) {
                assert(best_j == i);
                assert(term_values(ret@) =~= vals);
            }
        }
        i = best_j + 1;
    }
    proof {
        assert(vals.subrange(0, vals.len() as int) =~= vals);
        assert(gs + spans_from(vals, i as int) =~= gs);
    }
    ret
}

} // verus!
