//! Sorting concrete terms and removing repeated denominators.

use crate::bignat::{div_rem, le, nat_add, nat_mul, nat_sub, BigNat};
use crate::decompose::{as_egyptian_fraction_symbolic, reduce};
use crate::expand::{all_pos, expand};
use crate::fraction::{
    frac_add, frac_eq, frac_sum, lemma_frac_add_assoc, lemma_frac_add_congr, lemma_frac_add_pos,
    lemma_frac_eq_trans, lemma_sum_concat, lemma_sum_insert, lemma_sum_pos, lemma_sum_single, pos_dens,
};
use crate::terms::{all_units, lemma_expansion_sum, term_values, Term};
use vstd::arithmetic::div_mod::lemma_fundamental_div_mod;
use vstd::prelude::*;

verus! {

/// Denominators never decrease along `s`.
pub open spec fn dens_sorted(s: Seq<(int, int)>) -> bool {
    forall|a: int, b: int| 0 <= a < b < s.len() ==> (#[trigger] s[a]).1 <= (#[trigger] s[b]).1
}

/// No two entries of `s` share a denominator.
pub open spec fn dens_distinct(s: Seq<(int, int)>) -> bool {
    forall|a: int, b: int| 0 <= a < s.len() && 0 <= b < s.len() && a != b ==> (#[trigger] s[a]).1
        != (#[trigger] s[b]).1
}

pub proof fn lemma_term_values_push(s: Seq<Term>, t: Term)
    ensures
        term_values(s.push(t)) == term_values(s).push(t.value()),
{
    assert(term_values(s.push(t)) =~= term_values(s).push(t.value()));
}

pub proof fn lemma_pos_push(s: Seq<(int, int)>, x: (int, int))
    requires
        pos_dens(s),
        x.1 > 0,
    ensures
        pos_dens(s.push(x)),
{
    assert forall|i: int| 0 <= i < s.push(x).len() implies (#[trigger] s.push(x)[i]).1 > 0 by {
        if i < s.len() {
            assert(s.push(x)[i] == s[i]);
        }
    }
}

/// Appends copies of `v[lo..hi]` to `out`.
pub fn copy_range(v: &Vec<Term>, lo: usize, hi: usize, out: &mut Vec<Term>)
    requires
        lo <= hi <= v@.len(),
    ensures
        term_values(final(out)@) == term_values(old(out)@) + term_values(v@).subrange(
            lo as int,
            hi as int,
        ),
{
    let ghost start = term_values(out@);
    let mut i: usize = lo;
    while i < hi
        invariant
            lo <= i <= hi <= v@.len(),
            term_values(out@) == start + term_values(v@).subrange(lo as int, i as int),
        decreases hi - i,
    {
        let ghost before = out@;
        let c = v[i].clone();
        out.push(c);
        proof {
            lemma_term_values_push(before, c);
            assert(term_values(out@) =~= start + term_values(v@).subrange(lo as int, i + 1));
        }
        i = i + 1;
    }
}

/// The terms in order of non-decreasing denominator.
pub fn sort_terms(v: &Vec<Term>) -> (r: Vec<Term>)
    ensures
        dens_sorted(term_values(r@)),
        frac_sum(term_values(r@)) == frac_sum(term_values(v@)),
        pos_dens(term_values(v@)) ==> pos_dens(term_values(r@)),
        r@.len() == v@.len(),
        v@.len() <= 1 ==> term_values(r@) == term_values(v@),
        term_values(r@).to_multiset() == term_values(v@).to_multiset(),
        all_units(term_values(v@)) ==> all_units(term_values(r@)),
        dens_increasing(term_values(v@)) ==> term_values(r@) == term_values(v@),
        dens_distinct(term_values(v@)) ==> dens_increasing(term_values(r@)),
{
    let mut out: Vec<Term> = Vec::new();
    let mut i: usize = 0;
    proof {
        assert(term_values(out@) =~= Seq::empty());
        assert(term_values(v@).subrange(0, 0) =~= Seq::<(int, int)>::empty());
    }
    while i < v.len()
        invariant
            i <= v@.len(),
            out@.len() == i,
            dens_sorted(term_values(out@)),
            frac_sum(term_values(out@)) == frac_sum(term_values(v@).subrange(0, i as int)),
            pos_dens(term_values(v@)) ==> pos_dens(term_values(out@)),
            v@.len() <= 1 ==> term_values(out@) == term_values(v@).subrange(0, i as int),
            term_values(out@).to_multiset() == term_values(v@).subrange(0, i as int).to_multiset(),
            all_units(term_values(v@)) ==> all_units(term_values(out@)),
            dens_increasing(term_values(v@)) ==> term_values(out@) == term_values(v@).subrange(0, i as int),
            dens_distinct(term_values(v@)) ==> dens_increasing(term_values(out@)),
        decreases v@.len() - i,
    {
        let t = v[i].clone();
        let mut p: usize = 0;
        while p < out.len() && le(&out[p].den, &t.den)
            invariant
                p <= out@.len(),
                out@.len() == i,
                i < v@.len(),
                t.value() == term_values(v@)[i as int],
                forall|q: int| 0 <= q < p ==> (#[trigger] out@[q]).den@ <= t.den@,
            decreases out@.len() - p,
        {
            p = p + 1;
        }
        proof {
            broadcast use vstd::seq_lib::group_to_multiset_ensures;
            if dens_distinct(term_values(v@)) {
                let w = term_values(out@);
                let pre_v = term_values(v@).subrange(0, i as int);
                assert forall|q: int| 0 <= q < w.len() implies (#[trigger] w[q]).1 != t.den@ by {
                    assert(w.contains(w[q]));
                    assert(w.to_multiset().count(w[q]) > 0);
                    assert(pre_v.contains(w[q]));
                    let k = choose|k: int| 0 <= k < pre_v.len() && pre_v[k] == w[q];
                    assert(term_values(v@)[k] == w[q]);
                }
            }
            if dens_increasing(term_values(v@)) && p < out@.len() {
                assert(term_values(out@)[p as int] == term_values(v@)[p as int]);
                assert(term_values(v@)[p as int].1 < term_values(v@)[i as int].1);
            }
        }
        let ghost before = term_values(out@);
        out.insert(p, t);
        proof {
            let s = term_values(v@).subrange(0, i + 1);
            assert(term_values(out@) =~= before.insert(p as int, t.value()));
            lemma_sum_insert(before, p as int, t.value());
            assert(s.drop_last() =~= term_values(v@).subrange(0, i as int));
            assert(s.last() == t.value());
            assert forall|a: int, b: int| 0 <= a < b < term_values(out@).len() implies (#[trigger] term_values(out@)[a]).1
                <= (#[trigger] term_values(out@)[b]).1 by {
                let w = term_values(out@);
                if b < p {
                } else if b == p {
                } else if a < p {
                } else if a == p {
                    assert(w[b] == before[b - 1]);
                    assert(p < before.len());
                    assert(!(before[p as int].1 <= t.den@));
                    if b - 1 > p {
                        assert(before[p as int].1 <= before[b - 1].1);
                    }
                } else {
                    assert(w[a] == before[a - 1]);
                    assert(w[b] == before[b - 1]);
                }
            }
            if pos_dens(term_values(v@)) {
                assert forall|q: int| 0 <= q < term_values(out@).len() implies (#[trigger] term_values(out@)[q]).1 > 0 by {
                    if q < p {
                        assert(term_values(out@)[q] == before[q]);
                    } else if q > p {
                        assert(term_values(out@)[q] == before[q - 1]);
                    } else {
                        assert(term_values(v@)[i as int].1 > 0);
                    }
                }
            }
            if v@.len() <= 1 || dens_increasing(term_values(v@)) {
                assert(term_values(out@) =~= term_values(v@).subrange(0, i + 1));
            }
            broadcast use vstd::seq_lib::group_to_multiset_ensures;
            let pre = before.subrange(0, p as int);
            let post = before.subrange(p as int, before.len() as int);
            assert(before =~= pre + post);
            assert(term_values(out@) =~= pre + (seq![t.value()] + post));
            vstd::seq_lib::lemma_multiset_commutative(pre, post);
            vstd::seq_lib::lemma_multiset_commutative(pre, seq![t.value()] + post);
            vstd::seq_lib::lemma_multiset_commutative(seq![t.value()], post);
            assert(s =~= term_values(v@).subrange(0, i as int).push(t.value()));
            assert(s.to_multiset() =~= term_values(v@).subrange(0, i as int).to_multiset().insert(t.value()));
            assert(seq![t.value()] =~= Seq::<(int, int)>::empty().push(t.value()));
            assert(seq![t.value()].to_multiset() =~= vstd::multiset::Multiset::empty().insert(t.value()));
            assert(term_values(out@).to_multiset() =~= s.to_multiset());
            if dens_distinct(term_values(v@)) {
                let w = term_values(out@);
                assert forall|x: int, y: int| 0 <= x < y < w.len() implies (#[trigger] w[x]).1 < (#[trigger] w[y]).1 by {
                    assert(w[x].1 <= w[y].1);
                    if x < p && y > p {
                        assert(w[x] == before[x]);
                        assert(w[y] == before[y - 1]);
                        assert(before[x].1 <= t.den@);
                        assert(before[x].1 != t.den@);
                    } else if x == p {
                        assert(w[y] == before[y - 1]);
                        assert(before[y - 1].1 != t.den@);
                    } else if y == p {
                        assert(w[x] == before[x]);
                        assert(before[x].1 != t.den@);
                    } else if y < p {
                        assert(w[x] == before[x]);
                        assert(w[y] == before[y]);
                    } else {
                        assert(w[x] == before[x - 1]);
                        assert(w[y] == before[y - 1]);
                    }
                }
            }
            if all_units(term_values(v@)) {
                assert forall|q: int| 0 <= q < term_values(out@).len() implies (#[trigger] term_values(out@)[q]).0 == 1
                    && term_values(out@)[q].1 >= 2 by {
                    if q < p {
                        assert(term_values(out@)[q] == before[q]);
                    } else if q > p {
                        assert(term_values(out@)[q] == before[q - 1]);
                    }
                }
            }
        }
        i = i + 1;
    }
    proof {
        assert(term_values(v@).subrange(0, v@.len() as int) =~= term_values(v@));
    }
    out
}

pub proof fn lemma_units_sub(s: Seq<(int, int)>, lo: int, hi: int)
    requires
        all_units(s),
        0 <= lo <= hi <= s.len(),
    ensures
        all_units(s.subrange(lo, hi)),
        crate::fraction::nonneg(s.subrange(lo, hi)),
{
    assert forall|i: int| 0 <= i < s.subrange(lo, hi).len() implies (#[trigger] s.subrange(lo, hi)[i]).0 == 1
        && s.subrange(lo, hi)[i].1 >= 2 by {
        assert(s.subrange(lo, hi)[i] == s[lo + i]);
    }
}

proof fn lemma_units_concat(a: Seq<(int, int)>, b: Seq<(int, int)>)
    requires
        all_units(a),
        all_units(b),
    ensures
        all_units(a + b),
{
    assert forall|i: int| 0 <= i < (a + b).len() implies (#[trigger] (a + b)[i]).0 == 1 && (a + b)[i].1 >= 2 by {
        if i < a.len() {
            assert((a + b)[i] == a[i]);
        } else {
            assert((a + b)[i] == b[i - a.len()]);
        }
    }
}

/// How many repeated denominators `fix_duplicates` resolves at most.
pub const DEDUP_BUDGET: u64 = 100000;

proof fn lemma_all_pos_values(s: Seq<Term>)
    requires
        all_pos(s),
    ensures
        pos_dens(term_values(s)),
{
    assert forall|i: int| 0 <= i < term_values(s).len() implies (#[trigger] term_values(s)[i]).1 > 0 by {
        assert(s[i].den@ > 0);
    }
}

pub proof fn lemma_pos_subrange(s: Seq<(int, int)>, lo: int, hi: int)
    requires
        pos_dens(s),
        0 <= lo <= hi <= s.len(),
    ensures
        pos_dens(s.subrange(lo, hi)),
{
    assert forall|i: int| 0 <= i < s.subrange(lo, hi).len() implies (#[trigger] s.subrange(lo, hi)[i]).1 > 0 by {
        assert(s.subrange(lo, hi)[i] == s[lo + i]);
    }
}

proof fn lemma_pos_concat(s: Seq<(int, int)>, u: Seq<(int, int)>)
    requires
        pos_dens(s),
        pos_dens(u),
    ensures
        pos_dens(s + u),
{
    assert forall|i: int| 0 <= i < (s + u).len() implies (#[trigger] (s + u)[i]).1 > 0 by {
        if i < s.len() {
            assert((s + u)[i] == s[i]);
        } else {
            assert((s + u)[i] == u[i - s.len()]);
        }
    }
}

/// Repeatedly replaces the first group of terms that share a denominator `n`
/// by the decomposition of their total over `n`, until no two terms share a
/// denominator. Should that not settle within `DEDUP_BUDGET` rounds, the
/// total is expanded greedily instead. The result is sorted by denominator.
pub fn fix_duplicates(eg: &Vec<Term>) -> (r: Vec<Term>)
    requires
        pos_dens(term_values(eg@)),
    ensures
        pos_dens(term_values(r@)),
        dens_sorted(term_values(r@)),
        dens_distinct(term_values(r@)),
        frac_eq(frac_sum(term_values(r@)), frac_sum(term_values(eg@))),
        eg@.len() <= 1 ==> term_values(r@) == term_values(eg@),
        dens_increasing(term_values(r@)),
        dens_increasing(term_values(eg@)) ==> term_values(r@) == term_values(eg@),
        dens_distinct(term_values(eg@)) ==> term_values(r@).to_multiset() == term_values(
            eg@,
        ).to_multiset(),
        all_units(term_values(eg@)) && frac_sum(term_values(eg@)).0 < frac_sum(term_values(eg@)).1
            ==> all_units(term_values(r@)),
{
    let ghost target = frac_sum(term_values(eg@));
    let ghost units = all_units(term_values(eg@)) && target.0 < target.1;
    let ghost incr = dens_increasing(term_values(eg@));
    let ghost dist = dens_distinct(term_values(eg@));
    let mut cur = sort_terms(eg);
    proof {
        lemma_sum_pos(term_values(eg@));
    }
    let mut budget: u64 = DEDUP_BUDGET;
    let mut done = false;
    while budget > 0
        invariant_except_break
            !done,
            eg@.len() <= 1 ==> budget == DEDUP_BUDGET,
            incr ==> budget == DEDUP_BUDGET,
            dist ==> budget == DEDUP_BUDGET,
        invariant
            dist == dens_distinct(term_values(eg@)),
            dist ==> term_values(cur@).to_multiset() == term_values(eg@).to_multiset()
                && dens_increasing(term_values(cur@)),
            units == (all_units(term_values(eg@)) && target.0 < target.1),
            incr == dens_increasing(term_values(eg@)),
            target.1 > 0,
            units ==> all_units(term_values(cur@)),
            incr ==> term_values(cur@) == term_values(eg@),
            pos_dens(term_values(cur@)),
            dens_sorted(term_values(cur@)),
            frac_eq(frac_sum(term_values(cur@)), target),
            target == frac_sum(term_values(eg@)),
            eg@.len() <= 1 ==> term_values(cur@) == term_values(eg@) && cur@.len() == eg@.len(),
        ensures
            done ==> dens_increasing(term_values(cur@)),
            eg@.len() <= 1 ==> done,
            incr ==> done,
            dist ==> done,
        decreases budget,
    {
        let ghost vals = term_values(cur@);
        let mut i: usize = 0;
        while i < cur.len() && i + 1 < cur.len() && !(cur[i].den == cur[i + 1].den)
            invariant
                i <= cur@.len(),
                vals == term_values(cur@),
                forall|k: int| 0 <= k < i ==> (#[trigger] vals[k]).1 != vals[k + 1].1,
            decreases cur@.len() - i,
        {
            proof {
                assert(vals[i as int].1 == cur@[i as int].den@);
                assert(vals[i + 1].1 == cur@[i + 1].den@);
            }
            i = i + 1;
        }
        if i >= cur.len() || i + 1 >= cur.len() {
            proof {
                assert forall|a: int, b: int| 0 <= a < b < vals.len() implies (#[trigger] vals[a]).1
                    < (#[trigger] vals[b]).1 by {
                    assert(vals[a].1 != vals[a + 1].1);
                    assert(vals[a].1 <= vals[a + 1].1);
                    assert(vals[a + 1].1 <= vals[b].1);
                }
            }
            done = true;
            break;
        }
        let n = cur[i].den.clone();
        let mut total = cur[i].num.clone();
        let mut e: usize = i + 1;
        proof {
            assert(vals.subrange(i as int, e as int) =~= seq![vals[i as int]]);
            lemma_sum_single(vals[i as int]);
            assert(n@ > 0);
        }
        while e < cur.len() && cur[e].den == n
            invariant
                vals == term_values(cur@),
                i < e <= cur@.len(),
                n@ > 0,
                frac_eq(frac_sum(vals.subrange(i as int, e as int)), (total@ as int, n@ as int)),
            decreases cur@.len() - e,
        {
            let ghost old_total = total@ as int;
            let ghost x = vals[e as int];
            total = nat_add(&total, &cur[e].num);
            proof {
                let nn = n@ as int;
                let sub = vals.subrange(i as int, e + 1);
                assert(sub.drop_last() =~= vals.subrange(i as int, e as int));
                assert(sub.last() == x);
                assert(x == (cur@[e as int].num@ as int, nn));
                lemma_frac_add_congr(frac_sum(sub.drop_last()), (old_total, nn), x, x);
                assert(frac_eq(frac_add((old_total, nn), x), (total@ as int, nn))) by (nonlinear_arith)
                    requires
                        frac_add((old_total, nn), x) == (old_total * nn + x.0 * nn, nn * nn),
                        total@ == old_total + x.0,
                ;
                lemma_frac_add_pos((old_total, nn), x);
                lemma_frac_eq_trans(frac_sum(sub), frac_add((old_total, nn), x), (total@ as int, nn));
            }
            e = e + 1;
        }
        proof {
            if incr || dist {
                assert(vals[i as int].1 < vals[i + 1].1);
            }
            if units {
                let p = vals.subrange(0, i as int);
                let run = vals.subrange(i as int, e as int);
                let q = vals.subrange(e as int, vals.len() as int);
                assert(vals =~= p + run + q);
                lemma_units_sub(vals, 0, i as int);
                lemma_units_sub(vals, i as int, e as int);
                lemma_units_sub(vals, e as int, vals.len() as int);
                crate::fraction::lemma_sum_part_le(p, run, q);
                crate::fraction::lemma_sum_nonneg(run);
                crate::fraction::lemma_sum_nonneg(vals);
                crate::fraction::lemma_below_one_eq((total@ as int, n@ as int), frac_sum(run), frac_sum(vals), target);
            }
        }
        let dec = as_egyptian_fraction_symbolic(&total, &n);
        let fresh = expand(&dec);
        proof {
            if units {
                assert(crate::terms::all_runs(dec@)) by {
                    assert forall|k: int| 0 <= k < dec@.len() implies (#[trigger] dec@[k]).is_run() by {
                        if !dec@[k].is_run() {
                            assert(k == dec@.len() - 1);
                        }
                    }
                }
            }
        }
        let mut next: Vec<Term> = Vec::new();
        proof {
            assert(term_values(next@) =~= Seq::empty());
        }
        copy_range(&cur, 0, i, &mut next);
        copy_range(&fresh, 0, fresh.len(), &mut next);
        copy_range(&cur, e, cur.len(), &mut next);
        proof {
            let p = vals.subrange(0, i as int);
            let run = vals.subrange(i as int, e as int);
            let q = vals.subrange(e as int, vals.len() as int);
            let nv = term_values(fresh@);
            assert(term_values(fresh@).subrange(0, fresh@.len() as int) =~= nv);
            assert(Seq::<(int, int)>::empty() + p =~= p);
            assert(term_values(next@) == (p + nv) + q);
            assert(vals =~= (p + run) + q);
            lemma_sum_concat(p + nv, q);
            lemma_sum_concat(p, nv);
            lemma_sum_concat(p + run, q);
            lemma_sum_concat(p, run);
            lemma_expansion_sum(dec@);
            lemma_all_pos_values(fresh@);
            lemma_pos_subrange(vals, 0, i as int);
            lemma_pos_subrange(vals, i as int, e as int);
            lemma_pos_subrange(vals, e as int, vals.len() as int);
            lemma_sum_pos(p);
            lemma_sum_pos(run);
            lemma_sum_pos(q);
            lemma_sum_pos(nv);
            crate::terms::lemma_sym_sum_pos(dec@);
            // the fresh terms have the value of the group they replace
            lemma_frac_eq_trans(frac_sum(nv), crate::terms::sym_sum(dec@), (total@ as int, n@ as int));
            lemma_frac_eq_trans(frac_sum(nv), (total@ as int, n@ as int), frac_sum(run));
            lemma_frac_add_congr(frac_sum(p), frac_sum(p), frac_sum(nv), frac_sum(run));
            lemma_frac_add_congr(frac_add(frac_sum(p), frac_sum(nv)), frac_add(frac_sum(p), frac_sum(run)), frac_sum(q), frac_sum(q));
            lemma_frac_add_pos(frac_sum(p), frac_sum(run));
            lemma_frac_add_pos(frac_add(frac_sum(p), frac_sum(run)), frac_sum(q));
            lemma_frac_eq_trans(frac_sum(term_values(next@)), frac_sum(vals), target);
            lemma_pos_concat(p, nv);
            lemma_pos_concat(p + nv, q);
            if units {
                lemma_units_sub(vals, 0, i as int);
                lemma_units_sub(vals, e as int, vals.len() as int);
                lemma_units_concat(p, nv);
                lemma_units_concat(p + nv, q);
            }
        }
        cur = sort_terms(&next);
        budget = budget - 1;
    }
    if done {
        proof {
            lemma_increasing_distinct(term_values(cur@));
        }
        cur
    } else {
        let r = greedy_terms(&cur);
        proof {
            if units {
                lemma_sum_pos(term_values(cur@));
                assert(frac_sum(term_values(cur@)).0 < frac_sum(term_values(cur@)).1) by (nonlinear_arith)
                    requires
                        frac_sum(term_values(cur@)).0 * target.1 == target.0 * frac_sum(term_values(cur@)).1,
                        target.0 < target.1,
                        target.1 > 0,
                        frac_sum(term_values(cur@)).1 > 0,
                ;
            }
            lemma_increasing_distinct(term_values(r@));
            lemma_sum_pos(term_values(cur@));
            lemma_frac_eq_trans(frac_sum(term_values(r@)), frac_sum(term_values(cur@)), target);
        }
        r
    }
}

/// Denominators strictly increase along `s`.
pub open spec fn dens_increasing(s: Seq<(int, int)>) -> bool {
    forall|a: int, b: int| 0 <= a < b < s.len() ==> (#[trigger] s[a]).1 < (#[trigger] s[b]).1
}

pub proof fn lemma_increasing_distinct(s: Seq<(int, int)>)
    requires
        dens_increasing(s),
    ensures
        dens_distinct(s),
        dens_sorted(s),
{
    assert forall|a: int, b: int| 0 <= a < s.len() && 0 <= b < s.len() && a != b implies (#[trigger] s[a]).1
        != (#[trigger] s[b]).1 by {
        if a < b {
            assert(s[a].1 < s[b].1);
        } else {
            assert(s[b].1 < s[a].1);
        }
    }
}

/// The sum of the terms as one fraction in lowest terms.
fn total_of(v: &Vec<Term>) -> (r: (BigNat, BigNat))
    requires
        pos_dens(term_values(v@)),
    ensures
        r.1@ > 0,
        frac_eq((r.0@ as int, r.1@ as int), frac_sum(term_values(v@))),
{
    let ghost vals = term_values(v@);
    let mut p = BigNat::from_u32(0);
    let mut q = BigNat::from_u32(1);
    let mut i: usize = 0;
    proof {
        assert(vals.subrange(0, 0) =~= Seq::<(int, int)>::empty());
    }
    while i < v.len()
        invariant
            vals == term_values(v@),
            pos_dens(vals),
            i <= v@.len(),
            q@ > 0,
            frac_eq((p@ as int, q@ as int), frac_sum(vals.subrange(0, i as int))),
        decreases v@.len() - i,
    {
        let t = &v[i];
        let num = nat_add(&nat_mul(&p, &t.den), &nat_mul(&t.num, &q));
        let den = nat_mul(&q, &t.den);
        proof {
            let x = vals[i as int];
            assert(x == (t.num@ as int, t.den@ as int) && x.1 > 0);
            let sub = vals.subrange(0, i + 1);
            assert(sub.drop_last() =~= vals.subrange(0, i as int));
            lemma_frac_add_congr(frac_sum(sub.drop_last()), (p@ as int, q@ as int), x, x);
            assert(den@ > 0) by (nonlinear_arith)
                requires
                    den@ == q@ * t.den@,
                    q@ > 0,
                    t.den@ > 0,
            ;
            lemma_pos_subrange(vals, 0, i as int);
            lemma_sum_pos(vals.subrange(0, i as int));
            lemma_frac_add_pos(frac_sum(sub.drop_last()), x);
        }
        let (np, nq) = reduce(&num, &den);
        proof {
            let x = vals[i as int];
            let sub = vals.subrange(0, i + 1);
            assert(frac_add((p@ as int, q@ as int), x) == (num@ as int, den@ as int));
            lemma_frac_eq_trans((np@ as int, nq@ as int), (num@ as int, den@ as int), frac_sum(sub));
        }
        p = np;
        q = nq;
        i = i + 1;
    }
    proof {
        assert(vals.subrange(0, vals.len() as int) =~= vals);
    }
    (p, q)
}

/// One step of the greedy expansion of `x / y`: the largest unit fraction
/// `1 / n` not above it, and what is left.
proof fn lemma_greedy_step(x: int, y: int, last: int, n: int)
    requires
        x >= 1,
        last >= 1,
        x * last < y,
        n == (y + x - 1) / x,
    ensures
        n > last,
        0 <= x * n - y < x,
        (x * n - y) * n < y * n,
        frac_eq(frac_add((1, n), (x * n - y, y * n)), (x, y)),
{
    lemma_fundamental_div_mod(y + x - 1, x);
    let r = (y + x - 1) % x;
    assert(x * n >= y && x * n < y + x) by (nonlinear_arith)
        requires
            y + x - 1 == x * n + r,
            0 <= r < x,
    ;
    assert(n > last) by (nonlinear_arith)
        requires
            x * n >= y,
            x * last < y,
            x >= 1,
    ;
    assert(x < y) by (nonlinear_arith)
        requires
            x * last < y,
            last >= 1,
            x >= 1,
    ;
    assert((x * n - y) * n < y * n) by (nonlinear_arith)
        requires
            x * n < y + x,
            x < y,
            n > last,
            last >= 1,
    ;
    assert((1 * (y * n) + (x * n - y) * n) * y == x * (n * (y * n))) by (nonlinear_arith);
}

/// The greedy expansion of the terms' total: its whole part, then unit
/// fractions `1 / n` with `n` as small as possible at each step.
fn greedy_terms(v: &Vec<Term>) -> (r: Vec<Term>)
    requires
        pos_dens(term_values(v@)),
    ensures
        pos_dens(term_values(r@)),
        dens_increasing(term_values(r@)),
        frac_eq(frac_sum(term_values(r@)), frac_sum(term_values(v@))),
        frac_sum(term_values(v@)).0 < frac_sum(term_values(v@)).1 ==> all_units(term_values(r@)),
{
    let one = BigNat::from_u32(1);
    let (p, q) = total_of(v);
    let ghost below = frac_sum(term_values(v@)).0 < frac_sum(term_values(v@)).1;
    proof {
        lemma_sum_pos(term_values(v@));
        if below {
            assert(p@ < q@) by (nonlinear_arith)
                requires
                    p@ * frac_sum(term_values(v@)).1 == frac_sum(term_values(v@)).0 * q@,
                    frac_sum(term_values(v@)).0 < frac_sum(term_values(v@)).1,
                    q@ > 0,
                    frac_sum(term_values(v@)).1 > 0,
            ;
        }
    }
    let (w, mut x) = div_rem(&p, &q);
    let mut y = q.clone();
    let mut out: Vec<Term> = Vec::new();
    let mut last = BigNat::from_u32(1);
    proof {
        lemma_fundamental_div_mod(p@ as int, q@ as int);
        assert(term_values(out@) =~= Seq::empty());
        if below {
            vstd::arithmetic::div_mod::lemma_fundamental_div_mod_converse(p@ as int, q@ as int, 0, p@ as int);
            assert(w@ == 0);
        }
    }
    if !w.is_zero() {
        let ghost before = out@;
        out.push(Term { num: w, den: one.clone() });
        proof {
            assert(out@ == before.push(out@.last()));
            lemma_term_values_push(before, out@.last());
            lemma_sum_single((w@ as int, 1int));
            assert(term_values(out@) =~= seq![(w@ as int, 1int)]);
        }
    }
    proof {
        let o = frac_sum(term_values(out@));
        let (pi, qi, xi) = (p@ as int, q@ as int, x@ as int);
        assert(o == (0int, 1int) || o == (w@ as int, 1int));
        if o == (0int, 1int) {
            assert(w@ == 0);
        }
        assert((o.0 * qi + xi * o.1) * qi == pi * (o.1 * qi)) by (nonlinear_arith)
            requires
                pi == qi * w@ + xi,
                o.0 == w@,
                o.1 == 1,
        ;
        assert(x@ * 1 < y@);
    }
    while !x.is_zero()
        invariant
            y@ > 0,
            last@ >= 1,
            x@ * last@ < y@,
            one@ == 1,
            pos_dens(term_values(out@)),
            dens_increasing(term_values(out@)),
            forall|k: int| 0 <= k < out@.len() ==> (#[trigger] out@[k]).den@ <= last@,
            frac_eq(frac_add(frac_sum(term_values(out@)), (x@ as int, y@ as int)), (p@ as int, q@ as int)),
            q@ > 0,
            below == (frac_sum(term_values(v@)).0 < frac_sum(term_values(v@)).1),
            below ==> all_units(term_values(out@)),
        decreases x@,
    {
        let x1 = nat_sub(&nat_add(&y, &x), &one);
        let (n, _) = div_rem(&x1, &x);
        proof {
            lemma_greedy_step(x@ as int, y@ as int, last@ as int, n@ as int);
        }
        let xn = nat_mul(&x, &n);
        let rx = nat_sub(&xn, &y);
        let ry = nat_mul(&y, &n);
        proof {
            assert(ry@ > 0) by (nonlinear_arith)
                requires
                    ry@ == y@ * n@,
                    y@ > 0,
                    n@ > 0,
            ;
        }
        let (nx, ny) = reduce(&rx, &ry);
        let ghost before = out@;
        let ghost unit = (1int, n@ as int);
        out.push(Term { num: one.clone(), den: n.clone() });
        proof {
            assert(out@ == before.push(out@.last()));
            lemma_term_values_push(before, out@.last());
            assert(out@.last().value() == unit);
            let o = frac_sum(term_values(before));
            lemma_sum_pos(term_values(before));
            assert(term_values(out@).drop_last() =~= term_values(before));
            assert(frac_sum(term_values(out@)) == frac_add(o, unit));
            crate::fraction::lemma_frac_add_assoc(o, unit, (nx@ as int, ny@ as int));
            lemma_frac_add_congr(unit, unit, (nx@ as int, ny@ as int), (rx@ as int, ry@ as int));
            lemma_frac_add_pos(unit, (rx@ as int, ry@ as int));
            lemma_frac_eq_trans(frac_add(unit, (nx@ as int, ny@ as int)), frac_add(unit, (rx@ as int, ry@ as int)), (x@ as int, y@ as int));
            lemma_frac_add_pos(unit, (nx@ as int, ny@ as int));
            crate::fraction::lemma_frac_replace(o, (x@ as int, y@ as int), frac_add(unit, (nx@ as int, ny@ as int)), (p@ as int, q@ as int));
            assert(nx@ * n@ < ny@) by (nonlinear_arith)
                requires
                    nx@ * ry@ == rx@ * ny@,
                    rx@ * n@ < ry@,
                    ry@ > 0,
                    ny@ > 0,
            ;
            assert(nx@ < x@);
            lemma_pos_push(term_values(before), unit);
            if below {
                assert forall|k: int| 0 <= k < term_values(out@).len() implies (#[trigger] term_values(out@)[k]).0
                    == 1 && term_values(out@)[k].1 >= 2 by {
                    if k < before.len() {
                        assert(term_values(out@)[k] == term_values(before)[k]);
                    }
                }
            }
            let s = term_values(out@);
            assert forall|a: int, b: int| 0 <= a < b < s.len() implies (#[trigger] s[a]).1 < (#[trigger] s[b]).1 by {
                if b == s.len() - 1 {
                    assert(s[a] == term_values(before)[a]);
                    assert(before[a].den@ <= last@);
                } else {
                    assert(s[a] == term_values(before)[a]);
                    assert(s[b] == term_values(before)[b]);
                }
            }
            assert forall|k: int| 0 <= k < out@.len() implies (#[trigger] out@[k]).den@ <= n@ by {
                if k < before.len() {
                    assert(out@[k] == before[k]);
                }
            }
        }
        x = nx;
        y = ny;
        last = n;
    }
    proof {
        let o = frac_sum(term_values(out@));
        lemma_sum_pos(term_values(out@));
        let yi = y@ as int;
        assert(o.0 * (q@ as int) == (p@ as int) * o.1) by (nonlinear_arith)
            requires
                (o.0 * yi + 0 * o.1) * (q@ as int) == (p@ as int) * (o.1 * yi),
                yi > 0,
        ;
        lemma_sum_pos(term_values(v@));
        lemma_frac_eq_trans(o, (p@ as int, q@ as int), frac_sum(term_values(v@)));
    }
    out
}

} // verus!
