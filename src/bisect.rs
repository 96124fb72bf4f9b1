//! Bounding the length of symbolic runs by splitting their values.

use crate::bignat::{div_rem, le, nat_add, nat_mul, nat_sub, BigNat};
use crate::decompose::{as_egyptian_fraction_symbolic, reduce};
use crate::fraction::{
    frac_add, frac_eq, lemma_frac_add_assoc, lemma_frac_add_comm, lemma_frac_add_congr,
    lemma_frac_add_pos, lemma_frac_eq_trans, lemma_regroup, lemma_replace_inner,
};
use crate::terms::{
    all_built, all_runs, lemma_preds_concat, lemma_preds_push, lemma_run_below_one, all_wf, lemma_sym_sum_concat, lemma_sym_sum_pos, lemma_sym_sum_push, lemma_value_pos, sym_sum,
    SymbolicTerm,
};
use vstd::prelude::*;

verus! {

/// How many runs the splitting loop re-decomposes before it falls back to
/// cutting the remaining long runs into consecutive pieces.
pub const SPLIT_BUDGET: u64 = 100000;

/// The closed-form value of a run, in lowest terms.
pub fn calculate_raw_sum(t: &SymbolicTerm) -> (r: (BigNat, BigNat))
    requires
        t.wf(),
        !t.is_whole(),
    ensures
        r.0@ >= 1,
        r.1@ > 0,
        crate::bignat::coprime(r.0@, r.1@),
        frac_eq((r.0@ as int, r.1@ as int), t.value()),
        t.is_run() ==> r.0@ < r.1@,
{
    let one = BigNat::from_u32(1);
    let num = nat_add(&nat_sub(&t.end, &t.start), &one);
    let vi = nat_mul(&t.step, &t.start);
    let lo = nat_sub(&nat_add(&t.base, &vi), &t.step);
    let vj = nat_mul(&t.step, &t.end);
    let hi = nat_add(&t.base, &vj);
    let den = nat_mul(&lo, &hi);
    proof {
        lemma_value_pos(*t);
    }
    let r = reduce(&num, &den);
    proof {
        assert(r.0@ >= 1) by (nonlinear_arith)
            requires
                r.0@ * den@ == num@ * r.1@,
                num@ >= 1,
                r.1@ > 0,
        ;
        if t.is_run() {
            lemma_run_below_one(*t);
            assert(r.0@ < r.1@) by (nonlinear_arith)
                requires
                    r.0@ * den@ == num@ * r.1@,
                    num@ < den@,
                    r.1@ > 0,
                    den@ > 0,
            ;
        }
    }
    r
}

/// Two parts of `a` that differ by at most two; both are positive once `a`
/// is at least two.
fn split_numerator(a: &BigNat) -> (r: (BigNat, BigNat))
    requires
        a@ >= 1,
    ensures
        r.0@ + r.1@ == a@,
        a@ >= 2 ==> r.0@ >= 1 && r.1@ >= 1,
{
    let one = BigNat::from_u32(1);
    let two = BigNat::from_u32(2);
    let (h, odd) = div_rem(a, &two);
    if odd.is_zero() {
        if le(&h, &one) {
            (one.clone(), one)
        } else {
            (nat_sub(&h, &one), nat_add(&h, &one))
        }
    } else {
        (h.clone(), nat_add(&h, &one))
    }
}

proof fn lemma_cut_value(l: int, n: int, a: int, b: int, c: int, v: int)
    requires
        b == a + l * v,
        c == a + n * v,
        a > 0,
        v >= 0,
        l >= 0,
        n >= l,
    ensures
        frac_eq(frac_add((l, a * b), (n - l, b * c)), (n, a * c)),
{
    assert(l * c + (n - l) * a == n * b) by (nonlinear_arith)
        requires
            b == a + l * v,
            c == a + n * v,
    ;
    let x = l * (b * c) + (n - l) * (a * b);
    assert(x == b * (l * c + (n - l) * a)) by (nonlinear_arith)
        requires
            x == l * (b * c) + (n - l) * (a * b),
    ;
    assert((b * (n * b)) * (a * c) == n * ((a * b) * (b * c))) by (nonlinear_arith);
    assert(x * (a * c) == n * ((a * b) * (b * c)));
}

/// Cuts a run longer than `lim` into its first `lim` fractions and the rest.
fn cut_run(t: &SymbolicTerm, lim: &BigNat) -> (r: (SymbolicTerm, SymbolicTerm))
    requires
        t.wf(),
        !t.is_whole(),
        lim@ >= 2,
        t.run_len() > lim@,
    ensures
        r.0.wf(),
        r.1.wf(),
        !r.1.is_whole(),
        r.0.run_len() == lim@,
        t.is_run() ==> r.0.is_run() && r.1.is_run(),
        r.1.run_len() == t.run_len() - lim@,
        frac_eq(frac_add(r.0.value(), r.1.value()), t.value()),
{
    let one = BigNat::from_u32(1);
    let mid = nat_add(&t.start, lim);
    let head_end = nat_sub(&mid, &one);
    let head = SymbolicTerm {
        base: t.base.clone(),
        step: t.step.clone(),
        start: t.start.clone(),
        end: head_end,
    };
    let tail = SymbolicTerm { base: t.base.clone(), step: t.step.clone(), start: mid, end: t.end.clone() };
    proof {
        let (b, v, i, j, l) = (t.base@ as int, t.step@ as int, t.start@ as int, t.end@ as int, lim@ as int);
        let n = j - i + 1;
        let a = b - v + v * i;
        let bb = b + v * (i + l - 1);
        let cc = b + v * j;
        assert(bb == a + l * v && cc == a + n * v && b - v + v * (i + l) == bb) by (nonlinear_arith)
            requires
                a == b - v + v * i,
                bb == b + v * (i + l - 1),
                cc == b + v * j,
                n == j - i + 1,
        ;
        assert(b + v * (i + l) > v) by (nonlinear_arith)
            requires
                b + v * i > v,
                v >= 0,
                l >= 0,
        ;
        assert(head.value() == (l, a * bb));
        assert(tail.value() == (n - l, bb * cc));
        lemma_cut_value(l, n, a, bb, cc, v);
    }
    (head, tail)
}

/// Replaces every run longer than `limit` by runs of at most `limit`
/// fractions with the same total: a long run's value is split into two
/// nearly equal parts, each decomposed again, until no run is too long.
#[verifier::rlimit(100)]
pub fn halve_symbolic_sums(a: &Vec<SymbolicTerm>, limit: usize) -> (r: Vec<SymbolicTerm>)
    requires
        all_wf(a@),
        limit >= 2,
    ensures
        all_wf(r@),
        forall|k: int| 0 <= k < r@.len() ==> (#[trigger] r@[k]).run_len() <= limit,
        frac_eq(sym_sum(r@), sym_sum(a@)),
        a@.len() == 1 && a@[0].run_len() <= limit ==> r@.len() == 1 && r@[0].same_as(a@[0]),
        all_built(a@) ==> all_built(r@),
        all_runs(a@) ==> all_runs(r@),
        forall|k: int|
            0 <= k < a@.len() && (#[trigger] a@[k]).run_len() <= limit ==> exists|m: int|
                0 <= m < r@.len() && (#[trigger] r@[m]).same_as(a@[k]),
        (forall|k: int| 0 <= k < a@.len() ==> (#[trigger] a@[k]).run_len() <= limit) ==> r@.len()
            == a@.len() && forall|m: int|
            0 <= m < r@.len() ==> (#[trigger] r@[m]).same_as(a@[a@.len() - 1 - m]),
{
    let one = BigNat::from_u32(1);
    let lim = BigNat::from_u64(limit as u64);
    let mut stack: Vec<SymbolicTerm> = Vec::new();
    let mut idx: usize = 0;
    while idx < a.len()
        invariant
            idx <= a@.len(),
            stack@.len() == idx,
            forall|k: int| 0 <= k < idx ==> (#[trigger] stack@[k]).same_as(a@[k]),
        decreases a@.len() - idx,
    {
        stack.push(a[idx].clone());
        idx = idx + 1;
    }
    let ghost single = a@.len() == 1 && a@[0].run_len() <= limit;
    let ghost short = forall|k: int| 0 <= k < a@.len() ==> (#[trigger] a@[k]).run_len() <= limit;
    proof {
        assert(all_built(a@) ==> all_built(stack@)) by {
            if all_built(a@) {
                assert forall|k: int| 0 <= k < stack@.len() implies (#[trigger] stack@[k]).is_built() by {
                    assert(a@[k].is_built());
                }
            }
        }
        assert(all_runs(a@) ==> all_runs(stack@)) by {
            if all_runs(a@) {
                assert forall|k: int| 0 <= k < stack@.len() implies (#[trigger] stack@[k]).is_run() by {
                    assert(a@[k].is_run());
                }
            }
        }
        assert(crate::terms::sym_values(stack@) =~= crate::terms::sym_values(a@));
        assert(all_wf(stack@)) by {
            assert forall|k: int| 0 <= k < stack@.len() implies (#[trigger] stack@[k]).wf() by {
                assert(a@[k].wf());
            }
        }
        lemma_sym_sum_pos(stack@);
        let s = sym_sum(stack@);
        assert(frac_add((0, 1), s) == s) by (nonlinear_arith);
    }
    let mut ret: Vec<SymbolicTerm> = Vec::new();
    proof {
        assert(crate::terms::sym_values(ret@) =~= Seq::empty());
    }
    let mut budget: u64 = SPLIT_BUDGET;
    let ghost mut n_orig: int = a@.len() as int;
    while stack.len() > 0
        invariant
            0 <= n_orig <= stack@.len(),
            n_orig <= a@.len(),
            forall|k: int| 0 <= k < n_orig ==> (#[trigger] stack@[k]).same_as(a@[k]),
            forall|k: int|
                n_orig <= k < a@.len() && (#[trigger] a@[k]).run_len() <= limit ==> exists|m: int|
                    0 <= m < ret@.len() && (#[trigger] ret@[m]).same_as(a@[k]),
            all_wf(stack@),
            all_wf(ret@),
            forall|k: int| 0 <= k < ret@.len() ==> (#[trigger] ret@[k]).run_len() <= limit,
            frac_eq(frac_add(sym_sum(ret@), sym_sum(stack@)), sym_sum(a@)),
            lim@ == limit,
            limit >= 2,
            one@ == 1,
            single == (a@.len() == 1 && a@[0].run_len() <= limit),
            short == (forall|k: int| 0 <= k < a@.len() ==> (#[trigger] a@[k]).run_len() <= limit),
            all_built(a@) ==> all_built(stack@) && all_built(ret@),
            all_runs(a@) ==> all_runs(stack@) && all_runs(ret@),
            short ==> stack@.len() + ret@.len() == a@.len() && (forall|k: int|
                0 <= k < stack@.len() ==> (#[trigger] stack@[k]).same_as(a@[k])) && (forall|m: int|
                0 <= m < ret@.len() ==> (#[trigger] ret@[m]).same_as(a@[a@.len() - 1 - m])),
            single ==> (stack@.len() == 1 && ret@.len() == 0 && stack@[0].same_as(a@[0])) || (
            stack@.len() == 0 && ret@.len() == 1 && ret@[0].same_as(a@[0])),
        decreases budget, stack@.len(),
    {
        let ghost old_ret = ret@;
        let ghost old_stack = stack@;
        let t = stack.pop().unwrap();
        let ghost rest = stack@;
        proof {
            assert(old_stack == rest.push(t));
            lemma_sym_sum_push(rest, t);
            assert(t.wf() && all_wf(rest)) by {
                assert(old_stack[old_stack.len() - 1] == t);
                assert forall|k: int| 0 <= k < rest.len() implies (#[trigger] rest[k]).wf() by {
                    assert(old_stack[k] == rest[k]);
                }
            }
            lemma_sym_sum_pos(rest);
            lemma_sym_sum_pos(old_ret);
            lemma_value_pos(t);
            lemma_preds_push(rest, t);
            assert forall|k: int| 0 <= k < n_orig && k < rest.len() implies (#[trigger] rest[k]).same_as(a@[k]) by {
                assert(rest[k] == old_stack[k]);
            }
            if short {
                assert(old_stack[old_stack.len() - 1] == t);
                assert(t.same_as(a@[old_stack.len() - 1]));
                assert(t.run_len() <= limit);
            }
        }
        let count = nat_add(&nat_sub(&t.end, &t.start), &one);
        proof {
            if single {
                assert(old_stack.len() == 1 && old_ret.len() == 0);
                assert(old_stack[0] == t);
                assert(count@ == t.run_len());
            }
        }
        let ghost top_orig = old_stack.len() == n_orig;
        proof {
            if top_orig {
                assert(t.same_as(a@[n_orig - 1]));
                n_orig = n_orig - 1;
            }
        }
        if le(&count, &lim) {
            ret.push(t);
            proof {
                lemma_keep_witnesses(old_ret, ret@, a@, limit as int, n_orig + if top_orig { 1int } else { 0 });
                if top_orig {
                    assert(ret@[ret@.len() - 1].same_as(a@[n_orig]));
                    assert forall|k: int| n_orig <= k < a@.len() && (#[trigger] a@[k]).run_len() <= limit implies exists|m: int|
                        0 <= m < ret@.len() && (#[trigger] ret@[m]).same_as(a@[k]) by {
                        if k == n_orig {
                            assert(ret@[ret@.len() - 1].same_as(a@[k]));
                        }
                    }
                }
                lemma_sym_sum_push(old_ret, t);
                lemma_regroup(sym_sum(old_ret), t.value(), sym_sum(rest), (0, 1));
                lemma_frac_add_assoc(sym_sum(old_ret), t.value(), sym_sum(rest));
                lemma_frac_add_comm(t.value(), sym_sum(rest));
                lemma_all_wf_push(old_ret, t);
                lemma_preds_push(old_ret, t);
                if short {
                    assert forall|m: int| 0 <= m < ret@.len() implies (#[trigger] ret@[m]).same_as(a@[a@.len() - 1 - m]) by {
                        if m < old_ret.len() {
                            assert(ret@[m] == old_ret[m]);
                        }
                    }
                    assert forall|k: int| 0 <= k < stack@.len() implies (#[trigger] stack@[k]).same_as(a@[k]) by {
                        assert(stack@[k] == old_stack[k]);
                    }
                }
            }
        } else if budget > 0 {
            budget = budget - 1;
            let (num, den) = calculate_raw_sum(&t);
            let (a1, a2) = split_numerator(&num);
            let mut d1 = as_egyptian_fraction_symbolic(&a1, &den);
            let mut d2 = as_egyptian_fraction_symbolic(&a2, &den);
            let ghost (g1, g2) = (d1@, d2@);
            stack.append(&mut d1);
            stack.append(&mut d2);
            proof {
                assert(stack@ == (rest + g1) + g2);
                lemma_sym_sum_concat(rest + g1, g2);
                lemma_sym_sum_concat(rest, g1);
                lemma_frac_add_assoc(sym_sum(rest), sym_sum(g1), sym_sum(g2));
                lemma_sym_sum_pos(g1);
                lemma_sym_sum_pos(g2);
                let (s1, s2) = (sym_sum(g1), sym_sum(g2));
                let (h1, h2, dd) = (a1@ as int, a2@ as int, den@ as int);
                // s1 + s2 equals t's value
                lemma_frac_add_congr(s1, (h1, dd), s2, (h2, dd));
                assert(frac_eq(frac_add((h1, dd), (h2, dd)), (num@ as int, dd))) by (nonlinear_arith)
                    requires
                        h1 + h2 == num@,
                        frac_add((h1, dd), (h2, dd)) == (h1 * dd + h2 * dd, dd * dd),
                ;
                lemma_frac_add_pos((h1, dd), (h2, dd));
                lemma_frac_eq_trans(frac_add(s1, s2), frac_add((h1, dd), (h2, dd)), (num@ as int, dd));
                lemma_frac_eq_trans(frac_add(s1, s2), (num@ as int, dd), t.value());
                lemma_frac_add_pos(s1, s2);
                lemma_replace_inner(sym_sum(old_ret), sym_sum(rest), frac_add(s1, s2), t.value(), sym_sum(a@));
                lemma_all_wf_concat(rest, g1);
                lemma_all_wf_concat(rest + g1, g2);
                assert(all_built(g1) && all_built(g2)) by {
                    assert forall|k: int| 0 <= k < g1.len() implies (#[trigger] g1[k]).is_built() by {}
                    assert forall|k: int| 0 <= k < g2.len() implies (#[trigger] g2[k]).is_built() by {}
                }
                if all_runs(a@) {
                    assert(t.is_run());
                    assert(all_runs(g1) && all_runs(g2)) by {
                        assert forall|k: int| 0 <= k < g1.len() implies (#[trigger] g1[k]).is_run() by {
                            if !g1[k].is_run() {
                                assert(k == g1.len() - 1);
                            }
                        }
                        assert forall|k: int| 0 <= k < g2.len() implies (#[trigger] g2[k]).is_run() by {
                            if !g2[k].is_run() {
                                assert(k == g2.len() - 1);
                            }
                        }
                    }
                }
                lemma_preds_concat(rest, g1);
                lemma_preds_concat(rest + g1, g2);
                assert forall|k: int| 0 <= k < n_orig implies (#[trigger] stack@[k]).same_as(a@[k]) by {
                    assert(stack@[k] == rest[k]);
                }
                if top_orig {
                    assert(!(a@[n_orig].run_len() <= limit));
                }
            }
        } else {
            proof {
                if top_orig {
                    assert(a@[n_orig].run_len() == t.run_len());
                }
            }
            let ghost before = ret@;
            push_in_pieces(t, &lim, limit, &mut ret);
            proof {
                let tv = t.value();
                lemma_sym_sum_pos(before);
                lemma_frac_add_assoc(sym_sum(before), tv, sym_sum(rest));
                lemma_frac_add_comm(tv, sym_sum(rest));
                lemma_frac_add_pos(sym_sum(before), tv);
                lemma_frac_add_congr(sym_sum(ret@), frac_add(sym_sum(before), tv), sym_sum(rest), sym_sum(rest));
                lemma_frac_add_pos(frac_add(sym_sum(before), tv), sym_sum(rest));
                lemma_frac_eq_trans(frac_add(sym_sum(ret@), sym_sum(rest)), frac_add(frac_add(sym_sum(before), tv), sym_sum(rest)), sym_sum(a@));
                assert forall|k: int| 0 <= k < ret@.len() implies (#[trigger] ret@[k]).wf() && ret@[k].run_len() <= limit by {
                    if k < before.len() {
                        assert(ret@[k] == before[k]);
                    }
                }
                if all_built(a@) {
                    assert forall|k: int| 0 <= k < ret@.len() implies (#[trigger] ret@[k]).is_built() by {
                        if k < before.len() {
                            assert(ret@[k] == before[k]);
                        }
                    }
                }
                if all_runs(a@) {
                    assert forall|k: int| 0 <= k < ret@.len() implies (#[trigger] ret@[k]).is_run() by {
                        if k < before.len() {
                            assert(ret@[k] == before[k]);
                        }
                    }
                }
                lemma_keep_witnesses(before, ret@, a@, limit as int, n_orig);
            }
        }
    }
    proof {
        assert(crate::terms::sym_values(stack@) =~= Seq::empty());
        let s = sym_sum(ret@);
        assert(frac_add(s, (0, 1)) == s) by (nonlinear_arith);
    }
    ret
}

/// Appends `t` to `ret` cut into consecutive runs of at most `limit`
/// fractions.
fn push_in_pieces(t: SymbolicTerm, lim: &BigNat, limit: usize, ret: &mut Vec<SymbolicTerm>)
    requires
        t.wf(),
        !t.is_whole(),
        lim@ == limit,
        limit >= 2,
        all_wf(old(ret)@),
    ensures
        final(ret)@.len() >= old(ret)@.len(),
        forall|m: int| 0 <= m < old(ret)@.len() ==> final(ret)@[m] == old(ret)@[m],
        forall|m: int|
            old(ret)@.len() <= m < final(ret)@.len() ==> (#[trigger] final(ret)@[m]).wf()
                && final(ret)@[m].run_len() <= limit && (t.is_run() ==> final(ret)@[m].is_run()),
        frac_eq(sym_sum(final(ret)@), frac_add(sym_sum(old(ret)@), t.value())),
{
    let ghost start = ret@;
    let ghost target = frac_add(sym_sum(old(ret)@), t.value());
    let one = BigNat::from_u32(1);
    let mut cur_count = nat_add(&nat_sub(&t.end, &t.start), &one);
    let mut cur = t;
    proof {
        lemma_sym_sum_pos(start);
        lemma_value_pos(t);
        lemma_frac_add_pos(sym_sum(start), t.value());
    }
    while !le(&cur_count, lim)
        invariant
            cur.wf(),
            !cur.is_whole(),
            t.is_run() ==> cur.is_run(),
            cur_count@ == cur.run_len(),
            lim@ == limit,
            limit >= 2,
            all_wf(ret@),
            target.1 > 0,
            ret@.len() >= start.len(),
            forall|m: int| 0 <= m < start.len() ==> ret@[m] == start[m],
            forall|m: int|
                start.len() <= m < ret@.len() ==> (#[trigger] ret@[m]).wf() && ret@[m].run_len()
                    <= limit && (t.is_run() ==> ret@[m].is_run()),
            frac_eq(frac_add(sym_sum(ret@), cur.value()), target),
        decreases cur.run_len(),
    {
        let (head, tail) = cut_run(&cur, lim);
        let ghost before = ret@;
        ret.push(head);
        proof {
            lemma_sym_sum_push(before, head);
            lemma_sym_sum_pos(before);
            lemma_value_pos(head);
            lemma_value_pos(tail);
            lemma_value_pos(cur);
            lemma_frac_add_assoc(sym_sum(before), head.value(), tail.value());
            lemma_frac_add_pos(head.value(), tail.value());
            crate::fraction::lemma_frac_replace(sym_sum(before), cur.value(), frac_add(head.value(), tail.value()), target);
            lemma_all_wf_push(before, head);
            assert forall|m: int| start.len() <= m < ret@.len() implies (#[trigger] ret@[m]).wf() && ret@[m].run_len()
                <= limit && (t.is_run() ==> ret@[m].is_run()) by {
                if m < before.len() {
                    assert(ret@[m] == before[m]);
                }
            }
        }
        cur_count = nat_sub(&cur_count, lim);
        cur = tail;
    }
    let ghost before = ret@;
    ret.push(cur);
    proof {
        lemma_sym_sum_push(before, cur);
        lemma_all_wf_push(before, cur);
        assert forall|m: int| start.len() <= m < ret@.len() implies (#[trigger] ret@[m]).wf() && ret@[m].run_len()
            <= limit && (t.is_run() ==> ret@[m].is_run()) by {
            if m < before.len() {
                assert(ret@[m] == before[m]);
            }
        }
    }
}

/// Short terms of `a` from index `lo` on that have a copy in `old` still have
/// one in `new`, which extends `old`.
proof fn lemma_keep_witnesses(old: Seq<SymbolicTerm>, new: Seq<SymbolicTerm>, a: Seq<SymbolicTerm>, limit: int, lo: int)
    requires
        new.len() >= old.len(),
        forall|m: int| 0 <= m < old.len() ==> new[m] == old[m],
        forall|k: int|
            lo <= k < a.len() && (#[trigger] a[k]).run_len() <= limit ==> exists|m: int|
                0 <= m < old.len() && (#[trigger] old[m]).same_as(a[k]),
    ensures
        forall|k: int|
            lo <= k < a.len() && (#[trigger] a[k]).run_len() <= limit ==> exists|m: int|
                0 <= m < new.len() && (#[trigger] new[m]).same_as(a[k]),
{
    assert forall|k: int| lo <= k < a.len() && (#[trigger] a[k]).run_len() <= limit implies exists|m: int|
        0 <= m < new.len() && (#[trigger] new[m]).same_as(a[k]) by {
        let m = choose|m: int| 0 <= m < old.len() && (#[trigger] old[m]).same_as(a[k]);
        assert(new[m] == old[m]);
    }
}

proof fn lemma_all_wf_push(s: Seq<SymbolicTerm>, t: SymbolicTerm)
    requires
        all_wf(s),
        t.wf(),
    ensures
        all_wf(s.push(t)),
{
    assert forall|k: int| 0 <= k < s.push(t).len() implies (#[trigger] s.push(t)[k]).wf() by {
        if k < s.len() {
            assert(s.push(t)[k] == s[k]);
        }
    }
}

proof fn lemma_all_wf_concat(s: Seq<SymbolicTerm>, u: Seq<SymbolicTerm>)
    requires
        all_wf(s),
        all_wf(u),
    ensures
        all_wf(s + u),
{
    assert forall|k: int| 0 <= k < (s + u).len() implies (#[trigger] (s + u)[k]).wf() by {
        if k < s.len() {
            assert((s + u)[k] == s[k]);
        } else {
            assert((s + u)[k] == u[k - s.len()]);
        }
    }
}

} // verus!
