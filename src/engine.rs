//! The whole decomposition: recurrence, bisection, expansion, repair of
//! repeated denominators and the optional merge pass.

use crate::bignat::BigNat;
use crate::bisect::halve_symbolic_sums;
use crate::decompose::as_egyptian_fraction_symbolic;
use crate::expand::expand;
use crate::bignat::div_rem;
use crate::fraction::{
    frac_add, frac_eq, frac_sum, lemma_frac_add_comm, lemma_frac_eq_trans, lemma_sum_concat,
    lemma_sum_pos, lemma_sum_single, pos_dens,
};
use crate::merge::merge;
use crate::repair::{dens_distinct, dens_sorted, fix_duplicates, lemma_term_values_push, sort_terms};
use crate::terms::{
    all_built, all_runs, all_units, all_wf, expansion, lemma_expansion_sum, lemma_sym_sum_pos, sym_sum, term_values, unit_run,
    SymbolicTerm, Term,
};
use vstd::arithmetic::div_mod::lemma_fundamental_div_mod;
use vstd::prelude::*;

verus! {

/// How a decomposition is carried out and what it returns.
pub struct Options {
    /// Merge in order of increasing denominator instead of decreasing.
    pub reverse: bool,
    /// Run the merge pass.
    pub merge: bool,
    /// Return the symbolic runs instead of concrete terms.
    pub raw: bool,
    /// Bound the length of the runs also when returning them.
    pub bisect: bool,
    /// The longest run kept whole; values below two count as two.
    pub limit: usize,
}

impl Default for Options {
    fn default() -> (r: Options)
        ensures
            !r.reverse && !r.merge && !r.raw && !r.bisect && r.limit == 8,
    {
        Options { reverse: false, merge: false, raw: false, bisect: false, limit: 8 }
    }
}

/// The run-length bound actually applied for a requested `limit`.
pub open spec fn effective_limit(limit: usize) -> int {
    if limit < 2 {
        2
    } else {
        limit as int
    }
}

/// The result of a decomposition: symbolic runs, or concrete terms sorted by
/// denominator.
pub enum Expansion {
    Symbolic(Vec<SymbolicTerm>),
    Concrete(Vec<Term>),
}

/// `s` backwards.
pub open spec fn reversed(s: Seq<(int, int)>) -> Seq<(int, int)> {
    Seq::new(s.len(), |i: int| s[s.len() - 1 - i])
}

/// Summing in the opposite order gives the same fraction.
pub proof fn lemma_sum_reversed(s: Seq<(int, int)>)
    ensures
        frac_sum(reversed(s)) == frac_sum(s),
    decreases s.len(),
{
    if s.len() > 0 {
        let s1 = s.drop_last();
        assert(reversed(s) =~= seq![s.last()] + reversed(s1));
        lemma_sum_reversed(s1);
        lemma_sum_concat(seq![s.last()], reversed(s1));
        lemma_sum_single(s.last());
        lemma_frac_add_comm(s.last(), frac_sum(s1));
    }
}

/// The terms in the opposite order.
fn reverse_terms(v: &Vec<Term>) -> (r: Vec<Term>)
    ensures
        term_values(r@) == reversed(term_values(v@)),
{
    let mut out: Vec<Term> = Vec::new();
    let mut k: usize = v.len();
    proof {
        assert(term_values(out@) =~= Seq::empty());
    }
    while k > 0
        invariant
            k <= v@.len(),
            term_values(out@) == reversed(term_values(v@)).subrange(0, v@.len() - k),
        decreases k,
    {
        k = k - 1;
        let c = v[k].clone();
        let ghost before = out@;
        out.push(c);
        proof {
            lemma_term_values_push(before, c);
            assert(term_values(out@) =~= reversed(term_values(v@)).subrange(0, v@.len() - k));
        }
    }
    proof {
        assert(reversed(term_values(v@)).subrange(0, v@.len() as int) =~= reversed(term_values(v@)));
    }
    out
}

/// Decomposes `a / b` into a sum of unit fractions with distinct
/// denominators, after the whole number `a / b` (rounded down) when the
/// value is at least one.
///
/// The fractional part is decomposed by the recurrence, its runs are bounded
/// by `opts.limit` and expanded, and repeated denominators are repaired. With
/// `opts.merge`, spans that add up to a unit fraction are merged (from the
/// largest denominator down, or from the smallest up with `opts.reverse`)
/// and the repair runs once more. With `opts.raw` the symbolic runs of the
/// whole value are returned instead, bounded only when `opts.bisect` is set.
///
/// Two safeguards bound the work: once the bisection has re-decomposed
/// `SPLIT_BUDGET` runs, any run still too long is cut into consecutive pieces
/// of `limit` fractions; and should the repair not settle within
/// `DEDUP_BUDGET` rounds, the fractional part is expanded greedily instead.
pub fn as_egyptian_fraction(a: &BigNat, b: &BigNat, opts: &Options) -> (r: Expansion)
    requires
        b@ > 0,
    ensures
        match r {
            Expansion::Symbolic(s) => {
                &&& opts.raw
                &&& all_wf(s@)
                &&& all_built(s@)
                &&& frac_eq(sym_sum(s@), (a@ as int, b@ as int))
                &&& opts.bisect ==> forall|k: int|
                    0 <= k < s@.len() ==> (#[trigger] s@[k]).run_len() <= effective_limit(opts.limit)
                &&& !opts.bisect ==> s@.len() <= b@ && (a@ < b@ ==> s@.len() < b@)
                &&& a@ == 1 && b@ > 1 ==> s@.len() == 1 && s@[0].value() == (1int, b@ as int)
                &&& b@ == 1 && a@ > 0 ==> s@.len() == 1 && s@[0].is_whole() && s@[0].base@ == a@
            },
            Expansion::Concrete(t) => {
                &&& !opts.raw
                &&& pos_dens(term_values(t@))
                &&& dens_sorted(term_values(t@))
                &&& dens_distinct(term_values(t@))
                &&& frac_eq(frac_sum(term_values(t@)), (a@ as int, b@ as int))
                &&& forall|k: int|
                    0 <= k < t@.len() ==> ((#[trigger] t@[k]).num@ == 1 && t@[k].den@ >= 2) || (k == 0
                        && t@[k].den@ == 1 && t@[k].num@ == a@ / b@)
                &&& (a@ >= b@) <==> (t@.len() > 0 && t@[0].den@ == 1)
                &&& a@ == 1 && b@ > 1 ==> term_values(t@) == seq![(1int, b@ as int)]
                &&& b@ == 1 && a@ > 0 ==> term_values(t@) == seq![(a@ as int, 1int)]
            },
        },
{
    let limit: usize = if opts.limit < 2 {
        2
    } else {
        opts.limit
    };
    if opts.raw {
        let res = as_egyptian_fraction_symbolic(a, b);
        proof {
            lemma_sym_sum_pos(res@);
            assert(all_built(res@)) by {
                assert forall|k: int| 0 <= k < res@.len() implies (#[trigger] res@[k]).is_built() by {}
            }
            if a@ == 1 && b@ > 1 {
                lemma_unit_value(res@[0], b@ as int);
            }
        }
        if opts.bisect {
            let halved = halve_symbolic_sums(&res, limit);
            proof {
                lemma_frac_eq_trans(sym_sum(halved@), sym_sum(res@), (a@ as int, b@ as int));
                if a@ == 1 && b@ > 1 {
                    assert(halved@[0].value() == res@[0].value());
                }
            }
            return Expansion::Symbolic(halved);
        }
        return Expansion::Symbolic(res);
    }
    let (w, rem) = div_rem(a, b);
    let ghost (ai, bi, wi, ri) = (a@ as int, b@ as int, w@ as int, rem@ as int);
    let ghost unit_in = a@ == 1 && b@ > 1;
    let ghost whole_in = b@ == 1 && a@ > 0;
    let res = as_egyptian_fraction_symbolic(&rem, b);
    proof {
        lemma_fundamental_div_mod(ai, bi);
        lemma_sym_sum_pos(res@);
        assert(all_runs(res@)) by {
            assert forall|k: int| 0 <= k < res@.len() implies (#[trigger] res@[k]).is_run() by {
                if !res@[k].is_run() {
                    assert(k == res@.len() - 1);
                }
            }
        }
        if unit_in {
            vstd::arithmetic::div_mod::lemma_fundamental_div_mod_converse(ai, bi, 0, 1);
            lemma_unit_value(res@[0], bi);
        }
        if whole_in {
            vstd::arithmetic::div_mod::lemma_fundamental_div_mod_converse(ai, bi, ai, 0);
        }
    }
    let halved = halve_symbolic_sums(&res, limit);
    let terms = expand(&halved);
    proof {
        lemma_expansion_sum(halved@);
        lemma_sym_sum_pos(halved@);
        lemma_frac_eq_trans(sym_sum(halved@), sym_sum(res@), (ri, bi));
        lemma_frac_eq_trans(frac_sum(term_values(terms@)), sym_sum(halved@), (ri, bi));
        assert(pos_dens(term_values(terms@))) by {
            assert forall|i: int| 0 <= i < term_values(terms@).len() implies (#[trigger] term_values(terms@)[i]).1 > 0 by {
                assert(terms@[i].den@ > 0);
            }
        }
        lemma_sum_pos(term_values(terms@));
        lemma_below(frac_sum(term_values(terms@)), (ri, bi));
        if unit_in {
            let t = halved@[0];
            assert(halved@.drop_last() =~= Seq::<SymbolicTerm>::empty());
            assert(expansion(halved@.drop_last()) == Seq::<(int, int)>::empty());
            assert(expansion(halved@) =~= t.run_values());
            let n = bi;
            assert(crate::terms::unit_den(1, n - 1, 1) == n) by (nonlinear_arith)
                requires
                    crate::terms::unit_den(1, n - 1, 1) == (1 - (n - 1) + (n - 1) * 1) * (1 + (n - 1) * 1),
            ;
            assert(unit_run(1, n - 1, 1, 1) =~= seq![(1int, n)]);
            assert(term_values(terms@) =~= expansion(halved@));
        }
        if whole_in {
            assert(expansion(halved@) =~= Seq::<(int, int)>::empty());
        }
    }
    let sorted = sort_terms(&terms);
    let fixed = fix_duplicates(&sorted);
    proof {
        lemma_frac_eq_trans(frac_sum(term_values(fixed@)), frac_sum(term_values(sorted@)), (ri, bi));
    }
    let frac_part = if !opts.merge {
        fixed
    } else {
        let ordered = if opts.reverse {
            copy_terms(&fixed)
        } else {
            reverse_terms(&fixed)
        };
        proof {
            lemma_sum_reversed(term_values(fixed@));
            assert(pos_dens(term_values(ordered@)) && all_units(term_values(ordered@))) by {
                assert forall|i: int| 0 <= i < term_values(ordered@).len() implies (#[trigger] term_values(ordered@)[i]).1 > 0
                    && term_values(ordered@)[i].0 == 1 && term_values(ordered@)[i].1 >= 2 by {
                    if !opts.reverse {
                        assert(term_values(ordered@)[i] == term_values(fixed@)[term_values(fixed@).len() - 1 - i]);
                    }
                }
            }
            lemma_sum_pos(term_values(fixed@));
            lemma_below(frac_sum(term_values(ordered@)), (ri, bi));
            if unit_in {
                assert(reversed(term_values(fixed@)) =~= term_values(fixed@));
                assert(ordered@[0].value() == term_values(ordered@)[0]);
            }
        }
        let merged = merge(&ordered);
        proof {
            lemma_sum_pos(term_values(merged@));
            lemma_frac_eq_trans(frac_sum(term_values(merged@)), frac_sum(term_values(ordered@)), (ri, bi));
            lemma_below(frac_sum(term_values(merged@)), (ri, bi));
        }
        let result = fix_duplicates(&merged);
        proof {
            lemma_frac_eq_trans(frac_sum(term_values(result@)), frac_sum(term_values(merged@)), (ri, bi));
        }
        result
    };
    let mut out: Vec<Term> = Vec::new();
    if !w.is_zero() {
        out.push(Term { num: w, den: BigNat::from_u32(1) });
    }
    let ghost head = term_values(out@);
    crate::repair::copy_range(&frac_part, 0, frac_part.len(), &mut out);
    proof {
        let fv = term_values(frac_part@);
        assert(fv.subrange(0, fv.len() as int) =~= fv);
        assert(term_values(out@) == head + fv);
        lemma_sum_concat(head, fv);
        lemma_sum_pos(fv);
        let sf = frac_sum(fv);
        if wi > 0 {
            assert(head =~= seq![(wi, 1int)]);
            lemma_sum_single((wi, 1int));
        } else {
            assert(head =~= Seq::<(int, int)>::empty());
            assert(frac_sum(head) == (0int, 1int));
        }
        assert(frac_eq(frac_add((wi, 1int), sf), (ai, bi))) by (nonlinear_arith)
            requires
                sf.0 * bi == ri * sf.1,
                ai == bi * wi + ri,
                frac_add((wi, 1int), sf) == (wi * sf.1 + sf.0 * 1, 1 * sf.1),
                sf.1 > 0,
        ;
        let tv = term_values(out@);
        assert forall|k: int| 0 <= k < tv.len() implies ((#[trigger] tv[k]).0 == 1 && tv[k].1 >= 2) || (k == 0
            && tv[k].1 == 1 && tv[k].0 == wi && wi > 0) by {
            if k >= head.len() {
                assert(tv[k] == fv[k - head.len()]);
            } else {
                assert(tv[k] == head[k]);
            }
        }
        assert forall|k: int| 0 <= k < out@.len() implies ((#[trigger] out@[k]).num@ == 1 && out@[k].den@
            >= 2) || (k == 0 && out@[k].den@ == 1 && out@[k].num@ == a@ / b@) by {
            assert(tv[k] == out@[k].value());
        }
        assert(crate::repair::dens_increasing(tv)) by {
            assert forall|x: int, y: int| 0 <= x < y < tv.len() implies (#[trigger] tv[x]).1 < (#[trigger] tv[y]).1 by {
                if x >= head.len() {
                    assert(tv[x] == fv[x - head.len()]);
                    assert(tv[y] == fv[y - head.len()]);
                } else {
                    assert(tv[y] == fv[y - head.len()]);
                }
            }
        }
        crate::repair::lemma_increasing_distinct(tv);
        assert(pos_dens(tv)) by {
            assert forall|k: int| 0 <= k < tv.len() implies (#[trigger] tv[k]).1 > 0 by {
                if k >= head.len() {
                    assert(tv[k] == fv[k - head.len()]);
                }
            }
        }
        if tv.len() > 0 {
            assert(tv[0] == out@[0].value());
            if wi == 0 {
                assert(tv[0] == fv[0]);
                assert(tv[0].1 >= 2);
            } else {
                assert(tv[0] == head[0]);
            }
        }
        assert((ai >= bi) == (wi > 0)) by (nonlinear_arith)
            requires
                ai == bi * wi + ri,
                0 <= ri < bi,
                wi >= 0,
        ;
        if unit_in {
            assert(wi == 0);
            assert(tv =~= fv);
        }
        if whole_in {
            assert(fv.len() == 0);
            assert(tv =~= seq![(ai, 1int)]);
        }
    }
    Expansion::Concrete(out)
}

/// The single run the recurrence makes of `1 / n` is worth `1 / n`.
proof fn lemma_unit_value(t: SymbolicTerm, n: int)
    requires
        t.base@ == 1,
        t.step@ == n - 1,
        t.start@ == 1,
        t.end@ == 1,
        n > 1,
    ensures
        t.value() == (1int, n),
{
    assert((t.base@ - t.step@ + t.step@ * t.start@) * (t.base@ + t.step@ * t.end@) == n)
        by (nonlinear_arith)
        requires
            t.base@ == 1,
            t.step@ == n - 1,
            t.start@ == 1,
            t.end@ == 1,
    ;
}

/// A fraction equal to `r / b` with `r < b` is below one.
proof fn lemma_below(s: (int, int), rb: (int, int))
    requires
        s.1 > 0,
        rb.1 > 0,
        frac_eq(s, rb),
        rb.0 < rb.1,
    ensures
        s.0 < s.1,
{
    assert(s.0 < s.1) by (nonlinear_arith)
        requires
            s.0 * rb.1 == rb.0 * s.1,
            rb.0 < rb.1,
            s.1 > 0,
            rb.1 > 0,
    ;
}

/// A copy of the terms, in the same order.
fn copy_terms(v: &Vec<Term>) -> (r: Vec<Term>)
    ensures
        term_values(r@) == term_values(v@),
{
    let mut out: Vec<Term> = Vec::new();
    crate::repair::copy_range(v, 0, v.len(), &mut out);
    proof {
        assert(term_values(v@).subrange(0, v@.len() as int) =~= term_values(v@));
        assert(Seq::<(int, int)>::empty() + term_values(v@) =~= term_values(v@));
        assert(term_values(Seq::<Term>::empty()) =~= Seq::<(int, int)>::empty());
    }
    out
}

} // verus!
