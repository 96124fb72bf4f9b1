//! Turning symbolic runs into concrete terms.

use crate::bignat::{le, nat_add, nat_mul, nat_sub, BigNat};
use crate::terms::{all_runs, all_units, all_wf, expansion, term_values, unit_den, unit_run, SymbolicTerm, Term};
use vstd::prelude::*;

verus! {

/// Every term of `s` has a positive denominator.
pub open spec fn all_pos(s: Seq<Term>) -> bool {
    forall|k: int| 0 <= k < s.len() ==> (#[trigger] s[k]).den@ > 0
}

/// Lists each run's unit fractions in index order, and each whole marker as
/// the whole number it holds.
pub fn expand(eg: &Vec<SymbolicTerm>) -> (r: Vec<Term>)
    requires
        all_wf(eg@),
    ensures
        term_values(r@) == expansion(eg@),
        all_pos(r@),
        all_runs(eg@) ==> all_units(term_values(r@)),
{
    let one = BigNat::from_u32(1);
    let mut ret: Vec<Term> = Vec::new();
    let mut idx: usize = 0;
    proof {
        assert(eg@.subrange(0, 0) =~= Seq::<SymbolicTerm>::empty());
        assert(term_values(ret@) =~= Seq::empty());
    }
    while idx < eg.len()
        invariant
            idx <= eg@.len(),
            all_wf(eg@),
            one@ == 1,
            term_values(ret@) == expansion(eg@.subrange(0, idx as int)),
            all_pos(ret@),
            all_runs(eg@) ==> all_units(term_values(ret@)),
        decreases eg@.len() - idx,
    {
        let t = &eg[idx];
        let ghost prefix = term_values(ret@);
        proof {
            assert(t.wf());
            if all_runs(eg@) {
                assert(t.is_run());
            }
        }
        if t.step.is_zero() && t.start.is_zero() && t.end.is_zero() {
            let ghost before = ret@;
            ret.push(Term { num: t.base.clone(), den: one.clone() });
            proof {
                assert(term_values(ret@) =~= prefix + t.run_values());
                assert(all_pos(ret@)) by {
                    assert forall|k: int| 0 <= k < ret@.len() implies (#[trigger] ret@[k]).den@ > 0 by {
                        if k < before.len() {
                            assert(ret@[k] == before[k]);
                        }
                    }
                }
            }
        } else {
            let ghost (b, v, i) = (t.base@ as int, t.step@ as int, t.start@ as int);
            let mut k = t.start.clone();
            proof {
                assert(unit_run(b, v, i, 0) =~= Seq::empty());
                assert(prefix + unit_run(b, v, i, 0) =~= prefix);
            }
            while le(&k, &t.end)
                invariant
                    t.wf(),
                    !t.is_whole(),
                    b == t.base@,
                    v == t.step@,
                    i == t.start@,
                    one@ == 1,
                    i <= k@ <= t.end@ + 1,
                    term_values(ret@) == prefix + unit_run(b, v, i, (k@ - i) as nat),
                    all_pos(ret@),
                    all_runs(eg@) ==> t.is_run() && all_units(term_values(ret@)),
                decreases t.end@ + 1 - k@,
            {
                let vk = nat_mul(&t.step, &k);
                let hi = nat_add(&t.base, &vk);
                proof {
                    assert(v * k@ >= v * i) by (nonlinear_arith)
                        requires
                            v >= 0,
                            k@ >= i,
                    ;
                }
                let lo = nat_sub(&hi, &t.step);
                let den = nat_mul(&lo, &hi);
                let ghost before = ret@;
                ret.push(Term { num: one.clone(), den });
                proof {
                    let n = (k@ - i) as nat;
                    assert(den@ == unit_den(b, v, i + n));
                    assert(den@ > 0) by (nonlinear_arith)
                        requires
                            den@ == lo@ * hi@,
                            lo@ > 0,
                            hi@ >= lo@,
                    ;
                    assert(unit_run(b, v, i, n + 1) =~= unit_run(b, v, i, n).push((1int, unit_den(b, v, i + n))));
                    assert(term_values(ret@) =~= term_values(before).push((1int, den@ as int)));
                    assert(all_pos(ret@)) by {
                        assert forall|q: int| 0 <= q < ret@.len() implies (#[trigger] ret@[q]).den@ > 0 by {
                            if q < before.len() {
                                assert(ret@[q] == before[q]);
                            }
                        }
                    }
                    if all_runs(eg@) {
                        assert(den@ >= 2) by (nonlinear_arith)
                            requires
                                den@ == lo@ * hi@,
                                lo@ == hi@ - v,
                                hi@ == b + v * k@,
                                b >= 1,
                                v >= 1,
                                k@ >= 1,
                        ;
                        assert forall|q: int| 0 <= q < term_values(ret@).len() implies (#[trigger] term_values(ret@)[q]).0
                            == 1 && term_values(ret@)[q].1 >= 2 by {
                            if q < before.len() {
                                assert(term_values(ret@)[q] == term_values(before)[q]);
                            }
                        }
                    }
                }
                k = nat_add(&k, &one);
            }
            proof {
                assert(k@ == t.end@ + 1);
                assert(t.run_values() == unit_run(b, v, i, (k@ - i) as nat));
            }
        }
        proof {
            let s1 = eg@.subrange(0, idx + 1);
            assert(s1.drop_last() =~= eg@.subrange(0, idx as int));
            assert(s1.last() == eg@[idx as int]);
        }
        idx = idx + 1;
    }
    proof {
        assert(eg@.subrange(0, eg@.len() as int) =~= eg@);
    }
    ret
}

} // verus!
