//! The symbolic recurrence: a positive rational becomes a short list of runs.

use crate::bignat::{coprime, div_rem, gcd, le, mod_inverse, nat_add, nat_mul, nat_sub, BigNat};
use crate::fraction::{
    frac_add, frac_eq, frac_sum, lemma_frac_add_assoc, lemma_frac_add_comm, lemma_frac_add_congr,
    lemma_frac_add_pos, lemma_frac_eq_trans, lemma_sum_concat, lemma_sum_pos, lemma_sum_single,
    pos_dens,
};
use crate::terms::{all_wf, lemma_value_pos, sym_values, SymbolicTerm};
use vstd::arithmetic::div_mod::{lemma_fundamental_div_mod, lemma_mod_multiples_basic};
use vstd::prelude::*;

verus! {

proof fn lemma_divides_both_product(x: int, y: int, g: int, d: int)
    requires
        g > 0,
        d > 1,
        x % g == 0,
        y % g == 0,
        (x / g) % d == 0,
        (y / g) % d == 0,
    ensures
        x % (d * g) == 0,
        y % (d * g) == 0,
{
    lemma_fundamental_div_mod(x, g);
    lemma_fundamental_div_mod(y, g);
    lemma_fundamental_div_mod(x / g, d);
    lemma_fundamental_div_mod(y / g, d);
    let (kx, ky) = ((x / g) / d, (y / g) / d);
    assert(x == kx * (d * g)) by (nonlinear_arith)
        requires
            x == g * (x / g) + 0,
            x / g == d * kx + 0,
    ;
    assert(y == ky * (d * g)) by (nonlinear_arith)
        requires
            y == g * (y / g) + 0,
            y / g == d * ky + 0,
    ;
    assert(d * g > 0) by (nonlinear_arith)
        requires
            d > 1,
            g > 0,
    ;
    lemma_mod_multiples_basic(kx, d * g);
    lemma_mod_multiples_basic(ky, d * g);
}

/// `x / y` in lowest terms.
pub fn reduce(x: &BigNat, y: &BigNat) -> (r: (BigNat, BigNat))
    requires
        y@ > 0,
    ensures
        r.1@ > 0,
        r.0@ <= x@,
        r.1@ <= y@,
        coprime(r.0@, r.1@),
        frac_eq((r.0@ as int, r.1@ as int), (x@ as int, y@ as int)),
        x@ % y@ == 0 ==> r.1@ == 1,
        x@ == 1 ==> r.0@ == 1 && r.1@ == y@,
        y@ == 1 ==> r.0@ == x@ && r.1@ == 1,
{
    let g = gcd(x, y);
    let (a, _) = div_rem(x, &g);
    let (b, _) = div_rem(y, &g);
    proof {
        let (xi, yi, gi) = (x@ as int, y@ as int, g@ as int);
        lemma_fundamental_div_mod(xi, gi);
        lemma_fundamental_div_mod(yi, gi);
        assert(a@ * yi == xi * b@) by (nonlinear_arith)
            requires
                xi == gi * a@ + 0,
                yi == gi * b@ + 0,
        ;
        assert(b@ > 0 && b@ <= yi && a@ <= xi) by (nonlinear_arith)
            requires
                xi == gi * a@ + 0,
                yi == gi * b@ + 0,
                gi > 0,
                yi > 0,
                a@ >= 0,
        ;
        assert forall|d: nat| d > 1 implies !(#[trigger] (a@ % d) == 0 && b@ % d == 0) by {
            if a@ % d == 0 && b@ % d == 0 {
                lemma_divides_both_product(xi, yi, gi, d as int);
                assert(d * gi > gi) by (nonlinear_arith)
                    requires
                        d > 1,
                        gi > 0,
                ;
                assert(x@ % ((d * gi) as nat) == 0);
            }
        }
        if y@ == 1 {
            assert(a@ == xi && b@ == 1) by (nonlinear_arith)
                requires
                    xi == gi * a@ + 0,
                    yi == gi * b@ + 0,
                    yi == 1,
                    gi > 0,
                    b@ > 0,
            ;
        }
        if x@ == 1 {
            assert(a@ == 1 && b@ == yi) by (nonlinear_arith)
                requires
                    a@ * yi == xi * b@,
                    xi == 1,
                    a@ <= xi,
                    b@ > 0,
                    yi > 0,
            ;
        }
        if x@ % y@ == 0 {
            assert(yi <= gi);
            assert(b@ == 1) by (nonlinear_arith)
                requires
                    yi == gi * b@ + 0,
                    yi <= gi,
                    b@ > 0,
                    gi > 0,
            ;
        }
    }
    (a, b)
}

/// The arithmetic of one step of the recurrence: with `y * m == x * v + 1`,
/// the run of `t = x / m` terms leaves `r / y1` with `r = x % m` and
/// `y1 = y - v * t`.
proof fn lemma_step(x: int, y: int, v: int, m: int, t: int, r: int, y1: int)
    requires
        1 <= x < y,
        1 <= v < y,
        y * m == x * v + 1,
        m > 0,
        t == x / m,
        r == x % m,
        y1 == y - v * t,
    ensures
        m <= x,
        t >= 1,
        v * t < y,
        1 <= y1 < y,
        0 <= r < y1,
        x * y1 - t == r * y,
        frac_eq(frac_add((t, y1 * y), (r, y1)), (x, y)),
{
    lemma_fundamental_div_mod(x, m);
    assert(x * v <= x * (y - 1)) by (nonlinear_arith)
        requires
            v <= y - 1,
            x >= 1,
    ;
    assert(y * m <= y * x) by (nonlinear_arith)
        requires
            y * m == x * v + 1,
            x * v <= x * (y - 1),
            x >= 1,
    ;
    assert(m <= x) by (nonlinear_arith)
        requires
            y * m <= y * x,
            y > 0,
    ;
    assert(t >= 1) by (nonlinear_arith)
        requires
            x == m * t + r,
            0 <= r < m,
            m <= x,
    ;
    assert(v * t < y) by (nonlinear_arith)
        requires
            x == m * t + r,
            0 <= r,
            y * m == x * v + 1,
            m > 0,
            v >= 1,
    ;
    assert(v * t >= 1) by (nonlinear_arith)
        requires
            v >= 1,
            t >= 1,
    ;
    assert(x * y1 - t == r * y) by (nonlinear_arith)
        requires
            x == m * t + r,
            y * m == x * v + 1,
            y1 == y - v * t,
    ;
    assert(r < y1) by (nonlinear_arith)
        requires
            x * y1 - t == r * y,
            t >= 1,
            x < y,
            y1 >= 1,
            y > 0,
    ;
    assert((t * y1 + r * (y1 * y)) * y == x * ((y1 * y) * y1)) by (nonlinear_arith)
        requires
            x * y1 - t == r * y,
    ;
}

/// Splits `x0 / y0` into a list of symbolic runs, followed by a whole marker
/// when the value is at least one. The runs come in the reverse of the order
/// in which the recurrence finds them.
pub fn as_egyptian_fraction_symbolic(x0: &BigNat, y0: &BigNat) -> (r: Vec<SymbolicTerm>)
    requires
        y0@ > 0,
    ensures
        all_wf(r@),
        frac_eq(frac_sum(sym_values(r@)), (x0@ as int, y0@ as int)),
        x0@ == 1 && y0@ > 1 ==> r@.len() == 1 && r@[0].base@ == 1 && r@[0].step@ == y0@ - 1
            && r@[0].start@ == 1 && r@[0].end@ == 1,
        y0@ == 1 && x0@ > 0 ==> r@.len() == 1 && r@[0].is_whole() && r@[0].base@ == x0@,
        forall|k: int|
            0 <= k < r@.len() ==> ((#[trigger] r@[k]).is_run() && r@[k].start@ == 1 && r@[k].step@
                < y0@) || (k == r@.len() - 1 && r@[k].is_whole() && r@[k].base@ == x0@ / y0@),
        x0@ >= y0@ <==> (r@.len() > 0 && r@.last().is_whole()),
        x0@ < y0@ ==> r@.len() < y0@,
        r@.len() <= y0@,
{
    let one = BigNat::from_u32(1);
    let zero = BigNat::from_u32(0);
    let (mut x, mut y) = reduce(x0, y0);
    let ghost (rx, ry) = (x@ as int, y@ as int);
    let mut whole: Option<BigNat> = None;
    if le(&y, &x) {
        let (q, rem) = div_rem(&x, &y);
        whole = Some(q);
        x = rem;
        proof {
            lemma_coprime_rem(rx, ry);
        }
    }
    proof {
        lemma_fundamental_div_mod(rx, ry);
        lemma_same_floor(x0@ as int, y0@ as int, rx, ry);
    }
    let ghost (fx, fy) = (x@ as int, y@ as int);
    let mut ret: Vec<SymbolicTerm> = Vec::new();
    proof {
        assert(sym_values(ret@) =~= Seq::empty());
        assert(frac_add((0, 1), (fx, fy)) == (fx, fy)) by (nonlinear_arith);
    }
    while !x.is_zero()
        invariant
            y@ > 0,
            x@ < y@,
            coprime(x@, y@),
            fy > 0,
            all_wf(ret@),
            frac_eq(frac_add(frac_sum(sym_values(ret@)), (x@ as int, y@ as int)), (fx, fy)),
            fy == ry,
            one@ == 1,
            zero@ == 0,
            whole matches Some(q) ==> q@ == rx / ry && fx == rx % ry,
            whole is None ==> fx == rx,
            fx == 0 ==> x@ == 0 && ret@.len() == 0,
            ret@.len() + y@ <= ry,
            ry <= y0@,
            forall|k: int|
                0 <= k < ret@.len() ==> (#[trigger] ret@[k]).is_run() && ret@[k].start@ == 1
                    && ret@[k].step@ < ry,
            x0@ == 1 && y0@ > 1 ==> (ret@.len() == 0 && x@ == 1 && y@ == y0@ && whole is None) || (
            ret@.len() == 1 && x@ == 0 && ret@[0].base@ == 1 && ret@[0].step@ == y0@ - 1
                && ret@[0].start@ == 1 && ret@[0].end@ == 1 && whole is None),
        decreases y@,
    {
        let w = match mod_inverse(&x, &y) {
            Some(w) => w,
            None => {
                return ret;
            },
        };
        let v = nat_sub(&y, &w);
        let xv1 = nat_add(&nat_mul(&x, &v), &one);
        let (m, _) = div_rem(&xv1, &y);
        let ghost (xi, yi, wi, vi, mi) = (x@ as int, y@ as int, w@ as int, v@ as int, m@ as int);
        proof {
            lemma_fundamental_div_mod(xi * wi, yi);
            assert(1nat % y@ == 1) by {
                vstd::arithmetic::div_mod::lemma_small_mod(1nat, y@);
            }
            lemma_fundamental_div_mod(xi * vi + 1, yi);
            let q = (xi * wi) / yi;
            assert(xi * vi + 1 == yi * (xi - q)) by (nonlinear_arith)
                requires
                    xi * wi == yi * q + 1,
                    vi == yi - wi,
            ;
            assert(wi >= 1) by {
                if wi == 0 {
                    assert(xi * wi == 0) by (nonlinear_arith)
                        requires
                            wi == 0,
                    ;
                }
            }
            vstd::arithmetic::div_mod::lemma_div_multiples_vanish(xi - q, yi);
            assert(xv1@ == xi * vi + 1);
            assert(mi == (xi * vi + 1) / yi);
            assert(mi == xi - q);
            assert(yi * mi == xi * vi + 1);
            assert(mi > 0) by (nonlinear_arith)
                requires
                    yi * mi == xi * vi + 1,
                    yi > 0,
                    xi >= 0,
                    vi >= 0,
            ;
        }
        proof {
            if xi == 1 {
                vstd::arithmetic::div_mod::lemma_small_mod(wi as nat, yi as nat);
                assert(wi == 1);
                assert(mi == 1) by (nonlinear_arith)
                    requires
                        yi * mi == 1 * vi + 1,
                        vi == yi - 1,
                        yi > 0,
                ;
            }
        }
        let (t, rem) = div_rem(&x, &m);
        let vt = nat_mul(&v, &t);
        proof {
            lemma_step(xi, yi, vi, mi, t@ as int, rem@ as int, yi - vi * t@);
        }
        let y1 = nat_sub(&y, &vt);
        let term = SymbolicTerm { base: y1.clone(), step: v, start: BigNat::from_u32(1), end: t };
        let (nx, ny) = reduce(&rem, &y1);
        let ghost old_ret = ret@;
        ret.insert(0, term);
        proof {
            let tv = term.value();
            let (ti, y1i) = (term.end@ as int, y1@ as int);
            assert(tv == (ti, y1i * yi)) by {
                assert(term.run_len() == ti);
                assert(y1i - vi + vi * 1 == y1i);
                assert(y1i + vi * ti == yi);
            }
            assert(term.wf());
            assert(all_wf(ret@)) by {
                assert forall|k: int| 0 <= k < ret@.len() implies (#[trigger] ret@[k]).wf() by {
                    if k > 0 {
                        assert(ret@[k] == old_ret[k - 1]);
                    }
                }
            }
            assert forall|k: int| 0 <= k < ret@.len() implies (#[trigger] ret@[k]).is_run()
                && ret@[k].start@ == 1 && ret@[k].step@ < ry by {
                if k > 0 {
                    assert(ret@[k] == old_ret[k - 1]);
                }
            }
            let s_old = frac_sum(sym_values(old_ret));
            assert(sym_values(ret@) =~= seq![tv] + sym_values(old_ret));
            lemma_sum_concat(seq![tv], sym_values(old_ret));
            lemma_sum_single(tv);
            lemma_values_pos(old_ret);
            lemma_sum_pos(sym_values(old_ret));
            let nv = (nx@ as int, ny@ as int);
            // add(add(T, S), N) == add(S, add(T, N))
            lemma_frac_add_comm(tv, s_old);
            lemma_frac_add_assoc(s_old, tv, nv);
            // add(T, N) ~ add(T, (rem, y1)) ~ (x, y)
            lemma_frac_add_congr(tv, tv, nv, (rem@ as int, y1i));
            assert(tv.1 > 0) by (nonlinear_arith)
                requires
                    tv.1 == y1i * yi,
                    y1i >= 1,
                    yi >= 1,
            ;
            lemma_frac_add_pos(tv, (rem@ as int, y1i));
            lemma_frac_eq_trans(frac_add(tv, nv), frac_add(tv, (rem@ as int, y1i)), (xi, yi));
            lemma_frac_add_congr(s_old, s_old, frac_add(tv, nv), (xi, yi));
            lemma_frac_add_pos(s_old, (xi, yi));
            lemma_frac_eq_trans(
                frac_add(s_old, frac_add(tv, nv)),
                frac_add(s_old, (xi, yi)),
                (fx, fy),
            );
            assert(nx@ < ny@) by (nonlinear_arith)
                requires
                    nx@ * y1i == rem@ * ny@,
                    rem@ < y1i,
                    ny@ > 0,
                    y1i > 0,
            ;
        }
        x = nx;
        y = ny;
    }
    proof {
        let s = frac_sum(sym_values(ret@));
        lemma_values_pos(ret@);
        lemma_sum_pos(sym_values(ret@));
        let yi = y@ as int;
        assert(s.0 * fy == fx * s.1) by (nonlinear_arith)
            requires
                (s.0 * yi + 0 * s.1) * fy == fx * (s.1 * yi),
                yi > 0,
        ;
    }
    match whole {
        Some(q) => {
            let ghost old_ret = ret@;
            let term = SymbolicTerm { base: q, step: zero.clone(), start: zero.clone(), end: zero };
            ret.push(term);
            proof {
                let s = frac_sum(sym_values(old_ret));
                let qv = (term.base@ as int, 1int);
                assert(sym_values(ret@) =~= sym_values(old_ret) + seq![qv]);
                lemma_sum_concat(sym_values(old_ret), seq![qv]);
                lemma_sum_single(qv);
                assert(all_wf(ret@)) by {
                    assert forall|k: int| 0 <= k < ret@.len() implies (#[trigger] ret@[k]).wf() by {
                        if k < old_ret.len() {
                            assert(ret@[k] == old_ret[k]);
                        }
                    }
                }
                lemma_frac_add_congr(s, (fx, fy), qv, qv);
                lemma_fundamental_div_mod(rx, ry);
                assert(fx * 1 + qv.0 * fy == rx && fy * 1 == ry) by (nonlinear_arith)
                    requires
                        rx == ry * qv.0 + fx,
                        fy == ry,
                ;
                assert(frac_add((fx, fy), qv) == (rx, ry));
                lemma_frac_add_pos((fx, fy), qv);
                lemma_frac_eq_trans(frac_add(s, qv), (rx, ry), (x0@ as int, y0@ as int));
            }
        },
        None => {
            proof {
                lemma_frac_eq_trans(frac_sum(sym_values(ret@)), (rx, ry), (x0@ as int, y0@ as int));
            }
        },
    }
    ret
}

/// Equal fractions with positive denominators have the same integer part.
proof fn lemma_same_floor(x0: int, y0: int, x: int, y: int)
    requires
        x0 >= 0,
        x >= 0,
        y0 > 0,
        y > 0,
        x * y0 == x0 * y,
    ensures
        x0 / y0 == x / y,
        (x0 >= y0) == (x >= y),
{
    lemma_fundamental_div_mod(x, y);
    let q = x / y;
    let r = x % y;
    assert(q * y0 <= x0 && x0 < (q + 1) * y0) by (nonlinear_arith)
        requires
            x == y * q + r,
            0 <= r < y,
            x * y0 == x0 * y,
            y > 0,
            y0 > 0,
    ;
    assert((q + 1) * y0 == q * y0 + y0) by (nonlinear_arith);
    vstd::arithmetic::div_mod::lemma_fundamental_div_mod_converse(x0, y0, q, x0 - q * y0);
    assert((x0 >= y0) == (x >= y)) by (nonlinear_arith)
        requires
            x * y0 == x0 * y,
            y > 0,
            y0 > 0,
    ;
}

/// Taking the remainder modulo `y` keeps a fraction in lowest terms.
proof fn lemma_coprime_rem(x: int, y: int)
    requires
        x >= 0,
        y > 0,
        coprime(x as nat, y as nat),
    ensures
        coprime((x % y) as nat, y as nat),
{
    assert forall|d: nat| d > 1 implies !(#[trigger] (((x % y) as nat) % d) == 0 && (y as nat) % d
        == 0) by {
        if ((x % y) as nat) % d == 0 && (y as nat) % d == 0 {
            lemma_fundamental_div_mod(x, y);
            lemma_fundamental_div_mod(x % y, d as int);
            lemma_fundamental_div_mod(y, d as int);
            let (a, b) = ((x % y) / (d as int), y / (d as int));
            assert(x == ((y / (d as int)) * (x / y) + a) * (d as int)) by (nonlinear_arith)
                requires
                    x == y * (x / y) + x % y,
                    x % y == (d as int) * a + 0,
                    y == (d as int) * (y / (d as int)) + 0,
            ;
            lemma_mod_multiples_basic((y / (d as int)) * (x / y) + a, d as int);
            assert((x as nat) % d == 0);
        }
    }
}

/// The values of well-formed symbolic terms have positive denominators.
pub proof fn lemma_values_pos(s: Seq<SymbolicTerm>)
    requires
        all_wf(s),
    ensures
        pos_dens(sym_values(s)),
{
    assert forall|i: int| 0 <= i < sym_values(s).len() implies (#[trigger] sym_values(s)[i]).1 > 0 by {
        lemma_value_pos(s[i]);
    }
}

} // verus!
