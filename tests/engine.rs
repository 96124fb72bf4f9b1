use egyptian::bignat::BigNat;
use egyptian::bisect::{calculate_raw_sum, halve_symbolic_sums};
use egyptian::decompose::{as_egyptian_fraction_symbolic, reduce};
use egyptian::engine::{as_egyptian_fraction, Expansion, Options};
use egyptian::expand::expand;
use egyptian::merge::merge;
use egyptian::repair::{fix_duplicates, sort_terms};
use egyptian::terms::{SymbolicTerm, Term};
use num_bigint::BigUint;

fn big(n: u64) -> BigNat {
    BigNat::from_u64(n)
}

fn val(x: &BigNat) -> BigUint {
    BigUint::new(x.to_limbs())
}

fn u(n: u64) -> BigUint {
    BigUint::from(n)
}

fn term(num: u64, den: u64) -> Term {
    Term { num: big(num), den: big(den) }
}

fn sym(b: u64, v: u64, i: u64, j: u64) -> SymbolicTerm {
    SymbolicTerm { base: big(b), step: big(v), start: big(i), end: big(j) }
}

fn pairs(ts: &[Term]) -> Vec<(BigUint, BigUint)> {
    ts.iter().map(|t| (val(&t.num), val(&t.den))).collect()
}

fn sum(fs: &[(BigUint, BigUint)]) -> (BigUint, BigUint) {
    let mut acc = (u(0), u(1));
    for (n, d) in fs {
        acc = (&acc.0 * d + n * &acc.1, &acc.1 * d);
    }
    acc
}

fn same_value(a: &(BigUint, BigUint), p: u64, q: u64) -> bool {
    &a.0 * u(q) == u(p) * &a.1
}

fn sym_value(t: &SymbolicTerm) -> (BigUint, BigUint) {
    let (b, v, i, j) = (val(&t.base), val(&t.step), val(&t.start), val(&t.end));
    if v == u(0) && i == u(0) && j == u(0) {
        (b, u(1))
    } else {
        (&j - &i + u(1), (&b + &v * &i - &v) * (&b + &v * &j))
    }
}

fn run_len(t: &SymbolicTerm) -> BigUint {
    val(&t.end) - val(&t.start) + u(1)
}

fn concrete(p: u64, q: u64, opts: &Options) -> Vec<(BigUint, BigUint)> {
    match as_egyptian_fraction(&big(p), &big(q), opts) {
        Expansion::Concrete(t) => pairs(&t),
        Expansion::Symbolic(_) => panic!("expected concrete terms"),
    }
}

fn symbolic(p: u64, q: u64, opts: &Options) -> Vec<SymbolicTerm> {
    match as_egyptian_fraction(&big(p), &big(q), opts) {
        Expansion::Symbolic(s) => s,
        Expansion::Concrete(_) => panic!("expected symbolic terms"),
    }
}

fn assert_egyptian(fs: &[(BigUint, BigUint)], p: u64, q: u64) {
    assert!(same_value(&sum(fs), p, q), "sum differs for {}/{}", p, q);
    for w in fs.windows(2) {
        assert!(w[0].1 < w[1].1, "denominators not strictly increasing for {}/{}", p, q);
    }
    for (n, d) in fs {
        assert!(*d == u(1) || *n == u(1), "term {}/{} is neither whole nor unit", n, d);
    }
}

#[test]
fn two_thirds_is_a_sum_of_distinct_unit_fractions() {
    let fs = concrete(2, 3, &Options::default());
    assert_egyptian(&fs, 2, 3);
    assert!(fs.len() >= 2);
}

#[test]
fn seven_elevenths_raw_is_short() {
    let opts = Options { raw: true, ..Options::default() };
    let s = symbolic(7, 11, &opts);
    assert!(!s.is_empty() && s.len() < 11);
    let vals: Vec<(BigUint, BigUint)> = s.iter().map(sym_value).collect();
    assert!(same_value(&sum(&vals), 7, 11));
    let expanded = pairs(&expand(&s));
    assert!(same_value(&sum(&expanded), 7, 11));
}

#[test]
fn unit_fraction_is_returned_unchanged() {
    for n in [2u64, 3, 7, 10, 97, 1000003] {
        assert_eq!(concrete(1, n, &Options::default()), vec![(u(1), u(n))]);
        let merged = Options { merge: true, ..Options::default() };
        assert_eq!(concrete(1, n, &merged), vec![(u(1), u(n))]);
        let raw = Options { raw: true, ..Options::default() };
        let s = symbolic(1, n, &raw);
        assert_eq!(s.len(), 1);
        assert_eq!(sym_value(&s[0]), (u(1), u(n)));
    }
}

#[test]
fn five_is_a_single_whole_term() {
    assert_eq!(concrete(5, 1, &Options::default()), vec![(u(5), u(1))]);
    let raw = Options { raw: true, ..Options::default() };
    let s = symbolic(5, 1, &raw);
    assert_eq!(s.len(), 1);
    assert_eq!((val(&s[0].base), val(&s[0].step), val(&s[0].start), val(&s[0].end)), (u(5), u(0), u(0), u(0)));
}

#[test]
fn whole_part_comes_first() {
    let fs = concrete(17, 5, &Options::default());
    assert_eq!(fs[0], (u(3), u(1)));
    assert_egyptian(&fs, 17, 5);
}

#[test]
fn same_input_gives_same_output() {
    for opts in [Options::default(), Options { merge: true, ..Options::default() }, Options { merge: true, reverse: true, ..Options::default() }] {
        assert_eq!(concrete(123, 457, &opts), concrete(123, 457, &opts));
    }
    let raw = Options { raw: true, bisect: true, limit: 3, ..Options::default() };
    let a: Vec<(BigUint, BigUint)> = symbolic(5, 121, &raw).iter().map(sym_value).collect();
    let b: Vec<(BigUint, BigUint)> = symbolic(5, 121, &raw).iter().map(sym_value).collect();
    assert_eq!(a, b);
}

#[test]
fn every_small_fraction_is_preserved_and_distinct() {
    for q in 1u64..40 {
        for p in 1u64..(2 * q) {
            for opts in [Options::default(), Options { merge: true, ..Options::default() }, Options { merge: true, reverse: true, ..Options::default() }] {
                let fs = concrete(p, q, &opts);
                assert_egyptian(&fs, p, q);
            }
        }
    }
}

#[test]
fn raw_bisected_runs_respect_the_limit() {
    for limit in [2usize, 3, 8] {
        let opts = Options { raw: true, bisect: true, limit, ..Options::default() };
        for (p, q) in [(10u64, 11u64), (7, 11), (100, 101), (998, 999), (5, 121)] {
            let s = symbolic(p, q, &opts);
            for t in &s {
                assert!(run_len(t) <= u(limit as u64));
            }
            let vals: Vec<(BigUint, BigUint)> = s.iter().map(sym_value).collect();
            assert!(same_value(&sum(&vals), p, q));
        }
    }
}

#[test]
fn limit_below_two_counts_as_two() {
    let opts = Options { raw: true, bisect: true, limit: 0, ..Options::default() };
    for t in &symbolic(10, 11, &opts) {
        assert!(run_len(t) <= u(2));
    }
}

#[test]
fn long_run_without_bisection_stays_whole() {
    let opts = Options { raw: true, ..Options::default() };
    let s = symbolic(10, 11, &opts);
    assert_eq!(s.len(), 1);
    assert_eq!(run_len(&s[0]), u(10));
}

#[test]
fn big_inputs_are_preserved() {
    let p = BigUint::parse_bytes(b"123456789012345678901234567890", 10).unwrap();
    let q = BigUint::parse_bytes(b"987654321098765432109876543211", 10).unwrap();
    let r = as_egyptian_fraction(&BigNat::from_limbs(p.to_u32_digits()), &BigNat::from_limbs(q.to_u32_digits()), &Options::default());
    match r {
        Expansion::Concrete(t) => {
            let s = sum(&pairs(&t));
            assert_eq!(&s.0 * &q, &p * &s.1);
        }
        Expansion::Symbolic(_) => panic!("expected concrete terms"),
    }
}

#[test]
fn merge_collapses_a_prefix_to_one_quarter() {
    let r = pairs(&merge(&vec![term(1, 5), term(1, 20)]));
    assert_eq!(r, vec![(u(1), u(4))]);
    let r = pairs(&merge(&vec![term(1, 5), term(1, 20), term(1, 7)]));
    assert_eq!(r, vec![(u(1), u(4)), (u(1), u(7))]);
}

#[test]
fn merge_keeps_terms_that_start_no_unit_span() {
    let r = pairs(&merge(&vec![term(1, 2), term(1, 3)]));
    assert_eq!(r, vec![(u(1), u(2)), (u(1), u(3))]);
}

#[test]
fn merge_takes_the_longest_span() {
    // 1/3 + 1/6 = 1/2 and 1/3 + 1/6 + 1/2 = 1
    let r = pairs(&merge(&vec![term(1, 3), term(1, 6), term(1, 2)]));
    assert_eq!(r, vec![(u(1), u(1))]);
}

#[test]
fn symbolic_recurrence_values() {
    let s = as_egyptian_fraction_symbolic(&big(7), &big(11));
    let vals: Vec<(BigUint, BigUint)> = s.iter().map(sym_value).collect();
    assert!(same_value(&sum(&vals), 7, 11));
    let s = as_egyptian_fraction_symbolic(&big(14), &big(22));
    let vals: Vec<(BigUint, BigUint)> = s.iter().map(sym_value).collect();
    assert!(same_value(&sum(&vals), 7, 11));
    assert!(as_egyptian_fraction_symbolic(&big(0), &big(9)).is_empty());
}

#[test]
fn symbolic_whole_marker_comes_last() {
    let s = as_egyptian_fraction_symbolic(&big(17), &big(5));
    let last = s.last().unwrap();
    assert_eq!((val(&last.base), val(&last.step), val(&last.start), val(&last.end)), (u(3), u(0), u(0), u(0)));
}

#[test]
fn raw_sum_of_a_run() {
    let (n, d) = calculate_raw_sum(&sym(3, 1, 1, 2));
    assert_eq!((val(&n), val(&d)), (u(2), u(15)));
    let (n, d) = calculate_raw_sum(&sym(2, 2, 1, 1));
    assert_eq!((val(&n), val(&d)), (u(1), u(8)));
}

#[test]
fn expand_lists_each_unit_fraction() {
    let r = pairs(&expand(&vec![sym(2, 1, 1, 3), sym(4, 0, 0, 0)]));
    assert_eq!(r, vec![(u(1), u(6)), (u(1), u(12)), (u(1), u(20)), (u(4), u(1))]);
}

#[test]
fn halving_splits_long_runs() {
    let r = halve_symbolic_sums(&vec![sym(1, 1, 1, 10)], 3);
    for t in &r {
        assert!(run_len(t) <= u(3));
    }
    let vals: Vec<(BigUint, BigUint)> = r.iter().map(sym_value).collect();
    assert!(same_value(&sum(&vals), 10, 11));
    let short = halve_symbolic_sums(&vec![sym(4, 3, 1, 2)], 8);
    assert_eq!(short.len(), 1);
    assert_eq!(sym_value(&short[0]), sym_value(&sym(4, 3, 1, 2)));
}

#[test]
fn duplicates_are_replaced() {
    let r = pairs(&fix_duplicates(&vec![term(1, 3), term(1, 3)]));
    assert_egyptian(&r, 2, 3);
    let r = pairs(&fix_duplicates(&vec![term(1, 2), term(1, 6), term(1, 6), term(1, 6)]));
    assert_egyptian(&r, 1, 1);
    assert_eq!(r, vec![(u(1), u(1))]);
    let r = pairs(&fix_duplicates(&vec![term(1, 4), term(1, 5)]));
    assert_eq!(r, vec![(u(1), u(4)), (u(1), u(5))]);
}

#[test]
fn sorting_by_denominator() {
    let r = pairs(&sort_terms(&vec![term(1, 9), term(2, 1), term(1, 3), term(1, 9)]));
    assert_eq!(r, vec![(u(2), u(1)), (u(1), u(3)), (u(1), u(9)), (u(1), u(9))]);
}

#[test]
fn reduce_to_lowest_terms() {
    let (a, b) = reduce(&big(12), &big(18));
    assert_eq!((val(&a), val(&b)), (u(2), u(3)));
    let (a, b) = reduce(&big(0), &big(5));
    assert_eq!((val(&a), val(&b)), (u(0), u(1)));
}

#[test]
fn default_options() {
    let o = Options::default();
    assert!(!o.reverse && !o.merge && !o.raw && !o.bisect);
    assert_eq!(o.limit, 8);
}

#[test]
fn zero_has_no_terms() {
    assert!(concrete(0, 5, &Options::default()).is_empty());
    let raw = Options { raw: true, ..Options::default() };
    assert!(symbolic(0, 5, &raw).is_empty());
}

#[test]
fn empty_lists_stay_empty() {
    assert!(expand(&vec![]).is_empty());
    assert!(merge(&vec![]).is_empty());
    assert!(fix_duplicates(&vec![]).is_empty());
    assert!(sort_terms(&vec![]).is_empty());
    assert!(halve_symbolic_sums(&vec![], 2).is_empty());
}

#[test]
fn unreduced_input_gives_the_reduced_result() {
    assert_eq!(concrete(6, 9, &Options::default()), concrete(2, 3, &Options::default()));
    assert_eq!(concrete(4, 12, &Options::default()), vec![(u(1), u(3))]);
}

#[test]
fn repeated_whole_terms_are_combined() {
    let r = pairs(&fix_duplicates(&vec![term(2, 1), term(3, 1), term(1, 4)]));
    assert_eq!(r, vec![(u(5), u(1)), (u(1), u(4))]);
}

#[test]
fn merge_keeps_the_tail_after_a_quarter() {
    let r = pairs(&merge(&vec![term(1, 5), term(1, 20), term(1, 21)]));
    assert_eq!(r, vec![(u(1), u(4)), (u(1), u(21))]);
}

#[test]
fn merge_without_unit_spans_changes_nothing() {
    let r = pairs(&merge(&vec![term(1, 2), term(1, 5), term(1, 7)]));
    assert_eq!(r, vec![(u(1), u(2)), (u(1), u(5)), (u(1), u(7))]);
}

#[test]
fn raw_sum_is_in_lowest_terms() {
    let (n, d) = calculate_raw_sum(&sym(2, 3, 1, 3));
    assert_eq!((val(&n), val(&d)), (u(3), u(22)));
}

#[test]
fn repair_of_fixed_inputs() {
    let r = pairs(&fix_duplicates(&vec![term(1, 2), term(1, 12), term(1, 12)]));
    assert_eq!(r, vec![(u(1), u(2)), (u(1), u(6))]);
    let r = pairs(&fix_duplicates(&vec![term(1, 6), term(1, 12), term(1, 12)]));
    assert_eq!(r, vec![(u(1), u(3))]);
    let r = pairs(&fix_duplicates(&vec![term(1, 3), term(1, 3)]));
    assert_egyptian(&r, 2, 3);
    assert!(r.iter().all(|(n, d)| *n == u(1) && *d >= u(2)));
}

#[test]
fn repair_is_idempotent() {
    let once = fix_duplicates(&vec![term(1, 3), term(1, 3), term(1, 7), term(1, 7)]);
    let twice = fix_duplicates(&once);
    assert_eq!(pairs(&once), pairs(&twice));
}

#[test]
fn bisection_keeps_short_terms() {
    let input = vec![sym(4, 3, 1, 2), sym(2, 1, 1, 1), sym(3, 0, 0, 0)];
    let r = halve_symbolic_sums(&input, 8);
    let got: Vec<(BigUint, BigUint)> = r.iter().map(sym_value).collect();
    let want: Vec<(BigUint, BigUint)> = input.iter().rev().map(sym_value).collect();
    assert_eq!(got, want);
}

#[test]
fn two_thirds_has_only_unit_fractions() {
    let fs = concrete(2, 3, &Options::default());
    assert!(fs.iter().all(|(n, d)| *n == u(1) && *d >= u(2)));
}
