use std::sync::Arc;

use calc24::backward::find_one;
use calc24::exhaustive::{build_all_possible, build_trees, select, Entry};
use calc24::expr::{Expr, Op};
use calc24::rational::Rational;

fn num(n: i64) -> Expr {
    Expr::Number(Rational::from_int(n))
}

fn deck_of(ns: &[i64]) -> Vec<Expr> {
    ns.iter().map(|&n| num(n)).collect()
}

fn rat_deck_of(ns: &[i64]) -> Vec<Rational> {
    ns.iter().map(|&n| Rational::from_int(n)).collect()
}

/// True when the expression tree contains no `Div` node whose right
/// operand evaluates to zero.
fn div_safe(e: &Expr) -> bool {
    match e {
        Expr::Number(_) => true,
        Expr::Operation(op) => match &**op {
            Op::Add(a, b) | Op::Sub(a, b) | Op::Mul(a, b) => div_safe(a) && div_safe(b),
            Op::Div(a, b) => {
                let bv = b.calc().expect("operands of returned trees evaluate");
                !bv.is_zero() && div_safe(a) && div_safe(b)
            }
        },
    }
}

#[test]
fn rational_arithmetic_is_exact() {
    // 1/3 + 1/6 == 1/2, exactly: a float-free check that addition is real
    let third = Rational::new(1, 3);
    let sixth = Rational::new(1, 6);
    let sum_expr = Expr::Operation(Arc::new(Op::Add(
        Expr::Number(third),
        Expr::Number(sixth),
    )));
    let v = sum_expr.calc().unwrap();
    assert!(v.eq_value(&Rational::new(1, 2)));
    assert!(!v.eq_value(&Rational::new(1, 3)));
}

#[test]
fn rational_value_equality_ignores_representation() {
    assert!(Rational::new(1, 2).eq_value(&Rational::new(2, 4)));
    assert!(Rational::new(-3, 6).eq_value(&Rational::new(-1, 2)));
    assert!(!Rational::new(1, 2).eq_value(&Rational::new(1, 3)));
    assert!(Rational::new(0, 7).is_zero());
    assert!(!Rational::from_int(5).is_zero());
}

#[test]
fn calc_handles_all_operators() {
    // (8 - 2) * 3 / 4 == 9/2
    let six = Expr::Operation(Arc::new(Op::Sub(num(8), num(2))));
    let eighteen = Expr::Operation(Arc::new(Op::Mul(six, num(3))));
    let e = Expr::Operation(Arc::new(Op::Div(eighteen, num(4))));
    let v = e.calc().unwrap();
    assert!(v.eq_value(&Rational::new(9, 2)));
}

#[test]
fn select_splits_by_mask() {
    let entries: Vec<Entry> = rat_deck_of(&[1, 2, 3])
        .into_iter()
        .map(|r| Entry { expr: Expr::Number(r), value: r })
        .collect();
    let (left, right) = select(&entries, 0b101);
    assert_eq!(left.len(), 2);
    assert_eq!(right.len(), 1);
    assert!(left[0].value.eq_value(&Rational::from_int(1)));
    assert!(left[1].value.eq_value(&Rational::from_int(3)));
    assert!(right[0].value.eq_value(&Rational::from_int(2)));
}

#[test]
fn build_all_possible_skips_zero_divisors() {
    let two = Entry { expr: num(2), value: Rational::from_int(2) };
    let zero = Entry { expr: num(0), value: Rational::from_int(0) };
    let combos = build_all_possible(&two, &zero);
    // sum, two differences, product, and 0/2; never 2/0
    assert_eq!(combos.len(), 5);
    for en in &combos {
        assert!(div_safe(&en.expr));
    }
    let both = build_all_possible(&two, &two);
    // 4, 0, 0, 4, 1, 1 as values; deduplication happens later, on insertion
    assert_eq!(both.len(), 6);
}

#[test]
fn scenario_four_five_six_seven_reaches_24() {
    let deck = deck_of(&[4, 5, 6, 7]);
    let target = Rational::from_int(24);
    let results = build_trees(&deck, &target, true);
    assert!(!results.is_empty());
    for en in &results {
        let v = en.expr.calc().unwrap();
        assert!(v.eq_value(&target));
        assert!(div_safe(&en.expr));
    }
}

#[test]
fn scenario_double_three_double_seven_backward() {
    let deck = rat_deck_of(&[3, 3, 7, 7]);
    let target = Rational::from_int(24);
    let sol = find_one(&deck, &target).expect("a solution exists");
    let v = sol.calc().unwrap();
    assert_eq!(v.numer, 24);
    assert_eq!(v.denom, 1);
    assert!(div_safe(&sol));
}

#[test]
fn scenario_fibonacci_prefix_reaches_24() {
    let deck = deck_of(&[1, 1, 2, 3, 5, 8]);
    let target = Rational::from_int(24);
    let results = build_trees(&deck, &target, true);
    assert!(!results.is_empty());
    for en in &results {
        assert!(en.expr.calc().unwrap().eq_value(&target));
        assert!(div_safe(&en.expr));
    }
}

#[test]
fn scenario_two_twos() {
    let deck = deck_of(&[2, 2]);
    let rdeck = rat_deck_of(&[2, 2]);
    let four = Rational::from_int(4);
    let five = Rational::from_int(5);
    assert!(!build_trees(&deck, &four, true).is_empty());
    assert!(find_one(&rdeck, &four).is_some());
    assert!(build_trees(&deck, &five, true).is_empty());
    assert!(find_one(&rdeck, &five).is_none());
}

#[test]
fn backward_finds_known_solutions_on_small_decks() {
    let cases: [(&[i64], i64); 5] = [
        (&[2, 3], 6),
        (&[2, 3], 5),
        (&[1, 5, 5, 5], 24),
        (&[4, 5, 6, 7], 24),
        (&[3, 3, 8, 8], 24),
    ];
    for (ns, t) in cases {
        let deck = deck_of(ns);
        let rdeck = rat_deck_of(ns);
        let target = Rational::from_int(t);
        assert!(!build_trees(&deck, &target, true).is_empty());
        let sol = find_one(&rdeck, &target).expect("backward finds it too");
        assert!(sol.calc().unwrap().eq_value(&target));
    }
}

#[test]
fn backward_and_exhaustive_agree_on_solvability() {
    let cases: [(&[i64], i64); 6] = [
        (&[2, 2], 4),
        (&[2, 2], 5),
        (&[1, 1, 1, 1], 24),
        (&[1, 2, 3, 4], 24),
        (&[6, 6], 36),
        (&[7, 7, 1], 50),
    ];
    for (ns, t) in cases {
        let deck = deck_of(ns);
        let rdeck = rat_deck_of(ns);
        let target = Rational::from_int(t);
        let exhaustive_found = !build_trees(&deck, &target, true).is_empty();
        let backward_found = find_one(&rdeck, &target).is_some();
        assert_eq!(exhaustive_found, backward_found);
    }
}

#[test]
fn exhaustive_search_is_idempotent() {
    let deck = deck_of(&[2, 5, 7]);
    let target = Rational::from_int(24);
    let first = build_trees(&deck, &target, false);
    let second = build_trees(&deck, &target, false);
    assert_eq!(first.len(), second.len());
    for en in &first {
        assert!(second.iter().any(|other| other.value.eq_value(&en.value)));
    }
    for en in &second {
        assert!(first.iter().any(|other| other.value.eq_value(&en.value)));
    }
}

#[test]
fn result_sets_are_deduplicated_by_value() {
    let deck = deck_of(&[1, 2, 3]);
    let target = Rational::from_int(6);
    let all = build_trees(&deck, &target, false);
    for (i, en) in all.iter().enumerate() {
        for other in &all[i + 1..] {
            assert!(!en.value.eq_value(&other.value));
        }
        assert!(div_safe(&en.expr));
    }
    // the filtered set keeps at most one witness per value
    let filtered = build_trees(&deck, &target, true);
    assert_eq!(filtered.len(), 1);
}

#[test]
fn single_card_deck_is_exact() {
    let rdeck = rat_deck_of(&[24]);
    assert!(find_one(&rdeck, &Rational::from_int(24)).is_some());
    assert!(find_one(&rdeck, &Rational::from_int(23)).is_none());
    let deck = deck_of(&[24]);
    assert!(!build_trees(&deck, &Rational::from_int(24), true).is_empty());
    assert!(build_trees(&deck, &Rational::from_int(23), true).is_empty());
}
