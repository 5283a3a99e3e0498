//! Backward, target-directed search: pick a number out of the deck, invert
//! each operator to transform the target into a new sub-target, and recurse
//! on the remainder until one number is left. Returns the first solution
//! found. For decks of exactly four numbers it additionally tries splitting
//! them into two pairs and pre-combining one pair into a sub-expression.

use vstd::prelude::*;
use vstd::multiset::Multiset;
use std::sync::Arc;
use crate::rational::{Rational, val_eq, val_add, val_sub, val_mul, val_div, rat_of,
    add_raw, sub_raw, mul_raw, div_result,
    lemma_val_eq_trans, lemma_val_eq_nonzero, lemma_val_add_congr, lemma_val_sub_congr,
    lemma_val_mul_congr, lemma_val_div_congr};
use crate::expr::{Expr, Op, expr_val, expr_wf, leaves, lemma_wf_denom};
use crate::exhaustive::{Entry, entry_wf, entry_vals, build_all_possible, combo_vals};

verus! {

/// The largest deck the backward engine accepts; the search is
/// super-exponential, so anything larger is treated as a caller fault.
pub const MAX_BACKWARD_DECK: usize = 16;

/// The multiset of number leaves standing for a deck of rationals.
pub open spec fn number_leaves(s: Seq<Rational>) -> Multiset<Expr>
    decreases s.len(),
{
    if s.len() <= 0 {
        Multiset::empty()
    } else {
        Multiset::empty().insert(Expr::Number(s[0])).add(number_leaves(s.drop_first()))
    }
}

proof fn lemma_number_leaves_remove(s: Seq<Rational>, i: int)
    requires
        0 <= i < s.len(),
    ensures
        number_leaves(s) == Multiset::empty().insert(Expr::Number(s[i])).add(
            number_leaves(s.remove(i))),
    decreases s.len(),
{
    if i == 0 {
        assert(s.remove(0) =~= s.drop_first());
    } else {
        assert(s.remove(i).drop_first() =~= s.drop_first().remove(i - 1));
        lemma_number_leaves_remove(s.drop_first(), i - 1);
        assert(number_leaves(s) =~= Multiset::empty().insert(Expr::Number(s[i])).add(
            number_leaves(s.remove(i))));
    }
}

/// Whether some inversion rule succeeds for the picked value `p` against
/// the remainder: each rule turns the target into a sub-target by one
/// checked operation and asks the remainder for it.
pub open spec fn rules_ok(p: Rational, rem: Seq<Rational>, t: Rational) -> bool
    decreases rem.len(), 3int,
{
    ||| (add_raw(p.v(), t.v()) matches Some(q) && find_ok(rem, rat_of(q)))
    ||| (sub_raw(p.v(), t.v()) matches Some(q) && find_ok(rem, rat_of(q)))
    ||| (sub_raw(t.v(), p.v()) matches Some(q) && find_ok(rem, rat_of(q)))
    ||| (p.numer != 0 && (mul_raw(p.v(), t.v()) matches Some(q) && find_ok(rem, rat_of(
        q))))
    ||| (p.numer != 0 && t.numer != 0 && (div_result(p.v(), t.v()) matches Some(q)
        && find_ok(rem, rat_of(q))))
    ||| (p.numer != 0 && (div_result(t.v(), p.v()) matches Some(q) && find_ok(rem, rat_of(
        q))))
}

/// Whether one pair split of a four-card deck succeeds: the first pair is
/// pre-combined into each candidate value, which is then played against
/// the remaining pair.
pub open spec fn pair_ok(deck: Seq<Rational>, t: Rational, j: int, k0: int, k1: int) -> bool
    decreases deck.len(), 0int,
{
    deck.len() == 4 && 1 <= j < 4 && exists|c: int| 0 <= c < combo_vals(deck[0],
        deck[j]).len() && rules_ok(#[trigger] combo_vals(deck[0], deck[j])[c], seq![
        deck[k0], deck[k1]], t)
}

/// Whether the pair heuristic succeeds on a four-card deck.
pub open spec fn pick2_ok(deck: Seq<Rational>, t: Rational) -> bool
    decreases deck.len(), 1int,
{
    ||| pair_ok(deck, t, 1, 2, 3)
    ||| pair_ok(deck, t, 2, 1, 3)
    ||| pair_ok(deck, t, 3, 1, 2)
}

/// Whether the backward search finds a solution: a single card succeeds
/// exactly when it denotes the target; otherwise some pick of one card
/// succeeds, or, for four cards, the pair heuristic does.
pub open spec fn find_ok(deck: Seq<Rational>, t: Rational) -> bool
    decreases deck.len(), 2int,
{
    if deck.len() <= 1 {
        deck.len() == 1 && val_eq(deck[0].v(), t.v())
    } else {
        (exists|i: int| 0 <= i < deck.len() && rules_ok(#[trigger] deck[i], deck.remove(i),
            t)) || (deck.len() == 4 && pick2_ok(deck, t))
    }
}

/// The chained value-equality steps behind each inversion rule: an
/// expression built over the recursive result `R` (value `t2`) and the
/// picked value `p` denotes the original target `t`.
proof fn lemma_wrap(er: (int, int), ep: (int, int), t2: Rational, p: Rational, t: Rational, rule: int)
    requires
        p.wf(),
        t.wf(),
        t2.wf(),
        val_eq(er, t2.v()),
        val_eq(p.v(), ep),
        er.1 != 0,
        ep.1 != 0,
        0 <= rule <= 5,
        rule == 0 ==> val_eq(t2.v(), val_add(p.v(), t.v())),
        rule == 1 ==> val_eq(t2.v(), val_sub(p.v(), t.v())),
        rule == 2 ==> val_eq(t2.v(), val_sub(t.v(), p.v())),
        rule == 3 ==> val_eq(t2.v(), val_mul(p.v(), t.v())) && p.numer != 0,
        rule == 4 ==> val_eq(t2.v(), val_div(p.v(), t.v())) && p.numer != 0 && t.numer != 0,
        rule == 5 ==> val_eq(t2.v(), val_div(t.v(), p.v())) && p.numer != 0,
    ensures
        rule == 0 ==> val_eq(val_sub(er, ep), t.v()),
        rule == 1 ==> val_eq(val_sub(ep, er), t.v()),
        rule == 2 ==> val_eq(val_add(er, ep), t.v()),
        rule == 3 ==> val_eq(val_div(er, ep), t.v()) && ep.0 != 0,
        rule == 4 ==> val_eq(val_div(ep, er), t.v()) && er.0 != 0,
        rule == 5 ==> val_eq(val_mul(er, ep), t.v()) && ep.0 != 0,
{
    let pv = p.v();
    let tv = t.v();
    let a = pv.0;
    let b = pv.1;
    let c = tv.0;
    let d = tv.1;
    let t2n = t2.v().0;
    let t2d = t2.v().1;
    assert(pv == (a, b) && tv == (c, d));
    assert(t2d * b != 0 && b * t2d != 0) by (nonlinear_arith)
        requires
            t2d > 0,
            b > 0,
    ;
    lemma_val_eq_nonzero(p.v(), ep);
    if rule == 0 {
        lemma_val_sub_congr(er, t2.v(), ep, p.v());
        lemma_val_sub_congr(t2.v(), val_add(pv, tv), pv, pv);
        assert(val_sub(val_add(pv, tv), pv) == ((a * d + c * b) * b - a * (b * d), (b * d) * b));
        assert(((a * d + c * b) * b - a * (b * d)) * d == c * ((b * d) * b)) by (nonlinear_arith);
        assert((b * d) * b != 0) by (nonlinear_arith)
            requires
                b > 0,
                d > 0,
        ;
        lemma_val_eq_trans(val_sub(er, ep), val_sub(t2.v(), pv), val_sub(val_add(pv, tv), pv));
        lemma_val_eq_trans(val_sub(er, ep), val_sub(val_add(pv, tv), pv), tv);
    } else if rule == 1 {
        lemma_val_sub_congr(ep, p.v(), er, t2.v());
        lemma_val_sub_congr(pv, pv, t2.v(), val_sub(pv, tv));
        assert(val_sub(pv, val_sub(pv, tv)) == (a * (b * d) - (a * d - c * b) * b, b * (b * d)));
        assert((a * (b * d) - (a * d - c * b) * b) * d == c * (b * (b * d))) by (nonlinear_arith);
        assert(b * (b * d) != 0) by (nonlinear_arith)
            requires
                b > 0,
                d > 0,
        ;
        lemma_val_eq_trans(val_sub(ep, er), val_sub(pv, t2.v()), val_sub(pv, val_sub(pv, tv)));
        lemma_val_eq_trans(val_sub(ep, er), val_sub(pv, val_sub(pv, tv)), tv);
    } else if rule == 2 {
        lemma_val_add_congr(er, t2.v(), ep, p.v());
        lemma_val_add_congr(t2.v(), val_sub(tv, pv), pv, pv);
        assert(val_add(val_sub(tv, pv), pv) == ((c * b - a * d) * b + a * (d * b), (d * b) * b));
        assert(((c * b - a * d) * b + a * (d * b)) * d == c * ((d * b) * b)) by (nonlinear_arith);
        assert((d * b) * b != 0) by (nonlinear_arith)
            requires
                b > 0,
                d > 0,
        ;
        lemma_val_eq_trans(val_add(er, ep), val_add(t2.v(), pv), val_add(val_sub(tv, pv), pv));
        lemma_val_eq_trans(val_add(er, ep), val_add(val_sub(tv, pv), pv), tv);
    } else if rule == 3 {
        lemma_val_div_congr(er, t2.v(), ep, p.v());
        lemma_val_div_congr(t2.v(), val_mul(pv, tv), pv, pv);
        assert(val_div(val_mul(pv, tv), pv) == ((a * c) * b, (b * d) * a));
        assert(((a * c) * b) * d == c * ((b * d) * a)) by (nonlinear_arith);
        assert((b * d) * a != 0 && t2d * a != 0) by (nonlinear_arith)
            requires
                b > 0,
                d > 0,
                a != 0,
                t2d > 0,
        ;
        lemma_val_eq_trans(val_div(er, ep), val_div(t2.v(), pv), val_div(val_mul(pv, tv), pv));
        lemma_val_eq_trans(val_div(er, ep), val_div(val_mul(pv, tv), pv), tv);
    } else if rule == 4 {
        lemma_val_div_congr(ep, p.v(), er, t2.v());
        lemma_val_div_congr(pv, pv, t2.v(), val_div(pv, tv));
        assert(val_div(pv, val_div(pv, tv)) == (a * (b * c), b * (a * d)));
        assert((a * (b * c)) * d == c * (b * (a * d))) by (nonlinear_arith);
        assert(a * d != 0 && b * c != 0 && b * (a * d) != 0) by (nonlinear_arith)
            requires
                a != 0,
                c != 0,
                b > 0,
                d > 0,
        ;
        assert(val_div(pv, tv) == (a * d, b * c));
        lemma_val_eq_nonzero(t2.v(), val_div(pv, tv));
        assert(t2n != 0);
        lemma_val_eq_nonzero(er, t2.v());
        assert(b * t2n != 0) by (nonlinear_arith)
            requires
                b > 0,
                t2n != 0,
        ;
        lemma_val_eq_trans(val_div(ep, er), val_div(pv, t2.v()), val_div(pv, val_div(pv, tv)));
        lemma_val_eq_trans(val_div(ep, er), val_div(pv, val_div(pv, tv)), tv);
    } else {
        lemma_val_mul_congr(er, t2.v(), ep, p.v());
        lemma_val_mul_congr(t2.v(), val_div(tv, pv), pv, pv);
        assert(val_mul(val_div(tv, pv), pv) == ((c * b) * a, (d * a) * b));
        assert(((c * b) * a) * d == c * ((d * a) * b)) by (nonlinear_arith);
        assert((d * a) * b != 0) by (nonlinear_arith)
            requires
                b > 0,
                d > 0,
                a != 0,
        ;
        lemma_val_eq_trans(val_mul(er, ep), val_mul(t2.v(), pv), val_mul(val_div(tv, pv), pv));
        lemma_val_eq_trans(val_mul(er, ep), val_mul(val_div(tv, pv), pv), tv);
    }
}

/// The deck with the element at `i` taken out; order is otherwise kept.
fn remove_at(deck: &Vec<Rational>, i: usize) -> (r: Vec<Rational>)
    requires
        i < deck@.len(),
        forall|k: int| 0 <= k < deck@.len() ==> (#[trigger] deck@[k]).wf(),
    ensures
        r@ == deck@.remove(i as int),
        forall|k: int| 0 <= k < r@.len() ==> (#[trigger] r@[k]).wf(),
{
    let mut r: Vec<Rational> = Vec::new();
    let mut j: usize = 0;
    while j < deck.len()
        invariant
            i < deck@.len(),
            j <= deck@.len(),
            forall|k: int| 0 <= k < deck@.len() ==> (#[trigger] deck@[k]).wf(),
            forall|k: int| 0 <= k < r@.len() ==> (#[trigger] r@[k]).wf(),
            r@ == if j <= i {
                deck@.subrange(0, j as int)
            } else {
                deck@.subrange(0, i as int) + deck@.subrange(i as int + 1, j as int)
            },
        decreases deck@.len() - j,
    {
        if j != i {
            r.push(deck[j]);
        }
        proof {
            if j < i {
                assert(r@ =~= deck@.subrange(0, (j + 1) as int));
            } else if j == i {
                assert(r@ =~= deck@.subrange(0, i as int) + deck@.subrange(i as int + 1,
                    (j + 1) as int));
            } else {
                assert(r@ =~= deck@.subrange(0, i as int) + deck@.subrange(i as int + 1,
                    (j + 1) as int));
            }
        }
        j = j + 1;
    }
    proof {
        assert(r@ =~= deck@.remove(i as int));
    }
    r
}

/// Tries the six inversion rules for one picked sub-expression against the
/// remainder of the deck: it succeeds exactly when some rule's sub-target
/// is searchable ([`rules_ok`]). A success denotes exactly the target and
/// uses the picked expression's leaves plus the remainder's numbers, each
/// once.
fn try_rules(picked: &Entry, remainder: &Vec<Rational>, target: &Rational) -> (res: Option<Expr>)
    requires
        entry_wf(*picked),
        1 <= remainder@.len(),
        forall|k: int| 0 <= k < remainder@.len() ==> (#[trigger] remainder@[k]).wf(),
        target.wf(),
    ensures
        res matches Some(e) ==> expr_wf(e) && val_eq(expr_val(e), target.v()) && leaves(e)
            == leaves(picked.expr).add(number_leaves(remainder@)),
        res is Some <==> rules_ok(picked.value, remainder@, *target),
    decreases remainder@.len(), 2int,
{
    let p = picked.value;
    let ghost ok0 = (add_raw(p.v(), target.v()) matches Some(q) && find_ok(remainder@,
        rat_of(q)));
    let ghost ok1 = (sub_raw(p.v(), target.v()) matches Some(q) && find_ok(remainder@,
        rat_of(q)));
    let ghost ok2 = (sub_raw(target.v(), p.v()) matches Some(q) && find_ok(remainder@,
        rat_of(q)));
    let ghost ok3 = (mul_raw(p.v(), target.v()) matches Some(q) && find_ok(remainder@,
        rat_of(q)));
    let ghost ok4 = (div_result(p.v(), target.v()) matches Some(q) && find_ok(remainder@,
        rat_of(q)));
    let ghost ok5 = (div_result(target.v(), p.v()) matches Some(q) && find_ok(remainder@,
        rat_of(q)));
    proof {
        lemma_wf_denom(picked.expr);
    }
    // sub-target p + t; a solution R gives R - p == t
    if let Some(t2) = p.checked_add(target) {
        proof {
            assert(rat_of(t2.v()) == t2);
        }
        if let Some(rexp) = find_rec(remainder, &t2) {
            proof {
                lemma_wf_denom(rexp);
                lemma_wrap(expr_val(rexp), expr_val(picked.expr), t2, p, *target, 0);
                assert(rules_ok(p, remainder@, *target));
            }
            let e = Expr::Operation(Arc::new(Op::Sub(rexp, picked.expr.clone())));
            proof {
                assert(leaves(e) =~= leaves(picked.expr).add(number_leaves(remainder@)));
            }
            return Some(e);
        }
        proof {
            assert(!ok0);
        }
    } else {
        proof {
            assert(!ok0);
        }
    }
    // sub-target p - t; a solution R gives p - R == t
    if let Some(t2) = p.checked_sub(target) {
        proof {
            assert(rat_of(t2.v()) == t2);
        }
        if let Some(rexp) = find_rec(remainder, &t2) {
            proof {
                lemma_wf_denom(rexp);
                lemma_wrap(expr_val(rexp), expr_val(picked.expr), t2, p, *target, 1);
                assert(rules_ok(p, remainder@, *target));
            }
            let e = Expr::Operation(Arc::new(Op::Sub(picked.expr.clone(), rexp)));
            proof {
                assert(leaves(e) =~= leaves(picked.expr).add(number_leaves(remainder@)));
            }
            return Some(e);
        }
        proof {
            assert(!ok1);
        }
    } else {
        proof {
            assert(!ok1);
        }
    }
    // sub-target t - p; a solution R gives R + p == t
    if let Some(t2) = target.checked_sub(&p) {
        proof {
            assert(rat_of(t2.v()) == t2);
        }
        if let Some(rexp) = find_rec(remainder, &t2) {
            proof {
                lemma_wf_denom(rexp);
                lemma_wrap(expr_val(rexp), expr_val(picked.expr), t2, p, *target, 2);
                assert(rules_ok(p, remainder@, *target));
            }
            let e = Expr::Operation(Arc::new(Op::Add(rexp, picked.expr.clone())));
            proof {
                assert(leaves(e) =~= leaves(picked.expr).add(number_leaves(remainder@)));
            }
            return Some(e);
        }
        proof {
            assert(!ok2);
        }
    } else {
        proof {
            assert(!ok2);
        }
    }
    if !p.is_zero() {
        // sub-target p * t; a solution R gives R / p == t
        if let Some(t2) = p.checked_mul(target) {
            proof {
                assert(rat_of(t2.v()) == t2);
            }
            if let Some(rexp) = find_rec(remainder, &t2) {
                proof {
                    lemma_wf_denom(rexp);
                    lemma_wrap(expr_val(rexp), expr_val(picked.expr), t2, p, *target, 3);
                    lemma_val_eq_nonzero(p.v(), expr_val(picked.expr));
                    assert(rules_ok(p, remainder@, *target));
                }
                let e = Expr::Operation(Arc::new(Op::Div(rexp, picked.expr.clone())));
                proof {
                    assert(leaves(e) =~= leaves(picked.expr).add(number_leaves(
                        remainder@)));
                }
                return Some(e);
            }
            proof {
                assert(!ok3);
            }
        } else {
            proof {
                assert(!ok3);
            }
        }
        // sub-target p / t; a solution R gives p / R == t
        if !target.is_zero() {
            if let Some(t2) = p.div_exact(target) {
                proof {
                    assert(rat_of(t2.v()) == t2);
                }
                if let Some(rexp) = find_rec(remainder, &t2) {
                    proof {
                        lemma_wf_denom(rexp);
                        lemma_wrap(expr_val(rexp), expr_val(picked.expr), t2, p, *target,
                            4);
                        lemma_val_eq_nonzero(expr_val(rexp), t2.v());
                        assert(rules_ok(p, remainder@, *target));
                    }
                    let e = Expr::Operation(Arc::new(Op::Div(picked.expr.clone(), rexp)));
                    proof {
                        assert(leaves(e) =~= leaves(picked.expr).add(number_leaves(
                            remainder@)));
                    }
                    return Some(e);
                }
                proof {
                    assert(!ok4);
                }
            } else {
                proof {
                    assert(!ok4);
                }
            }
        }
        // sub-target t / p; a solution R gives R * p == t
        if let Some(t2) = target.div_exact(&p) {
            proof {
                assert(rat_of(t2.v()) == t2);
            }
            if let Some(rexp) = find_rec(remainder, &t2) {
                proof {
                    lemma_wf_denom(rexp);
                    lemma_wrap(expr_val(rexp), expr_val(picked.expr), t2, p, *target, 5);
                    assert(rules_ok(p, remainder@, *target));
                }
                let e = Expr::Operation(Arc::new(Op::Mul(rexp, picked.expr.clone())));
                proof {
                    assert(leaves(e) =~= leaves(picked.expr).add(number_leaves(
                        remainder@)));
                }
                return Some(e);
            }
            proof {
                assert(!ok5);
            }
        } else {
            proof {
                assert(!ok5);
            }
        }
    }
    proof {
        assert(!rules_ok(p, remainder@, *target));
    }
    None
}

fn find_rec(deck: &Vec<Rational>, target: &Rational) -> (res: Option<Expr>)
    requires
        1 <= deck@.len(),
        forall|k: int| 0 <= k < deck@.len() ==> (#[trigger] deck@[k]).wf(),
        target.wf(),
    ensures
        res matches Some(e) ==> expr_wf(e) && val_eq(expr_val(e), target.v()) && leaves(e)
            == number_leaves(deck@),
        res is Some <==> find_ok(deck@, *target),
        deck@.len() == 1 ==> (res is Some <==> val_eq(deck@[0].v(), target.v())),
    decreases deck@.len(), 1int,
{
    if deck.len() == 1 {
        if deck[0].eq_value(target) {
            let e = Expr::Number(deck[0]);
            proof {
                assert(number_leaves(deck@.drop_first()) =~= Multiset::<Expr>::empty());
                assert(leaves(e) =~= number_leaves(deck@));
            }
            Some(e)
        } else {
            None
        }
    } else {
        let mut i: usize = 0;
        while i < deck.len()
            invariant
                2 <= deck@.len(),
                i <= deck@.len(),
                forall|k: int| 0 <= k < deck@.len() ==> (#[trigger] deck@[k]).wf(),
                target.wf(),
                forall|m: int| 0 <= m < i ==> !rules_ok(#[trigger] deck@[m],
                    deck@.remove(m), *target),
            decreases deck@.len() - i,
        {
            let picked = deck[i];
            let remainder = remove_at(deck, i);
            let pent = Entry { expr: Expr::Number(picked), value: picked };
            if let Some(sol) = try_rules(&pent, &remainder, target) {
                proof {
                    lemma_number_leaves_remove(deck@, i as int);
                    assert(leaves(sol) =~= number_leaves(deck@));
                    assert(find_ok(deck@, *target));
                }
                return Some(sol);
            }
            i = i + 1;
        }
        if deck.len() == 4 {
            if let Some(sol) = pick_two(deck, target) {
                proof {
                    assert(find_ok(deck@, *target));
                }
                return Some(sol);
            }
            proof {
                assert(!find_ok(deck@, *target));
            }
            return None;
        }
        proof {
            assert(!find_ok(deck@, *target));
        }
        None
    }
}

/// The pair heuristic for four-element decks: split the deck into two
/// pairs, pre-combine one pair into a sub-expression, and run the
/// inversion rules with that sub-expression as the picked value over the
/// other pair, against the caller's target — deliberately the caller's,
/// not a fixed constant. Succeeds exactly when [`pick2_ok`] holds.
#[verifier::rlimit(80)]
fn pick_two(deck: &Vec<Rational>, target: &Rational) -> (res: Option<Expr>)
    requires
        deck@.len() == 4,
        forall|k: int| 0 <= k < deck@.len() ==> (#[trigger] deck@[k]).wf(),
        target.wf(),
    ensures
        res matches Some(e) ==> expr_wf(e) && val_eq(expr_val(e), target.v()) && leaves(e)
            == number_leaves(deck@),
        res is Some <==> pick2_ok(deck@, *target),
    decreases deck@.len(), 0int,
{
    let mut split: usize = 0;
    while split < 3
        invariant
            deck@.len() == 4,
            forall|k: int| 0 <= k < deck@.len() ==> (#[trigger] deck@[k]).wf(),
            target.wf(),
            split <= 3,
            split >= 1 ==> !pair_ok(deck@, *target, 1, 2, 3),
            split >= 2 ==> !pair_ok(deck@, *target, 2, 1, 3),
            split >= 3 ==> !pair_ok(deck@, *target, 3, 1, 2),
        decreases 3 - split,
    {
        let (j, k0, k1) = if split == 0 {
            (1usize, 2usize, 3usize)
        } else if split == 1 {
            (2usize, 1usize, 3usize)
        } else {
            (3usize, 1usize, 2usize)
        };
        let a = Entry { expr: Expr::Number(deck[0]), value: deck[0] };
        let b = Entry { expr: Expr::Number(deck[j]), value: deck[j] };
        let mut rest: Vec<Rational> = Vec::new();
        rest.push(deck[k0]);
        rest.push(deck[k1]);
        let cands = build_all_possible(&a, &b);
        let ghost cvals = combo_vals(deck@[0], deck@[j as int]);
        proof {
            assert(entry_vals(cands@) == cvals);
            assert(rest@ =~= seq![deck@[k0 as int], deck@[k1 as int]]);
            reveal_with_fuel(number_leaves, 6);
            assert(number_leaves(rest@) =~= Multiset::empty().insert(Expr::Number(
                rest@[0])).insert(Expr::Number(rest@[1])));
            assert(number_leaves(deck@) =~= Multiset::empty().insert(Expr::Number(
                deck@[0])).insert(Expr::Number(deck@[1])).insert(Expr::Number(
                deck@[2])).insert(Expr::Number(deck@[3])));
            assert(leaves(a.expr).add(leaves(b.expr)).add(number_leaves(rest@))
                =~= number_leaves(deck@));
        }
        let mut c: usize = 0;
        while c < cands.len()
            invariant
                deck@.len() == 4,
                forall|m: int| 0 <= m < deck@.len() ==> (#[trigger] deck@[m]).wf(),
                target.wf(),
                c <= cands@.len(),
                1 <= j < 4,
                (j == 1 && k0 == 2 && k1 == 3) || (j == 2 && k0 == 1 && k1 == 3) || (j
                    == 3 && k0 == 1 && k1 == 2),
                rest@.len() == 2,
                rest@[0].wf() && rest@[1].wf(),
                cvals == combo_vals(deck@[0], deck@[j as int]),
                cvals == entry_vals(cands@),
                rest@ == seq![deck@[k0 as int], deck@[k1 as int]],
                forall|m: int| 0 <= m < cands@.len() ==> entry_wf(#[trigger] cands@[m])
                    && leaves(cands@[m].expr) == leaves(a.expr).add(leaves(b.expr)),
                leaves(a.expr).add(leaves(b.expr)).add(number_leaves(rest@))
                    == number_leaves(deck@),
                forall|m: int| 0 <= m < c ==> !rules_ok(#[trigger] cvals[m], rest@,
                    *target),
            decreases cands@.len() - c,
        {
            if let Some(sol) = try_rules(&cands[c], &rest, target) {
                proof {
                    assert(leaves(sol) =~= number_leaves(deck@));
                    assert(cands@[c as int].value == cvals[c as int]);
                    assert(rules_ok(cvals[c as int], rest@, *target));
                    assert(pair_ok(deck@, *target, j as int, k0 as int, k1 as int));
                    assert(pick2_ok(deck@, *target));
                }
                return Some(sol);
            }
            proof {
                assert(cands@[c as int].value == cvals[c as int]);
            }
            c = c + 1;
        }
        proof {
            assert(!pair_ok(deck@, *target, j as int, k0 as int, k1 as int));
        }
        split = split + 1;
    }
    proof {
        assert(!pick2_ok(deck@, *target));
    }
    None
}

/// Finds one expression over the whole deck that denotes the target, or
/// reports that it found none: a solution comes back exactly when the
/// backward search relation [`find_ok`] holds of the deck and target. For
/// a single-card deck that means: a solution exists iff that card denotes
/// the target.
pub fn find_one(deck: &Vec<Rational>, target: &Rational) -> (res: Option<Expr>)
    requires
        1 <= deck@.len() <= MAX_BACKWARD_DECK,
        forall|k: int| 0 <= k < deck@.len() ==> (#[trigger] deck@[k]).wf(),
        target.wf(),
    ensures
        res matches Some(e) ==> expr_wf(e) && val_eq(expr_val(e), target.v()) && leaves(e)
            == number_leaves(deck@),
        res is Some <==> find_ok(deck@, *target),
        deck@.len() == 1 ==> (res is Some <==> val_eq(deck@[0].v(), target.v())),
{
    find_rec(deck, target)
}

} // verus!
