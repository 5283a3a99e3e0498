//! Exhaustive bottom-up search: for every bipartition of the deck, combine
//! every value reachable from the left half with every value reachable from
//! the right half under all four operators, and keep one witness expression
//! per distinct reachable value.
//!
//! Results are deduplicated by evaluated value, not by shape: two
//! expressions that compute the same rational collapse to the one inserted
//! first. The result set is therefore bounded by the number of distinct
//! reachable values.

use vstd::prelude::*;
use vstd::multiset::Multiset;
use vstd::arithmetic::power2::{pow2, lemma_pow2_strictly_increases, lemma2_to64};
use vstd::bits::{lemma_u64_shl_is_mul, lemma_u64_pow2_no_overflow};
use std::sync::Arc;
use crate::rational::{Rational, val_eq, lemma_val_eq_trans, lemma_val_eq_nonzero,
    rat_of, add_raw, sub_raw, mul_raw, div_result};
use crate::expr::{Expr, Op, expr_val, expr_wf, leaves, lemma_wf_denom, lemma_calc_op};

verus! {

/// A search result: an expression together with its evaluated value, kept
/// beside it so that deduplication and filtering never re-walk the tree.
pub struct Entry {
    pub expr: Expr,
    pub value: Rational,
}

/// An entry is well formed when its expression is, and its cached value
/// denotes exactly the expression's value.
pub open spec fn entry_wf(en: Entry) -> bool {
    en.value.wf() && expr_wf(en.expr) && val_eq(en.value.v(), expr_val(en.expr))
}

impl Clone for Entry {
    /// Clones share the underlying expression nodes.
    fn clone(&self) -> (res: Self)
        ensures
            res == *self,
    {
        Entry { expr: self.expr.clone(), value: self.value }
    }
}

/// The combined leaf multiset of a sequence of expressions.
pub open spec fn deck_leaves(s: Seq<Expr>) -> Multiset<Expr>
    decreases s.len(),
{
    if s.len() <= 0 {
        Multiset::empty()
    } else {
        leaves(s[0]).add(deck_leaves(s.drop_first()))
    }
}

/// The combined leaf multiset of a sequence of entries.
pub open spec fn entries_leaves(s: Seq<Entry>) -> Multiset<Expr>
    decreases s.len(),
{
    if s.len() <= 0 {
        Multiset::empty()
    } else {
        leaves(s[0].expr).add(entries_leaves(s.drop_first()))
    }
}

/// The values carried by a sequence of entries, in order.
pub open spec fn entry_vals(s: Seq<Entry>) -> Seq<Rational> {
    s.map_values(|en: Entry| en.value)
}

/// The value an optional checked result contributes: one element or none.
pub open spec fn opt_val_seq(o: Option<(int, int)>) -> Seq<Rational> {
    match o {
        Some(p) => seq![rat_of(p)],
        None => Seq::empty(),
    }
}

/// The values of the candidate combinations of two results, in the order
/// they are synthesized: sum, both differences, product, and each quotient
/// whose divisor is not zero; a combination that does not fit in 64 bits
/// contributes nothing.
pub open spec fn combo_vals(x: Rational, y: Rational) -> Seq<Rational> {
    opt_val_seq(add_raw(x.v(), y.v())) + opt_val_seq(sub_raw(x.v(), y.v())) + opt_val_seq(
        sub_raw(y.v(), x.v())) + opt_val_seq(mul_raw(x.v(), y.v())) + (if y.numer != 0 {
        opt_val_seq(div_result(x.v(), y.v()))
    } else {
        Seq::empty()
    }) + (if x.numer != 0 {
        opt_val_seq(div_result(y.v(), x.v()))
    } else {
        Seq::empty()
    })
}

/// Whether some element of the sequence denotes the given value.
pub open spec fn has_val(s: Seq<Rational>, v: Rational) -> bool {
    exists|i: int| 0 <= i < s.len() && val_eq(s[i].v(), v.v())
}

/// Value-deduplicating insertion: the sequence unchanged when the value is
/// already present, else the value appended.
pub open spec fn insert_val(s: Seq<Rational>, v: Rational) -> Seq<Rational> {
    if has_val(s, v) {
        s
    } else {
        s.push(v)
    }
}

/// The elements of the first `n` values whose mask bit is set, in order.
pub open spec fn lv(vals: Seq<Rational>, bitset: u64, n: int) -> Seq<Rational>
    decreases n,
{
    if n <= 0 {
        Seq::empty()
    } else if nth_bit(bitset, n - 1) {
        lv(vals, bitset, n - 1).push(vals[n - 1])
    } else {
        lv(vals, bitset, n - 1)
    }
}

/// The elements of the first `n` values whose mask bit is clear, in order.
pub open spec fn rv(vals: Seq<Rational>, bitset: u64, n: int) -> Seq<Rational>
    decreases n,
{
    if n <= 0 {
        Seq::empty()
    } else if nth_bit(bitset, n - 1) {
        rv(vals, bitset, n - 1)
    } else {
        rv(vals, bitset, n - 1).push(vals[n - 1])
    }
}

/// The accumulator after inserting, with value deduplication, every
/// candidate from position `ci` on.
pub open spec fn ins_from(acc: Seq<Rational>, cs: Seq<Rational>, ci: int) -> Seq<Rational>
    decreases cs.len() - ci,
{
    if ci < 0 || ci >= cs.len() {
        acc
    } else {
        ins_from(insert_val(acc, cs[ci]), cs, ci + 1)
    }
}

/// The accumulator after crossing the left result at `li` with every right
/// result from `ri` on.
pub open spec fn ri_fold(acc: Seq<Rational>, lt: Seq<Rational>, rt: Seq<Rational>, li: int, ri: int) -> Seq<Rational>
    decreases rt.len() - ri,
{
    if li < 0 || li >= lt.len() || ri < 0 || ri >= rt.len() {
        acc
    } else {
        ri_fold(ins_from(acc, combo_vals(lt[li], rt[ri]), 0), lt, rt, li, ri + 1)
    }
}

/// The accumulator after crossing every left result from `li` on with the
/// whole right result set.
pub open spec fn li_fold(acc: Seq<Rational>, lt: Seq<Rational>, rt: Seq<Rational>, li: int) -> Seq<Rational>
    decreases lt.len() - li,
{
    if li < 0 || li >= lt.len() {
        acc
    } else {
        li_fold(ri_fold(acc, lt, rt, li, 0), lt, rt, li + 1)
    }
}

/// The value set the search reaches from a deck of values: for a single
/// value the deck itself, else the fold of every bipartition mask over the
/// cross products of the halves' reachable values.
pub open spec fn search_vals(vals: Seq<Rational>) -> Seq<Rational>
    decreases vals.len(), pow2((vals.len() - 1) as nat) + 2,
{
    if vals.len() <= 1 {
        vals
    } else {
        masks_fold(Seq::empty(), vals, 1)
    }
}

/// The fold of `search_vals` over the masks from `mask` up to
/// `2^(len-1)`: each mask splits the values in two, the halves are
/// searched recursively, and every combination of their results is
/// inserted with value deduplication.
pub open spec fn masks_fold(acc: Seq<Rational>, vals: Seq<Rational>, mask: int) -> Seq<Rational>
    decreases vals.len(), pow2((vals.len() - 1) as nat) + 1 - mask,
{
    if vals.len() < 2 || vals.len() > 64 || mask < 1 || mask >= pow2(
        (vals.len() - 1) as nat) {
        acc
    } else {
        let lvs = lv(vals, mask as u64, vals.len() as int);
        let rvs = rv(vals, mask as u64, vals.len() as int);
        if 1 <= lvs.len() && 1 <= rvs.len() && lvs.len() < vals.len() && rvs.len()
            < vals.len() {
            masks_fold(li_fold(acc, search_vals(lvs), search_vals(rvs), 0), vals, mask + 1)
        } else {
            masks_fold(acc, vals, mask + 1)
        }
    }
}

/// No two entries denote the same value.
pub open spec fn distinct_values(s: Seq<Entry>) -> bool {
    forall|i: int, j: int| 0 <= i < j < s.len() ==> !val_eq(s[i].value.v(), s[j].value.v())
}

proof fn lemma_deck_leaves_push(s: Seq<Expr>, e: Expr)
    ensures
        deck_leaves(s.push(e)) == deck_leaves(s).add(leaves(e)),
    decreases s.len(),
{
    if s.len() == 0 {
        assert(s.push(e).drop_first() =~= s);
        assert(deck_leaves(s.push(e)) =~= deck_leaves(s).add(leaves(e)));
    } else {
        assert(s.push(e).drop_first() =~= s.drop_first().push(e));
        lemma_deck_leaves_push(s.drop_first(), e);
        assert(deck_leaves(s.push(e)) =~= deck_leaves(s).add(leaves(e)));
    }
}

proof fn lemma_entries_leaves_push(s: Seq<Entry>, en: Entry)
    ensures
        entries_leaves(s.push(en)) == entries_leaves(s).add(leaves(en.expr)),
    decreases s.len(),
{
    if s.len() == 0 {
        assert(s.push(en).drop_first() =~= s);
        assert(entries_leaves(s.push(en)) =~= entries_leaves(s).add(leaves(en.expr)));
    } else {
        assert(s.push(en).drop_first() =~= s.drop_first().push(en));
        lemma_entries_leaves_push(s.drop_first(), en);
        assert(entries_leaves(s.push(en)) =~= entries_leaves(s).add(leaves(en.expr)));
    }
}

/// Whether bit `i` of the mask is set.
pub open spec fn nth_bit(bitset: u64, i: int) -> bool {
    bitset & (1u64 << (i as u64)) != 0
}

/// The elements of the first `n` whose mask bit is set, in index order.
pub open spec fn left_sel(s: Seq<Entry>, bitset: u64, n: int) -> Seq<Entry>
    decreases n,
{
    if n <= 0 {
        Seq::empty()
    } else if nth_bit(bitset, n - 1) {
        left_sel(s, bitset, n - 1).push(s[n - 1])
    } else {
        left_sel(s, bitset, n - 1)
    }
}

/// The elements of the first `n` whose mask bit is clear, in index order.
pub open spec fn right_sel(s: Seq<Entry>, bitset: u64, n: int) -> Seq<Entry>
    decreases n,
{
    if n <= 0 {
        Seq::empty()
    } else if nth_bit(bitset, n - 1) {
        right_sel(s, bitset, n - 1)
    } else {
        right_sel(s, bitset, n - 1).push(s[n - 1])
    }
}

proof fn lemma_lv_map(s: Seq<Entry>, bitset: u64, n: int)
    requires
        0 <= n <= s.len(),
    ensures
        entry_vals(left_sel(s, bitset, n)) == lv(entry_vals(s), bitset, n),
        entry_vals(right_sel(s, bitset, n)) == rv(entry_vals(s), bitset, n),
    decreases n,
{
    if n > 0 {
        lemma_lv_map(s, bitset, n - 1);
        assert(entry_vals(s)[n - 1] == s[n - 1].value);
        assert(entry_vals(left_sel(s, bitset, n - 1).push(s[n - 1])) =~= entry_vals(
            left_sel(s, bitset, n - 1)).push(s[n - 1].value));
        assert(entry_vals(right_sel(s, bitset, n - 1).push(s[n - 1])) =~= entry_vals(
            right_sel(s, bitset, n - 1)).push(s[n - 1].value));
    } else {
        assert(entry_vals(left_sel(s, bitset, 0)) =~= Seq::<Rational>::empty());
        assert(entry_vals(right_sel(s, bitset, 0)) =~= Seq::<Rational>::empty());
    }
}

proof fn lemma_left_sel_empty(s: Seq<Entry>, bitset: u64, n: int)
    requires
        0 <= n,
        left_sel(s, bitset, n).len() == 0,
    ensures
        forall|i: int| 0 <= i < n ==> !nth_bit(bitset, i),
    decreases n,
{
    if n > 0 {
        lemma_left_sel_empty(s, bitset, n - 1);
    }
}

proof fn lemma_low_bits_zero(bitset: u64, n: int)
    requires
        0 <= n <= 63,
        bitset < pow2(n as nat),
        forall|i: int| 0 <= i < n ==> !nth_bit(bitset, i),
    ensures
        bitset == 0,
    decreases n,
{
    if n == 0 {
        lemma2_to64();
    } else {
        let sha: u64 = (n - 1) as u64;
        let shb: u64 = n as u64;
        lemma_u64_pow2_no_overflow(sha as nat);
        lemma_u64_shl_is_mul(1u64, sha);
        lemma_u64_pow2_no_overflow(shb as nat);
        lemma_u64_shl_is_mul(1u64, shb);
        assert(!nth_bit(bitset, n - 1));
        assert(bitset & (1u64 << sha) == 0);
        assert(bitset < (1u64 << sha)) by (bit_vector)
            requires
                bitset & (1u64 << sha) == 0,
                bitset < (1u64 << shb),
                shb == sha + 1,
                sha < 63u64,
        ;
        lemma_low_bits_zero(bitset, n - 1);
    }
}

/// A mask in the enumerated range `[1, 2^(len-1))` sends at least one
/// element left and always leaves the last element right: both halves of
/// the split are non-empty.
pub proof fn lemma_select_nonempty(s: Seq<Entry>, bitset: u64)
    requires
        2 <= s.len() <= 64,
        1 <= bitset,
        bitset < pow2((s.len() - 1) as nat),
    ensures
        left_sel(s, bitset, s.len() as int).len() >= 1,
        right_sel(s, bitset, s.len() as int).len() >= 1,
{
    let n = s.len() as int;
    let sh: u64 = (n - 1) as u64;
    lemma_u64_pow2_no_overflow(sh as nat);
    lemma_u64_shl_is_mul(1u64, sh);
    assert(bitset < (1u64 << sh));
    assert(bitset & (1u64 << sh) == 0) by (bit_vector)
        requires
            bitset < (1u64 << sh),
            sh < 64u64,
    ;
    assert(!nth_bit(bitset, n - 1));
    assert(right_sel(s, bitset, n) == right_sel(s, bitset, n - 1).push(s[n - 1]));
    if left_sel(s, bitset, n).len() == 0 {
        lemma_left_sel_empty(s, bitset, n);
        lemma_low_bits_zero(bitset, n - 1);
        assert(false);
    }
}

/// Splits a deck in two by a bit mask: element `i` goes left exactly when
/// bit `i` of the mask is set, right otherwise; both halves keep their
/// relative order, and together they carry exactly the deck's leaves. A
/// mask at or above `2^len` selects nothing that exists and is a caller
/// fault.
pub fn select(slice: &Vec<Entry>, bitset: u64) -> (r: (Vec<Entry>, Vec<Entry>))
    requires
        slice@.len() <= 64,
        bitset < pow2(slice@.len() as nat),
        forall|k: int| 0 <= k < slice@.len() ==> entry_wf(#[trigger] slice@[k]),
    ensures
        r.0@ == left_sel(slice@, bitset, slice@.len() as int),
        r.1@ == right_sel(slice@, bitset, slice@.len() as int),
        r.0@.len() + r.1@.len() == slice@.len(),
        forall|k: int| 0 <= k < r.0@.len() ==> entry_wf(#[trigger] r.0@[k]),
        forall|k: int| 0 <= k < r.1@.len() ==> entry_wf(#[trigger] r.1@[k]),
        entries_leaves(r.0@).add(entries_leaves(r.1@)) == entries_leaves(slice@),
{
    let n = slice.len();
    let mut left: Vec<Entry> = Vec::new();
    let mut right: Vec<Entry> = Vec::new();
    let mut i: usize = 0;
    proof {
        assert(entries_leaves(left@).add(entries_leaves(right@)) =~= entries_leaves(
            slice@.take(0int)));
    }
    while i < n
        invariant
            n == slice@.len(),
            n <= 64,
            i <= n,
            forall|k: int| 0 <= k < slice@.len() ==> entry_wf(#[trigger] slice@[k]),
            forall|k: int| 0 <= k < left@.len() ==> entry_wf(#[trigger] left@[k]),
            forall|k: int| 0 <= k < right@.len() ==> entry_wf(#[trigger] right@[k]),
            left@.len() + right@.len() == i,
            left@ == left_sel(slice@, bitset, i as int),
            right@ == right_sel(slice@, bitset, i as int),
            entries_leaves(left@).add(entries_leaves(right@)) == entries_leaves(
                slice@.take(i as int)),
        decreases n - i,
    {
        let en = (&slice[i]).clone();
        let ghost old_left = left@;
        let ghost old_right = right@;
        if bitset & (1u64 << (i as u64)) != 0 {
            left.push(en);
        } else {
            right.push(en);
        }
        proof {
            assert(slice@.take((i + 1) as int) =~= slice@.take(i as int).push(slice@[i as int]));
            lemma_entries_leaves_push(slice@.take(i as int), slice@[i as int]);
            if left@ != old_left {
                lemma_entries_leaves_push(old_left, slice@[i as int]);
            } else {
                lemma_entries_leaves_push(old_right, slice@[i as int]);
            }
            assert(entries_leaves(left@).add(entries_leaves(right@)) =~= entries_leaves(
                slice@.take((i + 1) as int)));
        }
        i = i + 1;
    }
    proof {
        assert(slice@.take(n as int) =~= slice@);
    }
    (left, right)
}

/// Synthesizes every admissible combination of two results: sum, both
/// differences, product, and both quotients, each quotient only when its
/// divisor is not zero. Combinations whose exact value does not fit in
/// 64 bits are left out.
pub fn build_all_possible(a: &Entry, b: &Entry) -> (r: Vec<Entry>)
    requires
        entry_wf(*a),
        entry_wf(*b),
    ensures
        forall|k: int| 0 <= k < r@.len() ==> entry_wf(#[trigger] r@[k]) && leaves(r@[k].expr)
            == leaves(a.expr).add(leaves(b.expr)),
        entry_vals(r@) == combo_vals(a.value, b.value),
{
    let ghost av = a.value;
    let ghost bv = b.value;
    let mut ret: Vec<Entry> = Vec::new();
    proof {
        lemma_wf_denom(a.expr);
        lemma_wf_denom(b.expr);
    }
    if let Some(s) = a.value.checked_add(&b.value) {
        proof {
            lemma_calc_op(expr_val(a.expr), expr_val(b.expr), a.value, b.value, s, 0);
        }
        ret.push(Entry {
            expr: Expr::Operation(Arc::new(Op::Add(a.expr.clone(), b.expr.clone()))),
            value: s,
        });
    }
    proof {
        assert(entry_vals(ret@) =~= opt_val_seq(add_raw(av.v(), bv.v())));
    }
    if let Some(s) = a.value.checked_sub(&b.value) {
        proof {
            lemma_calc_op(expr_val(a.expr), expr_val(b.expr), a.value, b.value, s, 1);
        }
        ret.push(Entry {
            expr: Expr::Operation(Arc::new(Op::Sub(a.expr.clone(), b.expr.clone()))),
            value: s,
        });
    }
    proof {
        assert(entry_vals(ret@) =~= opt_val_seq(add_raw(av.v(), bv.v())) + opt_val_seq(
            sub_raw(av.v(), bv.v())));
    }
    if let Some(s) = b.value.checked_sub(&a.value) {
        proof {
            lemma_calc_op(expr_val(b.expr), expr_val(a.expr), b.value, a.value, s, 1);
        }
        ret.push(Entry {
            expr: Expr::Operation(Arc::new(Op::Sub(b.expr.clone(), a.expr.clone()))),
            value: s,
        });
    }
    proof {
        assert(entry_vals(ret@) =~= opt_val_seq(add_raw(av.v(), bv.v())) + opt_val_seq(
            sub_raw(av.v(), bv.v())) + opt_val_seq(sub_raw(bv.v(), av.v())));
    }
    if let Some(s) = a.value.checked_mul(&b.value) {
        proof {
            lemma_calc_op(expr_val(a.expr), expr_val(b.expr), a.value, b.value, s, 2);
        }
        ret.push(Entry {
            expr: Expr::Operation(Arc::new(Op::Mul(a.expr.clone(), b.expr.clone()))),
            value: s,
        });
    }
    proof {
        assert(entry_vals(ret@) =~= opt_val_seq(add_raw(av.v(), bv.v())) + opt_val_seq(
            sub_raw(av.v(), bv.v())) + opt_val_seq(sub_raw(bv.v(), av.v())) + opt_val_seq(
            mul_raw(av.v(), bv.v())));
    }
    if !b.value.is_zero() {
        proof {
            lemma_val_eq_nonzero(b.value.v(), expr_val(b.expr));
        }
        if let Some(s) = a.value.div_exact(&b.value) {
            proof {
                lemma_calc_op(expr_val(a.expr), expr_val(b.expr), a.value, b.value, s, 3);
            }
            ret.push(Entry {
                expr: Expr::Operation(Arc::new(Op::Div(a.expr.clone(), b.expr.clone()))),
                value: s,
            });
        }
    }
    proof {
        assert(entry_vals(ret@) =~= opt_val_seq(add_raw(av.v(), bv.v())) + opt_val_seq(
            sub_raw(av.v(), bv.v())) + opt_val_seq(sub_raw(bv.v(), av.v())) + opt_val_seq(
            mul_raw(av.v(), bv.v())) + (if bv.numer != 0 {
            opt_val_seq(div_result(av.v(), bv.v()))
        } else {
            Seq::empty()
        }));
    }
    if !a.value.is_zero() {
        proof {
            lemma_val_eq_nonzero(a.value.v(), expr_val(a.expr));
        }
        if let Some(s) = b.value.div_exact(&a.value) {
            proof {
                lemma_calc_op(expr_val(b.expr), expr_val(a.expr), b.value, a.value, s, 3);
            }
            ret.push(Entry {
                expr: Expr::Operation(Arc::new(Op::Div(b.expr.clone(), a.expr.clone()))),
                value: s,
            });
        }
    }
    proof {
        assert(entry_vals(ret@) =~= combo_vals(av, bv));
        assert forall|k: int| 0 <= k < ret@.len() implies leaves(ret@[k].expr) == leaves(
            a.expr).add(leaves(b.expr)) by {
            assert(leaves(ret@[k].expr) =~= leaves(a.expr).add(leaves(b.expr)));
        }
    }
    ret
}

/// Inserts an entry unless a value-equal entry is already present,
/// keeping the set deduplicated by value.
fn insert_unique(res: &mut Vec<Entry>, en: Entry, Ghost(d): Ghost<Multiset<Expr>>)
    requires
        entry_wf(en),
        leaves(en.expr) == d,
        forall|k: int| 0 <= k < old(res)@.len() ==> entry_wf(#[trigger] old(res)@[k])
            && leaves(old(res)@[k].expr) == d,
        distinct_values(old(res)@),
    ensures
        forall|k: int| 0 <= k < final(res)@.len() ==> entry_wf(#[trigger] final(res)@[k])
            && leaves(final(res)@[k].expr) == d,
        distinct_values(final(res)@),
        entry_vals(final(res)@) == insert_val(entry_vals(old(res)@), en.value),
{
    let n = res.len();
    let mut k: usize = 0;
    while k < n
        invariant
            res@ == old(res)@,
            n == res@.len(),
            k <= n,
            entry_wf(en),
            leaves(en.expr) == d,
            forall|m: int| 0 <= m < res@.len() ==> entry_wf(#[trigger] res@[m]) && leaves(
                res@[m].expr) == d,
            distinct_values(res@),
            forall|m: int| 0 <= m < k ==> !val_eq(res@[m].value.v(), en.value.v()),
        decreases n - k,
    {
        if res[k].value.eq_value(&en.value) {
            proof {
                assert(val_eq(entry_vals(res@)[k as int].v(), en.value.v()));
                assert(has_val(entry_vals(res@), en.value));
            }
            return ;
        }
        k = k + 1;
    }
    proof {
        assert forall|i: int| 0 <= i < entry_vals(res@).len() implies !val_eq(
            (#[trigger] entry_vals(res@)[i]).v(), en.value.v()) by {
            assert(entry_vals(res@)[i] == res@[i].value);
        }
        assert(!has_val(entry_vals(res@), en.value));
    }
    let ghost old_vals = entry_vals(res@);
    res.push(en);
    proof {
        assert(entry_vals(res@) =~= old_vals.push(en.value));
    }
}

/// The recursive core: every distinct value reachable by combining all the
/// deck's entries, one witness entry per value.
fn search(deck: &Vec<Entry>) -> (res: Vec<Entry>)
    requires
        1 <= deck@.len() <= 64,
        forall|k: int| 0 <= k < deck@.len() ==> entry_wf(#[trigger] deck@[k]),
    ensures
        forall|k: int| 0 <= k < res@.len() ==> entry_wf(#[trigger] res@[k]) && leaves(
            res@[k].expr) == entries_leaves(deck@),
        distinct_values(res@),
        entry_vals(res@) == search_vals(entry_vals(deck@)),
        deck@.len() == 1 ==> res@.len() == 1 && res@[0] == deck@[0],
    decreases deck@.len(),
{
    let ghost d = entries_leaves(deck@);
    let ghost dv = entry_vals(deck@);
    let mut res: Vec<Entry> = Vec::new();
    if deck.len() == 1 {
        let en = (&deck[0]).clone();
        proof {
            assert(entries_leaves(deck@.drop_first()) =~= Multiset::<Expr>::empty());
            assert(leaves(en.expr) =~= entries_leaves(deck@));
        }
        res.push(en);
        proof {
            assert(entry_vals(res@) =~= entry_vals(deck@));
        }
        return res;
    }
    let n = deck.len();
    let sh: u64 = (n as u64) - 1;
    proof {
        lemma_u64_pow2_no_overflow(sh as nat);
        lemma_u64_shl_is_mul(1u64, sh);
        lemma_pow2_strictly_increases(sh as nat, n as nat);
    }
    let max_bitset: u64 = 1u64 << sh;
    let mut bitset: u64 = 1;
    proof {
        assert(entry_vals(res@) =~= Seq::<Rational>::empty());
    }
    while bitset < max_bitset
        invariant
            n == deck@.len(),
            2 <= n <= 64,
            1 <= bitset,
            max_bitset == pow2((n - 1) as nat),
            pow2((n - 1) as nat) < pow2(n as nat),
            d == entries_leaves(deck@),
            dv == entry_vals(deck@),
            forall|k: int| 0 <= k < deck@.len() ==> entry_wf(#[trigger] deck@[k]),
            forall|k: int| 0 <= k < res@.len() ==> entry_wf(#[trigger] res@[k]) && leaves(
                res@[k].expr) == d,
            distinct_values(res@),
            masks_fold(entry_vals(res@), dv, bitset as int) == masks_fold(
                Seq::<Rational>::empty(), dv, 1),
        decreases max_bitset - bitset,
    {
        let ghost r0 = entry_vals(res@);
        let (left, right) = select(deck, bitset);
        proof {
            lemma_select_nonempty(deck@, bitset);
            lemma_lv_map(deck@, bitset, n as int);
            assert(entry_vals(left@) == lv(dv, bitset, n as int));
            assert(entry_vals(right@) == rv(dv, bitset, n as int));
        }
        {
            let left_trees = search(&left);
            let right_trees = search(&right);
            let ghost ltv = entry_vals(left_trees@);
            let ghost rtv = entry_vals(right_trees@);
            proof {
                assert(ltv == search_vals(lv(dv, bitset, n as int)));
                assert(rtv == search_vals(rv(dv, bitset, n as int)));
                assert(masks_fold(r0, dv, bitset as int) == masks_fold(li_fold(r0, ltv,
                    rtv, 0), dv, bitset as int + 1));
            }
            let mut li: usize = 0;
            while li < left_trees.len()
                invariant
                    li <= left_trees@.len(),
                    ltv == entry_vals(left_trees@),
                    rtv == entry_vals(right_trees@),
                    forall|k: int| 0 <= k < left_trees@.len() ==> entry_wf(
                        #[trigger] left_trees@[k]) && leaves(left_trees@[k].expr)
                        == entries_leaves(left@),
                    forall|k: int| 0 <= k < right_trees@.len() ==> entry_wf(
                        #[trigger] right_trees@[k]) && leaves(right_trees@[k].expr)
                        == entries_leaves(right@),
                    entries_leaves(left@).add(entries_leaves(right@)) == d,
                    forall|k: int| 0 <= k < res@.len() ==> entry_wf(#[trigger] res@[k])
                        && leaves(res@[k].expr) == d,
                    distinct_values(res@),
                    li_fold(entry_vals(res@), ltv, rtv, li as int) == li_fold(r0, ltv, rtv,
                        0),
                decreases left_trees@.len() - li,
            {
                let ghost rli = entry_vals(res@);
                let mut ri: usize = 0;
                while ri < right_trees.len()
                    invariant
                        li < left_trees@.len(),
                        ri <= right_trees@.len(),
                        ltv == entry_vals(left_trees@),
                        rtv == entry_vals(right_trees@),
                        forall|k: int| 0 <= k < left_trees@.len() ==> entry_wf(
                            #[trigger] left_trees@[k]) && leaves(left_trees@[k].expr)
                            == entries_leaves(left@),
                        forall|k: int| 0 <= k < right_trees@.len() ==> entry_wf(
                            #[trigger] right_trees@[k]) && leaves(right_trees@[k].expr)
                            == entries_leaves(right@),
                        entries_leaves(left@).add(entries_leaves(right@)) == d,
                        forall|k: int| 0 <= k < res@.len() ==> entry_wf(#[trigger] res@[k])
                            && leaves(res@[k].expr) == d,
                        distinct_values(res@),
                        li_fold(rli, ltv, rtv, li as int) == li_fold(r0, ltv, rtv, 0),
                        ri_fold(entry_vals(res@), ltv, rtv, li as int, ri as int)
                            == ri_fold(rli, ltv, rtv, li as int, 0),
                    decreases right_trees@.len() - ri,
                {
                    let ghost rci = entry_vals(res@);
                    let cands = build_all_possible(&left_trees[li], &right_trees[ri]);
                    let ghost cvals = entry_vals(cands@);
                    proof {
                        assert(ltv[li as int] == left_trees@[li as int].value);
                        assert(rtv[ri as int] == right_trees@[ri as int].value);
                        assert(cvals == combo_vals(ltv[li as int], rtv[ri as int]));
                    }
                    let mut ci: usize = 0;
                    while ci < cands.len()
                        invariant
                            ci <= cands@.len(),
                            cvals == entry_vals(cands@),
                            forall|k: int| 0 <= k < cands@.len() ==> entry_wf(
                                #[trigger] cands@[k]) && leaves(cands@[k].expr) == d,
                            forall|k: int| 0 <= k < res@.len() ==> entry_wf(#[trigger] res@[k])
                                && leaves(res@[k].expr) == d,
                            distinct_values(res@),
                            ins_from(entry_vals(res@), cvals, ci as int) == ins_from(rci,
                                cvals, 0),
                        decreases cands@.len() - ci,
                    {
                        let ghost prev = entry_vals(res@);
                        let en = (&cands[ci]).clone();
                        proof {
                            assert(en.value == cvals[ci as int]);
                        }
                        insert_unique(&mut res, en, Ghost(d));
                        proof {
                            assert(ins_from(prev, cvals, ci as int) == ins_from(insert_val(
                                prev, cvals[ci as int]), cvals, ci as int + 1));
                        }
                        ci = ci + 1;
                    }
                    proof {
                        assert(entry_vals(res@) == ins_from(rci, cvals, 0));
                        assert(ri_fold(rci, ltv, rtv, li as int, ri as int) == ri_fold(
                            ins_from(rci, combo_vals(ltv[li as int], rtv[ri as int]), 0),
                            ltv, rtv, li as int, ri as int + 1));
                    }
                    ri = ri + 1;
                }
                proof {
                    assert(entry_vals(res@) == ri_fold(rli, ltv, rtv, li as int, 0));
                    assert(li_fold(rli, ltv, rtv, li as int) == li_fold(ri_fold(rli, ltv,
                        rtv, li as int, 0), ltv, rtv, li as int + 1));
                }
                li = li + 1;
            }
            proof {
                assert(entry_vals(res@) == li_fold(r0, ltv, rtv, 0));
            }
        }
        bitset = bitset + 1;
    }
    proof {
        assert(masks_fold(entry_vals(res@), dv, bitset as int) == entry_vals(res@));
        assert(search_vals(dv) == masks_fold(Seq::<Rational>::empty(), dv, 1));
    }
    res
}

/// Searching the same deck twice yields results of the same length
/// carrying the same values, position by position: the result's value
/// sequence is a function of the deck alone, so repeated runs differ at
/// most in which witness expression stands for a value.
pub proof fn lemma_search_deterministic(r1: Seq<Entry>, r2: Seq<Entry>, deck: Seq<Expr>)
    requires
        entry_vals(r1) == search_vals(deck_nums(deck)),
        entry_vals(r2) == search_vals(deck_nums(deck)),
    ensures
        r1.len() == r2.len(),
        forall|i: int| 0 <= i < r1.len() ==> (#[trigger] r1[i]).value == r2[i].value,
{
    assert(entry_vals(r1).len() == r1.len());
    assert(entry_vals(r2).len() == r2.len());
    assert forall|i: int| 0 <= i < r1.len() implies (#[trigger] r1[i]).value
        == r2[i].value by {
        assert(entry_vals(r1)[i] == r1[i].value);
        assert(entry_vals(r2)[i] == r2[i].value);
    }
}

/// The rationals a deck of number leaves carries, in order.
pub open spec fn deck_nums(deck: Seq<Expr>) -> Seq<Rational> {
    deck.map_values(|e: Expr| e->Number_0)
}

/// Builds every expression reachable from the deck, one witness per
/// distinct value: without `top_level` the result's value sequence is
/// exactly [`search_vals`] of the deck's numbers; with `top_level` only
/// the witness whose value equals the target is kept, so the result is a
/// single entry exactly when the target is reachable. Every result is
/// well formed — in particular it never divides by zero — and uses every
/// deck element exactly once.
pub fn build_trees(deck: &Vec<Expr>, target: &Rational, top_level: bool) -> (res: Vec<Entry>)
    requires
        1 <= deck@.len() <= 64,
        forall|k: int| 0 <= k < deck@.len() ==> (#[trigger] deck@[k]) is Number && expr_wf(
            deck@[k]),
        target.wf(),
    ensures
        forall|k: int| 0 <= k < res@.len() ==> entry_wf(#[trigger] res@[k]) && leaves(
            res@[k].expr) == deck_leaves(deck@),
        distinct_values(res@),
        top_level ==> res@.len() <= 1,
        top_level ==> forall|k: int| 0 <= k < res@.len() ==> val_eq(expr_val(
            #[trigger] res@[k].expr), target.v()),
        deck@.len() == 1 && !top_level ==> res@.len() == 1,
        deck@.len() == 1 && top_level ==> (res@.len() == 1 <==> val_eq(expr_val(deck@[0]),
            target.v())),
        !top_level ==> entry_vals(res@) == search_vals(deck_nums(deck@)),
        top_level ==> (res@.len() == 1 <==> has_val(search_vals(deck_nums(deck@)),
            *target)),
{
    let n = deck.len();
    let mut entries: Vec<Entry> = Vec::new();
    let mut i: usize = 0;
    while i < n
        invariant
            n == deck@.len(),
            i <= n,
            forall|k: int| 0 <= k < deck@.len() ==> (#[trigger] deck@[k]) is Number && expr_wf(
                deck@[k]),
            entries@.len() == i,
            forall|k: int| 0 <= k < entries@.len() ==> entry_wf(#[trigger] entries@[k]),
            forall|k: int| 0 <= k < entries@.len() ==> (#[trigger] entries@[k]).expr
                == deck@[k] && entries@[k].value == deck@[k]->Number_0
                && entries@[k].value.v() == expr_val(deck@[k]),
            entries_leaves(entries@) == deck_leaves(deck@.take(i as int)),
        decreases n - i,
    {
        let ghost old_entries = entries@;
        match &deck[i] {
            Expr::Number(r) => {
                entries.push(Entry { expr: Expr::Number(*r), value: *r });
            },
            Expr::Operation(_) => {
                proof {
                    assert(false);
                }
            },
        }
        proof {
            assert(deck@.take((i + 1) as int) =~= deck@.take(i as int).push(deck@[i as int]));
            lemma_deck_leaves_push(deck@.take(i as int), deck@[i as int]);
            lemma_entries_leaves_push(old_entries, Entry {
                expr: deck@[i as int],
                value: deck@[i as int]->Number_0,
            });
            assert(entries@ =~= old_entries.push(Entry {
                expr: deck@[i as int],
                value: deck@[i as int]->Number_0,
            }));
        }
        i = i + 1;
    }
    proof {
        assert(deck@.take(n as int) =~= deck@);
        assert(entry_vals(entries@) =~= deck_nums(deck@));
    }
    let found = search(&entries);
    let ghost fvals = entry_vals(found@);
    proof {
        assert(fvals == search_vals(deck_nums(deck@)));
    }
    let ghost d = deck_leaves(deck@);
    if !top_level {
        return found;
    }
    let mut kept: Vec<Entry> = Vec::new();
    let ghost mut kept_from: int = 0;
    let mut k: usize = 0;
    while k < found.len()
        invariant
            forall|m: int| 0 <= m < found@.len() ==> entry_wf(#[trigger] found@[m]) && leaves(
                found@[m].expr) == d,
            distinct_values(found@),
            target.wf(),
            kept@.len() <= 1,
            k <= found@.len(),
            kept@.len() == 1 ==> 0 <= kept_from < k && kept@[0] == found@[kept_from],
            kept@.len() == 1 ==> val_eq(kept@[0].value.v(), target.v()),
            kept@.len() == 0 ==> forall|m: int| 0 <= m < k ==> !val_eq(
                (#[trigger] found@[m]).value.v(), target.v()),
        decreases found@.len() - k,
    {
        if found[k].value.eq_value(target) {
            proof {
                if kept@.len() == 1 {
                    lemma_val_eq_trans(found@[kept_from].value.v(), target.v(),
                        found@[k as int].value.v());
                    assert(false);
                }
                kept_from = k as int;
            }
            kept.push((&found[k]).clone());
        }
        k = k + 1;
    }
    proof {
        assert forall|m: int| 0 <= m < kept@.len() implies entry_wf(#[trigger] kept@[m])
            && leaves(kept@[m].expr) == d && val_eq(expr_val(kept@[m].expr), target.v()) by {
            lemma_wf_denom(kept@[m].expr);
            lemma_val_eq_trans(target.v(), kept@[m].value.v(), expr_val(kept@[m].expr));
        }
        if deck@.len() == 1 {
            assert(found@[0] == entries@[0]);
            assert(found@[0].value.v() == expr_val(deck@[0]));
        }
        if kept@.len() == 1 {
            assert(val_eq(fvals[kept_from].v(), target.v()));
            assert(has_val(fvals, *target));
        } else {
            assert forall|i: int| 0 <= i < fvals.len() implies !val_eq(
                (#[trigger] fvals[i]).v(), target.v()) by {
                assert(fvals[i] == found@[i].value);
            }
            assert(!has_val(fvals, *target));
        }
    }
    kept
}

} // verus!
