//! Symbolic differentiation of a parsed polynomial.
//!
//! Each term gets the power rule; zero terms and constants contribute
//! nothing; like terms (equal exponent values) are merged by adding
//! coefficients; the result is ordered by strictly descending exponent;
//! and a derivative with no terms is the canonical zero term.

use vstd::pervasive::VecAdditionalExecFns;
use vstd::prelude::*;

use crate::decimal::{
    dec_add, dec_eq_val, dec_lt, dec_mul, dec_sub_one, lemma_pow10_pos, lemma_pow10_values,
    lemma_v_lt_trans, pow10, small_dec, v_add, v_eq, v_is_zero, v_lt, v_mul, v_sub_one, val_bound,
    Dec, DecV,
};
use crate::state_machine::{seq_terms_v, term_small, terms_all_small, Term, TermV};

verus! {

/// The power rule applied to one term: `d/dx (c x^e) = (c*e) x^(e-1)`.
pub open spec fn d_term(t: TermV) -> TermV {
    TermV { c: v_mul(t.c, t.e), e: v_sub_one(t.e) }
}

/// The derivatives of all terms whose derivative is not identically zero:
/// terms with coefficient zero or exponent zero contribute nothing.
pub open spec fn diff_seq(s: Seq<TermV>) -> Seq<TermV>
    decreases s.len(),
{
    if s.len() == 0 {
        Seq::empty()
    } else {
        let front = diff_seq(s.drop_last());
        let t = s.last();
        if v_is_zero(t.c) || v_is_zero(t.e) {
            front
        } else {
            front.push(d_term(t))
        }
    }
}

/// Merges one term into a sequence ordered by descending exponent value:
/// it passes larger exponents, adds its coefficient to an equal exponent,
/// and otherwise takes its place before the first smaller exponent.
pub open spec fn insert_merge(acc: Seq<TermV>, t: TermV) -> Seq<TermV>
    decreases acc.len(),
{
    if acc.len() == 0 {
        seq![t]
    } else if v_lt(t.e, acc.first().e) {
        seq![acc.first()] + insert_merge(acc.drop_first(), t)
    } else if v_eq(t.e, acc.first().e) {
        seq![TermV { c: v_add(acc.first().c, t.c), e: acc.first().e }] + acc.drop_first()
    } else {
        seq![t] + acc
    }
}

/// All differentiated terms merged into descending-exponent order.
pub open spec fn canon(ds: Seq<TermV>) -> Seq<TermV>
    decreases ds.len(),
{
    if ds.len() == 0 {
        Seq::empty()
    } else {
        insert_merge(canon(ds.drop_last()), ds.last())
    }
}

/// The canonical zero term `0 * x^0`.
pub open spec fn zero_term() -> TermV {
    TermV { c: DecV { m: 0, s: 0 }, e: DecV { m: 0, s: 0 } }
}

/// The derivative of a polynomial: its nonzero term derivatives, merged
/// and ordered, or the canonical zero term if nothing remains.
pub open spec fn derivative_spec(s: Seq<TermV>) -> Seq<TermV> {
    let r = canon(diff_seq(s));
    if r.len() == 0 {
        seq![zero_term()]
    } else {
        r
    }
}

/// Exponent values strictly decrease from each term to the next.
pub open spec fn sorted_desc(s: Seq<TermV>) -> bool {
    forall|i: int, j: int|
        #![trigger s[i], s[j]]
        0 <= i < j < s.len() && j == i + 1 ==> v_lt(s[j].e, s[i].e)
}

/// An exponent as the power rule produces it.
pub open spec fn exp_ok(d: DecV) -> bool {
    &&& -200000000 < d.m < 200000000
    &&& d.s <= 8
}

proof fn lemma_insert_merge_skip(acc: Seq<TermV>, t: TermV, j: int)
    requires
        0 <= j <= acc.len(),
        forall|k: int| 0 <= k < j ==> v_lt(t.e, acc[k].e),
    ensures
        insert_merge(acc, t) == acc.take(j) + insert_merge(acc.skip(j), t),
    decreases j,
{
    if j == 0 {
        assert(acc.take(0) =~= Seq::<TermV>::empty());
        assert(acc.skip(0) =~= acc);
        assert(Seq::<TermV>::empty() + insert_merge(acc, t) =~= insert_merge(acc, t));
    } else {
        let rest = acc.drop_first();
        assert(v_lt(t.e, acc[0].e));
        assert(forall|k: int| 0 <= k < j - 1 ==> v_lt(t.e, #[trigger] rest[k].e));
        lemma_insert_merge_skip(rest, t, j - 1);
        assert(acc.take(j) =~= seq![acc.first()] + rest.take(j - 1));
        assert(acc.skip(j) =~= rest.skip(j - 1));
        assert((seq![acc.first()] + rest.take(j - 1)) + insert_merge(rest.skip(j - 1), t) =~= seq![
            acc.first(),
        ] + (rest.take(j - 1) + insert_merge(rest.skip(j - 1), t)));
    }
}

/// Widening the value bound of a decimal.
proof fn lemma_val_bound_widen(d: DecV, v1: int, v2: int)
    requires
        val_bound(d, v1),
        v1 <= v2,
    ensures
        val_bound(d, v2),
{
    lemma_pow10_pos(d.s);
    assert(v1 * pow10(d.s) <= v2 * pow10(d.s)) by (nonlinear_arith)
        requires
            v1 <= v2,
            pow10(d.s) >= 1,
    ;
}

/// A power-rule coefficient is value-bounded by `10^16`.
proof fn lemma_val_bound_base(d: DecV)
    requires
        d.s <= 16,
        -10000000000000000 <= d.m <= 10000000000000000,
    ensures
        val_bound(d, pow10(16)),
{
    lemma_pow10_pos(d.s);
    lemma_pow10_values();
    assert(pow10(16) * 1 <= pow10(16) * pow10(d.s)) by (nonlinear_arith)
        requires
            pow10(d.s) >= 1,
            pow10(16) >= 0,
    ;
}

/// Replacing a term's coefficient, keeping its exponent, keeps the order.
proof fn lemma_sorted_update(s: Seq<TermV>, j: int, t: TermV)
    requires
        sorted_desc(s),
        0 <= j < s.len(),
        t.e == s[j].e,
    ensures
        sorted_desc(s.update(j, t)),
{
    let s2 = s.update(j, t);
    assert forall|a: int, b: int|
        #![trigger s2[a], s2[b]]
        0 <= a < b < s2.len() && b == a + 1 implies v_lt(s2[b].e, s2[a].e) by {
        assert(s2[a].e == s[a].e);
        assert(s2[b].e == s[b].e);
        assert(v_lt(s[b].e, s[a].e));
    }
}

/// Inserting a term between larger and smaller exponents keeps the order.
proof fn lemma_sorted_insert(s: Seq<TermV>, j: int, t: TermV)
    requires
        sorted_desc(s),
        0 <= j <= s.len(),
        forall|k: int| 0 <= k < j ==> v_lt(t.e, (#[trigger] s[k]).e),
        j < s.len() ==> v_lt(s[j].e, t.e),
    ensures
        sorted_desc(s.insert(j, t)),
{
    let s2 = s.insert(j, t);
    assert forall|a: int, b: int|
        #![trigger s2[a], s2[b]]
        0 <= a < b < s2.len() && b == a + 1 implies v_lt(s2[b].e, s2[a].e) by {
        if b < j {
            assert(s2[a] == s[a]);
            assert(s2[b] == s[b]);
            assert(v_lt(s[b].e, s[a].e));
        } else if b == j {
            assert(s2[a] == s[a]);
            assert(s2[b] == t);
        } else if a == j {
            assert(s2[a] == t);
            assert(s2[b] == s[a]);
        } else {
            assert(s2[a] == s[a - 1]);
            assert(s2[b] == s[a]);
            assert(v_lt(s[a].e, s[a - 1].e));
        }
    }
}

/// The derivative of a polynomial, differentiated term by term, merged,
/// and sorted by strictly descending exponent.
///
/// The length bound and the term sizes are what the machine arithmetic
/// needs; every parsed polynomial satisfies both.
#[verifier::rlimit(100)]
pub fn differentiate(input: &Vec<Term>) -> (result: Vec<Term>)
    requires
        input@.len() <= 100000,
        terms_all_small(seq_terms_v(input@)),
    ensures
        seq_terms_v(result@) == derivative_spec(seq_terms_v(input@)),
        sorted_desc(seq_terms_v(result@)),
{
    let ghost inv = seq_terms_v(input@);
    let mut result: Vec<Term> = Vec::new();
    proof {
        assert(seq_terms_v(Seq::empty()) =~= Seq::<TermV>::empty());
        assert(inv.take(0) =~= Seq::<TermV>::empty());
        assert(forall|i: int| 0 <= i < input@.len() ==> term_small(#[trigger] input@[i]@)) by {
            assert(forall|i: int|
                0 <= i < input@.len() ==> #[trigger] input@[i]@ == seq_terms_v(input@)[i]);
        }
    }
    let mut idx: usize = 0;
    while idx < input.len()
        invariant
            idx <= input@.len() <= 100000,
            inv == seq_terms_v(input@),
            forall|i: int| 0 <= i < input@.len() ==> term_small(#[trigger] input@[i]@),
            seq_terms_v(result@) == canon(diff_seq(inv.take(idx as int))),
            sorted_desc(seq_terms_v(result@)),
            forall|k: int| 0 <= k < result@.len() ==> exp_ok((#[trigger] result@[k])@.e),
            forall|k: int| 0 <= k < result@.len() ==> val_bound(
                (#[trigger] result@[k])@.c,
                idx * pow10(16),
            ),
        decreases input@.len() - idx,
    {
        let t = input[idx];
        proof {
            assert(inv[idx as int] == input@[idx as int]@);
            assert(inv.take(idx + 1).drop_last() =~= inv.take(idx as int));
            assert(inv.take(idx + 1).last() == inv[idx as int]);
            lemma_pow10_values();
            lemma_pow10_pos(16);
        }
        if t.exponent.mantissa == 0 || t.coefficient.mantissa == 0 {
            proof {
                assert(diff_seq(inv.take(idx + 1)) == diff_seq(inv.take(idx as int)));
                assert forall|k: int| 0 <= k < result@.len() implies val_bound(
                    (#[trigger] result@[k])@.c,
                    (idx + 1) * pow10(16),
                ) by {
                    lemma_val_bound_widen(
                        result@[k]@.c,
                        idx * pow10(16),
                        (idx + 1) * pow10(16),
                    );
                }
            }
        } else {
            let dcoeff = dec_mul(t.coefficient, t.exponent);
            let dexp = dec_sub_one(t.exponent);
            let nt = Term { coefficient: dcoeff, exponent: dexp };
            let ghost dt = d_term(inv[idx as int]);
            let ghost srv = seq_terms_v(result@);
            let ghost ds = diff_seq(inv.take(idx as int));
            proof {
                assert(nt@ == dt);
                assert(diff_seq(inv.take(idx + 1)) == ds.push(dt));
                assert(ds.push(dt).drop_last() =~= ds);
                assert(canon(ds.push(dt)) == insert_merge(canon(ds), dt));
                lemma_val_bound_base(dcoeff@);
            }
            let mut j: usize = 0;
            #[verifier::loop_isolation(false)]
            while j < result.len() && dec_lt(nt.exponent, result[j].exponent)
                invariant
                    j <= result@.len(),
                    forall|k: int| 0 <= k < j ==> v_lt(dt.e, (#[trigger] result@[k])@.e),
                decreases result@.len() - j,
            {
                j = j + 1;
            }
            proof {
                assert(forall|k: int| 0 <= k < srv.len() ==> (#[trigger] srv[k]) == result@[k]@);
                lemma_insert_merge_skip(srv, dt, j as int);
            }
            if j == result.len() {
                result.push(nt);
                proof {
                    assert(srv.skip(j as int) =~= Seq::<TermV>::empty());
                    assert(insert_merge(srv.skip(j as int), dt) == seq![dt]);
                    assert(srv.take(j as int) =~= srv);
                    assert(seq_terms_v(result@) =~= srv + seq![dt]);
                    assert(seq_terms_v(result@) =~= srv.push(dt));
                }
            } else {
                let ghost oldlen = result@.len();
                let ej = result[j].exponent;
                proof {
                    assert(srv.skip(j as int).first() == srv[j as int]);
                    assert(srv.skip(j as int).drop_first() =~= srv.skip(j + 1));
                }
                if dec_eq_val(nt.exponent, ej) {
                    let merged = Term {
                        coefficient: dec_add(
                            result[j].coefficient,
                            nt.coefficient,
                            Ghost(idx * pow10(16)),
                            Ghost(pow10(16)),
                        ),
                        exponent: ej,
                    };
                    result.set(j, merged);
                    proof {
                        assert(insert_merge(srv.skip(j as int), dt) == seq![merged@] + srv.skip(
                            j + 1,
                        ));
                        assert(srv.take(j as int) + (seq![merged@] + srv.skip(j + 1)) =~= srv
                            .update(j as int, merged@));
                        assert(seq_terms_v(result@) =~= srv.update(j as int, merged@));
                        assert(merged@.e == srv[j as int].e);
                        lemma_sorted_update(srv, j as int, merged@);
                        assert(sorted_desc(seq_terms_v(result@)));
                    }
                } else {
                    result.insert(j, nt);
                    proof {
                        assert(insert_merge(srv.skip(j as int), dt) == seq![dt] + srv.skip(
                            j as int,
                        ));
                        assert(seq_terms_v(result@) =~= srv.take(j as int) + (seq![dt] + srv.skip(
                            j as int,
                        )));
                        assert(srv.take(j as int) + (seq![dt] + srv.skip(j as int)) =~= srv.insert(
                            j as int,
                            dt,
                        ));
                        lemma_sorted_insert(srv, j as int, dt);
                        assert(sorted_desc(seq_terms_v(result@)));
                    }
                }
            }
            proof {
                assert forall|k: int| 0 <= k < result@.len() implies val_bound(
                    (#[trigger] result@[k])@.c,
                    (idx + 1) * pow10(16),
                ) by {
                    assert((idx + 1) * pow10(16) == idx * pow10(16) + pow10(16));
                    if val_bound(result@[k]@.c, idx * pow10(16)) {
                        lemma_val_bound_widen(
                            result@[k]@.c,
                            idx * pow10(16),
                            (idx + 1) * pow10(16),
                        );
                    } else if val_bound(result@[k]@.c, pow10(16)) {
                        lemma_val_bound_widen(result@[k]@.c, pow10(16), (idx + 1) * pow10(16));
                    }
                }
            }
        }
        idx = idx + 1;
    }
    proof {
        assert(inv.take(input@.len() as int) =~= inv);
    }
    if result.len() == 0 {
        result.push(
            Term {
                coefficient: Dec { mantissa: 0, scale: 0 },
                exponent: Dec { mantissa: 0, scale: 0 },
            },
        );
        proof {
            assert(seq_terms_v(result@) =~= seq![zero_term()]);
        }
    }
    result
}

/// Power rule: the derivative of the single term `c * x^e`, with `c` and
/// `e` both nonzero, is exactly the single term `(c*e) * x^(e-1)`.
pub proof fn lemma_power_rule(t: TermV)
    requires
        !v_is_zero(t.c),
        !v_is_zero(t.e),
    ensures
        derivative_spec(seq![t]) == seq![d_term(t)],
{
    let one = seq![t];
    assert(one.drop_last() =~= Seq::<TermV>::empty());
    assert(one.last() == t);
    assert(diff_seq(Seq::<TermV>::empty()) == Seq::<TermV>::empty());
    assert(diff_seq(one) == Seq::<TermV>::empty().push(d_term(t)));
    let ds = diff_seq(one);
    assert(ds =~= seq![d_term(t)]);
    assert(ds.drop_last() =~= Seq::<TermV>::empty());
    assert(ds.last() == d_term(t));
    assert(canon(Seq::<TermV>::empty()) == Seq::<TermV>::empty());
    assert(canon(ds) == insert_merge(Seq::<TermV>::empty(), d_term(t)));
    assert(canon(ds) == seq![d_term(t)]);
}

proof fn lemma_diff_seq_of_constants(s: Seq<TermV>)
    requires
        forall|i: int| 0 <= i < s.len() ==> v_is_zero((#[trigger] s[i]).c) || v_is_zero(s[i].e),
    ensures
        diff_seq(s) == Seq::<TermV>::empty(),
    decreases s.len(),
{
    if s.len() > 0 {
        lemma_diff_seq_of_constants(s.drop_last());
        assert(s.last() == s[s.len() - 1]);
    }
}

/// Constant vanishing: a polynomial made only of constants (exponent
/// zero) and zero terms (coefficient zero) differentiates to exactly the
/// canonical zero term.
pub proof fn lemma_constant_vanishes(s: Seq<TermV>)
    requires
        forall|i: int| 0 <= i < s.len() ==> v_is_zero((#[trigger] s[i]).c) || v_is_zero(s[i].e),
    ensures
        derivative_spec(s) == seq![zero_term()],
{
    lemma_diff_seq_of_constants(s);
    assert(canon(diff_seq(s)) == Seq::<TermV>::empty());
}

proof fn lemma_sorted_desc_at(s: Seq<TermV>, i: int, j: int)
    requires
        sorted_desc(s),
        0 <= i < j < s.len(),
    ensures
        v_lt(s[j].e, s[i].e),
    decreases j - i,
{
    if j == i + 1 {
        assert(v_lt(s[j].e, s[i].e));
    } else {
        lemma_sorted_desc_at(s, i, j - 1);
        assert(v_lt(s[j].e, s[j - 1].e));
        lemma_v_lt_trans(s[j].e, s[j - 1].e, s[i].e);
    }
}

/// Ordering invariant: in a sequence whose adjacent exponents strictly
/// decrease — as every output of [`differentiate`] has — every later
/// exponent is strictly below every earlier one, so no two terms share an
/// exponent value.
pub proof fn lemma_sorted_desc_pairwise(s: Seq<TermV>)
    requires
        sorted_desc(s),
    ensures
        forall|i: int, j: int|
            #![trigger s[i], s[j]]
            0 <= i < j < s.len() ==> v_lt(s[j].e, s[i].e),
        forall|i: int, j: int|
            #![trigger s[i], s[j]]
            0 <= i < j < s.len() ==> !v_eq(s[i].e, s[j].e),
{
    assert forall|i: int, j: int|
        #![trigger s[i], s[j]]
        0 <= i < j < s.len() implies v_lt(s[j].e, s[i].e) && !v_eq(s[i].e, s[j].e) by {
        lemma_sorted_desc_at(s, i, j);
    }
}

} // verus!
