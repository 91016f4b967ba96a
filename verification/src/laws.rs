//! The library's stated laws: counting matches generation, per-length
//! counts, the suppression guarantee, template shape preservation,
//! determinism, and the candidate budget bound.

use vstd::prelude::*;
use crate::chars::{blocked_pair, has_adjacent_repeat, is_digit_char, lemma_repeat_push};
use crate::config::Config;
use crate::count::{combos_no_dup, flag_at, is_slot, nd_factor, occ_from, pow_nat, range_count,
    size_count, tmpl_nd_prefix, lemma_pow_unfold_right};
use crate::generate::{candidate_budget, gen_output, gen_range_ticks, gen_range_words, gen_ticks};
use crate::range_gen::{range_emit, range_emit_from, range_ticks, range_ticks_from, step_allowed};
use crate::template_gen::{digits_seq, slot_alph, tmpl_emit, tmpl_emit_from, tmpl_ticks};

verus! {

/// No two positions of the alphabet hold the same symbol.
pub open spec fn charset_distinct(cs: Seq<char>) -> bool {
    forall|i: int, j: int| 0 <= i < j < cs.len() ==> cs[i] != cs[j]
}

/// No alphabet symbol is a decimal digit.
pub open spec fn charset_digit_free(cs: Seq<char>) -> bool {
    forall|i: int| 0 <= i < cs.len() ==> !is_digit_char(#[trigger] cs[i])
}

// ---------------------------------------------------------------------
// Per-length counts, plain mode
// ---------------------------------------------------------------------

proof fn lemma_plain_len_from(p: Seq<char>, l: nat, cs: Seq<char>, i: int)
    requires
        l >= 1,
        0 <= i <= cs.len(),
    ensures
        range_emit_from(p, l, cs, false, i).len() == (cs.len() - i) * pow_nat(
            cs.len(),
            (l - 1) as nat,
        ),
    decreases l, cs.len() - i,
{
    let n = cs.len();
    let pw = pow_nat(n, (l - 1) as nat);
    if i == n {
        assert(range_emit_from(p, l, cs, false, i).len() == 0);
    } else {
        lemma_plain_len(p.push(cs[i]), (l - 1) as nat, cs);
        lemma_plain_len_from(p, l, cs, i + 1);
        assert((n - i) * pw == (n - i - 1) * pw + pw) by (nonlinear_arith);
    }
}

/// Without suppression, exactly `|cs|^l` words complete any prefix.
pub proof fn lemma_plain_len(p: Seq<char>, l: nat, cs: Seq<char>)
    ensures
        range_emit(p, l, cs, false).len() == pow_nat(cs.len(), l),
    decreases l, cs.len() + 1,
{
    if l == 0 {
    } else {
        lemma_plain_len_from(p, l, cs, 0);
    }
}

// ---------------------------------------------------------------------
// Per-length counts, suppressed mode over a distinct digit-free alphabet
// ---------------------------------------------------------------------

/// Branches of `cs` at positions `i` onward that may extend `p`.
pub open spec fn allowed_cnt(p: Seq<char>, cs: Seq<char>, i: int) -> nat
    decreases cs.len() - i,
{
    if i < 0 || i >= cs.len() {
        0
    } else {
        (if step_allowed(p, cs[i], true) {
            1nat
        } else {
            0nat
        }) + allowed_cnt(p, cs, i + 1)
    }
}

proof fn lemma_allowed_cnt_free(p: Seq<char>, cs: Seq<char>, i: int)
    requires
        0 <= i <= cs.len(),
        p.len() == 0 || is_digit_char(p[p.len() - 1]),
    ensures
        allowed_cnt(p, cs, i) == cs.len() - i,
    decreases cs.len() - i,
{
    if i < cs.len() {
        lemma_allowed_cnt_free(p, cs, i + 1);
    }
}

proof fn lemma_allowed_cnt_blocked(p: Seq<char>, cs: Seq<char>, i: int)
    requires
        0 <= i <= cs.len(),
        p.len() > 0,
        !is_digit_char(p[p.len() - 1]),
    ensures
        allowed_cnt(p, cs, i) == (cs.len() - i) - occ_from(cs, i, p[p.len() - 1]),
        occ_from(cs, i, p[p.len() - 1]) <= cs.len() - i,
    decreases cs.len() - i,
{
    if i < cs.len() {
        lemma_allowed_cnt_blocked(p, cs, i + 1);
    }
}

proof fn lemma_occ_from_distinct(cs: Seq<char>, i: int, c: char)
    requires
        charset_distinct(cs),
        0 <= i <= cs.len(),
    ensures
        occ_from(cs, i, c) == if exists|k: int| i <= k < cs.len() && cs[k] == c {
            1nat
        } else {
            0nat
        },
    decreases cs.len() - i,
{
    if i < cs.len() {
        lemma_occ_from_distinct(cs, i + 1, c);
        if cs[i] == c {
            assert(forall|k: int| i < k < cs.len() ==> cs[k] != cs[i]);
            assert(!(exists|k: int| i + 1 <= k < cs.len() && cs[k] == c));
            assert(exists|k: int| i <= k < cs.len() && cs[k] == c) by {
                assert(cs[i] == c);
            }
        } else {
            assert((exists|k: int| i <= k < cs.len() && cs[k] == c) <==> (exists|k: int|
                i + 1 <= k < cs.len() && cs[k] == c)) by {
                if exists|k: int| i <= k < cs.len() && cs[k] == c {
                    let k = choose|k: int| i <= k < cs.len() && cs[k] == c;
                    assert(k != i);
                }
            }
        }
    }
}

proof fn lemma_nd_len_from(p: Seq<char>, l: nat, cs: Seq<char>, i: int)
    requires
        l >= 1,
        0 <= i <= cs.len(),
        charset_distinct(cs),
        charset_digit_free(cs),
        !has_adjacent_repeat(p),
        p.len() > 0 ==> cs.contains(p[p.len() - 1]),
    ensures
        range_emit_from(p, l, cs, true, i).len() == allowed_cnt(p, cs, i) * pow_nat(
            (cs.len() - 1) as nat,
            (l - 1) as nat,
        ),
    decreases l, cs.len() - i,
{
    let n = cs.len();
    let m = (n - 1) as nat;
    let pw = pow_nat(m, (l - 1) as nat);
    if i == n {
        assert(range_emit_from(p, l, cs, true, i).len() == 0);
        assert(allowed_cnt(p, cs, i) == 0);
        assert(allowed_cnt(p, cs, i) * pw == 0) by (nonlinear_arith)
            requires
                allowed_cnt(p, cs, i) == 0,
        ;
    } else {
        lemma_nd_len_from(p, l, cs, i + 1);
        if step_allowed(p, cs[i], true) {
            let q = p.push(cs[i]);
            lemma_repeat_push(p, cs[i]);
            assert(!has_adjacent_repeat(q));
            assert(q[q.len() - 1] == cs[i]);
            assert(cs.contains(cs[i]));
            lemma_nd_len(q, (l - 1) as nat, cs);
            assert(q.len() > 0);
            assert(range_emit(q, (l - 1) as nat, cs, true).len() == pw);
            assert(range_emit_from(p, l, cs, true, i) == range_emit(q, (l - 1) as nat, cs, true)
                + range_emit_from(p, l, cs, true, i + 1));
            assert(range_emit_from(p, l, cs, true, i).len() == pw + allowed_cnt(p, cs, i + 1)
                * pw);
            assert(allowed_cnt(p, cs, i) == 1 + allowed_cnt(p, cs, i + 1));
            assert(allowed_cnt(p, cs, i) * pw == pw + allowed_cnt(p, cs, i + 1) * pw)
                by (nonlinear_arith)
                requires
                    allowed_cnt(p, cs, i) == 1 + allowed_cnt(p, cs, i + 1),
            ;
        } else {
            assert(range_emit_from(p, l, cs, true, i) == Seq::<Seq<char>>::empty()
                + range_emit_from(p, l, cs, true, i + 1));
            assert(range_emit_from(p, l, cs, true, i).len() == allowed_cnt(p, cs, i + 1) * pw);
            assert(allowed_cnt(p, cs, i) == allowed_cnt(p, cs, i + 1));
        }
    }
}

/// With suppression over a distinct digit-free alphabet: an empty prefix
/// is completed by the closed-form count, a prefix ending in an alphabet
/// symbol by `(|cs|-1)^l` words.
pub proof fn lemma_nd_len(p: Seq<char>, l: nat, cs: Seq<char>)
    requires
        charset_distinct(cs),
        charset_digit_free(cs),
        !has_adjacent_repeat(p),
        p.len() > 0 ==> cs.contains(p[p.len() - 1]),
    ensures
        range_emit(p, l, cs, true).len() == if p.len() == 0 {
            combos_no_dup(cs.len(), l)
        } else {
            pow_nat((cs.len() - 1) as nat, l)
        },
    decreases l, cs.len() + 1,
{
    let n = cs.len();
    let m = (n - 1) as nat;
    if l == 0 {
    } else {
        lemma_nd_len_from(p, l, cs, 0);
        if p.len() == 0 {
            lemma_allowed_cnt_free(p, cs, 0);
            assert(range_emit(p, l, cs, true).len() == n * pow_nat(m, (l - 1) as nat));
            if n == 0 {
                assert(n * pow_nat(m, (l - 1) as nat) == 0) by (nonlinear_arith)
                    requires
                        n == 0,
                ;
            }
        } else {
            let last = p[p.len() - 1];
            assert(cs.contains(last));
            let w = choose|k: int| 0 <= k < cs.len() && cs[k] == last;
            assert(!is_digit_char(last));
            lemma_allowed_cnt_blocked(p, cs, 0);
            lemma_occ_from_distinct(cs, 0, last);
            assert(occ_from(cs, 0, last) == 1);
            assert(allowed_cnt(p, cs, 0) == n - 1);
            lemma_pow_unfold_right(m, (l - 1) as nat);
            assert(pow_nat(m, l) == pow_nat(m, (l - 1) as nat) * m);
            assert(m * pow_nat(m, (l - 1) as nat) == pow_nat(m, (l - 1) as nat) * m)
                by (nonlinear_arith);
        }
    }
}

// ---------------------------------------------------------------------
// Range mode: count equals generation
// ---------------------------------------------------------------------

/// The count formula equals the number of emitted range-mode lines, for
/// every length span. Under suppression this holds for a distinct
/// digit-free alphabet, where the closed formula is exact.
pub proof fn lemma_range_count_matches(cs: Seq<char>, nd: bool, lo: int, hi: int)
    requires
        0 <= lo,
        nd ==> charset_distinct(cs) && charset_digit_free(cs),
    ensures
        gen_range_words(cs, nd, lo, hi).len() == range_count(cs.len(), lo, hi, nd),
    decreases hi + 1 - lo,
{
    if lo > hi {
    } else {
        lemma_range_count_matches(cs, nd, lo + 1, hi);
        if nd {
            lemma_nd_len(Seq::empty(), lo as nat, cs);
        } else {
            lemma_plain_len(Seq::empty(), lo as nat, cs);
        }
    }
}

// ---------------------------------------------------------------------
// Template mode, plain: count equals generation equals ticks
// ---------------------------------------------------------------------

proof fn lemma_tmpl_plain_from(t: Seq<char>, w: Seq<char>, i: int, cs: Seq<char>, j: int)
    requires
        0 <= i < t.len(),
        is_slot(t[i]),
        0 <= j <= slot_alph(t[i], cs).len(),
    ensures
        tmpl_emit_from(t, w, i, cs, false, j).len() == (slot_alph(t[i], cs).len() - j) * tmpl_ticks(
            t,
            i + 1,
            cs,
        ),
    decreases t.len() - i, 0int, slot_alph(t[i], cs).len() - j,
{
    let alph = slot_alph(t[i], cs);
    let sub = tmpl_ticks(t, i + 1, cs);
    if j == alph.len() {
        assert(tmpl_emit_from(t, w, i, cs, false, j).len() == 0);
    } else {
        lemma_tmpl_plain_emit(t, w.update(i, alph[j]), i + 1, cs);
        lemma_tmpl_plain_from(t, w, i, cs, j + 1);
        assert((alph.len() - j) * sub == (alph.len() - j - 1) * sub + sub) by (nonlinear_arith);
    }
}

/// Without suppression, template mode emits exactly one line per
/// candidate considered, whatever the buffer holds.
pub proof fn lemma_tmpl_plain_emit(t: Seq<char>, w: Seq<char>, i: int, cs: Seq<char>)
    requires
        0 <= i,
    ensures
        tmpl_emit(t, w, i, cs, false).len() == tmpl_ticks(t, i, cs),
    decreases t.len() - i, 1int, 0int,
{
    if i >= t.len() {
    } else if is_slot(t[i]) {
        lemma_tmpl_plain_from(t, w, i, cs, 0);
        assert(slot_alph(t[i], cs).len() == if t[i] == '@' {
            cs.len()
        } else {
            10nat
        });
    } else {
        lemma_tmpl_plain_emit(t, w, i + 1, cs);
    }
}

/// The candidate total of template mode is the plain product count: one
/// factor of `|cs|` per `@` slot and of ten per `%` slot.
pub proof fn lemma_tmpl_ticks_product(t: Seq<char>, i: int, cs: Seq<char>)
    requires
        0 <= i,
    ensures
        tmpl_ticks(t, i, cs) == pow_nat(cs.len(), occ_from(t, i, '@')) * pow_nat(
            10,
            occ_from(t, i, '%'),
        ),
    decreases t.len() - i,
{
    let n = cs.len();
    if i >= t.len() {
        assert(pow_nat(n, 0) * pow_nat(10, 0) == 1) by (nonlinear_arith)
            requires
                pow_nat(n, 0) == 1,
                pow_nat(10, 0) == 1,
        ;
    } else {
        lemma_tmpl_ticks_product(t, i + 1, cs);
        let a = occ_from(t, i + 1, '@');
        let b = occ_from(t, i + 1, '%');
        if t[i] == '@' {
            assert(occ_from(t, i, '@') == a + 1);
            assert(occ_from(t, i, '%') == b);
            assert(pow_nat(n, a + 1) == n * pow_nat(n, a));
            assert(tmpl_ticks(t, i, cs) == n * tmpl_ticks(t, i + 1, cs));
            assert(n * (pow_nat(n, a) * pow_nat(10, b)) == (n * pow_nat(n, a)) * pow_nat(10, b))
                by (nonlinear_arith);
            assert(tmpl_ticks(t, i, cs) == pow_nat(n, a + 1) * pow_nat(10, b)) by (nonlinear_arith)
                requires
                    tmpl_ticks(t, i, cs) == n * tmpl_ticks(t, i + 1, cs),
                    tmpl_ticks(t, i + 1, cs) == pow_nat(n, a) * pow_nat(10, b),
                    pow_nat(n, a + 1) == n * pow_nat(n, a),
            ;
        } else if t[i] == '%' {
            assert(occ_from(t, i, '@') == a);
            assert(occ_from(t, i, '%') == b + 1);
            assert(pow_nat(10, b + 1) == 10 * pow_nat(10, b));
            assert(tmpl_ticks(t, i, cs) == 10 * tmpl_ticks(t, i + 1, cs));
            assert(tmpl_ticks(t, i, cs) == pow_nat(n, a) * pow_nat(10, b + 1)) by (nonlinear_arith)
                requires
                    tmpl_ticks(t, i, cs) == 10 * tmpl_ticks(t, i + 1, cs),
                    tmpl_ticks(t, i + 1, cs) == pow_nat(n, a) * pow_nat(10, b),
                    pow_nat(10, b + 1) == 10 * pow_nat(10, b),
            ;
        } else {
            assert(occ_from(t, i, '@') == a);
            assert(occ_from(t, i, '%') == b);
            assert(tmpl_ticks(t, i, cs) == tmpl_ticks(t, i + 1, cs));
        }
    }
}

// ---------------------------------------------------------------------
// Suppression guarantee
// ---------------------------------------------------------------------

/// Every word of the batch is free of adjacent equal non-digit pairs.
pub open spec fn all_pass(ws: Seq<Seq<char>>) -> bool {
    forall|k: int| 0 <= k < ws.len() ==> !has_adjacent_repeat(#[trigger] ws[k])
}

proof fn lemma_all_pass_concat(a: Seq<Seq<char>>, b: Seq<Seq<char>>)
    requires
        all_pass(a),
        all_pass(b),
    ensures
        all_pass(a + b),
{
    assert forall|k: int| 0 <= k < (a + b).len() implies !has_adjacent_repeat((a + b)[k]) by {
        if k < a.len() {
            assert((a + b)[k] == a[k]);
        } else {
            assert((a + b)[k] == b[k - a.len()]);
        }
    }
}

proof fn lemma_range_emit_pass_from(p: Seq<char>, l: nat, cs: Seq<char>, i: int)
    requires
        l >= 1,
    ensures
        all_pass(range_emit_from(p, l, cs, true, i)),
    decreases l, cs.len() - i,
{
    if i < 0 || i >= cs.len() {
        assert(all_pass(range_emit_from(p, l, cs, true, i)));
    } else {
        lemma_range_emit_pass(p.push(cs[i]), (l - 1) as nat, cs);
        lemma_range_emit_pass_from(p, l, cs, i + 1);
        if step_allowed(p, cs[i], true) {
            lemma_all_pass_concat(
                range_emit(p.push(cs[i]), (l - 1) as nat, cs, true),
                range_emit_from(p, l, cs, true, i + 1),
            );
        } else {
            lemma_all_pass_concat(
                Seq::<Seq<char>>::empty(),
                range_emit_from(p, l, cs, true, i + 1),
            );
        }
    }
}

/// Every line emitted under suppression is free of adjacent equal
/// non-digit pairs, from any prefix.
pub proof fn lemma_range_emit_pass(p: Seq<char>, l: nat, cs: Seq<char>)
    ensures
        all_pass(range_emit(p, l, cs, true)),
    decreases l, cs.len() + 1,
{
    if l == 0 {
        if !has_adjacent_repeat(p) {
            assert forall|k: int|
                0 <= k < range_emit(p, 0, cs, true).len() implies !has_adjacent_repeat(
                range_emit(p, 0, cs, true)[k],
            ) by {
                assert(range_emit(p, 0, cs, true)[k] == p);
            }
        } else {
            assert(all_pass(range_emit(p, 0, cs, true)));
        }
    } else {
        lemma_range_emit_pass_from(p, l, cs, 0);
    }
}

proof fn lemma_tmpl_emit_pass_from(t: Seq<char>, w: Seq<char>, i: int, cs: Seq<char>, j: int)
    requires
        0 <= i < t.len(),
        is_slot(t[i]),
    ensures
        all_pass(tmpl_emit_from(t, w, i, cs, true, j)),
    decreases t.len() - i, 0int, slot_alph(t[i], cs).len() - j,
{
    let alph = slot_alph(t[i], cs);
    if j < 0 || j >= alph.len() {
        assert(all_pass(tmpl_emit_from(t, w, i, cs, true, j)));
    } else {
        lemma_tmpl_emit_pass(t, w.update(i, alph[j]), i + 1, cs);
        lemma_tmpl_emit_pass_from(t, w, i, cs, j + 1);
        lemma_all_pass_concat(
            tmpl_emit(t, w.update(i, alph[j]), i + 1, cs, true),
            tmpl_emit_from(t, w, i, cs, true, j + 1),
        );
    }
}

/// Every template-mode line emitted under suppression is free of
/// adjacent equal non-digit pairs.
pub proof fn lemma_tmpl_emit_pass(t: Seq<char>, w: Seq<char>, i: int, cs: Seq<char>)
    requires
        0 <= i,
    ensures
        all_pass(tmpl_emit(t, w, i, cs, true)),
    decreases t.len() - i, 1int, 0int,
{
    if i >= t.len() {
        if !has_adjacent_repeat(w) {
            assert forall|k: int|
                0 <= k < tmpl_emit(t, w, i, cs, true).len() implies !has_adjacent_repeat(
                tmpl_emit(t, w, i, cs, true)[k],
            ) by {
                assert(tmpl_emit(t, w, i, cs, true)[k] == w);
            }
        } else {
            assert(all_pass(tmpl_emit(t, w, i, cs, true)));
        }
    } else if is_slot(t[i]) {
        lemma_tmpl_emit_pass_from(t, w, i, cs, 0);
    } else {
        lemma_tmpl_emit_pass(t, w, i + 1, cs);
    }
}

proof fn lemma_range_words_pass(cs: Seq<char>, lo: int, hi: int)
    ensures
        all_pass(gen_range_words(cs, true, lo, hi)),
    decreases hi + 1 - lo,
{
    if lo > hi || lo < 0 {
        assert(all_pass(gen_range_words(cs, true, lo, hi)));
    } else {
        lemma_range_emit_pass(Seq::empty(), lo as nat, cs);
        lemma_range_words_pass(cs, lo + 1, hi);
        lemma_all_pass_concat(
            range_emit(Seq::empty(), lo as nat, cs, true),
            gen_range_words(cs, true, lo + 1, hi),
        );
    }
}

/// Under suppression no emitted line, in either mode, holds two adjacent
/// equal non-digit characters; adjacent equal digits are permitted and
/// the law says nothing about them.
pub proof fn lemma_no_adjacent_repeat_emitted(cfg: &Config)
    requires
        cfg.no_duplicates,
    ensures
        all_pass(gen_output(cfg)),
{
    match cfg.template {
        Some(_) => {
            lemma_tmpl_emit_pass(cfg.template_seq(), cfg.template_seq(), 0, cfg.charset@);
        },
        None => {
            lemma_range_words_pass(cfg.charset@, cfg.min_len as int, cfg.max_len as int);
        },
    }
}

// ---------------------------------------------------------------------
// Template shape preservation
// ---------------------------------------------------------------------

/// The buffer agrees with the template in length and on every literal
/// position.
pub open spec fn template_shape_ok(t: Seq<char>, w: Seq<char>) -> bool {
    &&& w.len() == t.len()
    &&& forall|k: int| 0 <= k < t.len() && !is_slot(t[k]) ==> w[k] == #[trigger] t[k]
}

/// Every word of the batch keeps the template's length and literals.
pub open spec fn all_shaped(t: Seq<char>, ws: Seq<Seq<char>>) -> bool {
    forall|k: int| 0 <= k < ws.len() ==> template_shape_ok(t, #[trigger] ws[k])
}

proof fn lemma_all_shaped_concat(t: Seq<char>, a: Seq<Seq<char>>, b: Seq<Seq<char>>)
    requires
        all_shaped(t, a),
        all_shaped(t, b),
    ensures
        all_shaped(t, a + b),
{
    assert forall|k: int| 0 <= k < (a + b).len() implies template_shape_ok(t, (a + b)[k]) by {
        if k < a.len() {
            assert((a + b)[k] == a[k]);
        } else {
            assert((a + b)[k] == b[k - a.len()]);
        }
    }
}

proof fn lemma_tmpl_shape_from(t: Seq<char>, w: Seq<char>, i: int, cs: Seq<char>, nd: bool, j: int)
    requires
        0 <= i < t.len(),
        is_slot(t[i]),
        template_shape_ok(t, w),
    ensures
        all_shaped(t, tmpl_emit_from(t, w, i, cs, nd, j)),
    decreases t.len() - i, 0int, slot_alph(t[i], cs).len() - j,
{
    let alph = slot_alph(t[i], cs);
    if j < 0 || j >= alph.len() {
        assert(all_shaped(t, tmpl_emit_from(t, w, i, cs, nd, j)));
    } else {
        assert(template_shape_ok(t, w.update(i, alph[j])));
        lemma_tmpl_shape_ok(t, w.update(i, alph[j]), i + 1, cs, nd);
        lemma_tmpl_shape_from(t, w, i, cs, nd, j + 1);
        lemma_all_shaped_concat(
            t,
            tmpl_emit(t, w.update(i, alph[j]), i + 1, cs, nd),
            tmpl_emit_from(t, w, i, cs, nd, j + 1),
        );
    }
}

/// Every emitted template-mode line has the template's length and keeps
/// every literal character in place.
pub proof fn lemma_tmpl_shape_ok(t: Seq<char>, w: Seq<char>, i: int, cs: Seq<char>, nd: bool)
    requires
        0 <= i,
        template_shape_ok(t, w),
    ensures
        all_shaped(t, tmpl_emit(t, w, i, cs, nd)),
    decreases t.len() - i, 1int, 0int,
{
    if i >= t.len() {
        assert forall|k: int|
            0 <= k < tmpl_emit(t, w, i, cs, nd).len() implies template_shape_ok(
            t,
            tmpl_emit(t, w, i, cs, nd)[k],
        ) by {
            assert(tmpl_emit(t, w, i, cs, nd)[k] == w);
        }
    } else if is_slot(t[i]) {
        lemma_tmpl_shape_from(t, w, i, cs, nd, 0);
    } else {
        lemma_tmpl_shape_ok(t, w, i + 1, cs, nd);
    }
}

/// Template mode never emits a line whose length differs from the
/// template's, and every literal position appears unchanged in every
/// emitted line.
pub proof fn lemma_template_lines_shape(cfg: &Config)
    requires
        cfg.template is Some,
    ensures
        all_shaped(cfg.template_seq(), gen_output(cfg)),
{
    lemma_tmpl_shape_ok(
        cfg.template_seq(),
        cfg.template_seq(),
        0,
        cfg.charset@,
        cfg.no_duplicates,
    );
}

// ---------------------------------------------------------------------
// Template mode, suppressed: count equals generation
// ---------------------------------------------------------------------

/// The character rendered just before position `i`, if any.
pub open spec fn prev_of(w: Seq<char>, i: int) -> Option<char> {
    if i <= 0 {
        None
    } else {
        Some(w[i - 1])
    }
}

/// Whether the previous character forbids `c` next.
pub open spec fn blk_opt(prev: Option<char>, c: char) -> bool {
    match prev {
        Some(a) => blocked_pair(a, c),
        None => false,
    }
}

/// Suppressed-valid ways to render positions `i` onward, given the
/// character standing just before them.
pub open spec fn count_words(t: Seq<char>, cs: Seq<char>, i: int, prev: Option<char>) -> nat
    decreases t.len() - i, 1int, 0int,
{
    if i < 0 {
        0
    } else if i >= t.len() {
        1
    } else if is_slot(t[i]) {
        count_words_from(t, cs, i, prev, 0)
    } else if blk_opt(prev, t[i]) {
        0
    } else {
        count_words(t, cs, i + 1, Some(t[i]))
    }
}

/// The same count over the alphabet branches `j` onward of the slot at
/// position `i`.
pub open spec fn count_words_from(
    t: Seq<char>,
    cs: Seq<char>,
    i: int,
    prev: Option<char>,
    j: int,
) -> nat
    decreases t.len() - i, 0int, slot_alph(t[i], cs).len() - j,
{
    let alph = slot_alph(t[i], cs);
    if i < 0 || i >= t.len() || j < 0 || j >= alph.len() {
        0
    } else {
        (if blk_opt(prev, alph[j]) {
            0nat
        } else {
            count_words(t, cs, i + 1, Some(alph[j]))
        }) + count_words_from(t, cs, i, prev, j + 1)
    }
}

proof fn lemma_digits_are_digits()
    ensures
        forall|j: int|
            0 <= j < digits_seq().len() ==> is_digit_char(#[trigger] digits_seq()[j]),
{
    assert forall|j: int|
        0 <= j < digits_seq().len() implies is_digit_char(digits_seq()[j]) by {
        if j == 0 {
            assert(digits_seq()[0] == '0');
        } else if j == 1 {
            assert(digits_seq()[1] == '1');
        } else if j == 2 {
            assert(digits_seq()[2] == '2');
        } else if j == 3 {
            assert(digits_seq()[3] == '3');
        } else if j == 4 {
            assert(digits_seq()[4] == '4');
        } else if j == 5 {
            assert(digits_seq()[5] == '5');
        } else if j == 6 {
            assert(digits_seq()[6] == '6');
        } else if j == 7 {
            assert(digits_seq()[7] == '7');
        } else if j == 8 {
            assert(digits_seq()[8] == '8');
        } else {
            assert(digits_seq()[9] == '9');
        }
    }
}

proof fn lemma_emit_count_from(t: Seq<char>, w: Seq<char>, i: int, cs: Seq<char>, j: int)
    requires
        template_shape_ok(t, w),
        0 <= i < t.len(),
        is_slot(t[i]),
        0 <= j <= slot_alph(t[i], cs).len(),
    ensures
        tmpl_emit_from(t, w, i, cs, true, j).len() == if has_adjacent_repeat(w.subrange(0, i)) {
            0nat
        } else {
            count_words_from(t, cs, i, prev_of(w, i), j)
        },
    decreases t.len() - i, 0int, slot_alph(t[i], cs).len() - j,
{
    let alph = slot_alph(t[i], cs);
    let pre = w.subrange(0, i);
    if j == alph.len() {
        assert(tmpl_emit_from(t, w, i, cs, true, j).len() == 0);
    } else {
        let c = alph[j];
        let w2 = w.update(i, c);
        assert(template_shape_ok(t, w2));
        lemma_emit_count(t, w2, i + 1, cs);
        lemma_emit_count_from(t, w, i, cs, j + 1);
        assert(w2.subrange(0, i + 1) =~= pre.push(c));
        lemma_repeat_push(pre, c);
        assert(pre.len() == i);
        if i > 0 {
            assert(pre[i - 1] == w[i - 1]);
        }
        assert(has_adjacent_repeat(w2.subrange(0, i + 1)) <==> (has_adjacent_repeat(pre)
            || blk_opt(prev_of(w, i), c)));
        assert(prev_of(w2, i + 1) == Some(c));
    }
}

/// The suppressed template emission count factors through the
/// previous-character recurrence: from a clean prefix it is
/// `count_words`, from a prefix already holding a repeat it is zero.
pub proof fn lemma_emit_count(t: Seq<char>, w: Seq<char>, i: int, cs: Seq<char>)
    requires
        template_shape_ok(t, w),
        0 <= i <= t.len(),
    ensures
        tmpl_emit(t, w, i, cs, true).len() == if has_adjacent_repeat(w.subrange(0, i)) {
            0nat
        } else {
            count_words(t, cs, i, prev_of(w, i))
        },
    decreases t.len() - i, 1int, 0int,
{
    if i >= t.len() {
        assert(w.subrange(0, i) =~= w);
    } else if is_slot(t[i]) {
        lemma_emit_count_from(t, w, i, cs, 0);
    } else {
        lemma_emit_count(t, w, i + 1, cs);
        let pre = w.subrange(0, i);
        assert(w.subrange(0, i + 1) =~= pre.push(w[i]));
        lemma_repeat_push(pre, w[i]);
        assert(pre.len() == i);
        if i > 0 {
            assert(pre[i - 1] == w[i - 1]);
        }
        assert(w[i] == t[i]);
        assert(prev_of(w, i + 1) == Some(t[i]));
        assert(has_adjacent_repeat(w.subrange(0, i + 1)) <==> (has_adjacent_repeat(pre)
            || blk_opt(prev_of(w, i), t[i])));
    }
}

/// Whether the character before position `i` could change the count
/// there: only a non-digit equal to a reachable first character can.
pub open spec fn interferes(t: Seq<char>, cs: Seq<char>, i: int, prev: Option<char>) -> bool {
    &&& i < t.len()
    &&& match prev {
        Some(a) => !is_digit_char(a) && ((t[i] == '@' && cs.contains(a)) || (!is_slot(t[i])
            && t[i] == a)),
        None => false,
    }
}

proof fn lemma_cw_prev_from(t: Seq<char>, cs: Seq<char>, i: int, prev: Option<char>, j: int)
    requires
        0 <= i < t.len(),
        is_slot(t[i]),
        !interferes(t, cs, i, prev),
        0 <= j <= slot_alph(t[i], cs).len(),
    ensures
        count_words_from(t, cs, i, prev, j) == count_words_from(t, cs, i, None, j),
    decreases slot_alph(t[i], cs).len() - j,
{
    let alph = slot_alph(t[i], cs);
    if j < alph.len() {
        lemma_cw_prev_from(t, cs, i, prev, j + 1);
        if t[i] == '@' {
            assert(cs.contains(alph[j]));
            assert(!blk_opt(prev, alph[j]));
        } else {
            lemma_digits_are_digits();
            assert(is_digit_char(alph[j]));
            assert(!blk_opt(prev, alph[j]));
        }
    }
}

/// A previous character that does not interfere at position `i` leaves
/// the count unchanged.
pub proof fn lemma_cw_prev(t: Seq<char>, cs: Seq<char>, i: int, prev: Option<char>)
    requires
        0 <= i,
        !interferes(t, cs, i, prev),
    ensures
        count_words(t, cs, i, prev) == count_words(t, cs, i, None),
{
    if i >= t.len() {
    } else if is_slot(t[i]) {
        lemma_cw_prev_from(t, cs, i, prev, 0);
    } else {
        assert(!blk_opt(prev, t[i]));
    }
}

/// The suppressed template count from position `i` with the scan's
/// `last was a charset slot` flag coming in.
pub open spec fn tmpl_nd_suffix(t: Seq<char>, n: nat, i: int, flag: bool) -> nat
    decreases t.len() - i,
{
    if i < 0 || i >= t.len() {
        1
    } else if t[i] == '@' {
        (if n == 0 {
            0nat
        } else if flag {
            (n - 1) as nat
        } else {
            n
        }) * tmpl_nd_suffix(t, n, i + 1, true)
    } else if t[i] == '%' {
        10 * tmpl_nd_suffix(t, n, i + 1, false)
    } else {
        tmpl_nd_suffix(t, n, i + 1, false)
    }
}

/// When the template-level scan counts the suppressed output exactly:
/// the charset is distinct and digit-free, no two adjacent literals form
/// a blocked pair, and no literal beside a `@` slot is itself in the
/// charset.
pub open spec fn nd_exact_conditions(t: Seq<char>, cs: Seq<char>) -> bool {
    &&& charset_distinct(cs)
    &&& charset_digit_free(cs)
    &&& forall|i: int|
        0 <= i && i + 1 < t.len() && !is_slot(#[trigger] t[i]) && !is_slot(t[i + 1])
            ==> !blocked_pair(t[i], t[i + 1])
    &&& forall|i: int|
        0 <= i && i + 1 < t.len() && #[trigger] t[i] == '@' && !is_slot(t[i + 1])
            ==> !cs.contains(t[i + 1])
    &&& forall|i: int|
        0 <= i && i + 1 < t.len() && !is_slot(#[trigger] t[i]) && t[i + 1] == '@'
            ==> !cs.contains(t[i])
}

/// A literal at `i` in the charset would make the count there depend on
/// which charset character came before.
pub open spec fn prev_slot_safe(t: Seq<char>, cs: Seq<char>, i: int) -> bool {
    i >= t.len() || is_slot(t[i]) || !cs.contains(t[i])
}

proof fn lemma_cw_from_uniform(
    t: Seq<char>,
    cs: Seq<char>,
    i: int,
    prev: Option<char>,
    j: int,
    v: nat,
)
    requires
        0 <= i < t.len(),
        is_slot(t[i]),
        0 <= j <= slot_alph(t[i], cs).len(),
        forall|k: int|
            j <= k < slot_alph(t[i], cs).len() ==> !blk_opt(prev, #[trigger] slot_alph(t[i], cs)[k]),
        forall|k: int|
            j <= k < slot_alph(t[i], cs).len() ==> count_words(
                t,
                cs,
                i + 1,
                Some(#[trigger] slot_alph(t[i], cs)[k]),
            ) == v,
    ensures
        count_words_from(t, cs, i, prev, j) == (slot_alph(t[i], cs).len() - j) * v,
    decreases slot_alph(t[i], cs).len() - j,
{
    let alph = slot_alph(t[i], cs);
    if j == alph.len() {
        assert((alph.len() - j) * v == 0) by (nonlinear_arith)
            requires
                alph.len() - j == 0,
        ;
    } else {
        lemma_cw_from_uniform(t, cs, i, prev, j + 1, v);
        assert(count_words_from(t, cs, i, prev, j) == v + (alph.len() - j - 1) * v);
        assert((alph.len() - j) * v == v + (alph.len() - j - 1) * v) by (nonlinear_arith)
            requires
                alph.len() - j >= 1,
                v >= 0,
        ;
    }
}

proof fn lemma_cw_from_blocked_one(
    t: Seq<char>,
    cs: Seq<char>,
    i: int,
    c: char,
    j: int,
    v: nat,
)
    requires
        0 <= i < t.len(),
        t[i] == '@',
        !is_digit_char(c),
        0 <= j <= cs.len(),
        forall|k: int|
            j <= k < cs.len() ==> count_words(t, cs, i + 1, Some(#[trigger] cs[k])) == v,
    ensures
        count_words_from(t, cs, i, Some(c), j) == ((cs.len() - j) - occ_from(cs, j, c)) * v,
        occ_from(cs, j, c) <= cs.len() - j,
    decreases cs.len() - j,
{
    if j == cs.len() {
        assert(((cs.len() - j) - occ_from(cs, j, c)) * v == 0) by (nonlinear_arith)
            requires
                (cs.len() - j) - occ_from(cs, j, c) == 0,
        ;
    } else {
        lemma_cw_from_blocked_one(t, cs, i, c, j + 1, v);
        let rest = ((cs.len() - j - 1) - occ_from(cs, j + 1, c)) as nat;
        if cs[j] == c {
            assert(blk_opt(Some(c), cs[j]));
            assert(count_words_from(t, cs, i, Some(c), j) == rest * v);
            assert(((cs.len() - j) - occ_from(cs, j, c)) == rest);
        } else {
            assert(!blk_opt(Some(c), cs[j]));
            assert(count_words_from(t, cs, i, Some(c), j) == v + rest * v);
            assert(((cs.len() - j) - occ_from(cs, j, c)) == rest + 1);
            assert((rest + 1) * v == v + rest * v) by (nonlinear_arith);
        }
    }
}

/// Under the exactness conditions the previous-character recurrence
/// collapses to the template-level scan: with no charset character
/// pending the count is the flag-false product, with one pending (where
/// that can arise) the flag-true product.
pub proof fn lemma_cw_formula(t: Seq<char>, cs: Seq<char>, i: int)
    requires
        nd_exact_conditions(t, cs),
        0 <= i <= t.len(),
    ensures
        count_words(t, cs, i, None) == tmpl_nd_suffix(t, cs.len(), i, false),
        prev_slot_safe(t, cs, i) ==> forall|c: char|
            cs.contains(c) ==> count_words(t, cs, i, Some(c)) == tmpl_nd_suffix(
                t,
                cs.len(),
                i,
                true,
            ),
    decreases t.len() - i,
{
    let n = cs.len();
    if i == t.len() {
    } else {
        lemma_cw_formula(t, cs, i + 1);
        if t[i] == '@' {
            let v = tmpl_nd_suffix(t, n, i + 1, true);
            assert(prev_slot_safe(t, cs, i + 1));
            assert(forall|k: int|
                0 <= k < cs.len() ==> count_words(t, cs, i + 1, Some(#[trigger] cs[k])) == v) by {
                assert(forall|k: int| 0 <= k < cs.len() ==> cs.contains(#[trigger] cs[k]));
            }
            assert(forall|k: int| 0 <= k < cs.len() ==> !blk_opt(None, #[trigger] cs[k]));
            lemma_cw_from_uniform(t, cs, i, None, 0, v);
            assert(count_words(t, cs, i, None) == n * v);
            assert(tmpl_nd_suffix(t, n, i, false) == (if n == 0 {
                0nat
            } else {
                n
            }) * v);
            if n == 0 {
                assert(n * v == 0) by (nonlinear_arith)
                    requires
                        n == 0,
                ;
                assert(0nat * v == 0) by (nonlinear_arith);
            }
            assert forall|c: char| cs.contains(c) implies count_words(t, cs, i, Some(c))
                == tmpl_nd_suffix(t, n, i, true) by {
                assert(!is_digit_char(c));
                lemma_cw_from_blocked_one(t, cs, i, c, 0, v);
                lemma_occ_from_distinct(cs, 0, c);
                assert(occ_from(cs, 0, c) == 1);
                assert(count_words(t, cs, i, Some(c)) == ((n - 1) as nat) * v);
                assert(tmpl_nd_suffix(t, n, i, true) == ((n - 1) as nat) * v);
            }
        } else if t[i] == '%' {
            let v = tmpl_nd_suffix(t, n, i + 1, false);
            lemma_digits_are_digits();
            assert(forall|k: int|
                0 <= k < digits_seq().len() ==> count_words(
                    t,
                    cs,
                    i + 1,
                    Some(#[trigger] digits_seq()[k]),
                ) == v) by {
                assert forall|k: int|
                    0 <= k < digits_seq().len() implies count_words(
                    t,
                    cs,
                    i + 1,
                    Some(digits_seq()[k]),
                ) == v by {
                    assert(is_digit_char(digits_seq()[k]));
                    assert(!interferes(t, cs, i + 1, Some(digits_seq()[k])));
                    lemma_cw_prev(t, cs, i + 1, Some(digits_seq()[k]));
                }
            }
            assert(forall|k: int|
                0 <= k < digits_seq().len() ==> !blk_opt(None, #[trigger] digits_seq()[k]));
            lemma_cw_from_uniform(t, cs, i, None, 0, v);
            assert(count_words(t, cs, i, None) == 10 * v);
            assert forall|c: char| cs.contains(c) implies count_words(t, cs, i, Some(c))
                == tmpl_nd_suffix(t, n, i, true) by {
                assert(!is_digit_char(c));
                assert forall|k: int|
                    0 <= k < digits_seq().len() implies !blk_opt(
                    Some(c),
                    digits_seq()[k],
                ) by {
                    assert(is_digit_char(digits_seq()[k]));
                }
                lemma_cw_from_uniform(t, cs, i, Some(c), 0, v);
            }
        } else {
            let d = t[i];
            assert(!blk_opt(None, d));
            assert(!interferes(t, cs, i + 1, Some(d))) by {
                if i + 1 < t.len() {
                    if t[i + 1] == '@' {
                        assert(!cs.contains(d));
                    } else if !is_slot(t[i + 1]) {
                        assert(!blocked_pair(t[i], t[i + 1]));
                    }
                }
            }
            lemma_cw_prev(t, cs, i + 1, Some(d));
            assert(count_words(t, cs, i, None) == count_words(t, cs, i + 1, None));
            if prev_slot_safe(t, cs, i) {
                assert forall|c: char| cs.contains(c) implies count_words(t, cs, i, Some(c))
                    == tmpl_nd_suffix(t, n, i, true) by {
                    assert(!cs.contains(d));
                    assert(!blk_opt(Some(c), d)) by {
                        if c == d {
                            assert(cs.contains(d));
                        }
                    }
                    assert(count_words(t, cs, i, Some(c)) == count_words(t, cs, i + 1, Some(d)));
                }
            }
        }
    }
}

proof fn lemma_prefix_suffix(t: Seq<char>, n: nat, i: int)
    requires
        0 <= i <= t.len(),
    ensures
        tmpl_nd_prefix(t, n, t.len() as int) == tmpl_nd_prefix(t, n, i) * tmpl_nd_suffix(
            t,
            n,
            i,
            flag_at(t, i),
        ),
    decreases t.len() - i,
{
    if i == t.len() {
        assert(tmpl_nd_prefix(t, n, i) * 1 == tmpl_nd_prefix(t, n, i)) by (nonlinear_arith);
    } else {
        lemma_prefix_suffix(t, n, i + 1);
        let fa = flag_at(t, i);
        let fac = nd_factor(t, n, i);
        let rest = tmpl_nd_suffix(t, n, i + 1, flag_at(t, i + 1));
        if t[i] == '@' {
            assert(flag_at(t, i + 1));
            assert(tmpl_nd_suffix(t, n, i, fa) == (if n == 0 {
                0nat
            } else if fa {
                (n - 1) as nat
            } else {
                n
            }) * tmpl_nd_suffix(t, n, i + 1, true));
        } else if t[i] == '%' {
            assert(!flag_at(t, i + 1));
            assert(tmpl_nd_suffix(t, n, i, fa) == 10 * tmpl_nd_suffix(t, n, i + 1, false));
        } else {
            assert(!flag_at(t, i + 1));
            assert(tmpl_nd_suffix(t, n, i, fa) == tmpl_nd_suffix(t, n, i + 1, false));
            assert(fac * rest == rest) by (nonlinear_arith)
                requires
                    fac == 1,
            ;
        }
        assert(tmpl_nd_suffix(t, n, i, fa) == fac * rest);
        assert(tmpl_nd_prefix(t, n, i + 1) == tmpl_nd_prefix(t, n, i) * fac);
        assert(tmpl_nd_prefix(t, n, i) * (fac * rest) == (tmpl_nd_prefix(t, n, i) * fac) * rest)
            by (nonlinear_arith);
    }
}

/// Under the exactness conditions the suppressed template count formula
/// equals the number of emitted lines.
pub proof fn lemma_count_matches_generation_template_nd(cfg: &Config)
    requires
        cfg.wf(),
        cfg.template is Some,
        cfg.no_duplicates,
        nd_exact_conditions(cfg.template_seq(), cfg.charset@),
    ensures
        size_count(cfg) == gen_output(cfg).len(),
{
    let t = cfg.template_seq();
    let cs = cfg.charset@;
    let n = cs.len();
    assert(template_shape_ok(t, t));
    lemma_emit_count(t, t, 0, cs);
    assert(t.subrange(0, 0) =~= Seq::<char>::empty());
    assert(!has_adjacent_repeat(Seq::<char>::empty()));
    lemma_cw_formula(t, cs, 0);
    lemma_prefix_suffix(t, n, 0);
    assert(tmpl_nd_prefix(t, n, 0) == 1);
    assert(1 * tmpl_nd_suffix(t, n, 0, false) == tmpl_nd_suffix(t, n, 0, false))
        by (nonlinear_arith);
    assert(!flag_at(t, 0));
}

// ---------------------------------------------------------------------
// Determinism
// ---------------------------------------------------------------------

/// Generation is a function of the configuration alone: two runs that
/// both produced the specified output produced the same lines in the
/// same order.
pub proof fn lemma_generation_deterministic(cfg: &Config, a: Seq<Seq<char>>, b: Seq<Seq<char>>)
    requires
        a == gen_output(cfg),
        b == gen_output(cfg),
    ensures
        a == b,
{
}

// ---------------------------------------------------------------------
// Count / generation consistency
// ---------------------------------------------------------------------

/// The precomputed total equals the number of emitted lines. Under
/// suppression the charset must be distinct and digit-free, where the
/// closed range formula is exact; a suppressed template must further
/// meet the exactness conditions, since its count approximates
/// adjacency at the template level.
pub proof fn lemma_count_matches_generation(cfg: &Config)
    requires
        cfg.wf(),
        cfg.no_duplicates ==> charset_distinct(cfg.charset@) && charset_digit_free(cfg.charset@),
        cfg.template is Some && cfg.no_duplicates ==> nd_exact_conditions(
            cfg.template_seq(),
            cfg.charset@,
        ),
    ensures
        size_count(cfg) == gen_output(cfg).len(),
{
    match cfg.template {
        Some(_) => {
            if cfg.no_duplicates {
                lemma_count_matches_generation_template_nd(cfg);
            } else {
                lemma_tmpl_plain_emit(cfg.template_seq(), cfg.template_seq(), 0, cfg.charset@);
                lemma_tmpl_ticks_product(cfg.template_seq(), 0, cfg.charset@);
            }
        },
        None => {
            lemma_range_count_matches(
                cfg.charset@,
                cfg.no_duplicates,
                cfg.min_len as int,
                cfg.max_len as int,
            );
        },
    }
}

// ---------------------------------------------------------------------
// Candidate budget
// ---------------------------------------------------------------------

proof fn lemma_range_ticks_le_from(p: Seq<char>, l: nat, cs: Seq<char>, nd: bool, i: int)
    requires
        l >= 1,
        0 <= i <= cs.len(),
    ensures
        range_ticks_from(p, l, cs, nd, i) <= (cs.len() - i) * pow_nat(cs.len(), (l - 1) as nat),
    decreases l, cs.len() - i,
{
    let n = cs.len();
    let pw = pow_nat(n, (l - 1) as nat);
    if i == n {
    } else {
        lemma_range_ticks_le(p.push(cs[i]), (l - 1) as nat, cs, nd);
        lemma_range_ticks_le_from(p, l, cs, nd, i + 1);
        assert((n - i) * pw == (n - i - 1) * pw + pw) by (nonlinear_arith);
    }
}

/// Suppression only prunes: the candidates considered never exceed the
/// unsuppressed total.
pub proof fn lemma_range_ticks_le(p: Seq<char>, l: nat, cs: Seq<char>, nd: bool)
    ensures
        range_ticks(p, l, cs, nd) <= pow_nat(cs.len(), l),
    decreases l, cs.len() + 1,
{
    if l == 0 {
    } else {
        lemma_range_ticks_le_from(p, l, cs, nd, 0);
    }
}

proof fn lemma_gen_range_ticks_le(cs: Seq<char>, nd: bool, lo: int, hi: int)
    ensures
        gen_range_ticks(cs, nd, lo, hi) <= range_count(cs.len(), lo, hi, false),
    decreases hi + 1 - lo,
{
    if lo > hi || lo < 0 {
    } else {
        lemma_range_ticks_le(Seq::empty(), lo as nat, cs, nd);
        lemma_gen_range_ticks_le(cs, nd, lo + 1, hi);
    }
}

/// The candidates generation will consider never exceed the budget that
/// `count_candidates` computes: a caller that saw `Some(v)` with
/// `v <= u64::MAX - progress.current` may run generation.
pub proof fn lemma_ticks_within_budget(cfg: &Config)
    ensures
        gen_ticks(cfg) <= candidate_budget(cfg),
{
    match cfg.template {
        Some(_) => {
            lemma_tmpl_ticks_product(cfg.template_seq(), 0, cfg.charset@);
        },
        None => {
            lemma_gen_range_ticks_le(
                cfg.charset@,
                cfg.no_duplicates,
                cfg.min_len as int,
                cfg.max_len as int,
            );
        },
    }
}

} // verus!
