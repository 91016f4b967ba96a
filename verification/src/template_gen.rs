//! Template-mode generation: the template is rendered position by
//! position, `@` slots drawing from the charset, `%` slots from the ten
//! decimal digits, literals passing through unchanged; each fully
//! rendered word is checked against the suppression rule as a whole.

use vstd::prelude::*;
use crate::chars::{chars_have_adjacent_repeat, chars_to_string, has_adjacent_repeat, str_chars};
use crate::config::Config;
use crate::count::is_slot;
use crate::progress::Progress;

verus! {

/// The digit alphabet used for `%` slots, in natural order.
pub open spec fn digits_seq() -> Seq<char> {
    seq!['0', '1', '2', '3', '4', '5', '6', '7', '8', '9']
}

/// The alphabet a slot position offers.
pub open spec fn slot_alph(c: char, cs: Seq<char>) -> Seq<char> {
    if c == '@' {
        cs
    } else {
        digits_seq()
    }
}

/// The words emitted from position `i` onward of template `t`, the
/// buffer `w` holding the rendered choices for positions before `i` and
/// the template's own characters elsewhere.
pub open spec fn tmpl_emit(t: Seq<char>, w: Seq<char>, i: int, cs: Seq<char>, nd: bool) -> Seq<
    Seq<char>,
>
    decreases t.len() - i, 1int, 0int,
{
    if i < 0 {
        Seq::empty()
    } else if i >= t.len() {
        if !nd || !has_adjacent_repeat(w) {
            seq![w]
        } else {
            Seq::empty()
        }
    } else if is_slot(t[i]) {
        tmpl_emit_from(t, w, i, cs, nd, 0)
    } else {
        tmpl_emit(t, w, i + 1, cs, nd)
    }
}

/// The words emitted for the alphabet branches `j` onward of the slot at
/// position `i`.
pub open spec fn tmpl_emit_from(
    t: Seq<char>,
    w: Seq<char>,
    i: int,
    cs: Seq<char>,
    nd: bool,
    j: int,
) -> Seq<Seq<char>>
    decreases t.len() - i, 0int, slot_alph(t[i], cs).len() - j,
{
    let alph = slot_alph(t[i], cs);
    if i < 0 || i >= t.len() || j < 0 || j >= alph.len() {
        Seq::empty()
    } else {
        tmpl_emit(t, w.update(i, alph[j]), i + 1, cs, nd) + tmpl_emit_from(t, w, i, cs, nd, j + 1)
    }
}

/// Progress units from position `i` onward: one per fully rendered word,
/// suppressed or not.
pub open spec fn tmpl_ticks(t: Seq<char>, i: int, cs: Seq<char>) -> nat
    decreases t.len() - i,
{
    if i < 0 || i >= t.len() {
        1
    } else if t[i] == '@' {
        cs.len() * tmpl_ticks(t, i + 1, cs)
    } else if t[i] == '%' {
        10 * tmpl_ticks(t, i + 1, cs)
    } else {
        tmpl_ticks(t, i + 1, cs)
    }
}

/// Renders every choice for positions `i` onward of the template,
/// emitting each completed word that survives suppression and ticking
/// `progress` once per completed word.
fn fill_from(
    tc: &Vec<char>,
    word: &mut Vec<char>,
    i: usize,
    cs: &Vec<char>,
    digits: &Vec<char>,
    out: &mut Vec<String>,
    progress: &mut Progress,
    nd: bool,
)
    requires
        old(word)@.len() == tc@.len(),
        i <= tc@.len(),
        digits@ == digits_seq(),
        old(progress).current + tmpl_ticks(tc@, i as int, cs@) <= u64::MAX,
    ensures
        final(word)@ == old(word)@,
        final(out)@.map_values(|s: String| s@) == old(out)@.map_values(|s: String| s@) + tmpl_emit(
            tc@,
            old(word)@,
            i as int,
            cs@,
            nd,
        ),
        final(progress).current == old(progress).current + tmpl_ticks(tc@, i as int, cs@),
        final(progress).total == old(progress).total,
        old(progress).last_percentage <= final(progress).last_percentage,
    decreases tc@.len() - i, 1int, 0int,
{
    let ghost w0 = old(word)@;
    let ghost out0 = old(out)@.map_values(|s: String| s@);
    if i == tc.len() {
        let emit_it = if nd {
            !chars_have_adjacent_repeat(word)
        } else {
            true
        };
        if emit_it {
            let line = chars_to_string(word);
            out.push(line);
            proof {
                assert(out@.map_values(|s: String| s@) =~= out0 + tmpl_emit(
                    tc@,
                    w0,
                    i as int,
                    cs@,
                    nd,
                ));
            }
        } else {
            proof {
                assert(out@.map_values(|s: String| s@) =~= out0 + tmpl_emit(
                    tc@,
                    w0,
                    i as int,
                    cs@,
                    nd,
                ));
            }
        }
        let _ = progress.increment();
        return ;
    }
    let c = tc[i];
    if c == '@' {
        fill_slot(tc, word, i, cs, digits, cs, out, progress, nd);
    } else if c == '%' {
        fill_slot(tc, word, i, cs, digits, digits, out, progress, nd);
    } else {
        assert(tmpl_ticks(tc@, i as int, cs@) == tmpl_ticks(tc@, i as int + 1, cs@));
        fill_from(tc, word, i + 1, cs, digits, out, progress, nd);
        assert(tmpl_emit(tc@, w0, i as int, cs@, nd) == tmpl_emit(tc@, w0, i as int + 1, cs@, nd));
    }
}

/// Renders every alphabet choice for the slot at position `i`, restoring
/// the buffer afterwards.
fn fill_slot(
    tc: &Vec<char>,
    word: &mut Vec<char>,
    i: usize,
    cs: &Vec<char>,
    digits: &Vec<char>,
    alph: &Vec<char>,
    out: &mut Vec<String>,
    progress: &mut Progress,
    nd: bool,
)
    requires
        old(word)@.len() == tc@.len(),
        i < tc@.len(),
        digits@ == digits_seq(),
        is_slot(tc@[i as int]),
        alph@ == slot_alph(tc@[i as int], cs@),
        old(progress).current + tmpl_ticks(tc@, i as int, cs@) <= u64::MAX,
    ensures
        final(word)@ == old(word)@,
        final(out)@.map_values(|s: String| s@) == old(out)@.map_values(|s: String| s@)
            + tmpl_emit_from(tc@, old(word)@, i as int, cs@, nd, 0),
        final(progress).current == old(progress).current + tmpl_ticks(tc@, i as int, cs@),
        final(progress).total == old(progress).total,
        old(progress).last_percentage <= final(progress).last_percentage,
    decreases tc@.len() - i, 0int, 0int,
{
    let ghost w0 = old(word)@;
    let ghost out0 = old(out)@.map_values(|s: String| s@);
    let ghost cur0 = old(progress).current;
    let ghost t = tc@;
    let ghost sub = tmpl_ticks(tc@, i as int + 1, cs@);
    proof {
        assert(tmpl_ticks(t, i as int, cs@) == alph@.len() * sub);
    }
    let c0 = word[i];
    let n = alph.len();
    let tlen = tc.len();
    let mut j: usize = 0;
    while j < n
        invariant
            n == alph@.len(),
            0 <= j <= n,
            t == tc@,
            tlen == t.len(),
            i < tlen,
            w0.len() == t.len(),
            word@.len() == t.len(),
            digits@ == digits_seq(),
            is_slot(t[i as int]),
            alph@ == slot_alph(t[i as int], cs@),
            c0 == w0[i as int],
            word@ =~= w0.update(i as int, word@[i as int]),
            sub == tmpl_ticks(t, i as int + 1, cs@),
            out@.map_values(|s: String| s@) + tmpl_emit_from(t, w0, i as int, cs@, nd, j as int)
                == out0 + tmpl_emit_from(t, w0, i as int, cs@, nd, 0),
            progress.current == cur0 + j * sub,
            cur0 + n * sub <= u64::MAX,
            progress.total == old(progress).total,
            old(progress).last_percentage <= progress.last_percentage,
        decreases n - j,
    {
        let ch = alph[j];
        word.set(i, ch);
        proof {
            assert(word@ =~= w0.update(i as int, alph@[j as int]));
            assert((j + 1) * sub <= n * sub) by (nonlinear_arith)
                requires
                    j + 1 <= n,
                    sub >= 0,
            ;
            assert(j * sub + sub == (j + 1) * sub) by (nonlinear_arith);
        }
        let ghost out_pre = out@.map_values(|s: String| s@);
        fill_from(tc, word, i + 1, cs, digits, out, progress, nd);
        proof {
            let child = tmpl_emit(t, w0.update(i as int, alph@[j as int]), i as int + 1, cs@, nd);
            assert(tmpl_emit_from(t, w0, i as int, cs@, nd, j as int) == child + tmpl_emit_from(
                t,
                w0,
                i as int,
                cs@,
                nd,
                j as int + 1,
            ));
            assert((out_pre + child) + tmpl_emit_from(t, w0, i as int, cs@, nd, j as int + 1)
                =~= out_pre + (child + tmpl_emit_from(t, w0, i as int, cs@, nd, j as int + 1)));
        }
        j = j + 1;
    }
    word.set(i, c0);
    proof {
        assert(word@ =~= w0);
        assert(tmpl_emit_from(t, w0, i as int, cs@, nd, n as int) =~= Seq::<Seq<char>>::empty());
        assert(out@.map_values(|s: String| s@) + Seq::<Seq<char>>::empty() =~= out@.map_values(
            |s: String| s@,
        ));
    }
}

/// Builds the digit alphabet.
fn digits_vec() -> (v: Vec<char>)
    ensures
        v@ == digits_seq(),
{
    let mut v: Vec<char> = Vec::new();
    v.push('0');
    v.push('1');
    v.push('2');
    v.push('3');
    v.push('4');
    v.push('5');
    v.push('6');
    v.push('7');
    v.push('8');
    v.push('9');
    proof {
        assert(v@ =~= digits_seq());
    }
    v
}

/// Renders and emits every template choice in odometer order: the last
/// substitutable position changes fastest, the first slowest, matching
/// range mode's most-significant-first order. Each candidate is checked
/// as a fully rendered string, literals included, and `progress` ticks
/// once per candidate whether or not it is emitted.
pub fn generate_from_template(
    config: &Config,
    template: &str,
    out: &mut Vec<String>,
    progress: &mut Progress,
)
    requires
        old(progress).current + tmpl_ticks(template@, 0, config.charset@) <= u64::MAX,
    ensures
        final(out)@.map_values(|s: String| s@) == old(out)@.map_values(|s: String| s@) + tmpl_emit(
            template@,
            template@,
            0,
            config.charset@,
            config.no_duplicates,
        ),
        final(progress).current == old(progress).current + tmpl_ticks(
            template@,
            0,
            config.charset@,
        ),
        final(progress).total == old(progress).total,
        old(progress).last_percentage <= final(progress).last_percentage,
{
    let tc = str_chars(template);
    let mut word = str_chars(template);
    let cs = str_chars(config.charset.as_str());
    let digits = digits_vec();
    fill_from(&tc, &mut word, 0, &cs, &digits, out, progress, config.no_duplicates);
}

} // verus!
