//! Range-mode generation: every string of each requested length over the
//! charset, in charset order with the leftmost position changing slowest,
//! pruned under duplicate suppression.

use vstd::prelude::*;
use crate::chars::{blocked_pair, chars_have_adjacent_repeat, chars_to_string, char_is_digit,
    has_adjacent_repeat};
use crate::progress::Progress;

verus! {

/// Whether `c` may extend the prefix `p`: under suppression a character
/// equal to the last one is pruned unless it is a digit.
pub open spec fn step_allowed(p: Seq<char>, c: char, nd: bool) -> bool {
    !(nd && p.len() > 0 && blocked_pair(p[p.len() - 1], c))
}

/// The words emitted below prefix `p` with `l` positions left to fill:
/// depth-first over the charset in order, with a final suppression check
/// on each completed word.
pub open spec fn range_emit(p: Seq<char>, l: nat, cs: Seq<char>, nd: bool) -> Seq<Seq<char>>
    decreases l, cs.len() + 1,
{
    if l == 0 {
        if !nd || !has_adjacent_repeat(p) {
            seq![p]
        } else {
            Seq::empty()
        }
    } else {
        range_emit_from(p, l, cs, nd, 0)
    }
}

/// The words emitted below `p` for charset branches `i` onward.
pub open spec fn range_emit_from(p: Seq<char>, l: nat, cs: Seq<char>, nd: bool, i: int) -> Seq<
    Seq<char>,
>
    decreases l, cs.len() - i,
{
    if l == 0 || i < 0 || i >= cs.len() {
        Seq::empty()
    } else {
        (if step_allowed(p, cs[i], nd) {
            range_emit(p.push(cs[i]), (l - 1) as nat, cs, nd)
        } else {
            Seq::empty()
        }) + range_emit_from(p, l, cs, nd, i + 1)
    }
}

/// Progress units signalled below prefix `p`: one per completed word
/// reached (pruned branches are never completed).
pub open spec fn range_ticks(p: Seq<char>, l: nat, cs: Seq<char>, nd: bool) -> nat
    decreases l, cs.len() + 1,
{
    if l == 0 {
        1
    } else {
        range_ticks_from(p, l, cs, nd, 0)
    }
}

/// Progress units for charset branches `i` onward.
pub open spec fn range_ticks_from(p: Seq<char>, l: nat, cs: Seq<char>, nd: bool, i: int) -> nat
    decreases l, cs.len() - i,
{
    if l == 0 || i < 0 || i >= cs.len() {
        0
    } else {
        (if step_allowed(p, cs[i], nd) {
            range_ticks(p.push(cs[i]), (l - 1) as nat, cs, nd)
        } else {
            0
        }) + range_ticks_from(p, l, cs, nd, i + 1)
    }
}

/// Extends `current` in place with every combination of `length` further
/// charset characters, appending each completed word that survives
/// suppression to `out`, in charset order, and ticking `progress` once
/// per completed word.
pub fn generate_all_combinations(
    current: &mut Vec<char>,
    length: usize,
    charset: &Vec<char>,
    out: &mut Vec<String>,
    progress: &mut Progress,
    no_duplicates: bool,
)
    requires
        old(progress).current + range_ticks(
            old(current)@,
            length as nat,
            charset@,
            no_duplicates,
        ) <= u64::MAX,
    ensures
        final(current)@ == old(current)@,
        final(out)@.map_values(|s: String| s@) == old(out)@.map_values(|s: String| s@)
            + range_emit(old(current)@, length as nat, charset@, no_duplicates),
        final(progress).current == old(progress).current + range_ticks(
            old(current)@,
            length as nat,
            charset@,
            no_duplicates,
        ),
        final(progress).total == old(progress).total,
        old(progress).last_percentage <= final(progress).last_percentage,
    decreases length,
{
    let ghost p = old(current)@;
    let ghost cs = charset@;
    let ghost nd = no_duplicates;
    let ghost l = length as nat;
    let ghost out0 = old(out)@.map_values(|s: String| s@);
    let ghost cur0 = old(progress).current;
    if length == 0 {
        let emit_it = if no_duplicates {
            !chars_have_adjacent_repeat(current)
        } else {
            true
        };
        if emit_it {
            let line = chars_to_string(current);
            out.push(line);
            proof {
                assert(out@.map_values(|s: String| s@) =~= out0 + range_emit(p, 0, cs, nd));
            }
        } else {
            proof {
                assert(out@.map_values(|s: String| s@) =~= out0 + range_emit(p, 0, cs, nd));
            }
        }
        let _ = progress.increment();
        return ;
    }
    let n = charset.len();
    let mut i: usize = 0;
    while i < n
        invariant
            n == cs.len(),
            0 <= i <= n,
            length >= 1,
            l == length as nat,
            cs == charset@,
            nd == no_duplicates,
            current@ == p,
            out@.map_values(|s: String| s@) + range_emit_from(p, l, cs, nd, i as int) == out0
                + range_emit_from(p, l, cs, nd, 0),
            progress.current + range_ticks_from(p, l, cs, nd, i as int) == cur0
                + range_ticks_from(p, l, cs, nd, 0),
            cur0 + range_ticks_from(p, l, cs, nd, 0) <= u64::MAX,
            progress.total == old(progress).total,
            old(progress).last_percentage <= progress.last_percentage,
        decreases n - i,
    {
        let c = charset[i];
        let mut allowed = true;
        if no_duplicates && current.len() > 0 {
            let last = current[current.len() - 1];
            if c == last && !char_is_digit(c) {
                allowed = false;
            }
        }
        assert(allowed == step_allowed(p, cs[i as int], nd));
        let ghost out_pre = out@.map_values(|s: String| s@);
        let ghost cur_pre = progress.current;
        if allowed {
            current.push(c);
            generate_all_combinations(current, length - 1, charset, out, progress, no_duplicates);
            let _ = current.pop();
            proof {
                assert(current@ =~= p);
                let child_e = range_emit(p.push(cs[i as int]), (l - 1) as nat, cs, nd);
                let child_t = range_ticks(p.push(cs[i as int]), (l - 1) as nat, cs, nd);
                assert(range_emit_from(p, l, cs, nd, i as int) == child_e + range_emit_from(
                    p,
                    l,
                    cs,
                    nd,
                    i as int + 1,
                ));
                assert((out_pre + child_e) + range_emit_from(p, l, cs, nd, i as int + 1) =~= out_pre
                    + (child_e + range_emit_from(p, l, cs, nd, i as int + 1)));
                assert(range_ticks_from(p, l, cs, nd, i as int) == child_t + range_ticks_from(
                    p,
                    l,
                    cs,
                    nd,
                    i as int + 1,
                ));
            }
        } else {
            proof {
                assert(range_emit_from(p, l, cs, nd, i as int) =~= Seq::<Seq<char>>::empty()
                    + range_emit_from(p, l, cs, nd, i as int + 1));
                assert(Seq::<Seq<char>>::empty() + range_emit_from(p, l, cs, nd, i as int + 1)
                    =~= range_emit_from(p, l, cs, nd, i as int + 1));
            }
        }
        i = i + 1;
    }
    proof {
        assert(range_emit_from(p, l, cs, nd, n as int) =~= Seq::<Seq<char>>::empty());
        assert(out@.map_values(|s: String| s@) + Seq::<Seq<char>>::empty() =~= out@.map_values(
            |s: String| s@,
        ));
        assert(range_emit(p, l, cs, nd) == range_emit_from(p, l, cs, nd, 0));
        assert(range_ticks(p, l, cs, nd) == range_ticks_from(p, l, cs, nd, 0));
    }
}

} // verus!
