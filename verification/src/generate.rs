//! The generation entry point: dispatches to template mode when a
//! template is set, otherwise enumerates every length of the range.

use vstd::prelude::*;
use crate::chars::str_chars;
use crate::config::Config;
use crate::count::{calculate_size, range_count, size_count, size_overflows, tmpl_plain_count};
use crate::progress::Progress;
use crate::range_gen::{generate_all_combinations, range_emit, range_ticks};
use crate::template_gen::{generate_from_template, tmpl_emit, tmpl_ticks};

verus! {

/// Range-mode output for lengths `lo` through `hi`, shortest first.
pub open spec fn gen_range_words(cs: Seq<char>, nd: bool, lo: int, hi: int) -> Seq<Seq<char>>
    decreases hi + 1 - lo,
{
    if lo > hi || lo < 0 {
        Seq::empty()
    } else {
        range_emit(Seq::empty(), lo as nat, cs, nd) + gen_range_words(cs, nd, lo + 1, hi)
    }
}

/// Range-mode progress units for lengths `lo` through `hi`.
pub open spec fn gen_range_ticks(cs: Seq<char>, nd: bool, lo: int, hi: int) -> nat
    decreases hi + 1 - lo,
{
    if lo > hi || lo < 0 {
        0
    } else {
        range_ticks(Seq::empty(), lo as nat, cs, nd) + gen_range_ticks(cs, nd, lo + 1, hi)
    }
}

/// Every line generation emits for `cfg`, in emission order.
pub open spec fn gen_output(cfg: &Config) -> Seq<Seq<char>> {
    match cfg.template {
        Some(_) => tmpl_emit(
            cfg.template_seq(),
            cfg.template_seq(),
            0,
            cfg.charset@,
            cfg.no_duplicates,
        ),
        None => gen_range_words(
            cfg.charset@,
            cfg.no_duplicates,
            cfg.min_len as int,
            cfg.max_len as int,
        ),
    }
}

/// Every candidate generation considers for `cfg`, emitted or filtered.
pub open spec fn gen_ticks(cfg: &Config) -> nat {
    match cfg.template {
        Some(_) => tmpl_ticks(cfg.template_seq(), 0, cfg.charset@),
        None => gen_range_ticks(
            cfg.charset@,
            cfg.no_duplicates,
            cfg.min_len as int,
            cfg.max_len as int,
        ),
    }
}

/// An upper bound on the candidates considered, computable up front: the
/// unsuppressed total. Suppression only ever prunes candidates.
pub open spec fn candidate_budget(cfg: &Config) -> nat {
    match cfg.template {
        Some(_) => tmpl_plain_count(cfg.template_seq(), cfg.charset@.len()),
        None => range_count(cfg.charset@.len(), cfg.min_len as int, cfg.max_len as int, false),
    }
}

/// Appends every emitted line for `config` to `out`, in the fixed
/// deterministic order, ticking `progress` once per candidate
/// considered.
pub fn generate_words(config: &Config, out: &mut Vec<String>, progress: &mut Progress)
    requires
        old(progress).current + gen_ticks(config) <= u64::MAX,
    ensures
        final(out)@.map_values(|s: String| s@) == old(out)@.map_values(|s: String| s@)
            + gen_output(config),
        final(progress).current == old(progress).current + gen_ticks(config),
        final(progress).total == old(progress).total,
        old(progress).last_percentage <= final(progress).last_percentage,
{
    let ghost out0 = old(out)@.map_values(|s: String| s@);
    let ghost cur0 = old(progress).current;
    match &config.template {
        Some(template) => {
            generate_from_template(config, template.as_str(), out, progress);
        },
        None => {
            let ghost cs = config.charset@;
            let ghost nd = config.no_duplicates;
            let ghost lo = config.min_len as int;
            let ghost hi = config.max_len as int;
            if config.min_len > config.max_len {
                proof {
                    assert(gen_range_words(cs, nd, lo, hi) =~= Seq::<Seq<char>>::empty());
                    assert(out@.map_values(|s: String| s@) + Seq::<Seq<char>>::empty()
                        =~= out@.map_values(|s: String| s@));
                }
                return ;
            }
            let charset = str_chars(config.charset.as_str());
            let mut current: Vec<char> = Vec::new();
            let mut l: usize = config.min_len;
            loop
                invariant_except_break
                    cs == config.charset@,
                    nd == config.no_duplicates,
                    lo == config.min_len as int,
                    hi == config.max_len as int,
                    lo <= l as int <= hi,
                    charset@ == cs,
                    current@ == Seq::<char>::empty(),
                    out@.map_values(|s: String| s@) + gen_range_words(cs, nd, l as int, hi) == out0
                        + gen_range_words(cs, nd, lo, hi),
                    progress.current + gen_range_ticks(cs, nd, l as int, hi) == cur0
                        + gen_range_ticks(cs, nd, lo, hi),
                    cur0 + gen_range_ticks(cs, nd, lo, hi) <= u64::MAX,
                    progress.total == old(progress).total,
                    old(progress).last_percentage <= progress.last_percentage,
                ensures
                    out@.map_values(|s: String| s@) == out0 + gen_range_words(cs, nd, lo, hi),
                    progress.current == cur0 + gen_range_ticks(cs, nd, lo, hi),
                    progress.total == old(progress).total,
                    old(progress).last_percentage <= progress.last_percentage,
                decreases hi - l,
            {
                let ghost out_pre = out@.map_values(|s: String| s@);
                proof {
                    assert(gen_range_ticks(cs, nd, l as int, hi) == range_ticks(
                        Seq::empty(),
                        l as nat,
                        cs,
                        nd,
                    ) + gen_range_ticks(cs, nd, l as int + 1, hi));
                }
                generate_all_combinations(
                    &mut current,
                    l,
                    &charset,
                    out,
                    progress,
                    config.no_duplicates,
                );
                proof {
                    let head = range_emit(Seq::empty(), l as nat, cs, nd);
                    assert(gen_range_words(cs, nd, l as int, hi) == head + gen_range_words(
                        cs,
                        nd,
                        l as int + 1,
                        hi,
                    ));
                    assert((out_pre + head) + gen_range_words(cs, nd, l as int + 1, hi) =~= out_pre
                        + (head + gen_range_words(cs, nd, l as int + 1, hi)));
                }
                if l == config.max_len {
                    proof {
                        assert(gen_range_words(cs, nd, hi + 1, hi) =~= Seq::<Seq<char>>::empty());
                        assert(out@.map_values(|s: String| s@) + Seq::<Seq<char>>::empty()
                            =~= out@.map_values(|s: String| s@));
                    }
                    break ;
                }
                l = l + 1;
            }
        },
    }
}

/// The candidate budget for `config`: what `progress` must be able to
/// absorb before `generate_words` may run. `None` exactly when even that
/// unsuppressed total does not fit in a `u64`.
pub fn count_candidates(config: &Config) -> (r: Option<u64>)
    requires
        config.wf(),
        config.charset@.len() <= u32::MAX,
        config.max_len <= u32::MAX,
    ensures
        r matches Some(v) ==> v as nat == candidate_budget(config),
        (r is None) <==> candidate_budget(config) > u64::MAX,
{
    let unsuppressed = Config {
        min_len: config.min_len,
        max_len: config.max_len,
        charset: config.charset.clone(),
        template: match &config.template {
            Some(t) => Some(t.clone()),
            None => None,
        },
        no_duplicates: false,
    };
    proof {
        assert(size_count(&unsuppressed) == candidate_budget(config));
        assert(size_overflows(&unsuppressed) <==> candidate_budget(config) > u64::MAX);
    }
    calculate_size(&unsuppressed)
}

} // verus!
