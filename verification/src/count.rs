//! Exact counts of the strings generation will emit, without
//! materializing them, with overflow detected and surfaced as `None`.

use vstd::prelude::*;
use crate::config::Config;

verus! {

/// `b` to the power `e` over the naturals.
pub open spec fn pow_nat(b: nat, e: nat) -> nat
    decreases e,
{
    if e == 0 {
        1
    } else {
        b * pow_nat(b, (e - 1) as nat)
    }
}

pub proof fn lemma_pow_pos(b: nat, e: nat)
    requires
        b >= 1,
    ensures
        pow_nat(b, e) >= 1,
    decreases e,
{
    if e > 0 {
        lemma_pow_pos(b, (e - 1) as nat);
        assert(b * pow_nat(b, (e - 1) as nat) >= 1 * pow_nat(b, (e - 1) as nat))
            by (nonlinear_arith)
            requires b >= 1, pow_nat(b, (e - 1) as nat) >= 0;
    }
}

pub proof fn lemma_pow_unfold_right(b: nat, e: nat)
    ensures
        pow_nat(b, e + 1) == pow_nat(b, e) * b,
    decreases e,
{
    if e == 0 {
        assert(pow_nat(b, e + 1) == b * pow_nat(b, e));
        assert(pow_nat(b, e) == 1);
        assert(pow_nat(b, e + 1) == pow_nat(b, e) * b) by (nonlinear_arith)
            requires
                pow_nat(b, e + 1) == b * pow_nat(b, e),
                pow_nat(b, e) == 1,
        ;
    } else {
        lemma_pow_unfold_right(b, (e - 1) as nat);
        assert(pow_nat(b, e + 1) == b * pow_nat(b, e));
        assert(pow_nat(b, e) == pow_nat(b, (e - 1) as nat) * b);
        assert(pow_nat(b, e) == b * pow_nat(b, (e - 1) as nat));
        assert(pow_nat(b, e + 1) == pow_nat(b, e) * b) by (nonlinear_arith)
            requires
                pow_nat(b, e + 1) == b * pow_nat(b, e),
                pow_nat(b, e) == pow_nat(b, (e - 1) as nat) * b,
                pow_nat(b, e) == b * pow_nat(b, (e - 1) as nat),
        ;
    }
}

pub proof fn lemma_pow_monotone_exp(b: nat, e1: nat, e2: nat)
    requires
        b >= 1,
        e1 <= e2,
    ensures
        pow_nat(b, e1) <= pow_nat(b, e2),
    decreases e2 - e1,
{
    if e1 < e2 {
        lemma_pow_monotone_exp(b, e1, (e2 - 1) as nat);
        lemma_pow_unfold_right(b, (e2 - 1) as nat);
        lemma_pow_pos(b, (e2 - 1) as nat);
        assert(pow_nat(b, (e2 - 1) as nat) * 1 <= pow_nat(b, (e2 - 1) as nat) * b)
            by (nonlinear_arith)
            requires b >= 1, pow_nat(b, (e2 - 1) as nat) >= 0;
    }
}

pub proof fn lemma_mul_le_right(a: nat, b1: nat, b2: nat)
    requires
        b1 <= b2,
    ensures
        a * b1 <= a * b2,
{
    assert(a * b1 <= a * b2) by (nonlinear_arith)
        requires a >= 0, b1 <= b2;
}

/// Strings of length `l` over an alphabet of `n` distinct symbols that
/// survive duplicate suppression: the first position is free, every
/// later one must differ from its predecessor. The formula treats the
/// whole alphabet uniformly; it is exact only for digit-free alphabets.
pub open spec fn combos_no_dup(n: nat, l: nat) -> nat {
    if l == 0 {
        1
    } else if n == 0 {
        0
    } else {
        n * pow_nat((n - 1) as nat, (l - 1) as nat)
    }
}

/// Lines of one length in range mode: all `n^l` strings, or the
/// duplicate-suppressed count.
pub open spec fn per_length_count(n: nat, l: nat, nd: bool) -> nat {
    if nd {
        combos_no_dup(n, l)
    } else {
        pow_nat(n, l)
    }
}

/// Range-mode total: the per-length counts summed over `[lo, hi]`.
pub open spec fn range_count(n: nat, lo: int, hi: int, nd: bool) -> nat
    decreases hi + 1 - lo,
{
    if lo > hi || lo < 0 {
        0
    } else {
        per_length_count(n, lo as nat, nd) + range_count(n, lo + 1, hi, nd)
    }
}

pub proof fn lemma_range_count_split(n: nat, lo: int, mid: int, hi: int, nd: bool)
    requires
        0 <= lo,
        lo - 1 <= mid <= hi,
    ensures
        range_count(n, lo, hi, nd) == range_count(n, lo, mid, nd) + range_count(n, mid + 1, hi, nd),
    decreases mid + 1 - lo,
{
    if lo > mid {
        assert(range_count(n, lo, mid, nd) == 0);
    } else {
        lemma_range_count_split(n, lo + 1, mid, hi, nd);
    }
}

/// Occurrences of `k` in `t` at positions `i` onward.
pub open spec fn occ_from(t: Seq<char>, i: int, k: char) -> nat
    decreases t.len() - i,
{
    if i < 0 || i >= t.len() {
        0
    } else {
        (if t[i] == k { 1nat } else { 0nat }) + occ_from(t, i + 1, k)
    }
}

/// Template-mode total without suppression: one factor of `n` per `@`
/// slot and one factor of ten per `%` slot; literals contribute nothing.
pub open spec fn tmpl_plain_count(t: Seq<char>, n: nat) -> nat {
    pow_nat(n, occ_from(t, 0, '@')) * pow_nat(10, occ_from(t, 0, '%'))
}

/// A template position that will be substituted.
pub open spec fn is_slot(c: char) -> bool {
    c == '@' || c == '%'
}

/// Whether the position before `i` was a charset slot: the state the
/// suppressed-count scan tracks left to right.
pub open spec fn flag_at(t: Seq<char>, i: int) -> bool {
    i > 0 && t[i - 1] == '@'
}

/// The factor position `i` contributes to the suppressed template count:
/// a `@` slot offers the whole alphabet, or one symbol fewer right after
/// another `@` slot; a `%` slot always offers the ten digits; a literal
/// offers exactly itself.
pub open spec fn nd_factor(t: Seq<char>, n: nat, i: int) -> nat {
    if t[i] == '@' {
        if n == 0 {
            0
        } else if flag_at(t, i) {
            (n - 1) as nat
        } else {
            n
        }
    } else if t[i] == '%' {
        10
    } else {
        1
    }
}

/// Product of the first `k` position factors of the suppressed template
/// count.
pub open spec fn tmpl_nd_prefix(t: Seq<char>, n: nat, k: int) -> nat
    decreases k,
{
    if k <= 0 {
        1
    } else {
        tmpl_nd_prefix(t, n, k - 1) * nd_factor(t, n, k - 1)
    }
}

/// Template-mode total with suppression: the whole left-to-right product.
pub open spec fn tmpl_nd_count(t: Seq<char>, n: nat) -> nat {
    tmpl_nd_prefix(t, n, t.len() as int)
}

/// What `calculate_size` computes, over the mathematical model.
pub open spec fn size_count(cfg: &Config) -> nat {
    match cfg.template {
        Some(_) => if cfg.no_duplicates {
            tmpl_nd_count(cfg.template_seq(), cfg.charset@.len())
        } else {
            tmpl_plain_count(cfg.template_seq(), cfg.charset@.len())
        },
        None => range_count(
            cfg.charset@.len(),
            cfg.min_len as int,
            cfg.max_len as int,
            cfg.no_duplicates,
        ),
    }
}

/// When the total cannot be held in a `u64`. For the suppressed template
/// count the left-to-right running product is what must fit: a zero
/// factor late in the template cannot excuse an earlier overflow.
pub open spec fn size_overflows(cfg: &Config) -> bool {
    match cfg.template {
        Some(_) => if cfg.no_duplicates {
            exists|k: int|
                0 <= k <= cfg.template_seq().len() && #[trigger] tmpl_nd_prefix(
                    cfg.template_seq(),
                    cfg.charset@.len(),
                    k,
                ) > u64::MAX
        } else {
            tmpl_plain_count(cfg.template_seq(), cfg.charset@.len()) > u64::MAX
        },
        None => range_count(
            cfg.charset@.len(),
            cfg.min_len as int,
            cfg.max_len as int,
            cfg.no_duplicates,
        ) > u64::MAX,
    }
}

/// The suppressed count of one length in range mode, `None` exactly when
/// it does not fit in a `u64`.
pub fn calculate_combinations_no_duplicates(length: u32, charset_len: u32) -> (r: Option<u64>)
    requires
        charset_len >= 1,
    ensures
        r matches Some(v) ==> v as nat == combos_no_dup(charset_len as nat, length as nat),
        (r is None) <==> combos_no_dup(charset_len as nat, length as nat) > u64::MAX,
{
    let ghost n = charset_len as nat;
    let ghost l = length as nat;
    if length == 0 {
        return Some(1);
    }
    let n64: u64 = charset_len as u64;
    if length == 1 {
        assert(combos_no_dup(n, 1) == n * pow_nat((n - 1) as nat, 0));
        assert(n * 1 == n) by (nonlinear_arith);
        return Some(n64);
    }
    let m64: u64 = n64 - 1;
    let ghost m = m64 as nat;
    let mut total: u64 = n64;
    let mut j: u32 = 1;
    assert(n * 1 == n) by (nonlinear_arith);
    while j < length
        invariant
            1 <= j <= length,
            n == charset_len as nat,
            l == length as nat,
            m == (n - 1) as nat,
            n >= 1,
            n64 == charset_len as u64,
            m64 as nat == m,
            total as nat == n * pow_nat(m, (j - 1) as nat),
        decreases length - j,
    {
        let next = total.checked_mul(m64);
        match next {
            Some(v) => {
                proof {
                    lemma_pow_unfold_right(m, (j - 1) as nat);
                    assert(n * pow_nat(m, j as nat) == (n * pow_nat(m, (j - 1) as nat)) * m)
                        by (nonlinear_arith)
                        requires
                            pow_nat(m, j as nat) == pow_nat(m, (j - 1) as nat) * m,
                    ;
                }
                total = v;
            },
            None => {
                proof {
                    // the running product already exceeds the range; the
                    // final count can only be at least as large
                    let t0 = total as nat;
                    lemma_pow_unfold_right(m, (j - 1) as nat);
                    assert(pow_nat(m, j as nat) == pow_nat(m, (j - 1) as nat) * m);
                    assert(m >= 1) by (nonlinear_arith)
                        requires t0 * m > u64::MAX;
                    assert(n * pow_nat(m, j as nat) > u64::MAX) by (nonlinear_arith)
                        requires
                            t0 * m > u64::MAX,
                            t0 == n * pow_nat(m, (j - 1) as nat),
                            pow_nat(m, j as nat) == pow_nat(m, (j - 1) as nat) * m;
                    lemma_pow_monotone_exp(m, j as nat, (l - 1) as nat);
                    lemma_mul_le_right(n, pow_nat(m, j as nat), pow_nat(m, (l - 1) as nat));
                }
                return None;
            },
        }
        j = j + 1;
    }
    Some(total)
}

/// The suppressed template count: the left-to-right factor product,
/// `None` exactly when some running product does not fit in a `u64`.
pub fn calculate_template_size_no_duplicates(template: &str, charset: &str) -> (r: Option<u64>)
    requires
        charset@.len() >= 1,
    ensures
        r matches Some(v) ==> v as nat == tmpl_nd_count(template@, charset@.len()),
        (r is None) <==> exists|k: int|
            0 <= k <= template@.len() && #[trigger] tmpl_nd_prefix(template@, charset@.len(), k)
                > u64::MAX,
{
    let t_len = template.unicode_len();
    let n_us = charset.unicode_len();
    let n64: u64 = n_us as u64;
    let ghost t = template@;
    let ghost n = charset@.len();
    let mut total: u64 = 1;
    let mut last_was_char = false;
    let mut i: usize = 0;
    while i < t_len
        invariant
            t_len == t.len(),
            t == template@,
            n == charset@.len(),
            n >= 1,
            n64 as nat == n,
            0 <= i <= t_len,
            last_was_char == flag_at(t, i as int),
            total as nat == tmpl_nd_prefix(t, n, i as int),
            forall|k: int| 0 <= k <= i ==> #[trigger] tmpl_nd_prefix(t, n, k) <= u64::MAX,
        decreases t_len - i,
    {
        let c = template.get_char(i);
        let factor: u64 = if c == '@' {
            if last_was_char {
                n64 - 1
            } else {
                n64
            }
        } else if c == '%' {
            10
        } else {
            1
        };
        assert(factor as nat == nd_factor(t, n, i as int));
        match total.checked_mul(factor) {
            Some(v) => {
                total = v;
            },
            None => {
                proof {
                    assert(tmpl_nd_prefix(t, n, i as int + 1) == tmpl_nd_prefix(t, n, i as int)
                        * nd_factor(t, n, i as int));
                }
                return None;
            },
        }
        last_was_char = c == '@';
        i = i + 1;
    }
    Some(total)
}

/// The exact number of lines generation will emit for `cfg`, or `None`
/// when that total (or, for a suppressed template, its running product)
/// exceeds `u64::MAX`. Fails only on an empty charset, which is ruled
/// out beforehand.
pub fn calculate_size(cfg: &Config) -> (r: Option<u64>)
    requires
        cfg.wf(),
        cfg.charset@.len() <= u32::MAX,
        cfg.max_len <= u32::MAX,
    ensures
        r matches Some(v) ==> v as nat == size_count(cfg),
        (r is None) <==> size_overflows(cfg),
{
    let n_us = charset_len_of(cfg);
    let n64: u64 = n_us as u64;
    let ghost n = cfg.charset@.len();
    match &cfg.template {
        Some(template) => {
            if cfg.no_duplicates {
                calculate_template_size_no_duplicates(template.as_str(), cfg.charset.as_str())
            } else {
                let at_count = count_char(template.as_str(), '@');
                let pct_count = count_char(template.as_str(), '%');
                let char_combinations = match checked_pow(n64, at_count) {
                    Some(v) => v,
                    None => {
                        proof {
                            lemma_pow_pos(10, occ_from(template@, 0, '%'));
                            lemma_mul_le_right(
                                pow_nat(n, occ_from(template@, 0, '@')),
                                1,
                                pow_nat(10, occ_from(template@, 0, '%')),
                            );
                        }
                        return None;
                    },
                };
                let num_combinations = match checked_pow(10, pct_count) {
                    Some(v) => v,
                    None => {
                        proof {
                            lemma_pow_pos(n, occ_from(template@, 0, '@'));
                            lemma_mul_comm(
                                pow_nat(n, occ_from(template@, 0, '@')),
                                pow_nat(10, occ_from(template@, 0, '%')),
                            );
                            lemma_mul_le_right(
                                pow_nat(10, occ_from(template@, 0, '%')),
                                1,
                                pow_nat(n, occ_from(template@, 0, '@')),
                            );
                        }
                        return None;
                    },
                };
                char_combinations.checked_mul(num_combinations)
            }
        },
        None => {
            let mut total: u64 = 0;
            let mut l: usize = cfg.min_len;
            let ghost lo = cfg.min_len as int;
            let ghost hi = cfg.max_len as int;
            let ghost nd = cfg.no_duplicates;
            loop
                invariant
                    cfg.wf(),
                    cfg.template is None,
                    n == cfg.charset@.len(),
                    1 <= n <= u32::MAX,
                    n64 as nat == n,
                    n_us as nat == n,
                    lo == cfg.min_len as int,
                    hi == cfg.max_len as int,
                    hi <= u32::MAX,
                    nd == cfg.no_duplicates,
                    lo <= l as int <= hi,
                    total as nat == range_count(n, lo, l as int - 1, nd),
                decreases hi - l,
            {
                let term = if cfg.no_duplicates {
                    match calculate_combinations_no_duplicates(l as u32, n_us as u32) {
                        Some(v) => v,
                        None => {
                            proof {
                                lemma_range_count_split(n, lo, l as int - 1, hi, nd);
                                assert(range_count(n, l as int, hi, nd) == per_length_count(n, l as nat, nd)
                                    + range_count(n, l as int + 1, hi, nd));
                            }
                            return None;
                        },
                    }
                } else {
                    match checked_pow(n64, l as u64) {
                        Some(v) => v,
                        None => {
                            proof {
                                lemma_range_count_split(n, lo, l as int - 1, hi, nd);
                                assert(range_count(n, l as int, hi, nd) == per_length_count(n, l as nat, nd)
                                    + range_count(n, l as int + 1, hi, nd));
                            }
                            return None;
                        },
                    }
                };
                match total.checked_add(term) {
                    Some(v) => {
                        total = v;
                        proof {
                            assert(range_count(n, lo, l as int, nd) == range_count(n, lo, l as int - 1, nd)
                                + per_length_count(n, l as nat, nd)) by {
                                lemma_range_count_split(n, lo, l as int - 1, l as int, nd);
                                assert(range_count(n, l as int, l as int, nd) == per_length_count(n, l as nat, nd)
                                    + range_count(n, l as int + 1, l as int, nd));
                            }
                        }
                    },
                    None => {
                        proof {
                            lemma_range_count_split(n, lo, l as int - 1, hi, nd);
                            assert(range_count(n, l as int, hi, nd) == per_length_count(n, l as nat, nd)
                                + range_count(n, l as int + 1, hi, nd));
                        }
                        return None;
                    },
                }
                if l == cfg.max_len {
                    proof {
                        assert(range_count(n, hi + 1, hi, nd) == 0);
                    }
                    return Some(total);
                }
                l = l + 1;
            }
        },
    }
}

proof fn lemma_mul_comm(a: nat, b: nat)
    ensures
        a * b == b * a,
{
}

/// The charset length, read once.
fn charset_len_of(cfg: &Config) -> (r: usize)
    ensures
        r as nat == cfg.charset@.len(),
{
    cfg.charset.as_str().unicode_len()
}

/// Occurrences of `k` in `s`.
fn count_char(s: &str, k: char) -> (r: u64)
    ensures
        r as nat == occ_from(s@, 0, k),
{
    let n = s.unicode_len();
    let mut cnt: u64 = 0;
    let mut i: usize = 0;
    while i < n
        invariant
            n == s@.len(),
            0 <= i <= n,
            cnt as nat + occ_from(s@, i as int, k) == occ_from(s@, 0, k),
            cnt <= i,
        decreases n - i,
    {
        let c = s.get_char(i);
        if c == k {
            cnt = cnt + 1;
        }
        i = i + 1;
    }
    cnt
}

/// `b^e` in a `u64`, `None` exactly on overflow.
fn checked_pow(b: u64, e: u64) -> (r: Option<u64>)
    requires
        b >= 1,
    ensures
        r matches Some(v) ==> v as nat == pow_nat(b as nat, e as nat),
        (r is None) <==> pow_nat(b as nat, e as nat) > u64::MAX,
{
    let mut acc: u64 = 1;
    let mut j: u64 = 0;
    while j < e
        invariant
            0 <= j <= e,
            b >= 1,
            acc as nat == pow_nat(b as nat, j as nat),
        decreases e - j,
    {
        match acc.checked_mul(b) {
            Some(v) => {
                proof {
                    lemma_pow_unfold_right(b as nat, j as nat);
                }
                acc = v;
            },
            None => {
                proof {
                    lemma_pow_unfold_right(b as nat, j as nat);
                    lemma_pow_monotone_exp(b as nat, (j + 1) as nat, e as nat);
                }
                return None;
            },
        }
        j = j + 1;
    }
    Some(acc)
}

} // verus!
