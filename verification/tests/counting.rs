use crunch_rs::config::Config;
use crunch_rs::count::{calculate_combinations_no_duplicates, calculate_size,
    calculate_template_size_no_duplicates};
use crunch_rs::generate::count_candidates;

fn range_config(charset: &str, min_len: usize, max_len: usize, no_duplicates: bool) -> Config {
    Config {
        min_len,
        max_len,
        charset: charset.to_string(),
        template: None,
        no_duplicates,
    }
}

fn template_config(charset: &str, template: &str, no_duplicates: bool) -> Config {
    Config {
        min_len: 1,
        max_len: 1,
        charset: charset.to_string(),
        template: Some(template.to_string()),
        no_duplicates,
    }
}

#[test]
fn scenario_a_count() {
    let cfg = range_config("ab", 1, 2, false);
    assert_eq!(calculate_size(&cfg), Some(6));
}

#[test]
fn scenario_b_count() {
    let cfg = range_config("ab", 2, 2, true);
    assert_eq!(calculate_size(&cfg), Some(2));
}

#[test]
fn scenario_c_count() {
    let cfg = template_config("xy", "%%-@@", false);
    assert_eq!(calculate_size(&cfg), Some(400));
}

#[test]
fn scenario_d_count() {
    // degenerate duplicate-symbol charset: the count follows the charset
    // length blindly, symbol uniqueness being an unstated precondition
    let cfg = template_config("aaa", "@@", false);
    assert_eq!(calculate_size(&cfg), Some(9));
}

#[test]
fn combinations_no_duplicates_values() {
    assert_eq!(calculate_combinations_no_duplicates(0, 4), Some(1));
    assert_eq!(calculate_combinations_no_duplicates(1, 4), Some(4));
    assert_eq!(calculate_combinations_no_duplicates(3, 4), Some(4 * 3 * 3));
    assert_eq!(calculate_combinations_no_duplicates(5, 3), Some(3 * 16));
    // a one-symbol charset admits no suppressed word of length two or more
    assert_eq!(calculate_combinations_no_duplicates(10, 1), Some(0));
}

#[test]
fn combinations_no_duplicates_overflow() {
    // 3 * 2^64 exceeds the range
    assert_eq!(calculate_combinations_no_duplicates(65, 3), None);
}

#[test]
fn template_size_no_duplicates_values() {
    assert_eq!(calculate_template_size_no_duplicates("@@", "ab"), Some(2));
    assert_eq!(calculate_template_size_no_duplicates("@-@", "ab"), Some(4));
    assert_eq!(calculate_template_size_no_duplicates("%%", "ab"), Some(100));
    assert_eq!(calculate_template_size_no_duplicates("a%@", "xy"), Some(20));
    assert_eq!(calculate_template_size_no_duplicates("@@@", "abc"), Some(3 * 2 * 2));
}

#[test]
fn range_size_overflow() {
    let cfg = range_config("ab", 64, 64, false);
    assert_eq!(calculate_size(&cfg), None);
}

#[test]
fn range_size_large_but_fits() {
    let cfg = range_config("ab", 63, 63, false);
    assert_eq!(calculate_size(&cfg), Some(1u64 << 63));
}

#[test]
fn candidate_budget_ignores_suppression() {
    let cfg = template_config("ab", "@@", true);
    assert_eq!(count_candidates(&cfg), Some(4));
    let cfg2 = range_config("ab", 2, 2, true);
    assert_eq!(count_candidates(&cfg2), Some(4));
}

#[test]
fn candidate_budget_overflow() {
    let cfg = range_config("ab", 64, 64, true);
    assert_eq!(count_candidates(&cfg), None);
}
