use crunch_rs::chars::has_consecutive_duplicates;
use crunch_rs::config::Config;
use crunch_rs::count::calculate_size;
use crunch_rs::generate::generate_words;
use crunch_rs::progress::Progress;

fn run(cfg: &Config) -> (Vec<String>, u64) {
    let mut out: Vec<String> = Vec::new();
    let mut progress = Progress::new(0);
    generate_words(cfg, &mut out, &mut progress);
    (out, progress.current)
}

fn range_config(charset: &str, min_len: usize, max_len: usize, no_duplicates: bool) -> Config {
    Config {
        min_len,
        max_len,
        charset: charset.to_string(),
        template: None,
        no_duplicates,
    }
}

fn template_config(charset: &str, template: &str, no_duplicates: bool) -> Config {
    Config {
        min_len: 1,
        max_len: 1,
        charset: charset.to_string(),
        template: Some(template.to_string()),
        no_duplicates,
    }
}

#[test]
fn scenario_a_lines() {
    let cfg = range_config("ab", 1, 2, false);
    let (lines, ticks) = run(&cfg);
    assert_eq!(lines, vec!["a", "b", "aa", "ab", "ba", "bb"]);
    assert_eq!(ticks, 6);
    assert_eq!(calculate_size(&cfg), Some(lines.len() as u64));
}

#[test]
fn scenario_b_lines() {
    let cfg = range_config("ab", 2, 2, true);
    let (lines, ticks) = run(&cfg);
    assert_eq!(lines, vec!["ab", "ba"]);
    assert_eq!(ticks, 2);
    assert_eq!(calculate_size(&cfg), Some(lines.len() as u64));
}

#[test]
fn scenario_c_lines() {
    let cfg = template_config("xy", "%%-@@", false);
    let (lines, ticks) = run(&cfg);
    assert_eq!(lines.len(), 400);
    assert_eq!(ticks, 400);
    assert_eq!(calculate_size(&cfg), Some(400));
    for line in &lines {
        let cs: Vec<char> = line.chars().collect();
        assert_eq!(cs.len(), 5);
        assert!(cs[0].is_ascii_digit());
        assert!(cs[1].is_ascii_digit());
        assert_eq!(cs[2], '-');
        assert!(cs[3] == 'x' || cs[3] == 'y');
        assert!(cs[4] == 'x' || cs[4] == 'y');
    }
    assert_eq!(lines[0], "00-xx");
    assert_eq!(lines[399], "99-yy");
}

#[test]
fn scenario_d_lines() {
    // degenerate duplicate-symbol charset: every candidate renders the
    // same word and each is emitted separately
    let cfg = template_config("aaa", "@@", false);
    let (lines, ticks) = run(&cfg);
    assert_eq!(lines.len(), 9);
    assert_eq!(ticks, 9);
    for line in &lines {
        assert_eq!(line, "aa");
    }
}

#[test]
fn suppression_skips_non_digit_pairs_only() {
    let cfg = range_config("ab1", 2, 2, true);
    let (lines, ticks) = run(&cfg);
    assert_eq!(lines, vec!["ab", "a1", "ba", "b1", "1a", "1b", "11"]);
    assert_eq!(ticks, 7);
    for line in &lines {
        assert!(!has_consecutive_duplicates(line));
    }
    assert!(lines.contains(&"11".to_string()));
}

#[test]
fn template_checks_rendered_string() {
    // the literal participates in adjacency: "aa" is suppressed, and the
    // formula's template-level approximation (2) overcounts the one line
    let cfg = template_config("ab", "a@", true);
    let (lines, ticks) = run(&cfg);
    assert_eq!(lines, vec!["ab"]);
    assert_eq!(ticks, 2);
    assert_eq!(calculate_size(&cfg), Some(2));
}

#[test]
fn template_suppressed_count_matches_slot_only_template() {
    // with slots only, count and generation agree under suppression
    let cfg = template_config("ab", "@@", true);
    let (lines, ticks) = run(&cfg);
    assert_eq!(lines, vec!["ab", "ba"]);
    assert_eq!(ticks, 4);
    assert_eq!(calculate_size(&cfg), Some(2));
}

#[test]
fn generation_is_repeatable() {
    let cfg = range_config("xyz", 1, 3, true);
    let (first, t1) = run(&cfg);
    let (second, t2) = run(&cfg);
    assert_eq!(first, second);
    assert_eq!(t1, t2);
}

#[test]
fn empty_range_emits_nothing() {
    let cfg = range_config("ab", 3, 2, false);
    let (lines, ticks) = run(&cfg);
    assert!(lines.is_empty());
    assert_eq!(ticks, 0);
}

#[test]
fn per_length_plain_counts() {
    let cfg = range_config("abc", 2, 2, false);
    let (lines, _) = run(&cfg);
    assert_eq!(lines.len(), 9);
}

#[test]
fn per_length_suppressed_counts_digit_free() {
    let cfg = range_config("abc", 3, 3, true);
    let (lines, _) = run(&cfg);
    assert_eq!(lines.len(), 3 * 2 * 2);
    assert_eq!(calculate_size(&cfg), Some(12));
}

#[test]
fn has_consecutive_duplicates_cases() {
    assert!(has_consecutive_duplicates("aa"));
    assert!(has_consecutive_duplicates("xaab"));
    assert!(!has_consecutive_duplicates("11"));
    assert!(!has_consecutive_duplicates("a11b"));
    assert!(!has_consecutive_duplicates("aba"));
    assert!(!has_consecutive_duplicates("a"));
    assert!(!has_consecutive_duplicates(""));
}

#[test]
fn template_suppressed_with_safe_literal() {
    // the literal '-' is outside the charset, so the template-level
    // count stays exact under suppression
    let cfg = template_config("ab", "@-@", true);
    let (lines, ticks) = run(&cfg);
    assert_eq!(lines, vec!["a-a", "a-b", "b-a", "b-b"]);
    assert_eq!(ticks, 4);
    assert_eq!(calculate_size(&cfg), Some(4));
}
