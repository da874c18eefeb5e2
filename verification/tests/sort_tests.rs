use linesort::config::{SortConfig, SortError};
use linesort::modes::{check_lines, run};

fn v(s: &str) -> Vec<u8> {
    s.as_bytes().to_vec()
}

fn lines(xs: &[&str]) -> Vec<Vec<u8>> {
    xs.iter().map(|s| v(s)).collect()
}

fn base_cfg() -> SortConfig {
    SortConfig {
        ignore_blanks: false,
        ignore_case: false,
        ignore_numeric_tokens: false,
        numeric_aware: false,
        month_aware: false,
        numeric_unit_aware: false,
        version_aware: false,
        reverse: false,
        stable: false,
        unique: false,
        check: false,
        merge_only: false,
        batch_size: 4,
        external_key_comparator: None,
    }
}

fn sort_with(cfg: &SortConfig, xs: &[&str]) -> Vec<Vec<u8>> {
    linesort::engine::sort_lines(&lines(xs), cfg)
}

#[test]
fn plain_sort_orders_bytes() {
    let out = sort_with(&base_cfg(), &["banana", "apple", "cherry"]);
    assert_eq!(out, lines(&["apple", "banana", "cherry"]));
}

#[test]
fn empty_input_gives_empty_output() {
    let out = sort_with(&base_cfg(), &[]);
    assert_eq!(out, lines(&[]));
}

#[test]
fn numeric_aware_orders_by_magnitude() {
    let mut cfg = base_cfg();
    cfg.numeric_aware = true;
    let out = sort_with(&cfg, &["item2", "item10", "item1"]);
    assert_eq!(out, lines(&["item1", "item2", "item10"]));
}

#[test]
fn numeric_unit_aware_expands_suffixes() {
    let mut cfg = base_cfg();
    cfg.numeric_unit_aware = true;
    let out = sort_with(&cfg, &["3K", "1500", "2K"]);
    assert_eq!(out, lines(&["1500", "2K", "3K"]));
}

#[test]
fn version_aware_orders_componentwise() {
    let mut cfg = base_cfg();
    cfg.version_aware = true;
    let out = sort_with(&cfg, &["1.2.9", "1.2.10", "1.2.2"]);
    assert_eq!(out, lines(&["1.2.2", "1.2.9", "1.2.10"]));
}

#[test]
fn month_aware_orders_month_names() {
    let mut cfg = base_cfg();
    cfg.month_aware = true;
    let out = sort_with(&cfg, &["mar", "January", "FEB", "december"]);
    assert_eq!(out, lines(&["January", "FEB", "mar", "december"]));
}

#[test]
fn ignore_case_folds_keys_but_keeps_text() {
    let mut cfg = base_cfg();
    cfg.ignore_case = true;
    cfg.stable = true;
    let out = sort_with(&cfg, &["Banana", "apple", "CHERRY"]);
    assert_eq!(out, lines(&["apple", "Banana", "CHERRY"]));
}

#[test]
fn ignore_blanks_trims_before_comparing() {
    let mut cfg = base_cfg();
    cfg.ignore_blanks = true;
    cfg.stable = true;
    let out = sort_with(&cfg, &["  b", "a  ", " c"]);
    assert_eq!(out, lines(&["a  ", "  b", " c"]));
}

#[test]
fn ignore_numeric_tokens_keeps_dictionary_order() {
    let mut cfg = base_cfg();
    cfg.ignore_numeric_tokens = true;
    cfg.stable = true;
    let out = sort_with(&cfg, &["9zebra", "1apple", "5mango"]);
    assert_eq!(out, lines(&["1apple", "5mango", "9zebra"]));
}

#[test]
fn reverse_inverts_order() {
    let mut cfg = base_cfg();
    cfg.reverse = true;
    let out = sort_with(&cfg, &["b", "c", "a"]);
    assert_eq!(out, lines(&["c", "b", "a"]));
}

#[test]
fn stable_keeps_input_order_of_equal_keys() {
    let mut cfg = base_cfg();
    cfg.ignore_case = true;
    cfg.stable = true;
    let out = sort_with(&cfg, &["b", "A", "a", "B"]);
    assert_eq!(out, lines(&["A", "a", "b", "B"]));
}

#[test]
fn sort_is_idempotent() {
    let cfg = base_cfg();
    let once = sort_with(&cfg, &["pear", "fig", "date", "fig"]);
    let twice = linesort::engine::sort_lines(&once, &cfg);
    assert_eq!(once, twice);
}

#[test]
fn unstable_sort_is_permutation_invariant() {
    let mut cfg = base_cfg();
    cfg.ignore_case = true;
    let a = sort_with(&cfg, &["b", "A", "a", "B"]);
    let b = sort_with(&cfg, &["B", "a", "A", "b"]);
    let c = sort_with(&cfg, &["a", "B", "b", "A"]);
    assert_eq!(a, b);
    assert_eq!(a, c);
}

#[test]
fn batch_size_does_not_change_output() {
    let input = &["pear", "fig", "apple", "fig", "date", "cherry"];
    let mut sizes = vec![1, 3, input.len(), input.len() * 2];
    sizes.dedup();
    let mut outs = Vec::new();
    for s in sizes {
        let mut cfg = base_cfg();
        cfg.batch_size = s;
        outs.push(sort_with(&cfg, input));
    }
    for o in &outs {
        assert_eq!(*o, outs[0]);
    }
}

#[test]
fn merge_equals_sort_of_concatenation() {
    let mut cfg = base_cfg();
    cfg.merge_only = true;
    cfg.batch_size = 2;
    let files = vec![
        lines(&["apple", "cherry", "pear"]),
        lines(&["banana", "fig"]),
        lines(&["date"]),
    ];
    let merged = linesort::engine::merge_files(&files, &cfg);
    let mut sort_cfg = base_cfg();
    sort_cfg.batch_size = 2;
    let sorted = sort_with(
        &sort_cfg,
        &["apple", "cherry", "pear", "banana", "fig", "date"],
    );
    assert_eq!(merged, sorted);
}

#[test]
fn merge_of_many_small_runs_respects_batch_bound() {
    let mut cfg = base_cfg();
    cfg.merge_only = true;
    cfg.batch_size = 2;
    let files: Vec<Vec<Vec<u8>>> = vec![
        lines(&["e"]),
        lines(&["a"]),
        lines(&["d"]),
        lines(&["b"]),
        lines(&["c"]),
    ];
    let merged = linesort::engine::merge_files(&files, &cfg);
    assert_eq!(merged, lines(&["a", "b", "c", "d", "e"]));
}

#[test]
fn reverse_round_trip_matches_forward_sort() {
    let input = &["pear", "fig", "apple", "date"];
    let mut rev_cfg = base_cfg();
    rev_cfg.reverse = true;
    let mut out = sort_with(&rev_cfg, input);
    out.reverse();
    assert_eq!(out, sort_with(&base_cfg(), input));
}

#[test]
fn check_accepts_sorted_input() {
    let mut cfg = base_cfg();
    cfg.check = true;
    assert!(check_lines(&lines(&["a", "b", "c"]), &cfg).is_ok());
}

#[test]
fn check_rejects_out_of_order_at_second_line() {
    let mut cfg = base_cfg();
    cfg.check = true;
    match check_lines(&lines(&["b", "a", "c"]), &cfg) {
        Err(SortError::CheckFailure { line, prev, cur }) => {
            assert_eq!(line, 2);
            assert_eq!(prev, v("b"));
            assert_eq!(cur, v("a"));
        }
        other => panic!("expected a check failure, got {:?}", other),
    }
}

#[test]
fn check_with_unique_rejects_duplicates() {
    let mut cfg = base_cfg();
    cfg.check = true;
    cfg.unique = true;
    match check_lines(&lines(&["a", "a", "b"]), &cfg) {
        Err(SortError::CheckFailure { line, .. }) => assert_eq!(line, 2),
        other => panic!("expected a check failure, got {:?}", other),
    }
}

#[test]
fn run_dispatches_sort_mode() {
    let files = vec![lines(&["b", "c"]), lines(&["a"])];
    let out = run(&files, &base_cfg()).unwrap();
    assert_eq!(out, lines(&["a", "b", "c"]));
}

#[test]
fn run_check_mode_produces_no_output() {
    let mut cfg = base_cfg();
    cfg.check = true;
    let files = vec![lines(&["a", "b"])];
    let out = run(&files, &cfg).unwrap();
    assert!(out.is_empty());
}

#[test]
fn run_merge_mode_merges_files() {
    let mut cfg = base_cfg();
    cfg.merge_only = true;
    let files = vec![lines(&["a", "c"]), lines(&["b", "d"])];
    let out = run(&files, &cfg).unwrap();
    assert_eq!(out, lines(&["a", "b", "c", "d"]));
}

#[test]
fn zero_batch_size_is_a_config_error() {
    let mut cfg = base_cfg();
    cfg.batch_size = 0;
    assert!(matches!(
        run(&vec![], &cfg),
        Err(SortError::ConfigError)
    ));
}

#[test]
fn unique_without_check_is_a_config_error() {
    let mut cfg = base_cfg();
    cfg.unique = true;
    assert!(matches!(cfg.validate(), Err(SortError::ConfigError)));
}

#[test]
fn merge_with_check_is_a_config_error() {
    let mut cfg = base_cfg();
    cfg.merge_only = true;
    cfg.check = true;
    assert!(matches!(cfg.validate(), Err(SortError::ConfigError)));
}

#[test]
fn ignore_numbers_excludes_numeric_aware() {
    let mut cfg = base_cfg();
    cfg.ignore_numeric_tokens = true;
    cfg.numeric_aware = true;
    assert!(matches!(cfg.validate(), Err(SortError::ConfigError)));
}

#[test]
fn transform_and_compare_expose_the_comparator() {
    let mut cfg = base_cfg();
    cfg.numeric_aware = true;
    let oc = cfg.ord_cfg();
    let a = v("item2");
    let b = v("item10");
    assert!(matches!(
        linesort::compare::compare(&oc, &a, &b),
        linesort::ordering::Ord3::Lt
    ));
    assert!(matches!(
        linesort::compare::compare(&oc, &b, &a),
        linesort::ordering::Ord3::Gt
    ));
    assert!(matches!(
        linesort::compare::compare(&oc, &a, &a),
        linesort::ordering::Ord3::Eq
    ));
}

#[test]
fn duplicate_lines_survive_sorting() {
    let out = sort_with(&base_cfg(), &["b", "a", "b"]);
    assert_eq!(out, lines(&["a", "b", "b"]));
}

#[test]
fn leading_zeros_do_not_change_magnitude() {
    let mut cfg = base_cfg();
    cfg.numeric_aware = true;
    let out = sort_with(&cfg, &["item10", "item007", "item8"]);
    assert_eq!(out, lines(&["item007", "item8", "item10"]));
}

#[test]
fn a_zero_with_a_unit_stays_zero() {
    let mut cfg = base_cfg();
    cfg.numeric_unit_aware = true;
    let out = sort_with(&cfg, &["1", "0K"]);
    assert_eq!(out, lines(&["0K", "1"]));
}

#[test]
fn version_components_split_at_dashes_too() {
    let mut cfg = base_cfg();
    cfg.version_aware = true;
    let out = sort_with(&cfg, &["1-10", "1-2"]);
    assert_eq!(out, lines(&["1-2", "1-10"]));
}

#[test]
fn month_tokens_sort_before_plain_text() {
    let mut cfg = base_cfg();
    cfg.month_aware = true;
    let out = sort_with(&cfg, &["apple", "jan"]);
    assert_eq!(out, lines(&["jan", "apple"]));
}

#[test]
fn blank_only_lines_trim_to_the_empty_key() {
    let mut cfg = base_cfg();
    cfg.ignore_blanks = true;
    let out = sort_with(&cfg, &["a", "  "]);
    assert_eq!(out, lines(&["  ", "a"]));
}

#[test]
fn empty_lines_are_ordinary_lines() {
    let out = sort_with(&base_cfg(), &["b", "", "a"]);
    assert_eq!(out, lines(&["", "a", "b"]));
}

#[test]
fn run_check_failure_reports_the_offending_pair() {
    let mut cfg = base_cfg();
    cfg.check = true;
    let files = vec![lines(&["a", "c"]), lines(&["b"])];
    match run(&files, &cfg) {
        Err(SortError::CheckFailure { line, prev, cur }) => {
            assert_eq!(line, 3);
            assert_eq!(prev, v("c"));
            assert_eq!(cur, v("b"));
        }
        other => panic!("expected a check failure, got {:?}", other),
    }
}
