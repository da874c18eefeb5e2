use linesort::uniq::{uniq, UniqOpt};

fn v(s: &str) -> Vec<u8> {
    s.as_bytes().to_vec()
}

fn base_opts() -> UniqOpt {
    UniqOpt {
        count: false,
        repeated: false,
        words: 0,
        graphemes: 0,
        insensitive: false,
        unique: false,
        non_adjacent: false,
    }
}

#[test]
fn empty_input_emits_nothing() {
    let out = uniq(&v(""), &base_opts()).unwrap();
    assert_eq!(out, v(""));
}

#[test]
fn without_selection_flags_nothing_is_emitted() {
    let out = uniq(&v("a\nb\na"), &base_opts()).unwrap();
    assert_eq!(out, v(""));
}

#[test]
fn unique_emits_unrepeated_lines() {
    let mut o = base_opts();
    o.unique = true;
    let out = uniq(&v("a\na\nb\nc\nc"), &o).unwrap();
    assert_eq!(out, v("b"));
}

#[test]
fn repeated_emits_condensed_duplicates() {
    let mut o = base_opts();
    o.repeated = true;
    let out = uniq(&v("a\na\nb\nc\nc"), &o).unwrap();
    assert_eq!(out, v("ac"));
}

#[test]
fn count_prefixes_occurrences() {
    let mut o = base_opts();
    o.repeated = true;
    o.count = true;
    let out = uniq(&v("a\na\na\nb\nc\nc"), &o).unwrap();
    assert_eq!(out, v("3 a2 c"));
}

#[test]
fn insensitive_folds_output_lines() {
    let mut o = base_opts();
    o.repeated = true;
    let out = uniq(&v("A\na\nb"), &o).unwrap();
    assert_eq!(out, v(""));
    o.insensitive = true;
    let out2 = uniq(&v("A\na\nb"), &o).unwrap();
    assert_eq!(out2, v("a"));
}

#[test]
fn non_adjacent_groups_after_reordering() {
    let mut o = base_opts();
    o.repeated = true;
    let out = uniq(&v("a\nb\na"), &o).unwrap();
    assert_eq!(out, v(""));
    o.non_adjacent = true;
    let out2 = uniq(&v("a\nb\na"), &o).unwrap();
    assert_eq!(out2, v("a"));
}

#[test]
fn graphemes_skips_leading_bytes() {
    let mut o = base_opts();
    o.unique = true;
    o.graphemes = 2;
    let out = uniq(&v("xya\nb"), &o).unwrap();
    assert_eq!(out, v("ab"));
}

#[test]
fn words_skips_leading_words() {
    let mut o = base_opts();
    o.unique = true;
    o.words = 1;
    let out = uniq(&v("skip a\nb"), &o).unwrap();
    assert_eq!(out, v("ab"));
}

#[test]
fn unique_with_count_prefixes_one() {
    let mut o = base_opts();
    o.unique = true;
    o.count = true;
    let out = uniq(&v("a\nb\nb"), &o).unwrap();
    assert_eq!(out, v("1 a"));
}

#[test]
fn graphemes_may_consume_the_whole_input() {
    let mut o = base_opts();
    o.unique = true;
    o.graphemes = 3;
    let out = uniq(&v("abc"), &o).unwrap();
    assert_eq!(out, v(""));
}
