use linesort::tail::{tail_bytes, tail_lines};

fn v(s: &str) -> Vec<u8> {
    s.as_bytes().to_vec()
}

fn lines(xs: &[&str]) -> Vec<Vec<u8>> {
    xs.iter().map(|s| v(s)).collect()
}

#[test]
fn lines_from_start_skips_leading() {
    let out = tail_lines(&lines(&["a", "b", "c", "d"]), 2, true, false);
    assert_eq!(out, v("c\nd\n"));
}

#[test]
fn lines_from_end_keeps_trailing() {
    let out = tail_lines(&lines(&["a", "b", "c", "d"]), 3, false, false);
    assert_eq!(out, v("b\nc\nd\n"));
}

#[test]
fn zero_terminated_lines_carry_no_newline() {
    let out = tail_lines(&lines(&["a", "b", "c"]), 2, false, true);
    assert_eq!(out, v("bc"));
}

#[test]
fn oversized_count_keeps_everything() {
    let out = tail_lines(&lines(&["a", "b"]), 10, false, false);
    assert_eq!(out, v("a\nb\n"));
    let none = tail_lines(&lines(&["a", "b"]), 10, true, false);
    assert_eq!(none, v(""));
}

#[test]
fn bytes_from_start_skips_and_folds_newlines() {
    let out = tail_bytes(&v("ab\ncd"), 1, true, true);
    assert_eq!(out, vec![b'b', 0, b'c', b'd']);
}

#[test]
fn bytes_from_end_folds_the_letter_n() {
    let out = tail_bytes(&v("banana"), 4, false, true);
    assert_eq!(out, vec![0, b'a', 0, b'a']);
}

#[test]
fn bytes_without_zero_termination_pass_through() {
    let out = tail_bytes(&v("hello"), 3, false, false);
    assert_eq!(out, v("llo"));
}

#[test]
fn byte_count_wins_over_line_count() {
    assert_eq!(
        linesort::tail::unit_selection(&Some(7), &Some(3)),
        (false, 7)
    );
    assert_eq!(linesort::tail::unit_selection(&None, &Some(3)), (true, 3));
    assert_eq!(linesort::tail::unit_selection(&None, &None), (true, 10));
}

#[test]
fn file_headers_frame_the_name() {
    let h = linesort::tail::file_header(&v("notes.txt"));
    assert_eq!(h, v("==>notes.txt<==\n"));
}
