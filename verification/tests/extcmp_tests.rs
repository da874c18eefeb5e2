use linesort::config::SortError;
use linesort::extcmp::{parse_reply, ExtCheckSession, ExtSortSession};
use linesort::ordering::Ord3;

fn v(s: &str) -> Vec<u8> {
    s.as_bytes().to_vec()
}

#[test]
fn parses_signed_integers_by_comparator_convention() {
    assert!(matches!(parse_reply(&v("-1\n")), Ok(Ord3::Lt)));
    assert!(matches!(parse_reply(&v("0")), Ok(Ord3::Eq)));
    assert!(matches!(parse_reply(&v("  17  ")), Ok(Ord3::Gt)));
    assert!(matches!(parse_reply(&v("+3")), Ok(Ord3::Gt)));
    assert!(matches!(parse_reply(&v("-000")), Ok(Ord3::Eq)));
}

#[test]
fn malformed_replies_are_comparator_errors() {
    assert!(matches!(
        parse_reply(&v("")),
        Err(SortError::ComparatorError(_))
    ));
    assert!(matches!(
        parse_reply(&v("abc")),
        Err(SortError::ComparatorError(_))
    ));
    assert!(matches!(
        parse_reply(&v("1.5")),
        Err(SortError::ComparatorError(_))
    ));
    assert!(matches!(
        parse_reply(&v("-")),
        Err(SortError::ComparatorError(_))
    ));
}

#[test]
fn session_sorts_when_replies_come_from_a_real_order() {
    let input = vec![v("pear"), v("apple"), v("fig"), v("banana")];
    let mut expected = input.clone();
    expected.sort();
    let mut s = ExtSortSession::new(input);
    while let Some((a, b)) = s.next_pair() {
        let verdict = if a < b {
            Ord3::Lt
        } else if a == b {
            Ord3::Eq
        } else {
            Ord3::Gt
        };
        s.reply(verdict);
    }
    assert_eq!(s.finish(), expected);
}

#[test]
fn session_preserves_lines_under_arbitrary_replies() {
    let input = vec![v("c"), v("a"), v("b")];
    let mut s = ExtSortSession::new(input.clone());
    while let Some(_) = s.next_pair() {
        s.reply(Ord3::Gt);
    }
    let mut out = s.finish();
    out.sort();
    let mut sorted_input = input;
    sorted_input.sort();
    assert_eq!(out, sorted_input);
}

#[test]
fn malformed_replies_carry_the_offending_bytes() {
    match parse_reply(&v("abc")) {
        Err(SortError::ComparatorError(m)) => assert_eq!(m, v("abc")),
        other => panic!("expected a comparator error, got {:?}", other),
    }
}

#[test]
fn check_session_accepts_ordered_verdicts() {
    let mut s = ExtCheckSession::new(vec![v("a"), v("b"), v("c")], false);
    while let Some((prev, cur)) = s.next_pair() {
        let verdict = if prev < cur {
            Ord3::Lt
        } else if prev == cur {
            Ord3::Eq
        } else {
            Ord3::Gt
        };
        s.reply(verdict).unwrap();
    }
}

#[test]
fn check_session_reports_the_exact_first_violation() {
    let mut s = ExtCheckSession::new(vec![v("b"), v("a"), v("c")], false);
    let (prev, cur) = s.next_pair().unwrap();
    assert_eq!(prev, v("b"));
    assert_eq!(cur, v("a"));
    match s.reply(Ord3::Gt) {
        Err(SortError::CheckFailure { line, prev, cur }) => {
            assert_eq!(line, 2);
            assert_eq!(prev, v("b"));
            assert_eq!(cur, v("a"));
        }
        other => panic!("expected a check failure, got {:?}", other),
    }
}

#[test]
fn check_session_with_unique_rejects_an_equal_verdict() {
    let mut s = ExtCheckSession::new(vec![v("a"), v("a")], true);
    let _ = s.next_pair().unwrap();
    match s.reply(Ord3::Eq) {
        Err(SortError::CheckFailure { line, .. }) => assert_eq!(line, 2),
        other => panic!("expected a check failure, got {:?}", other),
    }
}

#[test]
fn sort_session_hands_out_pending_then_candidate() {
    let mut s = ExtSortSession::new(vec![v("first"), v("second")]);
    let (pending, candidate) = s.next_pair().unwrap();
    assert_eq!(candidate, v("first"));
    assert_eq!(pending, v("second"));
    s.reply(Ord3::Gt);
    assert!(s.next_pair().is_none());
    assert_eq!(s.finish(), vec![v("first"), v("second")]);
}
