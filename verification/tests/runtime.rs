use peg_core::error::{ErrorState, ParseErr};
use peg_core::input::{CharsInput, LineCol};
use peg_core::{Parse, ParseElem, ParseLiteral, ParseSlice, ParseResult, ParseResults, RuleResult};

#[test]
fn error_state_tracks_furthest_failure() {
    let mut st = ErrorState::new(0);
    let r = st.mark_failure(3, "x");
    assert_eq!(r, RuleResult::Failed);
    assert_eq!(st.max_err_pos, 3);
    st.mark_failure(2, "y");
    assert_eq!(st.max_err_pos, 3);
    st.mark_failure(5, "z");
    assert_eq!(st.max_err_pos, 5);
    // the first pass does no set bookkeeping
    assert_eq!(st.expected.tokens(), Vec::<&str>::new());
}

#[test]
fn suppressed_failure_changes_nothing() {
    let mut st = ErrorState::new(0);
    st.suppress_fail = 1;
    let r = st.mark_failure(4, "x");
    assert_eq!(r, RuleResult::Failed);
    assert_eq!(st.max_err_pos, 0);
    st.mark_error(4, "e");
    assert!(st.errors.is_empty());
}

#[test]
fn reparse_collects_labels_at_furthest_position_only() {
    let mut st = ErrorState::new(0);
    st.max_err_pos = 5;
    st.reparse_for_failure();
    assert!(st.reparsing_on_failure);
    assert_eq!(st.suppress_fail, 0);
    st.mark_failure(5, "a");
    st.mark_failure(4, "b");
    st.mark_failure(5, "a");
    st.mark_failure(5, "c");
    assert_eq!(st.max_err_pos, 5);
    let mut toks = st.expected.tokens();
    toks.sort();
    assert_eq!(toks, vec!["a", "c"]);
}

#[test]
fn recovered_errors_accumulate_in_order() {
    let mut st = ErrorState::new(0);
    st.mark_error(1, "first");
    st.mark_error(2, "second");
    assert_eq!(
        st.errors,
        vec![
            ParseErr { location: 1, error: "first" },
            ParseErr { location: 2, error: "second" },
        ]
    );
}

#[test]
fn into_matched_keeps_recovered_errors() {
    let input = CharsInput::from_text("ab\ncd");
    let mut st = ErrorState::new(0);
    st.mark_error(3, "boom");
    let r: ParseResults<(), LineCol> = st.into_matched((), &input);
    assert_eq!(r.result, ParseResult::Matched(()));
    assert_eq!(
        r.errors,
        vec![ParseErr { location: LineCol { line: 2, column: 1 }, error: "boom" }]
    );
}

#[test]
fn into_failure_reports_position_and_expected_set() {
    let input = CharsInput::from_text("ab\ncd");
    let mut st = ErrorState::new(0);
    st.max_err_pos = 1;
    st.reparse_for_failure();
    st.mark_failure(1, "x");
    let r: ParseResults<(), LineCol> = st.into_failure(&input);
    match r.result {
        ParseResult::Failed(e) => {
            assert_eq!(e.location, LineCol { line: 1, column: 2 });
            assert_eq!(e.expected.tokens(), vec!["x"]);
        }
        _ => panic!("expected a failure"),
    }
}

#[test]
fn into_error_maps_the_location() {
    let input = CharsInput::from_text("ab\ncd");
    let st = ErrorState::new(0);
    let r: ParseResults<(), LineCol> =
        st.into_error(ParseErr { location: 4, error: "lbl" }, &input);
    match r.result {
        ParseResult::Error(e) => {
            assert_eq!(e, ParseErr { location: LineCol { line: 2, column: 2 }, error: "lbl" });
        }
        _ => panic!("expected an error"),
    }
}

#[test]
fn into_result_keeps_a_match() {
    let input = CharsInput::from_text("x");
    let st = ErrorState::new(0);
    let r: ParseResults<u32, LineCol> = st.into_matched(7, &input);
    assert_eq!(r.into_result(), Ok(7));
}

#[test]
fn into_result_collapses_an_error_into_a_singleton_failure() {
    let input = CharsInput::from_text("x");
    let st = ErrorState::new(0);
    let r: ParseResults<(), LineCol> =
        st.into_error(ParseErr { location: 0, error: "the label" }, &input);
    let e = r.into_result().unwrap_err();
    assert_eq!(e.location, LineCol { line: 1, column: 1 });
    assert_eq!(e.expected.tokens(), vec!["the label"]);
}

#[test]
fn unwrap_returns_the_match() {
    let input = CharsInput::from_text("x");
    let st = ErrorState::new(0);
    let r: ParseResults<u32, LineCol> = st.into_matched(9, &input);
    assert_eq!(r.unwrap(), 9);
}

#[test]
fn chars_input_capabilities() {
    let input = CharsInput::from_text("ab");
    assert_eq!(input.start(), 0);
    assert!(!input.is_eof(1));
    assert!(input.is_eof(2));
    assert_eq!(input.len(), 2);
    assert_eq!(input.char_at(1), 'b');
    assert_eq!(input.parse_elem(0), RuleResult::Matched(1, 'a'));
    assert_eq!(input.parse_elem(2), RuleResult::Failed);
    assert_eq!(input.parse_string_literal(0, "ab"), RuleResult::Matched(2, ()));
    assert_eq!(input.parse_string_literal(0, "ax"), RuleResult::Failed);
    assert_eq!(input.parse_string_literal(1, "b"), RuleResult::Matched(2, ()));
    assert_eq!(input.parse_string_literal(2, ""), RuleResult::Matched(2, ()));
    assert_eq!(input.slice(0, 1), vec!['a']);
    assert_eq!(input.parse_slice(0, 2), vec!['a', 'b']);
    assert_eq!(input.parse_slice(5, 9), Vec::<char>::new());
}

#[test]
fn line_col_rendering() {
    let input = CharsInput::from_text("ab\ncd");
    assert_eq!(input.position_repr(0), LineCol { line: 1, column: 1 });
    assert_eq!(input.position_repr(2), LineCol { line: 1, column: 3 });
    assert_eq!(input.position_repr(3), LineCol { line: 2, column: 1 });
    assert_eq!(input.position_repr(5), LineCol { line: 2, column: 3 });
    // positions past the end render as the end
    assert_eq!(input.position_repr(99), LineCol { line: 2, column: 3 });
}
