use peg_core::error::{ErrorState, ParseErr};
use peg_core::grammar::{Expr, Grammar, GrammarError, LeftRecursionClass, Rule};
use peg_core::input::{CharsInput, LineCol};
use peg_core::matcher::match_rule;
use peg_core::{ParseResult, RuleResult};

const FUEL: u64 = 1 << 32;

fn rule(name: &'static str, body: Expr) -> Rule {
    Rule { name, recursion: LeftRecursionClass::NotRecursive, cannot_fail: false, body }
}

fn grammar1(name: &'static str, body: Expr) -> Grammar {
    let g = Grammar { rules: vec![rule(name, body)], start: 0 };
    assert!(g.validate().is_ok());
    g.analyze()
}

fn seq(a: Expr, b: Expr) -> Expr {
    Expr::Sequence(Box::new(a), Box::new(b))
}

fn choice(a: Expr, b: Expr) -> Expr {
    Expr::OrderedChoice(Box::new(a), Box::new(b))
}

fn quiet(e: Expr) -> Expr {
    Expr::Quiet(Box::new(e))
}

fn digit() -> Expr {
    Expr::CharClass { ranges: vec![('0', '9')], negated: false, label: "['0'-'9']" }
}

fn many0(e: Expr) -> Expr {
    Expr::Repeat { inner: Box::new(e), min: 0, max: None }
}

fn many1(e: Expr) -> Expr {
    Expr::Repeat { inner: Box::new(e), min: 1, max: None }
}

fn run(g: &Grammar, text: &str) -> RuleResult<()> {
    let input = CharsInput::from_text(text);
    let mut st = ErrorState::new(0);
    match_rule(g, &input, g.start, 0, false, None, &mut st, FUEL)
}

fn expected_tokens(g: &Grammar, text: &str) -> (LineCol, Vec<&'static str>) {
    let input = CharsInput::from_text(text);
    match g.parse(&input, FUEL).result {
        ParseResult::Failed(e) => {
            let mut toks = e.expected.tokens();
            toks.sort();
            (e.location, toks)
        }
        _ => panic!("expected the parse to fail"),
    }
}

#[test]
fn literal_matches_exactly() {
    let g = grammar1("lit", Expr::Literal("ab"));
    assert_eq!(run(&g, "ab"), RuleResult::Matched(2, ()));
    assert_eq!(run(&g, "ax"), RuleResult::Failed);
    let (loc, toks) = expected_tokens(&g, "ax");
    assert_eq!(loc, LineCol { line: 1, column: 1 });
    assert_eq!(toks, vec!["ab"]);
}

#[test]
fn choice_first_success_wins() {
    // the first alternative matches alone, so its longer result is adopted
    let g = grammar1("c", choice(Expr::Literal("ab"), Expr::Literal("a")));
    assert_eq!(run(&g, "ab"), RuleResult::Matched(2, ()));
}

#[test]
fn choice_backtracks_to_second_alternative() {
    let g = grammar1("c", choice(Expr::Literal("ax"), Expr::Literal("ab")));
    assert_eq!(run(&g, "ab"), RuleResult::Matched(2, ()));
}

#[test]
fn sequence_ends_where_its_last_element_ends() {
    let g = grammar1("s", seq(Expr::Literal("ab"), Expr::Literal("cd")));
    assert_eq!(run(&g, "abcd"), RuleResult::Matched(4, ()));
    assert_eq!(run(&g, "abce"), RuleResult::Failed);
}

#[test]
fn sequence_failure_restores_the_start_position() {
    // the first alternative consumes "ab" before failing; the second starts
    // again from the very beginning
    let g = grammar1("s", choice(seq(Expr::Literal("ab"), Expr::Literal("x")), Expr::Literal("abc")));
    assert_eq!(run(&g, "abc"), RuleResult::Matched(3, ()));
}

#[test]
fn positive_lookahead_does_not_consume() {
    let g = grammar1(
        "s",
        seq(Expr::PositiveLookahead(Box::new(Expr::Literal("ab"))), Expr::Literal("ab")),
    );
    assert_eq!(run(&g, "ab"), RuleResult::Matched(2, ()));
}

#[test]
fn negative_lookahead_succeeds_exactly_when_inner_fails() {
    let g = grammar1(
        "s",
        seq(Expr::NegativeLookahead(Box::new(Expr::Literal("x"))), Expr::Literal("ab")),
    );
    assert_eq!(run(&g, "ab"), RuleResult::Matched(2, ()));
    let g2 = grammar1("n", Expr::NegativeLookahead(Box::new(Expr::Literal("a"))));
    assert_eq!(run(&g2, "ab"), RuleResult::Failed);
    assert_eq!(run(&g2, "xy"), RuleResult::Matched(0, ()));
}

#[test]
fn quiet_failures_stay_out_of_the_expected_set() {
    let loud = grammar1("s", seq(Expr::Literal("a"), Expr::Literal("b")));
    let (_, toks) = expected_tokens(&loud, "x");
    assert_eq!(toks, vec!["a"]);
    let hushed = grammar1("s", seq(quiet(Expr::Literal("a")), Expr::Literal("b")));
    let input = CharsInput::from_text("x");
    match hushed.parse(&input, FUEL).result {
        ParseResult::Failed(e) => assert_eq!(e.expected.tokens(), Vec::<&str>::new()),
        _ => panic!("the quiet grammar must still fail"),
    }
}

#[test]
fn repeat_respects_min_and_max() {
    let g = grammar1("r", Expr::Repeat { inner: Box::new(digit()), min: 2, max: Some(3) });
    assert_eq!(run(&g, "1"), RuleResult::Failed);
    assert_eq!(run(&g, "12"), RuleResult::Matched(2, ()));
    assert_eq!(run(&g, "123"), RuleResult::Matched(3, ()));
    // the bound stops the loop before the fourth digit
    assert_eq!(run(&g, "1234"), RuleResult::Matched(3, ()));
}

#[test]
fn repeat_of_a_non_advancing_match_stops_after_one_iteration() {
    let g = grammar1("r", many0(Expr::Literal("")));
    assert_eq!(run(&g, ""), RuleResult::Matched(0, ()));
    let input = CharsInput::from_text("");
    assert_eq!(g.parse(&input, FUEL).result, ParseResult::Matched(()));
}

#[test]
fn optional_matches_or_stays_put() {
    let g = grammar1("o", seq(Expr::Optional(Box::new(Expr::Literal("a"))), Expr::Literal("b")));
    assert_eq!(run(&g, "ab"), RuleResult::Matched(2, ()));
    assert_eq!(run(&g, "b"), RuleResult::Matched(1, ()));
}

#[test]
fn any_element_consumes_one_position() {
    let g = grammar1("a", Expr::AnyElement);
    assert_eq!(run(&g, "x"), RuleResult::Matched(1, ()));
    assert_eq!(run(&g, ""), RuleResult::Failed);
    let (_, toks) = expected_tokens(&g, "");
    assert_eq!(toks, vec!["<element>"]);
}

#[test]
fn negated_char_class() {
    let g = grammar1(
        "c",
        Expr::CharClass { ranges: vec![('a', 'z')], negated: true, label: "not a letter" },
    );
    assert_eq!(run(&g, "5"), RuleResult::Matched(1, ()));
    assert_eq!(run(&g, "g"), RuleResult::Failed);
}

#[test]
fn capture_is_transparent_to_positions() {
    let g = grammar1("c", Expr::Capture(Box::new(Expr::Literal("ab"))));
    assert_eq!(run(&g, "ab"), RuleResult::Matched(2, ()));
}

fn sum_grammar() -> Grammar {
    // expr = expr "+" num / num ; num = ['0'-'9']
    let body = choice(
        seq(Expr::RuleRef(0), seq(Expr::Literal("+"), Expr::RuleRef(1))),
        Expr::RuleRef(1),
    );
    let g = Grammar { rules: vec![rule("expr", body), rule("num", digit())], start: 0 };
    assert!(g.validate().is_ok());
    g.analyze()
}

#[test]
fn left_recursive_rule_consumes_the_whole_input() {
    let g = sum_grammar();
    assert_eq!(g.rules[0].recursion, LeftRecursionClass::Direct);
    assert_eq!(g.rules[1].recursion, LeftRecursionClass::NotRecursive);
    assert_eq!(run(&g, "1+2+3"), RuleResult::Matched(5, ()));
    let input = CharsInput::from_text("1+2+3");
    assert_eq!(g.parse(&input, FUEL).result, ParseResult::Matched(()));
}

#[test]
fn indirect_cycle_is_classified() {
    let g = Grammar {
        rules: vec![
            rule("a", Expr::RuleRef(1)),
            rule("b", seq(Expr::RuleRef(0), Expr::Literal("x"))),
        ],
        start: 0,
    }
    .analyze();
    assert_eq!(g.rules[0].recursion, LeftRecursionClass::Indirect);
    assert_eq!(g.rules[1].recursion, LeftRecursionClass::Indirect);
}

#[test]
fn leftmost_position_reaches_through_optional() {
    let g = grammar1("a", seq(Expr::Optional(Box::new(Expr::RuleRef(0))), Expr::Literal("x")));
    assert_eq!(g.rules[0].recursion, LeftRecursionClass::Direct);
}

#[test]
fn lookahead_does_not_carry_leftmost_position() {
    let g = grammar1(
        "a",
        seq(Expr::PositiveLookahead(Box::new(Expr::RuleRef(0))), Expr::Literal("x")),
    );
    assert_eq!(g.rules[0].recursion, LeftRecursionClass::NotRecursive);
}

#[test]
fn digits_as_subrule_and_as_top_level() {
    let g = grammar1("digits", many1(digit()));
    // as a sub-rule the match simply ends at position 2
    assert_eq!(run(&g, "42a"), RuleResult::Matched(2, ()));
    // as a top-level rule the leftover input is a failure at position 2
    let (loc, toks) = expected_tokens(&g, "42a");
    assert_eq!(loc, LineCol { line: 1, column: 3 });
    assert_eq!(toks, vec!["<end of input>", "['0'-'9']"]);
}

fn block_grammar() -> Grammar {
    // block = "{" ws (stmt ws)* "}" ; stmt = quiet(letter / block) ; ws = quiet([' ''\n']*)
    let letter = Expr::CharClass { ranges: vec![('a', 'z')], negated: false, label: "letter" };
    let ws_class = Expr::CharClass {
        ranges: vec![(' ', ' '), ('\n', '\n')],
        negated: false,
        label: "whitespace",
    };
    let items = many0(seq(Expr::RuleRef(1), Expr::RuleRef(2)));
    let block = seq(
        Expr::Literal("{"),
        seq(Expr::RuleRef(2), seq(items, Expr::Literal("}"))),
    );
    let stmt = quiet(choice(letter, Expr::RuleRef(0)));
    let ws = quiet(many0(ws_class));
    let g = Grammar {
        rules: vec![rule("block", block), rule("stmt", stmt), rule("ws", ws)],
        start: 0,
    };
    assert!(g.validate().is_ok());
    g.analyze()
}

#[test]
fn missing_closing_brace_reported_at_line_and_column() {
    let g = block_grammar();
    // the innermost blocks close, but the outermost never sees its "}": the
    // stray ";" sits at line 8, column 5
    let text = "{\n{\n{\na\n}\n}\n\n    ;\n";
    let input = CharsInput::from_text(text);
    let r = g.parse(&input, FUEL);
    match r.result {
        ParseResult::Failed(e) => {
            assert_eq!(e.location, LineCol { line: 8, column: 5 });
            assert_eq!(e.expected.tokens(), vec!["}"]);
        }
        _ => panic!("expected the parse to fail"),
    }
    assert!(r.errors.is_empty());
}

#[test]
fn error_label_records_and_reports() {
    let g = grammar1("e", Expr::ErrorLabel(Box::new(Expr::Literal("a")), "wanted a"));
    let input = CharsInput::from_text("b");
    let r = g.parse(&input, FUEL);
    match r.result {
        ParseResult::Error(e) => {
            assert_eq!(e, ParseErr { location: LineCol { line: 1, column: 1 }, error: "wanted a" });
        }
        _ => panic!("expected a labelled error"),
    }
    assert_eq!(
        r.errors,
        vec![ParseErr { location: LineCol { line: 1, column: 1 }, error: "wanted a" }]
    );
    // the convenience conversion collapses the label into a failure
    let r2 = g.parse(&input, FUEL);
    let e2 = r2.into_result().unwrap_err();
    assert_eq!(e2.expected.tokens(), vec!["wanted a"]);
}

#[test]
fn error_label_is_disabled_inside_quiet() {
    let g = grammar1("e", quiet(Expr::ErrorLabel(Box::new(Expr::Literal("a")), "msg")));
    let input = CharsInput::from_text("b");
    let r = g.parse(&input, FUEL);
    assert!(matches!(r.result, ParseResult::Failed(_)));
    assert!(r.errors.is_empty());
}

#[test]
fn repeated_invocation_yields_identical_results() {
    let g = sum_grammar();
    let input = CharsInput::from_text("1+2+x");
    let r1 = g.parse(&input, FUEL);
    let r2 = g.parse(&input, FUEL);
    assert_eq!(r1, r2);
    let ok = CharsInput::from_text("1+2");
    assert_eq!(g.parse(&ok, FUEL), g.parse(&ok, FUEL));
}

#[test]
fn diagnostic_pass_is_stable_across_runs() {
    let g = grammar1("digits", many1(digit()));
    let (l1, t1) = expected_tokens(&g, "42a");
    let (l2, t2) = expected_tokens(&g, "42a");
    assert_eq!(l1, l2);
    assert_eq!(t1, t2);
}

#[test]
fn validate_rejects_an_undefined_rule_reference() {
    let g = Grammar { rules: vec![rule("a", Expr::RuleRef(5))], start: 0 };
    assert_eq!(g.validate(), Err(GrammarError::UndefinedRule { rule: 0 }));
}

#[test]
fn validate_rejects_duplicate_rule_names() {
    let g = Grammar {
        rules: vec![rule("same", Expr::AnyElement), rule("same", Expr::AnyElement)],
        start: 0,
    };
    assert_eq!(g.validate(), Err(GrammarError::DuplicateName { first: 0, second: 1 }));
}

#[test]
fn validate_rejects_a_missing_entry_point() {
    let g = Grammar { rules: vec![rule("a", Expr::AnyElement)], start: 3 };
    assert_eq!(g.validate(), Err(GrammarError::NoEntryPoint));
}

#[test]
fn validate_accepts_a_well_formed_grammar() {
    assert!(sum_grammar().validate().is_ok());
}

#[test]
fn exhausted_budget_reads_as_failure() {
    let g = sum_grammar();
    assert_eq!(run(&g, "1"), RuleResult::Matched(1, ()));
    let input = CharsInput::from_text("1");
    let mut st = ErrorState::new(0);
    assert_eq!(match_rule(&g, &input, 0, 0, false, None, &mut st, 1), RuleResult::Failed);
}

#[test]
fn analyzer_judges_what_cannot_fail() {
    let g = Grammar {
        rules: vec![
            rule("opt", Expr::Optional(Box::new(digit()))),
            rule("lit", Expr::Literal("ab")),
            rule("star", many0(digit())),
            rule("plus", many1(digit())),
            rule("either", choice(Expr::Literal("x"), Expr::Optional(Box::new(digit())))),
        ],
        start: 0,
    }
    .analyze();
    assert!(g.rules[0].cannot_fail);
    assert!(!g.rules[1].cannot_fail);
    assert!(g.rules[2].cannot_fail);
    assert!(!g.rules[3].cannot_fail);
    assert!(g.rules[4].cannot_fail);
}
