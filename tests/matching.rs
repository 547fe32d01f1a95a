use register_regex::Instruction::{Char, Jump, Match, Split};
use register_regex::{
    do_matching, eval, get_code, parse, CodeGenError, EvalError, Instruction, MatchError,
    ParseError,
};

fn both(expr: &str, line: &str) -> bool {
    let d = do_matching(expr, line, true).unwrap();
    let w = do_matching(expr, line, false).unwrap();
    assert_eq!(d, w, "strategies disagree on {expr:?} / {line:?}");
    d
}

#[test]
fn given_example_alternation_of_plus() {
    assert!(both("abc|(de|cd)+", "decddede"));
}

#[test]
fn given_example_plus_or_star() {
    assert!(both("a(bc)+|c(def)*", "cdefdefdef"));
}

#[test]
fn literal_pattern_matches_itself_only() {
    assert!(both("abc", "abc"));
    assert!(!both("abc", "ab"));
    assert!(!both("abc", "abd"));
    assert!(!both("abc", ""));
    assert!(!both("abc", "xabc"));
}

#[test]
fn literal_pattern_rejects_longer_line() {
    assert!(!both("abc", "abcd"));
    assert!(!both("a", "aa"));
}

#[test]
fn empty_pattern() {
    assert!(both("", ""));
    assert!(!both("", "abc"));
}

#[test]
fn nested_groups() {
    assert!(both("((a))", "a"));
    assert!(both("((a|b)c)", "bc"));
    assert!(both("(((ab)))*c", "ababc"));
    assert!(!both("(((ab)))+c", "c"));
    assert!(both("(x(y(z|w))+)", "xywyz"));
}

#[test]
fn repetition_of_grouped_alternation() {
    assert!(both("(a|b)*c", "abbac"));
    assert!(!both("(a|b)*c", "d"));
    assert!(!both("(a|b)+", ""));
    assert!(both("(a|b)+", "b"));
    assert!(both("(a|b)?c", "c"));
    assert!(both("(a|b)?c", "bc"));
    assert!(!both("(a|b)?c", "abc"));
}

#[test]
fn star_over_empty_matching_body_terminates() {
    assert!(both("(a?)*", ""));
    assert!(both("(a?)*", "aaa"));
    assert!(both("(a?)*b", "aab"));
    assert!(!both("(a?)*b", "aac"));
    assert!(!both("(a*)*b", "aaac"));
    assert!(both("(a?)+", ""));
    assert!(!both("((a?)*)*c", "aaaaaaaaaaaaaaaaaaaab"));
}

#[test]
fn strategies_agree_on_corpus() {
    let patterns = [
        "a", "ab|cd", "(ab)*c", "(a|b)+c?", "((a|b)*c)+", "a?b?c?", "(a*)*", "(a|ab)(c|bcd)",
        "x(y|z)*(w+|v?)", "((ab|a)(b|))",
    ];
    let lines = ["", "a", "ab", "abc", "abcd", "cd", "xyzzw", "ababc", "bbbc", "abcbcd"];
    for p in patterns.iter() {
        for l in lines.iter() {
            let d = do_matching(p, l, true);
            let w = do_matching(p, l, false);
            assert_eq!(d, w, "{p:?} / {l:?}");
        }
    }
}

#[test]
fn escaped_operator_is_literal() {
    assert!(both("a\\*b", "a*b"));
    assert!(!both("a\\*b", "ab"));
    assert!(both("\\(\\)", "()"));
}

#[test]
fn parse_errors() {
    let cases = [
        ("(", ParseError::UnbalancedParen),
        ("a)", ParseError::UnbalancedParen),
        ("(a", ParseError::UnbalancedParen),
        ("*a", ParseError::NoOperand),
        ("a**", ParseError::NoOperand),
        ("a|+", ParseError::NoOperand),
        ("\\", ParseError::InvalidEscape),
        ("\\a", ParseError::InvalidEscape),
        ("a|", ParseError::EmptyAlternative),
        ("|a", ParseError::EmptyAlternative),
        ("()", ParseError::EmptyAlternative),
    ];
    for (p, e) in cases.iter() {
        assert_eq!(do_matching(p, "a", true), Err(MatchError::Parse(*e)), "{p:?}");
        assert_eq!(do_matching(p, "a", false), Err(MatchError::Parse(*e)), "{p:?}");
    }
}

#[test]
fn compiled_programs() {
    let code = |p: &str| get_code(&parse(p).unwrap()).unwrap();
    assert_eq!(code("a|b"), vec![Split(1, 3), Char('a'), Jump(4), Char('b'), Match]);
    assert_eq!(code("a*"), vec![Split(1, 3), Char('a'), Jump(0), Match]);
    assert_eq!(code("a+"), vec![Char('a'), Split(0, 2), Match]);
    assert_eq!(code("a?"), vec![Split(1, 2), Char('a'), Match]);
    assert_eq!(code(""), vec![Match]);
    assert_eq!(
        code("a(bc)*"),
        vec![Char('a'), Split(2, 5), Char('b'), Char('c'), Jump(1), Match]
    );
}

#[test]
fn compile_is_deterministic() {
    for p in ["abc|(de|cd)+", "a(bc)+|c(def)*", "(a?)*", ""].iter() {
        let a = get_code(&parse(p).unwrap());
        let b = get_code(&parse(p).unwrap());
        assert_eq!(a, b);
        assert_eq!(do_matching(p, "cdefdef", true), do_matching(p, "cdefdef", true));
    }
}

#[test]
fn codegen_error_is_comparable() {
    assert_ne!(CodeGenError::PCOverFlow, CodeGenError::FailOr);
}

#[test]
fn malformed_programs_are_rejected() {
    for d in [true, false] {
        assert_eq!(eval(&[], &[], d), Err(EvalError::InvalidPC));
        assert_eq!(eval(&[Jump(5), Match], &['a'], d), Err(EvalError::InvalidPC));
        assert_eq!(eval(&[Split(1, 2), Match], &['a'], d), Err(EvalError::InvalidPC));
        assert_eq!(eval(&[Char('a')], &['a'], d), Err(EvalError::InvalidPC));
    }
}

#[test]
fn eval_runs_hand_written_programs() {
    let prog = [Split(1, 3), Char('a'), Jump(0), Char('b'), Match];
    for d in [true, false] {
        assert_eq!(eval(&prog, &['a', 'a', 'b'], d), Ok(true));
        assert_eq!(eval(&prog, &['a', 'c'], d), Ok(false));
        assert_eq!(eval(&[Jump(0), Match], &[], d), Ok(false));
    }
}

#[test]
fn characters_beyond_ascii() {
    assert!(both("é+ß", "ééß"));
    assert!(!both("é+ß", "eß"));
}

#[test]
fn whole_line_must_match() {
    assert!(both("a|ab", "ab"));
    assert!(!both("(ab)*", "x"));
    assert!(!both("x(ab)*y", "xaby "));
    assert!(both("x(ab)*y", "xaby"));
    assert!(!both("x(ab)*y", "xabay"));
}

#[test]
fn unreached_bad_address_is_not_an_error() {
    for d in [true, false] {
        assert_eq!(eval(&[Split(1, 2), Match, Jump(9)], &[], d), Ok(true));
        assert_eq!(eval(&[Char('a'), Match], &['a', 'b'], d), Ok(false));
        assert_eq!(eval(&[Char('a'), Match, Jump(7)], &['a'], d), Ok(true));
    }
}

#[test]
fn backtracking_stops_at_first_bad_address() {
    assert_eq!(eval(&[Split(3, 1), Match], &[], true), Err(EvalError::InvalidPC));
    assert_eq!(eval(&[Split(2, 1), Match, Jump(9)], &[], true), Err(EvalError::InvalidPC));
    assert_eq!(eval(&[Split(3, 1), Match], &[], false), Ok(true));
    assert_eq!(eval(&[Split(2, 1), Match, Jump(9)], &[], false), Ok(true));
}
