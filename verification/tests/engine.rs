use my_regex::do_matching;
use my_regex::EngineError;
use my_regex::codegen::get_code;
use my_regex::evaluator::eval;
use my_regex::evaluator::EvalError;
use my_regex::evaluator::Instruction;
use my_regex::helper::chars_of;
use my_regex::helper::safe_add;
use my_regex::helper::SafeAdd;
use my_regex::parser::parse;
use my_regex::parser::ParseError;

#[test]
fn test_safe_add() {
    let n: usize = 10;
    assert_eq!(Some(30), n.safe_add(&20));

    let n: usize = !0; // 2^64 - 1 (64 bits CPU)
    assert_eq!(None, n.safe_add(&1));

    let mut n: usize = 10;
    assert!(safe_add(&mut n, &20, || ()).is_ok());

    let mut n: usize = !0;
    assert!(safe_add(&mut n, &1, || ()).is_err());
}

#[test]
fn test_matching_depth() {
    // parse errors
    assert!(do_matching("+b", "bbb", 0, true).is_err());
    assert!(do_matching("*b", "bbb", 0, true).is_err());
    assert!(do_matching("|b", "bbb", 0, true).is_err());
    assert!(do_matching("?b", "bbb", 0, true).is_err());

    // parse ok, match ok
    assert!(do_matching("abc|def", "def", 0, true).unwrap());
    assert!(do_matching("(abc)*", "abcabc", 0, true).unwrap());
    assert!(do_matching("(ab|cd)+", "abcdcd", 0, true).unwrap());
    assert!(do_matching("abc?", "ab", 0, true).unwrap());
    assert!(do_matching("((((a*)*)*)*)", "aaaaaaaaa", 0, true).unwrap());
    assert!(do_matching("(a*)*b", "aaaaaaaaab", 0, true).unwrap());
    assert!(do_matching("(a*)*b", "b", 0, true).unwrap());
    assert!(do_matching("a**b", "aaaaaaaaab", 0, true).unwrap());
    assert!(do_matching("a**b", "b", 0, true).unwrap());
    assert!(do_matching("a.c", "abc", 0, true).unwrap());
    assert!(do_matching("^abc", "abcdef", 0, true).unwrap());
    assert!(do_matching("abc$", "abc", 0, true).unwrap());

    // parse ok, match rejected
    assert!(!do_matching("abc|def", "efa", 0, true).unwrap());
    assert!(!do_matching("(ab|cd)+", "", 0, true).unwrap());
    assert!(!do_matching("abc?", "acb", 0, true).unwrap());
    assert!(!do_matching("a.c", "ac", 0, true).unwrap());
    assert!(!do_matching("^abc", "defabc", 0, true).unwrap());
    assert!(!do_matching("^abc", "abcdef", 1, true).unwrap());
    assert!(!do_matching("abc$", "abcdef", 0, true).unwrap());
}

#[test]
fn test_matching_width() {
    // parse errors
    assert!(do_matching("+b", "bbb", 0, false).is_err());
    assert!(do_matching("*b", "bbb", 0, false).is_err());
    assert!(do_matching("|b", "bbb", 0, false).is_err());
    assert!(do_matching("?b", "bbb", 0, false).is_err());

    // parse ok, match ok
    assert!(do_matching("abc|def", "def", 0, false).unwrap());
    assert!(do_matching("(abc)*", "abcabc", 0, false).unwrap());
    assert!(do_matching("(ab|cd)+", "abcdcd", 0, false).unwrap());
    assert!(do_matching("abc?", "ab", 0, false).unwrap());
    assert!(do_matching("((((a*)*)*)*)", "aaaaaaaaa", 0, false).unwrap());
    assert!(do_matching("(a*)*b", "aaaaaaaaab", 0, false).unwrap());
    assert!(do_matching("(a*)*b", "b", 0, false).unwrap());
    assert!(do_matching("a**b", "aaaaaaaaab", 0, false).unwrap());
    assert!(do_matching("a**b", "b", 0, false).unwrap());
    assert!(do_matching("a.c", "abc", 0, false).unwrap());
    assert!(do_matching("^abc", "abcdef", 0, false).unwrap());
    assert!(do_matching("abc$", "abc", 0, false).unwrap());

    // parse ok, match rejected
    assert!(!do_matching("abc|def", "efa", 0, false).unwrap());
    assert!(!do_matching("(ab|cd)+", "", 0, false).unwrap());
    assert!(!do_matching("abc?", "acb", 0, false).unwrap());
    assert!(!do_matching("a.c", "ac", 0, false).unwrap());
    assert!(!do_matching("^abc", "defabc", 0, false).unwrap());
    assert!(!do_matching("^abc", "abcdef", 1, false).unwrap());
    assert!(!do_matching("abc$", "abcdef", 0, false).unwrap());
}

#[test]
fn test_parse_error_variants() {
    // a repetition operator with nothing before it, at its position
    let pat = chars_of("+b");
    assert!(matches!(parse(&pat), Err(ParseError::NoPrev(0))));
    let pat = chars_of("ab(*)");
    assert!(matches!(parse(&pat), Err(ParseError::NoPrev(3))));

    // an empty pattern, group or operand
    let pat = chars_of("");
    assert!(matches!(parse(&pat), Err(ParseError::Empty)));
    let pat = chars_of("a|");
    assert!(matches!(parse(&pat), Err(ParseError::Empty)));
    let pat = chars_of("()");
    assert!(matches!(parse(&pat), Err(ParseError::Empty)));

    // unbalanced parentheses
    let pat = chars_of("(ab");
    assert!(matches!(parse(&pat), Err(ParseError::NoRightParen)));
    let pat = chars_of("a)b");
    assert!(matches!(parse(&pat), Err(ParseError::InvalidRightParen(1))));

    // a trailing escape
    let pat = chars_of("ab\\");
    assert!(matches!(parse(&pat), Err(ParseError::TrailingEscape)));

    // the same errors through the facade
    assert!(matches!(
        do_matching("(ab", "x", 0, true),
        Err(EngineError::Parse(ParseError::NoRightParen))
    ));
}

#[test]
fn test_escaped_characters() {
    assert!(do_matching("\\*a", "*a", 0, true).unwrap());
    assert!(do_matching("\\*a", "*a", 0, false).unwrap());
    assert!(!do_matching("\\*a", "aa", 0, true).unwrap());
    assert!(do_matching("a\\|b", "a|b", 0, true).unwrap());
    assert!(!do_matching("a\\|b", "a", 0, true).unwrap());
    assert!(do_matching("\\(a\\)", "(a)", 0, false).unwrap());
}

#[test]
fn test_program_layout() {
    // "ab" compiles to its two characters followed by the accept.
    let pat = chars_of("ab");
    let ast = parse(&pat).unwrap();
    let code = get_code(&ast).unwrap();
    assert_eq!(
        code,
        vec![Instruction::Char('a'), Instruction::Char('b'), Instruction::Match]
    );

    // "a|b": Split(1, 3); Char(a); Jump(4); Char(b); Match.
    let pat = chars_of("a|b");
    let ast = parse(&pat).unwrap();
    let code = get_code(&ast).unwrap();
    assert_eq!(
        code,
        vec![
            Instruction::Split(1, 3),
            Instruction::Char('a'),
            Instruction::Jump(4),
            Instruction::Char('b'),
            Instruction::Match,
        ]
    );

    // "a*": Split(1, 3); Char(a); Jump(0); Match.
    let pat = chars_of("a*");
    let ast = parse(&pat).unwrap();
    let code = get_code(&ast).unwrap();
    assert_eq!(
        code,
        vec![
            Instruction::Split(1, 3),
            Instruction::Char('a'),
            Instruction::Jump(0),
            Instruction::Match,
        ]
    );

    // "a+": Char(a); Split(0, 2); Match.
    let pat = chars_of("a+");
    let ast = parse(&pat).unwrap();
    let code = get_code(&ast).unwrap();
    assert_eq!(
        code,
        vec![
            Instruction::Char('a'),
            Instruction::Split(0, 2),
            Instruction::Match,
        ]
    );

    // "a?": Split(1, 2); Char(a); Match.
    let pat = chars_of("a?");
    let ast = parse(&pat).unwrap();
    let code = get_code(&ast).unwrap();
    assert_eq!(
        code,
        vec![
            Instruction::Split(1, 2),
            Instruction::Char('a'),
            Instruction::Match,
        ]
    );

    // nested repetition collapses: "a**" compiles as "a*" does.
    let pat = chars_of("a**");
    let ast = parse(&pat).unwrap();
    let collapsed = get_code(&ast).unwrap();
    let pat = chars_of("a*");
    let ast = parse(&pat).unwrap();
    assert_eq!(collapsed, get_code(&ast).unwrap());
}

#[test]
fn test_eval_runtime_errors() {
    // control transferred outside the program
    let prog = vec![Instruction::Jump(7)];
    let line: Vec<char> = vec!['a'];
    assert!(matches!(
        eval(&prog, &line, 0, true),
        Err(EvalError::InvalidPC)
    ));
    assert!(matches!(
        eval(&prog, &line, 0, false),
        Err(EvalError::InvalidContext)
    ));

    // an empty program has no instruction to start from
    let prog: Vec<Instruction> = vec![];
    assert!(eval(&prog, &line, 0, true).is_err());
    assert!(eval(&prog, &line, 0, false).is_err());
}

#[test]
fn test_eval_direct() {
    // Char(a); Match — accepts any line starting with 'a', in both modes.
    let prog = vec![Instruction::Char('a'), Instruction::Match];
    let line: Vec<char> = vec!['a', 'b'];
    assert!(eval(&prog, &line, 0, true).unwrap());
    assert!(eval(&prog, &line, 0, false).unwrap());
    let line: Vec<char> = vec!['b'];
    assert!(!eval(&prog, &line, 0, true).unwrap());
    assert!(!eval(&prog, &line, 0, false).unwrap());
}

#[test]
fn test_strategies_agree() {
    let patterns = [
        "abc|def", "(abc)*", "(ab|cd)+", "abc?", "((((a*)*)*)*)", "(a*)*b", "a**b", "a.c",
        "^abc", "abc$", "a(b|c)*d", "(a|b)(c|d)", "x?y?z?",
    ];
    let lines = ["", "abc", "def", "abcdcd", "aaaaaaaaab", "b", "ac", "abd", "xyz", "yz"];
    for pat in patterns.iter() {
        for line in lines.iter() {
            for offset in [0usize, 1, 5] {
                let depth = do_matching(pat, line, offset, true).unwrap();
                let width = do_matching(pat, line, offset, false).unwrap();
                assert_eq!(depth, width, "pattern {pat} line {line} offset {offset}");
            }
        }
    }
}

#[test]
fn test_anchors_and_offset() {
    // ^ holds only at the true start of the original line
    assert!(do_matching("^a", "abc", 0, true).unwrap());
    assert!(!do_matching("^a", "abc", 3, true).unwrap());
    assert!(!do_matching("^a", "abc", 3, false).unwrap());
    // $ holds only at the end of the input
    assert!(do_matching("a$", "a", 0, false).unwrap());
    assert!(!do_matching("a$", "ab", 0, false).unwrap());
    // both anchors on an exact match
    assert!(do_matching("^abc$", "abc", 0, true).unwrap());
    assert!(!do_matching("^abc$", "abcd", 0, true).unwrap());
}
