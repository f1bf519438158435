use brainfuck::ast::Statement;
use brainfuck::lexer::{Lexer, Token, tokenize};
use brainfuck::parser::{ParseError, parse};

#[test]
fn test_bracket() {
    assert!(matches!(parse("[[]"), Result::Err(ParseError::UnclosedOpeningBracket)));
    assert!(matches!(parse("[[]]]"), Result::Err(ParseError::UnexpectedClosingBracket)));
}

#[test]
fn test_lexer_rejects_first_bad_char() {
    let e = tokenize("ab").unwrap_err();
    assert_eq!(e.position, 0);
    let e = tokenize("+ \t\n\rx]").unwrap_err();
    assert_eq!(e.position, 5);
}

#[test]
fn test_parse_reports_lexer_failure_position() {
    match parse("+x") {
        Err(ParseError::LexerFailure(e)) => assert_eq!(e.position, 1),
        _ => panic!("expected a lexer failure"),
    }
}

#[test]
fn test_unexpected_closing_bracket_alone() {
    assert!(matches!(parse("]"), Err(ParseError::UnexpectedClosingBracket)));
}

#[test]
fn test_unclosed_opening_bracket_alone() {
    assert!(matches!(parse("["), Err(ParseError::UnclosedOpeningBracket)));
}

#[test]
fn test_parse_structure_and_count() {
    let prog = parse("+[>-]").unwrap();
    let expected = vec![
        Statement::IncValStmt,
        Statement::BracketsStmt(vec![Statement::IncPtrStmt, Statement::DecValStmt]),
    ];
    assert_eq!(prog.body, expected);
    // three non-bracket symbols plus one matched pair: four statements in all
    let mut count = 0;
    for s in prog.body.iter() {
        count += 1;
        if let Statement::BracketsStmt(body) = s {
            count += body.len();
        }
    }
    assert_eq!(count, 4);
}

#[test]
fn test_whitespace_is_skipped() {
    let a = parse("+ +\t+\n+\r.").unwrap();
    let b = parse("++++.").unwrap();
    assert_eq!(a.body, b.body);
}

#[test]
fn test_parse_idempotent() {
    let src = "++[>+++<-]>.";
    let a = parse(src).unwrap();
    let b = parse(src).unwrap();
    assert_eq!(a.body, b.body);
}

#[test]
fn test_empty_source_parses_to_empty_program() {
    let prog = parse("").unwrap();
    assert!(prog.body.is_empty());
}

#[test]
fn test_lexer_new_collects_tokens() {
    let lx = Lexer::new("+- ><").unwrap();
    assert_eq!(
        lx.tokens,
        vec![Token::Plus, Token::Minus, Token::GreaterThan, Token::LessThan]
    );
    assert_eq!(lx.source, "+- ><");
}
