use tinyc::ast::{Expression, Statement};
use tinyc::parser::{number_value, ParseError, Parser};
use tinyc::token::TokenType;

#[test]
fn test_read_statement() {
    let input = "read x;";
    let mut parser = Parser::new(input);
    let program = parser.parse_program();
    println!("{:?}", program);
    let program = program.unwrap();
    assert_eq!(program.statements.len(), 1);
    match &program.statements[0] {
        Statement::Read(r) => assert_eq!(r.name.value, "x"),
        _ => panic!("expected a read"),
    }
}

#[test]
fn test_write_statement() {
    let input = "write x;";
    let mut parser = Parser::new(input);
    let program = parser.parse_program();
    println!("{:?}", program);
    match &program.unwrap().statements[0] {
        Statement::Write(w) => assert_eq!(w.name.value, "x"),
        _ => panic!("expected a write"),
    }
}

#[test]
fn test_assign_statement() {
    let input = "x := 5; y := x + 3";
    let mut parser = Parser::new(input);
    let program = parser.parse_program();
    println!("{:?}", program);
    assert_eq!(program.unwrap_err(), ParseError::UnexpectedToken(TokenType::Eof));
}

#[test]
fn test_if_statement() {
    let input = "if a < b then x := 3; end";
    let mut parser = Parser::new(input);
    let program = parser.parse_program();
    println!("{:?}", program);
    match &program.unwrap().statements[0] {
        Statement::If(i) => {
            assert!(matches!(i.cond, Expression::Infix(_)));
            assert_eq!(i.consequence.statements.len(), 1);
        }
        _ => panic!("expected an if"),
    }
}

#[test]
fn test_repeat_statement() {
    let input = "
if 0 < x then
    fact := 1;
    repeat
        fact := fact * x;
        x := x - 1;
    until x = 0;
    write fact; { output factorial of x }
end";
    let mut parser = Parser::new(input);
    let program = parser.parse_program();
    println!("{:?}", program);
    match &program.unwrap().statements[0] {
        Statement::If(i) => {
            assert_eq!(i.consequence.statements.len(), 3);
            match &i.consequence.statements[1] {
                Statement::Repeat(r) => assert_eq!(r.consequence.statements.len(), 2),
                _ => panic!("expected a repeat"),
            }
        }
        _ => panic!("expected an if"),
    }
}

#[test]
fn parser_unit_test() {
    let input = "
{ Sample program in TINY language - computes factorial}
read x; { input an integer }
if 0 < x then { don't compute if x <= 0 }
    fact := 1;
    repeat
        fact := fact * x;
        x := x - 1;
    until x = 0;
    write fact; { output factorial of x }
end";
    let mut parser = Parser::new(input);
    let program = parser.parse_program();
    println!("{:?}", program);
    assert_eq!(program.unwrap().statements.len(), 2);
}

#[test]
fn missing_then_is_an_error() {
    let mut parser = Parser::new("if x y := 1; end");
    assert_eq!(parser.parse_program().unwrap_err(), ParseError::UnexpectedToken(TokenType::Ident));
}

#[test]
fn illegal_token_is_an_error() {
    let mut parser = Parser::new("x := ?;");
    assert_eq!(parser.parse_program().unwrap_err(), ParseError::UnexpectedToken(TokenType::Illegal));
}

#[test]
fn number_too_large_is_an_error() {
    let mut parser = Parser::new("x := 2147483648;");
    assert_eq!(parser.parse_program().unwrap_err(), ParseError::NumberTooLarge);
    assert_eq!(number_value("2147483647"), Some(2147483647));
    assert_eq!(number_value("007"), Some(7));
}

#[test]
fn second_operator_is_an_error() {
    let mut parser = Parser::new("x := 1 + 2 + 3;");
    assert_eq!(parser.parse_program().unwrap_err(), ParseError::UnexpectedToken(TokenType::Add));
}

#[test]
fn text_after_nul_is_not_dropped() {
    let mut parser = Parser::new("read x;\0write x;");
    assert_eq!(parser.parse_program().unwrap_err(), ParseError::UnexpectedToken(TokenType::Illegal));
}
