use tinyc::lexer::Lexer;
use tinyc::token::{look_up_keywords, Token, TokenType};

#[test]
fn lexer_unit_test() {
    let input = "
{ Sample program in TINY language - computes factorial}
read x; { input an integer }
if 0 < x then { don't compute if x <= 0 }
    fact := 1;
    repeat
        fact := fact * x;
        x := x - 1;
    until x = 0;
    write fact; { output factorial of x }
end";
    let mut l = Lexer::new(input);
    let mut kinds = Vec::new();
    loop {
        let token = l.next_token();
        println!("{:?}", token);
        kinds.push(token.token_type);
        if token.token_type == TokenType::Eof {
            break;
        }
    }
    assert_eq!(kinds.len(), 35);
    assert_eq!(kinds[0], TokenType::Read);
    assert_eq!(kinds[33], TokenType::End);
}

#[test]
fn eof_repeats() {
    let mut l = Lexer::new("x");
    assert_eq!(l.next_token().token_type, TokenType::Ident);
    for _ in 0..3 {
        let t = l.next_token();
        assert_eq!(t.token_type, TokenType::Eof);
        assert_eq!(t.literal, "");
    }
}

#[test]
fn operators_and_words() {
    let mut l = Lexer::new("a<=b := 12 < = ; + - * / \"hi\" ? until");
    let expected: Vec<(TokenType, &str)> = vec![
        (TokenType::Ident, "a"),
        (TokenType::EqualLessThan, "<="),
        (TokenType::Ident, "b"),
        (TokenType::Assign, ":="),
        (TokenType::Number, "12"),
        (TokenType::LessThan, "<"),
        (TokenType::Equal, "="),
        (TokenType::SemiColon, ";"),
        (TokenType::Add, "+"),
        (TokenType::Minus, "-"),
        (TokenType::Mul, "*"),
        (TokenType::Divide, "/"),
        (TokenType::String, "hi"),
        (TokenType::Illegal, ""),
        (TokenType::Until, "until"),
        (TokenType::Eof, ""),
    ];
    for (kind, text) in expected {
        let t = l.next_token();
        assert_eq!(t.token_type, kind);
        assert_eq!(t.literal, text);
    }
}

#[test]
fn unterminated_comment_swallows_the_rest() {
    let mut l = Lexer::new("x { y z");
    assert_eq!(l.next_token().literal, "x");
    assert_eq!(l.next_token().token_type, TokenType::Eof);
}

#[test]
fn lone_colon_and_open_string_are_illegal() {
    let mut l = Lexer::new(": \"abc");
    assert_eq!(l.next_token().token_type, TokenType::Illegal);
    assert_eq!(l.next_token().token_type, TokenType::Illegal);
    assert_eq!(l.next_token().token_type, TokenType::Eof);
}

#[test]
fn keywords_are_classified() {
    assert_eq!(look_up_keywords("read"), TokenType::Read);
    assert_eq!(look_up_keywords("then"), TokenType::Then);
    assert_eq!(look_up_keywords("end"), TokenType::End);
    assert_eq!(look_up_keywords("ending"), TokenType::Ident);
    let t = Token::new(TokenType::Ident, "abc");
    assert_eq!(t.literal, "abc");
}

#[test]
fn peek_and_next_char() {
    let mut l = Lexer::new("ab");
    assert_eq!(l.peek_char(), 'a');
    assert_eq!(l.next_char(), 'a');
    assert_eq!(l.next_char(), 'b');
    assert_eq!(l.next_char(), '\0');
    assert_eq!(l.peek_char(), '\0');
}

#[test]
fn nul_inside_text_is_illegal_not_the_end() {
    let mut l = Lexer::new("x\0y");
    assert_eq!(l.next_token().literal, "x");
    assert_eq!(l.next_token().token_type, TokenType::Illegal);
    assert_eq!(l.next_token().literal, "y");
    assert_eq!(l.next_token().token_type, TokenType::Eof);
}

#[test]
fn nul_inside_string_is_kept() {
    let mut l = Lexer::new("\"a\0b\" ;");
    let t = l.next_token();
    assert_eq!(t.token_type, TokenType::String);
    assert_eq!(t.literal, "a\0b");
    assert_eq!(l.next_token().token_type, TokenType::SemiColon);
    assert_eq!(l.read_string(), None);
}
