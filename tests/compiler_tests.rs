use tinyc::ast::Node;
use tinyc::compiler::{CompileError, Compiler};
use tinyc::parser::Parser;

fn compile_lines(input: &str) -> Result<Vec<String>, CompileError> {
    let mut parser = Parser::new(input);
    let program = parser.parse_program().expect("the program parses");
    let mut compiler = Compiler::new();
    compiler.compile(&Node::Program(program))?;
    Ok(compiler.intermedia)
}

#[test]
fn test_read() {
    let input = "read x;";
    let mut parser = Parser::new(input);
    let mut compiler = Compiler::new();
    compiler.compile(&Node::Program(parser.parse_program().unwrap())).unwrap();
    println!("{:?}", compiler.intermedia);
    assert_eq!(compiler.intermedia, vec!["  0:     IN  0,0,0", "  1:     ST  0,0(5)"]);
}

#[test]
fn test_write() {
    let input = "read x;write x;";
    let mut parser = Parser::new(input);
    let mut compiler = Compiler::new();
    compiler.compile(&Node::Program(parser.parse_program().unwrap())).unwrap();
    println!("{:?}", compiler.intermedia);
    assert_eq!(
        compiler.intermedia,
        vec!["  0:     IN  0,0,0", "  1:     ST  0,0(5)", "  2:     LD  0,0(5)", "  3:    OUT  0,0,0"]
    );
}

#[test]
fn test_assign() {
    let input = "x := 5;";
    let mut parser = Parser::new(input);
    let mut compiler = Compiler::new();
    compiler.compile(&Node::Program(parser.parse_program().unwrap())).unwrap();
    println!("{:?}", compiler.intermedia);
    assert_eq!(compiler.intermedia, vec!["  0:    LDC  0,5(0)", "  1:     ST  0,0(5)"]);
}

#[test]
fn test_infix() {
    let input = "
x := 5 + 3;
y := x * 4;
z := x < y;";
    let mut parser = Parser::new(input);
    let mut compiler = Compiler::new();
    compiler.compile(&Node::Program(parser.parse_program().unwrap())).unwrap();
    let text = compiler.to_intermedia_code();
    println!("{}", text);
    let expected = [
        "  0:    LDC  0,5(0)",
        "  1:     ST  0,0(6)",
        "  2:    LDC  0,3(0)",
        "  3:     LD  1,0(6)",
        "  4:    ADD  0,1,0",
        "  5:     ST  0,0(5)",
        "  6:     LD  0,0(5)",
        "  7:     ST  0,0(6)",
        "  8:    LDC  0,4(0)",
        "  9:     LD  1,0(6)",
        " 10:    MUL  0,1,0",
        " 11:     ST  0,1(5)",
        " 12:     LD  0,0(5)",
        " 13:     ST  0,0(6)",
        " 14:     LD  0,1(5)",
        " 15:     LD  1,0(6)",
        " 16:    SUB  0,1,0",
        " 17:    JLT  0,2(7)",
        " 18:    LDC  0,0(0)",
        " 19:    LDA  7,1(7)",
        " 20:    LDC  0,1(0)",
        " 21:     ST  0,2(5)",
    ];
    let mut joined = String::new();
    for line in expected.iter() {
        joined.push_str(line);
        joined.push('\n');
    }
    assert_eq!(text, joined);
}

#[test]
fn test_unit() {
    let input = "
{ Sample program in TINY language - computes factorial}
read x; { input an integer }
if 0 < x then { don't compute if x <= 0 }
    fact := 1;
    repeat
        fact := fact * x;
        x := x - 1;
    until x = 0;
    write fact; { output factorial of x }
end";
    let mut parser = Parser::new(input);
    let mut compiler = Compiler::new();
    compiler.compile(&Node::Program(parser.parse_program().unwrap())).unwrap();
    let text = compiler.to_intermedia_code();
    println!("{}", text);
    let lines = compiler.intermedia;
    assert_eq!(lines.len(), 39);
    assert_eq!(lines[11], " 11:    JEQ  0,27(7)");
    assert_eq!(lines[35], " 35:    JEQ  0,-22(7)");
    assert_eq!(lines[38], " 38:    LDA  7,0(7)");
}

#[test]
fn read_stores_to_first_offset() {
    assert_eq!(compile_lines("read x;").unwrap(), vec!["  0:     IN  0,0,0", "  1:     ST  0,0(5)"]);
}

#[test]
fn assign_loads_constant_then_stores() {
    assert_eq!(compile_lines("x := 5;").unwrap(), vec!["  0:    LDC  0,5(0)", "  1:     ST  0,0(5)"]);
}

#[test]
fn infix_spills_left_operand_under_mp() {
    assert_eq!(
        compile_lines("x := 5 + 3;").unwrap(),
        vec![
            "  0:    LDC  0,5(0)",
            "  1:     ST  0,0(6)",
            "  2:    LDC  0,3(0)",
            "  3:     LD  1,0(6)",
            "  4:    ADD  0,1,0",
            "  5:     ST  0,0(5)",
        ]
    );
}

#[test]
fn if_jump_lands_after_both_slots() {
    let lines = compile_lines("read x; if 0 < x then y := 1; end").unwrap();
    assert_eq!(lines.len(), 15);
    assert_eq!(lines[11], " 11:    JEQ  0,3(7)");
    assert_eq!(lines[12], " 12:    LDC  0,1(0)");
    assert_eq!(lines[13], " 13:     ST  0,1(5)");
    assert_eq!(lines[14], " 14:    LDA  7,0(7)");
}

#[test]
fn if_with_empty_block_patches_both_slots() {
    let lines = compile_lines("read x; if x = 0 then end").unwrap();
    assert_eq!(lines.len(), 13);
    assert_eq!(lines[11], " 11:    JEQ  0,1(7)");
    assert_eq!(lines[12], " 12:    LDA  7,0(7)");
}

#[test]
fn relation_materialises_zero_or_one() {
    let lines = compile_lines("a := 1 = 2;").unwrap();
    assert_eq!(lines[4], "  4:    SUB  0,1,0");
    assert_eq!(lines[5], "  5:    JEQ  0,2(7)");
    assert_eq!(lines[6], "  6:    LDC  0,0(0)");
    assert_eq!(lines[7], "  7:    LDA  7,1(7)");
    assert_eq!(lines[8], "  8:    LDC  0,1(0)");
}

#[test]
fn repeat_jumps_back_to_body() {
    let lines = compile_lines("read x; repeat x := x - 1; until x = 0;").unwrap();
    assert_eq!(lines.len(), 18);
    assert_eq!(lines[17], " 17:    JEQ  0,-16(7)");
}

#[test]
fn undeclared_variable_is_an_error() {
    assert_eq!(compile_lines("write y;"), Err(CompileError::UndeclaredVariable));
}

#[test]
fn unsupported_operator_is_an_error() {
    let r = compile_lines("read x; y := x <= 1;");
    assert_eq!(r, Err(CompileError::UnsupportedOperator(tinyc::token::TokenType::EqualLessThan)));
}

#[test]
fn empty_program_gives_no_lines() {
    assert_eq!(compile_lines("").unwrap(), Vec::<String>::new());
}

#[test]
fn variables_get_dense_offsets() {
    let lines = compile_lines("read a; read b; read a; c := 7;").unwrap();
    assert_eq!(lines[1], "  1:     ST  0,0(5)");
    assert_eq!(lines[3], "  3:     ST  0,1(5)");
    assert_eq!(lines[5], "  5:     ST  0,0(5)");
    assert_eq!(lines[7], "  7:     ST  0,2(5)");
}
