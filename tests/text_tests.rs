use tinyc::code::{render_line, Instruction, OpCode, RegisterCode};
use tinyc::text::{push_signed_decimal, same_text};

#[test]
fn lines_are_aligned() {
    let ins = Instruction::Memory { op: OpCode::LD, target: RegisterCode::AC1, offset: -1, base: RegisterCode::MP };
    assert_eq!(render_line(123, &ins), "123:     LD  1,-1(6)");
    let ins = Instruction::Register { op: OpCode::DIV, target: RegisterCode::AC, first: RegisterCode::AC1, second: RegisterCode::AC };
    assert_eq!(render_line(7, &ins), "  7:    DIV  0,1,0");
}

#[test]
fn register_codes_round_trip() {
    assert_eq!(RegisterCode::from_code(5), Some(RegisterCode::GP));
    assert_eq!(RegisterCode::from_code(3), None);
    assert_eq!(RegisterCode::PC.code(), 7);
    assert_eq!(OpCode::JEQ.mnemonic(), "JEQ");
}

#[test]
fn text_helpers() {
    let mut s = String::new();
    push_signed_decimal(&mut s, i128::MIN);
    assert_eq!(s, "-170141183460469231731687303715884105728");
    assert!(same_text("abc", "abc"));
    assert!(!same_text("abc", "abd"));
}
