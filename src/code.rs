//! The target machine as the code generator sees it: opcodes, registers,
//! instructions and the text of an instruction line.
use vstd::prelude::*;
use crate::text::{decimal, signed_decimal, pad_left, push_decimal, push_signed_decimal, push_padded};

verus! {

/// The operation of an instruction.
#[derive(Debug, Copy, Clone, PartialEq, Eq, Structural)]
pub enum OpCode {
    LDC,
    LD,
    LDA,
    ST,
    IN,
    OUT,
    ADD,
    SUB,
    MUL,
    DIV,
    JLT,
    JEQ,
}

/// The mnemonic of an opcode.
pub open spec fn op_text(op: OpCode) -> Seq<char> {
    match op {
        OpCode::LDC => "LDC"@,
        OpCode::LD => "LD"@,
        OpCode::LDA => "LDA"@,
        OpCode::ST => "ST"@,
        OpCode::IN => "IN"@,
        OpCode::OUT => "OUT"@,
        OpCode::ADD => "ADD"@,
        OpCode::SUB => "SUB"@,
        OpCode::MUL => "MUL"@,
        OpCode::DIV => "DIV"@,
        OpCode::JLT => "JLT"@,
        OpCode::JEQ => "JEQ"@,
    }
}

impl OpCode {
    /// The mnemonic, as it stands in an instruction line.
    pub fn mnemonic(&self) -> (r: &'static str)
        ensures
            r@ == op_text(*self),
    {
        match self {
            OpCode::LDC => "LDC",
            OpCode::LD => "LD",
            OpCode::LDA => "LDA",
            OpCode::ST => "ST",
            OpCode::IN => "IN",
            OpCode::OUT => "OUT",
            OpCode::ADD => "ADD",
            OpCode::SUB => "SUB",
            OpCode::MUL => "MUL",
            OpCode::DIV => "DIV",
            OpCode::JLT => "JLT",
            OpCode::JEQ => "JEQ",
        }
    }
}

/// The machine's special-purpose registers.
#[derive(Debug, Copy, Clone, PartialEq, Eq, Structural)]
pub enum RegisterCode {
    /// The first accumulator.
    AC,
    /// The second accumulator.
    AC1,
    /// The global pointer: variables live at fixed offsets from it.
    GP,
    /// The memory pointer: scratch cells live at offsets from it.
    MP,
    /// The program counter.
    PC,
}

/// The numeric code of a register.
pub open spec fn reg_number(r: RegisterCode) -> nat {
    match r {
        RegisterCode::AC => 0,
        RegisterCode::AC1 => 1,
        RegisterCode::GP => 5,
        RegisterCode::MP => 6,
        RegisterCode::PC => 7,
    }
}

impl RegisterCode {
    /// The register with the given numeric code; `None` for a code that names no register.
    pub fn from_code(value: usize) -> (r: Option<RegisterCode>)
        ensures
            r matches Some(g) ==> reg_number(g) == value,
            r is None <==> !(value == 0 || value == 1 || value == 5 || value == 6 || value == 7),
    {
        if value == 0 {
            Some(RegisterCode::AC)
        } else if value == 1 {
            Some(RegisterCode::AC1)
        } else if value == 5 {
            Some(RegisterCode::GP)
        } else if value == 6 {
            Some(RegisterCode::MP)
        } else if value == 7 {
            Some(RegisterCode::PC)
        } else {
            None
        }
    }

    /// The numeric code of the register.
    pub fn code(&self) -> (r: usize)
        ensures
            r == reg_number(*self),
    {
        match self {
            RegisterCode::AC => 0,
            RegisterCode::AC1 => 1,
            RegisterCode::GP => 5,
            RegisterCode::MP => 6,
            RegisterCode::PC => 7,
        }
    }
}

/// One instruction of the target machine.
#[derive(Debug, Copy, Clone, PartialEq, Eq, Structural)]
pub enum Instruction {
    /// A register-memory instruction, written `target,offset(base)`.
    Memory { op: OpCode, target: RegisterCode, offset: i128, base: RegisterCode },
    /// A register-register instruction, written `target,first,second`.
    Register { op: OpCode, target: RegisterCode, first: RegisterCode, second: RegisterCode },
}

/// The operand list of an instruction.
pub open spec fn operand_text(ins: Instruction) -> Seq<char> {
    match ins {
        Instruction::Memory { op, target, offset, base } => decimal(reg_number(target)) + ","@
            + signed_decimal(offset as int) + "("@ + decimal(reg_number(base)) + ")"@,
        Instruction::Register { op, target, first, second } => decimal(reg_number(target)) + ","@
            + decimal(reg_number(first)) + ","@ + decimal(reg_number(second)),
    }
}

/// The opcode of an instruction.
pub open spec fn op_of(ins: Instruction) -> OpCode {
    match ins {
        Instruction::Memory { op, .. } => op,
        Instruction::Register { op, .. } => op,
    }
}

/// The text of the instruction line at address `addr`: the address right-aligned in
/// three places, a colon, the mnemonic right-aligned in five, and the operands.
pub open spec fn line_text(addr: nat, ins: Instruction) -> Seq<char> {
    pad_left(decimal(addr), 3) + ":  "@ + pad_left(op_text(op_of(ins)), 5) + "  "@ + operand_text(ins)
}

/// The lines of `code` placed from address `base` on.
pub open spec fn listing(code: Seq<Instruction>, base: nat) -> Seq<Seq<char>> {
    Seq::new(code.len(), |i: int| line_text((base + i) as nat, code[i]))
}

/// The text of an instruction placed at address `addr`.
pub fn render_line(addr: usize, ins: &Instruction) -> (r: String)
    ensures
        r@ == line_text(addr as nat, *ins),
{
    let mut number = String::new();
    push_decimal(&mut number, addr as u128);
    let mut out = String::new();
    push_padded(&mut out, number.as_str(), 3);
    out.append(":  ");
    let op = match ins {
        Instruction::Memory { op, .. } => *op,
        Instruction::Register { op, .. } => *op,
    };
    push_padded(&mut out, op.mnemonic(), 5);
    out.append("  ");
    match ins {
        Instruction::Memory { op, target, offset, base } => {
            push_decimal(&mut out, target.code() as u128);
            out.append(",");
            push_signed_decimal(&mut out, *offset);
            out.append("(");
            push_decimal(&mut out, base.code() as u128);
            out.append(")");
        },
        Instruction::Register { op, target, first, second } => {
            push_decimal(&mut out, target.code() as u128);
            out.append(",");
            push_decimal(&mut out, first.code() as u128);
            out.append(",");
            push_decimal(&mut out, second.code() as u128);
        },
    }
    proof {
        assert(out@ =~= line_text(addr as nat, *ins));
    }
    out
}

} // verus!
