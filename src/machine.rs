//! How the target machine runs the instructions that materialise a relation: enough of its
//! semantics to say what value such code leaves in the accumulator.
use vstd::prelude::*;
use crate::code::{Instruction, OpCode, RegisterCode};
use crate::compiler::relation_code;

verus! {

/// The two accumulators.
pub struct Accumulators {
    pub ac: int,
    pub ac1: int,
}

pub open spec fn read_reg(r: RegisterCode, s: Accumulators) -> int {
    if r == RegisterCode::AC1 { s.ac1 } else { s.ac }
}

pub open spec fn write_reg(r: RegisterCode, v: int, s: Accumulators) -> Accumulators {
    if r == RegisterCode::AC1 { Accumulators { ac: s.ac, ac1: v } } else { Accumulators { ac: v, ac1: s.ac1 } }
}

/// Runs `code` from address `pc` for at most `fuel` steps, or until the program counter leaves
/// the code; returns the accumulators. The program counter is advanced before an instruction
/// runs, so a PC-relative operand counts from the next address.
pub open spec fn run(code: Seq<Instruction>, pc: int, s: Accumulators, fuel: nat) -> Accumulators
    decreases fuel,
{
    if fuel == 0 || pc < 0 || pc >= code.len() {
        s
    } else {
        let next = pc + 1;
        match code[pc] {
            Instruction::Register { op, target, first, second } => {
                let a = read_reg(first, s);
                let b = read_reg(second, s);
                let v = if op == OpCode::ADD { a + b } else if op == OpCode::SUB { a - b } else if op == OpCode::MUL { a * b }
                    else { if b != 0 { a / b } else { 0 } };
                run(code, next, write_reg(target, v, s), (fuel - 1) as nat)
            },
            Instruction::Memory { op, target, offset, base } => {
                let off = offset as int;
                if op == OpCode::LDC {
                    run(code, next, write_reg(target, off, s), (fuel - 1) as nat)
                } else if op == OpCode::LDA && target == RegisterCode::PC && base == RegisterCode::PC {
                    run(code, next + off, s, (fuel - 1) as nat)
                } else if op == OpCode::JLT && base == RegisterCode::PC {
                    run(code, if read_reg(target, s) < 0 { next + off } else { next }, s, (fuel - 1) as nat)
                } else if op == OpCode::JEQ && base == RegisterCode::PC {
                    run(code, if read_reg(target, s) == 0 { next + off } else { next }, s, (fuel - 1) as nat)
                } else {
                    run(code, next, s, (fuel - 1) as nat)
                }
            },
        }
    }
}

/// With the left operand in AC1 and the right one in AC, the code of `<` leaves 1 in AC when
/// the left is less, and 0 otherwise; the code of `=` leaves 1 when they are equal, and 0
/// otherwise. Either way the value is 0 or 1, on both paths of its jump.
pub proof fn lemma_relation_gives_bit(left: int, right: int)
    ensures
        run(relation_code(OpCode::JLT), 0, Accumulators { ac: right, ac1: left }, 5).ac == if left < right { 1int } else { 0 },
        run(relation_code(OpCode::JEQ), 0, Accumulators { ac: right, ac1: left }, 5).ac == if left == right { 1int } else { 0 },
{
    reveal_with_fuel(run, 6);
}

} // verus!
