//! The code generator: walks a syntax tree and emits instruction lines.
use vstd::prelude::*;
use crate::ast::{AssignStatement, Expression, IfStatement, InfixExpression, Node, Program, ReadStatement, RepeatStatement, Statement, WriteStatement};
use crate::code::{Instruction, OpCode, RegisterCode, line_text, listing, render_line};
use crate::environment::{RegisterGroup, SymbolTable, declare, offset_of, MAX_SYMBOLS};
use crate::text::push_char;
use crate::token::TokenType;

verus! {

/// Why a tree could not be compiled.
#[derive(Debug, Clone, Copy, PartialEq, Eq, Structural)]
pub enum CompileError {
    /// A variable is read before any statement has given it a value.
    UndeclaredVariable,
    /// An infix expression whose operator the machine code does not cover.
    UnsupportedOperator(TokenType),
    /// More variables than offsets.
    TooManyVariables,
    /// Expressions nested deeper than the scratch offsets reach.
    ScratchExhausted,
}

/// What compiling a statement yields: its code and the symbol table after it.
pub type StatementCode = Result<(Seq<Instruction>, Seq<Seq<char>>), CompileError>;

pub open spec fn mem(op: OpCode, target: RegisterCode, offset: int, base: RegisterCode) -> Instruction {
    Instruction::Memory { op, target, offset: offset as i128, base }
}

pub open spec fn reg(op: OpCode, target: RegisterCode, first: RegisterCode, second: RegisterCode) -> Instruction {
    Instruction::Register { op, target, first, second }
}

/// Turns the difference in the accumulator into 0 or 1: jump two ahead on `jump`'s relation,
/// else load 0 and skip the load of 1.
pub open spec fn relation_code(jump: OpCode) -> Seq<Instruction> {
    seq![
        reg(OpCode::SUB, RegisterCode::AC, RegisterCode::AC1, RegisterCode::AC),
        mem(jump, RegisterCode::AC, 2, RegisterCode::PC),
        mem(OpCode::LDC, RegisterCode::AC, 0, RegisterCode::AC),
        mem(OpCode::LDA, RegisterCode::PC, 1, RegisterCode::PC),
        mem(OpCode::LDC, RegisterCode::AC, 1, RegisterCode::AC),
    ]
}

/// The code that combines the left operand (in AC1) and the right one (in AC) into AC.
pub open spec fn operator_code(t: TokenType) -> Result<Seq<Instruction>, CompileError> {
    match t {
        TokenType::Add => Ok(seq![reg(OpCode::ADD, RegisterCode::AC, RegisterCode::AC1, RegisterCode::AC)]),
        TokenType::Minus => Ok(seq![reg(OpCode::SUB, RegisterCode::AC, RegisterCode::AC1, RegisterCode::AC)]),
        TokenType::Mul => Ok(seq![reg(OpCode::MUL, RegisterCode::AC, RegisterCode::AC1, RegisterCode::AC)]),
        TokenType::Divide => Ok(seq![reg(OpCode::DIV, RegisterCode::AC, RegisterCode::AC1, RegisterCode::AC)]),
        TokenType::LessThan => Ok(relation_code(OpCode::JLT)),
        TokenType::Equal => Ok(relation_code(OpCode::JEQ)),
        _ => Err(CompileError::UnsupportedOperator(t)),
    }
}

/// The code of an expression, which leaves its value in AC; `tmp` is the scratch offset under
/// MP where the next left operand is kept.
pub open spec fn expr_code(e: Expression, names: Seq<Seq<char>>, tmp: int) -> Result<Seq<Instruction>, CompileError>
    decreases e,
{
    match e {
        Expression::Identifier(id) => {
            let k = offset_of(names, id.value@);
            if k < 0 {
                Err(CompileError::UndeclaredVariable)
            } else {
                Ok(seq![mem(OpCode::LD, RegisterCode::AC, k, RegisterCode::GP)])
            }
        },
        Expression::Number(n) => Ok(seq![mem(OpCode::LDC, RegisterCode::AC, n.value as int, RegisterCode::AC)]),
        Expression::Infix(x) => match expr_code(*x.left, names, tmp) {
            Err(err) => Err(err),
            Ok(l) => if tmp <= i32::MIN {
                Err(CompileError::ScratchExhausted)
            } else {
                match expr_code(*x.right, names, tmp - 1) {
                    Err(err) => Err(err),
                    Ok(r) => match operator_code(x.op.token_type) {
                        Err(err) => Err(err),
                        Ok(t) => Ok(l + seq![mem(OpCode::ST, RegisterCode::AC, tmp, RegisterCode::MP)] + r
                            + seq![mem(OpCode::LD, RegisterCode::AC1, tmp, RegisterCode::MP)] + t),
                    },
                }
            },
        },
    }
}

/// The store of AC into the variable `name`, which gets an offset if it has none.
pub open spec fn store_code(names: Seq<Seq<char>>, name: Seq<char>) -> StatementCode {
    if !names.contains(name) && names.len() >= MAX_SYMBOLS {
        Err(CompileError::TooManyVariables)
    } else {
        let after = declare(names, name);
        Ok((seq![mem(OpCode::ST, RegisterCode::AC, offset_of(after, name), RegisterCode::GP)], after))
    }
}

/// `c` put in front of the code of a successful result.
pub open spec fn prefixed(c: Seq<Instruction>, r: StatementCode) -> StatementCode {
    match r {
        Ok((rest, names)) => Ok((c + rest, names)),
        Err(err) => Err(err),
    }
}

/// The code of a statement and the symbol table after it.
pub open spec fn stmt_code(s: Statement, names: Seq<Seq<char>>, tmp: int) -> StatementCode
    decreases s,
{
    match s {
        Statement::Read(rd) => prefixed(
            seq![reg(OpCode::IN, RegisterCode::AC, RegisterCode::AC, RegisterCode::AC)],
            store_code(names, rd.name.value@),
        ),
        Statement::Write(w) => match expr_code(Expression::Identifier(w.name), names, tmp) {
            Err(err) => Err(err),
            Ok(c) => Ok((c + seq![reg(OpCode::OUT, RegisterCode::AC, RegisterCode::AC, RegisterCode::AC)], names)),
        },
        Statement::Assign(a) => match expr_code(a.value, names, tmp) {
            Err(err) => Err(err),
            Ok(c) => prefixed(c, store_code(names, a.name.value@)),
        },
        Statement::If(i) => match expr_code(i.cond, names, tmp) {
            Err(err) => Err(err),
            Ok(c) => match stmts_code(i.consequence.statements@, names, tmp) {
                Err(err) => Err(err),
                Ok((b, after)) => Ok((
                    c + seq![mem(OpCode::JEQ, RegisterCode::AC, (b.len() + 1) as int, RegisterCode::PC)] + b
                        + seq![mem(OpCode::LDA, RegisterCode::PC, 0, RegisterCode::PC)],
                    after,
                )),
            },
        },
        Statement::Repeat(rp) => match stmts_code(rp.consequence.statements@, names, tmp) {
            Err(err) => Err(err),
            Ok((b, after)) => match expr_code(rp.cond, after, tmp) {
                Err(err) => Err(err),
                Ok(c) => Ok((
                    b + c + seq![mem(OpCode::JEQ, RegisterCode::AC, -(b.len() + c.len() + 1), RegisterCode::PC)],
                    after,
                )),
            },
        },
        Statement::Block(b) => stmts_code(b.statements@, names, tmp),
    }
}

/// The code of statements in order, each compiled with the table that the ones before left.
pub open spec fn stmts_code(ss: Seq<Statement>, names: Seq<Seq<char>>, tmp: int) -> StatementCode
    decreases ss,
{
    if ss.len() == 0 {
        Ok((Seq::empty(), names))
    } else {
        match stmt_code(ss[0], names, tmp) {
            Err(err) => Err(err),
            Ok((c, after)) => prefixed(c, stmts_code(ss.drop_first(), after, tmp)),
        }
    }
}

/// The code of any node.
pub open spec fn node_code(n: Node, names: Seq<Seq<char>>, tmp: int) -> StatementCode {
    match n {
        Node::Program(p) => stmts_code(p.statements@, names, tmp),
        Node::Statement(s) => stmt_code(s, names, tmp),
        Node::Expression(e) => match expr_code(e, names, tmp) {
            Err(err) => Err(err),
            Ok(c) => Ok((c, names)),
        },
    }
}

/// Placing `a` then `b` from `base` on gives the lines of `a`, then those of `b` after them.
pub proof fn lemma_listing_concat(a: Seq<Instruction>, b: Seq<Instruction>, base: nat)
    ensures
        listing(a + b, base) == listing(a, base) + listing(b, base + a.len()),
{
    assert(listing(a + b, base) =~= listing(a, base) + listing(b, base + a.len()));
}

/// The text of a listing: each line followed by a newline.
pub open spec fn joined(lines: Seq<Seq<char>>) -> Seq<char>
    decreases lines.len(),
{
    if lines.len() == 0 {
        Seq::empty()
    } else {
        joined(lines.drop_last()) + lines.last().push('\n')
    }
}

/// The state of one compilation: the instruction lines, the emission cursor, the symbol table
/// and the scratch offset.
pub struct Compiler {
    pub intermedia: Vec<String>,
    pub registers: RegisterGroup,
    pub symbol_table: SymbolTable,
    pub tmp_offset: i32,
    pub emit_loc: usize,
}

/// How compiling moved the state from `before` to `after`, where `res` is what compiling the
/// node yields: on success its code follows the old lines, placed at the old end, the table
/// is the one it leaves and the scratch offset is back; on failure the same error is returned.
/// Either way the cursor stands at the end.
pub open spec fn emitted(before: Compiler, after: Compiler, r: Result<(), CompileError>, res: StatementCode) -> bool {
    &&& after.wf()
    &&& match res {
        Ok((c, names)) => {
            &&& r is Ok
            &&& after.lines() == before.lines() + listing(c, before.intermedia@.len())
            &&& after.symbol_table@ == names
            &&& after.tmp_offset == before.tmp_offset
        },
        Err(err) => r == Err::<(), CompileError>(err),
    }
}

impl Compiler {
    /// The text of the lines emitted so far.
    pub open spec fn lines(&self) -> Seq<Seq<char>> {
        self.intermedia@.map_values(|s: String| s@)
    }

    /// Between emissions the cursor stands at the end of the lines.
    pub open spec fn wf(&self) -> bool {
        &&& self.emit_loc == self.intermedia@.len()
        &&& self.symbol_table.wf()
    }

    pub fn new() -> (r: Compiler)
        ensures
            r.wf(),
            r.lines() == Seq::<Seq<char>>::empty(),
            r.symbol_table@ == Seq::<Seq<char>>::empty(),
            r.tmp_offset == 0,
    {
        let r = Compiler {
            intermedia: Vec::new(),
            registers: RegisterGroup::new(),
            symbol_table: SymbolTable::new(),
            tmp_offset: 0,
            emit_loc: 0,
        };
        assert(r.lines() =~= Seq::<Seq<char>>::empty());
        r
    }

    /// Compiles a node: appends its code to the lines and records the variables it gives a
    /// value. On success the scratch offset is as before.
    pub fn compile(&mut self, node: &Node) -> (r: Result<(), CompileError>)
        requires
            old(self).wf(),
        ensures
            final(self).wf(),
            match node_code(*node, old(self).symbol_table@, old(self).tmp_offset as int) {
                Ok((c, names)) => {
                    &&& r is Ok
                    &&& final(self).lines() == old(self).lines() + listing(c, old(self).intermedia@.len())
                    &&& final(self).symbol_table@ == names
                    &&& final(self).tmp_offset == old(self).tmp_offset
                },
                Err(err) => r == Err::<(), CompileError>(err),
            },
    {
        match node {
            Node::Program(p) => self.compile_statements(&p.statements),
            Node::Statement(s) => self.compile_statement(s),
            Node::Expression(e) => self.compile_expression(e),
        }
    }

    /// The lines as one text, each followed by a newline.
    pub fn to_intermedia_code(&self) -> (r: String)
        ensures
            r@ == joined(self.lines()),
    {
        let mut output = String::new();
        let mut i: usize = 0;
        while i < self.intermedia.len()
            invariant
                i <= self.intermedia@.len(),
                output@ == joined(self.lines().subrange(0, i as int)),
            decreases self.intermedia@.len() - i,
        {
            output.append(self.intermedia[i].as_str());
            push_char(&mut output, '\n');
            proof {
                let s = self.lines().subrange(0, i + 1);
                assert(s.drop_last() =~= self.lines().subrange(0, i as int));
            }
            i = i + 1;
        }
        assert(self.lines().subrange(0, i as int) =~= self.lines());
        output
    }

    fn compile_statements(&mut self, ss: &Vec<Statement>) -> (r: Result<(), CompileError>)
        requires
            old(self).wf(),
        ensures
            final(self).wf(),
            match stmts_code(ss@, old(self).symbol_table@, old(self).tmp_offset as int) {
                Ok((c, names)) => {
                    &&& r is Ok
                    &&& final(self).lines() == old(self).lines() + listing(c, old(self).intermedia@.len())
                    &&& final(self).symbol_table@ == names
                    &&& final(self).tmp_offset == old(self).tmp_offset
                },
                Err(err) => r == Err::<(), CompileError>(err),
            },
        decreases ss@,
    {
        let ghost names0 = self.symbol_table@;
        let ghost tmp = self.tmp_offset as int;
        let ghost base = self.intermedia@.len();
        let ghost lines0 = self.lines();
        let ghost mut code: Seq<Instruction> = Seq::empty();
        let mut i: usize = 0;
        proof {
            assert(ss@.subrange(0, ss@.len() as int) =~= ss@);
            assert(listing(code, base) =~= Seq::<Seq<char>>::empty());
            assert(lines0 + listing(code, base) =~= lines0);
        }
        while i < ss.len()
            invariant
                self.wf(),
                i <= ss@.len(),
                self.tmp_offset == tmp,
                self.lines() == lines0 + listing(code, base),
                self.intermedia@.len() == base + code.len(),
                names0 == old(self).symbol_table@,
                tmp == old(self).tmp_offset as int,
                base == old(self).intermedia@.len(),
                lines0 == old(self).lines(),
                stmts_code(ss@, names0, tmp) == prefixed(code, stmts_code(ss@.subrange(i as int, ss@.len() as int), self.symbol_table@, tmp)),
            decreases ss@.len() - i,
        {
            let ghost before = self.symbol_table@;
            let ghost rest = ss@.subrange(i as int, ss@.len() as int);
            let ghost whole = stmts_code(ss@, names0, tmp);
            proof {
                assert(whole == prefixed(code, stmts_code(rest, before, tmp)));
                assert(rest[0] == ss@[i as int]);
                assert(rest.drop_first() =~= ss@.subrange(i + 1, ss@.len() as int));
            }
            match self.compile_statement(&ss[i]) {
                Err(err) => {
                    assert(stmts_code(rest, before, tmp) == Err::<(Seq<Instruction>, Seq<Seq<char>>), CompileError>(err));
                    assert(whole == Err::<(Seq<Instruction>, Seq<Seq<char>>), CompileError>(err));
                    return Err(err);
                },
                Ok(_) => {},
            }
            proof {
                let c = stmt_code(ss@[i as int], before, tmp)->Ok_0.0;
                lemma_listing_concat(code, c, base);
                assert(self.lines() == lines0 + listing(code + c, base));
                assert(code + (c + stmts_code(ss@.subrange(i + 1, ss@.len() as int), self.symbol_table@, tmp)->Ok_0.0)
                    == code + c + stmts_code(ss@.subrange(i + 1, ss@.len() as int), self.symbol_table@, tmp)->Ok_0.0);
                code = code + c;
            }
            i = i + 1;
        }
        proof {
            assert(ss@.subrange(i as int, ss@.len() as int) =~= Seq::<Statement>::empty());
            assert(code + Seq::<Instruction>::empty() =~= code);
        }
        Ok(())
    }

    fn compile_statement(&mut self, s: &Statement) -> (r: Result<(), CompileError>)
        requires
            old(self).wf(),
        ensures
            emitted(*old(self), *final(self), r, stmt_code(*s, old(self).symbol_table@, old(self).tmp_offset as int)),
        decreases s,
    {
        match s {
            Statement::Read(rd) => self.compile_read(rd),
            Statement::Write(w) => self.compile_write(w),
            Statement::Assign(a) => self.compile_assign(a),
            Statement::If(i) => self.compile_if(i),
            Statement::Repeat(rp) => self.compile_repeat(rp),
            Statement::Block(b) => self.compile_statements(&b.statements),
        }
    }

    fn compile_read(&mut self, rd: &ReadStatement) -> (r: Result<(), CompileError>)
        requires
            old(self).wf(),
        ensures
            emitted(*old(self), *final(self), r, stmt_code(Statement::Read(*rd), old(self).symbol_table@, old(self).tmp_offset as int)),
    {
        let ghost names0 = self.symbol_table@;
        let ghost base = self.intermedia@.len();
        let ghost lines0 = self.lines();
        self.emit_r0(OpCode::IN, RegisterCode::AC, RegisterCode::AC, RegisterCode::AC);
        let ghost lines1 = self.lines();
        match self.store(rd.name.value.as_str()) {
            Err(err) => return Err(err),
            Ok(_) => {},
        }
        proof {
            let c1 = seq![reg(OpCode::IN, RegisterCode::AC, RegisterCode::AC, RegisterCode::AC)];
            let c2 = store_code(names0, rd.name.value@)->Ok_0.0;
            assert(listing(c1, base) =~= seq![line_text(base, c1[0])]);
            assert(lines1 =~= lines0 + listing(c1, base));
            lemma_listing_concat(c1, c2, base);
            assert(self.lines() =~= lines0 + listing(c1 + c2, base));
        }
        Ok(())
    }

    fn compile_write(&mut self, w: &WriteStatement) -> (r: Result<(), CompileError>)
        requires
            old(self).wf(),
        ensures
            emitted(*old(self), *final(self), r, stmt_code(Statement::Write(*w), old(self).symbol_table@, old(self).tmp_offset as int)),
    {
        let ghost names0 = self.symbol_table@;
        let ghost tmp = self.tmp_offset as int;
        let ghost base = self.intermedia@.len();
        let ghost lines0 = self.lines();
        match self.load_variable(w.name.value.as_str()) {
            Err(err) => return Err(err),
            Ok(_) => {},
        }
        let ghost lines1 = self.lines();
        self.emit_r0(OpCode::OUT, RegisterCode::AC, RegisterCode::AC, RegisterCode::AC);
        proof {
            let c1 = expr_code(Expression::Identifier(w.name), names0, tmp)->Ok_0;
            let c2 = seq![reg(OpCode::OUT, RegisterCode::AC, RegisterCode::AC, RegisterCode::AC)];
            assert(listing(c1, base) =~= seq![line_text(base, c1[0])]);
            assert(listing(c2, base + c1.len()) =~= seq![line_text(base + c1.len(), c2[0])]);
            assert(lines1 =~= lines0 + listing(c1, base));
            lemma_listing_concat(c1, c2, base);
            assert(self.lines() =~= lines0 + listing(c1 + c2, base));
        }
        Ok(())
    }

    fn compile_assign(&mut self, a: &AssignStatement) -> (r: Result<(), CompileError>)
        requires
            old(self).wf(),
        ensures
            emitted(*old(self), *final(self), r, stmt_code(Statement::Assign(*a), old(self).symbol_table@, old(self).tmp_offset as int)),
        decreases a,
    {
        let ghost names0 = self.symbol_table@;
        let ghost tmp = self.tmp_offset as int;
        let ghost base = self.intermedia@.len();
        let ghost lines0 = self.lines();
        match self.compile_expression(&a.value) {
            Err(err) => return Err(err),
            Ok(_) => {},
        }
        match self.store(a.name.value.as_str()) {
            Err(err) => return Err(err),
            Ok(_) => {},
        }
        proof {
            let c1 = expr_code(a.value, names0, tmp)->Ok_0;
            let c2 = store_code(names0, a.name.value@)->Ok_0.0;
            lemma_listing_concat(c1, c2, base);
            assert(self.lines() =~= lines0 + listing(c1 + c2, base));
        }
        Ok(())
    }

    /// Compiles the condition, reserves a slot for the jump past the block, compiles the
    /// block, reserves a second slot, then fills both slots with the cursor rewound to them.
    fn compile_if(&mut self, i: &IfStatement) -> (r: Result<(), CompileError>)
        requires
            old(self).wf(),
        ensures
            emitted(*old(self), *final(self), r, stmt_code(Statement::If(*i), old(self).symbol_table@, old(self).tmp_offset as int)),
        decreases i,
    {
        let ghost names0 = self.symbol_table@;
        let ghost tmp = self.tmp_offset as int;
        let ghost base = self.intermedia@.len();
        let ghost lines0 = self.lines();
        match self.compile_expression(&i.cond) {
            Err(err) => return Err(err),
            Ok(_) => {},
        }
        let after_cond = self.emit_skip(1);
        match self.compile_statements(&i.consequence.statements) {
            Err(err) => return Err(err),
            Ok(_) => {},
        }
        let after_seq = self.emit_skip(1);
        let current_loc = self.emit_skip(0);
        self.emit_backup(after_cond);
        self.emit_rm_abs(OpCode::JEQ, RegisterCode::AC, current_loc);
        self.emit_restore();
        let current_loc = self.emit_skip(0);
        self.emit_backup(after_seq);
        self.emit_rm_abs(OpCode::LDA, RegisterCode::PC, current_loc);
        self.emit_restore();
        proof {
            let c = expr_code(i.cond, names0, tmp)->Ok_0;
            let b = stmts_code(i.consequence.statements@, names0, tmp)->Ok_0.0;
            let j = mem(OpCode::JEQ, RegisterCode::AC, (b.len() + 1) as int, RegisterCode::PC);
            let l = mem(OpCode::LDA, RegisterCode::PC, 0, RegisterCode::PC);
            let whole = c + seq![j] + b + seq![l];
            assert(self.lines() =~= lines0 + listing(whole, base));
        }
        Ok(())
    }

    /// Compiles the body, then the condition, then a jump back to the body's start taken
    /// while the condition is false.
    fn compile_repeat(&mut self, rp: &RepeatStatement) -> (r: Result<(), CompileError>)
        requires
            old(self).wf(),
        ensures
            emitted(*old(self), *final(self), r, stmt_code(Statement::Repeat(*rp), old(self).symbol_table@, old(self).tmp_offset as int)),
        decreases rp,
    {
        let ghost names0 = self.symbol_table@;
        let ghost tmp = self.tmp_offset as int;
        let ghost base = self.intermedia@.len();
        let ghost lines0 = self.lines();
        let start = self.emit_skip(0);
        match self.compile_statements(&rp.consequence.statements) {
            Err(err) => return Err(err),
            Ok(_) => {},
        }
        let ghost names1 = self.symbol_table@;
        match self.compile_expression(&rp.cond) {
            Err(err) => return Err(err),
            Ok(_) => {},
        }
        self.emit_rm_abs(OpCode::JEQ, RegisterCode::AC, start);
        proof {
            let b = stmts_code(rp.consequence.statements@, names0, tmp)->Ok_0.0;
            let c = expr_code(rp.cond, names1, tmp)->Ok_0;
            let j = mem(OpCode::JEQ, RegisterCode::AC, -(b.len() + c.len() + 1), RegisterCode::PC);
            let whole = b + c + seq![j];
            assert(self.lines() =~= lines0 + listing(whole, base));
        }
        Ok(())
    }

    /// Loads the variable `name` into AC.
    fn load_variable(&mut self, name: &str) -> (r: Result<(), CompileError>)
        requires
            old(self).wf(),
        ensures
            final(self).wf(),
            final(self).symbol_table@ == old(self).symbol_table@,
            final(self).tmp_offset == old(self).tmp_offset,
            offset_of(old(self).symbol_table@, name@) < 0 ==> r == Err::<(), CompileError>(CompileError::UndeclaredVariable),
            offset_of(old(self).symbol_table@, name@) >= 0 ==> r is Ok && final(self).lines() == old(self).lines().push(
                line_text(old(self).intermedia@.len() as nat,
                    mem(OpCode::LD, RegisterCode::AC, offset_of(old(self).symbol_table@, name@), RegisterCode::GP))),
    {
        let loc = self.symbol_table.look_up(name);
        if loc < 0 {
            return Err(CompileError::UndeclaredVariable);
        }
        self.emit_rm(OpCode::LD, RegisterCode::AC, loc as i128, RegisterCode::GP);
        Ok(())
    }

    /// Stores AC into the variable `name`, giving it an offset if it has none.
    fn store(&mut self, name: &str) -> (r: Result<(), CompileError>)
        requires
            old(self).wf(),
        ensures
            final(self).wf(),
            final(self).tmp_offset == old(self).tmp_offset,
            match store_code(old(self).symbol_table@, name@) {
                Ok((c, names)) => {
                    &&& r is Ok
                    &&& final(self).lines() == old(self).lines() + listing(c, old(self).intermedia@.len())
                    &&& final(self).symbol_table@ == names
                },
                Err(err) => r == Err::<(), CompileError>(err),
            },
    {
        let mut loc = self.symbol_table.look_up(name);
        if loc < 0 {
            if self.symbol_table.len() >= MAX_SYMBOLS {
                return Err(CompileError::TooManyVariables);
            }
            loc = self.symbol_table.insert(name);
        }
        proof {
            let after = declare(old(self).symbol_table@, name@);
            assert(after.contains(name@)) by {
                if !old(self).symbol_table@.contains(name@) {
                    assert(after[after.len() - 1] == name@);
                }
            }
            after.index_of_first_ensures(name@);
            if !old(self).symbol_table@.contains(name@) {
                assert(after[old(self).symbol_table@.len() as int] == name@);
                assert(after.index_of(name@) == old(self).symbol_table@.len());
            }
        }
        self.emit_rm(OpCode::ST, RegisterCode::AC, loc as i128, RegisterCode::GP);
        proof {
            let c = store_code(old(self).symbol_table@, name@)->Ok_0.0;
            assert(listing(c, old(self).intermedia@.len()) =~= seq![line_text(old(self).intermedia@.len() as nat, c[0])]);
        }
        Ok(())
    }

    fn compile_expression(&mut self, e: &Expression) -> (r: Result<(), CompileError>)
        requires
            old(self).wf(),
        ensures
            final(self).wf(),
            final(self).symbol_table@ == old(self).symbol_table@,
            match expr_code(*e, old(self).symbol_table@, old(self).tmp_offset as int) {
                Ok(c) => {
                    &&& r is Ok
                    &&& final(self).lines() == old(self).lines() + listing(c, old(self).intermedia@.len())
                    &&& final(self).tmp_offset == old(self).tmp_offset
                },
                Err(err) => r == Err::<(), CompileError>(err),
            },
        decreases e,
    {
        let ghost names0 = self.symbol_table@;
        let ghost tmp = self.tmp_offset as int;
        let ghost base = self.intermedia@.len();
        match e {
            Expression::Identifier(id) => {
                let r = self.load_variable(id.value.as_str());
                proof {
                    if r is Ok {
                        let c = expr_code(*e, names0, tmp)->Ok_0;
                        assert(listing(c, base) =~= seq![line_text(base, c[0])]);
                    }
                }
                r
            },
            Expression::Number(n) => {
                self.emit_rm(OpCode::LDC, RegisterCode::AC, n.value as i128, RegisterCode::AC);
                proof {
                    let c = expr_code(*e, names0, tmp)->Ok_0;
                    assert(listing(c, base) =~= seq![line_text(base, c[0])]);
                }
                Ok(())
            },
            Expression::Infix(x) => self.compile_infix(x),
        }
    }

    /// Compiles the left operand and keeps it in the scratch cell at the current offset, compiles
    /// the right one with the next cell reserved, reloads the left one into AC1 and combines.
    fn compile_infix(&mut self, x: &InfixExpression) -> (r: Result<(), CompileError>)
        requires
            old(self).wf(),
        ensures
            final(self).wf(),
            final(self).symbol_table@ == old(self).symbol_table@,
            match expr_code(Expression::Infix(*x), old(self).symbol_table@, old(self).tmp_offset as int) {
                Ok(c) => {
                    &&& r is Ok
                    &&& final(self).lines() == old(self).lines() + listing(c, old(self).intermedia@.len())
                    &&& final(self).tmp_offset == old(self).tmp_offset
                },
                Err(err) => r == Err::<(), CompileError>(err),
            },
        decreases x,
    {
        let ghost names0 = self.symbol_table@;
        let ghost tmp = self.tmp_offset as int;
        let ghost base = self.intermedia@.len();
        let ghost lines0 = self.lines();
        match self.compile_expression(&x.left) {
            Err(err) => return Err(err),
            Ok(_) => {},
        }
        let ghost l = expr_code(*x.left, names0, tmp)->Ok_0;
        self.emit_rm(OpCode::ST, RegisterCode::AC, self.tmp_offset as i128, RegisterCode::MP);
        if self.tmp_offset == i32::MIN {
            return Err(CompileError::ScratchExhausted);
        }
        self.tmp_offset = self.tmp_offset - 1;
        match self.compile_expression(&x.right) {
            Err(err) => return Err(err),
            Ok(_) => {},
        }
        let ghost rc = expr_code(*x.right, names0, tmp - 1)->Ok_0;
        self.tmp_offset = self.tmp_offset + 1;
        self.emit_rm(OpCode::LD, RegisterCode::AC1, self.tmp_offset as i128, RegisterCode::MP);
        let ghost lines3 = self.lines();
        let ghost mid = self.intermedia@.len();
        match x.op.token_type {
            TokenType::Add => self.emit_r0(OpCode::ADD, RegisterCode::AC, RegisterCode::AC1, RegisterCode::AC),
            TokenType::Minus => self.emit_r0(OpCode::SUB, RegisterCode::AC, RegisterCode::AC1, RegisterCode::AC),
            TokenType::Mul => self.emit_r0(OpCode::MUL, RegisterCode::AC, RegisterCode::AC1, RegisterCode::AC),
            TokenType::Divide => self.emit_r0(OpCode::DIV, RegisterCode::AC, RegisterCode::AC1, RegisterCode::AC),
            TokenType::LessThan => self.emit_relation(OpCode::JLT),
            TokenType::Equal => self.emit_relation(OpCode::JEQ),
            _ => return Err(CompileError::UnsupportedOperator(x.op.token_type)),
        }
        proof {
            let t = operator_code(x.op.token_type)->Ok_0;
            let whole = l + seq![mem(OpCode::ST, RegisterCode::AC, tmp, RegisterCode::MP)] + rc
                + seq![mem(OpCode::LD, RegisterCode::AC1, tmp, RegisterCode::MP)] + t;
            assert(lines3 =~= lines0 + listing(whole.subrange(0, whole.len() - t.len()), base));
            assert(self.lines() =~= lines3 + listing(t, mid));
            assert(whole =~= whole.subrange(0, whole.len() - t.len()) + t);
            lemma_listing_concat(whole.subrange(0, whole.len() - t.len()), t, base);
        }
        Ok(())
    }

    /// Emits the code that turns the difference in AC into 0 or 1 by the relation of `jump`.
    fn emit_relation(&mut self, jump: OpCode)
        requires
            old(self).wf(),
        ensures
            final(self).wf(),
            final(self).symbol_table@ == old(self).symbol_table@,
            final(self).tmp_offset == old(self).tmp_offset,
            final(self).lines() == old(self).lines() + listing(relation_code(jump), old(self).intermedia@.len()),
    {
        self.emit_r0(OpCode::SUB, RegisterCode::AC, RegisterCode::AC1, RegisterCode::AC);
        self.emit_rm(jump, RegisterCode::AC, 2, RegisterCode::PC);
        self.emit_rm(OpCode::LDC, RegisterCode::AC, 0, RegisterCode::AC);
        self.emit_rm(OpCode::LDA, RegisterCode::PC, 1, RegisterCode::PC);
        self.emit_rm(OpCode::LDC, RegisterCode::AC, 1, RegisterCode::AC);
        assert(self.lines() =~= old(self).lines() + listing(relation_code(jump), old(self).intermedia@.len()));
    }

    /// Writes a line at the cursor, over a reserved slot or at the end, and moves the cursor on.
    fn emit_code(&mut self, code: String)
        requires
            old(self).emit_loc <= old(self).intermedia@.len(),
        ensures
            final(self).emit_loc == old(self).emit_loc + 1,
            old(self).emit_loc == old(self).intermedia@.len() ==> final(self).intermedia@ == old(self).intermedia@.push(code),
            old(self).emit_loc < old(self).intermedia@.len() ==> final(self).intermedia@ == old(self).intermedia@.update(
                old(self).emit_loc as int, code),
            final(self).symbol_table == old(self).symbol_table,
            final(self).tmp_offset == old(self).tmp_offset,
    {
        if self.emit_loc == self.intermedia.len() {
            self.intermedia.push(code);
            self.emit_loc = self.intermedia.len();
        } else {
            self.intermedia.set(self.emit_loc, code);
            self.emit_loc = self.emit_loc + 1;
        }
    }

    /// Emits an instruction at the cursor.
    fn emit(&mut self, ins: Instruction)
        requires
            old(self).emit_loc <= old(self).intermedia@.len(),
        ensures
            final(self).emit_loc == old(self).emit_loc + 1,
            old(self).emit_loc == old(self).intermedia@.len() ==> final(self).lines() == old(self).lines().push(
                line_text(old(self).emit_loc as nat, ins)),
            old(self).emit_loc < old(self).intermedia@.len() ==> final(self).lines() == old(self).lines().update(
                old(self).emit_loc as int, line_text(old(self).emit_loc as nat, ins)),
            final(self).intermedia@.len() == old(self).intermedia@.len() + (if old(self).emit_loc == old(self).intermedia@.len() { 1int } else { 0 }),
            final(self).symbol_table == old(self).symbol_table,
            final(self).tmp_offset == old(self).tmp_offset,
    {
        let line = render_line(self.emit_loc, &ins);
        self.emit_code(line);
        assert(self.lines() =~= if old(self).emit_loc == old(self).intermedia@.len() {
            old(self).lines().push(line_text(old(self).emit_loc as nat, ins))
        } else {
            old(self).lines().update(old(self).emit_loc as int, line_text(old(self).emit_loc as nat, ins))
        });
    }

    /// Emits a register-memory instruction at the end.
    fn emit_rm(&mut self, op: OpCode, target: RegisterCode, offset: i128, base: RegisterCode)
        requires
            old(self).wf(),
        ensures
            final(self).wf(),
            final(self).lines() == old(self).lines().push(
                line_text(old(self).intermedia@.len() as nat, mem(op, target, offset as int, base))),
            final(self).symbol_table == old(self).symbol_table,
            final(self).tmp_offset == old(self).tmp_offset,
    {
        self.emit(Instruction::Memory { op, target, offset, base });
    }

    /// Emits a register-register instruction at the end.
    fn emit_r0(&mut self, op: OpCode, target: RegisterCode, first: RegisterCode, second: RegisterCode)
        requires
            old(self).wf(),
        ensures
            final(self).wf(),
            final(self).lines() == old(self).lines().push(
                line_text(old(self).intermedia@.len() as nat, reg(op, target, first, second))),
            final(self).symbol_table == old(self).symbol_table,
            final(self).tmp_offset == old(self).tmp_offset,
    {
        self.emit(Instruction::Register { op, target, first, second });
    }

    /// Reserves `skip` empty lines at the end and returns the address of the first.
    fn emit_skip(&mut self, skip: usize) -> (r: usize)
        requires
            old(self).wf(),
        ensures
            final(self).wf(),
            r == old(self).intermedia@.len(),
            final(self).lines() == old(self).lines() + Seq::new(skip as nat, |i: int| Seq::<char>::empty()),
            final(self).symbol_table == old(self).symbol_table,
            final(self).tmp_offset == old(self).tmp_offset,
    {
        let loc = self.intermedia.len();
        let mut k: usize = 0;
        while k < skip
            invariant
                k <= skip,
                self.intermedia@.len() == loc + k,
                self.symbol_table == old(self).symbol_table,
                self.tmp_offset == old(self).tmp_offset,
                self.emit_loc == old(self).emit_loc,
                self.lines() == old(self).lines() + Seq::new(k as nat, |i: int| Seq::<char>::empty()),
            decreases skip - k,
        {
            let ghost prev = self.intermedia@;
            let ghost prev_lines = self.lines();
            let blank = String::new();
            self.intermedia.push(blank);
            assert(self.intermedia@ == prev.push(blank));
            assert(self.lines() =~= prev_lines.push(Seq::<char>::empty()));
            assert(self.lines() =~= old(self).lines() + Seq::new((k + 1) as nat, |i: int| Seq::<char>::empty()));
            k = k + 1;
        }
        self.emit_loc = self.intermedia.len();
        loc
    }

    /// Moves the cursor back to a reserved slot.
    fn emit_backup(&mut self, loc: usize)
        requires
            loc <= old(self).intermedia@.len(),
        ensures
            final(self).emit_loc == loc,
            final(self).intermedia == old(self).intermedia,
            final(self).symbol_table == old(self).symbol_table,
            final(self).tmp_offset == old(self).tmp_offset,
    {
        self.emit_loc = loc;
    }

    /// Puts the cursor back at the end.
    fn emit_restore(&mut self)
        ensures
            final(self).emit_loc == final(self).intermedia@.len(),
            final(self).intermedia == old(self).intermedia,
            final(self).symbol_table == old(self).symbol_table,
            final(self).tmp_offset == old(self).tmp_offset,
    {
        self.emit_loc = self.intermedia.len();
    }

    /// Emits at the cursor a jump relative to the program counter that lands on `absolute`.
    fn emit_rm_abs(&mut self, op: OpCode, target: RegisterCode, absolute: usize)
        requires
            old(self).emit_loc <= old(self).intermedia@.len(),
        ensures
            final(self).emit_loc == old(self).emit_loc + 1,
            old(self).emit_loc == old(self).intermedia@.len() ==> final(self).lines() == old(self).lines().push(
                line_text(old(self).emit_loc as nat,
                    mem(op, target, absolute - (old(self).emit_loc + 1), RegisterCode::PC))),
            old(self).emit_loc < old(self).intermedia@.len() ==> final(self).lines() == old(self).lines().update(
                old(self).emit_loc as int, line_text(old(self).emit_loc as nat,
                    mem(op, target, absolute - (old(self).emit_loc + 1), RegisterCode::PC))),
            final(self).intermedia@.len() == old(self).intermedia@.len() + (if old(self).emit_loc == old(self).intermedia@.len() { 1int } else { 0 }),
            final(self).symbol_table == old(self).symbol_table,
            final(self).tmp_offset == old(self).tmp_offset,
    {
        let offset: i128 = (absolute as i128) - (self.emit_loc as i128 + 1);
        self.emit(Instruction::Memory { op, target, offset, base: RegisterCode::PC });
    }
}

/// The number of instructions that an operator adds after its operands.
pub open spec fn operator_size(t: TokenType) -> nat {
    if t == TokenType::LessThan || t == TokenType::Equal { 5 } else { 1 }
}

/// The number of instructions of an expression, by its shape.
pub open spec fn expr_size(e: Expression) -> nat
    decreases e,
{
    match e {
        Expression::Infix(x) => expr_size(*x.left) + expr_size(*x.right) + 2 + operator_size(x.op.token_type),
        _ => 1,
    }
}

/// The number of instructions of a statement, by its shape.
pub open spec fn stmt_size(s: Statement) -> nat
    decreases s,
{
    match s {
        Statement::Read(_) => 2,
        Statement::Write(_) => 2,
        Statement::Assign(a) => expr_size(a.value) + 1,
        Statement::If(i) => expr_size(i.cond) + stmts_size(i.consequence.statements@) + 2,
        Statement::Repeat(r) => stmts_size(r.consequence.statements@) + expr_size(r.cond) + 1,
        Statement::Block(b) => stmts_size(b.statements@),
    }
}

/// The number of instructions of statements in order, by their shapes.
pub open spec fn stmts_size(ss: Seq<Statement>) -> nat
    decreases ss,
{
    if ss.len() == 0 {
        0
    } else {
        stmt_size(ss[0]) + stmts_size(ss.drop_first())
    }
}

proof fn lemma_expr_size(e: Expression, names: Seq<Seq<char>>, tmp: int)
    requires
        expr_code(e, names, tmp) is Ok,
    ensures
        expr_code(e, names, tmp)->Ok_0.len() == expr_size(e),
    decreases e,
{
    if let Expression::Infix(x) = e {
        lemma_expr_size(*x.left, names, tmp);
        lemma_expr_size(*x.right, names, tmp - 1);
    }
}

proof fn lemma_stmt_size(s: Statement, names: Seq<Seq<char>>, tmp: int)
    requires
        stmt_code(s, names, tmp) is Ok,
    ensures
        stmt_code(s, names, tmp)->Ok_0.0.len() == stmt_size(s),
    decreases s,
{
    match s {
        Statement::Write(w) => {
            lemma_expr_size(Expression::Identifier(w.name), names, tmp);
        },
        Statement::Assign(a) => {
            lemma_expr_size(a.value, names, tmp);
        },
        Statement::If(i) => {
            lemma_expr_size(i.cond, names, tmp);
            lemma_stmts_size(i.consequence.statements@, names, tmp);
        },
        Statement::Repeat(r) => {
            lemma_stmts_size(r.consequence.statements@, names, tmp);
            let after = stmts_code(r.consequence.statements@, names, tmp)->Ok_0.1;
            lemma_expr_size(r.cond, after, tmp);
        },
        Statement::Block(b) => {
            lemma_stmts_size(b.statements@, names, tmp);
        },
        Statement::Read(_) => {},
    }
}

proof fn lemma_stmts_size(ss: Seq<Statement>, names: Seq<Seq<char>>, tmp: int)
    requires
        stmts_code(ss, names, tmp) is Ok,
    ensures
        stmts_code(ss, names, tmp)->Ok_0.0.len() == stmts_size(ss),
    decreases ss,
{
    if ss.len() > 0 {
        lemma_stmt_size(ss[0], names, tmp);
        let after = stmt_code(ss[0], names, tmp)->Ok_0.1;
        lemma_stmts_size(ss.drop_first(), after, tmp);
    }
}

/// A program that compiles yields as many instructions as its shape gives, whatever the
/// variables are called and whatever table it starts from; a program whose first statement
/// is an assignment, a read, a write, an `if` or a `repeat` yields at least one.
pub proof fn lemma_program_size(p: Program, names: Seq<Seq<char>>, tmp: int)
    requires
        stmts_code(p.statements@, names, tmp) is Ok,
    ensures
        stmts_code(p.statements@, names, tmp)->Ok_0.0.len() == stmts_size(p.statements@),
        p.statements@.len() > 0 && !(p.statements@[0] is Block) ==> stmts_size(p.statements@) >= 1,
{
    lemma_stmts_size(p.statements@, names, tmp);
    let ss = p.statements@;
    if ss.len() > 0 && !(ss[0] is Block) {
        assert(stmts_size(ss) == stmt_size(ss[0]) + stmts_size(ss.drop_first()));
        assert(stmt_size(ss[0]) >= 1);
    }
}

/// In the code of `if cond then block end`, the slot after the condition holds a jump taken
/// when AC is 0, whose distance is the end of the code less the slot's address less one: it
/// lands just past the second slot, however many instructions the block has. The block's code
/// stands between the two slots, and the second slot holds a jump of distance 0.
pub proof fn lemma_if_backpatch(i: IfStatement, names: Seq<Seq<char>>, tmp: int)
    requires
        stmt_code(Statement::If(i), names, tmp) is Ok,
    ensures
        ({
            let code = stmt_code(Statement::If(i), names, tmp)->Ok_0.0;
            let slot = expr_code(i.cond, names, tmp)->Ok_0.len() as int;
            let block = stmts_code(i.consequence.statements@, names, tmp)->Ok_0.0;
            &&& code[slot] == mem(OpCode::JEQ, RegisterCode::AC, code.len() - slot - 1, RegisterCode::PC)
            &&& code.subrange(slot + 1, code.len() - 1) == block
            &&& code[code.len() - 1] == mem(OpCode::LDA, RegisterCode::PC, 0, RegisterCode::PC)
        }),
{
    let code = stmt_code(Statement::If(i), names, tmp)->Ok_0.0;
    let c = expr_code(i.cond, names, tmp)->Ok_0;
    let block = stmts_code(i.consequence.statements@, names, tmp)->Ok_0.0;
    assert(code.subrange(c.len() + 1 as int, code.len() - 1 as int) =~= block);
}

} // verus!
