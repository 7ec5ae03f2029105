//! The recursive-descent parser: one token of lookahead, one tree per program.
use vstd::prelude::*;
use crate::ast::{
    AssignStatement, BlockStatement, Expression, Identifier, IfStatement, InfixExpression, Number, Program,
    ReadStatement, RepeatStatement, Statement, WriteStatement,
};
use crate::lexer::{Lexer, is_digit_char, lex_all, lex_step, lemma_eof_repeats, lemma_lex_step_progress, strip_comments};
use crate::token::{Token, TokenType};

verus! {

/// A token as the grammar sees it: its kind and its text.
pub type Tok = (TokenType, Seq<char>);

/// The tokens of a source text, up to and with the end-of-input token.
pub open spec fn scan(src: Seq<char>) -> Seq<Tok> {
    lex_all(strip_comments(src), 0)
}

/// The token at `i`; the end-of-input token past the end.
pub open spec fn tok(ts: Seq<Tok>, i: int) -> Tok {
    if 0 <= i < ts.len() {
        ts[i]
    } else {
        (TokenType::Eof, Seq::empty())
    }
}

/// The kinds that may stand between the two operands of an expression.
pub open spec fn is_operator(t: TokenType) -> bool {
    t == TokenType::LessThan || t == TokenType::EqualLessThan || t == TokenType::Equal || t == TokenType::Add
        || t == TokenType::Minus || t == TokenType::Mul || t == TokenType::Divide
}

/// The value of a decimal digit, 0 for any other character.
pub open spec fn digit_value(c: char) -> int {
    if is_digit_char(c) {
        (c as int) - ('0' as int)
    } else {
        0
    }
}

/// The value of a run of decimal digits.
pub open spec fn literal_value(s: Seq<char>) -> int
    decreases s.len(),
{
    if s.len() == 0 {
        0
    } else {
        literal_value(s.drop_last()) * 10 + digit_value(s.last())
    }
}

/// Where the operand `e` ends when it starts at token `i`, or -1 where it does not stand there.
pub open spec fn prefix_span(ts: Seq<Tok>, i: int, e: Expression) -> int {
    match e {
        Expression::Identifier(id) => if tok(ts, i) == (TokenType::Ident, id.value@) { i + 1 } else { -1 },
        Expression::Number(n) => if tok(ts, i).0 == TokenType::Number && literal_value(tok(ts, i).1) == n.value as int {
            i + 1
        } else {
            -1
        },
        Expression::Infix(_) => -1,
    }
}

/// Where the expression `e` ends when it starts at token `i`, or -1: an operand, or two
/// operands around one operator.
pub open spec fn expr_span(ts: Seq<Tok>, i: int, e: Expression) -> int {
    match e {
        Expression::Infix(x) => {
            let j = prefix_span(ts, i, *x.left);
            if j >= 0 && is_operator(tok(ts, j).0) && tok(ts, j) == x.op@ {
                prefix_span(ts, j + 1, *x.right)
            } else {
                -1
            }
        },
        _ => prefix_span(ts, i, e),
    }
}

/// Where the statement `s` ends when it starts at token `i`, or -1 where it does not stand there.
pub open spec fn stmt_span(ts: Seq<Tok>, i: int, s: Statement) -> int
    decreases s,
{
    match s {
        Statement::Assign(a) => {
            let j = expr_span(ts, i + 2, a.value);
            if tok(ts, i) == (TokenType::Ident, a.name.value@) && tok(ts, i + 1).0 == TokenType::Assign && j >= 0
                && tok(ts, j).0 == TokenType::SemiColon {
                j + 1
            } else {
                -1
            }
        },
        Statement::Read(r) => if tok(ts, i).0 == TokenType::Read && tok(ts, i + 1) == (TokenType::Ident, r.name.value@)
            && tok(ts, i + 2).0 == TokenType::SemiColon {
            i + 3
        } else {
            -1
        },
        Statement::Write(w) => if tok(ts, i).0 == TokenType::Write && tok(ts, i + 1) == (TokenType::Ident, w.name.value@)
            && tok(ts, i + 2).0 == TokenType::SemiColon {
            i + 3
        } else {
            -1
        },
        Statement::If(x) => {
            let j = expr_span(ts, i + 1, x.cond);
            if tok(ts, i).0 == TokenType::If && j >= 0 && tok(ts, j).0 == TokenType::Then {
                let k = stmts_span(ts, j + 1, x.consequence.statements@);
                if k >= 0 && tok(ts, k).0 == TokenType::End {
                    k + 1
                } else {
                    -1
                }
            } else {
                -1
            }
        },
        Statement::Repeat(x) => {
            let k = stmts_span(ts, i + 1, x.consequence.statements@);
            if tok(ts, i).0 == TokenType::Repeat && k >= 0 && tok(ts, k).0 == TokenType::Until {
                let j = expr_span(ts, k + 1, x.cond);
                if j >= 0 && tok(ts, j).0 == TokenType::SemiColon {
                    j + 1
                } else {
                    -1
                }
            } else {
                -1
            }
        },
        Statement::Block(_) => -1,
    }
}

/// Where the statements `ss`, one after the other, end when they start at token `i`, or -1.
pub open spec fn stmts_span(ts: Seq<Tok>, i: int, ss: Seq<Statement>) -> int
    decreases ss,
{
    if ss.len() == 0 {
        i
    } else {
        let j = stmt_span(ts, i, ss[0]);
        if j < 0 {
            -1
        } else {
            stmts_span(ts, j, ss.drop_first())
        }
    }
}

/// Whether `p` is the program that the tokens from `i` on spell: its statements, then the
/// end of input.
pub open spec fn program_parses(ts: Seq<Tok>, i: int, p: Program) -> bool {
    let k = stmts_span(ts, i, p.statements@);
    k >= 0 && tok(ts, k).0 == TokenType::Eof
}

/// Why a text could not be parsed.
#[derive(Debug, Clone, Copy, PartialEq, Eq, Structural)]
pub enum ParseError {
    /// A token of this kind cannot stand where it was found.
    UnexpectedToken(TokenType),
    /// A number literal beyond the range of `i32`.
    NumberTooLarge,
}

/// Reads statements from a scanner, holding one token of lookahead.
pub struct Parser {
    lexer: Lexer,
    peek: Token,
    tokens: Ghost<Seq<Tok>>,
    at: Ghost<int>,
}

impl Parser {
    /// The tokens of the whole text.
    pub closed spec fn tokens(&self) -> Seq<Tok> {
        self.tokens@
    }

    /// The index of the lookahead token among them.
    pub closed spec fn at(&self) -> int {
        self.at@
    }

    pub closed spec fn wf(&self) -> bool {
        let ts = self.tokens@;
        let text = self.lexer.text();
        let pos = self.lexer.position();
        &&& self.lexer.wf()
        &&& 0 <= pos <= text.len()
        &&& 0 <= self.at@ < ts.len()
        &&& self.peek@ == ts[self.at@]
        &&& if self.peek.token_type == TokenType::Eof {
            &&& self.at@ == ts.len() - 1
            &&& self.peek@.1 == ""@
            &&& lex_step(text, pos) == (TokenType::Eof, ""@, pos)
        } else {
            lex_all(text, pos) == ts.subrange(self.at@ + 1, ts.len() as int)
        }
    }

    pub fn new(input: &str) -> (r: Parser)
        ensures
            r.wf(),
            r.tokens() == scan(input@),
            r.at() == 0,
    {
        let mut lexer = Lexer::new(input);
        let ghost text = lexer.text();
        let peek = lexer.next_token();
        proof {
            lemma_lex_step_progress(text, 0);
            let step = lex_step(text, 0);
            let ts = lex_all(text, 0);
            if step.0 == TokenType::Eof {
                lemma_eof_repeats(text, 0);
            } else {
                assert(ts == seq![(step.0, step.1)] + lex_all(text, step.2));
                assert(ts.subrange(1, ts.len() as int) =~= lex_all(text, step.2));
            }
        }
        Parser { lexer, peek, tokens: Ghost(lex_all(text, 0)), at: Ghost(0) }
    }

    /// The lookahead token.
    fn peek_token(&self) -> (r: Token)
        requires
            self.wf(),
        ensures
            r@ == self.tokens()[self.at()],
    {
        self.peek.duplicate()
    }

    /// Consumes the lookahead token and returns it; the end-of-input token is never consumed.
    fn next_token(&mut self) -> (r: Token)
        requires
            old(self).wf(),
        ensures
            final(self).wf(),
            final(self).tokens() == old(self).tokens(),
            r@ == old(self).tokens()[old(self).at()],
            final(self).at() == if r.token_type == TokenType::Eof { old(self).at() } else { old(self).at() + 1 },
    {
        let ghost ts = self.tokens@;
        let ghost text = self.lexer.text();
        let ghost pos = self.lexer.position();
        let ghost old_at = self.at@;
        let cur = self.peek.duplicate();
        let next = self.lexer.next_token();
        self.peek = next;
        proof {
            lemma_lex_step_progress(text, pos);
            let step = lex_step(text, pos);
            if cur.token_type == TokenType::Eof {
                lemma_eof_repeats(text, pos);
            } else {
                let rest = lex_all(text, pos);
                assert(rest.len() > 0);
                assert(rest[0] == (step.0, step.1));
                self.at@ = old_at + 1;
                assert(ts[self.at@] == ts.subrange(old_at + 1, ts.len() as int)[0]);
                if step.0 == TokenType::Eof {
                    lemma_eof_repeats(text, pos);
                    assert(rest.len() == 1);
                } else {
                    assert(rest == seq![(step.0, step.1)] + lex_all(text, step.2));
                    assert(rest == ts.subrange(old_at + 1, ts.len() as int));
                    assert(rest.subrange(1, rest.len() as int) =~= lex_all(text, step.2));
                    assert(rest.subrange(1, rest.len() as int) =~= ts.subrange(old_at + 2, ts.len() as int));
                }
            }
        }
        cur
    }

    /// Reads a program: statements up to the end of input.
    pub fn parse_program(&mut self) -> (r: Result<Program, ParseError>)
        requires
            old(self).wf(),
        ensures
            final(self).wf(),
            final(self).tokens() == old(self).tokens(),
            r matches Ok(p) ==> program_parses(old(self).tokens(), old(self).at(), p),
            r is Err ==> forall|p: Program| !#[trigger] program_parses(old(self).tokens(), old(self).at(), p),
    {
        let mut program = Program::new();
        let ghost start = self.at@;
        let ghost ts = self.tokens@;
        while self.peek.token_type != TokenType::Eof
            invariant
                self.wf(),
                self.tokens() == old(self).tokens(),
                start == old(self).at(),
                start <= self.at(),
                stmts_span(self.tokens(), start, program.statements@) == self.at(),
                ts == self.tokens(),
                program_at(ts, start) ==> program_at(ts, self.at()),
            decreases self.tokens().len() - self.at(),
        {
            let ghost before = program.statements@;
            let ghost i = self.at@;
            assert(tok(ts, i) == ts[i]);
            let stmt = match self.parse_statement() {
                Ok(s) => s,
                Err(e) => {
                    proof {
                        if program_at(ts, i) {
                            let ss = choose|ss: Seq<Statement>| #[trigger] stmts_span(ts, i, ss) >= 0
                                && tok(ts, stmts_span(ts, i, ss)).0 == TokenType::Eof;
                            assert(ss.len() > 0);
                            assert(stmt_span(ts, i, ss[0]) < 0);
                        }
                        assert forall|p: Program| !#[trigger] program_parses(ts, start, p) by {
                            if program_parses(ts, start, p) {
                                assert(program_at(ts, start));
                            }
                        }
                    }
                    return Err(e);
                },
            };
            proof {
                lemma_stmts_span_push(self.tokens(), start, before, stmt);
                if program_at(ts, i) {
                    let ss = choose|ss: Seq<Statement>| #[trigger] stmts_span(ts, i, ss) >= 0
                        && tok(ts, stmts_span(ts, i, ss)).0 == TokenType::Eof;
                    lemma_block_after_stmt(ts, i, stmt, ss);
                    assert(stmts_span(ts, self.at(), ss.drop_first()) >= 0);
                }
            }
            program.statements.push(stmt);
        }
        Ok(program)
    }

    fn parse_statement(&mut self) -> (r: Result<Statement, ParseError>)
        requires
            old(self).wf(),
        ensures
            final(self).wf(),
            final(self).tokens() == old(self).tokens(),
            old(self).at() <= final(self).at(),
            r matches Ok(s) ==> stmt_span(old(self).tokens(), old(self).at(), s) == final(self).at(),
            r is Ok ==> old(self).at() < final(self).at(),
            r is Err ==> no_statement_at(old(self).tokens(), old(self).at()),
        decreases old(self).tokens().len() - old(self).at(), 2nat,
    {
        let t = self.peek.token_type;
        let ghost ts = self.tokens@;
        let ghost i = self.at@;
        proof {
            assert(tok(ts, i) == ts[i]);
            if !starts_statement(t) {
                assert forall|s: Statement| #[trigger] stmt_span(ts, i, s) < 0 by {
                    if stmt_span(ts, i, s) >= 0 {
                        lemma_stmt_start(ts, i, s);
                    }
                }
            }
        }
        match t {
            TokenType::Ident => match self.parse_assign_statement() {
                Ok(a) => Ok(Statement::Assign(a)),
                Err(e) => Err(e),
            },
            TokenType::If => match self.parse_if_statement() {
                Ok(a) => Ok(Statement::If(a)),
                Err(e) => Err(e),
            },
            TokenType::Repeat => match self.parse_repeat_statement() {
                Ok(a) => Ok(Statement::Repeat(a)),
                Err(e) => Err(e),
            },
            TokenType::Read => match self.parse_read_statement() {
                Ok(a) => Ok(Statement::Read(a)),
                Err(e) => Err(e),
            },
            TokenType::Write => match self.parse_write_statement() {
                Ok(a) => Ok(Statement::Write(a)),
                Err(e) => Err(e),
            },
            _ => Err(ParseError::UnexpectedToken(t)),
        }
    }

    /// Consumes the lookahead token if it is of kind `t`; fails on any other.
    fn expect(&mut self, t: TokenType) -> (r: Result<Token, ParseError>)
        requires
            old(self).wf(),
        ensures
            final(self).wf(),
            final(self).tokens() == old(self).tokens(),
            old(self).tokens()[old(self).at()].0 == t ==> (r matches Ok(k) && k@ == old(self).tokens()[old(self).at()]),
            old(self).tokens()[old(self).at()].0 != t ==> r == Err::<Token, ParseError>(
                ParseError::UnexpectedToken(old(self).tokens()[old(self).at()].0)),
            final(self).at() == if r is Ok && t != TokenType::Eof { old(self).at() + 1 } else { old(self).at() },
    {
        if self.peek.token_type == t {
            Ok(self.next_token())
        } else {
            Err(ParseError::UnexpectedToken(self.peek.token_type))
        }
    }

    fn parse_assign_statement(&mut self) -> (r: Result<AssignStatement, ParseError>)
        requires
            old(self).wf(),
            old(self).tokens()[old(self).at()].0 == TokenType::Ident,
        ensures
            final(self).wf(),
            final(self).tokens() == old(self).tokens(),
            old(self).at() <= final(self).at(),
            r matches Ok(a) ==> stmt_span(old(self).tokens(), old(self).at(), Statement::Assign(a)) == final(self).at(),
            r is Ok ==> old(self).at() < final(self).at(),
            r is Err ==> no_statement_at(old(self).tokens(), old(self).at()),
    {
        let ghost ts = self.tokens@;
        let ghost i = self.at@;
        let ident = match self.expect(TokenType::Ident) {
            Ok(k) => k,
            Err(e) => return Err(e),
        };
        match self.expect(TokenType::Assign) {
            Ok(_) => {},
            Err(e) => return Err(e),
        }
        let value = match self.parse_expression() {
            Ok(v) => v,
            Err(e) => {
                assert forall|s: Statement| #[trigger] stmt_span(ts, i, s) < 0 by {
                    if let Statement::Assign(a) = s {
                        assert(expr_span(ts, i + 2, a.value) < 0 || is_operator(tok(ts, expr_span(ts, i + 2, a.value)).0));
                    }
                }
                return Err(e);
            },
        };
        let ghost j = self.at@;
        match self.expect(TokenType::SemiColon) {
            Ok(_) => {},
            Err(e) => {
                assert forall|s: Statement| #[trigger] stmt_span(ts, i, s) < 0 by {
                    if let Statement::Assign(a) = s {
                        if stmt_span(ts, i, s) >= 0 {
                            lemma_expr_unique(ts, i + 2, value, a.value);
                            assert(tok(ts, j) == ts[j]);
                        }
                    }
                }
                return Err(e);
            },
        }
        Ok(AssignStatement { name: Identifier { value: ident.literal }, value })
    }

    fn parse_if_statement(&mut self) -> (r: Result<IfStatement, ParseError>)
        requires
            old(self).wf(),
            old(self).tokens()[old(self).at()].0 == TokenType::If,
        ensures
            final(self).wf(),
            final(self).tokens() == old(self).tokens(),
            old(self).at() <= final(self).at(),
            r matches Ok(x) ==> stmt_span(old(self).tokens(), old(self).at(), Statement::If(x)) == final(self).at(),
            r is Ok ==> old(self).at() < final(self).at(),
            r is Err ==> no_statement_at(old(self).tokens(), old(self).at()),
        decreases old(self).tokens().len() - old(self).at(), 1nat,
    {
        let ghost ts = self.tokens@;
        let ghost i = self.at@;
        match self.expect(TokenType::If) {
            Ok(_) => {},
            Err(e) => return Err(e),
        }
        let cond = match self.parse_expression() {
            Ok(v) => v,
            Err(e) => {
                assert forall|s: Statement| #[trigger] stmt_span(ts, i, s) < 0 by {
                    if let Statement::If(x) = s {
                        assert(expr_span(ts, i + 1, x.cond) < 0 || is_operator(tok(ts, expr_span(ts, i + 1, x.cond)).0));
                    }
                }
                return Err(e);
            },
        };
        let ghost j = self.at@;
        match self.expect(TokenType::Then) {
            Ok(_) => {},
            Err(e) => {
                assert forall|s: Statement| #[trigger] stmt_span(ts, i, s) < 0 by {
                    if let Statement::If(x) = s {
                        if stmt_span(ts, i, s) >= 0 {
                            lemma_expr_unique(ts, i + 1, cond, x.cond);
                            assert(tok(ts, j) == ts[j]);
                        }
                    }
                }
                return Err(e);
            },
        }
        let consequence = match self.parse_block_statement() {
            Ok(b) => b,
            Err(e) => {
                assert forall|s: Statement| #[trigger] stmt_span(ts, i, s) < 0 by {
                    if let Statement::If(x) = s {
                        if stmt_span(ts, i, s) >= 0 {
                            lemma_expr_unique(ts, i + 1, cond, x.cond);
                            assert(stmts_span(ts, j + 1, x.consequence.statements@) >= 0);
                            assert(block_at(ts, j + 1));
                        }
                    }
                }
                return Err(e);
            },
        };
        let ghost k = self.at@;
        match self.expect(TokenType::End) {
            Ok(_) => {},
            Err(e) => {
                assert forall|s: Statement| #[trigger] stmt_span(ts, i, s) < 0 by {
                    if let Statement::If(x) = s {
                        if stmt_span(ts, i, s) >= 0 {
                            lemma_expr_unique(ts, i + 1, cond, x.cond);
                            lemma_block_unique(ts, j + 1, consequence.statements@, x.consequence.statements@);
                            assert(tok(ts, k) == ts[k]);
                        }
                    }
                }
                return Err(e);
            },
        }
        Ok(IfStatement { cond, consequence })
    }

    fn parse_repeat_statement(&mut self) -> (r: Result<RepeatStatement, ParseError>)
        requires
            old(self).wf(),
            old(self).tokens()[old(self).at()].0 == TokenType::Repeat,
        ensures
            final(self).wf(),
            final(self).tokens() == old(self).tokens(),
            old(self).at() <= final(self).at(),
            r matches Ok(x) ==> stmt_span(old(self).tokens(), old(self).at(), Statement::Repeat(x)) == final(self).at(),
            r is Ok ==> old(self).at() < final(self).at(),
            r is Err ==> no_statement_at(old(self).tokens(), old(self).at()),
        decreases old(self).tokens().len() - old(self).at(), 1nat,
    {
        let ghost ts = self.tokens@;
        let ghost i = self.at@;
        match self.expect(TokenType::Repeat) {
            Ok(_) => {},
            Err(e) => return Err(e),
        }
        let consequence = match self.parse_block_statement() {
            Ok(b) => b,
            Err(e) => {
                assert forall|s: Statement| #[trigger] stmt_span(ts, i, s) < 0 by {
                    if let Statement::Repeat(x) = s {
                        if stmt_span(ts, i, s) >= 0 {
                            assert(stmts_span(ts, i + 1, x.consequence.statements@) >= 0);
                            assert(block_at(ts, i + 1));
                        }
                    }
                }
                return Err(e);
            },
        };
        let ghost k = self.at@;
        match self.expect(TokenType::Until) {
            Ok(_) => {},
            Err(e) => {
                assert forall|s: Statement| #[trigger] stmt_span(ts, i, s) < 0 by {
                    if let Statement::Repeat(x) = s {
                        if stmt_span(ts, i, s) >= 0 {
                            lemma_block_unique(ts, i + 1, consequence.statements@, x.consequence.statements@);
                            assert(tok(ts, k) == ts[k]);
                        }
                    }
                }
                return Err(e);
            },
        }
        let cond = match self.parse_expression() {
            Ok(v) => v,
            Err(e) => {
                assert forall|s: Statement| #[trigger] stmt_span(ts, i, s) < 0 by {
                    if let Statement::Repeat(x) = s {
                        if stmt_span(ts, i, s) >= 0 {
                            lemma_block_unique(ts, i + 1, consequence.statements@, x.consequence.statements@);
                            assert(expr_span(ts, k + 1, x.cond) < 0 || is_operator(tok(ts, expr_span(ts, k + 1, x.cond)).0));
                        }
                    }
                }
                return Err(e);
            },
        };
        let ghost j = self.at@;
        match self.expect(TokenType::SemiColon) {
            Ok(_) => {},
            Err(e) => {
                assert forall|s: Statement| #[trigger] stmt_span(ts, i, s) < 0 by {
                    if let Statement::Repeat(x) = s {
                        if stmt_span(ts, i, s) >= 0 {
                            lemma_block_unique(ts, i + 1, consequence.statements@, x.consequence.statements@);
                            lemma_expr_unique(ts, k + 1, cond, x.cond);
                            assert(tok(ts, j) == ts[j]);
                        }
                    }
                }
                return Err(e);
            },
        }
        Ok(RepeatStatement { cond, consequence })
    }

    fn parse_read_statement(&mut self) -> (r: Result<ReadStatement, ParseError>)
        requires
            old(self).wf(),
            old(self).tokens()[old(self).at()].0 == TokenType::Read,
        ensures
            final(self).wf(),
            final(self).tokens() == old(self).tokens(),
            old(self).at() <= final(self).at(),
            r matches Ok(x) ==> stmt_span(old(self).tokens(), old(self).at(), Statement::Read(x)) == final(self).at(),
            r is Ok ==> old(self).at() < final(self).at(),
            r is Err ==> no_statement_at(old(self).tokens(), old(self).at()),
    {
        let ghost ts = self.tokens@;
        let ghost i = self.at@;
        match self.expect(TokenType::Read) {
            Ok(_) => {},
            Err(e) => return Err(e),
        }
        let ident = match self.expect(TokenType::Ident) {
            Ok(k) => k,
            Err(e) => {
                assert(tok(ts, i + 1) == ts[i + 1]);
                return Err(e);
            },
        };
        match self.expect(TokenType::SemiColon) {
            Ok(_) => {},
            Err(e) => {
                assert(tok(ts, i + 2) == ts[i + 2]);
                return Err(e);
            },
        }
        Ok(ReadStatement { name: Identifier { value: ident.literal } })
    }

    fn parse_write_statement(&mut self) -> (r: Result<WriteStatement, ParseError>)
        requires
            old(self).wf(),
            old(self).tokens()[old(self).at()].0 == TokenType::Write,
        ensures
            final(self).wf(),
            final(self).tokens() == old(self).tokens(),
            old(self).at() <= final(self).at(),
            r matches Ok(x) ==> stmt_span(old(self).tokens(), old(self).at(), Statement::Write(x)) == final(self).at(),
            r is Ok ==> old(self).at() < final(self).at(),
            r is Err ==> no_statement_at(old(self).tokens(), old(self).at()),
    {
        let ghost ts = self.tokens@;
        let ghost i = self.at@;
        match self.expect(TokenType::Write) {
            Ok(_) => {},
            Err(e) => return Err(e),
        }
        let ident = match self.expect(TokenType::Ident) {
            Ok(k) => k,
            Err(e) => {
                assert(tok(ts, i + 1) == ts[i + 1]);
                return Err(e);
            },
        };
        match self.expect(TokenType::SemiColon) {
            Ok(_) => {},
            Err(e) => {
                assert(tok(ts, i + 2) == ts[i + 2]);
                return Err(e);
            },
        }
        Ok(WriteStatement { name: Identifier { value: ident.literal } })
    }

    /// Reads statements up to an `end` or an `until`, which is left unconsumed.
    fn parse_block_statement(&mut self) -> (r: Result<BlockStatement, ParseError>)
        requires
            old(self).wf(),
        ensures
            final(self).wf(),
            final(self).tokens() == old(self).tokens(),
            old(self).at() <= final(self).at(),
            r matches Ok(b) ==> {
                &&& stmts_span(old(self).tokens(), old(self).at(), b.statements@) == final(self).at()
                &&& (tok(old(self).tokens(), final(self).at()).0 == TokenType::End
                    || tok(old(self).tokens(), final(self).at()).0 == TokenType::Until)
            },
            r is Err ==> !block_at(old(self).tokens(), old(self).at()),
        decreases old(self).tokens().len() - old(self).at(), 3nat,
    {
        let mut block = BlockStatement { statements: Vec::new() };
        let ghost start = self.at@;
        let ghost ts = self.tokens@;
        while self.peek.token_type != TokenType::End && self.peek.token_type != TokenType::Until
            invariant
                self.wf(),
                self.tokens() == old(self).tokens(),
                start == old(self).at(),
                start <= self.at(),
                stmts_span(self.tokens(), start, block.statements@) == self.at(),
                ts == self.tokens(),
                block_at(ts, start) ==> block_at(ts, self.at()),
            decreases self.tokens().len() - self.at(),
        {
            let ghost before = block.statements@;
            let ghost i = self.at@;
            assert(tok(ts, i) == ts[i]);
            let stmt = match self.parse_statement() {
                Ok(s) => s,
                Err(e) => {
                    proof {
                        if block_at(ts, i) {
                            let ss = choose|ss: Seq<Statement>| #[trigger] stmts_span(ts, i, ss) >= 0
                                && is_block_end(tok(ts, stmts_span(ts, i, ss)).0);
                            assert(ss.len() > 0);
                            assert(stmt_span(ts, i, ss[0]) < 0);
                        }
                    }
                    return Err(e);
                },
            };
            proof {
                lemma_stmts_span_push(self.tokens(), start, before, stmt);
                if block_at(ts, i) {
                    let ss = choose|ss: Seq<Statement>| #[trigger] stmts_span(ts, i, ss) >= 0
                        && is_block_end(tok(ts, stmts_span(ts, i, ss)).0);
                    lemma_block_after_stmt(ts, i, stmt, ss);
                    assert(stmts_span(ts, self.at(), ss.drop_first()) >= 0);
                }
            }
            block.statements.push(stmt);
        }
        Ok(block)
    }

    /// Reads an operand, optionally followed by one operator and a second operand.
    fn parse_expression(&mut self) -> (r: Result<Expression, ParseError>)
        requires
            old(self).wf(),
        ensures
            final(self).wf(),
            final(self).tokens() == old(self).tokens(),
            old(self).at() <= final(self).at(),
            r matches Ok(e) ==> expr_span(old(self).tokens(), old(self).at(), e) == final(self).at(),
            r matches Ok(e) ==> (!(e is Infix) ==> !is_operator(tok(old(self).tokens(), final(self).at()).0)),
            r is Err ==> forall|e: Expression| #[trigger] expr_span(old(self).tokens(), old(self).at(), e) < 0
                || is_operator(tok(old(self).tokens(), expr_span(old(self).tokens(), old(self).at(), e)).0),
    {
        let ghost ts = self.tokens@;
        let ghost i = self.at@;
        let left = match self.parse_prefix_expression() {
            Ok(e) => e,
            Err(e) => {
                assert forall|x: Expression| #[trigger] expr_span(ts, i, x) < 0 by {
                    if let Expression::Infix(y) = x {
                        assert(prefix_span(ts, i, *y.left) < 0);
                    } else {
                        assert(prefix_span(ts, i, x) < 0);
                    }
                }
                return Err(e);
            },
        };
        proof {
            assert(tok(ts, i + 1) == ts[i + 1]);
        }
        if Self::is_operator_kind(self.peek.token_type) {
            let op = self.next_token();
            match self.parse_infix_expression(op, left) {
                Ok(x) => Ok(Expression::Infix(x)),
                Err(e) => {
                    assert forall|x: Expression| #[trigger] expr_span(ts, i, x) < 0
                        || is_operator(tok(ts, expr_span(ts, i, x)).0) by {
                        if let Expression::Infix(y) = x {
                            assert(prefix_span(ts, i + 2, *y.right) < 0);
                        }
                    }
                    Err(e)
                },
            }
        } else {
            Ok(left)
        }
    }

    fn is_operator_kind(t: TokenType) -> (r: bool)
        ensures
            r == is_operator(t),
    {
        match t {
            TokenType::LessThan | TokenType::EqualLessThan | TokenType::Equal | TokenType::Add | TokenType::Minus
            | TokenType::Mul | TokenType::Divide => true,
            _ => false,
        }
    }

    /// Reads an identifier or a number.
    fn parse_prefix_expression(&mut self) -> (r: Result<Expression, ParseError>)
        requires
            old(self).wf(),
        ensures
            final(self).wf(),
            final(self).tokens() == old(self).tokens(),
            old(self).at() <= final(self).at(),
            r matches Ok(e) ==> prefix_span(old(self).tokens(), old(self).at(), e) == final(self).at(),
            r is Err ==> forall|e: Expression| #[trigger] prefix_span(old(self).tokens(), old(self).at(), e) < 0,
    {
        let t = self.peek.token_type;
        proof {
            assert(tok(self.tokens@, self.at@) == self.tokens@[self.at@]);
        }
        match t {
            TokenType::Ident => Ok(Expression::Identifier(self.parse_ident())),
            TokenType::Number => match self.parse_number() {
                Ok(n) => Ok(Expression::Number(n)),
                Err(e) => Err(e),
            },
            _ => Err(ParseError::UnexpectedToken(t)),
        }
    }

    /// Reads the operand after `op`, and joins `left` and it by `op`.
    fn parse_infix_expression(&mut self, op: Token, left: Expression) -> (r: Result<InfixExpression, ParseError>)
        requires
            old(self).wf(),
        ensures
            final(self).wf(),
            final(self).tokens() == old(self).tokens(),
            old(self).at() <= final(self).at(),
            r matches Ok(x) ==> {
                &&& x.op@ == op@
                &&& *x.left == left
                &&& prefix_span(old(self).tokens(), old(self).at(), *x.right) == final(self).at()
            },
            r is Err ==> forall|e: Expression| #[trigger] prefix_span(old(self).tokens(), old(self).at(), e) < 0,
    {
        let right = match self.parse_prefix_expression() {
            Ok(e) => e,
            Err(e) => return Err(e),
        };
        Ok(InfixExpression { op, left: Box::new(left), right: Box::new(right) })
    }

    fn parse_ident(&mut self) -> (r: Identifier)
        requires
            old(self).wf(),
            old(self).tokens()[old(self).at()].0 == TokenType::Ident,
        ensures
            final(self).wf(),
            final(self).tokens() == old(self).tokens(),
            final(self).at() == old(self).at() + 1,
            r.value@ == old(self).tokens()[old(self).at()].1,
    {
        Identifier { value: self.next_token().literal }
    }

    fn parse_number(&mut self) -> (r: Result<Number, ParseError>)
        requires
            old(self).wf(),
            old(self).tokens()[old(self).at()].0 == TokenType::Number,
        ensures
            final(self).wf(),
            final(self).tokens() == old(self).tokens(),
            final(self).at() == old(self).at() + 1,
            literal_value(old(self).tokens()[old(self).at()].1) <= i32::MAX ==> (r matches Ok(n)
                && n.value as int == literal_value(old(self).tokens()[old(self).at()].1)),
            literal_value(old(self).tokens()[old(self).at()].1) > i32::MAX ==> r == Err::<Number, ParseError>(
                ParseError::NumberTooLarge),
    {
        let token = self.next_token();
        proof {
            lemma_literal_value_nonneg(token.literal@);
        }
        match number_value(token.literal.as_str()) {
            Some(value) => Ok(Number { value }),
            None => Err(ParseError::NumberTooLarge),
        }
    }
}


/// The value of a digit run when it fits in `i32`.
pub fn number_value(text: &str) -> (r: Option<i32>)
    ensures
        literal_value(text@) <= i32::MAX ==> r == Some(literal_value(text@) as i32),
        literal_value(text@) > i32::MAX ==> r is None,
{
    let limit: i64 = 0x8000_0000;
    let n = text.unicode_len();
    let mut value: i64 = 0;
    let mut i: usize = 0;
    while i < n
        invariant
            n == text@.len(),
            i <= n,
            limit == 0x8000_0000,
            0 <= value <= limit,
            value == if literal_value(text@.subrange(0, i as int)) < limit { literal_value(text@.subrange(0, i as int)) } else { limit as int },
        decreases n - i,
    {
        let ch = text.get_char(i);
        let d: i64 = if '0' <= ch && ch <= '9' { (ch as u32 - '0' as u32) as i64 } else { 0 };
        proof {
            let pre = text@.subrange(0, i as int);
            let s = text@.subrange(0, i + 1);
            assert(s.drop_last() =~= pre);
            assert(s.last() == ch);
            assert(d == digit_value(ch));
            lemma_literal_value_nonneg(pre);
            let x = literal_value(pre);
            assert(x * 10 + d >= x) by (nonlinear_arith)
                requires
                    x >= 0,
                    d >= 0,
            ;
            assert(value * 10 <= 0x8000_0000 * 10) by (nonlinear_arith)
                requires
                    value <= 0x8000_0000,
            ;
        }
        value = value * 10 + d;
        if value > limit {
            value = limit;
        }
        i = i + 1;
    }
    assert(text@.subrange(0, n as int) =~= text@);
    if value >= limit {
        None
    } else {
        Some(value as i32)
    }
}

proof fn lemma_literal_value_nonneg(s: Seq<char>)
    ensures
        literal_value(s) >= 0,
    decreases s.len(),
{
    if s.len() > 0 {
        lemma_literal_value_nonneg(s.drop_last());
    }
}

/// Appending a statement that stands where the others end extends their span by its own.
proof fn lemma_stmts_span_push(ts: Seq<Tok>, i: int, ss: Seq<Statement>, s: Statement)
    requires
        stmts_span(ts, i, ss) >= 0,
    ensures
        stmts_span(ts, i, ss.push(s)) == stmt_span(ts, stmts_span(ts, i, ss), s),
    decreases ss.len(),
{
    if ss.len() > 0 {
        let j = stmt_span(ts, i, ss[0]);
        assert(ss.push(s)[0] == ss[0]);
        assert(ss.push(s).drop_first() =~= ss.drop_first().push(s));
        lemma_stmts_span_push(ts, j, ss.drop_first(), s);
    } else {
        assert(ss.push(s).drop_first() =~= Seq::<Statement>::empty());
        let j = stmt_span(ts, i, s);
        if j >= 0 {
            assert(stmts_span(ts, j, Seq::<Statement>::empty()) == j);
        }
    }
}

/// The kinds that can open a statement.
pub open spec fn starts_statement(t: TokenType) -> bool {
    t == TokenType::Ident || t == TokenType::If || t == TokenType::Repeat || t == TokenType::Read || t == TokenType::Write
}

/// The kinds that close a block.
pub open spec fn is_block_end(t: TokenType) -> bool {
    t == TokenType::End || t == TokenType::Until
}

/// No statement stands at token `i`.
pub open spec fn no_statement_at(ts: Seq<Tok>, i: int) -> bool {
    forall|s: Statement| #[trigger] stmt_span(ts, i, s) < 0
}

/// Some statements stand at token `i`, followed by the close of a block.
pub open spec fn block_at(ts: Seq<Tok>, i: int) -> bool {
    exists|ss: Seq<Statement>| #[trigger] stmts_span(ts, i, ss) >= 0 && is_block_end(tok(ts, stmts_span(ts, i, ss)).0)
}

/// Some statements stand at token `i`, followed by the end of input.
pub open spec fn program_at(ts: Seq<Tok>, i: int) -> bool {
    exists|ss: Seq<Statement>| #[trigger] stmts_span(ts, i, ss) >= 0 && tok(ts, stmts_span(ts, i, ss)).0 == TokenType::Eof
}

proof fn lemma_stmt_start(ts: Seq<Tok>, i: int, s: Statement)
    requires
        stmt_span(ts, i, s) >= 0,
    ensures
        starts_statement(tok(ts, i).0),
{
}

/// Two expressions at the same token end at the same token, where neither is followed by an
/// operator, or the first is an infix one.
proof fn lemma_expr_unique(ts: Seq<Tok>, i: int, e1: Expression, e2: Expression)
    requires
        expr_span(ts, i, e1) >= 0,
        expr_span(ts, i, e2) >= 0,
        !(e1 is Infix) ==> !is_operator(tok(ts, expr_span(ts, i, e1)).0),
        !is_operator(tok(ts, expr_span(ts, i, e2)).0),
    ensures
        expr_span(ts, i, e1) == expr_span(ts, i, e2),
{
}

/// The grammar is deterministic: two statements at the same token end at the same token.
proof fn lemma_stmt_unique(ts: Seq<Tok>, i: int, s1: Statement, s2: Statement)
    requires
        stmt_span(ts, i, s1) >= 0,
        stmt_span(ts, i, s2) >= 0,
    ensures
        stmt_span(ts, i, s1) == stmt_span(ts, i, s2),
    decreases s1,
{
    match s1 {
        Statement::Assign(a1) => {
            if let Statement::Assign(a2) = s2 {
                lemma_expr_unique(ts, i + 2, a1.value, a2.value);
            }
        },
        Statement::If(x1) => {
            if let Statement::If(x2) = s2 {
                lemma_expr_unique(ts, i + 1, x1.cond, x2.cond);
                let j = expr_span(ts, i + 1, x1.cond);
                lemma_block_unique(ts, j + 1, x1.consequence.statements@, x2.consequence.statements@);
            }
        },
        Statement::Repeat(x1) => {
            if let Statement::Repeat(x2) = s2 {
                lemma_block_unique(ts, i + 1, x1.consequence.statements@, x2.consequence.statements@);
                let k = stmts_span(ts, i + 1, x1.consequence.statements@);
                lemma_expr_unique(ts, k + 1, x1.cond, x2.cond);
            }
        },
        _ => {},
    }
}

/// Two statement lists at the same token, each followed by the close of a block, end at the
/// same token.
proof fn lemma_block_unique(ts: Seq<Tok>, i: int, ss1: Seq<Statement>, ss2: Seq<Statement>)
    requires
        stmts_span(ts, i, ss1) >= 0,
        stmts_span(ts, i, ss2) >= 0,
        is_block_end(tok(ts, stmts_span(ts, i, ss1)).0) || tok(ts, stmts_span(ts, i, ss1)).0 == TokenType::Eof,
        is_block_end(tok(ts, stmts_span(ts, i, ss2)).0) || tok(ts, stmts_span(ts, i, ss2)).0 == TokenType::Eof,
    ensures
        stmts_span(ts, i, ss1) == stmts_span(ts, i, ss2),
    decreases ss1,
{
    if ss1.len() == 0 {
        if ss2.len() > 0 {
            lemma_stmt_start(ts, i, ss2[0]);
        }
    } else if ss2.len() == 0 {
        lemma_stmt_start(ts, i, ss1[0]);
    } else {
        lemma_stmt_unique(ts, i, ss1[0], ss2[0]);
        let j = stmt_span(ts, i, ss1[0]);
        lemma_block_unique(ts, j, ss1.drop_first(), ss2.drop_first());
    }
}

/// Where a statement `s` stands at `i` and statements closed by the end of a block (or of the
/// input) stand there too, the rest of them stand where `s` ends.
proof fn lemma_block_after_stmt(ts: Seq<Tok>, i: int, s: Statement, ss: Seq<Statement>)
    requires
        stmt_span(ts, i, s) >= 0,
        stmts_span(ts, i, ss) >= 0,
        is_block_end(tok(ts, stmts_span(ts, i, ss)).0) || tok(ts, stmts_span(ts, i, ss)).0 == TokenType::Eof,
    ensures
        ss.len() > 0,
        stmts_span(ts, stmt_span(ts, i, s), ss.drop_first()) == stmts_span(ts, i, ss),
{
    lemma_stmt_start(ts, i, s);
    if ss.len() > 0 {
        lemma_stmt_unique(ts, i, s, ss[0]);
    }
}

} // verus!
