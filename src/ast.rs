//! The syntax tree: a closed set of statement and expression forms, each node owned by its parent.
use vstd::prelude::*;
use crate::token::Token;

verus! {

/// The form of a node.
#[derive(Debug, Clone, Copy, PartialEq, Eq, Structural)]
pub enum NodeType {
    Program,
    AssignStatement,
    IfStatement,
    RepeatStatement,
    BlockStatement,
    ReadStatement,
    WriteStatement,
    InfixExpression,
    Identifier,
    Number,
}

/// A compilation unit: statements in source order.
#[derive(Debug)]
pub struct Program {
    pub statements: Vec<Statement>,
}

impl Program {
    pub fn new() -> (r: Program)
        ensures
            r.statements@.len() == 0,
    {
        Program { statements: Vec::new() }
    }
}

/// The body of an `if` or a `repeat`: statements in source order.
#[derive(Debug)]
pub struct BlockStatement {
    pub statements: Vec<Statement>,
}

/// `name := value;`
#[derive(Debug)]
pub struct AssignStatement {
    pub name: Identifier,
    pub value: Expression,
}

/// `read name;`
#[derive(Debug)]
pub struct ReadStatement {
    pub name: Identifier,
}

/// `write name;`
#[derive(Debug)]
pub struct WriteStatement {
    pub name: Identifier,
}

/// `if cond then consequence end`
#[derive(Debug)]
pub struct IfStatement {
    pub cond: Expression,
    pub consequence: BlockStatement,
}

/// `repeat consequence until cond;`
#[derive(Debug)]
pub struct RepeatStatement {
    pub cond: Expression,
    pub consequence: BlockStatement,
}

/// `left op right`
#[derive(Debug)]
pub struct InfixExpression {
    pub op: Token,
    pub left: Box<Expression>,
    pub right: Box<Expression>,
}

/// A reference to a variable.
#[derive(Debug)]
pub struct Identifier {
    pub value: String,
}

/// An integer literal.
#[derive(Debug)]
pub struct Number {
    pub value: i32,
}

/// A statement.
#[derive(Debug)]
pub enum Statement {
    Assign(AssignStatement),
    If(IfStatement),
    Repeat(RepeatStatement),
    Read(ReadStatement),
    Write(WriteStatement),
    Block(BlockStatement),
}

/// An expression.
#[derive(Debug)]
pub enum Expression {
    Infix(InfixExpression),
    Identifier(Identifier),
    Number(Number),
}

/// Any node of a syntax tree: a whole program, a statement or an expression.
#[derive(Debug)]
pub enum Node {
    Program(Program),
    Statement(Statement),
    Expression(Expression),
}

/// The form of a node.
pub open spec fn kind_of(n: Node) -> NodeType {
    match n {
        Node::Program(_) => NodeType::Program,
        Node::Statement(s) => match s {
            Statement::Assign(_) => NodeType::AssignStatement,
            Statement::If(_) => NodeType::IfStatement,
            Statement::Repeat(_) => NodeType::RepeatStatement,
            Statement::Read(_) => NodeType::ReadStatement,
            Statement::Write(_) => NodeType::WriteStatement,
            Statement::Block(_) => NodeType::BlockStatement,
        },
        Node::Expression(e) => match e {
            Expression::Infix(_) => NodeType::InfixExpression,
            Expression::Identifier(_) => NodeType::Identifier,
            Expression::Number(_) => NodeType::Number,
        },
    }
}

impl Node {
    /// The form of this node.
    pub fn node_type(&self) -> (r: NodeType)
        ensures
            r == kind_of(*self),
    {
        match self {
            Node::Program(_) => NodeType::Program,
            Node::Statement(s) => match s {
                Statement::Assign(_) => NodeType::AssignStatement,
                Statement::If(_) => NodeType::IfStatement,
                Statement::Repeat(_) => NodeType::RepeatStatement,
                Statement::Read(_) => NodeType::ReadStatement,
                Statement::Write(_) => NodeType::WriteStatement,
                Statement::Block(_) => NodeType::BlockStatement,
            },
            Node::Expression(e) => match e {
                Expression::Infix(_) => NodeType::InfixExpression,
                Expression::Identifier(_) => NodeType::Identifier,
                Expression::Number(_) => NodeType::Number,
            },
        }
    }
}

} // verus!
