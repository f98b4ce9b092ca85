//! The syntax tree.
use vstd::prelude::*;

verus! {

/// A statement.
#[derive(Debug)]
pub enum Statement {
    Let(String, Expression),
    FnDecl(String, Vec<String>, Expression),
    While(Expression, Expression),
    Expr(Expression),
}

/// An expression.
#[derive(Debug)]
pub enum Expression {
    /// A number, by the bit pattern of its IEEE-754 binary64 value.
    Number(u64),
    String(String),
    Boolean(bool),
    Identifier(String),
    BinaryOp(String, Box<Expression>, Box<Expression>),
    Block(Vec<Statement>, Option<Box<Expression>>),
    Call(String, Vec<Expression>),
    If(Box<Expression>, Box<Expression>, Box<Expression>),
}

/// The mathematical form of a statement.
pub enum SStmt {
    Let(Seq<char>, SExpr),
    FnDecl(Seq<char>, Seq<Seq<char>>, SExpr),
    While(SExpr, SExpr),
    Expr(SExpr),
}

/// The mathematical form of an expression.
pub enum SExpr {
    Number(u64),
    Str(Seq<char>),
    Boolean(bool),
    Identifier(Seq<char>),
    BinaryOp(Seq<char>, Box<SExpr>, Box<SExpr>),
    Block(Seq<SStmt>, Option<Box<SExpr>>),
    Call(Seq<char>, Seq<SExpr>),
    If(Box<SExpr>, Box<SExpr>, Box<SExpr>),
}

pub open spec fn expr_view(e: Expression) -> SExpr
    decreases e,
{
    match e {
        Expression::Number(n) => SExpr::Number(n),
        Expression::String(s) => SExpr::Str(s@),
        Expression::Boolean(b) => SExpr::Boolean(b),
        Expression::Identifier(s) => SExpr::Identifier(s@),
        Expression::BinaryOp(op, l, r) => SExpr::BinaryOp(
            op@,
            Box::new(expr_view(*l)),
            Box::new(expr_view(*r)),
        ),
        Expression::Block(ss, t) => SExpr::Block(
            Seq::new(
                ss@.len(),
                |i: int|
                    if 0 <= i < ss@.len() {
                        stmt_view(ss@[i])
                    } else {
                        SStmt::Expr(SExpr::Number(0))
                    },
            ),
            match t {
                Some(b) => Some(Box::new(expr_view(*b))),
                None => None,
            },
        ),
        Expression::Call(f, args) => SExpr::Call(
            f@,
            Seq::new(
                args@.len(),
                |i: int|
                    if 0 <= i < args@.len() {
                        expr_view(args@[i])
                    } else {
                        SExpr::Number(0)
                    },
            ),
        ),
        Expression::If(c, t, e) => SExpr::If(
            Box::new(expr_view(*c)),
            Box::new(expr_view(*t)),
            Box::new(expr_view(*e)),
        ),
    }
}

pub open spec fn stmt_view(s: Statement) -> SStmt
    decreases s,
{
    match s {
        Statement::Let(n, e) => SStmt::Let(n@, expr_view(e)),
        Statement::FnDecl(n, ps, b) => SStmt::FnDecl(
            n@,
            ps@.map_values(|p: String| p@),
            expr_view(b),
        ),
        Statement::While(c, b) => SStmt::While(expr_view(c), expr_view(b)),
        Statement::Expr(e) => SStmt::Expr(expr_view(e)),
    }
}

/// The view of a sequence of statements.
pub open spec fn stmts_view(v: Seq<Statement>) -> Seq<SStmt> {
    v.map_values(|s: Statement| stmt_view(s))
}

/// The view of a sequence of expressions.
pub open spec fn exprs_view(v: Seq<Expression>) -> Seq<SExpr> {
    v.map_values(|e: Expression| expr_view(e))
}

pub proof fn lemma_call_view(f: String, v: Vec<Expression>)
    ensures
        expr_view(Expression::Call(f, v)) == SExpr::Call(f@, exprs_view(v@)),
{
    assert(expr_view(Expression::Call(f, v))->Call_1 =~= exprs_view(v@));
}

pub proof fn lemma_block_view(v: Vec<Statement>, t: Option<Box<Expression>>)
    ensures
        expr_view(Expression::Block(v, t)) == SExpr::Block(
            stmts_view(v@),
            match t {
                Some(b) => Some(Box::new(expr_view(*b))),
                None => None,
            },
        ),
{
    assert(expr_view(Expression::Block(v, t))->Block_0 =~= stmts_view(v@));
}

impl View for Expression {
    type V = SExpr;

    open spec fn view(&self) -> SExpr {
        expr_view(*self)
    }
}

impl View for Statement {
    type V = SStmt;

    open spec fn view(&self) -> SStmt {
        stmt_view(*self)
    }
}

} // verus!
