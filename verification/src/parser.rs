//! The parser: tokens to a syntax tree, by recursive descent.
//!
//! Grammar, from the loosest binding to the tightest:
//! a pipeline `e |> f(a, ...)` (rewritten to the call `f(e, a, ...)`), one
//! optional comparison, `+` and `-`, `*` `/` and `%`, then primaries: literals,
//! identifiers, calls, blocks, parenthesised expressions and `if`.
use vstd::prelude::*;
use crate::ast::{exprs_view, expr_view, stmt_view, stmts_view, Expression, SExpr, SStmt, Statement};
use crate::codegen::names_view;
use crate::lexer::{symbol, tokens_view, KindView, Token, TokenKind, TokenView};

verus! {

/// A token kind without its contents.
#[derive(Debug, Clone, Copy, PartialEq, Eq, Structural)]
pub enum Tag {
    Let,
    Fn,
    While,
    If,
    Else,
    True,
    False,
    Identifier,
    Number,
    Str,
    Plus,
    Minus,
    Asterisk,
    Slash,
    Percent,
    Assign,
    Eq,
    Ne,
    Lt,
    Gt,
    Le,
    Ge,
    Pipeline,
    LParen,
    RParen,
    LBrace,
    RBrace,
    Comma,
    Semicolon,
    EOF,
}

pub open spec fn tag_of(k: KindView) -> Tag {
    match k {
        KindView::Let => Tag::Let,
        KindView::Fn => Tag::Fn,
        KindView::While => Tag::While,
        KindView::If => Tag::If,
        KindView::Else => Tag::Else,
        KindView::True => Tag::True,
        KindView::False => Tag::False,
        KindView::Identifier(_) => Tag::Identifier,
        KindView::Number(_) => Tag::Number,
        KindView::Str(_) => Tag::Str,
        KindView::Plus => Tag::Plus,
        KindView::Minus => Tag::Minus,
        KindView::Asterisk => Tag::Asterisk,
        KindView::Slash => Tag::Slash,
        KindView::Percent => Tag::Percent,
        KindView::Assign => Tag::Assign,
        KindView::Eq => Tag::Eq,
        KindView::Ne => Tag::Ne,
        KindView::Lt => Tag::Lt,
        KindView::Gt => Tag::Gt,
        KindView::Le => Tag::Le,
        KindView::Ge => Tag::Ge,
        KindView::Pipeline => Tag::Pipeline,
        KindView::LParen => Tag::LParen,
        KindView::RParen => Tag::RParen,
        KindView::LBrace => Tag::LBrace,
        KindView::RBrace => Tag::RBrace,
        KindView::Comma => Tag::Comma,
        KindView::Semicolon => Tag::Semicolon,
        KindView::EOF => Tag::EOF,
    }
}

/// What the parser expected where it found another token.
#[derive(Debug, Clone, Copy, PartialEq, Eq, Structural)]
pub enum Expectation {
    LetKeyword,
    VariableName,
    Assign,
    SemicolonAfterLet,
    FnKeyword,
    FunctionName,
    LParenAfterFunctionName,
    ParameterName,
    RParenAfterParameters,
    WhileKeyword,
    SemicolonAfterExpression,
    FunctionAfterPipeline,
    LParenAfterPipelinedFunction,
    RParenAfterPipelinedArguments,
    LParen,
    RParen,
    LBrace,
    RBrace,
    IfKeyword,
    ElseKeyword,
}

/// A parse error, with the token where it was found.
#[derive(Debug, Clone)]
pub enum ParseError {
    /// The token is not the one expected.
    Expected(Expectation, Token),
    /// The token cannot start an expression.
    UnexpectedToken(Token),
    /// An expression in a block is followed neither by `;` nor by `}`.
    MissingSemicolon(Token),
}

pub enum ParseErrorView {
    Expected(Expectation, TokenView),
    UnexpectedToken(TokenView),
    MissingSemicolon(TokenView),
}

impl View for ParseError {
    type V = ParseErrorView;

    open spec fn view(&self) -> ParseErrorView {
        match self {
            ParseError::Expected(x, t) => ParseErrorView::Expected(*x, t@),
            ParseError::UnexpectedToken(t) => ParseErrorView::UnexpectedToken(t@),
            ParseError::MissingSemicolon(t) => ParseErrorView::MissingSemicolon(t@),
        }
    }
}

// ---------------------------------------------------------------------------
// The grammar
// ---------------------------------------------------------------------------

/// The result of parsing from a position: a value and the next position.
pub type Parsed<T> = Result<(T, int), ParseErrorView>;

/// The token at `q`; past the end, the last token.
pub open spec fn tk(ts: Seq<TokenView>, q: int) -> TokenView {
    if 0 <= q < ts.len() {
        ts[q]
    } else {
        ts.last()
    }
}

/// The kind of the token at `q`; past the end, the end of input.
pub open spec fn kind_at(ts: Seq<TokenView>, q: int) -> KindView {
    if 0 <= q < ts.len() {
        ts[q].kind
    } else {
        KindView::EOF
    }
}

pub open spec fn is_at(ts: Seq<TokenView>, q: int, t: Tag) -> bool {
    tag_of(kind_at(ts, q)) == t
}

pub open spec fn expected<T>(x: Expectation, ts: Seq<TokenView>, q: int) -> Parsed<T> {
    Err(ParseErrorView::Expected(x, tk(ts, q)))
}

/// The operator text of a comparison token.
pub open spec fn comparison_op(t: Tag) -> Option<Seq<char>> {
    match t {
        Tag::Eq => Some("=="@),
        Tag::Ne => Some("!="@),
        Tag::Lt => Some("<"@),
        Tag::Gt => Some(">"@),
        Tag::Le => Some("<="@),
        Tag::Ge => Some(">="@),
        _ => None,
    }
}

/// Law: the operator text that the parser gives an operator token is the
/// source text of the token. Wherever the lexer reads an operator token from
/// `s[i..i + n]`, a comparison, additive or multiplicative operator made of
/// that token has exactly the text `s[i..i + n]`.
pub proof fn law_operator_text_is_source(s: Seq<char>, i: int)
    requires
        0 <= i < s.len(),
    ensures
        symbol(s, i) matches Some((k, n)) ==> {
            &&& comparison_op(tag_of(k)) matches Some(op) ==> op == s.subrange(i, i + n)
            &&& additive_op(tag_of(k)) matches Some(op) ==> op == s.subrange(i, i + n)
            &&& multiplicative_op(tag_of(k)) matches Some(op) ==> op == s.subrange(i, i + n)
        },
{
    reveal_strlit("==");
    reveal_strlit("!=");
    reveal_strlit("<");
    reveal_strlit(">");
    reveal_strlit("<=");
    reveal_strlit(">=");
    reveal_strlit("+");
    reveal_strlit("-");
    reveal_strlit("*");
    reveal_strlit("/");
    reveal_strlit("%");
    if let Some((k, n)) = symbol(s, i) {
        let t = s.subrange(i, i + n);
        if n == 1 {
            assert(t =~= seq![s[i]]);
        } else {
            assert(t =~= seq![s[i], s[i + 1]]);
        }
        if let Some(op) = comparison_op(tag_of(k)) {
            assert(op =~= t);
        }
        if let Some(op) = additive_op(tag_of(k)) {
            assert(op =~= t);
        }
        if let Some(op) = multiplicative_op(tag_of(k)) {
            assert(op =~= t);
        }
    }
}

pub open spec fn additive_op(t: Tag) -> Option<Seq<char>> {
    match t {
        Tag::Plus => Some("+"@),
        Tag::Minus => Some("-"@),
        _ => None,
    }
}

pub open spec fn multiplicative_op(t: Tag) -> Option<Seq<char>> {
    match t {
        Tag::Asterisk => Some("*"@),
        Tag::Slash => Some("/"@),
        Tag::Percent => Some("%"@),
        _ => None,
    }
}

pub open spec fn binary(op: Seq<char>, l: SExpr, r: SExpr) -> SExpr {
    SExpr::BinaryOp(op, Box::new(l), Box::new(r))
}

/// A statement.
pub open spec fn statement(ts: Seq<TokenView>, p: int) -> Parsed<SStmt>
    decreases ts.len() - p, 10int,
{
    if !(0 <= p <= ts.len()) {
        expected(Expectation::LetKeyword, ts, p)
    } else if is_at(ts, p, Tag::Let) {
        variable_decl(ts, p)
    } else if is_at(ts, p, Tag::Fn) {
        function_decl(ts, p)
    } else if is_at(ts, p, Tag::While) {
        while_loop(ts, p)
    } else {
        expression_stmt(ts, p)
    }
}

/// `let name = expression ;`
pub open spec fn variable_decl(ts: Seq<TokenView>, p: int) -> Parsed<SStmt>
    decreases ts.len() - p, 9int,
{
    if !(0 <= p <= ts.len()) || !is_at(ts, p, Tag::Let) {
        expected(Expectation::LetKeyword, ts, p)
    } else if !is_at(ts, p + 1, Tag::Identifier) {
        expected(Expectation::VariableName, ts, p + 1)
    } else if !is_at(ts, p + 2, Tag::Assign) {
        expected(Expectation::Assign, ts, p + 2)
    } else {
        let name = kind_at(ts, p + 1)->Identifier_0;
        match expression(ts, p + 3) {
            Err(e) => Err(e),
            Ok((e, q)) => if !(p + 3 <= q <= ts.len()) {
                expected(Expectation::LetKeyword, ts, q)
            } else if !is_at(ts, q, Tag::Semicolon) {
                expected(Expectation::SemicolonAfterLet, ts, q)
            } else {
                Ok((SStmt::Let(name, e), q + 1))
            },
        }
    }
}

/// Parameter names separated by commas, from `p`.
pub open spec fn parameters(ts: Seq<TokenView>, p: int) -> Parsed<Seq<Seq<char>>>
    decreases ts.len() - p, 0int,
{
    if !(0 <= p <= ts.len()) || !is_at(ts, p, Tag::Identifier) {
        expected(Expectation::ParameterName, ts, p)
    } else {
        let name = kind_at(ts, p)->Identifier_0;
        if is_at(ts, p + 1, Tag::Comma) {
            match parameters(ts, p + 2) {
                Err(e) => Err(e),
                Ok((rest, q)) => Ok((seq![name] + rest, q)),
            }
        } else {
            Ok((seq![name], p + 1))
        }
    }
}

/// `fn name ( parameters ) block`
pub open spec fn function_decl(ts: Seq<TokenView>, p: int) -> Parsed<SStmt>
    decreases ts.len() - p, 9int,
{
    if !(0 <= p <= ts.len()) || !is_at(ts, p, Tag::Fn) {
        expected(Expectation::FnKeyword, ts, p)
    } else if !is_at(ts, p + 1, Tag::Identifier) {
        expected(Expectation::FunctionName, ts, p + 1)
    } else if !is_at(ts, p + 2, Tag::LParen) {
        expected(Expectation::LParenAfterFunctionName, ts, p + 2)
    } else {
        let name = kind_at(ts, p + 1)->Identifier_0;
        let params: Parsed<Seq<Seq<char>>> = if is_at(ts, p + 3, Tag::RParen) {
            Ok((Seq::empty(), p + 3))
        } else {
            parameters(ts, p + 3)
        };
        match params {
            Err(e) => Err(e),
            Ok((ps, q)) => if !(p + 3 <= q <= ts.len()) {
                expected(Expectation::FnKeyword, ts, q)
            } else if !is_at(ts, q, Tag::RParen) {
                expected(Expectation::RParenAfterParameters, ts, q)
            } else {
                match block(ts, q + 1) {
                    Err(e) => Err(e),
                    Ok((b, r)) => Ok((SStmt::FnDecl(name, ps, b), r)),
                }
            },
        }
    }
}

/// `while expression block`
pub open spec fn while_loop(ts: Seq<TokenView>, p: int) -> Parsed<SStmt>
    decreases ts.len() - p, 9int,
{
    if !(0 <= p <= ts.len()) || !is_at(ts, p, Tag::While) {
        expected(Expectation::WhileKeyword, ts, p)
    } else {
        match expression(ts, p + 1) {
            Err(e) => Err(e),
            Ok((c, q)) => if !(p + 1 <= q <= ts.len()) {
                expected(Expectation::WhileKeyword, ts, q)
            } else {
                match block(ts, q) {
                    Err(e) => Err(e),
                    Ok((b, r)) => Ok((SStmt::While(c, b), r)),
                }
            },
        }
    }
}

/// `expression ;`
pub open spec fn expression_stmt(ts: Seq<TokenView>, p: int) -> Parsed<SStmt>
    decreases ts.len() - p, 9int,
{
    if !(0 <= p <= ts.len()) {
        expected(Expectation::SemicolonAfterExpression, ts, p)
    } else {
        match expression(ts, p) {
            Err(e) => Err(e),
            Ok((e, q)) => if !(p <= q <= ts.len()) {
                expected(Expectation::SemicolonAfterExpression, ts, q)
            } else if !is_at(ts, q, Tag::Semicolon) {
                expected(Expectation::SemicolonAfterExpression, ts, q)
            } else {
                Ok((SStmt::Expr(e), q + 1))
            },
        }
    }
}

/// An expression.
pub open spec fn expression(ts: Seq<TokenView>, p: int) -> Parsed<SExpr>
    decreases ts.len() - p, 8int,
{
    pipeline(ts, p)
}

/// A comparison followed by any number of `|> f(args)`.
pub open spec fn pipeline(ts: Seq<TokenView>, p: int) -> Parsed<SExpr>
    decreases ts.len() - p, 7int,
{
    if !(0 <= p <= ts.len()) {
        expected(Expectation::FunctionAfterPipeline, ts, p)
    } else {
        match comparison(ts, p) {
            Err(e) => Err(e),
            Ok((e, q)) => if !(p <= q <= ts.len()) {
                Ok((e, q))
            } else {
                pipeline_rest(ts, e, q)
            },
        }
    }
}

/// The pipeline stages after the expression `e`, from `p`.
pub open spec fn pipeline_rest(ts: Seq<TokenView>, e: SExpr, p: int) -> Parsed<SExpr>
    decreases ts.len() - p, 6int,
{
    if !(0 <= p <= ts.len()) || !is_at(ts, p, Tag::Pipeline) {
        Ok((e, p))
    } else if !is_at(ts, p + 1, Tag::Identifier) {
        expected(Expectation::FunctionAfterPipeline, ts, p + 1)
    } else if !is_at(ts, p + 2, Tag::LParen) {
        expected(Expectation::LParenAfterPipelinedFunction, ts, p + 2)
    } else {
        let f = kind_at(ts, p + 1)->Identifier_0;
        let args: Parsed<Seq<SExpr>> = if is_at(ts, p + 3, Tag::RParen) {
            Ok((Seq::empty(), p + 3))
        } else {
            arguments(ts, p + 3)
        };
        match args {
            Err(x) => Err(x),
            Ok((xs, q)) => if !(p + 3 <= q <= ts.len()) {
                Ok((e, q))
            } else if !is_at(ts, q, Tag::RParen) {
                expected(Expectation::RParenAfterPipelinedArguments, ts, q)
            } else {
                pipeline_rest(ts, SExpr::Call(f, seq![e] + xs), q + 1)
            },
        }
    }
}

/// Expressions separated by commas, from `p`.
pub open spec fn arguments(ts: Seq<TokenView>, p: int) -> Parsed<Seq<SExpr>>
    decreases ts.len() - p, 9int,
{
    if !(0 <= p <= ts.len()) {
        expected(Expectation::RParen, ts, p)
    } else {
        match expression(ts, p) {
            Err(x) => Err(x),
            Ok((e, q)) => if !(p <= q <= ts.len()) {
                Ok((seq![e], q))
            } else if is_at(ts, q, Tag::Comma) {
                match arguments(ts, q + 1) {
                    Err(x) => Err(x),
                    Ok((rest, r)) => Ok((seq![e] + rest, r)),
                }
            } else {
                Ok((seq![e], q))
            },
        }
    }
}

/// Sums, optionally compared with one comparison operator.
pub open spec fn comparison(ts: Seq<TokenView>, p: int) -> Parsed<SExpr>
    decreases ts.len() - p, 6int,
{
    if !(0 <= p <= ts.len()) {
        expected(Expectation::RParen, ts, p)
    } else {
        match additive(ts, p) {
            Err(x) => Err(x),
            Ok((e, q)) => if !(p <= q <= ts.len()) {
                Ok((e, q))
            } else {
                match comparison_op(tag_of(kind_at(ts, q))) {
                    None => Ok((e, q)),
                    Some(op) => match additive(ts, q + 1) {
                        Err(x) => Err(x),
                        Ok((r, q2)) => Ok((binary(op, e, r), q2)),
                    },
                }
            },
        }
    }
}

/// Products joined by `+` and `-`, from the left.
pub open spec fn additive(ts: Seq<TokenView>, p: int) -> Parsed<SExpr>
    decreases ts.len() - p, 5int,
{
    if !(0 <= p <= ts.len()) {
        expected(Expectation::RParen, ts, p)
    } else {
        match multiplicative(ts, p) {
            Err(x) => Err(x),
            Ok((e, q)) => if !(p <= q <= ts.len()) {
                Ok((e, q))
            } else {
                additive_rest(ts, e, q)
            },
        }
    }
}

pub open spec fn additive_rest(ts: Seq<TokenView>, e: SExpr, p: int) -> Parsed<SExpr>
    decreases ts.len() - p, 4int,
{
    if !(0 <= p <= ts.len()) {
        Ok((e, p))
    } else {
        match additive_op(tag_of(kind_at(ts, p))) {
            None => Ok((e, p)),
            Some(op) => match multiplicative(ts, p + 1) {
                Err(x) => Err(x),
                Ok((r, q)) => if !(p + 1 <= q <= ts.len()) {
                    Ok((e, q))
                } else {
                    additive_rest(ts, binary(op, e, r), q)
                },
            },
        }
    }
}

/// Primaries joined by `*`, `/` and `%`, from the left.
pub open spec fn multiplicative(ts: Seq<TokenView>, p: int) -> Parsed<SExpr>
    decreases ts.len() - p, 4int,
{
    if !(0 <= p <= ts.len()) {
        expected(Expectation::RParen, ts, p)
    } else {
        match primary(ts, p) {
            Err(x) => Err(x),
            Ok((e, q)) => if !(p <= q <= ts.len()) {
                Ok((e, q))
            } else {
                multiplicative_rest(ts, e, q)
            },
        }
    }
}

pub open spec fn multiplicative_rest(ts: Seq<TokenView>, e: SExpr, p: int) -> Parsed<SExpr>
    decreases ts.len() - p, 3int,
{
    if !(0 <= p <= ts.len()) {
        Ok((e, p))
    } else {
        match multiplicative_op(tag_of(kind_at(ts, p))) {
            None => Ok((e, p)),
            Some(op) => match primary(ts, p + 1) {
                Err(x) => Err(x),
                Ok((r, q)) => if !(p + 1 <= q <= ts.len()) {
                    Ok((e, q))
                } else {
                    multiplicative_rest(ts, binary(op, e, r), q)
                },
            },
        }
    }
}

/// A literal, an identifier, a call, a block, a parenthesised expression or
/// an `if` expression.
pub open spec fn primary(ts: Seq<TokenView>, p: int) -> Parsed<SExpr>
    decreases ts.len() - p, 3int,
{
    if !(0 <= p <= ts.len()) {
        Err(ParseErrorView::UnexpectedToken(tk(ts, p)))
    } else {
        match kind_at(ts, p) {
            KindView::Number(v) => Ok((SExpr::Number(v), p + 1)),
            KindView::Str(s) => Ok((SExpr::Str(s), p + 1)),
            KindView::True => Ok((SExpr::Boolean(true), p + 1)),
            KindView::False => Ok((SExpr::Boolean(false), p + 1)),
            KindView::Identifier(name) => if is_at(ts, p + 1, Tag::LParen) {
                let args: Parsed<Seq<SExpr>> = if is_at(ts, p + 2, Tag::RParen) {
                    Ok((Seq::empty(), p + 2))
                } else {
                    arguments(ts, p + 2)
                };
                match args {
                    Err(x) => Err(x),
                    Ok((xs, q)) => if !is_at(ts, q, Tag::RParen) {
                        expected(Expectation::RParen, ts, q)
                    } else {
                        Ok((SExpr::Call(name, xs), q + 1))
                    },
                }
            } else {
                Ok((SExpr::Identifier(name), p + 1))
            },
            KindView::LBrace => block(ts, p),
            KindView::LParen => match expression(ts, p + 1) {
                Err(x) => Err(x),
                Ok((e, q)) => if !is_at(ts, q, Tag::RParen) {
                    expected(Expectation::RParen, ts, q)
                } else {
                    Ok((e, q + 1))
                },
            },
            KindView::If => if_expression(ts, p),
            _ => Err(ParseErrorView::UnexpectedToken(tk(ts, p))),
        }
    }
}

/// The contents of a block from `p`: statements, and an optional trailing
/// expression, up to the closing brace (which is not read).
pub open spec fn block_items(ts: Seq<TokenView>, p: int) -> Parsed<(Seq<SStmt>, Option<SExpr>)>
    decreases ts.len() - p, 11int,
{
    if !(0 <= p <= ts.len()) || is_at(ts, p, Tag::RBrace) {
        Ok(((Seq::empty(), None), p))
    } else if is_at(ts, p, Tag::Let) || is_at(ts, p, Tag::Fn) || is_at(ts, p, Tag::While) {
        match statement(ts, p) {
            Err(x) => Err(x),
            Ok((st, q)) => if !(p < q <= ts.len()) {
                Ok(((Seq::empty(), None), q))
            } else {
                match block_items(ts, q) {
                    Err(x) => Err(x),
                    Ok(((sts, t), r)) => Ok(((seq![st] + sts, t), r)),
                }
            },
        }
    } else {
        match expression(ts, p) {
            Err(x) => Err(x),
            Ok((e, q)) => if !(p <= q <= ts.len()) {
                Ok(((Seq::empty(), None), q))
            } else if is_at(ts, q, Tag::Semicolon) {
                match block_items(ts, q + 1) {
                    Err(x) => Err(x),
                    Ok(((sts, t), r)) => Ok(((seq![SStmt::Expr(e)] + sts, t), r)),
                }
            } else if is_at(ts, q, Tag::RBrace) {
                Ok(((Seq::empty(), Some(e)), q))
            } else {
                Err(ParseErrorView::MissingSemicolon(tk(ts, q)))
            },
        }
    }
}

/// `{ items }`
pub open spec fn block(ts: Seq<TokenView>, p: int) -> Parsed<SExpr>
    decreases ts.len() - p, 2int,
{
    if !(0 <= p <= ts.len()) || !is_at(ts, p, Tag::LBrace) {
        expected(Expectation::LBrace, ts, p)
    } else {
        match block_items(ts, p + 1) {
            Err(x) => Err(x),
            Ok(((sts, t), q)) => if !is_at(ts, q, Tag::RBrace) {
                expected(Expectation::RBrace, ts, q)
            } else {
                Ok((
                    SExpr::Block(
                        sts,
                        match t {
                            Some(x) => Some(Box::new(x)),
                            None => None,
                        },
                    ),
                    q + 1,
                ))
            },
        }
    }
}

/// `if expression block else block`, or `else if ...`.
pub open spec fn if_expression(ts: Seq<TokenView>, p: int) -> Parsed<SExpr>
    decreases ts.len() - p, 2int,
{
    if !(0 <= p <= ts.len()) || !is_at(ts, p, Tag::If) {
        expected(Expectation::IfKeyword, ts, p)
    } else {
        match expression(ts, p + 1) {
            Err(x) => Err(x),
            Ok((c, q)) => if !(p + 1 <= q <= ts.len()) {
                expected(Expectation::IfKeyword, ts, q)
            } else {
                match block(ts, q) {
                    Err(x) => Err(x),
                    Ok((t, q2)) => if !(q <= q2 <= ts.len()) {
                        expected(Expectation::IfKeyword, ts, q2)
                    } else if !is_at(ts, q2, Tag::Else) {
                        expected(Expectation::ElseKeyword, ts, q2)
                    } else {
                        let other = if is_at(ts, q2 + 1, Tag::If) {
                            if_expression(ts, q2 + 1)
                        } else {
                            block(ts, q2 + 1)
                        };
                        match other {
                            Err(x) => Err(x),
                            Ok((e, q3)) => Ok((
                                SExpr::If(Box::new(c), Box::new(t), Box::new(e)),
                                q3,
                            )),
                        }
                    },
                }
            },
        }
    }
}

/// The statements of a program from `p`, up to the end of input.
pub open spec fn program_from(ts: Seq<TokenView>, p: int) -> Result<Seq<SStmt>, ParseErrorView>
    decreases ts.len() - p,
{
    if !(0 <= p <= ts.len()) || is_at(ts, p, Tag::EOF) {
        Ok(Seq::empty())
    } else {
        match statement(ts, p) {
            Err(x) => Err(x),
            Ok((st, q)) => if !(p < q <= ts.len()) {
                Ok(Seq::empty())
            } else {
                match program_from(ts, q) {
                    Err(x) => Err(x),
                    Ok(rest) => Ok(seq![st] + rest),
                }
            },
        }
    }
}

// ---------------------------------------------------------------------------
// Forward progress, and the lowering of pipelines
// ---------------------------------------------------------------------------

/// A parse from `p` that succeeds ends after `p`, within the tokens.
pub open spec fn moves_on<T>(r: Parsed<T>, ts: Seq<TokenView>, p: int) -> bool {
    r matches Ok((_, q)) ==> p < q <= ts.len()
}

/// A parse from `p` that succeeds ends at `p` or after it, within the tokens.
pub open spec fn stays_or_moves<T>(r: Parsed<T>, ts: Seq<TokenView>, p: int) -> bool {
    r matches Ok((_, q)) ==> p <= q <= ts.len()
}

/// Law: a statement that parses ends after the position where it starts, and
/// within the tokens; the parser always moves forward.
pub proof fn lemma_statement_moves(ts: Seq<TokenView>, p: int)
    ensures
        moves_on(statement(ts, p), ts, p),
    decreases ts.len() - p, 10int,
{
    if 0 <= p <= ts.len() {
        if is_at(ts, p, Tag::Let) {
            lemma_variable_decl_moves(ts, p);
        } else if is_at(ts, p, Tag::Fn) {
            lemma_function_decl_moves(ts, p);
        } else if is_at(ts, p, Tag::While) {
            lemma_while_loop_moves(ts, p);
        } else {
            lemma_expression_stmt_moves(ts, p);
        }
    }
}

pub proof fn lemma_variable_decl_moves(ts: Seq<TokenView>, p: int)
    ensures
        moves_on(variable_decl(ts, p), ts, p),
    decreases ts.len() - p, 9int,
{
    if 0 <= p <= ts.len() && is_at(ts, p, Tag::Let) && is_at(ts, p + 1, Tag::Identifier) && is_at(
        ts,
        p + 2,
        Tag::Assign,
    ) {
        lemma_expression_moves(ts, p + 3);
        let r = expression(ts, p + 3);
        if let Ok((e, q)) = r {
            assert(p + 3 < q <= ts.len());
            if is_at(ts, q, Tag::Semicolon) {
                assert(q < ts.len());
            }
        }
    }
}

pub proof fn lemma_parameters_moves(ts: Seq<TokenView>, p: int)
    ensures
        moves_on(parameters(ts, p), ts, p),
    decreases ts.len() - p, 0int,
{
    if 0 <= p <= ts.len() && is_at(ts, p, Tag::Identifier) && is_at(ts, p + 1, Tag::Comma) {
        lemma_parameters_moves(ts, p + 2);
    }
}

pub proof fn lemma_function_decl_moves(ts: Seq<TokenView>, p: int)
    ensures
        moves_on(function_decl(ts, p), ts, p),
    decreases ts.len() - p, 9int,
{
    if 0 <= p <= ts.len() && is_at(ts, p, Tag::Fn) && is_at(ts, p + 1, Tag::Identifier) && is_at(
        ts,
        p + 2,
        Tag::LParen,
    ) {
        let params: Parsed<Seq<Seq<char>>> = if is_at(ts, p + 3, Tag::RParen) {
            Ok((Seq::empty(), p + 3))
        } else {
            lemma_parameters_moves(ts, p + 3);
            parameters(ts, p + 3)
        };
        if let Ok((ps, q)) = params {
            if p + 3 <= q <= ts.len() && is_at(ts, q, Tag::RParen) {
                lemma_block_moves(ts, q + 1);
            }
        }
    }
}

pub proof fn lemma_while_loop_moves(ts: Seq<TokenView>, p: int)
    ensures
        moves_on(while_loop(ts, p), ts, p),
    decreases ts.len() - p, 9int,
{
    if 0 <= p <= ts.len() && is_at(ts, p, Tag::While) {
        lemma_expression_moves(ts, p + 1);
        if let Ok((c, q)) = expression(ts, p + 1) {
            if p + 1 <= q <= ts.len() {
                lemma_block_moves(ts, q);
            }
        }
    }
}

pub proof fn lemma_expression_stmt_moves(ts: Seq<TokenView>, p: int)
    ensures
        moves_on(expression_stmt(ts, p), ts, p),
    decreases ts.len() - p, 9int,
{
    if 0 <= p <= ts.len() {
        lemma_expression_moves(ts, p);
        let r = expression(ts, p);
        if let Ok((e, q)) = r {
            assert(p < q <= ts.len());
            if is_at(ts, q, Tag::Semicolon) {
                assert(q < ts.len());
            }
        }
    }
}

/// Law: an expression that parses ends after the position where it starts,
/// and within the tokens.
pub proof fn lemma_expression_moves(ts: Seq<TokenView>, p: int)
    ensures
        moves_on(expression(ts, p), ts, p),
    decreases ts.len() - p, 8int,
{
    lemma_pipeline_moves(ts, p);
}

pub proof fn lemma_pipeline_moves(ts: Seq<TokenView>, p: int)
    ensures
        moves_on(pipeline(ts, p), ts, p),
    decreases ts.len() - p, 7int,
{
    if 0 <= p <= ts.len() {
        lemma_comparison_moves(ts, p);
        if let Ok((e, q)) = comparison(ts, p) {
            lemma_pipeline_rest_moves(ts, e, q);
        }
    }
}

pub proof fn lemma_pipeline_rest_moves(ts: Seq<TokenView>, e: SExpr, p: int)
    ensures
        0 <= p <= ts.len() ==> stays_or_moves(pipeline_rest(ts, e, p), ts, p),
    decreases ts.len() - p, 6int,
{
    if 0 <= p <= ts.len() && is_at(ts, p, Tag::Pipeline) && is_at(ts, p + 1, Tag::Identifier)
        && is_at(ts, p + 2, Tag::LParen) {
        let f = kind_at(ts, p + 1)->Identifier_0;
        let args: Parsed<Seq<SExpr>> = if is_at(ts, p + 3, Tag::RParen) {
            Ok((Seq::empty(), p + 3))
        } else {
            lemma_arguments_moves(ts, p + 3);
            arguments(ts, p + 3)
        };
        if let Ok((xs, q)) = args {
            if p + 3 <= q <= ts.len() && is_at(ts, q, Tag::RParen) {
                lemma_pipeline_rest_moves(ts, SExpr::Call(f, seq![e] + xs), q + 1);
            }
        }
    }
}

pub proof fn lemma_arguments_moves(ts: Seq<TokenView>, p: int)
    ensures
        moves_on(arguments(ts, p), ts, p),
    decreases ts.len() - p, 9int,
{
    if 0 <= p <= ts.len() {
        lemma_expression_moves(ts, p);
        if let Ok((e, q)) = expression(ts, p) {
            if p <= q <= ts.len() && is_at(ts, q, Tag::Comma) {
                lemma_arguments_moves(ts, q + 1);
            }
        }
    }
}

pub proof fn lemma_comparison_moves(ts: Seq<TokenView>, p: int)
    ensures
        moves_on(comparison(ts, p), ts, p),
    decreases ts.len() - p, 6int,
{
    if 0 <= p <= ts.len() {
        lemma_additive_moves(ts, p);
        if let Ok((e, q)) = additive(ts, p) {
            if p <= q <= ts.len() && comparison_op(tag_of(kind_at(ts, q))) is Some {
                lemma_additive_moves(ts, q + 1);
            }
        }
    }
}

pub proof fn lemma_additive_moves(ts: Seq<TokenView>, p: int)
    ensures
        moves_on(additive(ts, p), ts, p),
    decreases ts.len() - p, 5int,
{
    if 0 <= p <= ts.len() {
        lemma_multiplicative_moves(ts, p);
        if let Ok((e, q)) = multiplicative(ts, p) {
            lemma_additive_rest_moves(ts, e, q);
        }
    }
}

pub proof fn lemma_additive_rest_moves(ts: Seq<TokenView>, e: SExpr, p: int)
    ensures
        0 <= p <= ts.len() ==> stays_or_moves(additive_rest(ts, e, p), ts, p),
    decreases ts.len() - p, 4int,
{
    if 0 <= p <= ts.len() {
        if let Some(op) = additive_op(tag_of(kind_at(ts, p))) {
            lemma_multiplicative_moves(ts, p + 1);
            if let Ok((r, q)) = multiplicative(ts, p + 1) {
                if p + 1 <= q <= ts.len() {
                    lemma_additive_rest_moves(ts, binary(op, e, r), q);
                }
            }
        }
    }
}

pub proof fn lemma_multiplicative_moves(ts: Seq<TokenView>, p: int)
    ensures
        moves_on(multiplicative(ts, p), ts, p),
    decreases ts.len() - p, 4int,
{
    if 0 <= p <= ts.len() {
        lemma_primary_moves(ts, p);
        if let Ok((e, q)) = primary(ts, p) {
            lemma_multiplicative_rest_moves(ts, e, q);
        }
    }
}

pub proof fn lemma_multiplicative_rest_moves(ts: Seq<TokenView>, e: SExpr, p: int)
    ensures
        0 <= p <= ts.len() ==> stays_or_moves(multiplicative_rest(ts, e, p), ts, p),
    decreases ts.len() - p, 3int,
{
    if 0 <= p <= ts.len() {
        if let Some(op) = multiplicative_op(tag_of(kind_at(ts, p))) {
            lemma_primary_moves(ts, p + 1);
            if let Ok((r, q)) = primary(ts, p + 1) {
                if p + 1 <= q <= ts.len() {
                    lemma_multiplicative_rest_moves(ts, binary(op, e, r), q);
                }
            }
        }
    }
}

pub proof fn lemma_primary_moves(ts: Seq<TokenView>, p: int)
    ensures
        moves_on(primary(ts, p), ts, p),
    decreases ts.len() - p, 3int,
{
    if 0 <= p <= ts.len() {
        match kind_at(ts, p) {
            KindView::Identifier(name) => {
                if is_at(ts, p + 1, Tag::LParen) && !is_at(ts, p + 2, Tag::RParen) {
                    lemma_arguments_moves(ts, p + 2);
                }
            },
            KindView::LBrace => lemma_block_moves(ts, p),
            KindView::LParen => lemma_expression_moves(ts, p + 1),
            KindView::If => lemma_if_expression_moves(ts, p),
            _ => {},
        }
    }
}

pub proof fn lemma_block_items_moves(ts: Seq<TokenView>, p: int)
    ensures
        0 <= p <= ts.len() ==> stays_or_moves(block_items(ts, p), ts, p),
    decreases ts.len() - p, 11int,
{
    if 0 <= p <= ts.len() && !is_at(ts, p, Tag::RBrace) {
        if is_at(ts, p, Tag::Let) || is_at(ts, p, Tag::Fn) || is_at(ts, p, Tag::While) {
            lemma_statement_moves(ts, p);
            if let Ok((st, q)) = statement(ts, p) {
                if p < q <= ts.len() {
                    lemma_block_items_moves(ts, q);
                }
            }
        } else {
            lemma_expression_moves(ts, p);
            if let Ok((e, q)) = expression(ts, p) {
                if p <= q <= ts.len() && is_at(ts, q, Tag::Semicolon) {
                    lemma_block_items_moves(ts, q + 1);
                }
            }
        }
    }
}

pub proof fn lemma_block_moves(ts: Seq<TokenView>, p: int)
    ensures
        moves_on(block(ts, p), ts, p),
    decreases ts.len() - p, 2int,
{
    if 0 <= p <= ts.len() && is_at(ts, p, Tag::LBrace) {
        lemma_block_items_moves(ts, p + 1);
    }
}

pub proof fn lemma_if_expression_moves(ts: Seq<TokenView>, p: int)
    ensures
        moves_on(if_expression(ts, p), ts, p),
    decreases ts.len() - p, 2int,
{
    if 0 <= p <= ts.len() && is_at(ts, p, Tag::If) {
        lemma_expression_moves(ts, p + 1);
        if let Ok((c, q)) = expression(ts, p + 1) {
            if p + 1 <= q <= ts.len() {
                lemma_block_moves(ts, q);
                if let Ok((t, q2)) = block(ts, q) {
                    if q <= q2 <= ts.len() && is_at(ts, q2, Tag::Else) {
                        if is_at(ts, q2 + 1, Tag::If) {
                            lemma_if_expression_moves(ts, q2 + 1);
                        } else {
                            lemma_block_moves(ts, q2 + 1);
                        }
                    }
                }
            }
        }
    }
}

/// Law: a pipeline stage is the call it is written as, with the piped value
/// put first among the arguments. Where `f(a, ...)` after the `|>` at `p`
/// reads as the call of `f` to `xs`, up to `q`, the stage turns the
/// expression `e` before it into the call of `f` to `e` followed by `xs`, and
/// the pipeline goes on from `q`.
pub proof fn law_pipeline_lowers_to_call(ts: Seq<TokenView>, e: SExpr, p: int)
    requires
        is_at(ts, p, Tag::Pipeline),
        is_at(ts, p + 1, Tag::Identifier),
    ensures
        primary(ts, p + 1) matches Ok((SExpr::Call(f, xs), q)) ==> pipeline_rest(ts, e, p)
            == pipeline_rest(ts, SExpr::Call(f, seq![e] + xs), q),
{
    if is_at(ts, p + 2, Tag::LParen) && !is_at(ts, p + 3, Tag::RParen) {
        lemma_arguments_moves(ts, p + 3);
    }
}

// ---------------------------------------------------------------------------
// The parser
// ---------------------------------------------------------------------------

/// An executable result agrees with a result of the grammar, and the parser
/// stopped at the position that the grammar gives.
pub open spec fn expr_outcome(r: Result<Expression, ParseError>, g: Parsed<SExpr>, at: int) -> bool {
    match g {
        Ok((e, q)) => r matches Ok(x) && x@ == e && at == q,
        Err(err) => r matches Err(x) && x@ == err,
    }
}

pub open spec fn stmt_outcome(r: Result<Statement, ParseError>, g: Parsed<SStmt>, at: int) -> bool {
    match g {
        Ok((st, q)) => r matches Ok(x) && x@ == st && at == q,
        Err(err) => r matches Err(x) && x@ == err,
    }
}

/// `got` in front of the sequence that a parse gives.
pub open spec fn prefix_results<T>(got: Seq<T>, r: Parsed<Seq<T>>) -> Parsed<Seq<T>> {
    match r {
        Ok((ys, q)) => Ok((got + ys, q)),
        Err(e) => Err(e),
    }
}

/// `got` in front of the statements that a parse of block items gives.
pub open spec fn prefix_items(got: Seq<SStmt>, r: Parsed<(Seq<SStmt>, Option<SExpr>)>) -> Parsed<
    (Seq<SStmt>, Option<SExpr>),
> {
    match r {
        Ok(((sts, t), q)) => Ok(((got + sts, t), q)),
        Err(e) => Err(e),
    }
}

fn comparison_text(t: Tag) -> (r: Option<String>)
    ensures
        match comparison_op(t) {
            Some(op) => r matches Some(x) && x@ == op,
            None => r is None,
        },
{
    match t {
        Tag::Eq => Some(String::from_str("==")),
        Tag::Ne => Some(String::from_str("!=")),
        Tag::Lt => Some(String::from_str("<")),
        Tag::Gt => Some(String::from_str(">")),
        Tag::Le => Some(String::from_str("<=")),
        Tag::Ge => Some(String::from_str(">=")),
        _ => None,
    }
}

fn additive_text(t: Tag) -> (r: Option<String>)
    ensures
        match additive_op(t) {
            Some(op) => r matches Some(x) && x@ == op,
            None => r is None,
        },
{
    match t {
        Tag::Plus => Some(String::from_str("+")),
        Tag::Minus => Some(String::from_str("-")),
        _ => None,
    }
}

fn multiplicative_text(t: Tag) -> (r: Option<String>)
    ensures
        match multiplicative_op(t) {
            Some(op) => r matches Some(x) && x@ == op,
            None => r is None,
        },
{
    match t {
        Tag::Asterisk => Some(String::from_str("*")),
        Tag::Slash => Some(String::from_str("/")),
        Tag::Percent => Some(String::from_str("%")),
        _ => None,
    }
}

/// `got` in front of the statements that a parse of a program gives.
pub open spec fn prefix_program(got: Seq<SStmt>, r: Result<Seq<SStmt>, ParseErrorView>) -> Result<
    Seq<SStmt>,
    ParseErrorView,
> {
    match r {
        Ok(sts) => Ok(got + sts),
        Err(e) => Err(e),
    }
}

/// The kind of a token, without its contents.
fn tag(k: &TokenKind) -> (t: Tag)
    ensures
        t == tag_of(k@),
{
    match k {
        TokenKind::Let => Tag::Let,
        TokenKind::Fn => Tag::Fn,
        TokenKind::While => Tag::While,
        TokenKind::If => Tag::If,
        TokenKind::Else => Tag::Else,
        TokenKind::True => Tag::True,
        TokenKind::False => Tag::False,
        TokenKind::Identifier(_) => Tag::Identifier,
        TokenKind::Number(_) => Tag::Number,
        TokenKind::String(_) => Tag::Str,
        TokenKind::Plus => Tag::Plus,
        TokenKind::Minus => Tag::Minus,
        TokenKind::Asterisk => Tag::Asterisk,
        TokenKind::Slash => Tag::Slash,
        TokenKind::Percent => Tag::Percent,
        TokenKind::Assign => Tag::Assign,
        TokenKind::Eq => Tag::Eq,
        TokenKind::Ne => Tag::Ne,
        TokenKind::Lt => Tag::Lt,
        TokenKind::Gt => Tag::Gt,
        TokenKind::Le => Tag::Le,
        TokenKind::Ge => Tag::Ge,
        TokenKind::Pipeline => Tag::Pipeline,
        TokenKind::LParen => Tag::LParen,
        TokenKind::RParen => Tag::RParen,
        TokenKind::LBrace => Tag::LBrace,
        TokenKind::RBrace => Tag::RBrace,
        TokenKind::Comma => Tag::Comma,
        TokenKind::Semicolon => Tag::Semicolon,
        TokenKind::EOF => Tag::EOF,
    }
}

/// A recursive-descent parser over a sequence of tokens.
pub struct Parser {
    tokens: Vec<Token>,
    position: usize,
}

impl Parser {
    /// The tokens being parsed.
    pub closed spec fn toks(&self) -> Seq<TokenView> {
        tokens_view(self.tokens@)
    }

    /// The position of the next token.
    pub closed spec fn pos(&self) -> int {
        self.position as int
    }

    /// The tokens end with the end-of-input token, and the position lies
    /// within them or just past the last.
    pub closed spec fn wf(&self) -> bool {
        &&& self.tokens@.len() > 0
        &&& self.tokens@.last().kind@ is EOF
        &&& self.position <= self.tokens@.len()
    }

    /// A parser at the first of `tokens`.
    pub fn new(tokens: Vec<Token>) -> (p: Self)
        ensures
            p.toks() == tokens_view(tokens@),
            p.pos() == 0,
            tokens@.len() > 0 && tokens@.last().kind@ is EOF ==> p.wf(),
    {
        Parser { tokens, position: 0 }
    }

    /// The tag of the next token; past the last, the end of input.
    fn peek_tag(&self) -> (t: Tag)
        requires
            self.wf(),
        ensures
            t == tag_of(kind_at(self.toks(), self.pos())),
    {
        if self.position < self.tokens.len() {
            tag(&self.tokens[self.position].kind)
        } else {
            Tag::EOF
        }
    }

    /// The next token; past the last, the last one.
    fn peek_token(&self) -> (t: Token)
        requires
            self.wf(),
        ensures
            t@ == tk(self.toks(), self.pos()),
    {
        if self.position < self.tokens.len() {
            self.tokens[self.position].duplicate()
        } else {
            self.tokens[self.tokens.len() - 1].duplicate()
        }
    }

    /// Moves past the next token, if the position is not past the last.
    fn advance(&mut self)
        requires
            old(self).wf(),
        ensures
            final(self).wf(),
            final(self).toks() == old(self).toks(),
            old(self).pos() < old(self).toks().len() ==> final(self).pos() == old(self).pos() + 1,
            old(self).pos() >= old(self).toks().len() ==> final(self).pos() == old(self).pos(),
            tag_of(kind_at(old(self).toks(), old(self).pos())) != Tag::EOF ==> final(self).pos()
                == old(self).pos() + 1,
    {
        if self.position < self.tokens.len() {
            self.position += 1;
        }
    }

    /// Reads a token with the tag `t` and gives it back, or fails with what
    /// was expected.
    fn consume(&mut self, t: Tag, x: Expectation) -> (r: Result<Token, ParseError>)
        requires
            old(self).wf(),
        ensures
            final(self).wf(),
            final(self).toks() == old(self).toks(),
            is_at(old(self).toks(), old(self).pos(), t) ==> (r matches Ok(tok) && tok@ == tk(
                old(self).toks(),
                old(self).pos(),
            )),
            is_at(old(self).toks(), old(self).pos(), t) && old(self).pos() < old(self).toks().len()
                ==> final(self).pos() == old(self).pos() + 1,
            is_at(old(self).toks(), old(self).pos(), t) && old(self).pos() >= old(self).toks().len()
                ==> final(self).pos() == old(self).pos(),
            t != Tag::EOF && is_at(old(self).toks(), old(self).pos(), t) ==> final(self).pos()
                == old(self).pos() + 1,
            !is_at(old(self).toks(), old(self).pos(), t) ==> (r matches Err(e) && e@
                == ParseErrorView::Expected(x, tk(old(self).toks(), old(self).pos()))),
            r is Err ==> final(self).pos() == old(self).pos(),
    {
        if self.peek_tag() == t {
            let tok = self.peek_token();
            self.advance();
            Ok(tok)
        } else {
            Err(ParseError::Expected(x, self.peek_token()))
        }
    }

    /// The statements of the program, up to the end of input.
    pub fn parse_program(&mut self) -> (r: Result<Vec<Statement>, ParseError>)
        requires
            old(self).wf(),
        ensures
            final(self).wf(),
            final(self).toks() == old(self).toks(),
            match program_from(old(self).toks(), old(self).pos()) {
                Ok(sts) => r matches Ok(v) && stmts_view(v@) == sts,
                Err(err) => r matches Err(x) && x@ == err,
            },
            r is Ok ==> is_at(final(self).toks(), final(self).pos(), Tag::EOF),
    {
        let ghost ts = self.toks();
        let ghost p0 = self.pos();
        let mut statements: Vec<Statement> = Vec::new();
        let ghost mut got: Seq<SStmt> = Seq::empty();
        assert(program_from(ts, p0) == prefix_program(got, program_from(ts, p0))) by {
            if let Ok(sts) = program_from(ts, p0) {
                assert(got + sts =~= sts);
            }
        }
        while self.peek_tag() != Tag::EOF
            invariant
                self.wf(),
                self.toks() == ts,
                ts == old(self).toks(),
                p0 == old(self).pos(),
                p0 <= self.pos(),
                stmts_view(statements@) == got,
                program_from(ts, p0) == prefix_program(got, program_from(ts, self.pos())),
            decreases ts.len() - self.pos(),
        {
            let st = match self.parse_statement() {
                Ok(st) => st,
                Err(x) => return Err(x),
            };
            let ghost sv = st@;
            statements.push(st);
            proof {
                assert(stmts_view(statements@) =~= got.push(sv));
                if let Ok(sts) = program_from(ts, self.pos()) {
                    assert(got + (seq![sv] + sts) =~= got.push(sv) + sts);
                }
                got = got.push(sv);
            }
        }
        proof {
            assert(got + Seq::<SStmt>::empty() =~= got);
        }
        Ok(statements)
    }

    fn parse_statement(&mut self) -> (r: Result<Statement, ParseError>)
        requires
            old(self).wf(),
        ensures
            final(self).wf(),
            final(self).toks() == old(self).toks(),
            old(self).pos() <= final(self).pos(),
            r is Ok ==> old(self).pos() < final(self).pos(),
            stmt_outcome(r, statement(old(self).toks(), old(self).pos()), final(self).pos()),
        decreases old(self).toks().len() - old(self).pos(), 10int,
    {
        let t = self.peek_tag();
        if t == Tag::Let {
            self.parse_variable_decl()
        } else if t == Tag::Fn {
            self.parse_function_decl()
        } else if t == Tag::While {
            self.parse_while_loop()
        } else {
            self.parse_expression_stmt()
        }
    }

    fn parse_variable_decl(&mut self) -> (r: Result<Statement, ParseError>)
        requires
            old(self).wf(),
        ensures
            final(self).wf(),
            final(self).toks() == old(self).toks(),
            old(self).pos() <= final(self).pos(),
            r is Ok ==> old(self).pos() < final(self).pos(),
            stmt_outcome(r, variable_decl(old(self).toks(), old(self).pos()), final(self).pos()),
        decreases old(self).toks().len() - old(self).pos(), 9int,
    {
        match self.consume(Tag::Let, Expectation::LetKeyword) {
            Ok(_) => {},
            Err(x) => return Err(x),
        }
        let name = match self.consume_identifier(Expectation::VariableName) {
            Ok(n) => n,
            Err(x) => return Err(x),
        };
        match self.consume(Tag::Assign, Expectation::Assign) {
            Ok(_) => {},
            Err(x) => return Err(x),
        }
        let e = match self.parse_expression() {
            Ok(e) => e,
            Err(x) => return Err(x),
        };
        match self.consume(Tag::Semicolon, Expectation::SemicolonAfterLet) {
            Ok(_) => {},
            Err(x) => return Err(x),
        }
        Ok(Statement::Let(name, e))
    }

    fn parse_function_decl(&mut self) -> (r: Result<Statement, ParseError>)
        requires
            old(self).wf(),
        ensures
            final(self).wf(),
            final(self).toks() == old(self).toks(),
            old(self).pos() <= final(self).pos(),
            r is Ok ==> old(self).pos() < final(self).pos(),
            stmt_outcome(r, function_decl(old(self).toks(), old(self).pos()), final(self).pos()),
        decreases old(self).toks().len() - old(self).pos(), 9int,
    {
        let ghost ts = self.toks();
        let ghost p0 = self.pos();
        match self.consume(Tag::Fn, Expectation::FnKeyword) {
            Ok(_) => {},
            Err(x) => return Err(x),
        }
        let name = match self.consume_identifier(Expectation::FunctionName) {
            Ok(n) => n,
            Err(x) => return Err(x),
        };
        match self.consume(Tag::LParen, Expectation::LParenAfterFunctionName) {
            Ok(_) => {},
            Err(x) => return Err(x),
        }
        let mut params: Vec<String> = Vec::new();
        if self.peek_tag() != Tag::RParen {
            let ghost mut got: Seq<Seq<char>> = Seq::empty();
            assert(parameters(ts, p0 + 3) == prefix_results(got, parameters(ts, p0 + 3))) by {
                if let Ok((ys, q)) = parameters(ts, p0 + 3) {
                    assert(got + ys =~= ys);
                }
            }
            let mut more = true;
            while more
                invariant
                    self.wf(),
                    self.toks() == ts,
                    ts == old(self).toks(),
                    p0 == old(self).pos(),
                    p0 + 3 <= self.pos(),
                    is_at(ts, p0, Tag::Fn),
                    is_at(ts, p0 + 1, Tag::Identifier),
                    is_at(ts, p0 + 2, Tag::LParen),
                    !is_at(ts, p0 + 3, Tag::RParen),
                    names_view(params@) == got,
                    more ==> parameters(ts, p0 + 3) == prefix_results(got, parameters(ts, self.pos())),
                    !more ==> parameters(ts, p0 + 3) == Ok::<(Seq<Seq<char>>, int), ParseErrorView>((got, self.pos())),
                decreases ts.len() - self.pos(),
            {
                let p = match self.consume_identifier(Expectation::ParameterName) {
                    Ok(n) => n,
                    Err(x) => return Err(x),
                };
                let ghost pv = p@;
                let ghost before = params@;
                params.push(p);
                proof {
                    assert(names_view(params@) =~= names_view(before).push(pv));
                }
                if self.peek_tag() == Tag::Comma {
                    self.advance();
                    proof {
                        if let Ok((ys, q2)) = parameters(ts, self.pos()) {
                            assert(got + (seq![pv] + ys) =~= got.push(pv) + ys);
                        }
                        got = got.push(pv);
                    }
                } else {
                    proof {
                        assert(got + seq![pv] =~= got.push(pv));
                        got = got.push(pv);
                    }
                    more = false;
                }
            }
        } else {
            assert(names_view(params@) =~= Seq::<Seq<char>>::empty());
        }
        match self.consume(Tag::RParen, Expectation::RParenAfterParameters) {
            Ok(_) => {},
            Err(x) => return Err(x),
        }
        let body = match self.parse_block_expression() {
            Ok(e) => e,
            Err(x) => return Err(x),
        };
        Ok(Statement::FnDecl(name, params, body))
    }

    fn parse_while_loop(&mut self) -> (r: Result<Statement, ParseError>)
        requires
            old(self).wf(),
        ensures
            final(self).wf(),
            final(self).toks() == old(self).toks(),
            old(self).pos() <= final(self).pos(),
            r is Ok ==> old(self).pos() < final(self).pos(),
            stmt_outcome(r, while_loop(old(self).toks(), old(self).pos()), final(self).pos()),
        decreases old(self).toks().len() - old(self).pos(), 9int,
    {
        let ghost ts = self.toks();
        let ghost p0 = self.pos();
        match self.consume(Tag::While, Expectation::WhileKeyword) {
            Ok(_) => {},
            Err(x) => return Err(x),
        }
        assert(self.pos() == p0 + 1);
        assert(is_at(ts, p0, Tag::While));
        assert(0 <= p0 < ts.len());
        let cond = match self.parse_expression() {
            Ok(e) => e,
            Err(x) => {
                assert(expression(ts, p0 + 1) == Err::<(SExpr, int), ParseErrorView>(x@));
                assert(while_loop(ts, p0) == Err::<(SStmt, int), ParseErrorView>(x@));
                return Err(x);
            },
        };
        let body = match self.parse_block_expression() {
            Ok(e) => e,
            Err(x) => return Err(x),
        };
        Ok(Statement::While(cond, body))
    }

    fn parse_expression_stmt(&mut self) -> (r: Result<Statement, ParseError>)
        requires
            old(self).wf(),
        ensures
            final(self).wf(),
            final(self).toks() == old(self).toks(),
            old(self).pos() <= final(self).pos(),
            r is Ok ==> old(self).pos() < final(self).pos(),
            stmt_outcome(r, expression_stmt(old(self).toks(), old(self).pos()), final(self).pos()),
        decreases old(self).toks().len() - old(self).pos(), 9int,
    {
        let e = match self.parse_expression() {
            Ok(e) => e,
            Err(x) => return Err(x),
        };
        match self.consume(Tag::Semicolon, Expectation::SemicolonAfterExpression) {
            Ok(_) => {},
            Err(x) => return Err(x),
        }
        Ok(Statement::Expr(e))
    }

    /// An expression.
    pub fn parse_expression(&mut self) -> (r: Result<Expression, ParseError>)
        requires
            old(self).wf(),
        ensures
            final(self).wf(),
            final(self).toks() == old(self).toks(),
            old(self).pos() <= final(self).pos(),
            r is Ok ==> old(self).pos() < final(self).pos(),
            expr_outcome(r, expression(old(self).toks(), old(self).pos()), final(self).pos()),
        decreases old(self).toks().len() - old(self).pos(), 8int,
    {
        self.parse_pipeline()
    }

    fn parse_pipeline(&mut self) -> (r: Result<Expression, ParseError>)
        requires
            old(self).wf(),
        ensures
            final(self).wf(),
            final(self).toks() == old(self).toks(),
            old(self).pos() <= final(self).pos(),
            r is Ok ==> old(self).pos() < final(self).pos(),
            expr_outcome(r, pipeline(old(self).toks(), old(self).pos()), final(self).pos()),
        decreases old(self).toks().len() - old(self).pos(), 7int,
    {
        let ghost ts = self.toks();
        let ghost p0 = self.pos();
        let mut expr = match self.parse_comparison() {
            Ok(e) => e,
            Err(x) => return Err(x),
        };
        let ghost e0 = expr@;
        let ghost q0 = self.pos();
        while self.peek_tag() == Tag::Pipeline
            invariant
                self.wf(),
                self.toks() == ts,
                ts == old(self).toks(),
                p0 == old(self).pos(),
                p0 < q0 <= self.pos(),
                pipeline(ts, p0) == pipeline_rest(ts, e0, q0),
                pipeline_rest(ts, e0, q0) == pipeline_rest(ts, expr@, self.pos()),
            decreases ts.len() - self.pos(),
        {
            let ghost q = self.pos();
            self.advance();
            let func_name = match self.consume_identifier(Expectation::FunctionAfterPipeline) {
                Ok(n) => n,
                Err(x) => return Err(x),
            };
            match self.consume(Tag::LParen, Expectation::LParenAfterPipelinedFunction) {
                Ok(_) => {},
                Err(x) => return Err(x),
            }
            let ghost ev = expr@;
            let mut args: Vec<Expression> = Vec::new();
            args.push(expr);
            assert(exprs_view(args@) =~= seq![ev]);
            if self.peek_tag() != Tag::RParen {
                match self.parse_arguments(&mut args) {
                    Ok(()) => {},
                    Err(x) => return Err(x),
                }
            } else {
                assert(seq![ev] + Seq::<SExpr>::empty() =~= seq![ev]);
            }
            match self.consume(Tag::RParen, Expectation::RParenAfterPipelinedArguments) {
                Ok(_) => {},
                Err(x) => return Err(x),
            }
            proof {
                crate::ast::lemma_call_view(func_name, args);
            }
            expr = Expression::Call(func_name, args);
        }
        Ok(expr)
    }


    fn parse_comparison(&mut self) -> (r: Result<Expression, ParseError>)
        requires
            old(self).wf(),
        ensures
            final(self).wf(),
            final(self).toks() == old(self).toks(),
            old(self).pos() <= final(self).pos(),
            r is Ok ==> old(self).pos() < final(self).pos(),
            expr_outcome(r, comparison(old(self).toks(), old(self).pos()), final(self).pos()),
        decreases old(self).toks().len() - old(self).pos(), 6int,
    {
        let left = match self.parse_additive() {
            Ok(e) => e,
            Err(x) => return Err(x),
        };
        let op = match comparison_text(self.peek_tag()) {
            Some(op) => op,
            None => return Ok(left),
        };
        self.advance();
        let right = match self.parse_additive() {
            Ok(e) => e,
            Err(x) => return Err(x),
        };
        Ok(Expression::BinaryOp(op, Box::new(left), Box::new(right)))
    }

    fn parse_additive(&mut self) -> (r: Result<Expression, ParseError>)
        requires
            old(self).wf(),
        ensures
            final(self).wf(),
            final(self).toks() == old(self).toks(),
            old(self).pos() <= final(self).pos(),
            r is Ok ==> old(self).pos() < final(self).pos(),
            expr_outcome(r, additive(old(self).toks(), old(self).pos()), final(self).pos()),
        decreases old(self).toks().len() - old(self).pos(), 5int,
    {
        let ghost ts = self.toks();
        let ghost p0 = self.pos();
        let mut expr = match self.parse_multiplicative() {
            Ok(e) => e,
            Err(x) => return Err(x),
        };
        let ghost e0 = expr@;
        let ghost q0 = self.pos();
        loop
            invariant
                self.wf(),
                self.toks() == ts,
                ts == old(self).toks(),
                p0 == old(self).pos(),
                p0 < q0 <= self.pos(),
                additive(ts, p0) == additive_rest(ts, e0, q0),
                additive_rest(ts, e0, q0) == additive_rest(ts, expr@, self.pos()),
            decreases ts.len() - self.pos(),
        {
            let op = match additive_text(self.peek_tag()) {
                Some(op) => op,
                None => return Ok(expr),
            };
            self.advance();
            let right = match self.parse_multiplicative() {
                Ok(e) => e,
                Err(x) => return Err(x),
            };
            expr = Expression::BinaryOp(op, Box::new(expr), Box::new(right));
        }
    }

    fn parse_multiplicative(&mut self) -> (r: Result<Expression, ParseError>)
        requires
            old(self).wf(),
        ensures
            final(self).wf(),
            final(self).toks() == old(self).toks(),
            old(self).pos() <= final(self).pos(),
            r is Ok ==> old(self).pos() < final(self).pos(),
            expr_outcome(r, multiplicative(old(self).toks(), old(self).pos()), final(self).pos()),
        decreases old(self).toks().len() - old(self).pos(), 4int,
    {
        let ghost ts = self.toks();
        let ghost p0 = self.pos();
        let mut expr = match self.parse_primary() {
            Ok(e) => e,
            Err(x) => return Err(x),
        };
        let ghost e0 = expr@;
        let ghost q0 = self.pos();
        loop
            invariant
                self.wf(),
                self.toks() == ts,
                ts == old(self).toks(),
                p0 == old(self).pos(),
                p0 < q0 <= self.pos(),
                multiplicative(ts, p0) == multiplicative_rest(ts, e0, q0),
                multiplicative_rest(ts, e0, q0) == multiplicative_rest(ts, expr@, self.pos()),
            decreases ts.len() - self.pos(),
        {
            let op = match multiplicative_text(self.peek_tag()) {
                Some(op) => op,
                None => return Ok(expr),
            };
            self.advance();
            let right = match self.parse_primary() {
                Ok(e) => e,
                Err(x) => return Err(x),
            };
            expr = Expression::BinaryOp(op, Box::new(expr), Box::new(right));
        }
    }

    #[verifier::spinoff_prover]
    #[verifier::rlimit(40)]
    fn parse_primary(&mut self) -> (r: Result<Expression, ParseError>)
        requires
            old(self).wf(),
        ensures
            final(self).wf(),
            final(self).toks() == old(self).toks(),
            old(self).pos() <= final(self).pos(),
            r is Ok ==> old(self).pos() < final(self).pos(),
            expr_outcome(r, primary(old(self).toks(), old(self).pos()), final(self).pos()),
        decreases old(self).toks().len() - old(self).pos(), 3int,
    {
        let ghost ts = self.toks();
        let ghost p0 = self.pos();
        if self.position >= self.tokens.len() {
            return Err(ParseError::UnexpectedToken(self.peek_token()));
        }
        match &self.tokens[self.position].kind {
            TokenKind::Number(v) => {
                let v = *v;
                self.advance();
                Ok(Expression::Number(v))
            },
            TokenKind::String(text) => {
                let text = text.clone();
                self.advance();
                Ok(Expression::String(text))
            },
            TokenKind::True => {
                self.advance();
                Ok(Expression::Boolean(true))
            },
            TokenKind::False => {
                self.advance();
                Ok(Expression::Boolean(false))
            },
            TokenKind::Identifier(name) => {
                let name = name.clone();
                self.advance();
                if self.peek_tag() == Tag::LParen {
                    self.advance();
                    let mut args: Vec<Expression> = Vec::new();
                    if self.peek_tag() != Tag::RParen {
                        match self.parse_arguments(&mut args) {
                            Ok(()) => {},
                            Err(x) => return Err(x),
                        }
                        assert(exprs_view(args@) =~= arguments(ts, p0 + 2)->Ok_0.0);
                    } else {
                        assert(exprs_view(args@) =~= Seq::<SExpr>::empty());
                    }
                    match self.consume(Tag::RParen, Expectation::RParen) {
                        Ok(_) => {},
                        Err(x) => return Err(x),
                    }
                    proof {
                        crate::ast::lemma_call_view(name, args);
                    }
                    Ok(Expression::Call(name, args))
                } else {
                    Ok(Expression::Identifier(name))
                }
            },
            TokenKind::LBrace => self.parse_block_expression(),
            TokenKind::LParen => {
                self.advance();
                let e = match self.parse_expression() {
                    Ok(e) => e,
                    Err(x) => return Err(x),
                };
                match self.consume(Tag::RParen, Expectation::RParen) {
                    Ok(_) => {},
                    Err(x) => return Err(x),
                }
                Ok(e)
            },
            TokenKind::If => self.parse_if_expression(),
            _ => Err(ParseError::UnexpectedToken(self.peek_token())),
        }
    }

    /// A block: `{`, statements and an optional trailing expression, `}`.
    fn parse_block_expression(&mut self) -> (r: Result<Expression, ParseError>)
        requires
            old(self).wf(),
        ensures
            final(self).wf(),
            final(self).toks() == old(self).toks(),
            old(self).pos() <= final(self).pos(),
            r is Ok ==> old(self).pos() < final(self).pos(),
            expr_outcome(r, block(old(self).toks(), old(self).pos()), final(self).pos()),
        decreases old(self).toks().len() - old(self).pos(), 2int,
    {
        let ghost ts = self.toks();
        let ghost p0 = self.pos();
        match self.consume(Tag::LBrace, Expectation::LBrace) {
            Ok(_) => {},
            Err(x) => return Err(x),
        }
        let mut statements: Vec<Statement> = Vec::new();
        let mut trailing: Option<Box<Expression>> = None;
        let ghost mut got: Seq<SStmt> = Seq::empty();
        assert(block_items(ts, p0 + 1) == prefix_items(got, block_items(ts, p0 + 1))) by {
            if let Ok(((sts, t), q)) = block_items(ts, p0 + 1) {
                assert(got + sts =~= sts);
            }
        }
        while trailing.is_none() && self.peek_tag() != Tag::RBrace
            invariant
                self.wf(),
                self.toks() == ts,
                ts == old(self).toks(),
                p0 == old(self).pos(),
                p0 < self.pos(),
                is_at(ts, p0, Tag::LBrace),
                stmts_view(statements@) == got,
                trailing is None ==> block_items(ts, p0 + 1) == prefix_items(
                    got,
                    block_items(ts, self.pos()),
                ),
                trailing matches Some(t) ==> (is_at(ts, self.pos(), Tag::RBrace) && block_items(
                    ts,
                    p0 + 1,
                ) == Ok::<((Seq<SStmt>, Option<SExpr>), int), ParseErrorView>(
                    ((got, Some(expr_view(*t))), self.pos()),
                )),
            decreases ts.len() - self.pos(),
        {
            let t = self.peek_tag();
            if t == Tag::Let || t == Tag::Fn || t == Tag::While {
                let st = match self.parse_statement() {
                    Ok(st) => st,
                    Err(x) => return Err(x),
                };
                let ghost sv = st@;
                statements.push(st);
                proof {
                    assert(stmts_view(statements@) =~= got.push(sv));
                    if let Ok(((sts, tt), q)) = block_items(ts, self.pos()) {
                        assert(got + (seq![sv] + sts) =~= got.push(sv) + sts);
                    }
                    got = got.push(sv);
                }
            } else {
                let e = match self.parse_expression() {
                    Ok(e) => e,
                    Err(x) => return Err(x),
                };
                if self.peek_tag() == Tag::Semicolon {
                    self.advance();
                    let ghost sv = SStmt::Expr(e@);
                    statements.push(Statement::Expr(e));
                    proof {
                        assert(stmts_view(statements@) =~= got.push(sv));
                        if let Ok(((sts, tt), q)) = block_items(ts, self.pos()) {
                            assert(got + (seq![sv] + sts) =~= got.push(sv) + sts);
                        }
                        got = got.push(sv);
                    }
                } else if self.peek_tag() == Tag::RBrace {
                    proof {
                        assert(got + Seq::<SStmt>::empty() =~= got);
                    }
                    trailing = Some(Box::new(e));
                } else {
                    return Err(ParseError::MissingSemicolon(self.peek_token()));
                }
            }
        }
        proof {
            if trailing is None {
                assert(got + Seq::<SStmt>::empty() =~= got);
            }
        }
        match self.consume(Tag::RBrace, Expectation::RBrace) {
            Ok(_) => {},
            Err(x) => return Err(x),
        }
        proof {
            crate::ast::lemma_block_view(statements, trailing);
        }
        Ok(Expression::Block(statements, trailing))
    }

    /// `if` condition, block, `else`, then a block or another `if`.
    fn parse_if_expression(&mut self) -> (r: Result<Expression, ParseError>)
        requires
            old(self).wf(),
        ensures
            final(self).wf(),
            final(self).toks() == old(self).toks(),
            old(self).pos() <= final(self).pos(),
            r is Ok ==> old(self).pos() < final(self).pos(),
            expr_outcome(r, if_expression(old(self).toks(), old(self).pos()), final(self).pos()),
        decreases old(self).toks().len() - old(self).pos(), 2int,
    {
        match self.consume(Tag::If, Expectation::IfKeyword) {
            Ok(_) => {},
            Err(x) => return Err(x),
        }
        let cond = match self.parse_expression() {
            Ok(e) => e,
            Err(x) => return Err(x),
        };
        let then_branch = match self.parse_block_expression() {
            Ok(e) => e,
            Err(x) => return Err(x),
        };
        match self.consume(Tag::Else, Expectation::ElseKeyword) {
            Ok(_) => {},
            Err(x) => return Err(x),
        }
        let else_branch = if self.peek_tag() == Tag::If {
            match self.parse_if_expression() {
                Ok(e) => e,
                Err(x) => return Err(x),
            }
        } else {
            match self.parse_block_expression() {
                Ok(e) => e,
                Err(x) => return Err(x),
            }
        };
        Ok(Expression::If(Box::new(cond), Box::new(then_branch), Box::new(else_branch)))
    }

    /// Expressions separated by commas, appended to `args`.
    fn parse_arguments(&mut self, args: &mut Vec<Expression>) -> (r: Result<(), ParseError>)
        requires
            old(self).wf(),
        ensures
            final(self).wf(),
            final(self).toks() == old(self).toks(),
            old(self).pos() <= final(self).pos(),
            match arguments(old(self).toks(), old(self).pos()) {
                Ok((xs, q)) => r is Ok && exprs_view(final(args)@) == exprs_view(old(args)@) + xs
                    && final(self).pos() == q,
                Err(err) => r matches Err(x) && x@ == err,
            },
        decreases old(self).toks().len() - old(self).pos(), 9int,
    {
        let ghost ts = self.toks();
        let ghost p0 = self.pos();
        let ghost a0 = exprs_view(args@);
        let ghost mut got: Seq<SExpr> = Seq::empty();
        assert(arguments(ts, p0) == prefix_results(got, arguments(ts, p0))) by {
            if let Ok((ys, q)) = arguments(ts, p0) {
                assert(got + ys =~= ys);
            }
        }
        loop
            invariant
                self.wf(),
                self.toks() == ts,
                ts == old(self).toks(),
                p0 == old(self).pos(),
                p0 <= self.pos(),
                exprs_view(args@) == a0 + got,
                a0 == exprs_view(old(args)@),
                arguments(ts, p0) == prefix_results(got, arguments(ts, self.pos())),
            decreases ts.len() - self.pos(),
        {
            let e = match self.parse_expression() {
                Ok(e) => e,
                Err(x) => return Err(x),
            };
            let ghost ev = e@;
            let ghost before = args@;
            args.push(e);
            proof {
                assert(exprs_view(args@) =~= exprs_view(before).push(ev));
                assert(a0 + got.push(ev) =~= (a0 + got).push(ev));
            }
            if self.peek_tag() == Tag::Comma {
                self.advance();
                proof {
                    if let Ok((ys, q2)) = arguments(ts, self.pos()) {
                        assert(got + (seq![ev] + ys) =~= got.push(ev) + ys);
                    }
                    got = got.push(ev);
                }
            } else {
                proof {
                    assert(got + seq![ev] =~= got.push(ev));
                }
                return Ok(());
            }
        }
    }

    /// Reads an identifier, or fails with what was expected.
    fn consume_identifier(&mut self, x: Expectation) -> (r: Result<String, ParseError>)
        requires
            old(self).wf(),
        ensures
            final(self).wf(),
            final(self).toks() == old(self).toks(),
            is_at(old(self).toks(), old(self).pos(), Tag::Identifier) ==> (r matches Ok(name)
                && name@ == kind_at(old(self).toks(), old(self).pos())->Identifier_0
                && final(self).pos() == old(self).pos() + 1),
            !is_at(old(self).toks(), old(self).pos(), Tag::Identifier) ==> (r matches Err(e)
                && e@ == ParseErrorView::Expected(x, tk(old(self).toks(), old(self).pos()))),
            r is Err ==> final(self).pos() == old(self).pos(),
    {
        if self.position >= self.tokens.len() {
            return Err(ParseError::Expected(x, self.peek_token()));
        }
        match &self.tokens[self.position].kind {
            TokenKind::Identifier(name) => {
                let name = name.clone();
                self.advance();
                Ok(name)
            },
            _ => Err(ParseError::Expected(x, self.peek_token())),
        }
    }
}

} // verus!
