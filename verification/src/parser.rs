//! A recursive-descent (Pratt for binary operators) parser for the script
//! language, with error recovery: a statement that fails to parse is
//! recorded as an error and replaced by `RawStmt::Error`, and parsing
//! resumes at the next statement boundary.
//!
//! The specification is the grammar written as functions over the token
//! sequence: each `sp_*` function takes the parser state (position and the
//! errors found so far) and gives the result and the next state. Positions
//! never move backwards; `fwd` only makes that evident to the termination
//! checker.
use vstd::prelude::*;

use crate::ast::{
    body_v, expr_v, exprs_v, names_v, opt_expr_v, pairs_v, raw_expr_v, raw_stmt_v, stmt_v,
    stmts_v, ArrowBody, AssignOp, BinOp, BodyV,
    Expr, ExprV, PostfixOp, PrefixOp, RawExpr, RawStmt, SExpr, SStmt, Stmt, StmtV, VarKind,
};
use crate::lexer::{
    copy_span, lex_from, merge_spans, scan, LexItem, Lexeme, ParseError, Span, Spanned, SpannedToken,
    Token,
};

verus! {

/// A parse error as plain values.
pub struct PErr {
    pub msg: Seq<char>,
    pub span: Span,
}

pub open spec fn err_v(e: ParseError) -> PErr {
    PErr { msg: e.message@, span: e.span }
}

pub open spec fn errs_v(v: Seq<ParseError>) -> Seq<PErr> {
    v.map_values(|e: ParseError| err_v(e))
}

/// The parser state: the index of the next token, and the errors so far.
pub struct PS {
    pub pos: int,
    pub errs: Seq<PErr>,
}

pub type Toks = Seq<SpannedToken>;

/// The number of tokens left after position `s.pos`.
pub open spec fn left(ts: Toks, s: PS) -> nat {
    if s.pos < ts.len() {
        (ts.len() - s.pos) as nat
    } else {
        0
    }
}

/// `s2`, but never before `s`.
pub open spec fn fwd(s: PS, s2: PS) -> PS {
    PS { pos: if s2.pos < s.pos { s.pos } else { s2.pos }, errs: s2.errs }
}

pub open spec fn at(s: PS, p: int) -> PS {
    PS { pos: p, errs: s.errs }
}

pub open spec fn push_err(s: PS, e: PErr) -> PS {
    PS { pos: s.pos, errs: s.errs.push(e) }
}

/// The token at position `p`, if any.
pub open spec fn tok(ts: Toks, p: int) -> Option<Token> {
    if 0 <= p < ts.len() {
        Some(ts[p].node)
    } else {
        None
    }
}

pub open spec fn at_end(ts: Toks, p: int) -> bool {
    p >= ts.len()
}

/// The span of the token at `p`, else of the last token, else `0..0`.
pub open spec fn cur_span(ts: Toks, p: int) -> Span {
    if 0 <= p < ts.len() {
        ts[p].span
    } else if ts.len() > 0 {
        ts[ts.len() - 1].span
    } else {
        0..0
    }
}

/// The end of the token before `p` (of the first token when `p` is 0), or
/// `d` when there is no such token.
pub open spec fn prev_end(ts: Toks, p: int, d: usize) -> usize {
    let q = if p > 0 { p - 1 } else { 0 };
    if 0 <= q < ts.len() {
        ts[q].span.end
    } else {
        d
    }
}

/// The token kinds that carry no text.
pub open spec fn is_unit(t: Token) -> bool {
    !(t is Ident || t is Number || t is StringDouble || t is StringSingle)
}

/// Consume token `t` or record error `msg` at the current span.
pub open spec fn sp_expect(ts: Toks, s: PS, t: Token, msg: Seq<char>) -> PS {
    if tok(ts, s.pos) == Some(t) {
        at(s, s.pos + 1)
    } else {
        push_err(s, PErr { msg, span: cur_span(ts, s.pos) })
    }
}

/// Consume token `t` if it is next.
pub open spec fn sp_eat(ts: Toks, s: PS, t: Token) -> (bool, PS) {
    if tok(ts, s.pos) == Some(t) {
        (true, at(s, s.pos + 1))
    } else {
        (false, s)
    }
}

/// The position to resume at after a failed statement: just after the next
/// `;`, or at the next `}` or statement keyword, or at the end.
pub open spec fn sp_sync(ts: Toks, p: int) -> int
    decreases left(ts, at(PS { pos: 0, errs: seq![] }, p)),
{
    match tok(ts, p) {
        None => p,
        Some(Token::Semicolon) => p + 1,
        Some(Token::RBrace) | Some(Token::Let) | Some(Token::Const) | Some(Token::Var) | Some(
            Token::If,
        ) | Some(Token::For) | Some(Token::While) | Some(Token::Return) | Some(Token::Break)
        | Some(Token::Continue) | Some(Token::Function) => p,
        Some(_) => sp_sync(ts, p + 1),
    }
}

/// An identifier, or error `msg` at the current span.
pub open spec fn sp_expect_ident(ts: Toks, s: PS, msg: Seq<char>) -> (Result<Seq<char>, PErr>, PS) {
    match tok(ts, s.pos) {
        Some(Token::Ident(n)) => (Ok(n@), at(s, s.pos + 1)),
        _ => (Err(PErr { msg, span: cur_span(ts, s.pos) }), s),
    }
}

/// The names of a parameter list after its `(`: identifiers separated by
/// commas, up to `)` (not consumed) or the first name not followed by `,`.
pub open spec fn sp_param_names(ts: Toks, s: PS, acc: Seq<Seq<char>>) -> (
    Result<Seq<Seq<char>>, PErr>,
    PS,
)
    decreases left(ts, s),
{
    if tok(ts, s.pos) == Some(Token::RParen) || at_end(ts, s.pos) {
        (Ok(acc), s)
    } else {
        let (n, s2) = sp_expect_ident(ts, s, "expected parameter name"@);
        match n {
            Err(e) => (Err(e), s2),
            Ok(name) => {
                let (comma, s3) = sp_eat(ts, s2, Token::Comma);
                if comma {
                    sp_param_names(ts, s3, acc.push(name))
                } else {
                    (Ok(acc.push(name)), s3)
                }
            },
        }
    }
}

/// `( name, name, ... )`
pub open spec fn sp_params(ts: Toks, s: PS) -> (Result<Seq<Seq<char>>, PErr>, PS) {
    let s1 = sp_expect(ts, s, Token::LParen, "expected `(`"@);
    let (r, s2) = sp_param_names(ts, s1, seq![]);
    match r {
        Err(e) => (Err(e), s2),
        Ok(names) => (Ok(names), sp_expect(ts, s2, Token::RParen, "expected `)`"@)),
    }
}

/// The binary operator a token stands for.
pub open spec fn binop_of(t: Token) -> Option<BinOp> {
    match t {
        Token::Plus => Some(BinOp::Add),
        Token::Minus => Some(BinOp::Sub),
        Token::Star => Some(BinOp::Mul),
        Token::Slash => Some(BinOp::Div),
        Token::Percent => Some(BinOp::Mod),
        Token::StrictEq => Some(BinOp::StrictEq),
        Token::StrictNeq => Some(BinOp::StrictNeq),
        Token::Eq => Some(BinOp::Eq),
        Token::Neq => Some(BinOp::Neq),
        Token::Lt => Some(BinOp::Lt),
        Token::Lte => Some(BinOp::Lte),
        Token::Gt => Some(BinOp::Gt),
        Token::Gte => Some(BinOp::Gte),
        Token::And => Some(BinOp::And),
        Token::Or => Some(BinOp::Or),
        _ => None,
    }
}

/// Left and right binding power of a binary operator; higher binds tighter.
pub open spec fn binding_power(op: BinOp) -> (u8, u8) {
    match op {
        BinOp::Or => (1, 2),
        BinOp::And => (3, 4),
        BinOp::Eq | BinOp::Neq | BinOp::StrictEq | BinOp::StrictNeq => (5, 6),
        BinOp::Lt | BinOp::Lte | BinOp::Gt | BinOp::Gte => (7, 8),
        BinOp::Add | BinOp::Sub => (9, 10),
        BinOp::Mul | BinOp::Div | BinOp::Mod => (11, 12),
    }
}

pub open spec fn assign_op_of(t: Token) -> Option<AssignOp> {
    match t {
        Token::Assign => Some(AssignOp::Assign),
        Token::PlusAssign => Some(AssignOp::Add),
        Token::MinusAssign => Some(AssignOp::Sub),
        Token::MulAssign => Some(AssignOp::Mul),
        Token::DivAssign => Some(AssignOp::Div),
        _ => None,
    }
}

pub open spec fn prefix_op_of(t: Token) -> Option<PrefixOp> {
    match t {
        Token::Not => Some(PrefixOp::Not),
        Token::Minus => Some(PrefixOp::Neg),
        Token::PlusPlus => Some(PrefixOp::PlusPlus),
        Token::MinusMinus => Some(PrefixOp::MinusMinus),
        _ => None,
    }
}

/// The identifiers at the start of a parenthesised list, separated by
/// commas: the names, where the scan stopped, and whether it stopped
/// without meeting anything but identifiers and commas.
pub open spec fn sp_collect(ts: Toks, p: int, names: Seq<Seq<char>>) -> (Seq<Seq<char>>, int, bool)
    decreases left(ts, at(PS { pos: 0, errs: seq![] }, p)),
{
    if at_end(ts, p) || p < 0 {
        (names, p, true)
    } else {
        match tok(ts, p) {
            Some(Token::Ident(n)) => if tok(ts, p + 1) == Some(Token::Comma) {
                sp_collect(ts, p + 2, names.push(n@))
            } else {
                (names.push(n@), p + 1, true)
            },
            _ => (names, p, false),
        }
    }
}

// ---- executable primitives ----

/// A number telling token kinds apart (text is ignored).
pub open spec fn kind_code(t: Token) -> u8 {
    match t {
        Token::Let => 0,
        Token::Const => 1,
        Token::Var => 2,
        Token::For => 3,
        Token::While => 4,
        Token::Return => 5,
        Token::Try => 6,
        Token::Continue => 7,
        Token::Break => 8,
        Token::If => 9,
        Token::Else => 10,
        Token::Function => 11,
        Token::Null => 12,
        Token::True => 13,
        Token::False => 14,
        Token::HtmlOpen => 15,
        Token::HtmlClose => 16,
        Token::Ident(_) => 17,
        Token::Number(_) => 18,
        Token::StringDouble(_) => 19,
        Token::StringSingle(_) => 20,
        Token::Arrow => 21,
        Token::StrictEq => 22,
        Token::StrictNeq => 23,
        Token::PlusPlus => 24,
        Token::MinusMinus => 25,
        Token::Eq => 26,
        Token::Neq => 27,
        Token::Lte => 28,
        Token::Gte => 29,
        Token::And => 30,
        Token::Or => 31,
        Token::PlusAssign => 32,
        Token::MinusAssign => 33,
        Token::MulAssign => 34,
        Token::DivAssign => 35,
        Token::Lt => 36,
        Token::Gt => 37,
        Token::Not => 38,
        Token::Plus => 39,
        Token::Minus => 40,
        Token::Star => 41,
        Token::Slash => 42,
        Token::Percent => 43,
        Token::Assign => 44,
        Token::Dot => 45,
        Token::LParen => 46,
        Token::RParen => 47,
        Token::LBrace => 48,
        Token::RBrace => 49,
        Token::LBracket => 50,
        Token::RBracket => 51,
        Token::Semicolon => 52,
        Token::Comma => 53,
        Token::Colon => 54,
        Token::Question => 55,
    }
}

fn kind_of(t: &Token) -> (c: u8)
    ensures
        c == kind_code(*t),
{
    match t {
        Token::Let => 0,
        Token::Const => 1,
        Token::Var => 2,
        Token::For => 3,
        Token::While => 4,
        Token::Return => 5,
        Token::Try => 6,
        Token::Continue => 7,
        Token::Break => 8,
        Token::If => 9,
        Token::Else => 10,
        Token::Function => 11,
        Token::Null => 12,
        Token::True => 13,
        Token::False => 14,
        Token::HtmlOpen => 15,
        Token::HtmlClose => 16,
        Token::Ident(_) => 17,
        Token::Number(_) => 18,
        Token::StringDouble(_) => 19,
        Token::StringSingle(_) => 20,
        Token::Arrow => 21,
        Token::StrictEq => 22,
        Token::StrictNeq => 23,
        Token::PlusPlus => 24,
        Token::MinusMinus => 25,
        Token::Eq => 26,
        Token::Neq => 27,
        Token::Lte => 28,
        Token::Gte => 29,
        Token::And => 30,
        Token::Or => 31,
        Token::PlusAssign => 32,
        Token::MinusAssign => 33,
        Token::MulAssign => 34,
        Token::DivAssign => 35,
        Token::Lt => 36,
        Token::Gt => 37,
        Token::Not => 38,
        Token::Plus => 39,
        Token::Minus => 40,
        Token::Star => 41,
        Token::Slash => 42,
        Token::Percent => 43,
        Token::Assign => 44,
        Token::Dot => 45,
        Token::LParen => 46,
        Token::RParen => 47,
        Token::LBrace => 48,
        Token::RBrace => 49,
        Token::LBracket => 50,
        Token::RBracket => 51,
        Token::Semicolon => 52,
        Token::Comma => 53,
        Token::Colon => 54,
        Token::Question => 55,
    }
}

/// Whether `a` is the text-less token `b`.
fn is_token(a: &Token, b: &Token) -> (r: bool)
    requires
        is_unit(*b),
    ensures
        r == (*a == *b),
{
    kind_of(a) == kind_of(b)
}

/// The name of a token kind that carries no text, as `Debug` prints it.
pub open spec fn unit_token_name(t: Token) -> Seq<char> {
    match t {
        Token::Let => "Let"@,
        Token::Const => "Const"@,
        Token::Var => "Var"@,
        Token::For => "For"@,
        Token::While => "While"@,
        Token::Return => "Return"@,
        Token::Try => "Try"@,
        Token::Continue => "Continue"@,
        Token::Break => "Break"@,
        Token::If => "If"@,
        Token::Else => "Else"@,
        Token::Function => "Function"@,
        Token::Null => "Null"@,
        Token::True => "True"@,
        Token::False => "False"@,
        Token::HtmlOpen => "HtmlOpen"@,
        Token::HtmlClose => "HtmlClose"@,
        Token::Arrow => "Arrow"@,
        Token::StrictEq => "StrictEq"@,
        Token::StrictNeq => "StrictNeq"@,
        Token::PlusPlus => "PlusPlus"@,
        Token::MinusMinus => "MinusMinus"@,
        Token::Eq => "Eq"@,
        Token::Neq => "Neq"@,
        Token::Lte => "Lte"@,
        Token::Gte => "Gte"@,
        Token::And => "And"@,
        Token::Or => "Or"@,
        Token::PlusAssign => "PlusAssign"@,
        Token::MinusAssign => "MinusAssign"@,
        Token::MulAssign => "MulAssign"@,
        Token::DivAssign => "DivAssign"@,
        Token::Lt => "Lt"@,
        Token::Gt => "Gt"@,
        Token::Not => "Not"@,
        Token::Plus => "Plus"@,
        Token::Minus => "Minus"@,
        Token::Star => "Star"@,
        Token::Slash => "Slash"@,
        Token::Percent => "Percent"@,
        Token::Assign => "Assign"@,
        Token::Dot => "Dot"@,
        Token::LParen => "LParen"@,
        Token::RParen => "RParen"@,
        Token::LBrace => "LBrace"@,
        Token::RBrace => "RBrace"@,
        Token::LBracket => "LBracket"@,
        Token::RBracket => "RBracket"@,
        Token::Semicolon => "Semicolon"@,
        Token::Comma => "Comma"@,
        Token::Colon => "Colon"@,
        Token::Question => "Question"@,
        _ => seq![],
    }
}

/// The message for an unexpected token: "unexpected token `Name`".
pub open spec fn unexpected_token_text(t: Token) -> Seq<char> {
    "unexpected token `"@ + unit_token_name(t) + "`"@
}

fn unit_token_str(t: &Token) -> (r: &'static str)
    requires
        is_unit(*t),
    ensures
        r@ == unit_token_name(*t),
{
    match t {
        Token::Let => "Let",
        Token::Const => "Const",
        Token::Var => "Var",
        Token::For => "For",
        Token::While => "While",
        Token::Return => "Return",
        Token::Try => "Try",
        Token::Continue => "Continue",
        Token::Break => "Break",
        Token::If => "If",
        Token::Else => "Else",
        Token::Function => "Function",
        Token::Null => "Null",
        Token::True => "True",
        Token::False => "False",
        Token::HtmlOpen => "HtmlOpen",
        Token::HtmlClose => "HtmlClose",
        Token::Arrow => "Arrow",
        Token::StrictEq => "StrictEq",
        Token::StrictNeq => "StrictNeq",
        Token::PlusPlus => "PlusPlus",
        Token::MinusMinus => "MinusMinus",
        Token::Eq => "Eq",
        Token::Neq => "Neq",
        Token::Lte => "Lte",
        Token::Gte => "Gte",
        Token::And => "And",
        Token::Or => "Or",
        Token::PlusAssign => "PlusAssign",
        Token::MinusAssign => "MinusAssign",
        Token::MulAssign => "MulAssign",
        Token::DivAssign => "DivAssign",
        Token::Lt => "Lt",
        Token::Gt => "Gt",
        Token::Not => "Not",
        Token::Plus => "Plus",
        Token::Minus => "Minus",
        Token::Star => "Star",
        Token::Slash => "Slash",
        Token::Percent => "Percent",
        Token::Assign => "Assign",
        Token::Dot => "Dot",
        Token::LParen => "LParen",
        Token::RParen => "RParen",
        Token::LBrace => "LBrace",
        Token::RBrace => "RBrace",
        Token::LBracket => "LBracket",
        Token::RBracket => "RBracket",
        Token::Semicolon => "Semicolon",
        Token::Comma => "Comma",
        Token::Colon => "Colon",
        Token::Question => "Question",
        Token::Ident(_) | Token::Number(_) | Token::StringDouble(_) | Token::StringSingle(_) => "",
    }
}

/// The "unexpected token" message for a token that carries no text.
fn unexpected_token_message(t: &Token) -> (r: String)
    requires
        is_unit(*t),
    ensures
        r@ == unexpected_token_text(*t),
{
    let mut r = "unexpected token `".to_string();
    r.push_str(unit_token_str(t));
    r.push_str("`");
    r
}

/// Advance past the current token, if there is one.
pub open spec fn adv(ts: Toks, s: PS) -> PS {
    if 0 <= s.pos < ts.len() {
        at(s, s.pos + 1)
    } else {
        s
    }
}

// ---- statements ----

/// An arrow function body: a block, or an expression.
pub open spec fn sp_arrow_body(ts: Toks, s: PS) -> (Result<BodyV, PErr>, PS)
    decreases left(ts, s), 41nat,
{
    if tok(ts, s.pos) == Some(Token::LBrace) {
        let (b, s2) = sp_block(ts, s);
        (Ok(BodyV::Block(b)), s2)
    } else {
        let (e, s2) = sp_assign(ts, s);
        match e {
            Ok(x) => (Ok(BodyV::Expr(Box::new(x))), s2),
            Err(er) => (Err(er), s2),
        }
    }
}

/// `{ statements }`; a missing brace is recorded as an error.
pub open spec fn sp_block(ts: Toks, s: PS) -> (Seq<SStmt>, PS)
    decreases left(ts, s), 40nat,
{
    let s1 = sp_expect(ts, s, Token::LBrace, "expected `{`"@);
    let (items, s2) = sp_items(ts, s1, seq![]);
    (items, sp_expect(ts, fwd(s1, s2), Token::RBrace, "expected `}`"@))
}

/// Statements up to the end of input or a `}` (not consumed), after `acc`.
pub open spec fn sp_items(ts: Toks, s: PS, acc: Seq<SStmt>) -> (Seq<SStmt>, PS)
    decreases left(ts, s), 39nat,
{
    if at_end(ts, s.pos) || tok(ts, s.pos) == Some(Token::RBrace) {
        (acc, s)
    } else {
        let (st, s2) = sp_stmt(ts, s);
        let s2 = fwd(s, s2);
        if s2.pos <= s.pos {
            (acc.push(st), s2)
        } else {
            sp_items(ts, s2, acc.push(st))
        }
    }
}

/// One statement, chosen by its first token. On an error the error is
/// recorded, input is skipped to the next statement boundary, and the
/// statement is `Error`; its span runs from the statement's first token.
pub open spec fn sp_stmt(ts: Toks, s: PS) -> (SStmt, PS)
    decreases left(ts, s), 38nat,
{
    let start = cur_span(ts, s.pos).start;
    let (r, s2) = sp_stmt_kind(ts, s);
    match r {
        Ok(node) => (SStmt { node, span: start..prev_end(ts, s2.pos, start) }, s2),
        Err(e) => {
            let p = sp_sync(ts, s2.pos);
            (
                SStmt { node: StmtV::Error, span: start..cur_span(ts, p).end },
                PS { pos: p, errs: s2.errs.push(e) },
            )
        },
    }
}

/// The statement chosen by its first token, before error recovery.
pub open spec fn sp_stmt_kind(ts: Toks, s: PS) -> (Result<StmtV, PErr>, PS)
    decreases left(ts, s), 37nat,
{
    match tok(ts, s.pos) {
        Some(Token::Let) => sp_var_rest(ts, adv(ts, s), VarKind::Let),
        Some(Token::Const) => sp_var_rest(ts, adv(ts, s), VarKind::Const),
        Some(Token::Var) => sp_var_rest(ts, adv(ts, s), VarKind::Var),
        Some(Token::Function) => sp_function_rest(ts, adv(ts, s)),
        Some(Token::If) => sp_if_rest(ts, adv(ts, s)),
        Some(Token::While) => sp_while_rest(ts, adv(ts, s)),
        Some(Token::For) => sp_for_rest(ts, adv(ts, s)),
        Some(Token::Return) => sp_return_rest(ts, adv(ts, s)),
        Some(Token::Break) => (Ok(StmtV::Break), sp_eat(ts, adv(ts, s), Token::Semicolon).1),
        Some(Token::Continue) => (
            Ok(StmtV::Continue),
            sp_eat(ts, adv(ts, s), Token::Semicolon).1,
        ),
        Some(Token::HtmlOpen) => sp_html_rest(ts, adv(ts, s)),
        _ => sp_expr_stmt(ts, s),
    }
}

/// After `let`/`const`/`var`: `name [= expr] [;]`.
pub open spec fn sp_var_rest(ts: Toks, s: PS, kind: VarKind) -> (Result<StmtV, PErr>, PS)
    decreases left(ts, s), 45nat,
{
    let (n, s2) = sp_expect_ident(ts, s, "expected variable name"@);
    match n {
        Err(e) => (Err(e), s2),
        Ok(name) => {
            let (has_init, s3) = sp_eat(ts, s2, Token::Assign);
            if has_init {
                let (e, s4) = sp_assign(ts, s3);
                match e {
                    Err(er) => (Err(er), s4),
                    Ok(x) => (
                        Ok(StmtV::VarDecl(kind, name, Some(x))),
                        sp_eat(ts, s4, Token::Semicolon).1,
                    ),
                }
            } else {
                (Ok(StmtV::VarDecl(kind, name, None)), sp_eat(ts, s3, Token::Semicolon).1)
            }
        },
    }
}

/// After `function`: `name (params) { body }`.
pub open spec fn sp_function_rest(ts: Toks, s: PS) -> (Result<StmtV, PErr>, PS)
    decreases left(ts, s), 45nat,
{
    let (n, s2) = sp_expect_ident(ts, s, "expected function name"@);
    match n {
        Err(e) => (Err(e), s2),
        Ok(name) => {
            let (ps, s3) = sp_params(ts, s2);
            match ps {
                Err(e) => (Err(e), s3),
                Ok(params) => {
                    let (body, s4) = sp_block(ts, fwd(s, s3));
                    (Ok(StmtV::FunctionDecl(name, params, body)), s4)
                },
            }
        },
    }
}

/// After `if`: `(cond) { then } [else if ... | else { otherwise }]`.
pub open spec fn sp_if_rest(ts: Toks, s: PS) -> (Result<StmtV, PErr>, PS)
    decreases left(ts, s), 45nat,
{
    let s1 = sp_expect(ts, s, Token::LParen, "expected `(` after `if`"@);
    let (c, s2) = sp_assign(ts, s1);
    match c {
        Err(e) => (Err(e), s2),
        Ok(cond) => {
            let s3 = sp_expect(ts, fwd(s1, s2), Token::RParen, "expected `)` after condition"@);
            let (then, s4) = sp_block(ts, s3);
            let s4 = fwd(s3, s4);
            let (has_else, s5) = sp_eat(ts, s4, Token::Else);
            if has_else {
                if tok(ts, s5.pos) == Some(Token::If) {
                    let (st, s6) = sp_stmt(ts, s5);
                    (Ok(StmtV::If(cond, then, Some(seq![st]))), s6)
                } else {
                    let (other, s6) = sp_block(ts, s5);
                    (Ok(StmtV::If(cond, then, Some(other))), s6)
                }
            } else {
                (Ok(StmtV::If(cond, then, None)), s5)
            }
        },
    }
}

/// After `while`: `(cond) { body }`.
pub open spec fn sp_while_rest(ts: Toks, s: PS) -> (Result<StmtV, PErr>, PS)
    decreases left(ts, s), 45nat,
{
    let s1 = sp_expect(ts, s, Token::LParen, "expected `(` after `while`"@);
    let (c, s2) = sp_assign(ts, s1);
    match c {
        Err(e) => (Err(e), s2),
        Ok(cond) => {
            let s3 = sp_expect(ts, fwd(s1, s2), Token::RParen, "expected `)` after condition"@);
            let (body, s4) = sp_block(ts, s3);
            (Ok(StmtV::While(cond, body)), s4)
        },
    }
}

/// After `for`: `(init; cond; update) { body }`, each part optional.
pub open spec fn sp_for_rest(ts: Toks, s: PS) -> (Result<StmtV, PErr>, PS)
    decreases left(ts, s), 45nat,
{
    let s1 = sp_expect(ts, s, Token::LParen, "expected `(` after `for`"@);
    let (init, s2) = if tok(ts, s1.pos) == Some(Token::Semicolon) {
        (None, adv(ts, s1))
    } else {
        let (st, s2) = sp_stmt(ts, s1);
        (Some(Box::new(st)), fwd(s1, s2))
    };
    let (c, s3) = if tok(ts, s2.pos) == Some(Token::Semicolon) {
        (Ok(None), s2)
    } else {
        let (e, s3) = sp_assign(ts, s2);
        match e {
            Ok(x) => (Ok(Some(x)), fwd(s2, s3)),
            Err(er) => (Err(er), s3),
        }
    };
    match c {
        Err(e) => (Err(e), s3),
        Ok(cond) => {
            let s4 = sp_expect(ts, s3, Token::Semicolon, "expected `;`"@);
            let (u, s5) = if tok(ts, s4.pos) == Some(Token::RParen) {
                (Ok(None), s4)
            } else {
                let (e, s5) = sp_assign(ts, s4);
                match e {
                    Ok(x) => (Ok(Some(x)), fwd(s4, s5)),
                    Err(er) => (Err(er), s5),
                }
            };
            match u {
                Err(e) => (Err(e), s5),
                Ok(update) => {
                    let s6 = sp_expect(ts, s5, Token::RParen, "expected `)`"@);
                    let (body, s7) = sp_block(ts, s6);
                    (Ok(StmtV::For(init, cond, update, body)), s7)
                },
            }
        },
    }
}

/// After `return`: an optional value (absent before `;` or at the end),
/// then an optional `;`.
pub open spec fn sp_return_rest(ts: Toks, s: PS) -> (Result<StmtV, PErr>, PS)
    decreases left(ts, s), 45nat,
{
    let (v, s2) = sp_return_value(ts, s);
    match v {
        Err(er) => (Err(er), s2),
        Ok(x) => (Ok(StmtV::Return(x)), sp_eat(ts, s2, Token::Semicolon).1),
    }
}

/// The value of a `return`: none before `;` or at the end of input.
pub open spec fn sp_return_value(ts: Toks, s: PS) -> (Result<Option<SExpr>, PErr>, PS)
    decreases left(ts, s), 44nat,
{
    if tok(ts, s.pos) == Some(Token::Semicolon) || at_end(ts, s.pos) {
        (Ok(None), s)
    } else {
        let (e, s2) = sp_assign(ts, s);
        match e {
            Err(er) => (Err(er), s2),
            Ok(x) => (Ok(Some(x)), s2),
        }
    }
}

/// After `<html>`: statements, then `</html>`; an expression statement
/// holding the block, spanned by the token after `</html>`.
pub open spec fn sp_html_rest(ts: Toks, s: PS) -> (Result<StmtV, PErr>, PS)
    decreases left(ts, s), 45nat,
{
    let (inner, s2) = sp_items(ts, s, seq![]);
    let s3 = sp_expect(ts, s2, Token::HtmlClose, "expected `</html>`"@);
    (
        Ok(StmtV::Expr(SExpr { node: ExprV::HtmlBlock(inner), span: cur_span(ts, s3.pos) })),
        s3,
    )
}

/// An expression, then an optional `;`.
pub open spec fn sp_expr_stmt(ts: Toks, s: PS) -> (Result<StmtV, PErr>, PS)
    decreases left(ts, s), 36nat,
{
    let (e, s2) = sp_assign(ts, s);
    match e {
        Err(er) => (Err(er), s2),
        Ok(x) => (Ok(StmtV::Expr(x)), sp_eat(ts, s2, Token::Semicolon).1),
    }
}

// ---- expressions ----

/// An assignment (right-associative) or a Pratt expression.
pub open spec fn sp_assign(ts: Toks, s: PS) -> (Result<SExpr, PErr>, PS)
    decreases left(ts, s), 34nat,
{
    let (l, s2) = sp_pratt(ts, s, 0);
    match l {
        Err(e) => (Err(e), s2),
        Ok(left_e) => {
            let s2 = fwd(s, s2);
            match tok(ts, s2.pos) {
                Some(t) => match assign_op_of(t) {
                    Some(op) => {
                        let (r, s3) = sp_assign(ts, at(s2, s2.pos + 1));
                        match r {
                            Err(e) => (Err(e), s3),
                            Ok(right) => (
                                Ok(
                                    SExpr {
                                        node: ExprV::Assign(
                                            op,
                                            Box::new(left_e),
                                            Box::new(right),
                                        ),
                                        span: merge(left_e.span, right.span),
                                    },
                                ),
                                s3,
                            ),
                        }
                    },
                    None => (Ok(left_e), s2),
                },
                None => (Ok(left_e), s2),
            }
        },
    }
}

/// The span covering both spans.
pub open spec fn merge(a: Span, b: Span) -> Span {
    (if a.start <= b.start {
        a.start
    } else {
        b.start
    })..(if a.end >= b.end {
        a.end
    } else {
        b.end
    })
}

/// A binary expression whose operators bind at least as tightly as
/// `min_bp`, with `? :` allowed only at the lowest level.
pub open spec fn sp_pratt(ts: Toks, s: PS, min_bp: u8) -> (Result<SExpr, PErr>, PS)
    decreases left(ts, s), 33nat,
{
    let (l, s2) = sp_unary(ts, s);
    match l {
        Err(e) => (Err(e), s2),
        Ok(left_e) => sp_pratt_loop(ts, fwd(s, s2), left_e, min_bp),
    }
}

/// The operators that follow `lhs` in a Pratt expression.
pub open spec fn sp_pratt_loop(ts: Toks, s: PS, lhs: SExpr, min_bp: u8) -> (
    Result<SExpr, PErr>,
    PS,
)
    decreases left(ts, s), 32nat,
{
    match tok(ts, s.pos) {
        None => (Ok(lhs), s),
        Some(t) => if t == Token::Question {
            if min_bp > 0 {
                (Ok(lhs), s)
            } else {
                let s1 = at(s, s.pos + 1);
                let (th, s2) = sp_pratt(ts, s1, 0);
                match th {
                    Err(e) => (Err(e), s2),
                    Ok(then_e) => {
                        let s3 = sp_expect(
                            ts,
                            fwd(s1, s2),
                            Token::Colon,
                            "expected `:` in ternary"@,
                        );
                        let (ot, s4) = sp_pratt(ts, s3, 0);
                        match ot {
                            Err(e) => (Err(e), s4),
                            Ok(other) => sp_pratt_loop(
                                ts,
                                fwd(s3, s4),
                                SExpr {
                                    node: ExprV::Ternary(
                                        Box::new(lhs),
                                        Box::new(then_e),
                                        Box::new(other),
                                    ),
                                    span: merge(lhs.span, other.span),
                                },
                                min_bp,
                            ),
                        }
                    },
                }
            }
        } else {
            match binop_of(t) {
                None => (Ok(lhs), s),
                Some(op) => {
                    let (l_bp, r_bp) = binding_power(op);
                    if l_bp < min_bp {
                        (Ok(lhs), s)
                    } else {
                        let s1 = at(s, s.pos + 1);
                        let (r, s2) = sp_pratt(ts, s1, r_bp);
                        match r {
                            Err(e) => (Err(e), s2),
                            Ok(right) => sp_pratt_loop(
                                ts,
                                fwd(s1, s2),
                                SExpr {
                                    node: ExprV::Binary(op, Box::new(lhs), Box::new(right)),
                                    span: merge(lhs.span, right.span),
                                },
                                min_bp,
                            ),
                        }
                    }
                },
            }
        },
    }
}

/// Prefix operators, then a postfix expression.
pub open spec fn sp_unary(ts: Toks, s: PS) -> (Result<SExpr, PErr>, PS)
    decreases left(ts, s), 31nat,
{
    let start = cur_span(ts, s.pos).start;
    match tok(ts, s.pos) {
        Some(t) => match prefix_op_of(t) {
            Some(op) => {
                let (e, s2) = sp_unary(ts, at(s, s.pos + 1));
                match e {
                    Err(er) => (Err(er), s2),
                    Ok(x) => (
                        Ok(
                            SExpr {
                                node: ExprV::Prefix(op, Box::new(x)),
                                span: start..x.span.end,
                            },
                        ),
                        s2,
                    ),
                }
            },
            None => sp_postfix(ts, s),
        },
        None => sp_postfix(ts, s),
    }
}

/// A call expression followed by any number of `++` / `--`.
pub open spec fn sp_postfix(ts: Toks, s: PS) -> (Result<SExpr, PErr>, PS)
    decreases left(ts, s), 30nat,
{
    let (e, s2) = sp_call(ts, s);
    match e {
        Err(er) => (Err(er), s2),
        Ok(x) => sp_postfix_loop(ts, fwd(s, s2), x),
    }
}

pub open spec fn sp_postfix_loop(ts: Toks, s: PS, e: SExpr) -> (Result<SExpr, PErr>, PS)
    decreases left(ts, s), 29nat,
{
    match tok(ts, s.pos) {
        Some(Token::PlusPlus) => sp_postfix_loop(
            ts,
            at(s, s.pos + 1),
            SExpr {
                node: ExprV::Postfix(PostfixOp::PlusPlus, Box::new(e)),
                span: e.span.start..cur_span(ts, s.pos).end,
            },
        ),
        Some(Token::MinusMinus) => sp_postfix_loop(
            ts,
            at(s, s.pos + 1),
            SExpr {
                node: ExprV::Postfix(PostfixOp::MinusMinus, Box::new(e)),
                span: e.span.start..cur_span(ts, s.pos).end,
            },
        ),
        _ => (Ok(e), s),
    }
}

/// A primary expression followed by calls, `.name` and `[index]`.
pub open spec fn sp_call(ts: Toks, s: PS) -> (Result<SExpr, PErr>, PS)
    decreases left(ts, s), 28nat,
{
    let (e, s2) = sp_primary(ts, s);
    match e {
        Err(er) => (Err(er), s2),
        Ok(x) => sp_call_loop(ts, fwd(s, s2), x),
    }
}

pub open spec fn sp_call_loop(ts: Toks, s: PS, e: SExpr) -> (Result<SExpr, PErr>, PS)
    decreases left(ts, s), 27nat,
{
    match tok(ts, s.pos) {
        Some(Token::LParen) => {
            let s1 = at(s, s.pos + 1);
            let (args, s2) = sp_list(ts, s1, Token::RParen, seq![]);
            match args {
                Err(er) => (Err(er), s2),
                Ok(a) => {
                    let s2 = fwd(s1, s2);
                    let end = cur_span(ts, s2.pos).end;
                    let s3 = sp_expect(ts, s2, Token::RParen, "expected `)` after arguments"@);
                    sp_call_loop(
                        ts,
                        s3,
                        SExpr { node: ExprV::Call(Box::new(e), a), span: e.span.start..end },
                    )
                },
            }
        },
        Some(Token::Dot) => {
            let (prop, s2) = sp_expect_ident(
                ts,
                at(s, s.pos + 1),
                "expected property name after `.`"@,
            );
            match prop {
                Err(er) => (Err(er), s2),
                Ok(name) => sp_call_loop(
                    ts,
                    s2,
                    SExpr {
                        node: ExprV::Member(Box::new(e), name),
                        span: e.span.start..prev_end(ts, s2.pos, 0),
                    },
                ),
            }
        },
        Some(Token::LBracket) => {
            let s1 = at(s, s.pos + 1);
            let (idx, s2) = sp_assign(ts, s1);
            match idx {
                Err(er) => (Err(er), s2),
                Ok(i) => {
                    let s2 = fwd(s1, s2);
                    let end = cur_span(ts, s2.pos).end;
                    let s3 = sp_expect(ts, s2, Token::RBracket, "expected `]`"@);
                    sp_call_loop(
                        ts,
                        s3,
                        SExpr {
                            node: ExprV::Index(Box::new(e), Box::new(i)),
                            span: e.span.start..end,
                        },
                    )
                },
            }
        },
        _ => (Ok(e), s),
    }
}

/// Comma-separated expressions after `acc`, up to `close` (not consumed),
/// the end of input, or an item not followed by `,`.
pub open spec fn sp_list(ts: Toks, s: PS, close: Token, acc: Seq<SExpr>) -> (
    Result<Seq<SExpr>, PErr>,
    PS,
)
    decreases left(ts, s), 41nat,
{
    if tok(ts, s.pos) == Some(close) || at_end(ts, s.pos) {
        (Ok(acc), s)
    } else {
        let (e, s2) = sp_assign(ts, s);
        match e {
            Err(er) => (Err(er), s2),
            Ok(x) => {
                let (comma, s3) = sp_eat(ts, fwd(s, s2), Token::Comma);
                if comma {
                    sp_list(ts, s3, close, acc.push(x))
                } else {
                    (Ok(acc.push(x)), s3)
                }
            },
        }
    }
}

/// `key: value` pairs of an object literal after `acc`, up to `}` (not
/// consumed), the end of input, or a pair not followed by `,`. A key is an
/// identifier or a string literal (kept with its quotes).
pub open spec fn sp_pairs(ts: Toks, s: PS, acc: Seq<(Seq<char>, SExpr)>) -> (
    Result<Seq<(Seq<char>, SExpr)>, PErr>,
    PS,
)
    decreases left(ts, s), 41nat,
{
    if tok(ts, s.pos) == Some(Token::RBrace) || at_end(ts, s.pos) {
        (Ok(acc), s)
    } else {
        let key = match tok(ts, s.pos) {
            Some(Token::Ident(n)) => Some(n@),
            Some(Token::StringDouble(n)) => Some(n@),
            Some(Token::StringSingle(n)) => Some(n@),
            _ => None,
        };
        match key {
            None => (Err(PErr { msg: "expected object key"@, span: cur_span(ts, s.pos) }), s),
            Some(k) => {
                let s1 = sp_expect(
                    ts,
                    at(s, s.pos + 1),
                    Token::Colon,
                    "expected `:` after object key"@,
                );
                let (v, s2) = sp_assign(ts, s1);
                match v {
                    Err(er) => (Err(er), s2),
                    Ok(x) => {
                        let (comma, s3) = sp_eat(ts, fwd(s1, s2), Token::Comma);
                        if comma {
                            sp_pairs(ts, s3, acc.push((k, x)))
                        } else {
                            (Ok(acc.push((k, x))), s3)
                        }
                    },
                }
            },
        }
    }
}

/// A literal, identifier, arrow function, parenthesised expression, array
/// or object literal; anything else is an "unexpected token" error.
pub open spec fn sp_primary(ts: Toks, s: PS) -> (Result<SExpr, PErr>, PS)
    decreases left(ts, s), 26nat,
{
    let span = cur_span(ts, s.pos);
    match tok(ts, s.pos) {
        Some(Token::Number(n)) => (Ok(SExpr { node: ExprV::Number(n@), span }), adv(ts, s)),
        Some(Token::StringDouble(n)) => (
            Ok(SExpr { node: ExprV::StringLit(n@), span }),
            adv(ts, s),
        ),
        Some(Token::StringSingle(n)) => (
            Ok(SExpr { node: ExprV::StringLit(n@), span }),
            adv(ts, s),
        ),
        Some(Token::True) => (Ok(SExpr { node: ExprV::Bool(true), span }), adv(ts, s)),
        Some(Token::False) => (Ok(SExpr { node: ExprV::Bool(false), span }), adv(ts, s)),
        Some(Token::Null) => (Ok(SExpr { node: ExprV::Null, span }), adv(ts, s)),
        Some(Token::Ident(_)) => sp_ident_or_arrow(ts, s),
        Some(Token::LParen) => sp_paren_rest(ts, adv(ts, s), span.start),
        Some(Token::LBracket) => {
            let s1 = adv(ts, s);
            let (items, s2) = sp_list(ts, s1, Token::RBracket, seq![]);
            match items {
                Err(er) => (Err(er), s2),
                Ok(xs) => {
                    let end = cur_span(ts, s2.pos).end;
                    (
                        Ok(SExpr { node: ExprV::Array(xs), span: span.start..end }),
                        sp_expect(ts, s2, Token::RBracket, "expected `]`"@),
                    )
                },
            }
        },
        Some(Token::LBrace) => {
            let s1 = adv(ts, s);
            let (pairs, s2) = sp_pairs(ts, s1, seq![]);
            match pairs {
                Err(er) => (Err(er), s2),
                Ok(ps) => {
                    let end = cur_span(ts, s2.pos).end;
                    (
                        Ok(SExpr { node: ExprV::Object(ps), span: span.start..end }),
                        sp_expect(ts, s2, Token::RBrace, "expected `}`"@),
                    )
                },
            }
        },
        Some(t) => (Err(PErr { msg: unexpected_token_text(t), span }), s),
        None => (Err(PErr { msg: unexpected_token_text(Token::Semicolon), span }), s),
    }
}

/// An identifier, or the one-parameter arrow function `name => body`.
pub open spec fn sp_ident_or_arrow(ts: Toks, s: PS) -> (Result<SExpr, PErr>, PS)
    decreases left(ts, s), 25nat,
{
    let span = cur_span(ts, s.pos);
    let (n, s2) = sp_expect_ident(ts, s, "expected identifier"@);
    match n {
        Err(e) => (Err(e), s2),
        Ok(name) => if tok(ts, s2.pos) == Some(Token::Arrow) {
            let (b, s3) = sp_arrow_body(ts, adv(ts, s2));
            match b {
                Err(e) => (Err(e), s3),
                Ok(body) => (
                    Ok(
                        SExpr {
                            node: ExprV::Arrow(seq![name], body),
                            span: span.start..prev_end(ts, s3.pos, span.end),
                        },
                    ),
                    s3,
                ),
            }
        } else {
            (Ok(SExpr { node: ExprV::Ident(name), span }), s2)
        },
    }
}

/// After `(`: the parameter names of an arrow function and the state
/// after its `=>`, or (when it is not one) where a grouped expression starts.
pub open spec fn sp_arrow_head(ts: Toks, s: PS) -> (Seq<Seq<char>>, PS, bool) {
    if tok(ts, s.pos) == Some(Token::RParen) {
        let p1 = s.pos + 1;
        if tok(ts, p1) == Some(Token::Arrow) {
            (seq![], at(s, p1 + 1), true)
        } else {
            (seq![], at(s, p1), false)
        }
    } else {
        let (ns, p, all_idents) = sp_collect(ts, s.pos, seq![]);
        if all_idents && tok(ts, p) == Some(Token::RParen) && tok(ts, p + 1) == Some(
            Token::Arrow,
        ) {
            (ns, at(s, p + 2), true)
        } else {
            (ns, s, false)
        }
    }
}

/// After `(`: an arrow function `(a, b) => body` / `() => body`, or else a
/// parenthesised expression, which keeps its inner node and is spanned
/// from the `(` (at `start`) to its `)`.
pub open spec fn sp_paren_rest(ts: Toks, s: PS, start: usize) -> (Result<SExpr, PErr>, PS)
    decreases left(ts, s), 46nat,
{
    let (names, s1, is_arrow) = sp_arrow_head(ts, s);
    if is_arrow {
        let (b, s2) = sp_arrow_body(ts, fwd(s, s1));
        match b {
            Err(e) => (Err(e), s2),
            Ok(body) => (
                Ok(
                    SExpr {
                        node: ExprV::Arrow(names, body),
                        span: start..prev_end(ts, s2.pos, 0),
                    },
                ),
                s2,
            ),
        }
    } else {
        let (inner, s2) = sp_assign(ts, fwd(s, s1));
        match inner {
            Err(e) => (Err(e), s2),
            Ok(x) => {
                let end = cur_span(ts, s2.pos).end;
                (
                    Ok(SExpr { node: x.node, span: start..end }),
                    sp_expect(ts, s2, Token::RParen, "expected `)`"@),
                )
            },
        }
    }
}

// ---- the parser ----

/// A parser over a token vector. It never fails: errors are collected and
/// returned beside the statements.
pub struct Parser {
    tokens: Vec<SpannedToken>,
    pos: usize,
    errors: Vec<ParseError>,
}

pub open spec fn rexpr(r: Result<Expr, ParseError>) -> Result<SExpr, PErr> {
    match r {
        Ok(e) => Ok(expr_v(e)),
        Err(e) => Err(err_v(e)),
    }
}

pub open spec fn rstmt(r: Result<RawStmt, ParseError>) -> Result<StmtV, PErr> {
    match r {
        Ok(s) => Ok(raw_stmt_v(s)),
        Err(e) => Err(err_v(e)),
    }
}

pub open spec fn rbody(r: Result<ArrowBody, ParseError>) -> Result<BodyV, PErr> {
    match r {
        Ok(b) => Ok(body_v(b)),
        Err(e) => Err(err_v(e)),
    }
}

impl Parser {
    /// The tokens being parsed.
    pub closed spec fn tokens_view(&self) -> Toks {
        self.tokens@
    }

    /// The parser's position and errors.
    pub closed spec fn state(&self) -> PS {
        PS { pos: self.pos as int, errs: errs_v(self.errors@) }
    }

    pub closed spec fn wf(&self) -> bool {
        self.pos <= self.tokens.len()
    }

    /// `after` is `self` moved forward over the same tokens.
    pub closed spec fn moved_to(&self, after: &Parser) -> bool {
        &&& after.tokens@ == self.tokens@
        &&& self.pos <= after.pos <= after.tokens.len()
    }

    pub fn new(tokens: Vec<SpannedToken>) -> (p: Self)
        ensures
            p.tokens_view() == tokens@,
            p.state() == (PS { pos: 0, errs: seq![] }),
            p.wf(),
    {
        let p = Parser { tokens, pos: 0, errors: Vec::new() };
        assert(errs_v(p.errors@) =~= Seq::<PErr>::empty());
        p
    }

    fn peek(&self) -> (r: Option<&Token>)
        ensures
            match r {
                Some(t) => tok(self.tokens@, self.pos as int) == Some(*t),
                None => tok(self.tokens@, self.pos as int) is None,
            },
    {
        if self.pos < self.tokens.len() {
            Some(&self.tokens[self.pos].node)
        } else {
            None
        }
    }

    fn peek_spanned(&self) -> (r: Option<&SpannedToken>)
        ensures
            match r {
                Some(t) => self.pos < self.tokens.len() && *t == self.tokens@[self.pos as int],
                None => self.pos >= self.tokens.len(),
            },
    {
        if self.pos < self.tokens.len() {
            Some(&self.tokens[self.pos])
        } else {
            None
        }
    }

    fn peek_is(&self, t: &Token) -> (b: bool)
        requires
            is_unit(*t),
        ensures
            b == (tok(self.tokens@, self.pos as int) == Some(*t)),
    {
        match self.peek() {
            Some(x) => is_token(x, t),
            None => false,
        }
    }

    fn current_span(&self) -> (r: Span)
        ensures
            r == cur_span(self.tokens@, self.pos as int),
    {
        if self.pos < self.tokens.len() {
            copy_span(&self.tokens[self.pos].span)
        } else if self.tokens.len() > 0 {
            copy_span(&self.tokens[self.tokens.len() - 1].span)
        } else {
            0..0
        }
    }

    fn prev_end(&self, d: usize) -> (r: usize)
        ensures
            r == prev_end(self.tokens@, self.pos as int, d),
    {
        let q = if self.pos > 0 {
            self.pos - 1
        } else {
            0
        };
        if q < self.tokens.len() {
            self.tokens[q].span.end
        } else {
            d
        }
    }

    fn advance(&mut self)
        requires
            old(self).wf(),
        ensures
            final(self).tokens@ == old(self).tokens@,
            final(self).errors@ == old(self).errors@,
            final(self).state() == adv(old(self).tokens@, old(self).state()),
            final(self).wf(),
    {
        if self.pos < self.tokens.len() {
            self.pos = self.pos + 1;
        }
    }

    fn is_at_end(&self) -> (b: bool)
        ensures
            b == at_end(self.tokens@, self.pos as int),
    {
        self.pos >= self.tokens.len()
    }

    /// Consume `expected` if it is next, else record error `msg`.
    fn expect(&mut self, expected: &Token, msg: &str) -> (r: Option<Span>)
        requires
            old(self).wf(),
            is_unit(*expected),
        ensures
            old(self).moved_to(final(self)),
            final(self).state() == sp_expect(
                old(self).tokens@,
                old(self).state(),
                *expected,
                msg@,
            ),
            r == (if tok(old(self).tokens@, old(self).pos as int) == Some(*expected) {
                Some(cur_span(old(self).tokens@, old(self).pos as int))
            } else {
                None
            }),
    {
        if self.peek_is(expected) {
            let span = self.current_span();
            self.advance();
            Some(span)
        } else {
            let span = self.current_span();
            let ghost before = self.errors@;
            self.errors.push(ParseError { message: msg.to_string(), span });
            assert(errs_v(self.errors@) =~= errs_v(before).push(
                PErr { msg: msg@, span: cur_span(self.tokens@, self.pos as int) },
            ));
            None
        }
    }

    /// Consume `token` if it is next.
    fn eat(&mut self, token: &Token) -> (b: bool)
        requires
            old(self).wf(),
            is_unit(*token),
        ensures
            old(self).moved_to(final(self)),
            (b, final(self).state()) == sp_eat(old(self).tokens@, old(self).state(), *token),
    {
        if self.peek_is(token) {
            self.advance();
            true
        } else {
            false
        }
    }

    /// Skip to a safe restart point: past the next `;`, or to the next `}`
    /// or statement keyword, or to the end.
    fn synchronize(&mut self)
        requires
            old(self).wf(),
        ensures
            old(self).moved_to(final(self)),
            final(self).errors@ == old(self).errors@,
            final(self).pos == sp_sync(old(self).tokens@, old(self).pos as int),
    {
        let ghost p0 = self.pos as int;
        loop
            invariant
                self.tokens@ == old(self).tokens@,
                self.errors@ == old(self).errors@,
                old(self).pos <= self.pos <= self.tokens.len(),
                sp_sync(self.tokens@, p0) == sp_sync(self.tokens@, self.pos as int),
                p0 == old(self).pos,
            decreases self.tokens.len() - self.pos,
        {
            match self.peek() {
                None => {
                    return ;
                },
                Some(Token::Semicolon) => {
                    self.advance();
                    return ;
                },
                Some(Token::RBrace) => {
                    return ;
                },
                Some(Token::Let) | Some(Token::Const) | Some(Token::Var) | Some(Token::If) | Some(
                    Token::For,
                ) | Some(Token::While) | Some(Token::Return) | Some(Token::Break) | Some(
                    Token::Continue,
                ) | Some(Token::Function) => {
                    return ;
                },
                _ => {
                    self.advance();
                },
            }
        }
    }

    /// Parse a whole token sequence into statements, with the errors found.
    pub fn parse(tokens: Vec<SpannedToken>) -> (r: (Vec<Stmt>, Vec<ParseError>))
        ensures
            ({
                let (items, s) = sp_items(tokens@, PS { pos: 0, errs: seq![] }, seq![]);
                stmts_v(r.0@) == items && errs_v(r.1@) == s.errs
            }),
            r.0.len() <= tokens.len(),
            tokens.len() == 0 ==> r.0.len() == 0 && r.1.len() == 0,
            (exists|i: int| 0 <= i < stmts_v(r.0@).len() && stmts_v(r.0@)[i].node is Error) ==> r.1.len() > 0,
    {
        let ghost ts = tokens@;
        proof {
            lemma_items_count(ts, PS { pos: 0, errs: seq![] }, seq![]);
            lemma_error_statement_recorded(ts);
        }
        let mut p = Parser::new(tokens);
        let stmts = p.parse_block_contents();
        proof {
            crate::ast::lemma_stmts_v_len(stmts@);
            assert(errs_v(p.errors@).len() == p.errors@.len());
            assert(at_end(ts, 0) ==> sp_items(ts, PS { pos: 0, errs: seq![] }, seq![]).1.errs.len() == 0);
        }
        (stmts, p.errors)
    }

    fn parse_block_contents(&mut self) -> (r: Vec<Stmt>)
        requires
            old(self).wf(),
        ensures
            old(self).moved_to(final(self)),
            (stmts_v(r@), final(self).state()) == sp_items(
                old(self).tokens@,
                old(self).state(),
                seq![],
            ),
        decreases left(old(self).tokens@, old(self).state()), 39nat,
    {
        let ghost ts = self.tokens@;
        let ghost s0 = self.state();
        let mut stmts: Vec<Stmt> = Vec::new();
        assert(stmts_v(stmts@) =~= Seq::<SStmt>::empty());
        while !self.is_at_end() && !self.peek_is(&Token::RBrace)
            invariant
                self.tokens@ == ts,
                ts == old(self).tokens@,
                s0 == old(self).state(),
                old(self).pos <= self.pos <= self.tokens.len(),
                sp_items(ts, s0, seq![]) == sp_items(ts, self.state(), stmts_v(stmts@)),
            decreases self.tokens.len() - self.pos,
        {
            let ghost before = stmts@;
            let st = self.parse_stmt();
            stmts.push(st);
            assert(stmts@.drop_last() =~= before);
        }
        stmts
    }

    fn parse_block(&mut self) -> (r: Vec<Stmt>)
        requires
            old(self).wf(),
        ensures
            old(self).moved_to(final(self)),
            (stmts_v(r@), final(self).state()) == sp_block(old(self).tokens@, old(self).state()),
        decreases left(old(self).tokens@, old(self).state()), 40nat,
    {
        self.expect(&Token::LBrace, "expected `{`");
        let stmts = self.parse_block_contents();
        self.expect(&Token::RBrace, "expected `}`");
        stmts
    }
}

impl Parser {
    #[verifier::rlimit(60)]
    fn parse_stmt(&mut self) -> (r: Stmt)
        requires
            old(self).wf(),
        ensures
            old(self).moved_to(final(self)),
            (stmt_v(r), final(self).state()) == sp_stmt(old(self).tokens@, old(self).state()),
            old(self).pos < old(self).tokens.len() && tok(old(self).tokens@, old(self).pos as int)
                != Some(Token::RBrace) ==> final(self).pos > old(self).pos,
        decreases left(old(self).tokens@, old(self).state()), 38nat,
    {
        let ghost ts = self.tokens@;
        let ghost s0 = self.state();
        let start = self.current_span().start;
        let result = self.parse_stmt_kind();
        match result {
            Ok(node) => {
                let end = self.prev_end(start);
                Spanned::new(node, start..end)
            },
            Err(e) => {
                let ghost before = self.errors@;
                let ghost ev = err_v(e);
                let ghost p2 = self.pos as int;
                self.errors.push(e);
                assert(errs_v(self.errors@) =~= errs_v(before).push(ev));
                self.synchronize();
                proof {
                    lemma_sync_progress(ts, p2);
                }
                let end = self.current_span().end;
                Spanned::new(RawStmt::Error, start..end)
            },
        }
    }

    /// The statement chosen by its first token, before error recovery.
    #[verifier::rlimit(60)]
    fn parse_stmt_kind(&mut self) -> (r: Result<RawStmt, ParseError>)
        requires
            old(self).wf(),
        ensures
            old(self).moved_to(final(self)),
            (rstmt(r), final(self).state()) == sp_stmt_kind(old(self).tokens@, old(self).state()),
            r is Ok ==> final(self).pos > old(self).pos,
            tok(old(self).tokens@, old(self).pos as int) matches Some(
                Token::Let | Token::Const | Token::Var | Token::If | Token::For | Token::While
                | Token::Return | Token::Break | Token::Continue | Token::Function,
            ) ==> final(self).pos > old(self).pos,
        decreases left(old(self).tokens@, old(self).state()), 37nat,
    {
        let ghost ts = self.tokens@;
        let ghost s0 = self.state();
        match self.peek() {
            Some(Token::Let) => self.parse_var_decl(VarKind::Let),
            Some(Token::Const) => self.parse_var_decl(VarKind::Const),
            Some(Token::Var) => self.parse_var_decl(VarKind::Var),
            Some(Token::Function) => self.parse_function_decl(),
            Some(Token::If) => self.parse_if(),
            Some(Token::While) => self.parse_while(),
            Some(Token::For) => self.parse_for(),
            Some(Token::Return) => self.parse_return(),
            Some(Token::Break) => {
                self.advance();
                self.eat(&Token::Semicolon);
                assert(raw_stmt_v(RawStmt::Break) == StmtV::Break);
                Ok(RawStmt::Break)
            },
            Some(Token::Continue) => {
                self.advance();
                self.eat(&Token::Semicolon);
                assert(raw_stmt_v(RawStmt::Continue) == StmtV::Continue);
                Ok(RawStmt::Continue)
            },
            Some(Token::HtmlOpen) => self.parse_html_block_stmt(),
            _ => self.parse_expr_stmt(),
        }
    }

    /// `let`/`const`/`var` declarations.
    fn parse_var_decl(&mut self, kind: VarKind) -> (r: Result<RawStmt, ParseError>)
        requires
            old(self).wf(),
            old(self).pos < old(self).tokens.len(),
        ensures
            old(self).moved_to(final(self)),
            final(self).pos > old(self).pos,
            (rstmt(r), final(self).state()) == sp_var_rest(
                old(self).tokens@,
                adv(old(self).tokens@, old(self).state()),
                kind,
            ),
        decreases left(old(self).tokens@, old(self).state()), 36nat,
    {
        self.advance();
        let name = self.expect_ident("expected variable name")?;
        let init = if self.eat(&Token::Assign) {
            Some(self.parse_expr()?)
        } else {
            None
        };
        self.eat(&Token::Semicolon);
        Ok(RawStmt::VarDecl { kind, name, init })
    }

    fn parse_function_decl(&mut self) -> (r: Result<RawStmt, ParseError>)
        requires
            old(self).wf(),
            old(self).pos < old(self).tokens.len(),
        ensures
            old(self).moved_to(final(self)),
            final(self).pos > old(self).pos,
            (rstmt(r), final(self).state()) == sp_function_rest(
                old(self).tokens@,
                adv(old(self).tokens@, old(self).state()),
            ),
        decreases left(old(self).tokens@, old(self).state()), 36nat,
    {
        self.advance();
        let name = self.expect_ident("expected function name")?;
        let params = self.parse_params()?;
        let body = self.parse_block();
        Ok(RawStmt::FunctionDecl { name, params, body })
    }

    fn parse_if(&mut self) -> (r: Result<RawStmt, ParseError>)
        requires
            old(self).wf(),
            old(self).pos < old(self).tokens.len(),
        ensures
            old(self).moved_to(final(self)),
            final(self).pos > old(self).pos,
            (rstmt(r), final(self).state()) == sp_if_rest(
                old(self).tokens@,
                adv(old(self).tokens@, old(self).state()),
            ),
        decreases left(old(self).tokens@, old(self).state()), 36nat,
    {
        self.advance();
        self.expect(&Token::LParen, "expected `(` after `if`");
        let cond = self.parse_expr()?;
        self.expect(&Token::RParen, "expected `)` after condition");
        let then = self.parse_block();
        let otherwise = if self.eat(&Token::Else) {
            if self.peek_is(&Token::If) {
                let s = self.parse_stmt();
                let mut v: Vec<Stmt> = Vec::new();
                v.push(s);
                proof {
                    lemma_stmts_one(v@);
                }
                Some(v)
            } else {
                Some(self.parse_block())
            }
        } else {
            None
        };
        Ok(RawStmt::If { cond, then, otherwise })
    }

    fn parse_while(&mut self) -> (r: Result<RawStmt, ParseError>)
        requires
            old(self).wf(),
            old(self).pos < old(self).tokens.len(),
        ensures
            old(self).moved_to(final(self)),
            final(self).pos > old(self).pos,
            (rstmt(r), final(self).state()) == sp_while_rest(
                old(self).tokens@,
                adv(old(self).tokens@, old(self).state()),
            ),
        decreases left(old(self).tokens@, old(self).state()), 36nat,
    {
        self.advance();
        self.expect(&Token::LParen, "expected `(` after `while`");
        let cond = self.parse_expr()?;
        self.expect(&Token::RParen, "expected `)` after condition");
        let body = self.parse_block();
        Ok(RawStmt::While { cond, body })
    }

    fn parse_for(&mut self) -> (r: Result<RawStmt, ParseError>)
        requires
            old(self).wf(),
            old(self).pos < old(self).tokens.len(),
        ensures
            old(self).moved_to(final(self)),
            final(self).pos > old(self).pos,
            (rstmt(r), final(self).state()) == sp_for_rest(
                old(self).tokens@,
                adv(old(self).tokens@, old(self).state()),
            ),
        decreases left(old(self).tokens@, old(self).state()), 36nat,
    {
        self.advance();
        self.expect(&Token::LParen, "expected `(` after `for`");
        let init = if self.peek_is(&Token::Semicolon) {
            self.advance();
            None
        } else {
            let s = self.parse_stmt();
            Some(Box::new(s))
        };
        let cond = if self.peek_is(&Token::Semicolon) {
            None
        } else {
            Some(self.parse_expr()?)
        };
        self.expect(&Token::Semicolon, "expected `;`");
        let update = if self.peek_is(&Token::RParen) {
            None
        } else {
            Some(self.parse_expr()?)
        };
        self.expect(&Token::RParen, "expected `)`");
        let body = self.parse_block();
        Ok(RawStmt::For { init, cond, update, body })
    }

    fn parse_return(&mut self) -> (r: Result<RawStmt, ParseError>)
        requires
            old(self).wf(),
            old(self).pos < old(self).tokens.len(),
        ensures
            old(self).moved_to(final(self)),
            final(self).pos > old(self).pos,
            (rstmt(r), final(self).state()) == sp_return_rest(
                old(self).tokens@,
                adv(old(self).tokens@, old(self).state()),
            ),
        decreases left(old(self).tokens@, old(self).state()), 36nat,
    {
        self.advance();
        match self.parse_return_value() {
            Err(e) => Err(e),
            Ok(v) => {
                self.eat(&Token::Semicolon);
                let r = RawStmt::Return(v);
                assert(raw_stmt_v(r) == StmtV::Return(opt_expr_v(v)));
                Ok(r)
            },
        }
    }

    /// The value of a `return`: none before `;` or at the end.
    fn parse_return_value(&mut self) -> (r: Result<Option<Expr>, ParseError>)
        requires
            old(self).wf(),
        ensures
            old(self).moved_to(final(self)),
            (match r {
                Ok(v) => Ok(opt_expr_v(v)),
                Err(e) => Err(err_v(e)),
            }, final(self).state()) == sp_return_value(old(self).tokens@, old(self).state()),
        decreases left(old(self).tokens@, old(self).state()), 36nat,
    {
        if self.peek_is(&Token::Semicolon) || self.is_at_end() {
            assert(opt_expr_v(None) == None::<SExpr>);
            Ok(None)
        } else {
            self.parse_return_expr()
        }
    }

    /// The value of a `return` that has one.
    fn parse_return_expr(&mut self) -> (r: Result<Option<Expr>, ParseError>)
        requires
            old(self).wf(),
            !at_end(old(self).tokens@, old(self).pos as int),
            tok(old(self).tokens@, old(self).pos as int) != Some(Token::Semicolon),
        ensures
            old(self).moved_to(final(self)),
            (match r {
                Ok(v) => Ok(opt_expr_v(v)),
                Err(e) => Err(err_v(e)),
            }, final(self).state()) == sp_return_value(old(self).tokens@, old(self).state()),
        decreases left(old(self).tokens@, old(self).state()), 35nat,
    {
        match self.parse_assign() {
            Err(e) => Err(e),
            Ok(x) => {
                assert(opt_expr_v(Some(x)) == Some(expr_v(x)));
                Ok(Some(x))
            },
        }
    }

    fn parse_html_block_stmt(&mut self) -> (r: Result<RawStmt, ParseError>)
        requires
            old(self).wf(),
            old(self).pos < old(self).tokens.len(),
        ensures
            old(self).moved_to(final(self)),
            final(self).pos > old(self).pos,
            (rstmt(r), final(self).state()) == sp_html_rest(
                old(self).tokens@,
                adv(old(self).tokens@, old(self).state()),
            ),
        decreases left(old(self).tokens@, old(self).state()), 36nat,
    {
        self.advance();
        let inner = self.parse_block_contents();
        self.expect(&Token::HtmlClose, "expected `</html>`");
        let span = self.current_span();
        let e = Spanned::new(RawExpr::HtmlBlock(inner), span);
        assert(expr_v(e) == SExpr { node: ExprV::HtmlBlock(stmts_v(inner@)), span: span });
        let r = RawStmt::Expr(e);
        assert(raw_stmt_v(r) == StmtV::Expr(expr_v(e)));
        Ok(r)
    }

    #[verifier::rlimit(60)]
    fn parse_expr_stmt(&mut self) -> (r: Result<RawStmt, ParseError>)
        requires
            old(self).wf(),
        ensures
            old(self).moved_to(final(self)),
            r is Ok ==> final(self).pos > old(self).pos,
            (rstmt(r), final(self).state()) == sp_expr_stmt(old(self).tokens@, old(self).state()),
        decreases left(old(self).tokens@, old(self).state()), 36nat,
    {
        match self.parse_expr() {
            Err(e) => Err(e),
            Ok(expr) => {
                self.eat(&Token::Semicolon);
                let r = RawStmt::Expr(expr);
                assert(raw_stmt_v(r) == StmtV::Expr(expr_v(expr)));
                Ok(r)
            },
        }
    }

    // ---- helpers ----

    fn expect_ident(&mut self, msg: &str) -> (r: Result<String, ParseError>)
        requires
            old(self).wf(),
        ensures
            old(self).moved_to(final(self)),
            r is Ok ==> final(self).pos > old(self).pos,
            (match r {
                Ok(n) => Ok(n@),
                Err(e) => Err(err_v(e)),
            }, final(self).state()) == sp_expect_ident(
                old(self).tokens@,
                old(self).state(),
                msg@,
            ),
    {
        if self.pos < self.tokens.len() {
            if let Token::Ident(s) = &self.tokens[self.pos].node {
                let name = s.clone();
                self.advance();
                return Ok(name);
            }
        }
        let span = self.current_span();
        Err(ParseError { message: msg.to_string(), span })
    }

    fn parse_params(&mut self) -> (r: Result<Vec<String>, ParseError>)
        requires
            old(self).wf(),
        ensures
            old(self).moved_to(final(self)),
            (match r {
                Ok(v) => Ok(names_v(v@)),
                Err(e) => Err(err_v(e)),
            }, final(self).state()) == sp_params(old(self).tokens@, old(self).state()),
    {
        let ghost ts = self.tokens@;
        self.expect(&Token::LParen, "expected `(`");
        let ghost s1 = self.state();
        let mut params: Vec<String> = Vec::new();
        assert(names_v(params@) =~= Seq::<Seq<char>>::empty());
        while !self.peek_is(&Token::RParen) && !self.is_at_end()
            invariant
                self.tokens@ == ts,
                ts == old(self).tokens@,
                old(self).pos <= self.pos <= self.tokens.len(),
                s1 == sp_expect(ts, old(self).state(), Token::LParen, "expected `(`"@),
                sp_param_names(ts, s1, seq![]) == sp_param_names(
                    ts,
                    self.state(),
                    names_v(params@),
                ),
            decreases self.tokens.len() - self.pos,
        {
            let ghost sc = self.state();
            let ghost acc = names_v(params@);
            assert(sp_param_names(ts, sc, acc) == ({
                let (n, s2) = sp_expect_ident(ts, sc, "expected parameter name"@);
                match n {
                    Err(e) => (Err(e), s2),
                    Ok(name) => {
                        let (comma, s3) = sp_eat(ts, s2, Token::Comma);
                        if comma {
                            sp_param_names(ts, s3, acc.push(name))
                        } else {
                            (Ok(acc.push(name)), s3)
                        }
                    },
                }
            }));
            let name = match self.expect_ident("expected parameter name") {
                Ok(n) => n,
                Err(e) => {
                    return Err(e);
                },
            };
            let ghost before = params@;
            params.push(name);
            assert(names_v(params@) =~= names_v(before).push(params@[before.len() as int]@));
            if !self.eat(&Token::Comma) {
                self.expect(&Token::RParen, "expected `)`");
                return Ok(params);
            }
        }
        self.expect(&Token::RParen, "expected `)`");
        Ok(params)
    }
}

proof fn lemma_stmts_one(v: Seq<Stmt>)
    requires
        v.len() == 1,
    ensures
        stmts_v(v) == seq![stmt_v(v[0])],
{
    reveal_with_fuel(stmts_v, 2);
    assert(v.drop_last() =~= Seq::<Stmt>::empty());
    assert(stmts_v(v.drop_last()) =~= Seq::<SStmt>::empty());
}

/// A failed statement always moves the parser when it does not stop at a
/// statement boundary.
proof fn lemma_sync_progress(ts: Toks, p: int)
    requires
        0 <= p <= ts.len(),
    ensures
        p <= sp_sync(ts, p) <= ts.len(),
        p < ts.len() && !(tok(ts, p) matches Some(
            Token::RBrace | Token::Let | Token::Const | Token::Var | Token::If | Token::For
            | Token::While | Token::Return | Token::Break | Token::Continue | Token::Function,
        )) ==> sp_sync(ts, p) > p,
    decreases ts.len() - p,
{
    if p < ts.len() {
        lemma_sync_progress(ts, p + 1);
    }
}

impl Parser {
    fn parse_expr(&mut self) -> (r: Result<Expr, ParseError>)
        requires
            old(self).wf(),
        ensures
            old(self).moved_to(final(self)),
            r is Ok ==> final(self).pos > old(self).pos,
            (rexpr(r), final(self).state()) == sp_assign(old(self).tokens@, old(self).state()),
        decreases left(old(self).tokens@, old(self).state()), 35nat,
    {
        self.parse_assign()
    }

    /// Assignment is right-associative, so it is parsed outside the Pratt loop.
    fn parse_assign(&mut self) -> (r: Result<Expr, ParseError>)
        requires
            old(self).wf(),
        ensures
            old(self).moved_to(final(self)),
            r is Ok ==> final(self).pos > old(self).pos,
            (rexpr(r), final(self).state()) == sp_assign(old(self).tokens@, old(self).state()),
        decreases left(old(self).tokens@, old(self).state()), 34nat,
    {
        let left = self.parse_pratt(0)?;
        let op = match self.peek() {
            Some(Token::Assign) => Some(AssignOp::Assign),
            Some(Token::PlusAssign) => Some(AssignOp::Add),
            Some(Token::MinusAssign) => Some(AssignOp::Sub),
            Some(Token::MulAssign) => Some(AssignOp::Mul),
            Some(Token::DivAssign) => Some(AssignOp::Div),
            _ => None,
        };
        if let Some(op) = op {
            self.advance();
            let right = self.parse_assign()?;
            let span = merge_spans(&left.span, &right.span);
            return Ok(
                Spanned::new(
                    RawExpr::Assign { op, target: Box::new(left), value: Box::new(right) },
                    span,
                ),
            );
        }
        Ok(left)
    }

    fn parse_pratt(&mut self, min_bp: u8) -> (r: Result<Expr, ParseError>)
        requires
            old(self).wf(),
        ensures
            old(self).moved_to(final(self)),
            r is Ok ==> final(self).pos > old(self).pos,
            (rexpr(r), final(self).state()) == sp_pratt(
                old(self).tokens@,
                old(self).state(),
                min_bp,
            ),
        decreases left(old(self).tokens@, old(self).state()), 33nat,
    {
        let ghost ts = self.tokens@;
        let ghost s0 = self.state();
        let mut left = self.parse_unary()?;
        loop
            invariant
                self.tokens@ == ts,
                ts == old(self).tokens@,
                s0 == old(self).state(),
                old(self).pos < self.pos <= self.tokens.len(),
                sp_pratt(ts, s0, min_bp) == sp_pratt_loop(ts, self.state(), expr_v(left), min_bp),
            decreases self.tokens.len() - self.pos,
        {
            if self.peek_is(&Token::Question) {
                if min_bp > 0 {
                    return Ok(left);
                }
                self.advance();
                let then = self.parse_pratt(0)?;
                self.expect(&Token::Colon, "expected `:` in ternary");
                let otherwise = self.parse_pratt(0)?;
                let span = merge_spans(&left.span, &otherwise.span);
                left =
                Spanned::new(
                    RawExpr::Ternary {
                        cond: Box::new(left),
                        then: Box::new(then),
                        otherwise: Box::new(otherwise),
                    },
                    span,
                );
                continue ;
            }
            let op = match self.peek_binop() {
                Some(op) => op,
                None => {
                    return Ok(left);
                },
            };
            let (l_bp, r_bp) = infix_binding_power(&op);
            if l_bp < min_bp {
                return Ok(left);
            }
            self.advance();
            let right = self.parse_pratt(r_bp)?;
            let span = merge_spans(&left.span, &right.span);
            left = Spanned::new(RawExpr::Binary { op, left: Box::new(left), right: Box::new(right) }, span);
        }
    }

    fn parse_unary(&mut self) -> (r: Result<Expr, ParseError>)
        requires
            old(self).wf(),
        ensures
            old(self).moved_to(final(self)),
            r is Ok ==> final(self).pos > old(self).pos,
            (rexpr(r), final(self).state()) == sp_unary(old(self).tokens@, old(self).state()),
        decreases left(old(self).tokens@, old(self).state()), 31nat,
    {
        let start = self.current_span().start;
        let prefix = match self.peek() {
            Some(Token::Not) => Some(PrefixOp::Not),
            Some(Token::Minus) => Some(PrefixOp::Neg),
            Some(Token::PlusPlus) => Some(PrefixOp::PlusPlus),
            Some(Token::MinusMinus) => Some(PrefixOp::MinusMinus),
            _ => None,
        };
        if let Some(op) = prefix {
            self.advance();
            let expr = self.parse_unary()?;
            let end = expr.span.end;
            return Ok(Spanned::new(RawExpr::Prefix { op, expr: Box::new(expr) }, start..end));
        }
        self.parse_postfix()
    }

    fn parse_postfix(&mut self) -> (r: Result<Expr, ParseError>)
        requires
            old(self).wf(),
        ensures
            old(self).moved_to(final(self)),
            r is Ok ==> final(self).pos > old(self).pos,
            (rexpr(r), final(self).state()) == sp_postfix(old(self).tokens@, old(self).state()),
        decreases left(old(self).tokens@, old(self).state()), 30nat,
    {
        let ghost ts = self.tokens@;
        let ghost s0 = self.state();
        let mut expr = self.parse_call()?;
        loop
            invariant
                self.tokens@ == ts,
                ts == old(self).tokens@,
                s0 == old(self).state(),
                old(self).pos < self.pos <= self.tokens.len(),
                sp_postfix(ts, s0) == sp_postfix_loop(ts, self.state(), expr_v(expr)),
            decreases self.tokens.len() - self.pos,
        {
            if self.peek_is(&Token::PlusPlus) {
                let end = self.current_span().end;
                self.advance();
                let span = expr.span.start..end;
                expr = Spanned::new(RawExpr::Postfix { op: PostfixOp::PlusPlus, expr: Box::new(expr) }, span);
            } else if self.peek_is(&Token::MinusMinus) {
                let end = self.current_span().end;
                self.advance();
                let span = expr.span.start..end;
                expr = Spanned::new(RawExpr::Postfix { op: PostfixOp::MinusMinus, expr: Box::new(expr) }, span);
            } else {
                return Ok(expr);
            }
        }
    }

    fn parse_call(&mut self) -> (r: Result<Expr, ParseError>)
        requires
            old(self).wf(),
        ensures
            old(self).moved_to(final(self)),
            r is Ok ==> final(self).pos > old(self).pos,
            (rexpr(r), final(self).state()) == sp_call(old(self).tokens@, old(self).state()),
        decreases left(old(self).tokens@, old(self).state()), 28nat,
    {
        let ghost ts = self.tokens@;
        let ghost s0 = self.state();
        let mut expr = self.parse_primary()?;
        loop
            invariant
                self.tokens@ == ts,
                ts == old(self).tokens@,
                s0 == old(self).state(),
                old(self).pos < self.pos <= self.tokens.len(),
                sp_call(ts, s0) == sp_call_loop(ts, self.state(), expr_v(expr)),
            decreases self.tokens.len() - self.pos,
        {
            if self.peek_is(&Token::LParen) {
                let ghost s_outer = self.state();
                self.advance();
                let ghost s1 = self.state();
                let mut args: Vec<Expr> = Vec::new();
                assert(exprs_v(args@) =~= Seq::<SExpr>::empty());
                loop
                    invariant_except_break
                        sp_list(ts, s1, Token::RParen, seq![]) == sp_list(
                            ts,
                            self.state(),
                            Token::RParen,
                            exprs_v(args@),
                        ),
                    invariant
                        self.tokens@ == ts,
                        ts == old(self).tokens@,
                        s0 == old(self).state(),
                        old(self).pos < s1.pos <= self.pos <= self.tokens.len(),
                        sp_call(ts, s0) == sp_call_loop(ts, s_outer, expr_v(expr)),
                        tok(ts, s_outer.pos) == Some(Token::LParen),
                        s1 == at(s_outer, s_outer.pos + 1),
                    ensures
                        sp_list(ts, s1, Token::RParen, seq![]) == (
                            Ok::<Seq<SExpr>, PErr>(exprs_v(args@)),
                            self.state(),
                        ),
                    decreases self.tokens.len() - self.pos,
                {
                    if self.peek_is(&Token::RParen) || self.is_at_end() {
                        break;
                    }
                    let a = self.parse_assign()?;
                    let ghost before = args@;
                    args.push(a);
                    assert(args@.drop_last() =~= before);
                    if !self.eat(&Token::Comma) {
                        break;
                    }
                }
                let end = self.current_span().end;
                self.expect(&Token::RParen, "expected `)` after arguments");
                let span = expr.span.start..end;
                expr = Spanned::new(RawExpr::Call { callee: Box::new(expr), args }, span);
            } else if self.peek_is(&Token::Dot) {
                self.advance();
                let prop = self.expect_ident("expected property name after `.`")?;
                let end = self.prev_end(0);
                let span = expr.span.start..end;
                expr = Spanned::new(RawExpr::Member { object: Box::new(expr), property: prop }, span);
            } else if self.peek_is(&Token::LBracket) {
                self.advance();
                let index = self.parse_assign()?;
                let end = self.current_span().end;
                self.expect(&Token::RBracket, "expected `]`");
                let span = expr.span.start..end;
                expr = Spanned::new(RawExpr::Index { object: Box::new(expr), index: Box::new(index) }, span);
            } else {
                return Ok(expr);
            }
        }
    }
}

impl Parser {
    #[verifier::rlimit(60)]
    fn parse_primary(&mut self) -> (r: Result<Expr, ParseError>)
        requires
            old(self).wf(),
        ensures
            old(self).moved_to(final(self)),
            r is Ok ==> final(self).pos > old(self).pos,
            (rexpr(r), final(self).state()) == sp_primary(old(self).tokens@, old(self).state()),
        decreases left(old(self).tokens@, old(self).state()), 26nat,
    {
        let ghost ts = self.tokens@;
        let ghost s0 = self.state();
        let span = self.current_span();
        if self.pos < self.tokens.len() {
            let lit = match &self.tokens[self.pos].node {
                Token::Number(n) => Some(RawExpr::Number(n.clone())),
                Token::StringDouble(t) => Some(RawExpr::StringLit(t.clone())),
                Token::StringSingle(t) => Some(RawExpr::StringLit(t.clone())),
                Token::True => Some(RawExpr::Bool(true)),
                Token::False => Some(RawExpr::Bool(false)),
                Token::Null => Some(RawExpr::Null),
                _ => None,
            };
            if let Some(node) = lit {
                self.advance();
                return Ok(Spanned::new(node, span));
            }
        }
        if self.pos < self.tokens.len() {
            if let Token::Ident(_) = &self.tokens[self.pos].node {
                return self.parse_ident_or_arrow();
            }
        }
        if self.peek_is(&Token::LParen) {
            return self.parse_paren_or_arrow();
        }
        if self.peek_is(&Token::LBracket) {
            self.advance();
            let ghost s1 = self.state();
            let mut items: Vec<Expr> = Vec::new();
            assert(exprs_v(items@) =~= Seq::<SExpr>::empty());
            loop
                invariant_except_break
                    sp_list(ts, s1, Token::RBracket, seq![]) == sp_list(
                        ts,
                        self.state(),
                        Token::RBracket,
                        exprs_v(items@),
                    ),
                invariant
                    self.tokens@ == ts,
                    ts == old(self).tokens@,
                    s0 == old(self).state(),
                    tok(ts, s0.pos) == Some(Token::LBracket),
                    s1 == at(s0, s0.pos + 1),
                    s1.pos <= self.pos <= self.tokens.len(),
                    span == cur_span(ts, s0.pos),
                ensures
                    sp_list(ts, s1, Token::RBracket, seq![]) == (
                        Ok::<Seq<SExpr>, PErr>(exprs_v(items@)),
                        self.state(),
                    ),
                decreases self.tokens.len() - self.pos,
            {
                if self.peek_is(&Token::RBracket) || self.is_at_end() {
                    break;
                }
                let x = self.parse_assign()?;
                let ghost before = items@;
                items.push(x);
                assert(items@.drop_last() =~= before);
                if !self.eat(&Token::Comma) {
                    break;
                }
            }
            let end = self.current_span().end;
            self.expect(&Token::RBracket, "expected `]`");
            return Ok(Spanned::new(RawExpr::Array(items), span.start..end));
        }
        if self.peek_is(&Token::LBrace) {
            self.advance();
            let ghost s1 = self.state();
            let mut pairs: Vec<(String, Expr)> = Vec::new();
            assert(pairs_v(pairs@) =~= Seq::<(Seq<char>, SExpr)>::empty());
            loop
                invariant_except_break
                    sp_pairs(ts, s1, seq![]) == sp_pairs(ts, self.state(), pairs_v(pairs@)),
                invariant
                    self.tokens@ == ts,
                    ts == old(self).tokens@,
                    s0 == old(self).state(),
                    tok(ts, s0.pos) == Some(Token::LBrace),
                    s1 == at(s0, s0.pos + 1),
                    s1.pos <= self.pos <= self.tokens.len(),
                    span == cur_span(ts, s0.pos),
                ensures
                    sp_pairs(ts, s1, seq![]) == (
                        Ok::<Seq<(Seq<char>, SExpr)>, PErr>(pairs_v(pairs@)),
                        self.state(),
                    ),
                decreases self.tokens.len() - self.pos,
            {
                if self.peek_is(&Token::RBrace) || self.is_at_end() {
                    break;
                }
                let key = match &self.tokens[self.pos].node {
                    Token::Ident(name) => name.clone(),
                    Token::StringDouble(t) => t.clone(),
                    Token::StringSingle(t) => t.clone(),
                    _ => {
                        let sp = self.current_span();
                        return Err(ParseError { message: "expected object key".to_string(), span: sp });
                    },
                };
                self.advance();
                self.expect(&Token::Colon, "expected `:` after object key");
                let value = self.parse_assign()?;
                let ghost before = pairs@;
                pairs.push((key, value));
                assert(pairs@.drop_last() =~= before);
                if !self.eat(&Token::Comma) {
                    break;
                }
            }
            let end = self.current_span().end;
            self.expect(&Token::RBrace, "expected `}`");
            return Ok(Spanned::new(RawExpr::Object(pairs), span.start..end));
        }
        let message = match self.peek() {
            Some(t) => unexpected_token_message(t),
            None => unexpected_token_message(&Token::Semicolon),
        };
        let span = self.current_span();
        Err(ParseError { message, span })
    }

    /// A bare identifier, which may start an arrow function `x => ...`.
    #[verifier::rlimit(60)]
    fn parse_ident_or_arrow(&mut self) -> (r: Result<Expr, ParseError>)
        requires
            old(self).wf(),
        ensures
            old(self).moved_to(final(self)),
            r is Ok ==> final(self).pos > old(self).pos,
            (rexpr(r), final(self).state()) == sp_ident_or_arrow(
                old(self).tokens@,
                old(self).state(),
            ),
        decreases left(old(self).tokens@, old(self).state()), 25nat,
    {
        let span = self.current_span();
        let name = match self.expect_ident("expected identifier") {
            Err(e) => {
                return Err(e);
            },
            Ok(n) => n,
        };
        if self.peek_is(&Token::Arrow) {
            self.advance();
            let body = match self.parse_arrow_body() {
                Err(e) => {
                    return Err(e);
                },
                Ok(b) => b,
            };
            let end = self.prev_end(span.end);
            let mut params: Vec<String> = Vec::new();
            params.push(name);
            assert(names_v(params@) =~= seq![name@]);
            let node = RawExpr::Arrow { params, body };
            assert(raw_expr_v(node) == ExprV::Arrow(seq![name@], body_v(body)));
            return Ok(Spanned::new(node, span.start..end));
        }
        let node = RawExpr::Ident(name);
        assert(raw_expr_v(node) == ExprV::Ident(name@));
        Ok(Spanned::new(node, span))
    }

    /// After `(`: scan for arrow-function parameters `a, b) =>` or `) =>`.
    /// When there are none, the position goes back to just after `(`.
    fn arrow_head(&mut self) -> (r: (Vec<String>, bool))
        requires
            old(self).wf(),
        ensures
            old(self).moved_to(final(self)),
            final(self).errors@ == old(self).errors@,
            (names_v(r.0@), final(self).state(), r.1) == sp_arrow_head(
                old(self).tokens@,
                old(self).state(),
            ),
    {
        let ghost ts = self.tokens@;
        let ghost s = self.state();
        let mut names: Vec<String> = Vec::new();
        assert(names_v(names@) =~= Seq::<Seq<char>>::empty());
        if self.peek_is(&Token::RParen) {
            self.advance();
            if self.peek_is(&Token::Arrow) {
                self.advance();
                return (names, true);
            }
            return (names, false);
        }
        let saved_pos = self.pos;
        let mut all_idents = true;
        while !self.is_at_end()
            invariant_except_break
                all_idents,
                sp_collect(ts, saved_pos as int, seq![]) == sp_collect(
                    ts,
                    self.pos as int,
                    names_v(names@),
                ),
            invariant
                self.tokens@ == ts,
                ts == old(self).tokens@,
                s == old(self).state(),
                self.errors@ == old(self).errors@,
                saved_pos as int == s.pos,
                saved_pos <= self.pos <= self.tokens.len(),
            ensures
                sp_collect(ts, saved_pos as int, seq![]) == (
                    names_v(names@),
                    self.pos as int,
                    all_idents,
                ),
            decreases self.tokens.len() - self.pos,
        {
            let ghost p = self.pos as int;
            let ghost acc = names_v(names@);
            let mut took = false;
            if let Token::Ident(n) = &self.tokens[self.pos].node {
                let n2 = n.clone();
                let ghost before = names@;
                names.push(n2);
                assert(names_v(names@) =~= names_v(before).push(n@));
                took = true;
            }
            if !took {
                assert(sp_collect(ts, p, acc) == (acc, p, false));
                all_idents = false;
                break;
            }
            self.advance();
            if self.peek_is(&Token::Comma) {
                self.advance();
            } else {
                break;
            }
        }
        if all_idents && self.peek_is(&Token::RParen) {
            self.advance();
            if self.peek_is(&Token::Arrow) {
                self.advance();
                return (names, true);
            }
        }
        self.pos = saved_pos;
        (names, false)
    }

    /// `(...)`: either arrow-function parameters or a grouped expression.
    #[verifier::rlimit(60)]
    fn parse_paren_or_arrow(&mut self) -> (r: Result<Expr, ParseError>)
        requires
            old(self).wf(),
            tok(old(self).tokens@, old(self).pos as int) == Some(Token::LParen),
        ensures
            old(self).moved_to(final(self)),
            r is Ok ==> final(self).pos > old(self).pos,
            (rexpr(r), final(self).state()) == sp_paren_rest(
                old(self).tokens@,
                adv(old(self).tokens@, old(self).state()),
                cur_span(old(self).tokens@, old(self).pos as int).start,
            ),
        decreases left(old(self).tokens@, old(self).state()), 24nat,
    {
        let start = self.current_span().start;
        self.advance();
        let (names, is_arrow) = self.arrow_head();
        if is_arrow {
            let body = match self.parse_arrow_body() {
                Err(e) => {
                    return Err(e);
                },
                Ok(b) => b,
            };
            let end = self.prev_end(0);
            let node = RawExpr::Arrow { params: names, body };
            assert(raw_expr_v(node) == ExprV::Arrow(names_v(names@), body_v(body)));
            return Ok(Spanned::new(node, start..end));
        }
        let inner = match self.parse_assign() {
            Err(e) => {
                return Err(e);
            },
            Ok(x) => x,
        };
        let end = self.current_span().end;
        self.expect(&Token::RParen, "expected `)`");
        Ok(Spanned::new(inner.node, start..end))
    }

    fn parse_arrow_body(&mut self) -> (r: Result<ArrowBody, ParseError>)
        requires
            old(self).wf(),
        ensures
            old(self).moved_to(final(self)),
            (rbody(r), final(self).state()) == sp_arrow_body(old(self).tokens@, old(self).state()),
        decreases left(old(self).tokens@, old(self).state()), 41nat,
    {
        if self.peek_is(&Token::LBrace) {
            Ok(ArrowBody::Block(self.parse_block()))
        } else {
            Ok(ArrowBody::Expr(Box::new(self.parse_assign()?)))
        }
    }

    fn peek_binop(&self) -> (r: Option<BinOp>)
        ensures
            r == (match tok(self.tokens@, self.pos as int) {
                Some(t) => binop_of(t),
                None => None,
            }),
    {
        match self.peek() {
            Some(Token::Plus) => Some(BinOp::Add),
            Some(Token::Minus) => Some(BinOp::Sub),
            Some(Token::Star) => Some(BinOp::Mul),
            Some(Token::Slash) => Some(BinOp::Div),
            Some(Token::Percent) => Some(BinOp::Mod),
            Some(Token::StrictEq) => Some(BinOp::StrictEq),
            Some(Token::StrictNeq) => Some(BinOp::StrictNeq),
            Some(Token::Eq) => Some(BinOp::Eq),
            Some(Token::Neq) => Some(BinOp::Neq),
            Some(Token::Lt) => Some(BinOp::Lt),
            Some(Token::Lte) => Some(BinOp::Lte),
            Some(Token::Gt) => Some(BinOp::Gt),
            Some(Token::Gte) => Some(BinOp::Gte),
            Some(Token::And) => Some(BinOp::And),
            Some(Token::Or) => Some(BinOp::Or),
            _ => None,
        }
    }
}

/// Binding powers of the binary operators; higher binds tighter.
fn infix_binding_power(op: &BinOp) -> (r: (u8, u8))
    ensures
        r == binding_power(*op),
{
    match op {
        BinOp::Or => (1, 2),
        BinOp::And => (3, 4),
        BinOp::Eq | BinOp::Neq | BinOp::StrictEq | BinOp::StrictNeq => (5, 6),
        BinOp::Lt | BinOp::Lte | BinOp::Gt | BinOp::Gte => (7, 8),
        BinOp::Add | BinOp::Sub => (9, 10),
        BinOp::Mul | BinOp::Div | BinOp::Mod => (11, 12),
    }
}

/// Each statement takes at least one token: the statements after `acc`
/// number at most the tokens left, and at the end of input there are none.
pub proof fn lemma_items_count(ts: Toks, s: PS, acc: Seq<SStmt>)
    ensures
        sp_items(ts, s, acc).0.len() <= acc.len() + left(ts, s),
        at_end(ts, s.pos) ==> sp_items(ts, s, acc) == (acc, s),
    decreases left(ts, s),
{
    if !(at_end(ts, s.pos) || tok(ts, s.pos) == Some(Token::RBrace)) {
        let (st, s2) = sp_stmt(ts, s);
        let s2 = fwd(s, s2);
        if s2.pos > s.pos {
            lemma_items_count(ts, s2, acc.push(st));
        }
    }
}

/// Every binary operator groups to the left (its right side binds one
/// step tighter), and the levels from loosest to tightest are `||`, `&&`,
/// equality, comparison, `+ -`, `* / %`.
pub proof fn lemma_precedence(op: BinOp)
    ensures
        binding_power(op).1 == binding_power(op).0 + 1,
        binding_power(BinOp::Or).1 < binding_power(BinOp::And).0,
        binding_power(BinOp::And).1 < binding_power(BinOp::Eq).0,
        binding_power(BinOp::Eq) == binding_power(BinOp::StrictEq),
        binding_power(BinOp::Eq) == binding_power(BinOp::Neq),
        binding_power(BinOp::Eq) == binding_power(BinOp::StrictNeq),
        binding_power(BinOp::Eq).1 < binding_power(BinOp::Lt).0,
        binding_power(BinOp::Lt) == binding_power(BinOp::Lte),
        binding_power(BinOp::Lt) == binding_power(BinOp::Gt),
        binding_power(BinOp::Lt) == binding_power(BinOp::Gte),
        binding_power(BinOp::Lt).1 < binding_power(BinOp::Add).0,
        binding_power(BinOp::Add) == binding_power(BinOp::Sub),
        binding_power(BinOp::Sub).1 < binding_power(BinOp::Mul).0,
        binding_power(BinOp::Mul) == binding_power(BinOp::Div),
        binding_power(BinOp::Mul) == binding_power(BinOp::Mod),
{
}

// ---- errors are only ever added ----

/// The errors of `b` number at least those of `a`.
pub open spec fn grows(a: PS, b: PS) -> bool {
    a.errs.len() <= b.errs.len()
}

proof fn lemma_param_names_grows(ts: Toks, s: PS, acc: Seq<Seq<char>>)
    ensures
        grows(s, sp_param_names(ts, s, acc).1),
    decreases left(ts, s),
{
    if !(tok(ts, s.pos) == Some(Token::RParen) || at_end(ts, s.pos)) {
        let (n, s2) = sp_expect_ident(ts, s, "expected parameter name"@);
        if let Ok(name) = n {
            let (comma, s3) = sp_eat(ts, s2, Token::Comma);
            if comma {
                lemma_param_names_grows(ts, s3, acc.push(name));
            }
        }
    }
}

proof fn lemma_params_grows(ts: Toks, s: PS)
    ensures
        grows(s, sp_params(ts, s).1),
{
    let s1 = sp_expect(ts, s, Token::LParen, "expected `(`"@);
    lemma_param_names_grows(ts, s1, seq![]);
}

proof fn lemma_arrow_body_grows(ts: Toks, s: PS)
    ensures
        grows(s, sp_arrow_body(ts, s).1),
    decreases left(ts, s), 41nat,
{
    if tok(ts, s.pos) == Some(Token::LBrace) {
        lemma_block_grows(ts, s);
    } else {
        lemma_assign_grows(ts, s);
    }
}

proof fn lemma_block_grows(ts: Toks, s: PS)
    ensures
        grows(s, sp_block(ts, s).1),
    decreases left(ts, s), 40nat,
{
    let s1 = sp_expect(ts, s, Token::LBrace, "expected `{`"@);
    lemma_items_grows(ts, s1, seq![]);
}

/// Statements after `acc`: `acc` is kept, errors are only added, and a
/// statement that failed comes with a recorded error.
proof fn lemma_items_grows(ts: Toks, s: PS, acc: Seq<SStmt>)
    ensures
        ({
            let (items, s2) = sp_items(ts, s, acc);
            &&& grows(s, s2)
            &&& acc.len() <= items.len()
            &&& forall|j: int| 0 <= j < acc.len() ==> items[j] == acc[j]
            &&& (exists|i: int| acc.len() <= i < items.len() && items[i].node is Error) ==> s2.errs.len() > 0
        }),
    decreases left(ts, s), 39nat,
{
    if !(at_end(ts, s.pos) || tok(ts, s.pos) == Some(Token::RBrace)) {
        let (st, s2) = sp_stmt(ts, s);
        lemma_stmt_grows(ts, s);
        let s2 = fwd(s, s2);
        if s2.pos > s.pos {
            lemma_items_grows(ts, s2, acc.push(st));
            let (items, s3) = sp_items(ts, s2, acc.push(st));
            assert(items[acc.len() as int] == st);
            assert forall|j: int| 0 <= j < acc.len() implies items[j] == acc[j] by {
                assert(acc.push(st)[j] == acc[j]);
            }
            if exists|i: int| acc.len() <= i < items.len() && items[i].node is Error {
                let i = choose|i: int| acc.len() <= i < items.len() && items[i].node is Error;
                if i > acc.len() {
                    assert(acc.push(st).len() <= i < items.len());
                }
            }
        } else {
            assert(acc.push(st)[acc.len() as int] == st);
        }
    }
}

proof fn lemma_stmt_grows(ts: Toks, s: PS)
    ensures
        grows(s, sp_stmt(ts, s).1),
        sp_stmt(ts, s).0.node is Error ==> sp_stmt(ts, s).1.errs.len() > 0,
    decreases left(ts, s), 38nat,
{
    lemma_stmt_kind_grows(ts, s);
}

proof fn lemma_stmt_kind_grows(ts: Toks, s: PS)
    ensures
        grows(s, sp_stmt_kind(ts, s).1),
        sp_stmt_kind(ts, s).0 matches Ok(n) ==> !(n is Error),
    decreases left(ts, s), 37nat,
{
    match tok(ts, s.pos) {
        Some(Token::Let) => lemma_var_rest_grows(ts, adv(ts, s), VarKind::Let),
        Some(Token::Const) => lemma_var_rest_grows(ts, adv(ts, s), VarKind::Const),
        Some(Token::Var) => lemma_var_rest_grows(ts, adv(ts, s), VarKind::Var),
        Some(Token::Function) => lemma_function_rest_grows(ts, adv(ts, s)),
        Some(Token::If) => lemma_if_rest_grows(ts, adv(ts, s)),
        Some(Token::While) => lemma_while_rest_grows(ts, adv(ts, s)),
        Some(Token::For) => lemma_for_rest_grows(ts, adv(ts, s)),
        Some(Token::Return) => lemma_return_rest_grows(ts, adv(ts, s)),
        Some(Token::Break) => {},
        Some(Token::Continue) => {},
        Some(Token::HtmlOpen) => lemma_html_rest_grows(ts, adv(ts, s)),
        _ => lemma_expr_stmt_grows(ts, s),
    }
}

proof fn lemma_var_rest_grows(ts: Toks, s: PS, kind: VarKind)
    ensures
        grows(s, sp_var_rest(ts, s, kind).1),
        sp_var_rest(ts, s, kind).0 matches Ok(n) ==> !(n is Error),
    decreases left(ts, s), 45nat,
{
    let (n, s2) = sp_expect_ident(ts, s, "expected variable name"@);
    if n is Ok {
        let (has_init, s3) = sp_eat(ts, s2, Token::Assign);
        if has_init {
            lemma_assign_grows(ts, s3);
        }
    }
}

proof fn lemma_function_rest_grows(ts: Toks, s: PS)
    ensures
        grows(s, sp_function_rest(ts, s).1),
        sp_function_rest(ts, s).0 matches Ok(n) ==> !(n is Error),
    decreases left(ts, s), 45nat,
{
    let (n, s2) = sp_expect_ident(ts, s, "expected function name"@);
    if n is Ok {
        lemma_params_grows(ts, s2);
        let (ps, s3) = sp_params(ts, s2);
        if ps is Ok {
            lemma_block_grows(ts, fwd(s, s3));
        }
    }
}

proof fn lemma_if_rest_grows(ts: Toks, s: PS)
    ensures
        grows(s, sp_if_rest(ts, s).1),
        sp_if_rest(ts, s).0 matches Ok(n) ==> !(n is Error),
    decreases left(ts, s), 45nat,
{
    let s1 = sp_expect(ts, s, Token::LParen, "expected `(` after `if`"@);
    lemma_assign_grows(ts, s1);
    let (c, s2) = sp_assign(ts, s1);
    if c is Ok {
        let s3 = sp_expect(ts, fwd(s1, s2), Token::RParen, "expected `)` after condition"@);
        lemma_block_grows(ts, s3);
        let (then, s4) = sp_block(ts, s3);
        let s4 = fwd(s3, s4);
        let (has_else, s5) = sp_eat(ts, s4, Token::Else);
        if has_else {
            if tok(ts, s5.pos) == Some(Token::If) {
                lemma_stmt_grows(ts, s5);
            } else {
                lemma_block_grows(ts, s5);
            }
        }
    }
}

proof fn lemma_while_rest_grows(ts: Toks, s: PS)
    ensures
        grows(s, sp_while_rest(ts, s).1),
        sp_while_rest(ts, s).0 matches Ok(n) ==> !(n is Error),
    decreases left(ts, s), 45nat,
{
    let s1 = sp_expect(ts, s, Token::LParen, "expected `(` after `while`"@);
    lemma_assign_grows(ts, s1);
    let (c, s2) = sp_assign(ts, s1);
    if c is Ok {
        let s3 = sp_expect(ts, fwd(s1, s2), Token::RParen, "expected `)` after condition"@);
        lemma_block_grows(ts, s3);
    }
}

proof fn lemma_for_rest_grows(ts: Toks, s: PS)
    ensures
        grows(s, sp_for_rest(ts, s).1),
        sp_for_rest(ts, s).0 matches Ok(n) ==> !(n is Error),
    decreases left(ts, s), 45nat,
{
    let s1 = sp_expect(ts, s, Token::LParen, "expected `(` after `for`"@);
    if tok(ts, s1.pos) != Some(Token::Semicolon) {
        lemma_stmt_grows(ts, s1);
    }
    let (init, s2) = if tok(ts, s1.pos) == Some(Token::Semicolon) {
        (None, adv(ts, s1))
    } else {
        let (st, s2) = sp_stmt(ts, s1);
        (Some(Box::new(st)), fwd(s1, s2))
    };
    if tok(ts, s2.pos) != Some(Token::Semicolon) {
        lemma_assign_grows(ts, s2);
    }
    let (c, s3) = if tok(ts, s2.pos) == Some(Token::Semicolon) {
        (Ok(None), s2)
    } else {
        let (e, s3) = sp_assign(ts, s2);
        match e {
            Ok(x) => (Ok(Some(x)), fwd(s2, s3)),
            Err(er) => (Err(er), s3),
        }
    };
    if c is Ok {
        let s4 = sp_expect(ts, s3, Token::Semicolon, "expected `;`"@);
        if tok(ts, s4.pos) != Some(Token::RParen) {
            lemma_assign_grows(ts, s4);
        }
        let (u, s5) = if tok(ts, s4.pos) == Some(Token::RParen) {
            (Ok(None), s4)
        } else {
            let (e, s5) = sp_assign(ts, s4);
            match e {
                Ok(x) => (Ok(Some(x)), fwd(s4, s5)),
                Err(er) => (Err(er), s5),
            }
        };
        if u is Ok {
            let s6 = sp_expect(ts, s5, Token::RParen, "expected `)`"@);
            lemma_block_grows(ts, s6);
        }
    }
}

proof fn lemma_return_rest_grows(ts: Toks, s: PS)
    ensures
        grows(s, sp_return_rest(ts, s).1),
        sp_return_rest(ts, s).0 matches Ok(n) ==> !(n is Error),
    decreases left(ts, s), 45nat,
{
    lemma_return_value_grows(ts, s);
}

proof fn lemma_return_value_grows(ts: Toks, s: PS)
    ensures
        grows(s, sp_return_value(ts, s).1),
    decreases left(ts, s), 44nat,
{
    if !(tok(ts, s.pos) == Some(Token::Semicolon) || at_end(ts, s.pos)) {
        lemma_assign_grows(ts, s);
    }
}

proof fn lemma_html_rest_grows(ts: Toks, s: PS)
    ensures
        grows(s, sp_html_rest(ts, s).1),
        sp_html_rest(ts, s).0 matches Ok(n) ==> !(n is Error),
    decreases left(ts, s), 45nat,
{
    lemma_items_grows(ts, s, seq![]);
}

proof fn lemma_expr_stmt_grows(ts: Toks, s: PS)
    ensures
        grows(s, sp_expr_stmt(ts, s).1),
        sp_expr_stmt(ts, s).0 matches Ok(n) ==> !(n is Error),
    decreases left(ts, s), 36nat,
{
    lemma_assign_grows(ts, s);
}

proof fn lemma_assign_grows(ts: Toks, s: PS)
    ensures
        grows(s, sp_assign(ts, s).1),
    decreases left(ts, s), 34nat,
{
    lemma_pratt_grows(ts, s, 0);
    let (l, s2) = sp_pratt(ts, s, 0);
    if l is Ok {
        let s2 = fwd(s, s2);
        if let Some(t) = tok(ts, s2.pos) {
            if assign_op_of(t) is Some {
                lemma_assign_grows(ts, at(s2, s2.pos + 1));
            }
        }
    }
}

proof fn lemma_pratt_grows(ts: Toks, s: PS, min_bp: u8)
    ensures
        grows(s, sp_pratt(ts, s, min_bp).1),
    decreases left(ts, s), 33nat,
{
    lemma_unary_grows(ts, s);
    let (l, s2) = sp_unary(ts, s);
    if let Ok(left_e) = l {
        lemma_pratt_loop_grows(ts, fwd(s, s2), left_e, min_bp);
    }
}

proof fn lemma_pratt_loop_grows(ts: Toks, s: PS, lhs: SExpr, min_bp: u8)
    ensures
        grows(s, sp_pratt_loop(ts, s, lhs, min_bp).1),
    decreases left(ts, s), 32nat,
{
    if let Some(t) = tok(ts, s.pos) {
        if t == Token::Question {
            if min_bp == 0 {
                let s1 = at(s, s.pos + 1);
                lemma_pratt_grows(ts, s1, 0);
                let (th, s2) = sp_pratt(ts, s1, 0);
                if let Ok(then_e) = th {
                    let s3 = sp_expect(ts, fwd(s1, s2), Token::Colon, "expected `:` in ternary"@);
                    lemma_pratt_grows(ts, s3, 0);
                    let (ot, s4) = sp_pratt(ts, s3, 0);
                    if let Ok(other) = ot {
                        lemma_pratt_loop_grows(
                            ts,
                            fwd(s3, s4),
                            SExpr {
                                node: ExprV::Ternary(Box::new(lhs), Box::new(then_e), Box::new(other)),
                                span: merge(lhs.span, other.span),
                            },
                            min_bp,
                        );
                    }
                }
            }
        } else if let Some(op) = binop_of(t) {
            let (l_bp, r_bp) = binding_power(op);
            if l_bp >= min_bp {
                let s1 = at(s, s.pos + 1);
                lemma_pratt_grows(ts, s1, r_bp);
                let (r, s2) = sp_pratt(ts, s1, r_bp);
                if let Ok(right) = r {
                    lemma_pratt_loop_grows(
                        ts,
                        fwd(s1, s2),
                        SExpr {
                            node: ExprV::Binary(op, Box::new(lhs), Box::new(right)),
                            span: merge(lhs.span, right.span),
                        },
                        min_bp,
                    );
                }
            }
        }
    }
}

proof fn lemma_unary_grows(ts: Toks, s: PS)
    ensures
        grows(s, sp_unary(ts, s).1),
    decreases left(ts, s), 31nat,
{
    match tok(ts, s.pos) {
        Some(t) => match prefix_op_of(t) {
            Some(op) => lemma_unary_grows(ts, at(s, s.pos + 1)),
            None => lemma_postfix_grows(ts, s),
        },
        None => lemma_postfix_grows(ts, s),
    }
}

proof fn lemma_postfix_grows(ts: Toks, s: PS)
    ensures
        grows(s, sp_postfix(ts, s).1),
    decreases left(ts, s), 30nat,
{
    lemma_call_grows(ts, s);
    let (e, s2) = sp_call(ts, s);
    if let Ok(x) = e {
        lemma_postfix_loop_grows(ts, fwd(s, s2), x);
    }
}

proof fn lemma_postfix_loop_grows(ts: Toks, s: PS, e: SExpr)
    ensures
        grows(s, sp_postfix_loop(ts, s, e).1),
    decreases left(ts, s), 29nat,
{
    match tok(ts, s.pos) {
        Some(Token::PlusPlus) => lemma_postfix_loop_grows(
            ts,
            at(s, s.pos + 1),
            SExpr {
                node: ExprV::Postfix(PostfixOp::PlusPlus, Box::new(e)),
                span: e.span.start..cur_span(ts, s.pos).end,
            },
        ),
        Some(Token::MinusMinus) => lemma_postfix_loop_grows(
            ts,
            at(s, s.pos + 1),
            SExpr {
                node: ExprV::Postfix(PostfixOp::MinusMinus, Box::new(e)),
                span: e.span.start..cur_span(ts, s.pos).end,
            },
        ),
        _ => {},
    }
}

proof fn lemma_call_grows(ts: Toks, s: PS)
    ensures
        grows(s, sp_call(ts, s).1),
    decreases left(ts, s), 28nat,
{
    lemma_primary_grows(ts, s);
    let (e, s2) = sp_primary(ts, s);
    if let Ok(x) = e {
        lemma_call_loop_grows(ts, fwd(s, s2), x);
    }
}

proof fn lemma_call_loop_grows(ts: Toks, s: PS, e: SExpr)
    ensures
        grows(s, sp_call_loop(ts, s, e).1),
    decreases left(ts, s), 27nat,
{
    match tok(ts, s.pos) {
        Some(Token::LParen) => {
            let s1 = at(s, s.pos + 1);
            lemma_list_grows(ts, s1, Token::RParen, seq![]);
            let (args, s2) = sp_list(ts, s1, Token::RParen, seq![]);
            if let Ok(a) = args {
                let s2 = fwd(s1, s2);
                let end = cur_span(ts, s2.pos).end;
                let s3 = sp_expect(ts, s2, Token::RParen, "expected `)` after arguments"@);
                lemma_call_loop_grows(
                    ts,
                    s3,
                    SExpr { node: ExprV::Call(Box::new(e), a), span: e.span.start..end },
                );
            }
        },
        Some(Token::Dot) => {
            let (prop, s2) = sp_expect_ident(ts, at(s, s.pos + 1), "expected property name after `.`"@);
            if let Ok(name) = prop {
                lemma_call_loop_grows(
                    ts,
                    s2,
                    SExpr {
                        node: ExprV::Member(Box::new(e), name),
                        span: e.span.start..prev_end(ts, s2.pos, 0),
                    },
                );
            }
        },
        Some(Token::LBracket) => {
            let s1 = at(s, s.pos + 1);
            lemma_assign_grows(ts, s1);
            let (idx, s2) = sp_assign(ts, s1);
            if let Ok(i) = idx {
                let s2 = fwd(s1, s2);
                let end = cur_span(ts, s2.pos).end;
                let s3 = sp_expect(ts, s2, Token::RBracket, "expected `]`"@);
                lemma_call_loop_grows(
                    ts,
                    s3,
                    SExpr { node: ExprV::Index(Box::new(e), Box::new(i)), span: e.span.start..end },
                );
            }
        },
        _ => {},
    }
}

proof fn lemma_list_grows(ts: Toks, s: PS, close: Token, acc: Seq<SExpr>)
    ensures
        grows(s, sp_list(ts, s, close, acc).1),
    decreases left(ts, s), 41nat,
{
    if !(tok(ts, s.pos) == Some(close) || at_end(ts, s.pos)) {
        lemma_assign_grows(ts, s);
        let (e, s2) = sp_assign(ts, s);
        if let Ok(x) = e {
            let (comma, s3) = sp_eat(ts, fwd(s, s2), Token::Comma);
            if comma {
                lemma_list_grows(ts, s3, close, acc.push(x));
            }
        }
    }
}

proof fn lemma_pairs_grows(ts: Toks, s: PS, acc: Seq<(Seq<char>, SExpr)>)
    ensures
        grows(s, sp_pairs(ts, s, acc).1),
    decreases left(ts, s), 41nat,
{
    if !(tok(ts, s.pos) == Some(Token::RBrace) || at_end(ts, s.pos)) {
        let key = match tok(ts, s.pos) {
            Some(Token::Ident(n)) => Some(n@),
            Some(Token::StringDouble(n)) => Some(n@),
            Some(Token::StringSingle(n)) => Some(n@),
            _ => None,
        };
        if let Some(k) = key {
            let s1 = sp_expect(ts, at(s, s.pos + 1), Token::Colon, "expected `:` after object key"@);
            lemma_assign_grows(ts, s1);
            let (v, s2) = sp_assign(ts, s1);
            if let Ok(x) = v {
                let (comma, s3) = sp_eat(ts, fwd(s1, s2), Token::Comma);
                if comma {
                    lemma_pairs_grows(ts, s3, acc.push((k, x)));
                }
            }
        }
    }
}

proof fn lemma_primary_grows(ts: Toks, s: PS)
    ensures
        grows(s, sp_primary(ts, s).1),
    decreases left(ts, s), 26nat,
{
    match tok(ts, s.pos) {
        Some(Token::Ident(_)) => lemma_ident_or_arrow_grows(ts, s),
        Some(Token::LParen) => lemma_paren_rest_grows(ts, adv(ts, s), cur_span(ts, s.pos).start),
        Some(Token::LBracket) => lemma_list_grows(ts, adv(ts, s), Token::RBracket, seq![]),
        Some(Token::LBrace) => lemma_pairs_grows(ts, adv(ts, s), seq![]),
        _ => {},
    }
}

proof fn lemma_ident_or_arrow_grows(ts: Toks, s: PS)
    ensures
        grows(s, sp_ident_or_arrow(ts, s).1),
    decreases left(ts, s), 25nat,
{
    let (n, s2) = sp_expect_ident(ts, s, "expected identifier"@);
    if n is Ok && tok(ts, s2.pos) == Some(Token::Arrow) {
        lemma_arrow_body_grows(ts, adv(ts, s2));
    }
}

proof fn lemma_paren_rest_grows(ts: Toks, s: PS, start: usize)
    ensures
        grows(s, sp_paren_rest(ts, s, start).1),
    decreases left(ts, s), 46nat,
{
    let (names, s1, is_arrow) = sp_arrow_head(ts, s);
    if is_arrow {
        lemma_arrow_body_grows(ts, fwd(s, s1));
    } else {
        lemma_assign_grows(ts, fwd(s, s1));
    }
}

/// A statement that failed to parse always comes with a recorded error:
/// where the top-level statements include an `Error`, the errors are not
/// empty.
pub proof fn lemma_error_statement_recorded(ts: Toks)
    ensures
        ({
            let (items, s) = sp_items(ts, PS { pos: 0, errs: seq![] }, seq![]);
            (exists|i: int| 0 <= i < items.len() && items[i].node is Error) ==> s.errs.len() > 0
        }),
{
    lemma_items_grows(ts, PS { pos: 0, errs: seq![] }, seq![]);
}

// ---- how operators group ----

/// The operator of a binary expression, if it is one.
pub open spec fn bin_op(e: SExpr) -> Option<BinOp> {
    match e.node {
        ExprV::Binary(op, _, _) => Some(op),
        _ => None,
    }
}

/// The left operand of a binary expression (the expression itself otherwise).
pub open spec fn bin_left(e: SExpr) -> SExpr {
    match e.node {
        ExprV::Binary(_, l, _) => *l,
        _ => e,
    }
}

/// The right operand of a binary expression (the expression itself otherwise).
pub open spec fn bin_right(e: SExpr) -> SExpr {
    match e.node {
        ExprV::Binary(_, _, r) => *r,
        _ => e,
    }
}

/// The identifier that token `t` holds, as an expression node.
pub open spec fn ident_node(t: Token) -> ExprV {
    match t {
        Token::Ident(n) => ExprV::Ident(n@),
        _ => ExprV::Null,
    }
}

/// Tokens `a op1 b op2 c`: three identifiers joined by two binary operators.
pub open spec fn two_op_tokens(ts: Toks) -> bool {
    &&& ts.len() == 5
    &&& ts[0].node is Ident
    &&& ts[2].node is Ident
    &&& ts[4].node is Ident
    &&& binop_of(ts[1].node) is Some
    &&& binop_of(ts[3].node) is Some
}

/// An identifier followed by a binary operator or by nothing is a whole
/// operand: one token, no call, member, index or postfix after it.
#[verifier::rlimit(40)]
proof fn lemma_ident_operand(ts: Toks, s: PS)
    requires
        0 <= s.pos < ts.len(),
        ts[s.pos].node is Ident,
        s.pos + 1 < ts.len() ==> binop_of(ts[s.pos + 1].node) is Some,
    ensures
        sp_unary(ts, s) == (
            Ok::<SExpr, PErr>(SExpr { node: ident_node(ts[s.pos].node), span: ts[s.pos].span }),
            at(s, s.pos + 1),
        ),
{
    let x = SExpr { node: ident_node(ts[s.pos].node), span: ts[s.pos].span };
    let s1 = at(s, s.pos + 1);
    let n = ts[s.pos].node->Ident_0;
    assert(tok(ts, s.pos) == Some(Token::Ident(n)));
    assert(cur_span(ts, s.pos) == ts[s.pos].span);
    assert(tok(ts, s1.pos) is None || binop_of(tok(ts, s1.pos)->Some_0) is Some);
    assert(sp_expect_ident(ts, s, "expected identifier"@) == (Ok::<Seq<char>, PErr>(n@), s1));
    assert(sp_ident_or_arrow(ts, s) == (Ok::<SExpr, PErr>(x), s1));
    assert(sp_primary(ts, s) == (Ok::<SExpr, PErr>(x), s1));
    assert(sp_call_loop(ts, s1, x) == (Ok::<SExpr, PErr>(x), s1));
    assert(sp_call(ts, s) == (Ok::<SExpr, PErr>(x), s1));
    assert(sp_postfix_loop(ts, s1, x) == (Ok::<SExpr, PErr>(x), s1));
    assert(sp_postfix(ts, s) == (Ok::<SExpr, PErr>(x), s1));
}

/// `a op1 b op2 c` groups to the left, as `(a op1 b) op2 c`, unless `op2`
/// binds tighter than `op1`; then it is `a op1 (b op2 c)`. So `a - b - c`
/// is `(a - b) - c` and `a - b * c` is `a - (b * c)`.
pub proof fn lemma_two_operators(ts: Toks)
    requires
        two_op_tokens(ts),
    ensures
        ({
            let r = sp_assign(ts, PS { pos: 0, errs: seq![] });
            let op1 = binop_of(ts[1].node)->Some_0;
            let op2 = binop_of(ts[3].node)->Some_0;
            let a = ident_node(ts[0].node);
            let b = ident_node(ts[2].node);
            let c = ident_node(ts[4].node);
            &&& r.1.errs.len() == 0
            &&& r.0 is Ok
            &&& sp_items(ts, PS { pos: 0, errs: seq![] }, seq![]).0.len() == 1
            &&& sp_items(ts, PS { pos: 0, errs: seq![] }, seq![]).0[0].node == StmtV::Expr(r.0->Ok_0)
            &&& sp_items(ts, PS { pos: 0, errs: seq![] }, seq![]).1.errs.len() == 0
            &&& if binding_power(op2).0 <= binding_power(op1).0 {
                let e = r.0->Ok_0;
                &&& bin_op(e) == Some(op2)
                &&& bin_op(bin_left(e)) == Some(op1)
                &&& bin_left(bin_left(e)).node == a
                &&& bin_right(bin_left(e)).node == b
                &&& bin_right(e).node == c
            } else {
                let e = r.0->Ok_0;
                &&& bin_op(e) == Some(op1)
                &&& bin_left(e).node == a
                &&& bin_op(bin_right(e)) == Some(op2)
                &&& bin_left(bin_right(e)).node == b
                &&& bin_right(bin_right(e)).node == c
            }
        }),
{
    let s0 = PS { pos: 0, errs: seq![] };
    let op1 = binop_of(ts[1].node)->Some_0;
    let op2 = binop_of(ts[3].node)->Some_0;
    let (l1, r1) = binding_power(op1);
    let (l2, r2) = binding_power(op2);
    lemma_precedence(op1);
    lemma_precedence(op2);
    let xa = SExpr { node: ident_node(ts[0].node), span: ts[0].span };
    let xb = SExpr { node: ident_node(ts[2].node), span: ts[2].span };
    let xc = SExpr { node: ident_node(ts[4].node), span: ts[4].span };
    lemma_ident_operand(ts, s0);
    lemma_ident_operand(ts, at(s0, 2));
    lemma_ident_operand(ts, at(s0, 4));
    assert(ts[1].node != Token::Question);
    assert(ts[3].node != Token::Question);
    let s5 = at(s0, 5);
    assert(sp_pratt(ts, at(s0, 4), r2) == (Ok::<SExpr, PErr>(xc), s5)) by {
        assert(sp_pratt_loop(ts, s5, xc, r2) == (Ok::<SExpr, PErr>(xc), s5));
    }
    assert(sp_pratt(ts, at(s0, 4), r1) == (Ok::<SExpr, PErr>(xc), s5)) by {
        assert(sp_pratt_loop(ts, s5, xc, r1) == (Ok::<SExpr, PErr>(xc), s5));
    }
    let e = if l2 <= l1 {
        let ab = SExpr { node: ExprV::Binary(op1, Box::new(xa), Box::new(xb)), span: merge(xa.span, xb.span) };
        let abc = SExpr { node: ExprV::Binary(op2, Box::new(ab), Box::new(xc)), span: merge(ab.span, xc.span) };
        assert(sp_pratt_loop(ts, at(s0, 3), xb, r1) == (Ok::<SExpr, PErr>(xb), at(s0, 3)));
        assert(sp_pratt(ts, at(s0, 2), r1) == (Ok::<SExpr, PErr>(xb), at(s0, 3)));
        assert(sp_pratt_loop(ts, s5, abc, 0) == (Ok::<SExpr, PErr>(abc), s5));
        assert(sp_pratt_loop(ts, at(s0, 3), ab, 0) == (Ok::<SExpr, PErr>(abc), s5));
        assert(sp_pratt_loop(ts, at(s0, 1), xa, 0) == (Ok::<SExpr, PErr>(abc), s5));
        abc
    } else {
        let bc = SExpr { node: ExprV::Binary(op2, Box::new(xb), Box::new(xc)), span: merge(xb.span, xc.span) };
        let abc = SExpr { node: ExprV::Binary(op1, Box::new(xa), Box::new(bc)), span: merge(xa.span, bc.span) };
        assert(sp_pratt_loop(ts, s5, bc, r1) == (Ok::<SExpr, PErr>(bc), s5));
        assert(sp_pratt_loop(ts, at(s0, 3), xb, r1) == (Ok::<SExpr, PErr>(bc), s5));
        assert(sp_pratt(ts, at(s0, 2), r1) == (Ok::<SExpr, PErr>(bc), s5));
        assert(sp_pratt_loop(ts, s5, abc, 0) == (Ok::<SExpr, PErr>(abc), s5));
        assert(sp_pratt_loop(ts, at(s0, 1), xa, 0) == (Ok::<SExpr, PErr>(abc), s5));
        abc
    };
    assert(sp_pratt(ts, s0, 0) == (Ok::<SExpr, PErr>(e), s5));
    assert(sp_assign(ts, s0) == (Ok::<SExpr, PErr>(e), s5));
    lemma_whole_expr_statement(ts, e);
}

/// Tokens that start with an identifier and form one expression `e` up to
/// their end are one expression statement.
proof fn lemma_whole_expr_statement(ts: Toks, e: SExpr)
    requires
        ts.len() > 0,
        ts[0].node is Ident,
        sp_assign(ts, PS { pos: 0, errs: seq![] }) == (Ok::<SExpr, PErr>(e), at(PS { pos: 0, errs: seq![] }, ts.len() as int)),
    ensures
        sp_items(ts, PS { pos: 0, errs: seq![] }, seq![]).0.len() == 1,
        sp_items(ts, PS { pos: 0, errs: seq![] }, seq![]).0[0].node == StmtV::Expr(e),
        sp_items(ts, PS { pos: 0, errs: seq![] }, seq![]).1.errs.len() == 0,
{
    let s0 = PS { pos: 0, errs: seq![] };
    let s5 = at(s0, ts.len() as int);
    assert(tok(ts, 0) == Some(ts[0].node));
    assert(sp_expr_stmt(ts, s0) == (Ok::<StmtV, PErr>(StmtV::Expr(e)), s5));
    assert(sp_stmt_kind(ts, s0) == (Ok::<StmtV, PErr>(StmtV::Expr(e)), s5));
    let st = sp_stmt(ts, s0).0;
    assert(sp_stmt(ts, s0).1 == s5);
    assert(st.node == StmtV::Expr(e));
    assert(sp_items(ts, s5, seq![st]) == (seq![st], s5));
    assert(seq![].push(st) == seq![st]);
}

// ---- operators as written ----

/// How each binary operator is written in a script.
pub open spec fn binop_text(op: BinOp) -> Seq<char> {
    match op {
        BinOp::Add => seq!['+'],
        BinOp::Sub => seq!['-'],
        BinOp::Mul => seq!['*'],
        BinOp::Div => seq!['/'],
        BinOp::Mod => seq!['%'],
        BinOp::Eq => seq!['=', '='],
        BinOp::Neq => seq!['!', '='],
        BinOp::StrictEq => seq!['=', '=', '='],
        BinOp::StrictNeq => seq!['!', '=', '='],
        BinOp::Lt => seq!['<'],
        BinOp::Lte => seq!['<', '='],
        BinOp::Gt => seq!['>'],
        BinOp::Gte => seq!['>', '='],
        BinOp::And => seq!['&', '&'],
        BinOp::Or => seq!['|', '|'],
    }
}

/// Each operator, as written, lexes to one token that the parser reads as
/// that very operator (so `!=` is `Neq`, never `Eq`).
pub proof fn lemma_operator_text(op: BinOp)
    ensures
        ({
            let (items, errs) = lex_from(binop_text(op), 0);
            &&& errs.len() == 0
            &&& items.len() == 1
            &&& items[0].1 == 0 && items[0].2 == binop_text(op).len()
            &&& items[0].0 matches Lexeme::Unit(t) && binop_of(t) == Some(op)
        }),
{
    let cs = binop_text(op);
    let e = scan(cs, 0).1;
    assert(e == cs.len());
    assert(lex_from(cs, e) == (Seq::<LexItem>::empty(), Seq::<(int, int)>::empty()));
    assert(scan(cs, 0).0 is Unit);
    assert(seq![(scan(cs, 0).0, 0int, e)] + Seq::<LexItem>::empty() =~= seq![(scan(cs, 0).0, 0int, e)]);
}

/// Different operator tokens stand for different operators.
pub proof fn lemma_binop_injective(a: Token, b: Token)
    ensures
        binop_of(a) is Some && binop_of(a) == binop_of(b) ==> a == b,
{
}

/// `a op b`, for identifiers `a` and `b` and any binary operator token, is
/// one expression statement: the operator the token stands for, applied to
/// `a` and `b`.
pub proof fn lemma_one_operator(ts: Toks)
    requires
        ts.len() == 3,
        ts[0].node is Ident,
        ts[2].node is Ident,
        binop_of(ts[1].node) is Some,
    ensures
        ({
            let (items, s) = sp_items(ts, PS { pos: 0, errs: seq![] }, seq![]);
            &&& s.errs.len() == 0
            &&& items.len() == 1
            &&& items[0].node matches StmtV::Expr(e) && bin_op(e) == binop_of(ts[1].node)
                && bin_left(e).node == ident_node(ts[0].node) && bin_right(e).node == ident_node(ts[2].node)
        }),
{
    let s0 = PS { pos: 0, errs: seq![] };
    let op = binop_of(ts[1].node)->Some_0;
    let (l1, r1) = binding_power(op);
    lemma_precedence(op);
    let xa = SExpr { node: ident_node(ts[0].node), span: ts[0].span };
    let xb = SExpr { node: ident_node(ts[2].node), span: ts[2].span };
    lemma_ident_operand(ts, s0);
    lemma_ident_operand(ts, at(s0, 2));
    assert(ts[1].node != Token::Question);
    let s3 = at(s0, 3);
    let ab = SExpr { node: ExprV::Binary(op, Box::new(xa), Box::new(xb)), span: merge(xa.span, xb.span) };
    assert(sp_pratt_loop(ts, s3, xb, r1) == (Ok::<SExpr, PErr>(xb), s3));
    assert(sp_pratt(ts, at(s0, 2), r1) == (Ok::<SExpr, PErr>(xb), s3));
    assert(sp_pratt_loop(ts, s3, ab, 0) == (Ok::<SExpr, PErr>(ab), s3));
    assert(sp_pratt_loop(ts, at(s0, 1), xa, 0) == (Ok::<SExpr, PErr>(ab), s3));
    assert(sp_pratt(ts, s0, 0) == (Ok::<SExpr, PErr>(ab), s3));
    assert(sp_assign(ts, s0) == (Ok::<SExpr, PErr>(ab), s3));
    lemma_whole_expr_statement(ts, ab);
    lemma_error_statement_recorded(ts);
    lemma_items_grows(ts, s0, seq![]);
}

} // verus!
