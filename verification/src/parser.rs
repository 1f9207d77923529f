//! The parser: a single-lookahead recursive-descent and precedence-climbing
//! consumer of the token stream. It owns error reporting and produces the
//! abstract syntax tree.
//!
//! The grammar:
//! - `Root := (Stat | ';')* <end>`; semicolons between top-level statements
//!   are optional and ignored.
//! - `Stat := 'fn' Ident '(' ')' Expr | 'data' '[' Integer ']' '=' String`,
//!   the integer not negative.
//! - a primary expression is an identifier, an assignment, `return` with an
//!   expression, a block in braces, a parenthesized expression or a literal,
//!   followed by any number of call suffixes folded left-associatively;
//! - a binary expression precedence-climbs: operators of equal strength
//!   group to the left, stronger operators bind into the right operand.
//!
//! The module defines the mathematical parser (`sp_root` and company, a
//! step-indexed recursion over the source) and the executable [`Parser`],
//! proved to return exactly what the mathematical parser settles on; so the
//! result of a parse is a function of the source text alone.

use vstd::prelude::*;

verus! {

use crate::lexer::lemma_skip_ws_bounds;
use crate::lexer::lemma_spec_next_at_start;
use crate::lexer::lemma_spec_next_bounds;
use crate::lexer::skip_ws;
use crate::lexer::spec_next;
use crate::lexer::Lexer;
use crate::lexer::Token;
use crate::lexer::TokenV;
use crate::operators::spec_precedence;
use crate::position::line_col_at;
use crate::position::LineIndex;

/// An expression tree node. Nodes are immutable once constructed and own
/// their children exclusively.
#[derive(Debug, PartialEq)]
pub enum Expr {
    Paren(Box<Expr>),
    Block(Vec<Expr>),
    Assignment(String, Box<Expr>),
    BinOp(Box<Expr>, String, Box<Expr>),
    Call(Box<Expr>, Vec<Expr>),
    Ident(String),
    Integer(i64),
    Float(String),
    Return(Box<Expr>),
}

/// A top-level statement: a zero-arity function declaration with a single
/// expression body, or a data declaration at a non-negative offset.
#[derive(Debug, PartialEq)]
pub enum Stat {
    Fn(String, Vec<Expr>, Expr),
    Data(u64, String),
}

/// The ordered sequence of top-level statements of a complete parse.
pub type Root = Vec<Stat>;

/// The mathematical view of an expression tree.
pub enum ExprV {
    Paren(Box<ExprV>),
    Block(Seq<ExprV>),
    Assignment(Seq<char>, Box<ExprV>),
    BinOp(Box<ExprV>, Seq<char>, Box<ExprV>),
    Call(Box<ExprV>, Seq<ExprV>),
    Ident(Seq<char>),
    Integer(i64),
    Float(Seq<char>),
    Return(Box<ExprV>),
}

/// The mathematical view of a statement.
pub enum StatV {
    Fn(Seq<char>, Seq<ExprV>, ExprV),
    Data(u64, Seq<char>),
}

/// The mathematical view of an expression: text fields become `Seq<char>`,
/// vectors of children become `Seq`.
pub open spec fn expr_view(e: Expr) -> ExprV
    decreases e,
{
    match e {
        Expr::Paren(b) => ExprV::Paren(Box::new(expr_view(*b))),
        Expr::Block(es) => ExprV::Block(exprs_view(es@)),
        Expr::Assignment(n, b) => ExprV::Assignment(n@, Box::new(expr_view(*b))),
        Expr::BinOp(a, op, b) => ExprV::BinOp(
            Box::new(expr_view(*a)),
            op@,
            Box::new(expr_view(*b)),
        ),
        Expr::Call(f, es) => ExprV::Call(Box::new(expr_view(*f)), exprs_view(es@)),
        Expr::Ident(n) => ExprV::Ident(n@),
        Expr::Integer(n) => ExprV::Integer(n),
        Expr::Float(t) => ExprV::Float(t@),
        Expr::Return(b) => ExprV::Return(Box::new(expr_view(*b))),
    }
}

/// The views of a sequence of expressions.
pub open spec fn exprs_view(es: Seq<Expr>) -> Seq<ExprV>
    decreases es,
{
    if es.len() == 0 {
        Seq::empty()
    } else {
        exprs_view(es.drop_last()).push(expr_view(es.last()))
    }
}

/// The mathematical view of a statement.
pub open spec fn stat_view(t: Stat) -> StatV {
    match t {
        Stat::Fn(n, ps, body) => StatV::Fn(n@, exprs_view(ps@), expr_view(body)),
        Stat::Data(off, d) => StatV::Data(off, d@),
    }
}

/// The views of a sequence of statements.
pub open spec fn stats_view(ts: Seq<Stat>) -> Seq<StatV>
    decreases ts,
{
    if ts.len() == 0 {
        Seq::empty()
    } else {
        stats_view(ts.drop_last()).push(stat_view(ts.last()))
    }
}

impl View for Expr {
    type V = ExprV;

    open spec fn view(&self) -> ExprV {
        expr_view(*self)
    }
}

impl View for Stat {
    type V = StatV;

    open spec fn view(&self) -> StatV {
        stat_view(*self)
    }
}

/// A parse failure: the 1-based line and column of the offending token (or
/// of end of input) and a message.
#[derive(Debug, Clone, PartialEq)]
pub struct ParseError {
    pub line: usize,
    pub col: usize,
    pub msg: String,
}

/// The mathematical view of a parse failure.
pub struct ErrV {
    pub line: nat,
    pub col: nat,
    pub msg: Seq<char>,
}

impl View for ParseError {
    type V = ErrV;

    open spec fn view(&self) -> ErrV {
        ErrV { line: self.line as nat, col: self.col as nat, msg: self.msg@ }
    }
}

/// The message reporting that one thing was expected and another was found.
pub open spec fn expected_msg(e: Seq<char>, g: Seq<char>) -> Seq<char> {
    "expected "@ + e + ", got "@ + g
}

/// The decimal digit character for a value below ten.
pub open spec fn dec_digit_char(d: int) -> char {
    if d == 0 {
        '0'
    } else if d == 1 {
        '1'
    } else if d == 2 {
        '2'
    } else if d == 3 {
        '3'
    } else if d == 4 {
        '4'
    } else if d == 5 {
        '5'
    } else if d == 6 {
        '6'
    } else if d == 7 {
        '7'
    } else if d == 8 {
        '8'
    } else {
        '9'
    }
}

/// The decimal digits of `n`, most significant first.
pub open spec fn dec_digits(n: nat) -> Seq<char>
    decreases n,
{
    if n < 10 {
        seq![dec_digit_char(n as int)]
    } else {
        dec_digits(n / 10).push(dec_digit_char((n % 10) as int))
    }
}

/// How a failure renders: `<line>:<col>: <message>`.
pub open spec fn err_render(e: ErrV) -> Seq<char> {
    dec_digits(e.line) + seq![':'] + dec_digits(e.col) + seq![':', ' '] + e.msg
}

/// The decimal digit character for a value below ten.
fn dec_digit_char_x(d: usize) -> (c: char)
    requires
        d < 10,
    ensures
        c == dec_digit_char(d as int),
{
    match d {
        0 => '0',
        1 => '1',
        2 => '2',
        3 => '3',
        4 => '4',
        5 => '5',
        6 => '6',
        7 => '7',
        8 => '8',
        _ => '9',
    }
}

/// The decimal rendering of `n`.
fn usize_to_string(n: usize) -> (r: String)
    ensures
        r@ == dec_digits(n as nat),
    decreases n,
{
    if n < 10 {
        let mut s = String::new();
        crate::lexer::push_char(&mut s, dec_digit_char_x(n));
        proof {
            assert(Seq::<char>::empty().push(dec_digit_char(n as int)) =~= seq![
                dec_digit_char(n as int),
            ]);
        }
        s
    } else {
        let mut s = usize_to_string(n / 10);
        crate::lexer::push_char(&mut s, dec_digit_char_x(n % 10));
        s
    }
}

impl ParseError {
    /// A failure at the given 1-based position carrying the message as it
    /// stands.
    pub fn format_line(pos: (usize, usize), msg: &str) -> (r: ParseError)
        ensures
            r@ == (ErrV { line: pos.0 as nat, col: pos.1 as nat, msg: msg@ }),
    {
        ParseError { line: pos.0, col: pos.1, msg: String::from_str(msg) }
    }

    /// A failure at the given 1-based position reporting that `e` was
    /// expected and `g` found.
    pub fn new(pos: (usize, usize), e: &str, g: &str) -> (r: ParseError)
        ensures
            r@ == (ErrV { line: pos.0 as nat, col: pos.1 as nat, msg: expected_msg(e@, g@) }),
    {
        let mut m = String::from_str("expected ");
        m.append(e);
        m.append(", got ");
        m.append(g);
        ParseError { line: pos.0, col: pos.1, msg: m }
    }

    /// The rendered diagnostic, `<line>:<col>: <message>`.
    pub fn render(&self) -> (r: String)
        ensures
            r@ == err_render(self@),
    {
        let mut out = usize_to_string(self.line);
        crate::lexer::push_char(&mut out, ':');
        let col = usize_to_string(self.col);
        out.append(col.as_str());
        crate::lexer::push_char(&mut out, ':');
        crate::lexer::push_char(&mut out, ' ');
        out.append(self.msg.as_str());
        proof {
            assert(err_render(self@) =~= dec_digits(self.line as nat).push(':') + dec_digits(
                self.col as nat,
            ).push(':').push(' ') + self.msg@);
        }
        out
    }
}

/// A short description of a token, as it appears in diagnostics.
pub open spec fn tok_desc(t: TokenV) -> Seq<char> {
    match t {
        TokenV::Data => "'data'"@,
        TokenV::Global => "'global'"@,
        TokenV::Export => "'export'"@,
        TokenV::Return => "'return'"@,
        TokenV::Fn => "'fn'"@,
        TokenV::Equals => "'='"@,
        TokenV::OpenParen => "'('"@,
        TokenV::CloseParen => "')'"@,
        TokenV::OpenBrace => "'{'"@,
        TokenV::CloseBrace => "'}'"@,
        TokenV::OpenBracket => "'['"@,
        TokenV::CloseBracket => "']'"@,
        TokenV::Semicolon => "';'"@,
        TokenV::Comma => "','"@,
        TokenV::Op(_) => "operator"@,
        TokenV::Str(_) => "string literal"@,
        TokenV::Float(_) => "float literal"@,
        TokenV::Integer(_) => "integer literal"@,
        TokenV::Ident(_) => "identifier"@,
        TokenV::Error => "invalid token"@,
    }
}

/// A short description of a token, as it appears in diagnostics.
fn tok_desc_x(t: &Token) -> (r: &'static str)
    ensures
        r@ == tok_desc(t@),
{
    match t {
        Token::Data => "'data'",
        Token::Global => "'global'",
        Token::Export => "'export'",
        Token::Return => "'return'",
        Token::Fn => "'fn'",
        Token::Equals => "'='",
        Token::OpenParen => "'('",
        Token::CloseParen => "')'",
        Token::OpenBrace => "'{'",
        Token::CloseBrace => "'}'",
        Token::OpenBracket => "'['",
        Token::CloseBracket => "']'",
        Token::Semicolon => "';'",
        Token::Comma => "','",
        Token::Op(_) => "operator",
        Token::Str(_) => "string literal",
        Token::Float(_) => "float literal",
        Token::Integer(_) => "integer literal",
        Token::Ident(_) => "identifier",
        Token::Error => "invalid token",
    }
}

/// A failure at position `i` of the source, carrying the message.
pub open spec fn err_v(s: Seq<char>, i: int, msg: Seq<char>) -> ErrV {
    ErrV {
        line: line_col_at(s, i).0 as nat,
        col: line_col_at(s, i).1 as nat,
        msg: msg,
    }
}

/// A failure at position `i` reporting that `e` was expected and `g` found.
pub open spec fn exp_err_v(s: Seq<char>, i: int, e: Seq<char>, g: Seq<char>) -> ErrV {
    err_v(s, i, expected_msg(e, g))
}

/// A failure at end of input reporting that `e` was expected.
pub open spec fn eof_err_v(s: Seq<char>, e: Seq<char>) -> ErrV {
    exp_err_v(s, s.len() as int, e, "<eof>"@)
}

/// One step of the mathematical parser: a result and the position after it,
/// a failure, or `Short` when the step budget ran out. Every run of the
/// executable parser is matched by all large enough budgets, so `Short`
/// never describes a parse that the executable parser finishes.
pub enum PRes<T> {
    Done(T, int),
    Fail(ErrV),
    Short,
}

/// A prefix expression: a parenthesized expression, an identifier or a
/// literal.
pub open spec fn sp_prefix(s: Seq<char>, i: int, f: nat) -> PRes<ExprV>
    decreases f,
{
    if f == 0 {
        PRes::Short
    } else {
        match spec_next(s, i) {
            None => PRes::Fail(eof_err_v(s, "prefixexpr"@)),
            Some((t, st, en)) => match t {
                TokenV::OpenParen => match sp_expr(s, en, (f - 1) as nat) {
                    PRes::Done(e, i2) => match spec_next(s, i2) {
                        Some((TokenV::CloseParen, st2, en2)) => PRes::Done(
                            ExprV::Paren(Box::new(e)),
                            en2,
                        ),
                        Some((t2, st2, en2)) => PRes::Fail(
                            exp_err_v(s, st2, "')'"@, tok_desc(t2)),
                        ),
                        None => PRes::Fail(eof_err_v(s, "')'"@)),
                    },
                    PRes::Fail(e) => PRes::Fail(e),
                    PRes::Short => PRes::Short,
                },
                TokenV::Ident(n) => PRes::Done(ExprV::Ident(n), en),
                TokenV::Float(t) => PRes::Done(ExprV::Float(t), en),
                TokenV::Integer(v) => PRes::Done(ExprV::Integer(v), en),
                _ => PRes::Fail(
                    exp_err_v(s, st, "parentheses or literal in prefixexpr"@, tok_desc(t)),
                ),
            },
        }
    }
}

/// A primary expression: an identifier or assignment, `return`, a block, or
/// a prefix expression, followed by its call suffixes.
pub open spec fn sp_primary(s: Seq<char>, i: int, f: nat) -> PRes<ExprV>
    decreases f,
{
    if f == 0 {
        PRes::Short
    } else {
        match spec_next(s, i) {
            None => PRes::Fail(eof_err_v(s, "expression"@)),
            Some((t, st, en)) => match t {
                TokenV::Ident(n) => match spec_next(s, en) {
                    Some((TokenV::Equals, st2, en2)) => match sp_expr(s, en2, (f - 1) as nat) {
                        PRes::Done(e, i2) => sp_suffix(
                            s,
                            i2,
                            ExprV::Assignment(n, Box::new(e)),
                            (f - 1) as nat,
                        ),
                        PRes::Fail(e) => PRes::Fail(e),
                        PRes::Short => PRes::Short,
                    },
                    Some((t2, st2, en2)) => sp_suffix(s, st2, ExprV::Ident(n), (f - 1) as nat),
                    None => sp_suffix(s, s.len() as int, ExprV::Ident(n), (f - 1) as nat),
                },
                TokenV::Return => match sp_expr(s, en, (f - 1) as nat) {
                    PRes::Done(e, i2) => sp_suffix(
                        s,
                        i2,
                        ExprV::Return(Box::new(e)),
                        (f - 1) as nat,
                    ),
                    PRes::Fail(e) => PRes::Fail(e),
                    PRes::Short => PRes::Short,
                },
                TokenV::OpenBrace => match sp_block(s, en, Seq::empty(), (f - 1) as nat) {
                    PRes::Done(es, i2) => sp_suffix(s, i2, ExprV::Block(es), (f - 1) as nat),
                    PRes::Fail(e) => PRes::Fail(e),
                    PRes::Short => PRes::Short,
                },
                _ => match sp_prefix(s, st, (f - 1) as nat) {
                    PRes::Done(e, i2) => sp_suffix(s, i2, e, (f - 1) as nat),
                    PRes::Fail(e) => PRes::Fail(e),
                    PRes::Short => PRes::Short,
                },
            },
        }
    }
}

/// Zero or more call suffixes after a primary expression, folded
/// left-associatively into `Call` nodes.
pub open spec fn sp_suffix(s: Seq<char>, i: int, base: ExprV, f: nat) -> PRes<ExprV>
    decreases f,
{
    if f == 0 {
        PRes::Short
    } else {
        match spec_next(s, i) {
            Some((TokenV::OpenParen, st, en)) => match sp_arglist(
                s,
                en,
                Seq::empty(),
                (f - 1) as nat,
            ) {
                PRes::Done(args, i2) => sp_suffix(
                    s,
                    i2,
                    ExprV::Call(Box::new(base), args),
                    (f - 1) as nat,
                ),
                PRes::Fail(e) => PRes::Fail(e),
                PRes::Short => PRes::Short,
            },
            Some((t, st, en)) => PRes::Done(base, st),
            None => PRes::Done(base, s.len() as int),
        }
    }
}

/// The arguments of a call, after the opening parenthesis: expressions
/// separated by commas until the closing parenthesis.
pub open spec fn sp_arglist(s: Seq<char>, i: int, acc: Seq<ExprV>, f: nat) -> PRes<Seq<ExprV>>
    decreases f,
{
    if f == 0 {
        PRes::Short
    } else {
        match spec_next(s, i) {
            None => PRes::Fail(
                err_v(s, s.len() as int, "incomplete argument list, closing parenthesis not found"@),
            ),
            Some((TokenV::CloseParen, st, en)) => PRes::Done(acc, en),
            Some((t0, st0, en0)) => match sp_expr(s, st0, (f - 1) as nat) {
                PRes::Done(e, i2) => match spec_next(s, i2) {
                    Some((TokenV::CloseParen, st2, en2)) => PRes::Done(acc.push(e), en2),
                    Some((TokenV::Comma, st2, en2)) => sp_arglist(
                        s,
                        en2,
                        acc.push(e),
                        (f - 1) as nat,
                    ),
                    Some((t2, st2, en2)) => PRes::Fail(
                        exp_err_v(s, st2, "')' or ','"@, tok_desc(t2)),
                    ),
                    None => PRes::Fail(eof_err_v(s, "')' or ','"@)),
                },
                PRes::Fail(e) => PRes::Fail(e),
                PRes::Short => PRes::Short,
            },
        }
    }
}

/// A full expression: a primary expression extended by precedence climbing
/// from binding strength zero.
pub open spec fn sp_expr(s: Seq<char>, i: int, f: nat) -> PRes<ExprV>
    decreases f,
{
    if f == 0 {
        PRes::Short
    } else {
        match sp_primary(s, i, (f - 1) as nat) {
            PRes::Done(lhs, i2) => sp_subexpr(s, i2, lhs, 0, (f - 1) as nat),
            PRes::Fail(e) => PRes::Fail(e),
            PRes::Short => PRes::Short,
        }
    }
}

/// Precedence climbing: while the next token is an operator of strength at
/// least `minp`, consume it, read its right operand, fold in any stronger
/// run, and combine to the left. An operator outside the fixed set is a
/// fatal error.
pub open spec fn sp_subexpr(s: Seq<char>, i: int, lhs: ExprV, minp: int, f: nat) -> PRes<ExprV>
    decreases f,
{
    if f == 0 {
        PRes::Short
    } else {
        match spec_next(s, i) {
            Some((TokenV::Op(sym), st, en)) => match spec_precedence(sym) {
                None => PRes::Fail(err_v(s, st, "foreign operator"@)),
                Some(p) => if p as int >= minp {
                    match sp_primary(s, en, (f - 1) as nat) {
                        PRes::Done(rhs, i2) => match sp_climb(
                            s,
                            i2,
                            rhs,
                            p as int,
                            minp,
                            (f - 1) as nat,
                        ) {
                            PRes::Done(rhs2, i3) => sp_subexpr(
                                s,
                                i3,
                                ExprV::BinOp(Box::new(lhs), sym, Box::new(rhs2)),
                                minp,
                                (f - 1) as nat,
                            ),
                            PRes::Fail(e) => PRes::Fail(e),
                            PRes::Short => PRes::Short,
                        },
                        PRes::Fail(e) => PRes::Fail(e),
                        PRes::Short => PRes::Short,
                    }
                } else {
                    PRes::Done(lhs, st)
                },
            },
            Some((t, st, en)) => PRes::Done(lhs, st),
            None => PRes::Done(lhs, s.len() as int),
        }
    }
}

/// The greedy fold of strictly stronger operators into a right operand:
/// while the next operator binds more strongly than the one consumed,
/// continue the climb one floor up.
pub open spec fn sp_climb(s: Seq<char>, i: int, rhs: ExprV, opp: int, minp: int, f: nat) -> PRes<
    ExprV,
>
    decreases f,
{
    if f == 0 {
        PRes::Short
    } else {
        match spec_next(s, i) {
            Some((TokenV::Op(sym2), st, en)) => match spec_precedence(sym2) {
                None => PRes::Fail(err_v(s, st, "foreign operator"@)),
                Some(p2) => if p2 as int > opp {
                    match sp_subexpr(s, st, rhs, minp + 1, (f - 1) as nat) {
                        PRes::Done(r2, i2) => sp_climb(s, i2, r2, opp, minp, (f - 1) as nat),
                        PRes::Fail(e) => PRes::Fail(e),
                        PRes::Short => PRes::Short,
                    }
                } else {
                    PRes::Done(rhs, st)
                },
            },
            Some((t, st, en)) => PRes::Done(rhs, st),
            None => PRes::Done(rhs, s.len() as int),
        }
    }
}

/// A block after its opening brace: expressions separated by semicolons,
/// ended by the closing brace. An empty block is allowed.
pub open spec fn sp_block(s: Seq<char>, i: int, acc: Seq<ExprV>, f: nat) -> PRes<Seq<ExprV>>
    decreases f,
{
    if f == 0 {
        PRes::Short
    } else {
        match spec_next(s, i) {
            None => PRes::Fail(eof_err_v(s, "'}'"@)),
            Some((TokenV::CloseBrace, st, en)) if acc.len() == 0 => PRes::Done(acc, en),
            Some((t0, st0, en0)) => match sp_expr(s, st0, (f - 1) as nat) {
                PRes::Done(e, i2) => match spec_next(s, i2) {
                    Some((TokenV::Semicolon, st2, en2)) => sp_block(
                        s,
                        en2,
                        acc.push(e),
                        (f - 1) as nat,
                    ),
                    Some((TokenV::CloseBrace, st2, en2)) => PRes::Done(acc.push(e), en2),
                    Some((t2, st2, en2)) => PRes::Fail(exp_err_v(s, st2, "'}'"@, tok_desc(t2))),
                    None => PRes::Fail(eof_err_v(s, "'}'"@)),
                },
                PRes::Fail(e) => PRes::Fail(e),
                PRes::Short => PRes::Short,
            },
        }
    }
}

/// The top level: function and data declarations, with optional semicolons
/// between them, until the end of the input.
pub open spec fn sp_root(s: Seq<char>, i: int, acc: Seq<StatV>, f: nat) -> PRes<Seq<StatV>>
    decreases f,
{
    if f == 0 {
        PRes::Short
    } else {
        match spec_next(s, i) {
            None => PRes::Done(acc, s.len() as int),
            Some((t, st, en)) => match t {
                TokenV::Fn => match spec_next(s, en) {
                    Some((TokenV::Ident(n), st2, en2)) => match spec_next(s, en2) {
                        Some((TokenV::OpenParen, st3, en3)) => match spec_next(s, en3) {
                            Some((TokenV::CloseParen, st4, en4)) => match sp_expr(
                                s,
                                en4,
                                (f - 1) as nat,
                            ) {
                                PRes::Done(body, i2) => sp_root(
                                    s,
                                    i2,
                                    acc.push(StatV::Fn(n, Seq::empty(), body)),
                                    (f - 1) as nat,
                                ),
                                PRes::Fail(e) => PRes::Fail(e),
                                PRes::Short => PRes::Short,
                            },
                            Some((t4, st4, en4)) => PRes::Fail(
                                exp_err_v(s, st4, "')'"@, tok_desc(t4)),
                            ),
                            None => PRes::Fail(eof_err_v(s, "')'"@)),
                        },
                        Some((t3, st3, en3)) => PRes::Fail(
                            exp_err_v(s, st3, "'('"@, tok_desc(t3)),
                        ),
                        None => PRes::Fail(eof_err_v(s, "'('"@)),
                    },
                    Some((t2, st2, en2)) => PRes::Fail(
                        exp_err_v(s, st2, "function name"@, tok_desc(t2)),
                    ),
                    None => PRes::Fail(eof_err_v(s, "function name"@)),
                },
                TokenV::Data => match spec_next(s, en) {
                    Some((TokenV::OpenBracket, st2, en2)) => match spec_next(s, en2) {
                        Some((TokenV::Integer(v), st3, en3)) => if v < 0 {
                            PRes::Fail(err_v(s, st3, "`data` position may not be negative"@))
                        } else {
                            match spec_next(s, en3) {
                                Some((TokenV::CloseBracket, st4, en4)) => match spec_next(
                                    s,
                                    en4,
                                ) {
                                    Some((TokenV::Equals, st5, en5)) => match spec_next(
                                        s,
                                        en5,
                                    ) {
                                        Some((TokenV::Str(d), st6, en6)) => sp_root(
                                            s,
                                            en6,
                                            acc.push(StatV::Data(v as u64, d)),
                                            (f - 1) as nat,
                                        ),
                                        Some((t6, st6, en6)) => PRes::Fail(
                                            exp_err_v(s, st6, "string literal"@, tok_desc(t6)),
                                        ),
                                        None => PRes::Fail(eof_err_v(s, "string literal"@)),
                                    },
                                    Some((t5, st5, en5)) => PRes::Fail(
                                        exp_err_v(s, st5, "'='"@, tok_desc(t5)),
                                    ),
                                    None => PRes::Fail(eof_err_v(s, "'='"@)),
                                },
                                Some((t4, st4, en4)) => PRes::Fail(
                                    exp_err_v(s, st4, "']'"@, tok_desc(t4)),
                                ),
                                None => PRes::Fail(eof_err_v(s, "']'"@)),
                            }
                        },
                        Some((t3, st3, en3)) => PRes::Fail(
                            err_v(s, st3, "expected integer, e.g. data[<int>]"@),
                        ),
                        None => PRes::Fail(
                            err_v(s, s.len() as int, "expected integer, e.g. data[<int>]"@),
                        ),
                    },
                    Some((t2, st2, en2)) => PRes::Fail(exp_err_v(s, st2, "'['"@, tok_desc(t2))),
                    None => PRes::Fail(eof_err_v(s, "'['"@)),
                },
                TokenV::Semicolon => sp_root(s, en, acc, (f - 1) as nat),
                _ => PRes::Fail(exp_err_v(s, st, "data, fn or ';'"@, tok_desc(t))),
            },
        }
    }
}

/// Appending an expression and taking views commute.
pub proof fn lemma_exprs_view_push(es: Seq<Expr>, e: Expr)
    ensures
        exprs_view(es.push(e)) == exprs_view(es).push(expr_view(e)),
{
    assert(es.push(e).drop_last() =~= es);
    assert(es.push(e).last() == e);
}

/// Appending a statement and taking views commute.
pub proof fn lemma_stats_view_push(ts: Seq<Stat>, t: Stat)
    ensures
        stats_view(ts.push(t)) == stats_view(ts).push(stat_view(t)),
{
    assert(ts.push(t).drop_last() =~= ts);
    assert(ts.push(t).last() == t);
}

/// Views keep the number of expressions.
pub proof fn lemma_exprs_view_len(es: Seq<Expr>)
    ensures
        exprs_view(es).len() == es.len(),
    decreases es,
{
    if es.len() > 0 {
        lemma_exprs_view_len(es.drop_last());
    }
}

/// Views keep the number of statements.
pub proof fn lemma_stats_view_len(ts: Seq<Stat>)
    ensures
        stats_view(ts).len() == ts.len(),
    decreases ts,
{
    if ts.len() > 0 {
        lemma_stats_view_len(ts.drop_last());
    }
}

/// `sp_prefix` yields `r` at every budget from `f0` up.
pub open spec fn prefix_settles_from(s: Seq<char>, i: int, r: PRes<ExprV>, f0: nat) -> bool {
    forall|f: nat| f >= f0 ==> sp_prefix(s, i, f) == r
}

/// `sp_prefix` yields `r` at every large enough budget.
pub open spec fn prefix_settles(s: Seq<char>, i: int, r: PRes<ExprV>) -> bool {
    exists|f0: nat| prefix_settles_from(s, i, r, f0)
}

/// `sp_primary` yields `r` at every budget from `f0` up.
pub open spec fn primary_settles_from(s: Seq<char>, i: int, r: PRes<ExprV>, f0: nat) -> bool {
    forall|f: nat| f >= f0 ==> sp_primary(s, i, f) == r
}

/// `sp_primary` yields `r` at every large enough budget.
pub open spec fn primary_settles(s: Seq<char>, i: int, r: PRes<ExprV>) -> bool {
    exists|f0: nat| primary_settles_from(s, i, r, f0)
}

/// `sp_suffix` yields `r` at every budget from `f0` up.
pub open spec fn suffix_settles_from(
    s: Seq<char>,
    i: int,
    base: ExprV,
    r: PRes<ExprV>,
    f0: nat,
) -> bool {
    forall|f: nat| f >= f0 ==> sp_suffix(s, i, base, f) == r
}

/// `sp_suffix` yields `r` at every large enough budget.
pub open spec fn suffix_settles(s: Seq<char>, i: int, base: ExprV, r: PRes<ExprV>) -> bool {
    exists|f0: nat| suffix_settles_from(s, i, base, r, f0)
}

/// `sp_arglist` yields `r` at every budget from `f0` up.
pub open spec fn arglist_settles_from(
    s: Seq<char>,
    i: int,
    acc: Seq<ExprV>,
    r: PRes<Seq<ExprV>>,
    f0: nat,
) -> bool {
    forall|f: nat| f >= f0 ==> sp_arglist(s, i, acc, f) == r
}

/// `sp_arglist` yields `r` at every large enough budget.
pub open spec fn arglist_settles(s: Seq<char>, i: int, acc: Seq<ExprV>, r: PRes<Seq<ExprV>>) -> bool {
    exists|f0: nat| arglist_settles_from(s, i, acc, r, f0)
}

/// `sp_expr` yields `r` at every budget from `f0` up.
pub open spec fn expr_settles_from(s: Seq<char>, i: int, r: PRes<ExprV>, f0: nat) -> bool {
    forall|f: nat| f >= f0 ==> sp_expr(s, i, f) == r
}

/// `sp_expr` yields `r` at every large enough budget.
pub open spec fn expr_settles(s: Seq<char>, i: int, r: PRes<ExprV>) -> bool {
    exists|f0: nat| expr_settles_from(s, i, r, f0)
}

/// `sp_subexpr` yields `r` at every budget from `f0` up.
pub open spec fn subexpr_settles_from(
    s: Seq<char>,
    i: int,
    lhs: ExprV,
    minp: int,
    r: PRes<ExprV>,
    f0: nat,
) -> bool {
    forall|f: nat| f >= f0 ==> sp_subexpr(s, i, lhs, minp, f) == r
}

/// `sp_subexpr` yields `r` at every large enough budget.
pub open spec fn subexpr_settles(
    s: Seq<char>,
    i: int,
    lhs: ExprV,
    minp: int,
    r: PRes<ExprV>,
) -> bool {
    exists|f0: nat| subexpr_settles_from(s, i, lhs, minp, r, f0)
}

/// `sp_climb` yields `r` at every budget from `f0` up.
pub open spec fn climb_settles_from(
    s: Seq<char>,
    i: int,
    rhs: ExprV,
    opp: int,
    minp: int,
    r: PRes<ExprV>,
    f0: nat,
) -> bool {
    forall|f: nat| f >= f0 ==> sp_climb(s, i, rhs, opp, minp, f) == r
}

/// `sp_climb` yields `r` at every large enough budget.
pub open spec fn climb_settles(
    s: Seq<char>,
    i: int,
    rhs: ExprV,
    opp: int,
    minp: int,
    r: PRes<ExprV>,
) -> bool {
    exists|f0: nat| climb_settles_from(s, i, rhs, opp, minp, r, f0)
}

/// `sp_block` yields `r` at every budget from `f0` up.
pub open spec fn block_settles_from(
    s: Seq<char>,
    i: int,
    acc: Seq<ExprV>,
    r: PRes<Seq<ExprV>>,
    f0: nat,
) -> bool {
    forall|f: nat| f >= f0 ==> sp_block(s, i, acc, f) == r
}

/// `sp_block` yields `r` at every large enough budget.
pub open spec fn block_settles(s: Seq<char>, i: int, acc: Seq<ExprV>, r: PRes<Seq<ExprV>>) -> bool {
    exists|f0: nat| block_settles_from(s, i, acc, r, f0)
}

/// `sp_root` yields `r` at every budget from `f0` up.
pub open spec fn root_settles_from(
    s: Seq<char>,
    i: int,
    acc: Seq<StatV>,
    r: PRes<Seq<StatV>>,
    f0: nat,
) -> bool {
    forall|f: nat| f >= f0 ==> sp_root(s, i, acc, f) == r
}

/// `sp_root` yields `r` at every large enough budget.
pub open spec fn root_settles(s: Seq<char>, i: int, acc: Seq<StatV>, r: PRes<Seq<StatV>>) -> bool {
    exists|f0: nat| root_settles_from(s, i, acc, r, f0)
}

/// The single-lookahead parser: a lexer cursor, the lookahead buffer of at
/// most one token, and the line index for diagnostics.
pub struct Parser {
    pub lexer: Lexer,
    pub peeked: Option<Option<(Token, usize, usize)>>,
    pub linecol: LineIndex,
}

impl Parser {
    /// The source text under this parser.
    pub open spec fn src(&self) -> Seq<char> {
        self.lexer.src@
    }

    /// The position of the next unconsumed token: the start of the buffered
    /// token, the end of the input once the lexer has run out, or the raw
    /// cursor position.
    pub open spec fn cur(&self) -> int {
        match self.peeked {
            Some(Some((t, st, en))) => st as int,
            Some(None) => self.src().len() as int,
            None => self.lexer.pos as int,
        }
    }

    /// The lookahead buffer agrees with the lexer: a buffered token is
    /// exactly the next token at the current position, and a buffered end of
    /// input means the cursor has reached it.
    pub open spec fn wf(&self) -> bool {
        &&& self.lexer.wf()
        &&& self.linecol.wf(self.src())
        &&& self.src().len() < usize::MAX
        &&& match self.peeked {
            None => true,
            Some(None) => self.lexer.pos == self.src().len(),
            Some(Some((t, st, en))) => spec_next(self.src(), st as int) == Some(
                (t@, st as int, en as int),
            ) && en == self.lexer.pos && st < self.src().len(),
        }
    }

    /// A fresh parser over the given source text.
    pub fn new(source: &str) -> (r: Parser)
        requires
            source@.len() < usize::MAX,
        ensures
            r.wf(),
            r.src() == source@,
            r.cur() == 0,
    {
        let lexer = Lexer::new(source);
        let linecol = LineIndex::new(&lexer.src);
        Parser { lexer, peeked: None, linecol }
    }

    /// Takes the next token with its span, or `None` at the end of the
    /// input: exactly what [`spec_next`] says of the current position.
    fn advance(&mut self) -> (r: Option<(Token, usize, usize)>)
        requires
            old(self).wf(),
        ensures
            final(self).wf(),
            final(self).src() == old(self).src(),
            final(self).peeked is None,
            match spec_next(old(self).src(), old(self).cur()) {
                None => r is None && final(self).cur() == old(self).src().len()
                    && old(self).cur() <= final(self).cur(),
                Some((tv, st, en)) => r matches Some(p) && p.0@ == tv && p.1 == st && p.2 == en
                    && final(self).cur() == en && final(self).lexer.pos == en && spec_next(
                    old(self).src(),
                    st as int,
                ) == Some((tv, st as int, en as int)) && old(self).cur() <= st < en <= old(
                    self,
                ).src().len(),
            },
    {
        let ghost s = self.src();
        let ghost i0 = self.cur();
        proof {
            lemma_spec_next_bounds(s, i0);
        }
        let buffered = self.peeked.take();
        let r = match buffered {
            Some(slot) => slot,
            None => self.lexer.next(),
        };
        proof {
            match spec_next(s, i0) {
                Some((tv, st, en)) => {
                    lemma_skip_ws_bounds(s, i0);
                    lemma_skip_ws_bounds(s, st);
                    assert(skip_ws(s, st) == st);
                },
                None => {},
            }
        }
        r
    }

    /// Returns a token to the lookahead buffer; the cursor stands at its
    /// start again.
    fn put_back(&mut self, t: Token, st: usize, en: usize)
        requires
            old(self).wf(),
            old(self).peeked is None,
            spec_next(old(self).src(), st as int) == Some((t@, st as int, en as int)),
            en == old(self).lexer.pos,
        ensures
            final(self).wf(),
            final(self).src() == old(self).src(),
            final(self).cur() == st,
    {
        proof {
            lemma_spec_next_bounds(self.src(), st as int);
        }
        self.peeked = Some(Some((t, st, en)));
    }

    /// A failure at the start of the offending token, reporting that `e` was
    /// expected and the described token found.
    fn error_expected(&self, st: usize, e: &str, g: &str) -> (pe: ParseError)
        requires
            self.wf(),
            st <= self.src().len(),
        ensures
            pe@ == exp_err_v(self.src(), st as int, e@, g@),
    {
        let pos = self.linecol.get(Ghost(self.src()), st);
        ParseError::new(pos, e, g)
    }

    /// A failure at the start of the offending token, with the message as it
    /// stands.
    fn error_msg(&self, st: usize, msg: &str) -> (pe: ParseError)
        requires
            self.wf(),
            st <= self.src().len(),
        ensures
            pe@ == err_v(self.src(), st as int, msg@),
    {
        let pos = self.linecol.get(Ghost(self.src()), st);
        ParseError::format_line(pos, msg)
    }

    /// A failure at the end of the input, reporting that `e` was expected.
    fn error_eof(&self, e: &str) -> (pe: ParseError)
        requires
            self.wf(),
        ensures
            pe@ == eof_err_v(self.src(), e@),
    {
        let pos = self.linecol.get(Ghost(self.src()), self.lexer.src.len());
        ParseError::new(pos, e, "<eof>")
    }

    /// A prefix expression: a parenthesized expression, an identifier or a
    /// literal.
    #[verifier::rlimit(50)]
    fn prefixexpr(&mut self) -> (r: Result<Expr, ParseError>)
        requires
            old(self).wf(),
        ensures
            final(self).wf(),
            final(self).src() == old(self).src(),
            match r {
                Ok(e) => prefix_settles(
                    old(self).src(),
                    old(self).cur(),
                    PRes::Done(expr_view(e), final(self).cur()),
                ) && old(self).cur() < final(self).cur() <= old(self).src().len(),
                Err(pe) => prefix_settles(old(self).src(), old(self).cur(), PRes::Fail(pe@)),
            },
        decreases old(self).src().len() - old(self).cur(), 0int, 0int,
    {
        let ghost s = self.src();
        let ghost i0 = self.cur();
        match self.advance() {
            None => {
                let pe = self.error_eof("prefixexpr");
                proof {
                    assert(prefix_settles_from(s, i0, PRes::Fail(pe@), 1));
                }
                Err(pe)
            },
            Some((Token::OpenParen, st, en)) => {
                match self.expr() {
                    Err(pe) => {
                        proof {
                            let f1 = choose|f0: nat|
                                expr_settles_from(s, en as int, PRes::Fail(pe@), f0);
                            assert forall|f: nat| f >= f1 + 1 implies sp_prefix(s, i0, f)
                                == PRes::<ExprV>::Fail(pe@) by {
                                assert(sp_expr(s, en as int, (f - 1) as nat) == PRes::<
                                    ExprV,
                                >::Fail(pe@));
                            }
                            assert(prefix_settles_from(s, i0, PRes::Fail(pe@), f1 + 1));
                        }
                        Err(pe)
                    },
                    Ok(e) => {
                        let ghost i2 = self.cur();
                        let ghost ev = expr_view(e);
                        let ghost f1 = choose|f0: nat|
                            expr_settles_from(s, en as int, PRes::Done(ev, i2), f0);
                        match self.advance() {
                            Some((Token::CloseParen, st2, en2)) => {
                                let res = Expr::Paren(Box::new(e));
                                proof {
                                    assert forall|f: nat| f >= f1 + 1 implies sp_prefix(
                                        s,
                                        i0,
                                        f,
                                    ) == PRes::Done(expr_view(res), en2 as int) by {
                                        assert(sp_expr(s, en as int, (f - 1) as nat)
                                            == PRes::Done(ev, i2));
                                    }
                                    assert(prefix_settles_from(
                                        s,
                                        i0,
                                        PRes::Done(expr_view(res), en2 as int),
                                        f1 + 1,
                                    ));
                                }
                                Ok(res)
                            },
                            Some((t2, st2, en2)) => {
                                let pe = self.error_expected(st2, "')'", tok_desc_x(&t2));
                                proof {
                                    assert forall|f: nat| f >= f1 + 1 implies sp_prefix(
                                        s,
                                        i0,
                                        f,
                                    ) == PRes::<ExprV>::Fail(pe@) by {
                                        assert(sp_expr(s, en as int, (f - 1) as nat)
                                            == PRes::Done(ev, i2));
                                    }
                                    assert(prefix_settles_from(s, i0, PRes::Fail(pe@), f1 + 1));
                                }
                                Err(pe)
                            },
                            None => {
                                let pe = self.error_eof("')'");
                                proof {
                                    assert forall|f: nat| f >= f1 + 1 implies sp_prefix(
                                        s,
                                        i0,
                                        f,
                                    ) == PRes::<ExprV>::Fail(pe@) by {
                                        assert(sp_expr(s, en as int, (f - 1) as nat)
                                            == PRes::Done(ev, i2));
                                    }
                                    assert(prefix_settles_from(s, i0, PRes::Fail(pe@), f1 + 1));
                                }
                                Err(pe)
                            },
                        }
                    },
                }
            },
            Some((Token::Ident(n), st, en)) => {
                let res = Expr::Ident(n);
                proof {
                    assert(prefix_settles_from(s, i0, PRes::Done(expr_view(res), en as int), 1));
                }
                Ok(res)
            },
            Some((Token::Float(t), st, en)) => {
                let res = Expr::Float(t);
                proof {
                    assert(prefix_settles_from(s, i0, PRes::Done(expr_view(res), en as int), 1));
                }
                Ok(res)
            },
            Some((Token::Integer(v), st, en)) => {
                let res = Expr::Integer(v);
                proof {
                    assert(prefix_settles_from(s, i0, PRes::Done(expr_view(res), en as int), 1));
                }
                Ok(res)
            },
            Some((t, st, en)) => {
                let pe = self.error_expected(st, "parentheses or literal in prefixexpr", tok_desc_x(&t));
                proof {
                    assert(prefix_settles_from(s, i0, PRes::Fail(pe@), 1));
                }
                Err(pe)
            },
        }
    }

    /// A full expression: a primary expression extended by precedence
    /// climbing from binding strength zero.
    fn expr(&mut self) -> (r: Result<Expr, ParseError>)
        requires
            old(self).wf(),
        ensures
            final(self).wf(),
            final(self).src() == old(self).src(),
            match r {
                Ok(e) => expr_settles(
                    old(self).src(),
                    old(self).cur(),
                    PRes::Done(expr_view(e), final(self).cur()),
                ) && old(self).cur() < final(self).cur() <= old(self).src().len(),
                Err(pe) => expr_settles(old(self).src(), old(self).cur(), PRes::Fail(pe@)),
            },
        decreases old(self).src().len() - old(self).cur(), 3int, 0int,
    {
        let ghost s = self.src();
        let ghost i0 = self.cur();
        match self.primaryexpr() {
            Err(pe) => {
                proof {
                    let f1 = choose|f0: nat| primary_settles_from(s, i0, PRes::Fail(pe@), f0);
                    assert forall|f: nat| f >= f1 + 1 implies sp_expr(s, i0, f) == PRes::<
                        ExprV,
                    >::Fail(pe@) by {
                        assert(sp_primary(s, i0, (f - 1) as nat) == PRes::<ExprV>::Fail(pe@));
                    }
                    assert(expr_settles_from(s, i0, PRes::Fail(pe@), f1 + 1));
                }
                Err(pe)
            },
            Ok(lhs) => {
                let ghost i2 = self.cur();
                let ghost lv = expr_view(lhs);
                let ghost f1 = choose|f0: nat|
                    primary_settles_from(s, i0, PRes::Done(lv, i2), f0);
                match self.subexpr(lhs, 0) {
                    Err(pe) => {
                        proof {
                            let f2 = choose|f0: nat|
                                subexpr_settles_from(s, i2, lv, 0, PRes::Fail(pe@), f0);
                            assert forall|f: nat| f >= f1 + f2 + 1 implies sp_expr(s, i0, f)
                                == PRes::<ExprV>::Fail(pe@) by {
                                assert(sp_primary(s, i0, (f - 1) as nat) == PRes::Done(lv, i2));
                                assert(sp_subexpr(s, i2, lv, 0, (f - 1) as nat) == PRes::<
                                    ExprV,
                                >::Fail(pe@));
                            }
                            assert(expr_settles_from(s, i0, PRes::Fail(pe@), f1 + f2 + 1));
                        }
                        Err(pe)
                    },
                    Ok(e) => {
                        let ghost i3 = self.cur();
                        let ghost ev = expr_view(e);
                        proof {
                            let f2 = choose|f0: nat|
                                subexpr_settles_from(s, i2, lv, 0, PRes::Done(ev, i3), f0);
                            assert forall|f: nat| f >= f1 + f2 + 1 implies sp_expr(s, i0, f)
                                == PRes::Done(ev, i3) by {
                                assert(sp_primary(s, i0, (f - 1) as nat) == PRes::Done(lv, i2));
                                assert(sp_subexpr(s, i2, lv, 0, (f - 1) as nat) == PRes::Done(
                                    ev,
                                    i3,
                                ));
                            }
                            assert(expr_settles_from(s, i0, PRes::Done(ev, i3), f1 + f2 + 1));
                        }
                        Ok(e)
                    },
                }
            },
        }
    }

    /// A primary expression: an identifier or assignment, `return`, a block,
    /// or a prefix expression, followed by its call suffixes.
    fn primaryexpr(&mut self) -> (r: Result<Expr, ParseError>)
        requires
            old(self).wf(),
        ensures
            final(self).wf(),
            final(self).src() == old(self).src(),
            match r {
                Ok(e) => primary_settles(
                    old(self).src(),
                    old(self).cur(),
                    PRes::Done(expr_view(e), final(self).cur()),
                ) && old(self).cur() < final(self).cur() <= old(self).src().len(),
                Err(pe) => primary_settles(old(self).src(), old(self).cur(), PRes::Fail(pe@)),
            },
        decreases old(self).src().len() - old(self).cur(), 1int, 0int,
    {
        let ghost s = self.src();
        let ghost i0 = self.cur();
        match self.advance() {
            None => {
                let pe = self.error_eof("expression");
                proof {
                    assert(primary_settles_from(s, i0, PRes::Fail(pe@), 1));
                }
                Err(pe)
            },
            Some((Token::Ident(n), st, en)) => {
                let ghost nv = n@;
                match self.advance() {
                    Some((Token::Equals, st2, en2)) => {
                        match self.expr() {
                            Err(pe) => {
                                proof {
                                    let f1 = choose|f0: nat|
                                        expr_settles_from(s, en2 as int, PRes::Fail(pe@), f0);
                                    assert forall|f: nat| f >= f1 + 1 implies sp_primary(s, i0, f)
                                        == PRes::<ExprV>::Fail(pe@) by {
                                        assert(sp_expr(s, en2 as int, (f - 1) as nat) == PRes::<
                                            ExprV,
                                        >::Fail(pe@));
                                    }
                                    assert(primary_settles_from(s, i0, PRes::Fail(pe@), f1 + 1));
                                }
                                Err(pe)
                            },
                            Ok(e) => {
                                let ghost i2 = self.cur();
                                let ghost ev = expr_view(e);
                                let ghost f1 = choose|f0: nat|
                                    expr_settles_from(s, en2 as int, PRes::Done(ev, i2), f0);
                                let a = Expr::Assignment(n, Box::new(e));
                                let ghost av = expr_view(a);
                                match self.suffix(a) {
                                    Err(pe) => {
                                        proof {
                                            let f2 = choose|f0: nat|
                                                suffix_settles_from(s, i2, av, PRes::Fail(pe@), f0);
                                            assert forall|f: nat| f >= f1 + f2 + 1 implies sp_primary(
                                                s,
                                                i0,
                                                f,
                                            ) == PRes::<ExprV>::Fail(pe@) by {
                                                assert(sp_expr(s, en2 as int, (f - 1) as nat)
                                                    == PRes::Done(ev, i2));
                                                assert(sp_suffix(s, i2, av, (f - 1) as nat)
                                                    == PRes::<ExprV>::Fail(pe@));
                                            }
                                            assert(primary_settles_from(s, i0, PRes::Fail(pe@), f1 + f2 + 1));
                                        }
                                        Err(pe)
                                    },
                                    Ok(res) => {
                                        let ghost i3 = self.cur();
                                        let ghost resv = expr_view(res);
                                        proof {
                                            let f2 = choose|f0: nat|
                                                suffix_settles_from(
                                                    s,
                                                    i2,
                                                    av,
                                                    PRes::Done(resv, i3),
                                                    f0,
                                                );
                                            assert forall|f: nat| f >= f1 + f2 + 1 implies sp_primary(
                                                s,
                                                i0,
                                                f,
                                            ) == PRes::Done(resv, i3) by {
                                                assert(sp_expr(s, en2 as int, (f - 1) as nat)
                                                    == PRes::Done(ev, i2));
                                                assert(sp_suffix(s, i2, av, (f - 1) as nat)
                                                    == PRes::Done(resv, i3));
                                            }
                                            assert(primary_settles_from(s, i0, PRes::Done(resv, i3), f1 + f2 + 1));
                                        }
                                        Ok(res)
                                    },
                                }
                            },
                        }
                    },
                    Some((t2, st2, en2)) => {
                        self.put_back(t2, st2, en2);
                        let b = Expr::Ident(n);
                        let ghost bv = expr_view(b);
                        match self.suffix(b) {
                            Err(pe) => {
                                proof {
                                    let f1 = choose|f0: nat|
                                        suffix_settles_from(s, st2 as int, bv, PRes::Fail(pe@), f0);
                                    assert forall|f: nat| f >= f1 + 1 implies sp_primary(s, i0, f)
                                        == PRes::<ExprV>::Fail(pe@) by {
                                        assert(sp_suffix(s, st2 as int, bv, (f - 1) as nat)
                                            == PRes::<ExprV>::Fail(pe@));
                                    }
                                    assert(primary_settles_from(s, i0, PRes::Fail(pe@), f1 + 1));
                                }
                                Err(pe)
                            },
                            Ok(res) => {
                                let ghost i3 = self.cur();
                                let ghost resv = expr_view(res);
                                proof {
                                    let f1 = choose|f0: nat|
                                        suffix_settles_from(
                                            s,
                                            st2 as int,
                                            bv,
                                            PRes::Done(resv, i3),
                                            f0,
                                        );
                                    assert forall|f: nat| f >= f1 + 1 implies sp_primary(s, i0, f)
                                        == PRes::Done(resv, i3) by {
                                        assert(sp_suffix(s, st2 as int, bv, (f - 1) as nat)
                                            == PRes::Done(resv, i3));
                                    }
                                    assert(primary_settles_from(s, i0, PRes::Done(resv, i3), f1 + 1));
                                }
                                Ok(res)
                            },
                        }
                    },
                    None => {
                        let b = Expr::Ident(n);
                        let ghost bv = expr_view(b);
                        match self.suffix(b) {
                            Err(pe) => {
                                proof {
                                    let f1 = choose|f0: nat|
                                        suffix_settles_from(
                                            s,
                                            s.len() as int,
                                            bv,
                                            PRes::Fail(pe@),
                                            f0,
                                        );
                                    assert forall|f: nat| f >= f1 + 1 implies sp_primary(s, i0, f)
                                        == PRes::<ExprV>::Fail(pe@) by {
                                        assert(sp_suffix(s, s.len() as int, bv, (f - 1) as nat)
                                            == PRes::<ExprV>::Fail(pe@));
                                    }
                                    assert(primary_settles_from(s, i0, PRes::Fail(pe@), f1 + 1));
                                }
                                Err(pe)
                            },
                            Ok(res) => {
                                let ghost i3 = self.cur();
                                let ghost resv = expr_view(res);
                                proof {
                                    let f1 = choose|f0: nat|
                                        suffix_settles_from(
                                            s,
                                            s.len() as int,
                                            bv,
                                            PRes::Done(resv, i3),
                                            f0,
                                        );
                                    assert forall|f: nat| f >= f1 + 1 implies sp_primary(s, i0, f)
                                        == PRes::Done(resv, i3) by {
                                        assert(sp_suffix(s, s.len() as int, bv, (f - 1) as nat)
                                            == PRes::Done(resv, i3));
                                    }
                                    assert(primary_settles_from(s, i0, PRes::Done(resv, i3), f1 + 1));
                                }
                                Ok(res)
                            },
                        }
                    },
                }
            },
            Some((Token::Return, st, en)) => {
                match self.expr() {
                    Err(pe) => {
                        proof {
                            let f1 = choose|f0: nat|
                                expr_settles_from(s, en as int, PRes::Fail(pe@), f0);
                            assert forall|f: nat| f >= f1 + 1 implies sp_primary(s, i0, f)
                                == PRes::<ExprV>::Fail(pe@) by {
                                assert(sp_expr(s, en as int, (f - 1) as nat) == PRes::<
                                    ExprV,
                                >::Fail(pe@));
                            }
                            assert(primary_settles_from(s, i0, PRes::Fail(pe@), f1 + 1));
                        }
                        Err(pe)
                    },
                    Ok(e) => {
                        let ghost i2 = self.cur();
                        let ghost ev = expr_view(e);
                        let ghost f1 = choose|f0: nat|
                            expr_settles_from(s, en as int, PRes::Done(ev, i2), f0);
                        let b = Expr::Return(Box::new(e));
                        let ghost bv = expr_view(b);
                        match self.suffix(b) {
                            Err(pe) => {
                                proof {
                                    let f2 = choose|f0: nat|
                                        suffix_settles_from(s, i2, bv, PRes::Fail(pe@), f0);
                                    assert forall|f: nat| f >= f1 + f2 + 1 implies sp_primary(
                                        s,
                                        i0,
                                        f,
                                    ) == PRes::<ExprV>::Fail(pe@) by {
                                        assert(sp_expr(s, en as int, (f - 1) as nat) == PRes::Done(
                                            ev,
                                            i2,
                                        ));
                                        assert(sp_suffix(s, i2, bv, (f - 1) as nat) == PRes::<
                                            ExprV,
                                        >::Fail(pe@));
                                    }
                                    assert(primary_settles_from(s, i0, PRes::Fail(pe@), f1 + f2 + 1));
                                }
                                Err(pe)
                            },
                            Ok(res) => {
                                let ghost i3 = self.cur();
                                let ghost resv = expr_view(res);
                                proof {
                                    let f2 = choose|f0: nat|
                                        suffix_settles_from(s, i2, bv, PRes::Done(resv, i3), f0);
                                    assert forall|f: nat| f >= f1 + f2 + 1 implies sp_primary(
                                        s,
                                        i0,
                                        f,
                                    ) == PRes::Done(resv, i3) by {
                                        assert(sp_expr(s, en as int, (f - 1) as nat) == PRes::Done(
                                            ev,
                                            i2,
                                        ));
                                        assert(sp_suffix(s, i2, bv, (f - 1) as nat) == PRes::Done(
                                            resv,
                                            i3,
                                        ));
                                    }
                                    assert(primary_settles_from(s, i0, PRes::Done(resv, i3), f1 + f2 + 1));
                                }
                                Ok(res)
                            },
                        }
                    },
                }
            },
            Some((Token::OpenBrace, st, en)) => {
                match self.block(Vec::new()) {
                    Err(pe) => {
                        proof {
                            let f1 = choose|f0: nat|
                                block_settles_from(s, en as int, Seq::empty(), PRes::Fail(pe@), f0);
                            assert forall|f: nat| f >= f1 + 1 implies sp_primary(s, i0, f)
                                == PRes::<ExprV>::Fail(pe@) by {
                                assert(sp_block(s, en as int, Seq::empty(), (f - 1) as nat)
                                    == PRes::<Seq<ExprV>>::Fail(pe@));
                            }
                            assert(primary_settles_from(s, i0, PRes::Fail(pe@), f1 + 1));
                        }
                        Err(pe)
                    },
                    Ok(es) => {
                        let ghost i2 = self.cur();
                        let ghost esv = exprs_view(es@);
                        let ghost f1 = choose|f0: nat|
                            block_settles_from(s, en as int, Seq::empty(), PRes::Done(esv, i2), f0);
                        let b = Expr::Block(es);
                        let ghost bv = expr_view(b);
                        match self.suffix(b) {
                            Err(pe) => {
                                proof {
                                    let f2 = choose|f0: nat|
                                        suffix_settles_from(s, i2, bv, PRes::Fail(pe@), f0);
                                    assert forall|f: nat| f >= f1 + f2 + 1 implies sp_primary(
                                        s,
                                        i0,
                                        f,
                                    ) == PRes::<ExprV>::Fail(pe@) by {
                                        assert(sp_block(s, en as int, Seq::empty(), (f - 1) as nat)
                                            == PRes::Done(esv, i2));
                                        assert(sp_suffix(s, i2, bv, (f - 1) as nat) == PRes::<
                                            ExprV,
                                        >::Fail(pe@));
                                    }
                                    assert(primary_settles_from(s, i0, PRes::Fail(pe@), f1 + f2 + 1));
                                }
                                Err(pe)
                            },
                            Ok(res) => {
                                let ghost i3 = self.cur();
                                let ghost resv = expr_view(res);
                                proof {
                                    let f2 = choose|f0: nat|
                                        suffix_settles_from(s, i2, bv, PRes::Done(resv, i3), f0);
                                    assert forall|f: nat| f >= f1 + f2 + 1 implies sp_primary(
                                        s,
                                        i0,
                                        f,
                                    ) == PRes::Done(resv, i3) by {
                                        assert(sp_block(s, en as int, Seq::empty(), (f - 1) as nat)
                                            == PRes::Done(esv, i2));
                                        assert(sp_suffix(s, i2, bv, (f - 1) as nat) == PRes::Done(
                                            resv,
                                            i3,
                                        ));
                                    }
                                    assert(primary_settles_from(s, i0, PRes::Done(resv, i3), f1 + f2 + 1));
                                }
                                Ok(res)
                            },
                        }
                    },
                }
            },
            Some((t, st, en)) => {
                self.put_back(t, st, en);
                match self.prefixexpr() {
                    Err(pe) => {
                        proof {
                            let f1 = choose|f0: nat|
                                prefix_settles_from(s, st as int, PRes::Fail(pe@), f0);
                            assert forall|f: nat| f >= f1 + 1 implies sp_primary(s, i0, f)
                                == PRes::<ExprV>::Fail(pe@) by {
                                assert(sp_prefix(s, st as int, (f - 1) as nat) == PRes::<
                                    ExprV,
                                >::Fail(pe@));
                            }
                            assert(primary_settles_from(s, i0, PRes::Fail(pe@), f1 + 1));
                        }
                        Err(pe)
                    },
                    Ok(e) => {
                        let ghost i2 = self.cur();
                        let ghost ev = expr_view(e);
                        let ghost f1 = choose|f0: nat|
                            prefix_settles_from(s, st as int, PRes::Done(ev, i2), f0);
                        match self.suffix(e) {
                            Err(pe) => {
                                proof {
                                    let f2 = choose|f0: nat|
                                        suffix_settles_from(s, i2, ev, PRes::Fail(pe@), f0);
                                    assert forall|f: nat| f >= f1 + f2 + 1 implies sp_primary(
                                        s,
                                        i0,
                                        f,
                                    ) == PRes::<ExprV>::Fail(pe@) by {
                                        assert(sp_prefix(s, st as int, (f - 1) as nat)
                                            == PRes::Done(ev, i2));
                                        assert(sp_suffix(s, i2, ev, (f - 1) as nat) == PRes::<
                                            ExprV,
                                        >::Fail(pe@));
                                    }
                                    assert(primary_settles_from(s, i0, PRes::Fail(pe@), f1 + f2 + 1));
                                }
                                Err(pe)
                            },
                            Ok(res) => {
                                let ghost i3 = self.cur();
                                let ghost resv = expr_view(res);
                                proof {
                                    let f2 = choose|f0: nat|
                                        suffix_settles_from(s, i2, ev, PRes::Done(resv, i3), f0);
                                    assert forall|f: nat| f >= f1 + f2 + 1 implies sp_primary(
                                        s,
                                        i0,
                                        f,
                                    ) == PRes::Done(resv, i3) by {
                                        assert(sp_prefix(s, st as int, (f - 1) as nat)
                                            == PRes::Done(ev, i2));
                                        assert(sp_suffix(s, i2, ev, (f - 1) as nat) == PRes::Done(
                                            resv,
                                            i3,
                                        ));
                                    }
                                    assert(primary_settles_from(s, i0, PRes::Done(resv, i3), f1 + f2 + 1));
                                }
                                Ok(res)
                            },
                        }
                    },
                }
            },
        }
    }

    /// A block after its opening brace: expressions separated by semicolons,
    /// ended by the closing brace.
    fn block(&mut self, acc: Vec<Expr>) -> (r: Result<Vec<Expr>, ParseError>)
        requires
            old(self).wf(),
        ensures
            final(self).wf(),
            final(self).src() == old(self).src(),
            match r {
                Ok(out) => block_settles(
                    old(self).src(),
                    old(self).cur(),
                    exprs_view(acc@),
                    PRes::Done(exprs_view(out@), final(self).cur()),
                ) && old(self).cur() < final(self).cur() <= old(self).src().len(),
                Err(pe) => block_settles(
                    old(self).src(),
                    old(self).cur(),
                    exprs_view(acc@),
                    PRes::Fail(pe@),
                ),
            },
        decreases old(self).src().len() - old(self).cur(), 4int, 0int,
    {
        let ghost s = self.src();
        let ghost i0 = self.cur();
        let ghost accv = exprs_view(acc@);
        let mut acc = acc;
        let acc_empty = acc.len() == 0;
        proof {
            lemma_exprs_view_len(acc@);
        }
        match self.advance() {
            None => {
                let pe = self.error_eof("'}'");
                proof {
                    assert(block_settles_from(s, i0, accv, PRes::Fail(pe@), 1));
                }
                Err(pe)
            },
            Some((Token::CloseBrace, st, en)) if acc_empty => {
                proof {
                    assert(block_settles_from(s, i0, accv, PRes::Done(accv, en as int), 1));
                }
                Ok(acc)
            },
            Some((t0, st0, en0)) => {
                self.put_back(t0, st0, en0);
                match self.expr() {
                    Err(pe) => {
                        proof {
                            let f1 = choose|f0: nat|
                                expr_settles_from(s, st0 as int, PRes::Fail(pe@), f0);
                            assert forall|f: nat| f >= f1 + 1 implies sp_block(s, i0, accv, f)
                                == PRes::<Seq<ExprV>>::Fail(pe@) by {
                                assert(sp_expr(s, st0 as int, (f - 1) as nat) == PRes::<
                                    ExprV,
                                >::Fail(pe@));
                            }
                            assert(block_settles_from(s, i0, accv, PRes::Fail(pe@), f1 + 1));
                        }
                        Err(pe)
                    },
                    Ok(e) => {
                        let ghost i2 = self.cur();
                        let ghost ev = expr_view(e);
                        let ghost f1 = choose|f0: nat|
                            expr_settles_from(s, st0 as int, PRes::Done(ev, i2), f0);
                        match self.advance() {
                            Some((Token::Semicolon, st2, en2)) => {
                                proof {
                                    lemma_exprs_view_push(acc@, e);
                                }
                                acc.push(e);
                                let ghost accv2 = exprs_view(acc@);
                                match self.block(acc) {
                                    Err(pe) => {
                                        proof {
                                            let f2 = choose|f0: nat|
                                                block_settles_from(
                                                    s,
                                                    en2 as int,
                                                    accv2,
                                                    PRes::Fail(pe@),
                                                    f0,
                                                );
                                            assert forall|f: nat| f >= f1 + f2 + 1 implies sp_block(
                                                s,
                                                i0,
                                                accv,
                                                f,
                                            ) == PRes::<Seq<ExprV>>::Fail(pe@) by {
                                                assert(sp_expr(s, st0 as int, (f - 1) as nat)
                                                    == PRes::Done(ev, i2));
                                                assert(sp_block(
                                                    s,
                                                    en2 as int,
                                                    accv2,
                                                    (f - 1) as nat,
                                                ) == PRes::<Seq<ExprV>>::Fail(pe@));
                                            }
                                            assert(block_settles_from(s, i0, accv, PRes::Fail(pe@), f1 + f2 + 1));
                                        }
                                        Err(pe)
                                    },
                                    Ok(out) => {
                                        let ghost i3 = self.cur();
                                        let ghost outv = exprs_view(out@);
                                        proof {
                                            let f2 = choose|f0: nat|
                                                block_settles_from(
                                                    s,
                                                    en2 as int,
                                                    accv2,
                                                    PRes::Done(outv, i3),
                                                    f0,
                                                );
                                            assert forall|f: nat| f >= f1 + f2 + 1 implies sp_block(
                                                s,
                                                i0,
                                                accv,
                                                f,
                                            ) == PRes::Done(outv, i3) by {
                                                assert(sp_expr(s, st0 as int, (f - 1) as nat)
                                                    == PRes::Done(ev, i2));
                                                assert(sp_block(
                                                    s,
                                                    en2 as int,
                                                    accv2,
                                                    (f - 1) as nat,
                                                ) == PRes::Done(outv, i3));
                                            }
                                            assert(block_settles_from(s, i0, accv, PRes::Done(outv, i3), f1 + f2 + 1));
                                        }
                                        Ok(out)
                                    },
                                }
                            },
                            Some((Token::CloseBrace, st2, en2)) => {
                                proof {
                                    lemma_exprs_view_push(acc@, e);
                                }
                                acc.push(e);
                                proof {
                                    assert forall|f: nat| f >= f1 + 1 implies sp_block(
                                        s,
                                        i0,
                                        accv,
                                        f,
                                    ) == PRes::Done(exprs_view(acc@), en2 as int) by {
                                        assert(sp_expr(s, st0 as int, (f - 1) as nat)
                                            == PRes::Done(ev, i2));
                                    }
                                    assert(block_settles_from(s, i0, accv, PRes::Done(exprs_view(acc@), en2 as int), f1 + 1));
                                }
                                Ok(acc)
                            },
                            Some((t2, st2, en2)) => {
                                let pe = self.error_expected(st2, "'}'", tok_desc_x(&t2));
                                proof {
                                    assert forall|f: nat| f >= f1 + 1 implies sp_block(
                                        s,
                                        i0,
                                        accv,
                                        f,
                                    ) == PRes::<Seq<ExprV>>::Fail(pe@) by {
                                        assert(sp_expr(s, st0 as int, (f - 1) as nat)
                                            == PRes::Done(ev, i2));
                                    }
                                    assert(block_settles_from(s, i0, accv, PRes::Fail(pe@), f1 + 1));
                                }
                                Err(pe)
                            },
                            None => {
                                let pe = self.error_eof("'}'");
                                proof {
                                    assert forall|f: nat| f >= f1 + 1 implies sp_block(
                                        s,
                                        i0,
                                        accv,
                                        f,
                                    ) == PRes::<Seq<ExprV>>::Fail(pe@) by {
                                        assert(sp_expr(s, st0 as int, (f - 1) as nat)
                                            == PRes::Done(ev, i2));
                                    }
                                    assert(block_settles_from(s, i0, accv, PRes::Fail(pe@), f1 + 1));
                                }
                                Err(pe)
                            },
                        }
                    },
                }
            },
        }
    }

    /// Precedence climbing from the floor `minp`: consume operators of
    /// strength at least `minp`, folding equal strengths to the left.
    fn subexpr(&mut self, lhs: Expr, minp: u8) -> (r: Result<Expr, ParseError>)
        requires
            old(self).wf(),
            minp <= 8,
        ensures
            final(self).wf(),
            final(self).src() == old(self).src(),
            match r {
                Ok(e) => subexpr_settles(
                    old(self).src(),
                    old(self).cur(),
                    expr_view(lhs),
                    minp as int,
                    PRes::Done(expr_view(e), final(self).cur()),
                ) && old(self).cur() <= final(self).cur() <= old(self).src().len() && (match
                    spec_next(old(self).src(), old(self).cur()) {
                    Some((t, st, en)) => (t matches TokenV::Op(sym) && spec_precedence(sym)
                        matches Some(p) && p as int >= minp as int) ==> final(self).cur() > old(
                        self,
                    ).cur(),
                    None => true,
                }),
                Err(pe) => subexpr_settles(
                    old(self).src(),
                    old(self).cur(),
                    expr_view(lhs),
                    minp as int,
                    PRes::Fail(pe@),
                ),
            },
        decreases old(self).src().len() - old(self).cur(), 2int, 9 - minp,
    {
        let ghost s = self.src();
        let ghost i0 = self.cur();
        let ghost lv = expr_view(lhs);
        match self.advance() {
            None => {
                proof {
                    assert(subexpr_settles_from(s, i0, lv, minp as int, PRes::Done(lv, s.len() as int), 1));
                }
                Ok(lhs)
            },
            Some((Token::Op(sym), st, en)) => {
                let ghost symv = sym@;
                match crate::operators::precedence(sym.as_str()) {
                    None => {
                        let pe = self.error_msg(st, "foreign operator");
                        proof {
                            assert(subexpr_settles_from(s, i0, lv, minp as int, PRes::Fail(pe@), 1));
                        }
                        Err(pe)
                    },
                    Some(p) => {
                        if p >= minp {
                            match self.primaryexpr() {
                                Err(pe) => {
                                    proof {
                                        let f1 = choose|f0: nat|
                                            primary_settles_from(s, en as int, PRes::Fail(pe@), f0);
                                        assert forall|f: nat| f >= f1 + 1 implies sp_subexpr(
                                            s,
                                            i0,
                                            lv,
                                            minp as int,
                                            f,
                                        ) == PRes::<ExprV>::Fail(pe@) by {
                                            assert(sp_primary(s, en as int, (f - 1) as nat)
                                                == PRes::<ExprV>::Fail(pe@));
                                        }
                                        assert(subexpr_settles_from(s, i0, lv, minp as int, PRes::Fail(pe@), f1 + 1));
                                    }
                                    Err(pe)
                                },
                                Ok(rhs) => {
                                    let ghost i2 = self.cur();
                                    let ghost rv = expr_view(rhs);
                                    let ghost f1 = choose|f0: nat|
                                        primary_settles_from(s, en as int, PRes::Done(rv, i2), f0);
                                    match self.climb(rhs, p, minp) {
                                        Err(pe) => {
                                            proof {
                                                let f2 = choose|f0: nat|
                                                    climb_settles_from(
                                                        s,
                                                        i2,
                                                        rv,
                                                        p as int,
                                                        minp as int,
                                                        PRes::Fail(pe@),
                                                        f0,
                                                    );
                                                assert forall|f: nat| f >= f1 + f2 + 1 implies sp_subexpr(
                                                    s,
                                                    i0,
                                                    lv,
                                                    minp as int,
                                                    f,
                                                ) == PRes::<ExprV>::Fail(pe@) by {
                                                    assert(sp_primary(s, en as int, (f - 1) as nat)
                                                        == PRes::Done(rv, i2));
                                                    assert(sp_climb(
                                                        s,
                                                        i2,
                                                        rv,
                                                        p as int,
                                                        minp as int,
                                                        (f - 1) as nat,
                                                    ) == PRes::<ExprV>::Fail(pe@));
                                                }
                                                assert(subexpr_settles_from(s, i0, lv, minp as int, PRes::Fail(pe@), f1 + f2 + 1));
                                            }
                                            Err(pe)
                                        },
                                        Ok(rhs2) => {
                                            let ghost i3 = self.cur();
                                            let ghost r2v = expr_view(rhs2);
                                            let ghost f2 = choose|f0: nat|
                                                climb_settles_from(
                                                    s,
                                                    i2,
                                                    rv,
                                                    p as int,
                                                    minp as int,
                                                    PRes::Done(r2v, i3),
                                                    f0,
                                                );
                                            let folded = Expr::BinOp(
                                                Box::new(lhs),
                                                sym,
                                                Box::new(rhs2),
                                            );
                                            let ghost fv = expr_view(folded);
                                            match self.subexpr(folded, minp) {
                                                Err(pe) => {
                                                    proof {
                                                        let f3 = choose|f0: nat|
                                                            subexpr_settles_from(
                                                                s,
                                                                i3,
                                                                fv,
                                                                minp as int,
                                                                PRes::Fail(pe@),
                                                                f0,
                                                            );
                                                        assert forall|f: nat|
                                                            f >= f1 + f2 + f3 + 1 implies sp_subexpr(
                                                            s,
                                                            i0,
                                                            lv,
                                                            minp as int,
                                                            f,
                                                        ) == PRes::<ExprV>::Fail(pe@) by {
                                                            assert(sp_primary(
                                                                s,
                                                                en as int,
                                                                (f - 1) as nat,
                                                            ) == PRes::Done(rv, i2));
                                                            assert(sp_climb(
                                                                s,
                                                                i2,
                                                                rv,
                                                                p as int,
                                                                minp as int,
                                                                (f - 1) as nat,
                                                            ) == PRes::Done(r2v, i3));
                                                            assert(sp_subexpr(
                                                                s,
                                                                i3,
                                                                fv,
                                                                minp as int,
                                                                (f - 1) as nat,
                                                            ) == PRes::<ExprV>::Fail(pe@));
                                                        }
                                                        assert(subexpr_settles_from(s, i0, lv, minp as int, PRes::Fail(pe@), f1 + f2 + f3 + 1));
                                                    }
                                                    Err(pe)
                                                },
                                                Ok(res) => {
                                                    let ghost i4 = self.cur();
                                                    let ghost resv = expr_view(res);
                                                    proof {
                                                        let f3 = choose|f0: nat|
                                                            subexpr_settles_from(
                                                                s,
                                                                i3,
                                                                fv,
                                                                minp as int,
                                                                PRes::Done(resv, i4),
                                                                f0,
                                                            );
                                                        assert forall|f: nat|
                                                            f >= f1 + f2 + f3 + 1 implies sp_subexpr(
                                                            s,
                                                            i0,
                                                            lv,
                                                            minp as int,
                                                            f,
                                                        ) == PRes::Done(resv, i4) by {
                                                            assert(sp_primary(
                                                                s,
                                                                en as int,
                                                                (f - 1) as nat,
                                                            ) == PRes::Done(rv, i2));
                                                            assert(sp_climb(
                                                                s,
                                                                i2,
                                                                rv,
                                                                p as int,
                                                                minp as int,
                                                                (f - 1) as nat,
                                                            ) == PRes::Done(r2v, i3));
                                                            assert(sp_subexpr(
                                                                s,
                                                                i3,
                                                                fv,
                                                                minp as int,
                                                                (f - 1) as nat,
                                                            ) == PRes::Done(resv, i4));
                                                        }
                                                        assert(subexpr_settles_from(s, i0, lv, minp as int, PRes::Done(resv, i4), f1 + f2 + f3 + 1));
                                                    }
                                                    Ok(res)
                                                },
                                            }
                                        },
                                    }
                                },
                            }
                        } else {
                            self.put_back(Token::Op(sym), st, en);
                            proof {
                                assert(subexpr_settles_from(s, i0, lv, minp as int, PRes::Done(lv, st as int), 1));
                            }
                            Ok(lhs)
                        }
                    },
                }
            },
            Some((t, st, en)) => {
                self.put_back(t, st, en);
                proof {
                    assert(subexpr_settles_from(s, i0, lv, minp as int, PRes::Done(lv, st as int), 1));
                }
                Ok(lhs)
            },
        }
    }

    /// The greedy fold of strictly stronger operators into a right operand.
    fn climb(&mut self, rhs: Expr, opp: u8, minp: u8) -> (r: Result<Expr, ParseError>)
        requires
            old(self).wf(),
            minp <= opp <= 8,
        ensures
            final(self).wf(),
            final(self).src() == old(self).src(),
            match r {
                Ok(e) => climb_settles(
                    old(self).src(),
                    old(self).cur(),
                    expr_view(rhs),
                    opp as int,
                    minp as int,
                    PRes::Done(expr_view(e), final(self).cur()),
                ) && old(self).cur() <= final(self).cur() <= old(self).src().len(),
                Err(pe) => climb_settles(
                    old(self).src(),
                    old(self).cur(),
                    expr_view(rhs),
                    opp as int,
                    minp as int,
                    PRes::Fail(pe@),
                ),
            },
        decreases old(self).src().len() - old(self).cur(), 2int, 9 - minp,
    {
        let ghost s = self.src();
        let ghost i0 = self.cur();
        let ghost rv = expr_view(rhs);
        match self.advance() {
            None => {
                proof {
                    assert(climb_settles_from(s, i0, rv, opp as int, minp as int, PRes::Done(rv, s.len() as int), 1));
                }
                Ok(rhs)
            },
            Some((Token::Op(sym2), st, en)) => {
                let ghost symv = sym2@;
                match crate::operators::precedence(sym2.as_str()) {
                    None => {
                        let pe = self.error_msg(st, "foreign operator");
                        proof {
                            assert(climb_settles_from(s, i0, rv, opp as int, minp as int, PRes::Fail(pe@), 1));
                        }
                        Err(pe)
                    },
                    Some(p2) => {
                        proof {
                            crate::operators::lemma_precedence_range(symv);
                        }
                        if p2 > opp {
                            self.put_back(Token::Op(sym2), st, en);
                            let ghost m1: int = minp as int + 1;
                            match self.subexpr(rhs, minp + 1) {
                                Err(pe) => {
                                    proof {
                                        let f1 = choose|f0: nat|
                                            subexpr_settles_from(
                                                s,
                                                st as int,
                                                rv,
                                                m1,
                                                PRes::Fail(pe@),
                                                f0,
                                            );
                                        assert forall|f: nat| f >= f1 + 1 implies sp_climb(
                                            s,
                                            i0,
                                            rv,
                                            opp as int,
                                            minp as int,
                                            f,
                                        ) == PRes::<ExprV>::Fail(pe@) by {
                                            assert(sp_subexpr(
                                                s,
                                                st as int,
                                                rv,
                                                m1,
                                                (f - 1) as nat,
                                            ) == PRes::<ExprV>::Fail(pe@));
                                        }
                                        assert(climb_settles_from(s, i0, rv, opp as int, minp as int, PRes::Fail(pe@), f1 + 1));
                                    }
                                    Err(pe)
                                },
                                Ok(r2) => {
                                    let ghost i2 = self.cur();
                                    let ghost r2v = expr_view(r2);
                                    let ghost f1 = choose|f0: nat|
                                        subexpr_settles_from(
                                            s,
                                            st as int,
                                            rv,
                                            m1,
                                            PRes::Done(r2v, i2),
                                            f0,
                                        );
                                    match self.climb(r2, opp, minp) {
                                        Err(pe) => {
                                            proof {
                                                let f2 = choose|f0: nat|
                                                    climb_settles_from(
                                                        s,
                                                        i2,
                                                        r2v,
                                                        opp as int,
                                                        minp as int,
                                                        PRes::Fail(pe@),
                                                        f0,
                                                    );
                                                assert forall|f: nat| f >= f1 + f2 + 1 implies sp_climb(
                                                    s,
                                                    i0,
                                                    rv,
                                                    opp as int,
                                                    minp as int,
                                                    f,
                                                ) == PRes::<ExprV>::Fail(pe@) by {
                                                    assert(sp_subexpr(
                                                        s,
                                                        st as int,
                                                        rv,
                                                        m1,
                                                        (f - 1) as nat,
                                                    ) == PRes::Done(r2v, i2));
                                                    assert(sp_climb(
                                                        s,
                                                        i2,
                                                        r2v,
                                                        opp as int,
                                                        minp as int,
                                                        (f - 1) as nat,
                                                    ) == PRes::<ExprV>::Fail(pe@));
                                                }
                                                assert(climb_settles_from(s, i0, rv, opp as int, minp as int, PRes::Fail(pe@), f1 + f2 + 1));
                                            }
                                            Err(pe)
                                        },
                                        Ok(res) => {
                                            let ghost i3 = self.cur();
                                            let ghost resv = expr_view(res);
                                            proof {
                                                let f2 = choose|f0: nat|
                                                    climb_settles_from(
                                                        s,
                                                        i2,
                                                        r2v,
                                                        opp as int,
                                                        minp as int,
                                                        PRes::Done(resv, i3),
                                                        f0,
                                                    );
                                                assert forall|f: nat| f >= f1 + f2 + 1 implies sp_climb(
                                                    s,
                                                    i0,
                                                    rv,
                                                    opp as int,
                                                    minp as int,
                                                    f,
                                                ) == PRes::Done(resv, i3) by {
                                                    assert(sp_subexpr(
                                                        s,
                                                        st as int,
                                                        rv,
                                                        m1,
                                                        (f - 1) as nat,
                                                    ) == PRes::Done(r2v, i2));
                                                    assert(sp_climb(
                                                        s,
                                                        i2,
                                                        r2v,
                                                        opp as int,
                                                        minp as int,
                                                        (f - 1) as nat,
                                                    ) == PRes::Done(resv, i3));
                                                }
                                                assert(climb_settles_from(s, i0, rv, opp as int, minp as int, PRes::Done(resv, i3), f1 + f2 + 1));
                                            }
                                            Ok(res)
                                        },
                                    }
                                },
                            }
                        } else {
                            self.put_back(Token::Op(sym2), st, en);
                            proof {
                                assert(climb_settles_from(s, i0, rv, opp as int, minp as int, PRes::Done(rv, st as int), 1));
                            }
                            Ok(rhs)
                        }
                    },
                }
            },
            Some((t, st, en)) => {
                self.put_back(t, st, en);
                proof {
                    assert(climb_settles_from(s, i0, rv, opp as int, minp as int, PRes::Done(rv, st as int), 1));
                }
                Ok(rhs)
            },
        }
    }

    /// Zero or more call suffixes folded left-associatively into `Call`
    /// nodes.
    fn suffix(&mut self, base: Expr) -> (r: Result<Expr, ParseError>)
        requires
            old(self).wf(),
        ensures
            final(self).wf(),
            final(self).src() == old(self).src(),
            match r {
                Ok(e) => suffix_settles(
                    old(self).src(),
                    old(self).cur(),
                    expr_view(base),
                    PRes::Done(expr_view(e), final(self).cur()),
                ) && old(self).cur() <= final(self).cur() <= old(self).src().len(),
                Err(pe) => suffix_settles(
                    old(self).src(),
                    old(self).cur(),
                    expr_view(base),
                    PRes::Fail(pe@),
                ),
            },
        decreases old(self).src().len() - old(self).cur(), 0int, 0int,
    {
        let ghost s = self.src();
        let ghost i0 = self.cur();
        let ghost bv = expr_view(base);
        match self.advance() {
            None => {
                proof {
                    assert(suffix_settles_from(s, i0, bv, PRes::Done(bv, s.len() as int), 1));
                }
                Ok(base)
            },
            Some((Token::OpenParen, st, en)) => {
                match self.arglist(Vec::new()) {
                    Err(pe) => {
                        proof {
                            assert(exprs_view(Seq::<Expr>::empty()) == Seq::<ExprV>::empty());
                            let f1 = choose|f0: nat|
                                arglist_settles_from(
                                    s,
                                    en as int,
                                    Seq::empty(),
                                    PRes::Fail(pe@),
                                    f0,
                                );
                            assert forall|f: nat| f >= f1 + 1 implies sp_suffix(s, i0, bv, f)
                                == PRes::<ExprV>::Fail(pe@) by {
                                assert(sp_arglist(s, en as int, Seq::empty(), (f - 1) as nat)
                                    == PRes::<Seq<ExprV>>::Fail(pe@));
                            }
                            assert(suffix_settles_from(s, i0, bv, PRes::Fail(pe@), f1 + 1));
                        }
                        Err(pe)
                    },
                    Ok(out) => {
                        let ghost i2 = self.cur();
                        let ghost argsv = exprs_view(out@);
                        let ghost f1 = choose|f0: nat|
                            arglist_settles_from(
                                s,
                                en as int,
                                Seq::empty(),
                                PRes::Done(argsv, i2),
                                f0,
                            );
                        let call = Expr::Call(Box::new(base), out);
                        let ghost cv = expr_view(call);
                        match self.suffix(call) {
                            Err(pe) => {
                                proof {
                                    let f2 = choose|f0: nat|
                                        suffix_settles_from(s, i2, cv, PRes::Fail(pe@), f0);
                                    assert forall|f: nat| f >= f1 + f2 + 1 implies sp_suffix(
                                        s,
                                        i0,
                                        bv,
                                        f,
                                    ) == PRes::<ExprV>::Fail(pe@) by {
                                        assert(sp_arglist(
                                            s,
                                            en as int,
                                            Seq::empty(),
                                            (f - 1) as nat,
                                        ) == PRes::Done(argsv, i2));
                                        assert(sp_suffix(s, i2, cv, (f - 1) as nat) == PRes::<
                                            ExprV,
                                        >::Fail(pe@));
                                    }
                                    assert(suffix_settles_from(s, i0, bv, PRes::Fail(pe@), f1 + f2 + 1));
                                }
                                Err(pe)
                            },
                            Ok(res) => {
                                let ghost i3 = self.cur();
                                let ghost resv = expr_view(res);
                                proof {
                                    let f2 = choose|f0: nat|
                                        suffix_settles_from(s, i2, cv, PRes::Done(resv, i3), f0);
                                    assert forall|f: nat| f >= f1 + f2 + 1 implies sp_suffix(
                                        s,
                                        i0,
                                        bv,
                                        f,
                                    ) == PRes::Done(resv, i3) by {
                                        assert(sp_arglist(
                                            s,
                                            en as int,
                                            Seq::empty(),
                                            (f - 1) as nat,
                                        ) == PRes::Done(argsv, i2));
                                        assert(sp_suffix(s, i2, cv, (f - 1) as nat) == PRes::Done(
                                            resv,
                                            i3,
                                        ));
                                    }
                                    assert(suffix_settles_from(s, i0, bv, PRes::Done(resv, i3), f1 + f2 + 1));
                                }
                                Ok(res)
                            },
                        }
                    },
                }
            },
            Some((t, st, en)) => {
                self.put_back(t, st, en);
                proof {
                    assert(suffix_settles_from(s, i0, bv, PRes::Done(bv, st as int), 1));
                }
                Ok(base)
            },
        }
    }

    /// The top level from the current position: function and data
    /// declarations appended to `acc` until the end of the input.
    #[verifier::rlimit(100)]
    fn root_rest(&mut self, acc: Vec<Stat>) -> (r: Result<Vec<Stat>, ParseError>)
        requires
            old(self).wf(),
        ensures
            final(self).wf(),
            final(self).src() == old(self).src(),
            match r {
                Ok(out) => root_settles(
                    old(self).src(),
                    old(self).cur(),
                    stats_view(acc@),
                    PRes::Done(stats_view(out@), old(self).src().len() as int),
                ),
                Err(pe) => root_settles(
                    old(self).src(),
                    old(self).cur(),
                    stats_view(acc@),
                    PRes::Fail(pe@),
                ),
            },
        decreases old(self).src().len() - old(self).cur(), 5int, 0int,
    {
        let ghost s = self.src();
        let ghost i0 = self.cur();
        let ghost accv = stats_view(acc@);
        let mut acc = acc;
        match self.advance() {
            None => {
                proof {
                    assert(root_settles_from(s, i0, accv, PRes::Done(accv, s.len() as int), 1));
                }
                Ok(acc)
            },
            Some((Token::Semicolon, st, en)) => {
                match self.root_rest(acc) {
                    Err(pe) => {
                        proof {
                            let f1 = choose|f0: nat|
                                root_settles_from(s, en as int, accv, PRes::Fail(pe@), f0);
                            assert forall|f: nat| f >= f1 + 1 implies sp_root(s, i0, accv, f)
                                == PRes::<Seq<StatV>>::Fail(pe@) by {
                                assert(sp_root(s, en as int, accv, (f - 1) as nat) == PRes::<
                                    Seq<StatV>,
                                >::Fail(pe@));
                            }
                            assert(root_settles_from(s, i0, accv, PRes::Fail(pe@), f1 + 1));
                        }
                        Err(pe)
                    },
                    Ok(out) => {
                        let ghost outv = stats_view(out@);
                        proof {
                            let f1 = choose|f0: nat|
                                root_settles_from(
                                    s,
                                    en as int,
                                    accv,
                                    PRes::Done(outv, s.len() as int),
                                    f0,
                                );
                            assert forall|f: nat| f >= f1 + 1 implies sp_root(s, i0, accv, f)
                                == PRes::Done(outv, s.len() as int) by {
                                assert(sp_root(s, en as int, accv, (f - 1) as nat) == PRes::Done(
                                    outv,
                                    s.len() as int,
                                ));
                            }
                            assert(root_settles_from(s, i0, accv, PRes::Done(outv, s.len() as int), f1 + 1));
                        }
                        Ok(out)
                    },
                }
            },
            Some((Token::Fn, st, en)) => {
                match self.advance() {
                    Some((Token::Ident(name), st2, en2)) => {
                        let ghost nv = name@;
                        match self.advance() {
                            Some((Token::OpenParen, st3, en3)) => {
                                match self.advance() {
                                    Some((Token::CloseParen, st4, en4)) => {
                                        match self.expr() {
                                            Err(pe) => {
                                                proof {
                                                    let f1 = choose|f0: nat|
                                                        expr_settles_from(
                                                            s,
                                                            en4 as int,
                                                            PRes::Fail(pe@),
                                                            f0,
                                                        );
                                                    assert forall|f: nat| f >= f1 + 1 implies sp_root(
                                                        s,
                                                        i0,
                                                        accv,
                                                        f,
                                                    ) == PRes::<Seq<StatV>>::Fail(pe@) by {
                                                        assert(sp_expr(s, en4 as int, (f - 1) as nat)
                                                            == PRes::<ExprV>::Fail(pe@));
                                                    }
                                                    assert(root_settles_from(s, i0, accv, PRes::Fail(pe@), f1 + 1));
                                                }
                                                Err(pe)
                                            },
                                            Ok(body) => {
                                                let ghost i2 = self.cur();
                                                let ghost bv = expr_view(body);
                                                let ghost f1 = choose|f0: nat|
                                                    expr_settles_from(
                                                        s,
                                                        en4 as int,
                                                        PRes::Done(bv, i2),
                                                        f0,
                                                    );
                                                let st_new = Stat::Fn(name, Vec::new(), body);
                                                proof {
                                                    lemma_stats_view_push(acc@, st_new);
                                                    assert(exprs_view(Seq::<Expr>::empty())
                                                        == Seq::<ExprV>::empty());
                                                }
                                                acc.push(st_new);
                                                let ghost accv2 = stats_view(acc@);
                                                match self.root_rest(acc) {
                                                    Err(pe) => {
                                                        proof {
                                                            let f2 = choose|f0: nat|
                                                                root_settles_from(
                                                                    s,
                                                                    i2,
                                                                    accv2,
                                                                    PRes::Fail(pe@),
                                                                    f0,
                                                                );
                                                            assert forall|f: nat|
                                                                f >= f1 + f2 + 1 implies sp_root(
                                                                s,
                                                                i0,
                                                                accv,
                                                                f,
                                                            ) == PRes::<Seq<StatV>>::Fail(pe@) by {
                                                                assert(sp_expr(
                                                                    s,
                                                                    en4 as int,
                                                                    (f - 1) as nat,
                                                                ) == PRes::Done(bv, i2));
                                                                assert(sp_root(
                                                                    s,
                                                                    i2,
                                                                    accv2,
                                                                    (f - 1) as nat,
                                                                ) == PRes::<Seq<StatV>>::Fail(pe@));
                                                            }
                                                            assert(root_settles_from(s, i0, accv, PRes::Fail(pe@), f1 + f2 + 1));
                                                        }
                                                        Err(pe)
                                                    },
                                                    Ok(out) => {
                                                        let ghost outv = stats_view(out@);
                                                        proof {
                                                            let f2 = choose|f0: nat|
                                                                root_settles_from(
                                                                    s,
                                                                    i2,
                                                                    accv2,
                                                                    PRes::Done(outv, s.len() as int),
                                                                    f0,
                                                                );
                                                            assert forall|f: nat|
                                                                f >= f1 + f2 + 1 implies sp_root(
                                                                s,
                                                                i0,
                                                                accv,
                                                                f,
                                                            ) == PRes::Done(outv, s.len() as int) by {
                                                                assert(sp_expr(
                                                                    s,
                                                                    en4 as int,
                                                                    (f - 1) as nat,
                                                                ) == PRes::Done(bv, i2));
                                                                assert(sp_root(
                                                                    s,
                                                                    i2,
                                                                    accv2,
                                                                    (f - 1) as nat,
                                                                ) == PRes::Done(outv, s.len() as int));
                                                            }
                                                            assert(root_settles_from(s, i0, accv, PRes::Done(outv, s.len() as int), f1 + f2 + 1));
                                                        }
                                                        Ok(out)
                                                    },
                                                }
                                            },
                                        }
                                    },
                                    Some((t4, st4, en4)) => {
                                        let pe = self.error_expected(st4, "')'", tok_desc_x(&t4));
                                        proof {
                                            assert(root_settles_from(s, i0, accv, PRes::Fail(pe@), 1));
                                        }
                                        Err(pe)
                                    },
                                    None => {
                                        let pe = self.error_eof("')'");
                                        proof {
                                            assert(root_settles_from(s, i0, accv, PRes::Fail(pe@), 1));
                                        }
                                        Err(pe)
                                    },
                                }
                            },
                            Some((t3, st3, en3)) => {
                                let pe = self.error_expected(st3, "'('", tok_desc_x(&t3));
                                proof {
                                    assert(root_settles_from(s, i0, accv, PRes::Fail(pe@), 1));
                                }
                                Err(pe)
                            },
                            None => {
                                let pe = self.error_eof("'('");
                                proof {
                                    assert(root_settles_from(s, i0, accv, PRes::Fail(pe@), 1));
                                }
                                Err(pe)
                            },
                        }
                    },
                    Some((t2, st2, en2)) => {
                        let pe = self.error_expected(st2, "function name", tok_desc_x(&t2));
                        proof {
                            assert(root_settles_from(s, i0, accv, PRes::Fail(pe@), 1));
                        }
                        Err(pe)
                    },
                    None => {
                        let pe = self.error_eof("function name");
                        proof {
                            assert(root_settles_from(s, i0, accv, PRes::Fail(pe@), 1));
                        }
                        Err(pe)
                    },
                }
            },
            Some((Token::Data, st, en)) => {
                match self.advance() {
                    Some((Token::OpenBracket, st2, en2)) => {
                        match self.advance() {
                            Some((Token::Integer(v), st3, en3)) => {
                                if v < 0 {
                                    let pe = self.error_msg(st3, "`data` position may not be negative");
                                    proof {
                                        assert(root_settles_from(s, i0, accv, PRes::Fail(pe@), 1));
                                    }
                                    Err(pe)
                                } else {
                                    match self.advance() {
                                        Some((Token::CloseBracket, st4, en4)) => {
                                            match self.advance() {
                                                Some((Token::Equals, st5, en5)) => {
                                                    match self.advance() {
                                                        Some((Token::Str(d), st6, en6)) => {
                                                            let st_new = Stat::Data(v as u64, d);
                                                            proof {
                                                                lemma_stats_view_push(acc@, st_new);
                                                            }
                                                            acc.push(st_new);
                                                            let ghost accv2 = stats_view(acc@);
                                                            match self.root_rest(acc) {
                                                                Err(pe) => {
                                                                    proof {
                                                                        let f1 = choose|f0: nat|
                                                                            root_settles_from(
                                                                                s,
                                                                                en6 as int,
                                                                                accv2,
                                                                                PRes::Fail(pe@),
                                                                                f0,
                                                                            );
                                                                        assert forall|f: nat|
                                                                            f >= f1 + 1 implies sp_root(
                                                                            s,
                                                                            i0,
                                                                            accv,
                                                                            f,
                                                                        ) == PRes::<Seq<StatV>>::Fail(
                                                                            pe@,
                                                                        ) by {
                                                                            assert(sp_root(
                                                                                s,
                                                                                en6 as int,
                                                                                accv2,
                                                                                (f - 1) as nat,
                                                                            ) == PRes::<
                                                                                Seq<StatV>,
                                                                            >::Fail(pe@));
                                                                        }
                                                                        assert(root_settles_from(s, i0, accv, PRes::Fail(pe@), f1 + 1));
                                                                    }
                                                                    Err(pe)
                                                                },
                                                                Ok(out) => {
                                                                    let ghost outv = stats_view(
                                                                        out@,
                                                                    );
                                                                    proof {
                                                                        let f1 = choose|f0: nat|
                                                                            root_settles_from(
                                                                                s,
                                                                                en6 as int,
                                                                                accv2,
                                                                                PRes::Done(outv, s.len() as int),
                                                                                f0,
                                                                            );
                                                                        assert forall|f: nat|
                                                                            f >= f1 + 1 implies sp_root(
                                                                            s,
                                                                            i0,
                                                                            accv,
                                                                            f,
                                                                        ) == PRes::Done(outv, s.len() as int) by {
                                                                            assert(sp_root(
                                                                                s,
                                                                                en6 as int,
                                                                                accv2,
                                                                                (f - 1) as nat,
                                                                            ) == PRes::Done(
                                                                                outv,
                                                                                s.len() as int,
                                                                            ));
                                                                        }
                                                                        assert(root_settles_from(s, i0, accv, PRes::Done(outv, s.len() as int), f1 + 1));
                                                                    }
                                                                    Ok(out)
                                                                },
                                                            }
                                                        },
                                                        Some((t6, st6, en6)) => {
                                                            let pe = self.error_expected(
                                                                st6,
                                                                "string literal",
                                                                tok_desc_x(&t6),
                                                            );
                                                            proof {
                                                                assert(root_settles_from(s, i0, accv, PRes::Fail(pe@), 1));
                                                            }
                                                            Err(pe)
                                                        },
                                                        None => {
                                                            let pe = self.error_eof("string literal");
                                                            proof {
                                                                assert(root_settles_from(s, i0, accv, PRes::Fail(pe@), 1));
                                                            }
                                                            Err(pe)
                                                        },
                                                    }
                                                },
                                                Some((t5, st5, en5)) => {
                                                    let pe = self.error_expected(st5, "'='", tok_desc_x(&t5));
                                                    proof {
                                                        assert(root_settles_from(s, i0, accv, PRes::Fail(pe@), 1));
                                                    }
                                                    Err(pe)
                                                },
                                                None => {
                                                    let pe = self.error_eof("'='");
                                                    proof {
                                                        assert(root_settles_from(s, i0, accv, PRes::Fail(pe@), 1));
                                                    }
                                                    Err(pe)
                                                },
                                            }
                                        },
                                        Some((t4, st4, en4)) => {
                                            let pe = self.error_expected(st4, "']'", tok_desc_x(&t4));
                                            proof {
                                                assert(root_settles_from(s, i0, accv, PRes::Fail(pe@), 1));
                                            }
                                            Err(pe)
                                        },
                                        None => {
                                            let pe = self.error_eof("']'");
                                            proof {
                                                assert(root_settles_from(s, i0, accv, PRes::Fail(pe@), 1));
                                            }
                                            Err(pe)
                                        },
                                    }
                                }
                            },
                            Some((t3, st3, en3)) => {
                                let pe = self.error_msg(st3, "expected integer, e.g. data[<int>]");
                                proof {
                                    assert(root_settles_from(s, i0, accv, PRes::Fail(pe@), 1));
                                }
                                Err(pe)
                            },
                            None => {
                                let n = self.lexer.src.len();
                                let pe = self.error_msg(n, "expected integer, e.g. data[<int>]");
                                proof {
                                    assert(root_settles_from(s, i0, accv, PRes::Fail(pe@), 1));
                                }
                                Err(pe)
                            },
                        }
                    },
                    Some((t2, st2, en2)) => {
                        let pe = self.error_expected(st2, "'['", tok_desc_x(&t2));
                        proof {
                            assert(root_settles_from(s, i0, accv, PRes::Fail(pe@), 1));
                        }
                        Err(pe)
                    },
                    None => {
                        let pe = self.error_eof("'['");
                        proof {
                            assert(root_settles_from(s, i0, accv, PRes::Fail(pe@), 1));
                        }
                        Err(pe)
                    },
                }
            },
            Some((t, st, en)) => {
                let pe = self.error_expected(st, "data, fn or ';'", tok_desc_x(&t));
                proof {
                    assert(root_settles_from(s, i0, accv, PRes::Fail(pe@), 1));
                }
                Err(pe)
            },
        }
    }

    /// Parses the whole remaining input into the ordered sequence of
    /// top-level statements: exactly what the mathematical parser settles on
    /// for this source.
    pub fn parse(&mut self) -> (r: Result<Root, ParseError>)
        requires
            old(self).wf(),
        ensures
            final(self).wf(),
            final(self).src() == old(self).src(),
            match r {
                Ok(root) => root_settles(
                    old(self).src(),
                    old(self).cur(),
                    Seq::empty(),
                    PRes::Done(stats_view(root@), old(self).src().len() as int),
                ),
                Err(pe) => root_settles(
                    old(self).src(),
                    old(self).cur(),
                    Seq::empty(),
                    PRes::Fail(pe@),
                ),
            },
    {
        proof {
            assert(stats_view(Seq::<Stat>::empty()) == Seq::<StatV>::empty());
        }
        self.root_rest(Vec::new())
    }

    /// The arguments of a call, after the opening parenthesis.
    fn arglist(&mut self, args: Vec<Expr>) -> (r: Result<Vec<Expr>, ParseError>)
        requires
            old(self).wf(),
        ensures
            final(self).wf(),
            final(self).src() == old(self).src(),
            match r {
                Ok(out) => arglist_settles(
                    old(self).src(),
                    old(self).cur(),
                    exprs_view(args@),
                    PRes::Done(exprs_view(out@), final(self).cur()),
                ) && old(self).cur() < final(self).cur() <= old(self).src().len(),
                Err(pe) => arglist_settles(
                    old(self).src(),
                    old(self).cur(),
                    exprs_view(args@),
                    PRes::Fail(pe@),
                ),
            },
        decreases old(self).src().len() - old(self).cur(), 4int, 0int,
    {
        let ghost s = self.src();
        let ghost i0 = self.cur();
        let ghost accv = exprs_view(args@);
        let mut args = args;
        match self.advance() {
            None => {
                let n = self.lexer.src.len();
                let pe = self.error_msg(n, "incomplete argument list, closing parenthesis not found");
                proof {
                    assert(arglist_settles_from(s, i0, accv, PRes::Fail(pe@), 1));
                }
                Err(pe)
            },
            Some((Token::CloseParen, st, en)) => {
                proof {
                    assert(arglist_settles_from(s, i0, accv, PRes::Done(accv, en as int), 1));
                }
                Ok(args)
            },
            Some((t0, st0, en0)) => {
                self.put_back(t0, st0, en0);
                match self.expr() {
                    Err(pe) => {
                        proof {
                            let f1 = choose|f0: nat|
                                expr_settles_from(s, st0 as int, PRes::Fail(pe@), f0);
                            assert forall|f: nat| f >= f1 + 1 implies sp_arglist(s, i0, accv, f)
                                == PRes::<Seq<ExprV>>::Fail(pe@) by {
                                assert(sp_expr(s, st0 as int, (f - 1) as nat) == PRes::<
                                    ExprV,
                                >::Fail(pe@));
                            }
                            assert(arglist_settles_from(s, i0, accv, PRes::Fail(pe@), f1 + 1));
                        }
                        Err(pe)
                    },
                    Ok(e) => {
                        let ghost i2 = self.cur();
                        let ghost ev = expr_view(e);
                        let ghost f1 = choose|f0: nat|
                            expr_settles_from(s, st0 as int, PRes::Done(ev, i2), f0);
                        match self.advance() {
                            Some((Token::CloseParen, st2, en2)) => {
                                proof {
                                    lemma_exprs_view_push(args@, e);
                                }
                                args.push(e);
                                proof {
                                    assert forall|f: nat| f >= f1 + 1 implies sp_arglist(
                                        s,
                                        i0,
                                        accv,
                                        f,
                                    ) == PRes::Done(exprs_view(args@), en2 as int) by {
                                        assert(sp_expr(s, st0 as int, (f - 1) as nat)
                                            == PRes::Done(ev, i2));
                                    }
                                    assert(arglist_settles_from(s, i0, accv, PRes::Done(exprs_view(args@), en2 as int), f1 + 1));
                                }
                                Ok(args)
                            },
                            Some((Token::Comma, st2, en2)) => {
                                proof {
                                    lemma_exprs_view_push(args@, e);
                                }
                                args.push(e);
                                let ghost accv2 = exprs_view(args@);
                                match self.arglist(args) {
                                    Err(pe) => {
                                        proof {
                                            let f2 = choose|f0: nat|
                                                arglist_settles_from(
                                                    s,
                                                    en2 as int,
                                                    accv2,
                                                    PRes::Fail(pe@),
                                                    f0,
                                                );
                                            assert forall|f: nat| f >= f1 + f2 + 1 implies sp_arglist(
                                                s,
                                                i0,
                                                accv,
                                                f,
                                            ) == PRes::<Seq<ExprV>>::Fail(pe@) by {
                                                assert(sp_expr(s, st0 as int, (f - 1) as nat)
                                                    == PRes::Done(ev, i2));
                                                assert(sp_arglist(
                                                    s,
                                                    en2 as int,
                                                    accv2,
                                                    (f - 1) as nat,
                                                ) == PRes::<Seq<ExprV>>::Fail(pe@));
                                            }
                                            assert(arglist_settles_from(s, i0, accv, PRes::Fail(pe@), f1 + f2 + 1));
                                        }
                                        Err(pe)
                                    },
                                    Ok(out) => {
                                        let ghost i3 = self.cur();
                                        let ghost outv = exprs_view(out@);
                                        proof {
                                            let f2 = choose|f0: nat|
                                                arglist_settles_from(
                                                    s,
                                                    en2 as int,
                                                    accv2,
                                                    PRes::Done(outv, i3),
                                                    f0,
                                                );
                                            assert forall|f: nat| f >= f1 + f2 + 1 implies sp_arglist(
                                                s,
                                                i0,
                                                accv,
                                                f,
                                            ) == PRes::Done(outv, i3) by {
                                                assert(sp_expr(s, st0 as int, (f - 1) as nat)
                                                    == PRes::Done(ev, i2));
                                                assert(sp_arglist(
                                                    s,
                                                    en2 as int,
                                                    accv2,
                                                    (f - 1) as nat,
                                                ) == PRes::Done(outv, i3));
                                            }
                                            assert(arglist_settles_from(s, i0, accv, PRes::Done(outv, i3), f1 + f2 + 1));
                                        }
                                        Ok(out)
                                    },
                                }
                            },
                            Some((t2, st2, en2)) => {
                                let pe = self.error_expected(st2, "')' or ','", tok_desc_x(&t2));
                                proof {
                                    assert forall|f: nat| f >= f1 + 1 implies sp_arglist(
                                        s,
                                        i0,
                                        accv,
                                        f,
                                    ) == PRes::<Seq<ExprV>>::Fail(pe@) by {
                                        assert(sp_expr(s, st0 as int, (f - 1) as nat)
                                            == PRes::Done(ev, i2));
                                    }
                                    assert(arglist_settles_from(s, i0, accv, PRes::Fail(pe@), f1 + 1));
                                }
                                Err(pe)
                            },
                            None => {
                                let pe = self.error_eof("')' or ','");
                                proof {
                                    assert forall|f: nat| f >= f1 + 1 implies sp_arglist(
                                        s,
                                        i0,
                                        accv,
                                        f,
                                    ) == PRes::<Seq<ExprV>>::Fail(pe@) by {
                                        assert(sp_expr(s, st0 as int, (f - 1) as nat)
                                            == PRes::Done(ev, i2));
                                    }
                                    assert(arglist_settles_from(s, i0, accv, PRes::Fail(pe@), f1 + 1));
                                }
                                Err(pe)
                            },
                        }
                    },
                }
            },
        }
    }
}

/// Number of top-level declaration tokens (`fn` or `data`) in the token
/// stream from position `i` on. In this grammar those keywords open
/// declarations and appear nowhere else, so for an accepted source this is
/// the number of top-level declarations.
pub open spec fn decl_count(s: Seq<char>, i: int) -> int
    decreases s.len() - i
        when 0 <= i <= s.len()
        via decl_count_decreases
{
    match spec_next(s, i) {
        None => 0,
        Some((t, st, en)) => (match t {
            TokenV::Fn => 1int,
            TokenV::Data => 1int,
            _ => 0int,
        }) + decl_count(s, en),
    }
}

#[via_fn]
proof fn decl_count_decreases(s: Seq<char>, i: int) {
    lemma_spec_next_bounds(s, i);
}

proof fn lemma_prefix_decls(s: Seq<char>, i: int, f: nat)
    requires
        0 <= i <= s.len(),
    ensures
        sp_prefix(s, i, f) matches PRes::Done(e, i2) ==> i <= i2 <= s.len() && decl_count(s, i)
            == decl_count(s, i2),
    decreases f, 0nat,
{
    lemma_spec_next_bounds(s, i);
    if f > 0 {
        match spec_next(s, i) {
            Some((t, st, en)) => {
                match t {
                    TokenV::OpenParen => {
                        lemma_expr_decls(s, en, (f - 1) as nat);
                        match sp_expr(s, en, (f - 1) as nat) {
                            PRes::Done(e, i2) => {
                                lemma_spec_next_bounds(s, i2);
                            },
                            _ => {},
                        }
                    },
                    _ => {},
                }
            },
            None => {},
        }
    }
}

proof fn lemma_expr_decls(s: Seq<char>, i: int, f: nat)
    requires
        0 <= i <= s.len(),
    ensures
        sp_expr(s, i, f) matches PRes::Done(e, i2) ==> i <= i2 <= s.len() && decl_count(s, i)
            == decl_count(s, i2),
    decreases f, 1nat,
{
    if f > 0 {
        lemma_primary_decls(s, i, (f - 1) as nat);
        match sp_primary(s, i, (f - 1) as nat) {
            PRes::Done(lhs, i2) => {
                lemma_subexpr_decls(s, i2, lhs, 0, (f - 1) as nat);
            },
            _ => {},
        }
    }
}

proof fn lemma_primary_decls(s: Seq<char>, i: int, f: nat)
    requires
        0 <= i <= s.len(),
    ensures
        sp_primary(s, i, f) matches PRes::Done(e, i2) ==> i <= i2 <= s.len() && decl_count(s, i)
            == decl_count(s, i2),
    decreases f, 2nat,
{
    lemma_spec_next_bounds(s, i);
    lemma_spec_next_at_start(s, i);
    if f > 0 {
        match spec_next(s, i) {
            Some((t, st, en)) => {
                match t {
                    TokenV::Ident(n) => {
                        lemma_spec_next_bounds(s, en);
                        lemma_spec_next_at_start(s, en);
                        assert(decl_count(s, i) == decl_count(s, en));
                        match spec_next(s, en) {
                            Some((TokenV::Equals, st2, en2)) => {
                                assert(decl_count(s, en) == decl_count(s, en2));
                                lemma_expr_decls(s, en2, (f - 1) as nat);
                                match sp_expr(s, en2, (f - 1) as nat) {
                                    PRes::Done(e, i2) => {
                                        lemma_suffix_decls(
                                            s,
                                            i2,
                                            ExprV::Assignment(n, Box::new(e)),
                                            (f - 1) as nat,
                                        );
                                    },
                                    _ => {},
                                }
                            },
                            Some((t2, st2, en2)) => {
                                assert(decl_count(s, en) == decl_count(s, st2));
                                lemma_suffix_decls(s, st2, ExprV::Ident(n), (f - 1) as nat);
                            },
                            None => {
                                lemma_suffix_decls(
                                    s,
                                    s.len() as int,
                                    ExprV::Ident(n),
                                    (f - 1) as nat,
                                );
                            },
                        }
                    },
                    TokenV::Return => {
                        assert(decl_count(s, i) == decl_count(s, en));
                        lemma_expr_decls(s, en, (f - 1) as nat);
                        match sp_expr(s, en, (f - 1) as nat) {
                            PRes::Done(e, i2) => {
                                lemma_suffix_decls(
                                    s,
                                    i2,
                                    ExprV::Return(Box::new(e)),
                                    (f - 1) as nat,
                                );
                            },
                            _ => {},
                        }
                    },
                    TokenV::OpenBrace => {
                        assert(decl_count(s, i) == decl_count(s, en));
                        lemma_block_decls(s, en, Seq::empty(), (f - 1) as nat);
                        match sp_block(s, en, Seq::empty(), (f - 1) as nat) {
                            PRes::Done(es, i2) => {
                                lemma_suffix_decls(s, i2, ExprV::Block(es), (f - 1) as nat);
                            },
                            _ => {},
                        }
                    },
                    _ => {
                        assert(decl_count(s, i) == decl_count(s, st));
                        lemma_prefix_decls(s, st, (f - 1) as nat);
                        match sp_prefix(s, st, (f - 1) as nat) {
                            PRes::Done(e, i2) => {
                                lemma_suffix_decls(s, i2, e, (f - 1) as nat);
                            },
                            _ => {},
                        }
                    },
                }
            },
            None => {},
        }
    }
}

proof fn lemma_suffix_decls(s: Seq<char>, i: int, base: ExprV, f: nat)
    requires
        0 <= i <= s.len(),
    ensures
        sp_suffix(s, i, base, f) matches PRes::Done(e, i2) ==> i <= i2 <= s.len() && decl_count(
            s,
            i,
        ) == decl_count(s, i2),
    decreases f, 3nat,
{
    lemma_spec_next_bounds(s, i);
    lemma_spec_next_at_start(s, i);
    if f > 0 {
        match spec_next(s, i) {
            Some((TokenV::OpenParen, st, en)) => {
                lemma_arglist_decls(s, en, Seq::empty(), (f - 1) as nat);
                match sp_arglist(s, en, Seq::empty(), (f - 1) as nat) {
                    PRes::Done(args, i2) => {
                        lemma_suffix_decls(
                            s,
                            i2,
                            ExprV::Call(Box::new(base), args),
                            (f - 1) as nat,
                        );
                    },
                    _ => {},
                }
            },
            _ => {},
        }
    }
}

proof fn lemma_arglist_decls(s: Seq<char>, i: int, acc: Seq<ExprV>, f: nat)
    requires
        0 <= i <= s.len(),
    ensures
        sp_arglist(s, i, acc, f) matches PRes::Done(args, i2) ==> i <= i2 <= s.len()
            && decl_count(s, i) == decl_count(s, i2),
    decreases f, 4nat,
{
    lemma_spec_next_bounds(s, i);
    lemma_spec_next_at_start(s, i);
    if f > 0 {
        match spec_next(s, i) {
            Some((TokenV::CloseParen, st, en)) => {},
            Some((t0, st0, en0)) => {
                lemma_expr_decls(s, st0, (f - 1) as nat);
                match sp_expr(s, st0, (f - 1) as nat) {
                    PRes::Done(e, i2) => {
                        lemma_spec_next_bounds(s, i2);
                        match spec_next(s, i2) {
                            Some((TokenV::Comma, st2, en2)) => {
                                lemma_arglist_decls(s, en2, acc.push(e), (f - 1) as nat);
                            },
                            _ => {},
                        }
                    },
                    _ => {},
                }
            },
            None => {},
        }
    }
}

proof fn lemma_subexpr_decls(s: Seq<char>, i: int, lhs: ExprV, minp: int, f: nat)
    requires
        0 <= i <= s.len(),
    ensures
        sp_subexpr(s, i, lhs, minp, f) matches PRes::Done(e, i2) ==> i <= i2 <= s.len()
            && decl_count(s, i) == decl_count(s, i2),
    decreases f, 5nat,
{
    lemma_spec_next_bounds(s, i);
    lemma_spec_next_at_start(s, i);
    if f > 0 {
        match spec_next(s, i) {
            Some((TokenV::Op(sym), st, en)) => {
                match spec_precedence(sym) {
                    Some(p) => {
                        if p as int >= minp {
                            lemma_primary_decls(s, en, (f - 1) as nat);
                            match sp_primary(s, en, (f - 1) as nat) {
                                PRes::Done(rhs, i2) => {
                                    lemma_climb_decls(s, i2, rhs, p as int, minp, (f - 1) as nat);
                                    match sp_climb(s, i2, rhs, p as int, minp, (f - 1) as nat) {
                                        PRes::Done(rhs2, i3) => {
                                            lemma_subexpr_decls(
                                                s,
                                                i3,
                                                ExprV::BinOp(
                                                    Box::new(lhs),
                                                    sym,
                                                    Box::new(rhs2),
                                                ),
                                                minp,
                                                (f - 1) as nat,
                                            );
                                        },
                                        _ => {},
                                    }
                                },
                                _ => {},
                            }
                        }
                    },
                    None => {},
                }
            },
            _ => {},
        }
    }
}

proof fn lemma_climb_decls(s: Seq<char>, i: int, rhs: ExprV, opp: int, minp: int, f: nat)
    requires
        0 <= i <= s.len(),
    ensures
        sp_climb(s, i, rhs, opp, minp, f) matches PRes::Done(e, i2) ==> i <= i2 <= s.len()
            && decl_count(s, i) == decl_count(s, i2),
    decreases f, 6nat,
{
    lemma_spec_next_bounds(s, i);
    lemma_spec_next_at_start(s, i);
    if f > 0 {
        match spec_next(s, i) {
            Some((TokenV::Op(sym2), st, en)) => {
                match spec_precedence(sym2) {
                    Some(p2) => {
                        if p2 as int > opp {
                            lemma_subexpr_decls(s, st, rhs, minp + 1, (f - 1) as nat);
                            match sp_subexpr(s, st, rhs, minp + 1, (f - 1) as nat) {
                                PRes::Done(r2, i2) => {
                                    lemma_climb_decls(s, i2, r2, opp, minp, (f - 1) as nat);
                                },
                                _ => {},
                            }
                        }
                    },
                    None => {},
                }
            },
            _ => {},
        }
    }
}

proof fn lemma_block_decls(s: Seq<char>, i: int, acc: Seq<ExprV>, f: nat)
    requires
        0 <= i <= s.len(),
    ensures
        sp_block(s, i, acc, f) matches PRes::Done(es, i2) ==> i <= i2 <= s.len() && decl_count(
            s,
            i,
        ) == decl_count(s, i2),
    decreases f, 7nat,
{
    lemma_spec_next_bounds(s, i);
    lemma_spec_next_at_start(s, i);
    if f > 0 {
        match spec_next(s, i) {
            Some((TokenV::CloseBrace, st, en)) if acc.len() == 0 => {},
            Some((t0, st0, en0)) => {
                lemma_expr_decls(s, st0, (f - 1) as nat);
                match sp_expr(s, st0, (f - 1) as nat) {
                    PRes::Done(e, i2) => {
                        lemma_spec_next_bounds(s, i2);
                        match spec_next(s, i2) {
                            Some((TokenV::Semicolon, st2, en2)) => {
                                lemma_block_decls(s, en2, acc.push(e), (f - 1) as nat);
                            },
                            _ => {},
                        }
                    },
                    _ => {},
                }
            },
            None => {},
        }
    }
}

/// For every budget: when the top level accepts, the statements are the
/// accumulator extended by one statement per declaration token read.
proof fn lemma_root_decls(s: Seq<char>, i: int, acc: Seq<StatV>, f: nat)
    requires
        0 <= i <= s.len(),
    ensures
        sp_root(s, i, acc, f) matches PRes::Done(sts, j) ==> sts.len() == acc.len() + decl_count(
            s,
            i,
        ),
    decreases f, 8nat,
{
    lemma_spec_next_bounds(s, i);
    if f > 0 {
        match spec_next(s, i) {
            None => {},
            Some((t, st, en)) => {
                match t {
                    TokenV::Fn => {
                        lemma_spec_next_bounds(s, en);
                        assert(decl_count(s, i) == 1 + decl_count(s, en));
                        match spec_next(s, en) {
                            Some((TokenV::Ident(n), st2, en2)) => {
                                lemma_spec_next_bounds(s, en2);
                                assert(decl_count(s, en) == decl_count(s, en2));
                                match spec_next(s, en2) {
                                    Some((TokenV::OpenParen, st3, en3)) => {
                                        lemma_spec_next_bounds(s, en3);
                                        assert(decl_count(s, en2) == decl_count(s, en3));
                                        match spec_next(s, en3) {
                                            Some((TokenV::CloseParen, st4, en4)) => {
                                                assert(decl_count(s, en3) == decl_count(s, en4));
                                                lemma_expr_decls(s, en4, (f - 1) as nat);
                                                match sp_expr(s, en4, (f - 1) as nat) {
                                                    PRes::Done(body, i2) => {
                                                        lemma_root_decls(
                                                            s,
                                                            i2,
                                                            acc.push(
                                                                StatV::Fn(n, Seq::empty(), body),
                                                            ),
                                                            (f - 1) as nat,
                                                        );
                                                    },
                                                    _ => {},
                                                }
                                            },
                                            _ => {},
                                        }
                                    },
                                    _ => {},
                                }
                            },
                            _ => {},
                        }
                    },
                    TokenV::Data => {
                        lemma_spec_next_bounds(s, en);
                        assert(decl_count(s, i) == 1 + decl_count(s, en));
                        match spec_next(s, en) {
                            Some((TokenV::OpenBracket, st2, en2)) => {
                                lemma_spec_next_bounds(s, en2);
                                assert(decl_count(s, en) == decl_count(s, en2));
                                match spec_next(s, en2) {
                                    Some((TokenV::Integer(v), st3, en3)) => {
                                        if v >= 0 {
                                            lemma_spec_next_bounds(s, en3);
                                            assert(decl_count(s, en2) == decl_count(s, en3));
                                            match spec_next(s, en3) {
                                                Some((TokenV::CloseBracket, st4, en4)) => {
                                                    lemma_spec_next_bounds(s, en4);
                                                    assert(decl_count(s, en3) == decl_count(s, en4));
                                                    match spec_next(s, en4) {
                                                        Some((TokenV::Equals, st5, en5)) => {
                                                            lemma_spec_next_bounds(s, en5);
                                                            assert(decl_count(s, en4) == decl_count(s, en5));
                                                            match spec_next(s, en5) {
                                                                Some(
                                                                    (TokenV::Str(d), st6, en6),
                                                                ) => {
                                                                    assert(decl_count(s, en5)
                                                                        == decl_count(s, en6));
                                                                    lemma_root_decls(
                                                                        s,
                                                                        en6,
                                                                        acc.push(
                                                                            StatV::Data(
                                                                                v as u64,
                                                                                d,
                                                                            ),
                                                                        ),
                                                                        (f - 1) as nat,
                                                                    );
                                                                },
                                                                _ => {},
                                                            }
                                                        },
                                                        _ => {},
                                                    }
                                                },
                                                _ => {},
                                            }
                                        }
                                    },
                                    _ => {},
                                }
                            },
                            _ => {},
                        }
                    },
                    TokenV::Semicolon => {
                        assert(decl_count(s, i) == decl_count(s, en));
                        lemma_root_decls(s, en, acc, (f - 1) as nat);
                    },
                    _ => {},
                }
            },
        }
    }
}

/// Every operator in the expression belongs to the fixed operator set: its
/// binding strength is defined.
pub open spec fn expr_ops_known(e: ExprV) -> bool
    decreases e,
{
    match e {
        ExprV::Paren(b) => expr_ops_known(*b),
        ExprV::Block(es) => exprs_ops_known(es),
        ExprV::Assignment(n, b) => expr_ops_known(*b),
        ExprV::BinOp(a, op, b) => spec_precedence(op) is Some && expr_ops_known(*a)
            && expr_ops_known(*b),
        ExprV::Call(f, es) => expr_ops_known(*f) && exprs_ops_known(es),
        ExprV::Ident(n) => true,
        ExprV::Integer(v) => true,
        ExprV::Float(t) => true,
        ExprV::Return(b) => expr_ops_known(*b),
    }
}

/// [`expr_ops_known`], over every expression of a sequence.
pub open spec fn exprs_ops_known(es: Seq<ExprV>) -> bool
    decreases es,
{
    es.len() == 0 || (exprs_ops_known(es.drop_last()) && expr_ops_known(es.last()))
}

/// [`expr_ops_known`], over every expression of a statement.
pub open spec fn stat_ops_known(t: StatV) -> bool {
    match t {
        StatV::Fn(n, ps, body) => exprs_ops_known(ps) && expr_ops_known(body),
        StatV::Data(off, d) => true,
    }
}

/// [`stat_ops_known`], over every statement of a sequence.
pub open spec fn stats_ops_known(ts: Seq<StatV>) -> bool
    decreases ts,
{
    ts.len() == 0 || (stats_ops_known(ts.drop_last()) && stat_ops_known(ts.last()))
}

proof fn lemma_prefix_ops(s: Seq<char>, i: int, f: nat)
    ensures
        sp_prefix(s, i, f) matches PRes::Done(e, i2) ==> expr_ops_known(e),
    decreases f, 0nat,
{
    if f > 0 {
        match spec_next(s, i) {
            Some((TokenV::OpenParen, st, en)) => {
                lemma_expr_ops(s, en, (f - 1) as nat);
            },
            _ => {},
        }
    }
}

proof fn lemma_expr_ops(s: Seq<char>, i: int, f: nat)
    ensures
        sp_expr(s, i, f) matches PRes::Done(e, i2) ==> expr_ops_known(e),
    decreases f, 1nat,
{
    if f > 0 {
        lemma_primary_ops(s, i, (f - 1) as nat);
        match sp_primary(s, i, (f - 1) as nat) {
            PRes::Done(lhs, i2) => {
                lemma_subexpr_ops(s, i2, lhs, 0, (f - 1) as nat);
            },
            _ => {},
        }
    }
}

proof fn lemma_primary_ops(s: Seq<char>, i: int, f: nat)
    ensures
        sp_primary(s, i, f) matches PRes::Done(e, i2) ==> expr_ops_known(e),
    decreases f, 2nat,
{
    if f > 0 {
        match spec_next(s, i) {
            Some((t, st, en)) => {
                match t {
                    TokenV::Ident(n) => {
                        match spec_next(s, en) {
                            Some((TokenV::Equals, st2, en2)) => {
                                lemma_expr_ops(s, en2, (f - 1) as nat);
                                match sp_expr(s, en2, (f - 1) as nat) {
                                    PRes::Done(e, i2) => {
                                        lemma_suffix_ops(
                                            s,
                                            i2,
                                            ExprV::Assignment(n, Box::new(e)),
                                            (f - 1) as nat,
                                        );
                                    },
                                    _ => {},
                                }
                            },
                            Some((t2, st2, en2)) => {
                                lemma_suffix_ops(s, st2, ExprV::Ident(n), (f - 1) as nat);
                            },
                            None => {
                                lemma_suffix_ops(
                                    s,
                                    s.len() as int,
                                    ExprV::Ident(n),
                                    (f - 1) as nat,
                                );
                            },
                        }
                    },
                    TokenV::Return => {
                        lemma_expr_ops(s, en, (f - 1) as nat);
                        match sp_expr(s, en, (f - 1) as nat) {
                            PRes::Done(e, i2) => {
                                lemma_suffix_ops(
                                    s,
                                    i2,
                                    ExprV::Return(Box::new(e)),
                                    (f - 1) as nat,
                                );
                            },
                            _ => {},
                        }
                    },
                    TokenV::OpenBrace => {
                        lemma_block_ops(s, en, Seq::empty(), (f - 1) as nat);
                        match sp_block(s, en, Seq::empty(), (f - 1) as nat) {
                            PRes::Done(es, i2) => {
                                lemma_suffix_ops(s, i2, ExprV::Block(es), (f - 1) as nat);
                            },
                            _ => {},
                        }
                    },
                    _ => {
                        lemma_prefix_ops(s, st, (f - 1) as nat);
                        match sp_prefix(s, st, (f - 1) as nat) {
                            PRes::Done(e, i2) => {
                                lemma_suffix_ops(s, i2, e, (f - 1) as nat);
                            },
                            _ => {},
                        }
                    },
                }
            },
            None => {},
        }
    }
}

proof fn lemma_suffix_ops(s: Seq<char>, i: int, base: ExprV, f: nat)
    requires
        expr_ops_known(base),
    ensures
        sp_suffix(s, i, base, f) matches PRes::Done(e, i2) ==> expr_ops_known(e),
    decreases f, 3nat,
{
    if f > 0 {
        match spec_next(s, i) {
            Some((TokenV::OpenParen, st, en)) => {
                lemma_arglist_ops(s, en, Seq::empty(), (f - 1) as nat);
                match sp_arglist(s, en, Seq::empty(), (f - 1) as nat) {
                    PRes::Done(args, i2) => {
                        lemma_suffix_ops(
                            s,
                            i2,
                            ExprV::Call(Box::new(base), args),
                            (f - 1) as nat,
                        );
                    },
                    _ => {},
                }
            },
            _ => {},
        }
    }
}

proof fn lemma_arglist_ops(s: Seq<char>, i: int, acc: Seq<ExprV>, f: nat)
    requires
        exprs_ops_known(acc),
    ensures
        sp_arglist(s, i, acc, f) matches PRes::Done(args, i2) ==> exprs_ops_known(args),
    decreases f, 4nat,
{
    if f > 0 {
        match spec_next(s, i) {
            Some((TokenV::CloseParen, st, en)) => {},
            Some((t0, st0, en0)) => {
                lemma_expr_ops(s, st0, (f - 1) as nat);
                match sp_expr(s, st0, (f - 1) as nat) {
                    PRes::Done(e, i2) => {
                        lemma_exprs_ops_known_push(acc, e);
                        match spec_next(s, i2) {
                            Some((TokenV::Comma, st2, en2)) => {
                                lemma_arglist_ops(s, en2, acc.push(e), (f - 1) as nat);
                            },
                            _ => {},
                        }
                    },
                    _ => {},
                }
            },
            None => {},
        }
    }
}

proof fn lemma_subexpr_ops(s: Seq<char>, i: int, lhs: ExprV, minp: int, f: nat)
    requires
        expr_ops_known(lhs),
    ensures
        sp_subexpr(s, i, lhs, minp, f) matches PRes::Done(e, i2) ==> expr_ops_known(e),
    decreases f, 5nat,
{
    if f > 0 {
        match spec_next(s, i) {
            Some((TokenV::Op(sym), st, en)) => {
                match spec_precedence(sym) {
                    Some(p) => {
                        if p as int >= minp {
                            lemma_primary_ops(s, en, (f - 1) as nat);
                            match sp_primary(s, en, (f - 1) as nat) {
                                PRes::Done(rhs, i2) => {
                                    lemma_climb_ops(s, i2, rhs, p as int, minp, (f - 1) as nat);
                                    match sp_climb(s, i2, rhs, p as int, minp, (f - 1) as nat) {
                                        PRes::Done(rhs2, i3) => {
                                            lemma_subexpr_ops(
                                                s,
                                                i3,
                                                ExprV::BinOp(
                                                    Box::new(lhs),
                                                    sym,
                                                    Box::new(rhs2),
                                                ),
                                                minp,
                                                (f - 1) as nat,
                                            );
                                        },
                                        _ => {},
                                    }
                                },
                                _ => {},
                            }
                        }
                    },
                    None => {},
                }
            },
            _ => {},
        }
    }
}

proof fn lemma_climb_ops(s: Seq<char>, i: int, rhs: ExprV, opp: int, minp: int, f: nat)
    requires
        expr_ops_known(rhs),
    ensures
        sp_climb(s, i, rhs, opp, minp, f) matches PRes::Done(e, i2) ==> expr_ops_known(e),
    decreases f, 6nat,
{
    if f > 0 {
        match spec_next(s, i) {
            Some((TokenV::Op(sym2), st, en)) => {
                match spec_precedence(sym2) {
                    Some(p2) => {
                        if p2 as int > opp {
                            lemma_subexpr_ops(s, st, rhs, minp + 1, (f - 1) as nat);
                            match sp_subexpr(s, st, rhs, minp + 1, (f - 1) as nat) {
                                PRes::Done(r2, i2) => {
                                    lemma_climb_ops(s, i2, r2, opp, minp, (f - 1) as nat);
                                },
                                _ => {},
                            }
                        }
                    },
                    None => {},
                }
            },
            _ => {},
        }
    }
}

proof fn lemma_block_ops(s: Seq<char>, i: int, acc: Seq<ExprV>, f: nat)
    requires
        exprs_ops_known(acc),
    ensures
        sp_block(s, i, acc, f) matches PRes::Done(es, i2) ==> exprs_ops_known(es),
    decreases f, 7nat,
{
    if f > 0 {
        match spec_next(s, i) {
            Some((TokenV::CloseBrace, st, en)) if acc.len() == 0 => {},
            Some((t0, st0, en0)) => {
                lemma_expr_ops(s, st0, (f - 1) as nat);
                match sp_expr(s, st0, (f - 1) as nat) {
                    PRes::Done(e, i2) => {
                        lemma_exprs_ops_known_push(acc, e);
                        match spec_next(s, i2) {
                            Some((TokenV::Semicolon, st2, en2)) => {
                                lemma_block_ops(s, en2, acc.push(e), (f - 1) as nat);
                            },
                            _ => {},
                        }
                    },
                    _ => {},
                }
            },
            None => {},
        }
    }
}

proof fn lemma_exprs_ops_known_push(es: Seq<ExprV>, e: ExprV)
    requires
        exprs_ops_known(es),
        expr_ops_known(e),
    ensures
        exprs_ops_known(es.push(e)),
{
    assert(es.push(e).drop_last() =~= es);
    assert(es.push(e).last() == e);
}

proof fn lemma_stats_ops_known_push(ts: Seq<StatV>, t: StatV)
    requires
        stats_ops_known(ts),
        stat_ops_known(t),
    ensures
        stats_ops_known(ts.push(t)),
{
    assert(ts.push(t).drop_last() =~= ts);
    assert(ts.push(t).last() == t);
}

proof fn lemma_root_ops(s: Seq<char>, i: int, acc: Seq<StatV>, f: nat)
    requires
        stats_ops_known(acc),
    ensures
        sp_root(s, i, acc, f) matches PRes::Done(sts, j) ==> stats_ops_known(sts),
    decreases f, 8nat,
{
    if f > 0 {
        match spec_next(s, i) {
            None => {},
            Some((t, st, en)) => {
                match t {
                    TokenV::Fn => {
                        match spec_next(s, en) {
                            Some((TokenV::Ident(n), st2, en2)) => {
                                match spec_next(s, en2) {
                                    Some((TokenV::OpenParen, st3, en3)) => {
                                        match spec_next(s, en3) {
                                            Some((TokenV::CloseParen, st4, en4)) => {
                                                lemma_expr_ops(s, en4, (f - 1) as nat);
                                                match sp_expr(s, en4, (f - 1) as nat) {
                                                    PRes::Done(body, i2) => {
                                                        lemma_stats_ops_known_push(
                                                            acc,
                                                            StatV::Fn(n, Seq::empty(), body),
                                                        );
                                                        lemma_root_ops(
                                                            s,
                                                            i2,
                                                            acc.push(
                                                                StatV::Fn(n, Seq::empty(), body),
                                                            ),
                                                            (f - 1) as nat,
                                                        );
                                                    },
                                                    _ => {},
                                                }
                                            },
                                            _ => {},
                                        }
                                    },
                                    _ => {},
                                }
                            },
                            _ => {},
                        }
                    },
                    TokenV::Data => {
                        match spec_next(s, en) {
                            Some((TokenV::OpenBracket, st2, en2)) => {
                                match spec_next(s, en2) {
                                    Some((TokenV::Integer(v), st3, en3)) => {
                                        if v >= 0 {
                                            match spec_next(s, en3) {
                                                Some((TokenV::CloseBracket, st4, en4)) => {
                                                    match spec_next(s, en4) {
                                                        Some((TokenV::Equals, st5, en5)) => {
                                                            match spec_next(s, en5) {
                                                                Some(
                                                                    (TokenV::Str(d), st6, en6),
                                                                ) => {
                                                                    lemma_stats_ops_known_push(
                                                                        acc,
                                                                        StatV::Data(v as u64, d),
                                                                    );
                                                                    lemma_root_ops(
                                                                        s,
                                                                        en6,
                                                                        acc.push(
                                                                            StatV::Data(
                                                                                v as u64,
                                                                                d,
                                                                            ),
                                                                        ),
                                                                        (f - 1) as nat,
                                                                    );
                                                                },
                                                                _ => {},
                                                            }
                                                        },
                                                        _ => {},
                                                    }
                                                },
                                                _ => {},
                                            }
                                        }
                                    },
                                    _ => {},
                                }
                            },
                            _ => {},
                        }
                    },
                    TokenV::Semicolon => {
                        lemma_root_ops(s, en, acc, (f - 1) as nat);
                    },
                    _ => {},
                }
            },
        }
    }
}

/// Every operator of every `BinOp` node of an accepted parse belongs to the
/// fixed operator set: a symbol with no defined binding strength never
/// reaches a `BinOp` node.
pub proof fn lemma_accepted_ops_known(s: Seq<char>, sts: Seq<StatV>)
    requires
        parse_settles(s, Ok(sts)),
    ensures
        stats_ops_known(sts),
{
    let f1 = choose|f0: nat|
        root_settles_from(s, 0, Seq::empty(), parse_outcome_res(s, Ok(sts)), f0);
    assert(sp_root(s, 0, Seq::empty(), f1) == parse_outcome_res(s, Ok(sts)));
    lemma_root_ops(s, 0, Seq::empty(), f1);
}

/// What a whole parse of `s` may yield: the statements of an accepted parse
/// end at the end of the input; a failure carries its diagnostic.
pub open spec fn parse_outcome_res(s: Seq<char>, out: Result<Seq<StatV>, ErrV>) -> PRes<
    Seq<StatV>,
> {
    match out {
        Ok(sts) => PRes::Done(sts, s.len() as int),
        Err(e) => PRes::Fail(e),
    }
}

/// The mathematical parser, run on the whole source from its start, settles
/// on this outcome.
pub open spec fn parse_settles(s: Seq<char>, out: Result<Seq<StatV>, ErrV>) -> bool {
    root_settles(s, 0, Seq::empty(), parse_outcome_res(s, out))
}

/// Parsing is deterministic: the mathematical parser settles on at most one
/// outcome for a source. Since `parse_string` ensures its result is such an
/// outcome, parsing the same source twice yields structurally identical
/// syntax trees, and identical diagnostics on failure.
pub proof fn lemma_parse_deterministic(
    s: Seq<char>,
    o1: Result<Seq<StatV>, ErrV>,
    o2: Result<Seq<StatV>, ErrV>,
)
    requires
        parse_settles(s, o1),
        parse_settles(s, o2),
    ensures
        o1 == o2,
{
    let r1 = parse_outcome_res(s, o1);
    let r2 = parse_outcome_res(s, o2);
    let f1 = choose|f0: nat| root_settles_from(s, 0, Seq::empty(), r1, f0);
    let f2 = choose|f0: nat| root_settles_from(s, 0, Seq::empty(), r2, f0);
    assert(sp_root(s, 0, Seq::empty(), f1 + f2) == r1);
    assert(sp_root(s, 0, Seq::empty(), f1 + f2) == r2);
}

/// For every source the parser accepts, the number of statements equals the
/// number of top-level `fn` and `data` declarations; separating semicolons
/// are not counted.
pub proof fn lemma_statement_count(s: Seq<char>, sts: Seq<StatV>)
    requires
        parse_settles(s, Ok(sts)),
    ensures
        sts.len() == decl_count(s, 0),
{
    let f1 = choose|f0: nat|
        root_settles_from(s, 0, Seq::empty(), parse_outcome_res(s, Ok(sts)), f0);
    assert(sp_root(s, 0, Seq::empty(), f1) == parse_outcome_res(s, Ok(sts)));
    lemma_root_decls(s, 0, Seq::empty(), f1);
}

} // verus!
