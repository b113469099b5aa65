//! The parser: a recursive-descent parser with error recovery.
//!
//! Its behaviour is given as spec functions over the input bytes and the
//! parser's state (`p_program` and the functions it calls): the state is
//! where the scanner stands, the current token and the errors recorded so
//! far. The executable `Parser` is proved to follow them.
use vstd::prelude::*;

use crate::scanner::{
    LexState,
    Scanner,
    fits_from,
    lemma_fits_step,
    lemma_lex_progress,
    lemma_skip_mono,
    lex_token,
    SkipMode,
};
use crate::structs::{
    BinaryOp,
    Condition,
    Declaration,
    Expr,
    FuncDecl,
    RelOp,
    SCond,
    SDecl,
    SExpr,
    SFunc,
    SSpanned,
    SStmt,
    SToken,
    SVarDecl,
    SpannedToken,
    Statement,
    Token,
    Type,
    UnaryOp,
    VarDecl,
    branches_view,
    cond_view,
    decl_view,
    decls_view,
    expr_view,
    exprs_view,
    lemma_branches_view_push,
    lemma_exprs_view_push,
    lemma_stmts_view_push,
    stmt_view,
    stmts_view,
    tok_debug,
    vardecl_view,
    vardecls_view,
};
use crate::text::text_of;

verus! {

// ---------------------------------------------------------------------------
// Errors
// ---------------------------------------------------------------------------

/// A syntax error, at the line and column of the token where it was found.
#[derive(Debug)]
pub struct ParseError {
    pub message: String,
    pub line: usize,
    pub col: usize,
}

/// A syntax error as a mathematical value.
pub struct SParseError {
    pub message: Seq<char>,
    pub line: int,
    pub col: int,
}

impl View for ParseError {
    type V = SParseError;

    open spec fn view(&self) -> SParseError {
        SParseError { message: self.message@, line: self.line as int, col: self.col as int }
    }
}

/// The views of a list of syntax errors.
pub open spec fn errs_view(v: Seq<ParseError>) -> Seq<SParseError> {
    v.map_values(|e: ParseError| e@)
}

impl Clone for ParseError {
    fn clone(&self) -> (r: Self)
        ensures
            r == *self,
    {
        ParseError { message: self.message.clone(), line: self.line, col: self.col }
    }
}

/// How an error is shown: `slang: <line>:<col> <message>`.
pub open spec fn error_text(e: SParseError) -> Seq<char> {
    "slang: "@ + crate::text::int_text(e.line) + ":"@ + crate::text::int_text(e.col) + " "@
        + e.message
}

impl ParseError {
    /// How the error is shown: `slang: <line>:<col> <message>`.
    pub fn to_text(&self) -> (r: String)
        ensures
            r@ == error_text(self@),
    {
        let mut r = text_of("slang: ");
        crate::text::append_u64(&mut r, self.line as u64);
        r.append(":");
        crate::text::append_u64(&mut r, self.col as u64);
        r.append(" ");
        r.append(self.message.as_str());
        r
    }
}

// ---------------------------------------------------------------------------
// The parser's state and its basic moves
// ---------------------------------------------------------------------------

/// The parser's state: where the scanner stands, the current token, and the
/// errors recorded so far.
pub struct PState {
    pub st: LexState,
    pub cur: SSpanned,
    pub errs: Seq<SParseError>,
}

/// Moves on to the next token.
pub open spec fn padv(s: Seq<u8>, ps: PState) -> PState {
    let l = lex_token(s, ps.st);
    PState { st: l.next, cur: SSpanned { token: l.token, line: l.line, col: l.col }, errs: ps.errs }
}

/// How much input is left: shrinks with every token taken but the end marker.
pub open spec fn pm(s: Seq<u8>, ps: PState) -> int {
    (if 0 <= ps.st.pos <= s.len() {
        2 * (s.len() - ps.st.pos)
    } else {
        0int
    }) + (if ps.cur.token is EOF {
        0int
    } else {
        1int
    })
}

/// Records an error at the current token.
pub open spec fn perr(ps: PState, msg: Seq<char>) -> PState {
    PState {
        errs: ps.errs.push(SParseError { message: msg, line: ps.cur.line, col: ps.cur.col }),
        ..ps
    }
}

/// Numbers the variants of a token (payloads aside).
pub open spec fn kind_index(t: SToken) -> int {
    match t {
        SToken::Ident(_) => 0,
        SToken::Number(_) => 1,
        SToken::Char(_) => 2,
        SToken::Var => 3,
        SToken::Fn => 4,
        SToken::If => 5,
        SToken::ElseIf => 6,
        SToken::Else => 7,
        SToken::While => 8,
        SToken::Return => 9,
        SToken::LParen => 10,
        SToken::RParen => 11,
        SToken::LBrace => 12,
        SToken::RBrace => 13,
        SToken::Colon => 14,
        SToken::Semicolon => 15,
        SToken::Comma => 16,
        SToken::Assign => 17,
        SToken::Neq => 18,
        SToken::Lt => 19,
        SToken::Gt => 20,
        SToken::Le => 21,
        SToken::Ge => 22,
        SToken::Plus => 23,
        SToken::Minus => 24,
        SToken::Star => 25,
        SToken::Slash => 26,
        SToken::Percent => 27,
        SToken::EOF => 28,
    }
}

/// The message for a token other than the one expected.
pub open spec fn expected_msg(expected: SToken, got: SToken) -> Seq<char> {
    "Expected "@ + tok_debug(expected) + ", got "@ + tok_debug(got)
}

/// Takes a token of the expected kind; on any other token records an error and
/// takes it all the same.
pub open spec fn p_expect(s: Seq<u8>, ps: PState, expected: SToken) -> PState {
    if kind_index(ps.cur.token) == kind_index(expected) {
        padv(s, ps)
    } else {
        padv(s, perr(ps, expected_msg(expected, ps.cur.token)))
    }
}

/// Takes an identifier; on any other token records an error, takes nothing and
/// yields the empty name.
pub open spec fn p_expect_ident(s: Seq<u8>, ps: PState) -> (Seq<char>, PState) {
    match ps.cur.token {
        SToken::Ident(n) => (n, padv(s, ps)),
        _ => (seq![], perr(ps, "Expected identifier"@)),
    }
}

/// After a bad statement: skips to just past the next `;`, or to a `}` or the end.
pub open spec fn p_sync_stmt(s: Seq<u8>, ps: PState) -> PState
    decreases pm(s, ps),
{
    if !(ps.cur.token is Semicolon || ps.cur.token is RBrace || ps.cur.token is EOF) {
        proof {
            lemma_padv(s, ps);
        }
        p_sync_stmt(s, padv(s, ps))
    } else if ps.cur.token is Semicolon {
        padv(s, ps)
    } else {
        ps
    }
}

/// After a bad declaration: skips to the next `var` or `fn`, or to the end.
pub open spec fn p_sync_decl(s: Seq<u8>, ps: PState) -> PState
    decreases pm(s, ps),
{
    if !(ps.cur.token is Var || ps.cur.token is Fn) && !(ps.cur.token is EOF) {
        proof {
            lemma_padv(s, ps);
        }
        p_sync_decl(s, padv(s, ps))
    } else {
        ps
    }
}

// ---------------------------------------------------------------------------
// The grammar
// ---------------------------------------------------------------------------

/// The operator a `Mulop` token stands for.
pub open spec fn mul_op(t: SToken) -> Option<BinaryOp> {
    match t {
        SToken::Star => Some(BinaryOp::Mul),
        SToken::Slash => Some(BinaryOp::Div),
        SToken::Percent => Some(BinaryOp::Mod),
        _ => None,
    }
}

/// The operator an `Addop` token stands for.
pub open spec fn add_op(t: SToken) -> Option<BinaryOp> {
    match t {
        SToken::Plus => Some(BinaryOp::Add),
        SToken::Minus => Some(BinaryOp::Sub),
        _ => None,
    }
}

/// The relation a `Relop` token stands for.
pub open spec fn rel_op(t: SToken) -> Option<RelOp> {
    match t {
        SToken::Assign => Some(RelOp::Eq),
        SToken::Neq => Some(RelOp::Neq),
        SToken::Lt => Some(RelOp::Lt),
        SToken::Gt => Some(RelOp::Gt),
        SToken::Le => Some(RelOp::Le),
        SToken::Ge => Some(RelOp::Ge),
        _ => None,
    }
}

/// Relop = "=" | "#" | "<" | ">" | ">=" | "<=".
pub open spec fn p_relop(s: Seq<u8>, ps: PState) -> (Option<RelOp>, PState) {
    match rel_op(ps.cur.token) {
        Some(op) => (Some(op), padv(s, ps)),
        None => (None, perr(ps, "Expected relop"@)),
    }
}

/// Factor = ident [ActParameters] | number | charCon | "(" Expression ")".
pub open spec fn p_factor(s: Seq<u8>, ps: PState) -> (Option<SExpr>, PState)
    decreases pm(s, ps), 1int,
{
    match ps.cur.token {
        SToken::Ident(name) => {
            proof {
                lemma_padv(s, ps);
            }
            let p1 = padv(s, ps);
            if p1.cur.token is LParen {
                let (a, p2) = p_act(s, p1);
                match a {
                    Some(args) => (Some(SExpr::Call(name, args)), p2),
                    None => (None, p2),
                }
            } else {
                (Some(SExpr::Ident { name, loc: None }), p1)
            }
        },
        SToken::Number(n) => (Some(SExpr::Number(n)), padv(s, ps)),
        SToken::Char(c) => (Some(SExpr::Char(c)), padv(s, ps)),
        SToken::LParen => {
            proof {
                lemma_padv(s, ps);
            }
            let (e, p2) = p_expr(s, padv(s, ps));
            match e {
                Some(e) => (Some(e), p_expect(s, p2, SToken::RParen)),
                None => (None, p2),
            }
        },
        _ => (None, perr(ps, "Invalid factor"@)),
    }
}

/// The `{Mulop Factor}` part of a term, folding to the left onto `acc`.
pub open spec fn p_term_loop(s: Seq<u8>, ps: PState, acc: SExpr) -> (Option<SExpr>, PState)
    decreases pm(s, ps), 2int,
{
    match mul_op(ps.cur.token) {
        Some(op) => {
            proof {
                lemma_padv(s, ps);
            }
            let (r, p2) = p_factor(s, padv(s, ps));
            match r {
                None => (None, p2),
                Some(r) => {
                    let e = SExpr::Binary { left: Box::new(acc), op, right: Box::new(r) };
                    if pm(s, p2) < pm(s, ps) {
                        p_term_loop(s, p2, e)
                    } else {
                        (Some(e), p2)
                    }
                },
            }
        },
        None => (Some(acc), ps),
    }
}

/// Term = Factor {Mulop Factor}.
pub open spec fn p_term(s: Seq<u8>, ps: PState) -> (Option<SExpr>, PState)
    decreases pm(s, ps), 3int,
{
    let (f, p1) = p_factor(s, ps);
    match f {
        None => (None, p1),
        Some(f) => if pm(s, p1) <= pm(s, ps) {
            p_term_loop(s, p1, f)
        } else {
            (Some(f), p1)
        },
    }
}

/// The `{Addop Term}` part of an expression, folding to the left onto `acc`.
pub open spec fn p_expr_loop(s: Seq<u8>, ps: PState, acc: SExpr) -> (Option<SExpr>, PState)
    decreases pm(s, ps), 4int,
{
    match add_op(ps.cur.token) {
        Some(op) => {
            proof {
                lemma_padv(s, ps);
            }
            let (r, p2) = p_term(s, padv(s, ps));
            match r {
                None => (None, p2),
                Some(r) => {
                    let e = SExpr::Binary { left: Box::new(acc), op, right: Box::new(r) };
                    if pm(s, p2) < pm(s, ps) {
                        p_expr_loop(s, p2, e)
                    } else {
                        (Some(e), p2)
                    }
                },
            }
        },
        None => (Some(acc), ps),
    }
}

/// The sign that a leading `+` or `-` gives an expression.
pub open spec fn unary_of(op: BinaryOp) -> UnaryOp {
    if op == BinaryOp::Add {
        UnaryOp::Plus
    } else {
        UnaryOp::Minus
    }
}

/// Expression = [Addop] Term {Addop Term}; a leading sign applies to the first term.
pub open spec fn p_expr(s: Seq<u8>, ps: PState) -> (Option<SExpr>, PState)
    decreases pm(s, ps), 5int,
{
    match add_op(ps.cur.token) {
        Some(op) => {
            proof {
                lemma_padv(s, ps);
            }
            let (t, p2) = p_term(s, padv(s, ps));
            match t {
                None => (None, p2),
                Some(t) => {
                    let first = SExpr::Unary { op: unary_of(op), expr: Box::new(t) };
                    if pm(s, p2) <= pm(s, ps) {
                        p_expr_loop(s, p2, first)
                    } else {
                        (Some(first), p2)
                    }
                },
            }
        },
        None => {
            let (t, p1) = p_term(s, ps);
            match t {
                None => (None, p1),
                Some(t) => if pm(s, p1) <= pm(s, ps) {
                    p_expr_loop(s, p1, t)
                } else {
                    (Some(t), p1)
                },
            }
        },
    }
}

/// The `Expression {"," Expression}` list of actual parameters.
pub open spec fn p_act_loop(s: Seq<u8>, ps: PState, acc: Seq<SExpr>) -> (
    Option<Seq<SExpr>>,
    PState,
)
    decreases pm(s, ps), 6int,
{
    let (e, p1) = p_expr(s, ps);
    match e {
        None => (None, p1),
        Some(e) => {
            let acc2 = acc.push(e);
            if !(p1.cur.token is Comma) {
                (Some(acc2), p1)
            } else {
                let p2 = padv(s, p1);
                if pm(s, p2) < pm(s, ps) {
                    p_act_loop(s, p2, acc2)
                } else {
                    (Some(acc2), p2)
                }
            }
        },
    }
}

/// ActParameters = "(" [Expression {"," Expression}] ")".
pub open spec fn p_act(s: Seq<u8>, ps: PState) -> (Option<Seq<SExpr>>, PState)
    decreases pm(s, ps), 7int,
{
    proof {
        lemma_expect(s, ps, SToken::LParen);
    }
    let p1 = p_expect(s, ps, SToken::LParen);
    if !(p1.cur.token is RParen) {
        let (a, p2) = p_act_loop(s, p1, seq![]);
        match a {
            None => (None, p2),
            Some(args) => (Some(args), p_expect(s, p2, SToken::RParen)),
        }
    } else {
        (Some(seq![]), p_expect(s, p1, SToken::RParen))
    }
}

/// Condition = Expression Relop Expression.
pub open spec fn p_cond(s: Seq<u8>, ps: PState) -> (Option<SCond>, PState)
    decreases pm(s, ps), 8int,
{
    let (l, p1) = p_expr(s, ps);
    match l {
        None => (None, p1),
        Some(l) => {
            let (op, p2) = p_relop(s, p1);
            match op {
                None => (None, p2),
                Some(op) => if pm(s, p2) <= pm(s, ps) {
                    let (r, p3) = p_expr(s, p2);
                    match r {
                        None => (None, p3),
                        Some(r) => (Some(SCond { left: l, op, right: r }), p3),
                    }
                } else {
                    (None, p2)
                },
            }
        },
    }
}

/// The `{"elseif" "(" Condition ")" "{" StatSeq "}"}` part of an if statement.
pub open spec fn p_elseif(s: Seq<u8>, ps: PState, branches: Seq<(SCond, Seq<SStmt>)>) -> (
    Option<Seq<(SCond, Seq<SStmt>)>>,
    PState,
)
    decreases pm(s, ps), 9int,
{
    if ps.cur.token is ElseIf {
        proof {
            lemma_padv(s, ps);
            lemma_expect(s, padv(s, ps), SToken::LParen);
        }
        let p2 = p_expect(s, padv(s, ps), SToken::LParen);
        let (c, p3) = p_cond(s, p2);
        match c {
            None => (None, p3),
            Some(c) => {
                let p5 = p_expect(s, p_expect(s, p3, SToken::RParen), SToken::LBrace);
                if pm(s, p5) < pm(s, ps) {
                    let (body, p6) = p_stat_seq(s, p5, seq![]);
                    let p7 = p_expect(s, p6, SToken::RBrace);
                    if pm(s, p7) < pm(s, ps) {
                        p_elseif(s, p7, branches.push((c, body)))
                    } else {
                        (None, p7)
                    }
                } else {
                    (None, p5)
                }
            },
        }
    } else {
        (Some(branches), ps)
    }
}

/// Statement = ident ("=" Expression | ActParameters) ";"
///   | "if" "(" Condition ")" "{" StatSeq "}" {"elseif" ...} ["else" "{" StatSeq "}"]
///   | "while" "(" Condition ")" "{" StatSeq "}"
///   | "return" [Expression] ";".
pub open spec fn p_stmt(s: Seq<u8>, ps: PState) -> (Option<SStmt>, PState)
    decreases pm(s, ps), 10int,
{
    match ps.cur.token {
        SToken::Ident(name) => {
            proof {
                lemma_padv(s, ps);
            }
            let p1 = padv(s, ps);
            if p1.cur.token is Assign {
                proof {
                    lemma_padv(s, p1);
                }
                let (e, p3) = p_expr(s, padv(s, p1));
                match e {
                    None => (None, p3),
                    Some(e) => (
                        Some(SStmt::Assign { name, loc: None, expr: e }),
                        p_expect(s, p3, SToken::Semicolon),
                    ),
                }
            } else {
                let (a, p2) = p_act(s, p1);
                match a {
                    None => (None, p2),
                    Some(args) => (Some(SStmt::Call(name, args)), p_expect(s, p2, SToken::Semicolon)),
                }
            }
        },
        SToken::If => p_if(s, ps),
        SToken::While => p_while(s, ps),
        SToken::Return => {
            proof {
                lemma_padv(s, ps);
            }
            let p1 = padv(s, ps);
            if !(p1.cur.token is Semicolon) {
                let (e, p2) = p_expr(s, p1);
                match e {
                    None => (None, p2),
                    Some(e) => (Some(SStmt::Return(Some(e))), p_expect(s, p2, SToken::Semicolon)),
                }
            } else {
                (Some(SStmt::Return(None)), p_expect(s, p1, SToken::Semicolon))
            }
        },
        _ => (None, perr(ps, "Invalid statement"@)),
    }
}

/// The `if` statement, from its keyword on.
pub open spec fn p_if(s: Seq<u8>, ps: PState) -> (Option<SStmt>, PState)
    decreases pm(s, ps), 9int,
{
    proof {
        lemma_padv(s, ps);
        lemma_expect(s, padv(s, ps), SToken::LParen);
    }
    let p2 = p_expect(s, padv(s, ps), SToken::LParen);
    let (c, p3) = p_cond(s, p2);
    match c {
        None => (None, p3),
        Some(c) => {
            let p5 = p_expect(s, p_expect(s, p3, SToken::RParen), SToken::LBrace);
            if pm(s, p5) < pm(s, ps) {
                let (body, p6) = p_stat_seq(s, p5, seq![]);
                let p7 = p_expect(s, p6, SToken::RBrace);
                if pm(s, p7) < pm(s, ps) {
                    let (br, p8) = p_elseif(s, p7, seq![(c, body)]);
                    match br {
                        None => (None, p8),
                        Some(branches) => if p8.cur.token is Else {
                            let p10 = p_expect(s, padv(s, p8), SToken::LBrace);
                            if pm(s, p10) < pm(s, ps) {
                                let (eb, p11) = p_stat_seq(s, p10, seq![]);
                                (
                                    Some(SStmt::If { branches, else_branch: Some(eb) }),
                                    p_expect(s, p11, SToken::RBrace),
                                )
                            } else {
                                (None, p10)
                            }
                        } else {
                            (Some(SStmt::If { branches, else_branch: None }), p8)
                        },
                    }
                } else {
                    (None, p7)
                }
            } else {
                (None, p5)
            }
        },
    }
}

/// The `while` statement, from its keyword on.
pub open spec fn p_while(s: Seq<u8>, ps: PState) -> (Option<SStmt>, PState)
    decreases pm(s, ps), 9int,
{
    proof {
        lemma_padv(s, ps);
        lemma_expect(s, padv(s, ps), SToken::LParen);
    }
    let p2 = p_expect(s, padv(s, ps), SToken::LParen);
    let (c, p3) = p_cond(s, p2);
    match c {
        None => (None, p3),
        Some(c) => {
            let p5 = p_expect(s, p_expect(s, p3, SToken::RParen), SToken::LBrace);
            if pm(s, p5) < pm(s, ps) {
                let (body, p6) = p_stat_seq(s, p5, seq![]);
                (Some(SStmt::While { cond: c, body }), p_expect(s, p6, SToken::RBrace))
            } else {
                (None, p5)
            }
        },
    }
}

/// The tokens a statement can begin with.
pub open spec fn starts_statement(t: SToken) -> bool {
    t is Ident || t is If || t is While || t is Return
}

/// StatSeq: statements up to a `}` or the end; after a bad statement the parser
/// skips ahead (`p_sync_stmt`) and goes on.
pub open spec fn p_stat_seq(s: Seq<u8>, ps: PState, acc: Seq<SStmt>) -> (Seq<SStmt>, PState)
    decreases pm(s, ps), 11int,
{
    if ps.cur.token is RBrace || ps.cur.token is EOF {
        (acc, ps)
    } else {
        let (st, p1) = p_stmt(s, ps);
        match st {
            Some(x) => if pm(s, p1) < pm(s, ps) {
                p_stat_seq(s, p1, acc.push(x))
            } else {
                (acc.push(x), p1)
            },
            None => {
                let p2 = p_sync_stmt(s, p1);
                if pm(s, p2) < pm(s, ps) {
                    p_stat_seq(s, p2, acc)
                } else {
                    (acc, p2)
                }
            },
        }
    }
}

/// The `[Param {"," Param}]` list of parameters.
pub open spec fn p_param_loop(s: Seq<u8>, ps: PState, acc: Seq<SVarDecl>) -> (
    Seq<SVarDecl>,
    PState,
)
    decreases pm(s, ps),
{
    let (name, p1) = p_expect_ident(s, ps);
    let p2 = p_expect(s, p1, SToken::Colon);
    let (ty, p3) = p_expect_ident(s, p2);
    let acc2 = acc.push(SVarDecl { name, typ: Type::spec_from_name(ty), loc: None });
    if p3.cur.token is Comma {
        proof {
            lemma_expect_ident(s, ps);
            lemma_expect(s, p1, SToken::Colon);
            lemma_expect_ident(s, p2);
            lemma_padv(s, p3);
        }
        p_param_loop(s, padv(s, p3), acc2)
    } else {
        (acc2, p3)
    }
}

/// Parameters = "(" [Param {"," Param}] ")" [":" Type]; without a type, `void`.
pub open spec fn p_params(s: Seq<u8>, ps: PState) -> (Seq<SVarDecl>, Type, PState) {
    let p1 = p_expect(s, ps, SToken::LParen);
    let (params, p2) = if !(p1.cur.token is RParen) {
        p_param_loop(s, p1, seq![])
    } else {
        (seq![], p1)
    };
    let p3 = p_expect(s, p2, SToken::RParen);
    if p3.cur.token is Colon {
        let (t, p5) = p_expect_ident(s, padv(s, p3));
        (params, Type::spec_from_name(t), p5)
    } else {
        (params, Type::Void, p3)
    }
}

/// Declaration = VarDecl | FnDecl, with
/// VarDecl = "var" ident ":" Type ";" and
/// FnDecl = "fn" ident Parameters "{" {VarDecl} StatSeq "}".
pub open spec fn p_decl(s: Seq<u8>, ps: PState) -> (Option<SDecl>, PState)
    decreases pm(s, ps), 1int,
{
    match ps.cur.token {
        SToken::Var => {
            let (name, p2) = p_expect_ident(s, padv(s, ps));
            let p3 = p_expect(s, p2, SToken::Colon);
            let (ty, p4) = p_expect_ident(s, p3);
            let p5 = p_expect(s, p4, SToken::Semicolon);
            (Some(SDecl::Var(SVarDecl { name, typ: Type::spec_from_name(ty), loc: None })), p5)
        },
        SToken::Fn => {
            let (name, p2) = p_expect_ident(s, padv(s, ps));
            let (params, ret, p3) = p_params(s, p2);
            let p4 = p_expect(s, p3, SToken::LBrace);
            if pm(s, p4) < pm(s, ps) {
                let (locals, p5) = p_locals(s, p4, seq![]);
                let (body, p6) = p_stat_seq(s, p5, seq![]);
                let p7 = p_expect(s, p6, SToken::RBrace);
                (Some(SDecl::Fn(SFunc { name, params, ret, locals, body })), p7)
            } else {
                (None, p4)
            }
        },
        _ => (None, perr(ps, "Expected declaration"@)),
    }
}

/// The `{VarDecl}` that open a function body.
pub open spec fn p_locals(s: Seq<u8>, ps: PState, acc: Seq<SVarDecl>) -> (Seq<SVarDecl>, PState)
    decreases pm(s, ps), 2int,
{
    if ps.cur.token is Var {
        let (d, p1) = p_decl(s, ps);
        match d {
            Some(SDecl::Var(v)) => if pm(s, p1) < pm(s, ps) {
                p_locals(s, p1, acc.push(v))
            } else {
                (acc.push(v), p1)
            },
            _ => {
                let p2 = p_sync_decl(s, p1);
                if pm(s, p2) < pm(s, ps) {
                    p_locals(s, p2, acc)
                } else {
                    (acc, p2)
                }
            },
        }
    } else {
        (acc, ps)
    }
}

/// SimpleLang = Declaration {Declaration}: declarations up to the end; after a
/// bad one the parser skips to the next `var` or `fn` (`p_sync_decl`) and goes on.
pub open spec fn p_program(s: Seq<u8>, ps: PState, decls: Seq<SDecl>) -> (Seq<SDecl>, PState)
    decreases pm(s, ps),
{
    if ps.cur.token is EOF {
        (decls, ps)
    } else {
        let (d, p1) = p_decl(s, ps);
        match d {
            Some(d) => if pm(s, p1) < pm(s, ps) {
                p_program(s, p1, decls.push(d))
            } else {
                (decls.push(d), p1)
            },
            None => {
                let p2 = p_sync_decl(s, p1);
                if pm(s, p2) < pm(s, ps) {
                    p_program(s, p2, decls)
                } else {
                    (decls, p2)
                }
            },
        }
    }
}

/// The state right after the parser took its first token from `st`.
pub open spec fn p_start(s: Seq<u8>, st: LexState) -> PState {
    padv(s, PState { st, cur: SSpanned { token: SToken::EOF, line: 0, col: 0 }, errs: seq![] })
}

/// Parsing a whole program: its declarations up to the end, and an error at
/// the end marker when there is none (a program has at least one).
pub open spec fn p_parse(s: Seq<u8>, ps: PState) -> (Seq<SDecl>, PState) {
    let (decls, p) = p_program(s, ps, seq![]);
    if decls.len() == 0 {
        (decls, perr(p, "Expected declaration"@))
    } else {
        (decls, p)
    }
}

/// What parsing a whole program yields: the declarations, or the errors when
/// there are any.
pub open spec fn parse_outcome(s: Seq<u8>, ps: PState) -> Result<Seq<SDecl>, Seq<SParseError>> {
    let (decls, p) = p_parse(s, ps);
    if p.errs.len() == 0 {
        Ok(decls)
    } else {
        Err(p.errs)
    }
}

// ---------------------------------------------------------------------------
// Facts about the moves
// ---------------------------------------------------------------------------

/// `acc` lies on the left spine of `e`: it is `e` itself, or lies on the
/// left spine of the left operand of `e`.
pub open spec fn on_left_spine(e: SExpr, acc: SExpr) -> bool
    decreases e,
{
    e == acc || match e {
        SExpr::Binary { left, op: _, right: _ } => on_left_spine(*left, acc),
        _ => false,
    }
}

proof fn lemma_left_spine_step(e: SExpr, acc: SExpr, op: BinaryOp, r: SExpr)
    requires
        on_left_spine(e, SExpr::Binary { left: Box::new(acc), op, right: Box::new(r) }),
    ensures
        on_left_spine(e, acc),
    decreases e,
{
    if e != (SExpr::Binary { left: Box::new(acc), op, right: Box::new(r) }) {
        if let SExpr::Binary { left, op: _, right: _ } = e {
            lemma_left_spine_step(*left, acc, op, r);
        }
    } else {
        assert(on_left_spine(acc, acc));
    }
}

/// Additive operators associate to the left: each `Addop Term` that the
/// loop reads becomes an operation whose left operand is everything read
/// before it and whose right operand is that term, so what was read before
/// stays on the left spine of the result.
pub proof fn lemma_expr_loop_left(s: Seq<u8>, ps: PState, acc: SExpr)
    ensures
        p_expr_loop(s, ps, acc).0 matches Some(e) ==> on_left_spine(e, acc),
        add_op(ps.cur.token) matches Some(op) ==> (p_term(s, padv(s, ps)).0 matches Some(r) ==> (
        p_expr_loop(s, ps, acc).0 matches Some(e) ==> on_left_spine(
            e,
            SExpr::Binary { left: Box::new(acc), op, right: Box::new(r) },
        ))),
    decreases pm(s, ps),
{
    if let Some(op) = add_op(ps.cur.token) {
        lemma_padv(s, ps);
        let (r, p2) = p_term(s, padv(s, ps));
        if let Some(r) = r {
            let e = SExpr::Binary { left: Box::new(acc), op, right: Box::new(r) };
            if pm(s, p2) < pm(s, ps) {
                lemma_expr_loop_left(s, p2, e);
                if let Some(x) = p_expr_loop(s, p2, e).0 {
                    lemma_left_spine_step(x, acc, op, r);
                }
            } else {
                assert(on_left_spine(e, e));
                lemma_left_spine_step(e, acc, op, r);
            }
        }
    }
}

/// In an expression without a leading sign, the first term stays on the
/// left spine of the parsed expression: `a - b - c` is `(a - b) - c`.
pub proof fn lemma_expr_first_term_left(s: Seq<u8>, ps: PState)
    ensures
        add_op(ps.cur.token) is None ==> (p_expr(s, ps).0 matches Some(e) ==> (p_term(
            s,
            ps,
        ).0 matches Some(t) && on_left_spine(e, t))),
{
    if add_op(ps.cur.token) is None {
        let (t, p1) = p_term(s, ps);
        if let Some(t) = t {
            if pm(s, p1) <= pm(s, ps) {
                lemma_expr_loop_left(s, p1, t);
            }
        }
    }
}

/// Taking a token never moves back, and moves on unless at the end.
pub proof fn lemma_padv(s: Seq<u8>, ps: PState)
    ensures
        0 <= pm(s, padv(s, ps)) <= pm(s, ps),
        !(ps.cur.token is EOF) ==> pm(s, padv(s, ps)) < pm(s, ps),
        padv(s, ps).errs == ps.errs,
{
    lemma_lex_progress(s, ps.st);
    if ps.st.pos < 0 {
        lemma_skip_mono(s, ps.st, SkipMode::Normal);
    }
}

/// Expecting a token never moves back, and moves on unless at the end.
pub proof fn lemma_expect(s: Seq<u8>, ps: PState, e: SToken)
    ensures
        0 <= pm(s, p_expect(s, ps, e)) <= pm(s, ps),
        !(ps.cur.token is EOF) ==> pm(s, p_expect(s, ps, e)) < pm(s, ps),
{
    lemma_padv(s, ps);
    lemma_padv(s, perr(ps, expected_msg(e, ps.cur.token)));
}

/// Expecting an identifier never moves back.
pub proof fn lemma_expect_ident(s: Seq<u8>, ps: PState)
    ensures
        0 <= pm(s, p_expect_ident(s, ps).1) <= pm(s, ps),
{
    lemma_padv(s, ps);
}

/// Reading a relation never moves back.
pub proof fn lemma_relop(s: Seq<u8>, ps: PState)
    ensures
        0 <= pm(s, p_relop(s, ps).1) <= pm(s, ps),
{
    lemma_padv(s, ps);
}

/// Recovering from a bad statement never moves back, and moves on from any token but `}` and the end.
pub proof fn lemma_sync_stmt(s: Seq<u8>, ps: PState)
    ensures
        0 <= pm(s, p_sync_stmt(s, ps)) <= pm(s, ps),
        !(ps.cur.token is RBrace || ps.cur.token is EOF) ==> pm(s, p_sync_stmt(s, ps)) < pm(
            s,
            ps,
        ),
    decreases pm(s, ps),
{
    lemma_padv(s, ps);
    if !(ps.cur.token is Semicolon || ps.cur.token is RBrace || ps.cur.token is EOF) {
        lemma_sync_stmt(s, padv(s, ps));
    }
}

/// Recovering from a bad declaration never moves back, and moves on from any token but `var`, `fn` and the end.
pub proof fn lemma_sync_decl(s: Seq<u8>, ps: PState)
    ensures
        0 <= pm(s, p_sync_decl(s, ps)) <= pm(s, ps),
        !(ps.cur.token is Var || ps.cur.token is Fn || ps.cur.token is EOF) ==> pm(
            s,
            p_sync_decl(s, ps),
        ) < pm(s, ps),
    decreases pm(s, ps),
{
    lemma_padv(s, ps);
    if !(ps.cur.token is Var || ps.cur.token is Fn) && !(ps.cur.token is EOF) {
        lemma_sync_decl(s, padv(s, ps));
    }
}

/// Reading parameters never moves back.
pub proof fn lemma_param_loop(s: Seq<u8>, ps: PState, acc: Seq<SVarDecl>)
    ensures
        0 <= pm(s, p_param_loop(s, ps, acc).1) <= pm(s, ps),
    decreases pm(s, ps),
{
    let (name, p1) = p_expect_ident(s, ps);
    let p2 = p_expect(s, p1, SToken::Colon);
    let (ty, p3) = p_expect_ident(s, p2);
    lemma_expect_ident(s, ps);
    lemma_expect(s, p1, SToken::Colon);
    lemma_expect_ident(s, p2);
    lemma_padv(s, p3);
    if p3.cur.token is Comma {
        let acc2 = acc.push(SVarDecl { name, typ: Type::spec_from_name(ty), loc: None });
        lemma_param_loop(s, padv(s, p3), acc2);
    }
}

/// Reading a parameter list and its type never moves back.
pub proof fn lemma_params(s: Seq<u8>, ps: PState)
    ensures
        0 <= pm(s, p_params(s, ps).2) <= pm(s, ps),
{
    let p1 = p_expect(s, ps, SToken::LParen);
    lemma_expect(s, ps, SToken::LParen);
    let (params, p2) = if !(p1.cur.token is RParen) {
        lemma_param_loop(s, p1, seq![]);
        p_param_loop(s, p1, seq![])
    } else {
        (seq![], p1)
    };
    let p3 = p_expect(s, p2, SToken::RParen);
    lemma_expect(s, p2, SToken::RParen);
    lemma_padv(s, p3);
    lemma_expect_ident(s, padv(s, p3));
}

// ---------------------------------------------------------------------------
// Views of results
// ---------------------------------------------------------------------------

/// The view of an optional expression.
pub open spec fn opt_expr_view(o: Option<Expr>) -> Option<SExpr> {
    match o {
        Some(e) => Some(expr_view(e)),
        None => None,
    }
}

/// The view of an optional list of arguments.
pub open spec fn opt_args_view(o: Option<Vec<Expr>>) -> Option<Seq<SExpr>> {
    match o {
        Some(v) => Some(exprs_view(v@)),
        None => None,
    }
}

/// The view of an optional condition.
pub open spec fn opt_cond_view(o: Option<Condition>) -> Option<SCond> {
    match o {
        Some(c) => Some(cond_view(c)),
        None => None,
    }
}

/// The view of an optional statement.
pub open spec fn opt_stmt_view(o: Option<Statement>) -> Option<SStmt> {
    match o {
        Some(x) => Some(stmt_view(x)),
        None => None,
    }
}

/// The view of an optional declaration.
pub open spec fn opt_decl_view(o: Option<Declaration>) -> Option<SDecl> {
    match o {
        Some(x) => Some(decl_view(x)),
        None => None,
    }
}

// ---------------------------------------------------------------------------
// The parser never moves backwards and reads the whole input
// ---------------------------------------------------------------------------

proof fn lemma_mono_factor(s: Seq<u8>, ps: PState)
    ensures
        pm(s, p_factor(s, ps).1) <= pm(s, ps),
    decreases pm(s, ps), 1int,
{
    lemma_padv(s, ps);
    match ps.cur.token {
        SToken::Ident(_) => {
            let p1 = padv(s, ps);
            if p1.cur.token is LParen {
                lemma_mono_act(s, p1);
            }
        },
        SToken::LParen => {
            let p1 = padv(s, ps);
            lemma_mono_expr(s, p1);
            lemma_expect(s, p_expr(s, p1).1, SToken::RParen);
        },
        _ => {},
    }
}

proof fn lemma_mono_term_loop(s: Seq<u8>, ps: PState, acc: SExpr)
    ensures
        pm(s, p_term_loop(s, ps, acc).1) <= pm(s, ps),
    decreases pm(s, ps), 2int,
{
    if let Some(op) = mul_op(ps.cur.token) {
        lemma_padv(s, ps);
        lemma_mono_factor(s, padv(s, ps));
        let (r, p2) = p_factor(s, padv(s, ps));
        if let Some(r) = r {
            let e = SExpr::Binary { left: Box::new(acc), op, right: Box::new(r) };
            if pm(s, p2) < pm(s, ps) {
                lemma_mono_term_loop(s, p2, e);
            }
        }
    }
}

proof fn lemma_mono_term(s: Seq<u8>, ps: PState)
    ensures
        pm(s, p_term(s, ps).1) <= pm(s, ps),
    decreases pm(s, ps), 3int,
{
    lemma_mono_factor(s, ps);
    let (f, p1) = p_factor(s, ps);
    if let Some(f) = f {
        lemma_mono_term_loop(s, p1, f);
    }
}

proof fn lemma_mono_expr_loop(s: Seq<u8>, ps: PState, acc: SExpr)
    ensures
        pm(s, p_expr_loop(s, ps, acc).1) <= pm(s, ps),
    decreases pm(s, ps), 4int,
{
    if let Some(op) = add_op(ps.cur.token) {
        lemma_padv(s, ps);
        lemma_mono_term(s, padv(s, ps));
        let (r, p2) = p_term(s, padv(s, ps));
        if let Some(r) = r {
            let e = SExpr::Binary { left: Box::new(acc), op, right: Box::new(r) };
            if pm(s, p2) < pm(s, ps) {
                lemma_mono_expr_loop(s, p2, e);
            }
        }
    }
}

proof fn lemma_mono_expr(s: Seq<u8>, ps: PState)
    ensures
        pm(s, p_expr(s, ps).1) <= pm(s, ps),
    decreases pm(s, ps), 5int,
{
    match add_op(ps.cur.token) {
        Some(op) => {
            lemma_padv(s, ps);
            lemma_mono_term(s, padv(s, ps));
            let (t, p2) = p_term(s, padv(s, ps));
            if let Some(t) = t {
                let first = SExpr::Unary { op: unary_of(op), expr: Box::new(t) };
                lemma_mono_expr_loop(s, p2, first);
            }
        },
        None => {
            lemma_mono_term(s, ps);
            let (t, p1) = p_term(s, ps);
            if let Some(t) = t {
                lemma_mono_expr_loop(s, p1, t);
            }
        },
    }
}

proof fn lemma_mono_act_loop(s: Seq<u8>, ps: PState, acc: Seq<SExpr>)
    ensures
        pm(s, p_act_loop(s, ps, acc).1) <= pm(s, ps),
    decreases pm(s, ps), 6int,
{
    lemma_mono_expr(s, ps);
    let (e, p1) = p_expr(s, ps);
    if let Some(e) = e {
        if p1.cur.token is Comma {
            lemma_padv(s, p1);
            let p2 = padv(s, p1);
            if pm(s, p2) < pm(s, ps) {
                lemma_mono_act_loop(s, p2, acc.push(e));
            }
        }
    }
}

proof fn lemma_mono_act(s: Seq<u8>, ps: PState)
    ensures
        pm(s, p_act(s, ps).1) <= pm(s, ps),
    decreases pm(s, ps), 7int,
{
    lemma_expect(s, ps, SToken::LParen);
    let p1 = p_expect(s, ps, SToken::LParen);
    if !(p1.cur.token is RParen) {
        lemma_mono_act_loop(s, p1, seq![]);
        lemma_expect(s, p_act_loop(s, p1, seq![]).1, SToken::RParen);
    } else {
        lemma_expect(s, p1, SToken::RParen);
    }
}

proof fn lemma_mono_cond(s: Seq<u8>, ps: PState)
    ensures
        pm(s, p_cond(s, ps).1) <= pm(s, ps),
    decreases pm(s, ps), 8int,
{
    lemma_mono_expr(s, ps);
    let (l, p1) = p_expr(s, ps);
    if let Some(l) = l {
        lemma_relop(s, p1);
        let (op, p2) = p_relop(s, p1);
        if let Some(op) = op {
            lemma_mono_expr(s, p2);
        }
    }
}

proof fn lemma_mono_elseif(s: Seq<u8>, ps: PState, branches: Seq<(SCond, Seq<SStmt>)>)
    ensures
        pm(s, p_elseif(s, ps, branches).1) <= pm(s, ps),
    decreases pm(s, ps), 9int,
{
    if ps.cur.token is ElseIf {
        lemma_padv(s, ps);
        lemma_expect(s, padv(s, ps), SToken::LParen);
        let p2 = p_expect(s, padv(s, ps), SToken::LParen);
        lemma_mono_cond(s, p2);
        let (c, p3) = p_cond(s, p2);
        if let Some(c) = c {
            lemma_expect(s, p3, SToken::RParen);
            lemma_expect(s, p_expect(s, p3, SToken::RParen), SToken::LBrace);
            let p5 = p_expect(s, p_expect(s, p3, SToken::RParen), SToken::LBrace);
            if pm(s, p5) < pm(s, ps) {
                lemma_mono_stat_seq(s, p5, seq![]);
                let (body, p6) = p_stat_seq(s, p5, seq![]);
                lemma_expect(s, p6, SToken::RBrace);
                let p7 = p_expect(s, p6, SToken::RBrace);
                if pm(s, p7) < pm(s, ps) {
                    lemma_mono_elseif(s, p7, branches.push((c, body)));
                }
            }
        }
    }
}

proof fn lemma_mono_if(s: Seq<u8>, ps: PState)
    ensures
        pm(s, p_if(s, ps).1) <= pm(s, ps),
    decreases pm(s, ps), 9int,
{
    lemma_padv(s, ps);
    lemma_expect(s, padv(s, ps), SToken::LParen);
    let p2 = p_expect(s, padv(s, ps), SToken::LParen);
    lemma_mono_cond(s, p2);
    let (c, p3) = p_cond(s, p2);
    if let Some(c) = c {
        lemma_expect(s, p3, SToken::RParen);
        lemma_expect(s, p_expect(s, p3, SToken::RParen), SToken::LBrace);
        let p5 = p_expect(s, p_expect(s, p3, SToken::RParen), SToken::LBrace);
        if pm(s, p5) < pm(s, ps) {
            lemma_mono_stat_seq(s, p5, seq![]);
            let (body, p6) = p_stat_seq(s, p5, seq![]);
            lemma_expect(s, p6, SToken::RBrace);
            let p7 = p_expect(s, p6, SToken::RBrace);
            if pm(s, p7) < pm(s, ps) {
                lemma_mono_elseif(s, p7, seq![(c, body)]);
                let (br, p8) = p_elseif(s, p7, seq![(c, body)]);
                if br is Some && p8.cur.token is Else {
                    lemma_padv(s, p8);
                    lemma_expect(s, padv(s, p8), SToken::LBrace);
                    let p10 = p_expect(s, padv(s, p8), SToken::LBrace);
                    if pm(s, p10) < pm(s, ps) {
                        lemma_mono_stat_seq(s, p10, seq![]);
                        lemma_expect(s, p_stat_seq(s, p10, seq![]).1, SToken::RBrace);
                    }
                }
            }
        }
    }
}

proof fn lemma_mono_while(s: Seq<u8>, ps: PState)
    ensures
        pm(s, p_while(s, ps).1) <= pm(s, ps),
    decreases pm(s, ps), 9int,
{
    lemma_padv(s, ps);
    lemma_expect(s, padv(s, ps), SToken::LParen);
    let p2 = p_expect(s, padv(s, ps), SToken::LParen);
    lemma_mono_cond(s, p2);
    let (c, p3) = p_cond(s, p2);
    if let Some(c) = c {
        lemma_expect(s, p3, SToken::RParen);
        lemma_expect(s, p_expect(s, p3, SToken::RParen), SToken::LBrace);
        let p5 = p_expect(s, p_expect(s, p3, SToken::RParen), SToken::LBrace);
        if pm(s, p5) < pm(s, ps) {
            lemma_mono_stat_seq(s, p5, seq![]);
            lemma_expect(s, p_stat_seq(s, p5, seq![]).1, SToken::RBrace);
        }
    }
}

proof fn lemma_mono_stmt(s: Seq<u8>, ps: PState)
    ensures
        pm(s, p_stmt(s, ps).1) <= pm(s, ps),
    decreases pm(s, ps), 10int,
{
    lemma_padv(s, ps);
    match ps.cur.token {
        SToken::Ident(_) => {
            let p1 = padv(s, ps);
            if p1.cur.token is Assign {
                lemma_padv(s, p1);
                lemma_mono_expr(s, padv(s, p1));
                lemma_expect(s, p_expr(s, padv(s, p1)).1, SToken::Semicolon);
            } else {
                lemma_mono_act(s, p1);
                lemma_expect(s, p_act(s, p1).1, SToken::Semicolon);
            }
        },
        SToken::If => {
            lemma_mono_if(s, ps);
        },
        SToken::While => {
            lemma_mono_while(s, ps);
        },
        SToken::Return => {
            let p1 = padv(s, ps);
            if !(p1.cur.token is Semicolon) {
                lemma_mono_expr(s, p1);
                lemma_expect(s, p_expr(s, p1).1, SToken::Semicolon);
            } else {
                lemma_expect(s, p1, SToken::Semicolon);
            }
        },
        _ => {},
    }
}

proof fn lemma_mono_stat_seq(s: Seq<u8>, ps: PState, acc: Seq<SStmt>)
    ensures
        pm(s, p_stat_seq(s, ps, acc).1) <= pm(s, ps),
    decreases pm(s, ps), 11int,
{
    if !(ps.cur.token is RBrace || ps.cur.token is EOF) {
        lemma_mono_stmt(s, ps);
        let (st, p1) = p_stmt(s, ps);
        match st {
            Some(x) => if pm(s, p1) < pm(s, ps) {
                lemma_mono_stat_seq(s, p1, acc.push(x));
            },
            None => {
                lemma_sync_stmt(s, p1);
                let p2 = p_sync_stmt(s, p1);
                if pm(s, p2) < pm(s, ps) {
                    lemma_mono_stat_seq(s, p2, acc);
                }
            },
        }
    }
}

proof fn lemma_mono_decl(s: Seq<u8>, ps: PState)
    ensures
        pm(s, p_decl(s, ps).1) <= pm(s, ps),
        ps.cur.token is Var || ps.cur.token is Fn ==> pm(s, p_decl(s, ps).1) < pm(s, ps),
        p_decl(s, ps).0 is Some ==> (ps.cur.token is Var || ps.cur.token is Fn),
    decreases pm(s, ps), 1int,
{
    lemma_padv(s, ps);
    match ps.cur.token {
        SToken::Var => {
            let p1 = padv(s, ps);
            lemma_expect_ident(s, p1);
            let (name, p2) = p_expect_ident(s, p1);
            lemma_expect(s, p2, SToken::Colon);
            let p3 = p_expect(s, p2, SToken::Colon);
            lemma_expect_ident(s, p3);
            let (ty, p4) = p_expect_ident(s, p3);
            lemma_expect(s, p4, SToken::Semicolon);
        },
        SToken::Fn => {
            let p1 = padv(s, ps);
            lemma_expect_ident(s, p1);
            let (name, p2) = p_expect_ident(s, p1);
            lemma_params(s, p2);
            let (params, ret, p3) = p_params(s, p2);
            lemma_expect(s, p3, SToken::LBrace);
            let p4 = p_expect(s, p3, SToken::LBrace);
            if pm(s, p4) < pm(s, ps) {
                lemma_mono_locals(s, p4, seq![]);
                let (locals, p5) = p_locals(s, p4, seq![]);
                lemma_mono_stat_seq(s, p5, seq![]);
                let (body, p6) = p_stat_seq(s, p5, seq![]);
                lemma_expect(s, p6, SToken::RBrace);
            }
        },
        _ => {},
    }
}

proof fn lemma_mono_locals(s: Seq<u8>, ps: PState, acc: Seq<SVarDecl>)
    ensures
        pm(s, p_locals(s, ps, acc).1) <= pm(s, ps),
    decreases pm(s, ps), 2int,
{
    if ps.cur.token is Var {
        lemma_mono_decl(s, ps);
        let (d, p1) = p_decl(s, ps);
        match d {
            Some(SDecl::Var(v)) => if pm(s, p1) < pm(s, ps) {
                lemma_mono_locals(s, p1, acc.push(v));
            },
            _ => {
                lemma_sync_decl(s, p1);
                let p2 = p_sync_decl(s, p1);
                if pm(s, p2) < pm(s, ps) {
                    lemma_mono_locals(s, p2, acc);
                }
            },
        }
    }
}

/// The parser reads the whole input: whatever the input holds, parsing a
/// program ends at the end marker, having recovered from each error.
pub proof fn lemma_program_reaches_end(s: Seq<u8>, ps: PState, decls: Seq<SDecl>)
    ensures
        p_program(s, ps, decls).1.cur.token is EOF,
    decreases pm(s, ps),
{
    if !(ps.cur.token is EOF) {
        lemma_mono_decl(s, ps);
        let (d, p1) = p_decl(s, ps);
        match d {
            Some(d) => {
                lemma_program_reaches_end(s, p1, decls.push(d));
            },
            None => {
                lemma_sync_decl(s, p1);
                let p2 = p_sync_decl(s, p1);
                lemma_program_reaches_end(s, p2, decls);
            },
        }
    }
}

// ---------------------------------------------------------------------------
// The parser
// ---------------------------------------------------------------------------

/// Whether a declaration can begin with the token (`var` or `fn`).
pub fn is_declaration_start(tok: &Token) -> (r: bool)
    ensures
        r == (tok@ is Var || tok@ is Fn),
{
    match tok {
        Token::Var | Token::Fn => true,
        _ => false,
    }
}

fn token_kind(t: &Token) -> (r: u8)
    ensures
        r as int == kind_index(t@),
{
    match t {
        Token::Ident(_) => 0,
        Token::Number(_) => 1,
        Token::Char(_) => 2,
        Token::Var => 3,
        Token::Fn => 4,
        Token::If => 5,
        Token::ElseIf => 6,
        Token::Else => 7,
        Token::While => 8,
        Token::Return => 9,
        Token::LParen => 10,
        Token::RParen => 11,
        Token::LBrace => 12,
        Token::RBrace => 13,
        Token::Colon => 14,
        Token::Semicolon => 15,
        Token::Comma => 16,
        Token::Assign => 17,
        Token::Neq => 18,
        Token::Lt => 19,
        Token::Gt => 20,
        Token::Le => 21,
        Token::Ge => 22,
        Token::Plus => 23,
        Token::Minus => 24,
        Token::Star => 25,
        Token::Slash => 26,
        Token::Percent => 27,
        Token::EOF => 28,
    }
}

/// A parser over the tokens of a scanner, with the current token and the errors so far.
pub struct Parser<'a> {
    scanner: Scanner<'a>,
    current: SpannedToken,
    errors: Vec<ParseError>,
}

impl<'a> Parser<'a> {
    /// The bytes being parsed.
    pub closed spec fn text(&self) -> Seq<u8> {
        self.scanner.text()
    }

    /// The parser's state.
    pub closed spec fn pstate(&self) -> PState {
        PState { st: self.scanner.state(), cur: self.current@, errs: errs_view(self.errors@) }
    }

    /// The scanner is sound, and every number still ahead fits in an `i64`.
    pub closed spec fn wf(&self) -> bool {
        &&& self.scanner.wf()
        &&& fits_from(self.scanner.text(), self.scanner.state())
    }

    /// A parser that reads the tokens `scanner` yields; it takes the first one at once.
    pub fn new(scanner: Scanner<'a>) -> (r: Self)
        requires
            scanner.wf(),
            fits_from(scanner.text(), scanner.state()),
        ensures
            r.wf(),
            r.text() == scanner.text(),
            r.pstate() == p_start(scanner.text(), scanner.state()),
    {
        let mut scanner = scanner;
        proof {
            lemma_fits_step(scanner.text(), scanner.state());
        }
        let current = scanner.next_token();
        let errors: Vec<ParseError> = Vec::new();
        let r = Self { scanner, current, errors };
        assert(errs_view(r.errors@) =~= seq![]);
        r
    }

    fn advance(&mut self)
        requires
            old(self).wf(),
        ensures
            final(self).wf(),
            final(self).text() == old(self).text(),
            final(self).pstate() == padv(old(self).text(), old(self).pstate()),
    {
        proof {
            lemma_fits_step(self.text(), self.scanner.state());
        }
        self.current = self.scanner.next_token();
    }

    fn error(&mut self, msg: String)
        requires
            old(self).wf(),
        ensures
            final(self).wf(),
            final(self).text() == old(self).text(),
            final(self).pstate() == perr(old(self).pstate(), msg@),
    {
        let e = ParseError { message: msg, line: self.current.line, col: self.current.col };
        self.errors.push(e);
        assert(errs_view(self.errors@) =~= errs_view(old(self).errors@).push(e@));
    }

    fn expect(&mut self, expected: Token)
        requires
            old(self).wf(),
        ensures
            final(self).wf(),
            final(self).text() == old(self).text(),
            final(self).pstate() == p_expect(old(self).text(), old(self).pstate(), expected@),
    {
        if token_kind(&self.current.token) == token_kind(&expected) {
            self.advance();
        } else {
            let mut msg = text_of("Expected ");
            let e = expected.debug_text();
            msg.append(e.as_str());
            msg.append(", got ");
            let g = self.current.token.debug_text();
            msg.append(g.as_str());
            self.error(msg);
            self.advance();
        }
    }

    fn synchronize_statement(&mut self)
        requires
            old(self).wf(),
        ensures
            final(self).wf(),
            final(self).text() == old(self).text(),
            final(self).pstate() == p_sync_stmt(old(self).text(), old(self).pstate()),
    {
        let ghost s = self.text();
        let ghost target = p_sync_stmt(s, self.pstate());
        while !(matches!(self.current.token, Token::Semicolon) || matches!(
            self.current.token,
            Token::RBrace
        ) || matches!(self.current.token, Token::EOF))
            invariant
                self.wf(),
                self.text() == s,
                p_sync_stmt(s, self.pstate()) == target,
            decreases pm(s, self.pstate()),
        {
            proof {
                lemma_padv(s, self.pstate());
            }
            self.advance();
        }
        if matches!(self.current.token, Token::Semicolon) {
            self.advance();
        }
    }

    fn synchronize_declaration(&mut self)
        requires
            old(self).wf(),
        ensures
            final(self).wf(),
            final(self).text() == old(self).text(),
            final(self).pstate() == p_sync_decl(old(self).text(), old(self).pstate()),
    {
        let ghost s = self.text();
        let ghost target = p_sync_decl(s, self.pstate());
        while !is_declaration_start(&self.current.token) && !matches!(
            self.current.token,
            Token::EOF
        )
            invariant
                self.wf(),
                self.text() == s,
                p_sync_decl(s, self.pstate()) == target,
            decreases pm(s, self.pstate()),
        {
            proof {
                lemma_padv(s, self.pstate());
            }
            self.advance();
        }
    }

    fn expect_ident(&mut self) -> (r: String)
        requires
            old(self).wf(),
        ensures
            final(self).wf(),
            final(self).text() == old(self).text(),
            (r@, final(self).pstate()) == p_expect_ident(old(self).text(), old(self).pstate()),
    {
        let name: Option<String> = match &self.current.token {
            Token::Ident(s) => Some(s.clone()),
            _ => None,
        };
        match name {
            Some(s) => {
                self.advance();
                s
            },
            None => {
                self.error(text_of("Expected identifier"));
                String::new()
            },
        }
    }

    /// Parses the whole program: the declarations, or every error found.
    pub fn parse_program(&mut self) -> (r: Result<Vec<Declaration>, Vec<ParseError>>)
        requires
            old(self).wf(),
        ensures
            final(self).wf(),
            final(self).text() == old(self).text(),
            final(self).pstate().cur.token is EOF,
            ({
                let (decls, p) = p_parse(old(self).text(), old(self).pstate());
                &&& final(self).pstate() == p
                &&& match r {
                    Ok(d) => p.errs.len() == 0 && decls_view(d@) == decls,
                    Err(e) => p.errs.len() > 0 && errs_view(e@) == p.errs,
                }
            }),
            match r {
                Ok(d) => parse_outcome(old(self).text(), old(self).pstate()) == Ok::<
                    Seq<SDecl>,
                    Seq<SParseError>,
                >(decls_view(d@)),
                Err(e) => parse_outcome(old(self).text(), old(self).pstate()) == Err::<
                    Seq<SDecl>,
                    Seq<SParseError>,
                >(errs_view(e@)),
            },
    {
        let ghost s = self.text();
        let ghost target = p_program(s, self.pstate(), seq![]);
        let mut decls: Vec<Declaration> = Vec::new();
        assert(decls_view(decls@) =~= seq![]);
        while !matches!(self.current.token, Token::EOF)
            invariant
                self.wf(),
                self.text() == s,
                p_program(s, self.pstate(), decls_view(decls@)) == target,
                s == old(self).text(),
            decreases pm(s, self.pstate()),
        {
            let ghost before = self.pstate();
            let ghost dv = decls_view(decls@);
            let d = self.parse_declaration();
            match d {
                Some(d) => {
                    decls.push(d);
                    assert(decls_view(decls@) =~= dv.push(decl_view(d)));
                },
                None => {
                    let ghost p1 = self.pstate();
                    self.synchronize_declaration();
                    proof {
                        lemma_sync_decl(s, p1);
                    }
                },
            }
        }
        proof {
            assert(target == p_program(s, self.pstate(), decls_view(decls@)));
        }
        if decls.len() == 0 {
            self.error(text_of("Expected declaration"));
        }
        if self.errors.len() == 0 {
            Ok(decls)
        } else {
            let errs = self.errors.clone();
            assert(errs_view(errs@) =~= errs_view(self.errors@));
            Err(errs)
        }
    }

    fn parse_declaration(&mut self) -> (r: Option<Declaration>)
        requires
            old(self).wf(),
        ensures
            final(self).wf(),
            final(self).text() == old(self).text(),
            (opt_decl_view(r), final(self).pstate()) == p_decl(
                old(self).text(),
                old(self).pstate(),
            ),
            pm(old(self).text(), final(self).pstate()) <= pm(old(self).text(), old(self).pstate()),
            (old(self).pstate().cur.token is Var || old(self).pstate().cur.token is Fn) ==> pm(
                old(self).text(),
                final(self).pstate(),
            ) < pm(old(self).text(), old(self).pstate()),
        decreases pm(old(self).text(), old(self).pstate()), 1int,
    {
        let ghost s = self.text();
        let ghost p0 = self.pstate();
        if matches!(self.current.token, Token::Var) {
            proof {
                lemma_padv(s, p0);
            }
            self.advance();
            let ghost p1 = self.pstate();
            let name = self.expect_ident();
            let ghost p2 = self.pstate();
            self.expect(Token::Colon);
            let ghost p3 = self.pstate();
            let ty = self.expect_ident();
            let ghost p4 = self.pstate();
            self.expect(Token::Semicolon);
            proof {
                lemma_expect_ident(s, p1);
                lemma_expect(s, p2, SToken::Colon);
                lemma_expect_ident(s, p3);
                lemma_expect(s, p4, SToken::Semicolon);
            }
            let typ = Type::from_name(&ty);
            Some(Declaration::Var(VarDecl { name, typ, loc: None }))
        } else if matches!(self.current.token, Token::Fn) {
            proof {
                lemma_padv(s, p0);
            }
            self.advance();
            let ghost p1 = self.pstate();
            let name = self.expect_ident();
            let ghost p2 = self.pstate();
            let (params, ret) = self.parse_parameters();
            let ghost p3 = self.pstate();
            self.expect(Token::LBrace);
            proof {
                lemma_expect_ident(s, p1);
                lemma_params(s, p2);
                lemma_expect(s, p3, SToken::LBrace);
            }
            let ghost p4 = self.pstate();
            let mut locals: Vec<VarDecl> = Vec::new();
            assert(vardecls_view(locals@) =~= seq![]);
            while matches!(self.current.token, Token::Var)
                invariant
                    self.wf(),
                    self.text() == s,
                    pm(s, self.pstate()) <= pm(s, p4),
                    pm(s, p4) < pm(s, p0),
                    s == old(self).text(),
                    p0 == old(self).pstate(),
                    p_locals(s, self.pstate(), vardecls_view(locals@)) == p_locals(
                        s,
                        p4,
                        seq![],
                    ),
                decreases pm(s, self.pstate()),
            {
                let ghost before = self.pstate();
                let ghost lv = vardecls_view(locals@);
                let d = self.parse_declaration();
                match d {
                    Some(Declaration::Var(v)) => {
                        locals.push(v);
                        assert(vardecls_view(locals@) =~= lv.push(vardecl_view(v)));
                    },
                    _ => {
                        let ghost p1 = self.pstate();
                        self.synchronize_declaration();
                        proof {
                            lemma_sync_decl(s, p1);
                        }
                    },
                }
            }
            let ghost p5 = self.pstate();
            let body = self.parse_stat_seq();
            let ghost p6 = self.pstate();
            self.expect(Token::RBrace);
            proof {
                lemma_expect(s, p6, SToken::RBrace);
            }
            Some(Declaration::Fn(FuncDecl { name, params, ret, locals, body }))
        } else {
            self.error(text_of("Expected declaration"));
            None
        }
    }

    fn parse_parameters(&mut self) -> (r: (Vec<VarDecl>, Type))
        requires
            old(self).wf(),
        ensures
            final(self).wf(),
            final(self).text() == old(self).text(),
            (vardecls_view(r.0@), r.1, final(self).pstate()) == p_params(
                old(self).text(),
                old(self).pstate(),
            ),
    {
        let ghost s = self.text();
        let mut params: Vec<VarDecl> = Vec::new();
        self.expect(Token::LParen);
        let ghost p1 = self.pstate();
        assert(vardecls_view(params@) =~= seq![]);
        if !matches!(self.current.token, Token::RParen) {
            loop
                invariant_except_break
                    p_param_loop(s, self.pstate(), vardecls_view(params@)) == p_param_loop(
                        s,
                        p1,
                        seq![],
                    ),
                invariant
                    self.wf(),
                    self.text() == s,
                    s == old(self).text(),
                    !(p1.cur.token is RParen),
                ensures
                    self.wf(),
                    self.text() == s,
                    (vardecls_view(params@), self.pstate()) == p_param_loop(s, p1, seq![]),
                decreases pm(s, self.pstate()),
            {
                let ghost q0 = self.pstate();
                let ghost pv = vardecls_view(params@);
                let name = self.expect_ident();
                let ghost q1 = self.pstate();
                self.expect(Token::Colon);
                let ghost q2 = self.pstate();
                let ty = self.expect_ident();
                let ghost q3 = self.pstate();
                let typ = Type::from_name(&ty);
                let v = VarDecl { name, typ, loc: None };
                params.push(v);
                assert(vardecls_view(params@) =~= pv.push(vardecl_view(v)));
                if !matches!(self.current.token, Token::Comma) {
                    break ;
                }
                proof {
                    lemma_expect_ident(s, q0);
                    lemma_expect(s, q1, SToken::Colon);
                    lemma_expect_ident(s, q2);
                    lemma_padv(s, q3);
                }
                self.advance();
            }
        }
        let ghost p2 = self.pstate();
        self.expect(Token::RParen);
        let ret: Type = if matches!(self.current.token, Token::Colon) {
            self.advance();
            let t = self.expect_ident();
            Type::from_name(&t)
        } else {
            Type::Void
        };
        (params, ret)
    }

    fn parse_stat_seq(&mut self) -> (r: Vec<Statement>)
        requires
            old(self).wf(),
        ensures
            final(self).wf(),
            final(self).text() == old(self).text(),
            (stmts_view(r@), final(self).pstate()) == p_stat_seq(
                old(self).text(),
                old(self).pstate(),
                seq![],
            ),
            pm(old(self).text(), final(self).pstate()) <= pm(old(self).text(), old(self).pstate()),
        decreases pm(old(self).text(), old(self).pstate()), 11int,
    {
        let ghost s = self.text();
        let ghost p0 = self.pstate();
        let mut stmts: Vec<Statement> = Vec::new();
        assert(stmts_view(stmts@) =~= seq![]);
        while !matches!(self.current.token, Token::RBrace) && !matches!(
            self.current.token,
            Token::EOF
        )
            invariant
                self.wf(),
                self.text() == s,
                pm(s, self.pstate()) <= pm(s, p0),
                s == old(self).text(),
                p0 == old(self).pstate(),
                p_stat_seq(s, self.pstate(), stmts_view(stmts@)) == p_stat_seq(s, p0, seq![]),
            decreases pm(s, self.pstate()),
        {
            let ghost before = self.pstate();
            let ghost sv = stmts_view(stmts@);
            let st = self.parse_statement();
            match st {
                Some(x) => {
                    proof {
                        lemma_stmts_view_push(stmts@, x);
                    }
                    stmts.push(x);
                },
                None => {
                    let ghost p1 = self.pstate();
                    self.synchronize_statement();
                    proof {
                        lemma_sync_stmt(s, p1);
                    }
                },
            }
        }
        stmts
    }

    #[verifier::rlimit(60)]
    fn parse_statement(&mut self) -> (r: Option<Statement>)
        requires
            old(self).wf(),
        ensures
            final(self).wf(),
            final(self).text() == old(self).text(),
            (opt_stmt_view(r), final(self).pstate()) == p_stmt(
                old(self).text(),
                old(self).pstate(),
            ),
            pm(old(self).text(), final(self).pstate()) <= pm(old(self).text(), old(self).pstate()),
            starts_statement(old(self).pstate().cur.token) ==> pm(
                old(self).text(),
                final(self).pstate(),
            ) < pm(old(self).text(), old(self).pstate()),
            !starts_statement(old(self).pstate().cur.token) ==> r is None && final(self).pstate()
                == perr(old(self).pstate(), "Invalid statement"@),
        decreases pm(old(self).text(), old(self).pstate()), 10int,
    {
        let ghost s = self.text();
        let ghost p0 = self.pstate();
        let ident: Option<String> = match &self.current.token {
            Token::Ident(n) => Some(n.clone()),
            _ => None,
        };
        if let Some(name) = ident {
            proof {
                lemma_padv(s, p0);
            }
            self.advance();
            let ghost p1 = self.pstate();
            if matches!(self.current.token, Token::Assign) {
                proof {
                    lemma_padv(s, p1);
                }
                self.advance();
                let e = self.parse_expression();
                match e {
                    None => None,
                    Some(e) => {
                        let ghost p3 = self.pstate();
                        self.expect(Token::Semicolon);
                        proof {
                            lemma_expect(s, p3, SToken::Semicolon);
                        }
                        Some(Statement::Assign { name, loc: None, expr: e })
                    },
                }
            } else {
                let a = self.parse_act_parameters();
                match a {
                    None => None,
                    Some(args) => {
                        let ghost p2 = self.pstate();
                        self.expect(Token::Semicolon);
                        proof {
                            lemma_expect(s, p2, SToken::Semicolon);
                        }
                        Some(Statement::Call(name, args))
                    },
                }
            }
        } else if matches!(self.current.token, Token::If) {
            self.parse_if()
        } else if matches!(self.current.token, Token::While) {
            self.parse_while()
        } else if matches!(self.current.token, Token::Return) {
            proof {
                lemma_padv(s, p0);
            }
            self.advance();
            let ghost p1 = self.pstate();
            if !matches!(self.current.token, Token::Semicolon) {
                let e = self.parse_expression();
                match e {
                    None => None,
                    Some(e) => {
                        let ghost p2 = self.pstate();
                        self.expect(Token::Semicolon);
                        proof {
                            lemma_expect(s, p2, SToken::Semicolon);
                        }
                        Some(Statement::Return(Some(e)))
                    },
                }
            } else {
                self.expect(Token::Semicolon);
                proof {
                    lemma_expect(s, p1, SToken::Semicolon);
                }
                Some(Statement::Return(None))
            }
        } else {
            self.error(text_of("Invalid statement"));
            None
        }
    }

    /// The `if` statement, from its keyword on.
    #[verifier::rlimit(40)]
    fn parse_if(&mut self) -> (r: Option<Statement>)
        requires
            old(self).wf(),
            old(self).pstate().cur.token is If,
        ensures
            final(self).wf(),
            final(self).text() == old(self).text(),
            (opt_stmt_view(r), final(self).pstate()) == p_if(
                old(self).text(),
                old(self).pstate(),
            ),
            pm(old(self).text(), final(self).pstate()) < pm(old(self).text(), old(self).pstate()),
        decreases pm(old(self).text(), old(self).pstate()), 9int,
    {
        let ghost s = self.text();
        let ghost p0 = self.pstate();
        proof {
            lemma_padv(s, p0);
        }
        self.advance();
        let ghost p1 = self.pstate();
        self.expect(Token::LParen);
        proof {
            lemma_expect(s, p1, SToken::LParen);
        }
        let c = self.parse_condition();
        let cond = match c {
            None => {
                return None;
            },
            Some(c) => c,
        };
        let ghost p3 = self.pstate();
        self.expect(Token::RParen);
        let ghost p4 = self.pstate();
        self.expect(Token::LBrace);
        proof {
            lemma_expect(s, p3, SToken::RParen);
            lemma_expect(s, p4, SToken::LBrace);
        }
        let body = self.parse_stat_seq();
        let ghost p6 = self.pstate();
        self.expect(Token::RBrace);
        proof {
            lemma_expect(s, p6, SToken::RBrace);
        }
        let ghost p7 = self.pstate();
        let ghost first = (cond_view(cond), stmts_view(body@));
        let mut branches: Vec<(Condition, Vec<Statement>)> = Vec::new();
        let ghost c0 = cond;
        let ghost b0 = body;
        branches.push((cond, body));
        proof {
            lemma_branches_view_push(seq![], (c0, b0));
            assert(seq![(c0, b0)] =~= branches@);
            assert(branches_view(seq![]) =~= seq![]);
            assert(branches_view(branches@) =~= seq![first]);
        }
        let branches = match self.parse_elseif_branches(branches) {
            None => {
                return None;
            },
            Some(b) => b,
        };
        let else_branch = if matches!(self.current.token, Token::Else) {
            let ghost p8 = self.pstate();
            proof {
                lemma_padv(s, p8);
            }
            self.advance();
            let ghost p9 = self.pstate();
            self.expect(Token::LBrace);
            proof {
                lemma_expect(s, p9, SToken::LBrace);
            }
            let eb = self.parse_stat_seq();
            let ghost p11 = self.pstate();
            self.expect(Token::RBrace);
            proof {
                lemma_expect(s, p11, SToken::RBrace);
            }
            Some(eb)
        } else {
            None
        };
        Some(Statement::If { branches, else_branch })
    }

    /// The `elseif` branches that follow the first branch of an `if`.
    #[verifier::rlimit(60)]
    fn parse_elseif_branches(&mut self, branches: Vec<(Condition, Vec<Statement>)>) -> (r: Option<
        Vec<(Condition, Vec<Statement>)>,
    >)
        requires
            old(self).wf(),
        ensures
            final(self).wf(),
            final(self).text() == old(self).text(),
            (match r {
                Some(b) => Some(branches_view(b@)),
                None => None,
            }, final(self).pstate()) == p_elseif(
                old(self).text(),
                old(self).pstate(),
                branches_view(branches@),
            ),
            pm(old(self).text(), final(self).pstate()) <= pm(old(self).text(), old(self).pstate()),
        decreases pm(old(self).text(), old(self).pstate()), 9int,
    {
        let ghost s = self.text();
        let ghost p0 = self.pstate();
        let ghost b0 = branches_view(branches@);
        let mut acc = branches;
        while matches!(self.current.token, Token::ElseIf)
            invariant
                self.wf(),
                self.text() == s,
                pm(s, self.pstate()) <= pm(s, p0),
                s == old(self).text(),
                p0 == old(self).pstate(),
                b0 == branches_view(branches@),
                p_elseif(s, self.pstate(), branches_view(acc@)) == p_elseif(
                    s,
                    p0,
                    b0,
                ),
            decreases pm(s, self.pstate()),
        {
            let ghost q0 = self.pstate();
            let ghost bv = branches_view(acc@);
            proof {
                lemma_padv(s, q0);
            }
            self.advance();
            let ghost q1 = self.pstate();
            self.expect(Token::LParen);
            proof {
                lemma_expect(s, q1, SToken::LParen);
            }
            let ghost q2 = self.pstate();
            let c = self.parse_condition();
            proof {
                assert(c is None ==> p_elseif(s, q0, bv) == (
                    None::<Seq<(SCond, Seq<SStmt>)>>,
                    self.pstate(),
                ));
            }
            let cond = match c {
                None => {
                    return None;
                },
                Some(c) => c,
            };
            let ghost q3 = self.pstate();
            self.expect(Token::RParen);
            let ghost q4 = self.pstate();
            self.expect(Token::LBrace);
            proof {
                lemma_expect(s, q3, SToken::RParen);
                lemma_expect(s, q4, SToken::LBrace);
            }
            let body = self.parse_stat_seq();
            let ghost q6 = self.pstate();
            self.expect(Token::RBrace);
            proof {
                lemma_expect(s, q6, SToken::RBrace);
            }
            let ghost c1 = cond;
            let ghost b1 = body;
            proof {
                lemma_branches_view_push(acc@, (c1, b1));
            }
            acc.push((cond, body));
        }
        Some(acc)
    }

    /// The `while` statement, from its keyword on.
    fn parse_while(&mut self) -> (r: Option<Statement>)
        requires
            old(self).wf(),
            old(self).pstate().cur.token is While,
        ensures
            final(self).wf(),
            final(self).text() == old(self).text(),
            (opt_stmt_view(r), final(self).pstate()) == p_while(
                old(self).text(),
                old(self).pstate(),
            ),
            pm(old(self).text(), final(self).pstate()) < pm(old(self).text(), old(self).pstate()),
        decreases pm(old(self).text(), old(self).pstate()), 9int,
    {
        let ghost s = self.text();
        let ghost p0 = self.pstate();
        proof {
            lemma_padv(s, p0);
        }
        self.advance();
        let ghost p1 = self.pstate();
        self.expect(Token::LParen);
        proof {
            lemma_expect(s, p1, SToken::LParen);
        }
        let c = self.parse_condition();
        let cond = match c {
            None => {
                return None;
            },
            Some(c) => c,
        };
        let ghost p3 = self.pstate();
        self.expect(Token::RParen);
        let ghost p4 = self.pstate();
        self.expect(Token::LBrace);
        proof {
            lemma_expect(s, p3, SToken::RParen);
            lemma_expect(s, p4, SToken::LBrace);
        }
        let body = self.parse_stat_seq();
        let ghost p6 = self.pstate();
        self.expect(Token::RBrace);
        proof {
            lemma_expect(s, p6, SToken::RBrace);
        }
        Some(Statement::While { cond, body })
    }

    fn parse_condition(&mut self) -> (r: Option<Condition>)
        requires
            old(self).wf(),
        ensures
            final(self).wf(),
            final(self).text() == old(self).text(),
            (opt_cond_view(r), final(self).pstate()) == p_cond(
                old(self).text(),
                old(self).pstate(),
            ),
            pm(old(self).text(), final(self).pstate()) <= pm(old(self).text(), old(self).pstate()),
        decreases pm(old(self).text(), old(self).pstate()), 8int,
    {
        let ghost s = self.text();
        let left = match self.parse_expression() {
            None => {
                return None;
            },
            Some(l) => l,
        };
        let ghost p1 = self.pstate();
        proof {
            lemma_relop(s, p1);
        }
        let op = match self.parse_relop() {
            None => {
                return None;
            },
            Some(op) => op,
        };
        let right = match self.parse_expression() {
            None => {
                return None;
            },
            Some(r) => r,
        };
        Some(Condition { left, op, right })
    }

    fn parse_relop(&mut self) -> (r: Option<RelOp>)
        requires
            old(self).wf(),
        ensures
            final(self).wf(),
            final(self).text() == old(self).text(),
            (r, final(self).pstate()) == p_relop(old(self).text(), old(self).pstate()),
    {
        let op = match self.current.token {
            Token::Assign => RelOp::Eq,
            Token::Neq => RelOp::Neq,
            Token::Lt => RelOp::Lt,
            Token::Gt => RelOp::Gt,
            Token::Le => RelOp::Le,
            Token::Ge => RelOp::Ge,
            _ => {
                self.error(text_of("Expected relop"));
                return None;
            },
        };
        self.advance();
        Some(op)
    }

    fn parse_expression(&mut self) -> (r: Option<Expr>)
        requires
            old(self).wf(),
        ensures
            final(self).wf(),
            final(self).text() == old(self).text(),
            (opt_expr_view(r), final(self).pstate()) == p_expr(
                old(self).text(),
                old(self).pstate(),
            ),
            pm(old(self).text(), final(self).pstate()) <= pm(old(self).text(), old(self).pstate()),
        decreases pm(old(self).text(), old(self).pstate()), 5int,
    {
        let ghost s = self.text();
        let ghost p0 = self.pstate();
        let sign: Option<UnaryOp> = match self.current.token {
            Token::Plus => Some(UnaryOp::Plus),
            Token::Minus => Some(UnaryOp::Minus),
            _ => None,
        };
        let mut expr = match sign {
            Some(op) => {
                proof {
                    lemma_padv(s, p0);
                }
                self.advance();
                match self.parse_term() {
                    None => {
                        return None;
                    },
                    Some(t) => Expr::Unary { op, expr: Box::new(t) },
                }
            },
            None => match self.parse_term() {
                None => {
                    return None;
                },
                Some(t) => t,
            },
        };
        let ghost p1 = self.pstate();
        let ghost first = expr_view(expr);
        while matches!(self.current.token, Token::Plus) || matches!(
            self.current.token,
            Token::Minus
        )
            invariant
                self.wf(),
                self.text() == s,
                pm(s, self.pstate()) <= pm(s, p0),
                s == old(self).text(),
                p0 == old(self).pstate(),
                p_expr_loop(s, self.pstate(), expr_view(expr)) == p_expr_loop(s, p1, first),
                p_expr(s, p0) == p_expr_loop(s, p1, first),
            decreases pm(s, self.pstate()),
        {
            let ghost q0 = self.pstate();
            let op = if matches!(self.current.token, Token::Plus) {
                BinaryOp::Add
            } else {
                BinaryOp::Sub
            };
            proof {
                lemma_padv(s, q0);
            }
            self.advance();
            let right = match self.parse_term() {
                None => {
                    return None;
                },
                Some(r) => r,
            };
            expr = Expr::Binary { left: Box::new(expr), op, right: Box::new(right) };
        }
        Some(expr)
    }

    fn parse_term(&mut self) -> (r: Option<Expr>)
        requires
            old(self).wf(),
        ensures
            final(self).wf(),
            final(self).text() == old(self).text(),
            (opt_expr_view(r), final(self).pstate()) == p_term(
                old(self).text(),
                old(self).pstate(),
            ),
            pm(old(self).text(), final(self).pstate()) <= pm(old(self).text(), old(self).pstate()),
        decreases pm(old(self).text(), old(self).pstate()), 3int,
    {
        let ghost s = self.text();
        let ghost p0 = self.pstate();
        let mut expr = match self.parse_factor() {
            None => {
                return None;
            },
            Some(f) => f,
        };
        let ghost p1 = self.pstate();
        let ghost first = expr_view(expr);
        while matches!(self.current.token, Token::Star) || matches!(
            self.current.token,
            Token::Slash
        ) || matches!(self.current.token, Token::Percent)
            invariant
                self.wf(),
                self.text() == s,
                pm(s, self.pstate()) <= pm(s, p0),
                s == old(self).text(),
                p0 == old(self).pstate(),
                p_term_loop(s, self.pstate(), expr_view(expr)) == p_term_loop(s, p1, first),
                p_term(s, p0) == p_term_loop(s, p1, first),
            decreases pm(s, self.pstate()),
        {
            let ghost q0 = self.pstate();
            let op = if matches!(self.current.token, Token::Star) {
                BinaryOp::Mul
            } else if matches!(self.current.token, Token::Slash) {
                BinaryOp::Div
            } else {
                BinaryOp::Mod
            };
            proof {
                lemma_padv(s, q0);
            }
            self.advance();
            let right = match self.parse_factor() {
                None => {
                    return None;
                },
                Some(r) => r,
            };
            expr = Expr::Binary { left: Box::new(expr), op, right: Box::new(right) };
        }
        Some(expr)
    }

    fn parse_factor(&mut self) -> (r: Option<Expr>)
        requires
            old(self).wf(),
        ensures
            final(self).wf(),
            final(self).text() == old(self).text(),
            (opt_expr_view(r), final(self).pstate()) == p_factor(
                old(self).text(),
                old(self).pstate(),
            ),
            pm(old(self).text(), final(self).pstate()) <= pm(old(self).text(), old(self).pstate()),
        decreases pm(old(self).text(), old(self).pstate()), 1int,
    {
        let ghost s = self.text();
        let ghost p0 = self.pstate();
        proof {
            lemma_padv(s, p0);
        }
        let ident: Option<String> = match &self.current.token {
            Token::Ident(n) => Some(n.clone()),
            _ => None,
        };
        if let Some(name) = ident {
            self.advance();
            if matches!(self.current.token, Token::LParen) {
                match self.parse_act_parameters() {
                    Some(args) => Some(Expr::Call(name, args)),
                    None => None,
                }
            } else {
                Some(Expr::Ident { name, loc: None })
            }
        } else {
            match self.current.token {
                Token::Number(n) => {
                    self.advance();
                    Some(Expr::Number(n))
                },
                Token::Char(c) => {
                    self.advance();
                    Some(Expr::Char(c))
                },
                Token::LParen => {
                    self.advance();
                    match self.parse_expression() {
                        None => None,
                        Some(e) => {
                            let ghost p2 = self.pstate();
                            self.expect(Token::RParen);
                            proof {
                                lemma_expect(s, p2, SToken::RParen);
                            }
                            Some(e)
                        },
                    }
                },
                _ => {
                    self.error(text_of("Invalid factor"));
                    None
                },
            }
        }
    }

    fn parse_act_parameters(&mut self) -> (r: Option<Vec<Expr>>)
        requires
            old(self).wf(),
        ensures
            final(self).wf(),
            final(self).text() == old(self).text(),
            (opt_args_view(r), final(self).pstate()) == p_act(
                old(self).text(),
                old(self).pstate(),
            ),
            pm(old(self).text(), final(self).pstate()) <= pm(old(self).text(), old(self).pstate()),
        decreases pm(old(self).text(), old(self).pstate()), 7int,
    {
        let ghost s = self.text();
        let ghost p0 = self.pstate();
        let mut args: Vec<Expr> = Vec::new();
        proof {
            lemma_expect(s, p0, SToken::LParen);
        }
        self.expect(Token::LParen);
        let ghost p1 = self.pstate();
        assert(exprs_view(args@) =~= seq![]);
        if !matches!(self.current.token, Token::RParen) {
            loop
                invariant_except_break
                    p_act_loop(s, self.pstate(), exprs_view(args@)) == p_act_loop(s, p1, seq![]),
                invariant
                    self.wf(),
                    self.text() == s,
                    s == old(self).text(),
                    p0 == old(self).pstate(),
                    pm(s, self.pstate()) <= pm(s, p0),
                    !(p1.cur.token is RParen),
                    p1 == p_expect(s, p0, SToken::LParen),
                    args@.len() == 0 ==> p1 == self.pstate(),
                ensures
                    self.wf(),
                    self.text() == s,
                    pm(s, self.pstate()) <= pm(s, p0),
                    (Some(exprs_view(args@)), self.pstate()) == p_act_loop(s, p1, seq![]),
                decreases pm(s, self.pstate()),
            {
                let ghost q0 = self.pstate();
                let e = match self.parse_expression() {
                    None => {
                        return None;
                    },
                    Some(e) => e,
                };
                proof {
                    lemma_exprs_view_push(args@, e);
                }
                args.push(e);
                if !matches!(self.current.token, Token::Comma) {
                    break ;
                }
                let ghost q1 = self.pstate();
                proof {
                    lemma_padv(s, q1);
                }
                self.advance();
            }
        }
        let ghost p2 = self.pstate();
        proof {
            lemma_expect(s, p2, SToken::RParen);
        }
        self.expect(Token::RParen);
        Some(args)
    }
}

} // verus!
