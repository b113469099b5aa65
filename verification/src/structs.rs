//! Tokens, the abstract syntax tree and the types of the language, with their
//! mathematical views.
use vstd::prelude::*;

use crate::text::{append_i64, char_debug, char_debug_text, int_text, str_debug, str_debug_text, text_of};

verus! {

// ---------------------------------------------------------------------------
// Tokens
// ---------------------------------------------------------------------------

/// A token of the language.
#[derive(Debug, Clone, PartialEq)]
pub enum Token {
    Ident(String),
    Number(i64),
    Char(char),
    // keywords
    Var,
    Fn,
    If,
    ElseIf,
    Else,
    While,
    Return,
    // symbols
    LParen,
    RParen,
    LBrace,
    RBrace,
    Colon,
    Semicolon,
    Comma,
    Assign,
    Neq,
    Lt,
    Gt,
    Le,
    Ge,
    Plus,
    Minus,
    Star,
    Slash,
    Percent,
    EOF,
}

/// A token as a mathematical value: identifiers are character sequences and
/// numbers are unbounded integers.
pub enum SToken {
    Ident(Seq<char>),
    Number(int),
    Char(char),
    Var,
    Fn,
    If,
    ElseIf,
    Else,
    While,
    Return,
    LParen,
    RParen,
    LBrace,
    RBrace,
    Colon,
    Semicolon,
    Comma,
    Assign,
    Neq,
    Lt,
    Gt,
    Le,
    Ge,
    Plus,
    Minus,
    Star,
    Slash,
    Percent,
    EOF,
}

impl View for Token {
    type V = SToken;

    open spec fn view(&self) -> SToken {
        match self {
            Token::Ident(s) => SToken::Ident(s@),
            Token::Number(n) => SToken::Number(*n as int),
            Token::Char(c) => SToken::Char(*c),
            Token::Var => SToken::Var,
            Token::Fn => SToken::Fn,
            Token::If => SToken::If,
            Token::ElseIf => SToken::ElseIf,
            Token::Else => SToken::Else,
            Token::While => SToken::While,
            Token::Return => SToken::Return,
            Token::LParen => SToken::LParen,
            Token::RParen => SToken::RParen,
            Token::LBrace => SToken::LBrace,
            Token::RBrace => SToken::RBrace,
            Token::Colon => SToken::Colon,
            Token::Semicolon => SToken::Semicolon,
            Token::Comma => SToken::Comma,
            Token::Assign => SToken::Assign,
            Token::Neq => SToken::Neq,
            Token::Lt => SToken::Lt,
            Token::Gt => SToken::Gt,
            Token::Le => SToken::Le,
            Token::Ge => SToken::Ge,
            Token::Plus => SToken::Plus,
            Token::Minus => SToken::Minus,
            Token::Star => SToken::Star,
            Token::Slash => SToken::Slash,
            Token::Percent => SToken::Percent,
            Token::EOF => SToken::EOF,
        }
    }
}

/// The name of a token's variant, as `{:?}` prints it.
pub open spec fn tok_name(t: SToken) -> Seq<char> {
    match t {
        SToken::Ident(_) => "Ident"@,
        SToken::Number(_) => "Number"@,
        SToken::Char(_) => "Char"@,
        SToken::Var => "Var"@,
        SToken::Fn => "Fn"@,
        SToken::If => "If"@,
        SToken::ElseIf => "ElseIf"@,
        SToken::Else => "Else"@,
        SToken::While => "While"@,
        SToken::Return => "Return"@,
        SToken::LParen => "LParen"@,
        SToken::RParen => "RParen"@,
        SToken::LBrace => "LBrace"@,
        SToken::RBrace => "RBrace"@,
        SToken::Colon => "Colon"@,
        SToken::Semicolon => "Semicolon"@,
        SToken::Comma => "Comma"@,
        SToken::Assign => "Assign"@,
        SToken::Neq => "Neq"@,
        SToken::Lt => "Lt"@,
        SToken::Gt => "Gt"@,
        SToken::Le => "Le"@,
        SToken::Ge => "Ge"@,
        SToken::Plus => "Plus"@,
        SToken::Minus => "Minus"@,
        SToken::Star => "Star"@,
        SToken::Slash => "Slash"@,
        SToken::Percent => "Percent"@,
        SToken::EOF => "EOF"@,
    }
}

/// A token as `{:?}` prints it.
pub open spec fn tok_debug(t: SToken) -> Seq<char> {
    match t {
        SToken::Ident(s) => "Ident("@ + str_debug_text(s) + ")"@,
        SToken::Number(n) => "Number("@ + int_text(n) + ")"@,
        SToken::Char(c) => "Char("@ + char_debug_text(c) + ")"@,
        _ => tok_name(t),
    }
}

impl Token {
    /// The text of this token as `{:?}` prints it.
    pub fn debug_text(&self) -> (r: String)
        ensures
            r@ == tok_debug(self@),
    {
        match self {
            Token::Ident(s) => {
                let mut r = text_of("Ident(");
                let d = str_debug(s.as_str());
                r.append(d.as_str());
                r.append(")");
                r
            },
            Token::Number(n) => {
                let mut r = text_of("Number(");
                append_i64(&mut r, *n);
                r.append(")");
                r
            },
            Token::Char(c) => {
                let mut r = text_of("Char(");
                let d = char_debug(*c);
                r.append(d.as_str());
                r.append(")");
                r
            },
            _ => self.kind_name(),
        }
    }

    /// The name of this token's variant.
    pub fn kind_name(&self) -> (r: String)
        ensures
            r@ == tok_name(self@),
    {
        let lit: &str = match self {
            Token::Ident(_) => "Ident",
            Token::Number(_) => "Number",
            Token::Char(_) => "Char",
            Token::Var => "Var",
            Token::Fn => "Fn",
            Token::If => "If",
            Token::ElseIf => "ElseIf",
            Token::Else => "Else",
            Token::While => "While",
            Token::Return => "Return",
            Token::LParen => "LParen",
            Token::RParen => "RParen",
            Token::LBrace => "LBrace",
            Token::RBrace => "RBrace",
            Token::Colon => "Colon",
            Token::Semicolon => "Semicolon",
            Token::Comma => "Comma",
            Token::Assign => "Assign",
            Token::Neq => "Neq",
            Token::Lt => "Lt",
            Token::Gt => "Gt",
            Token::Le => "Le",
            Token::Ge => "Ge",
            Token::Plus => "Plus",
            Token::Minus => "Minus",
            Token::Star => "Star",
            Token::Slash => "Slash",
            Token::Percent => "Percent",
            Token::EOF => "EOF",
        };
        text_of(lit)
    }
}

/// A token with the line and column at which its scan began.
#[derive(Debug, Clone)]
pub struct SpannedToken {
    pub token: Token,
    pub line: usize,
    pub col: usize,
}

/// A token with the line and column at which its scan began.
pub struct SSpanned {
    pub token: SToken,
    pub line: int,
    pub col: int,
}

impl View for SpannedToken {
    type V = SSpanned;

    open spec fn view(&self) -> SSpanned {
        SSpanned { token: self.token@, line: self.line as int, col: self.col as int }
    }
}

// ---------------------------------------------------------------------------
// Operators and types
// ---------------------------------------------------------------------------

/// A sign before an expression.
#[derive(Debug, Clone, Copy, PartialEq, Eq, Structural)]
pub enum UnaryOp {
    Plus,
    Minus,
}

/// An arithmetic operator.
#[derive(Debug, Clone, Copy, PartialEq, Eq, Structural)]
pub enum BinaryOp {
    Add,
    Sub,
    Mul,
    Div,
    Mod,
}

impl BinaryOp {
    /// The RISC-V instruction that performs this operation.
    pub open spec fn spec_mnemonic(self) -> Seq<char> {
        match self {
            BinaryOp::Add => "add"@,
            BinaryOp::Sub => "sub"@,
            BinaryOp::Div => "div"@,
            BinaryOp::Mul => "mul"@,
            BinaryOp::Mod => "rem"@,
        }
    }

    /// The RISC-V instruction that performs this operation.
    pub fn mnemonic(&self) -> (r: &'static str)
        ensures
            r@ == self.spec_mnemonic(),
    {
        match self {
            BinaryOp::Add => "add",
            BinaryOp::Sub => "sub",
            BinaryOp::Div => "div",
            BinaryOp::Mul => "mul",
            BinaryOp::Mod => "rem",
        }
    }

    /// The variant's name, as `{:?}` prints it.
    pub open spec fn spec_name(self) -> Seq<char> {
        match self {
            BinaryOp::Add => "Add"@,
            BinaryOp::Sub => "Sub"@,
            BinaryOp::Mul => "Mul"@,
            BinaryOp::Div => "Div"@,
            BinaryOp::Mod => "Mod"@,
        }
    }

    /// The variant's name, as `{:?}` prints it.
    pub fn name(&self) -> (r: &'static str)
        ensures
            r@ == self.spec_name(),
    {
        match self {
            BinaryOp::Add => "Add",
            BinaryOp::Sub => "Sub",
            BinaryOp::Mul => "Mul",
            BinaryOp::Div => "Div",
            BinaryOp::Mod => "Mod",
        }
    }
}

impl UnaryOp {
    /// The variant's name, as `{:?}` prints it.
    pub open spec fn spec_name(self) -> Seq<char> {
        match self {
            UnaryOp::Plus => "Plus"@,
            UnaryOp::Minus => "Minus"@,
        }
    }

    /// The variant's name, as `{:?}` prints it.
    pub fn name(&self) -> (r: &'static str)
        ensures
            r@ == self.spec_name(),
    {
        match self {
            UnaryOp::Plus => "Plus",
            UnaryOp::Minus => "Minus",
        }
    }
}

/// A comparison.
#[derive(Debug, Clone, Copy, PartialEq, Eq, Structural)]
pub enum RelOp {
    Eq,
    Neq,
    Lt,
    Gt,
    Le,
    Ge,
}

impl RelOp {
    /// The variant's name, as `{:?}` prints it.
    pub open spec fn spec_name(self) -> Seq<char> {
        match self {
            RelOp::Eq => "Eq"@,
            RelOp::Neq => "Neq"@,
            RelOp::Lt => "Lt"@,
            RelOp::Gt => "Gt"@,
            RelOp::Le => "Le"@,
            RelOp::Ge => "Ge"@,
        }
    }

    /// The variant's name, as `{:?}` prints it.
    pub fn name(&self) -> (r: &'static str)
        ensures
            r@ == self.spec_name(),
    {
        match self {
            RelOp::Eq => "Eq",
            RelOp::Neq => "Neq",
            RelOp::Lt => "Lt",
            RelOp::Gt => "Gt",
            RelOp::Le => "Le",
            RelOp::Ge => "Ge",
        }
    }

    /// The branch instruction that jumps when the relation does NOT hold.
    pub open spec fn spec_branch(self) -> Seq<char> {
        match self {
            RelOp::Eq => "bne"@,
            RelOp::Neq => "beq"@,
            RelOp::Lt => "bge"@,
            RelOp::Le => "bgt"@,
            RelOp::Gt => "ble"@,
            RelOp::Ge => "blt"@,
        }
    }

    /// The branch instruction that jumps when the relation does NOT hold.
    pub fn branch(&self) -> (r: &'static str)
        ensures
            r@ == self.spec_branch(),
    {
        match self {
            RelOp::Eq => "bne",
            RelOp::Neq => "beq",
            RelOp::Lt => "bge",
            RelOp::Le => "bgt",
            RelOp::Gt => "ble",
            RelOp::Ge => "blt",
        }
    }
}

/// Whether `a op b` holds: `=` is equality, `#` inequality, and the others
/// compare as their symbols say.
pub open spec fn relation_holds(op: RelOp, a: int, b: int) -> bool {
    match op {
        RelOp::Eq => a == b,
        RelOp::Neq => a != b,
        RelOp::Lt => a < b,
        RelOp::Gt => a > b,
        RelOp::Le => a <= b,
        RelOp::Ge => a >= b,
    }
}

/// Whether the RISC-V branch instruction `mnemonic` jumps when it compares
/// the signed values `a` and `b`: `beq` on equal, `bne` on different, `blt`
/// on less, `bge` on greater or equal, and the pseudo-instructions `bgt` on
/// greater and `ble` on less or equal. Other text is no branch.
pub open spec fn branch_taken(mnemonic: Seq<char>, a: int, b: int) -> bool {
    if mnemonic == "beq"@ {
        a == b
    } else if mnemonic == "bne"@ {
        a != b
    } else if mnemonic == "blt"@ {
        a < b
    } else if mnemonic == "bge"@ {
        a >= b
    } else if mnemonic == "bgt"@ {
        a > b
    } else if mnemonic == "ble"@ {
        a <= b
    } else {
        false
    }
}

/// The branch that a condition compiles to jumps (to the code after the
/// guarded statements) exactly when the relation does not hold, for every
/// relation and all values.
pub proof fn lemma_branch_negates(op: RelOp, a: int, b: int)
    ensures
        branch_taken(op.spec_branch(), a, b) == !relation_holds(op, a, b),
{
    reveal_strlit("beq");
    reveal_strlit("bne");
    reveal_strlit("blt");
    reveal_strlit("bge");
    reveal_strlit("bgt");
    reveal_strlit("ble");
    assert("beq"@[1] != "bne"@[1]);
    assert("beq"@[1] != "blt"@[1] && "beq"@[1] != "bge"@[1] && "beq"@[1] != "bgt"@[1]);
    assert("bne"@[1] != "blt"@[1] && "bne"@[1] != "bge"@[1] && "bne"@[1] != "bgt"@[1]);
    assert("blt"@[1] != "bge"@[1] && "blt"@[1] != "bgt"@[1] && "beq"@[1] != "ble"@[1]);
    assert("bge"@[2] != "bgt"@[2] && "bne"@[1] != "ble"@[1] && "blt"@[2] != "ble"@[2]);
    assert("bge"@[1] != "ble"@[1] && "bgt"@[1] != "ble"@[1]);
}

/// The types of the language; `Error` marks an expression whose type is unknown after an error.
#[derive(Debug, Clone, Copy, PartialEq, Eq, Structural)]
pub enum Type {
    Int,
    Char,
    Void,
    Error,
}

impl Type {
    /// The number of bytes a variable of this type occupies.
    pub open spec fn size(self) -> u8 {
        match self {
            Type::Int => 8,
            Type::Char => 1,
            _ => 0,
        }
    }

    /// The number of bytes a variable of this type occupies.
    pub fn get_size(&mut self) -> (r: u8)
        ensures
            r == old(self).size(),
            *final(self) == *old(self),
    {
        match self {
            Type::Int => 8,
            Type::Char => 1,
            _ => 0,
        }
    }

    /// The type a type name denotes.
    pub open spec fn spec_from_name(name: Seq<char>) -> Type {
        if name == "int"@ {
            Type::Int
        } else if name == "char"@ {
            Type::Char
        } else if name == "void"@ {
            Type::Void
        } else {
            Type::Error
        }
    }

    /// The type a type name denotes.
    pub fn from_name(name: &String) -> (r: Type)
        ensures
            r == Type::spec_from_name(name@),
    {
        if *name == text_of("int") {
            Type::Int
        } else if *name == text_of("char") {
            Type::Char
        } else if *name == text_of("void") {
            Type::Void
        } else {
            Type::Error
        }
    }

    /// The variant's name, as `{:?}` prints it.
    pub open spec fn spec_name(self) -> Seq<char> {
        match self {
            Type::Int => "Int"@,
            Type::Char => "Char"@,
            Type::Void => "Void"@,
            Type::Error => "Error"@,
        }
    }

    /// The variant's name, as `{:?}` prints it.
    pub fn name(&self) -> (r: &'static str)
        ensures
            r@ == self.spec_name(),
    {
        match self {
            Type::Int => "Int",
            Type::Char => "Char",
            Type::Void => "Void",
            Type::Error => "Error",
        }
    }
}

impl vstd::std_specs::convert::FromSpecImpl<String> for Type {
    open spec fn obeys_from_spec() -> bool {
        true
    }

    open spec fn from_spec(v: String) -> Type {
        Type::spec_from_name(v@)
    }
}

impl From<String> for Type {
    fn from(value: String) -> (r: Type) {
        Type::from_name(&value)
    }
}

// ---------------------------------------------------------------------------
// The syntax tree
// ---------------------------------------------------------------------------

/// Where a variable lives.
#[derive(Debug, PartialEq)]
pub enum VarLocation {
    /// Size in bytes and offset from the stack pointer.
    Stack((u8, i32)),
    /// Size in bytes and the label of the data.
    Global((u8, String)),
}

impl Clone for VarLocation {
    fn clone(&self) -> (r: Self)
        ensures
            r == *self,
    {
        match self {
            VarLocation::Stack((size, offset)) => VarLocation::Stack((*size, *offset)),
            VarLocation::Global((size, label)) => VarLocation::Global((*size, label.clone())),
        }
    }
}

/// A variable's location as a mathematical value.
pub enum SLoc {
    Stack(u8, i32),
    Global(u8, Seq<char>),
}

/// The view of a variable's location.
pub open spec fn loc_view(l: VarLocation) -> SLoc {
    match l {
        VarLocation::Stack((size, offset)) => SLoc::Stack(size, offset),
        VarLocation::Global((size, label)) => SLoc::Global(size, label@),
    }
}

/// The view of an optional location.
pub open spec fn opt_loc_view(l: Option<VarLocation>) -> Option<SLoc> {
    match l {
        Some(l) => Some(loc_view(l)),
        None => None,
    }
}

/// A declared variable or parameter, with its place once the analysis gave it one.
#[derive(Debug, PartialEq)]
pub struct VarDecl {
    pub name: String,
    pub typ: Type,
    pub loc: Option<VarLocation>,
}

impl Clone for VarDecl {
    fn clone(&self) -> (r: Self)
        ensures
            r == *self,
    {
        let loc = match &self.loc {
            Some(l) => Some(l.clone()),
            None => None,
        };
        VarDecl { name: self.name.clone(), typ: self.typ, loc }
    }
}

/// A declared variable as a mathematical value.
pub struct SVarDecl {
    pub name: Seq<char>,
    pub typ: Type,
    pub loc: Option<SLoc>,
}

/// The view of a declared variable.
pub open spec fn vardecl_view(v: VarDecl) -> SVarDecl {
    SVarDecl { name: v.name@, typ: v.typ, loc: opt_loc_view(v.loc) }
}

/// The views of declared variables.
pub open spec fn vardecls_view(v: Seq<VarDecl>) -> Seq<SVarDecl> {
    v.map_values(|d: VarDecl| vardecl_view(d))
}

/// An expression; a variable's place is filled in by the analysis.
#[derive(Debug)]
#[allow(inconsistent_fields)]
pub enum Expr {
    Number(i64),
    Char(char),
    Call(String, Vec<Expr>),
    Ident { name: String, loc: Option<VarLocation> },
    Unary { op: UnaryOp, expr: Box<Expr> },
    Binary { left: Box<Expr>, op: BinaryOp, right: Box<Expr> },
}

/// An expression as a mathematical value.
#[allow(inconsistent_fields)]
pub enum SExpr {
    Number(int),
    Char(char),
    Call(Seq<char>, Seq<SExpr>),
    Ident { name: Seq<char>, loc: Option<SLoc> },
    Unary { op: UnaryOp, expr: Box<SExpr> },
    Binary { left: Box<SExpr>, op: BinaryOp, right: Box<SExpr> },
}

/// The view of an expression.
pub open spec fn expr_view(e: Expr) -> SExpr
    decreases e,
{
    match e {
        Expr::Number(n) => SExpr::Number(n as int),
        Expr::Char(c) => SExpr::Char(c),
        Expr::Call(name, args) => SExpr::Call(name@, exprs_view(args@)),
        Expr::Ident { name, loc } => SExpr::Ident { name: name@, loc: opt_loc_view(loc) },
        Expr::Unary { op, expr } => SExpr::Unary { op, expr: Box::new(expr_view(*expr)) },
        Expr::Binary { left, op, right } => SExpr::Binary {
            left: Box::new(expr_view(*left)),
            op,
            right: Box::new(expr_view(*right)),
        },
    }
}

/// The views of a list of expressions.
pub open spec fn exprs_view(s: Seq<Expr>) -> Seq<SExpr>
    decreases s,
{
    if s.len() == 0 {
        seq![]
    } else {
        exprs_view(s.drop_last()).push(expr_view(s.last()))
    }
}

impl View for Expr {
    type V = SExpr;

    open spec fn view(&self) -> SExpr {
        expr_view(*self)
    }
}

/// A comparison of two expressions.
#[derive(Debug)]
pub struct Condition {
    pub left: Expr,
    pub op: RelOp,
    pub right: Expr,
}

/// A condition as a mathematical value.
pub struct SCond {
    pub left: SExpr,
    pub op: RelOp,
    pub right: SExpr,
}

/// The view of a condition.
pub open spec fn cond_view(c: Condition) -> SCond {
    SCond { left: expr_view(c.left), op: c.op, right: expr_view(c.right) }
}

impl View for Condition {
    type V = SCond;

    open spec fn view(&self) -> SCond {
        cond_view(*self)
    }
}

/// A statement; an assignment's place is filled in by the analysis.
#[derive(Debug)]
pub enum Statement {
    Call(String, Vec<Expr>),
    Assign { name: String, loc: Option<VarLocation>, expr: Expr },
    If { branches: Vec<(Condition, Vec<Statement>)>, else_branch: Option<Vec<Statement>> },
    While { cond: Condition, body: Vec<Statement> },
    Return(Option<Expr>),
}

/// A statement as a mathematical value.
pub enum SStmt {
    Call(Seq<char>, Seq<SExpr>),
    Assign { name: Seq<char>, loc: Option<SLoc>, expr: SExpr },
    If { branches: Seq<(SCond, Seq<SStmt>)>, else_branch: Option<Seq<SStmt>> },
    While { cond: SCond, body: Seq<SStmt> },
    Return(Option<SExpr>),
}

/// The view of a statement.
pub open spec fn stmt_view(s: Statement) -> SStmt
    decreases s,
{
    match s {
        Statement::Call(name, args) => SStmt::Call(name@, exprs_view(args@)),
        Statement::Assign { name, loc, expr } => SStmt::Assign {
            name: name@,
            loc: opt_loc_view(loc),
            expr: expr_view(expr),
        },
        Statement::If { branches, else_branch } => SStmt::If {
            branches: branches_view(branches@),
            else_branch: match else_branch {
                Some(b) => Some(stmts_view(b@)),
                None => None,
            },
        },
        Statement::While { cond, body } => SStmt::While {
            cond: cond_view(cond),
            body: stmts_view(body@),
        },
        Statement::Return(e) => SStmt::Return(
            match e {
                Some(e) => Some(expr_view(e)),
                None => None,
            },
        ),
    }
}

/// The views of a list of statements.
pub open spec fn stmts_view(s: Seq<Statement>) -> Seq<SStmt>
    decreases s,
{
    if s.len() == 0 {
        seq![]
    } else {
        stmts_view(s.drop_last()).push(stmt_view(s.last()))
    }
}

/// The views of the branches of an `if`.
pub open spec fn branches_view(s: Seq<(Condition, Vec<Statement>)>) -> Seq<(SCond, Seq<SStmt>)>
    decreases s,
{
    if s.len() == 0 {
        seq![]
    } else {
        branches_view(s.drop_last()).push((cond_view(s.last().0), stmts_view(s.last().1@)))
    }
}

impl View for Statement {
    type V = SStmt;

    open spec fn view(&self) -> SStmt {
        stmt_view(*self)
    }
}

/// A function: its name, parameters, result type, local variables and body.
#[derive(Debug)]
pub struct FuncDecl {
    pub name: String,
    pub params: Vec<VarDecl>,
    pub ret: Type,
    pub locals: Vec<VarDecl>,
    pub body: Vec<Statement>,
}

/// A function as a mathematical value.
pub struct SFunc {
    pub name: Seq<char>,
    pub params: Seq<SVarDecl>,
    pub ret: Type,
    pub locals: Seq<SVarDecl>,
    pub body: Seq<SStmt>,
}

/// The view of a function.
pub open spec fn func_view(f: FuncDecl) -> SFunc {
    SFunc {
        name: f.name@,
        params: vardecls_view(f.params@),
        ret: f.ret,
        locals: vardecls_view(f.locals@),
        body: stmts_view(f.body@),
    }
}

/// A declaration at the top level of a program.
#[derive(Debug)]
pub enum Declaration {
    Var(VarDecl),
    Fn(FuncDecl),
}

/// A declaration as a mathematical value.
pub enum SDecl {
    Var(SVarDecl),
    Fn(SFunc),
}

/// The view of a declaration.
pub open spec fn decl_view(d: Declaration) -> SDecl {
    match d {
        Declaration::Var(v) => SDecl::Var(vardecl_view(v)),
        Declaration::Fn(f) => SDecl::Fn(func_view(f)),
    }
}

/// The views of a list of declarations.
pub open spec fn decls_view(s: Seq<Declaration>) -> Seq<SDecl> {
    s.map_values(|d: Declaration| decl_view(d))
}

impl View for Declaration {
    type V = SDecl;

    open spec fn view(&self) -> SDecl {
        decl_view(*self)
    }
}

// ---------------------------------------------------------------------------
// Facts about the views of sequences
// ---------------------------------------------------------------------------

/// The view of a list with one more expression.
pub proof fn lemma_exprs_view_push(s: Seq<Expr>, e: Expr)
    ensures
        exprs_view(s.push(e)) == exprs_view(s).push(expr_view(e)),
{
    assert(s.push(e).drop_last() =~= s);
}

/// The view of a list with one more statement.
pub proof fn lemma_stmts_view_push(s: Seq<Statement>, e: Statement)
    ensures
        stmts_view(s.push(e)) == stmts_view(s).push(stmt_view(e)),
{
    assert(s.push(e).drop_last() =~= s);
}

/// The view of a list with one more branch.
pub proof fn lemma_branches_view_push(s: Seq<(Condition, Vec<Statement>)>, e: (Condition, Vec<Statement>))
    ensures
        branches_view(s.push(e)) == branches_view(s).push((cond_view(e.0), stmts_view(e.1@))),
{
    assert(s.push(e).drop_last() =~= s);
}


/// The view of a sequence of expressions is taken element by element.
pub proof fn lemma_exprs_view_index(s: Seq<Expr>)
    ensures
        exprs_view(s).len() == s.len(),
        forall|k: int| 0 <= k < s.len() ==> #[trigger] exprs_view(s)[k] == expr_view(s[k]),
    decreases s.len(),
{
    if s.len() > 0 {
        lemma_exprs_view_index(s.drop_last());
    }
}

/// The view of a sequence of statements is taken element by element.
pub proof fn lemma_stmts_view_index(s: Seq<Statement>)
    ensures
        stmts_view(s).len() == s.len(),
        forall|k: int| 0 <= k < s.len() ==> #[trigger] stmts_view(s)[k] == stmt_view(s[k]),
    decreases s.len(),
{
    if s.len() > 0 {
        lemma_stmts_view_index(s.drop_last());
    }
}

/// The view of a sequence of branches is taken element by element.
pub proof fn lemma_branches_view_index(s: Seq<(Condition, Vec<Statement>)>)
    ensures
        branches_view(s).len() == s.len(),
        forall|k: int|
            0 <= k < s.len() ==> #[trigger] branches_view(s)[k] == (
                cond_view(s[k].0),
                stmts_view(s[k].1@),
            ),
    decreases s.len(),
{
    if s.len() > 0 {
        lemma_branches_view_index(s.drop_last());
    }
}

/// Replacing one expression replaces its view.
pub proof fn lemma_exprs_view_update(s: Seq<Expr>, i: int, e: Expr)
    requires
        0 <= i < s.len(),
    ensures
        exprs_view(s.update(i, e)) == exprs_view(s).update(i, expr_view(e)),
{
    lemma_exprs_view_index(s);
    lemma_exprs_view_index(s.update(i, e));
    assert(exprs_view(s.update(i, e)) =~= exprs_view(s).update(i, expr_view(e)));
}

/// Replacing one statement replaces its view.
pub proof fn lemma_stmts_view_update(s: Seq<Statement>, i: int, e: Statement)
    requires
        0 <= i < s.len(),
    ensures
        stmts_view(s.update(i, e)) == stmts_view(s).update(i, stmt_view(e)),
{
    lemma_stmts_view_index(s);
    lemma_stmts_view_index(s.update(i, e));
    assert(stmts_view(s.update(i, e)) =~= stmts_view(s).update(i, stmt_view(e)));
}

/// Replacing one branch replaces its view.
pub proof fn lemma_branches_view_update(
    s: Seq<(Condition, Vec<Statement>)>,
    i: int,
    e: (Condition, Vec<Statement>),
)
    requires
        0 <= i < s.len(),
    ensures
        branches_view(s.update(i, e)) == branches_view(s).update(
            i,
            (cond_view(e.0), stmts_view(e.1@)),
        ),
{
    lemma_branches_view_index(s);
    lemma_branches_view_index(s.update(i, e));
    assert(branches_view(s.update(i, e)) =~= branches_view(s).update(
        i,
        (cond_view(e.0), stmts_view(e.1@)),
    ));
}

/// The bytes that variables of these declarations occupy.
pub open spec fn var_bytes(vars: Seq<SVarDecl>) -> nat
    decreases vars.len(),
{
    if vars.len() == 0 {
        0
    } else {
        var_bytes(vars.drop_last()) + vars.last().typ.size() as nat
    }
}

/// Variables' bytes never shrink as more variables come.
pub proof fn lemma_var_bytes_prefix(v: Seq<SVarDecl>, i: int)
    requires
        0 <= i <= v.len(),
    ensures
        var_bytes(v.take(i)) <= var_bytes(v),
    decreases v.len() - i,
{
    if i < v.len() {
        assert(v.take(i + 1).drop_last() =~= v.take(i));
        lemma_var_bytes_prefix(v, i + 1);
    } else {
        assert(v.take(i) =~= v);
    }
}

} // verus!
