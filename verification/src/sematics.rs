//! Semantic analysis: scopes, types, return values and the `main` function.
//! The analysis also gives each variable its place in memory and records
//! that place at each use of the variable.
use vstd::prelude::*;

use crate::ast_text::{stmt_debug, stmt_debug_text};
use crate::structs::{
    Condition,
    Declaration,
    Expr,
    FuncDecl,
    SCond,
    SDecl,
    SExpr,
    SFunc,
    SLoc,
    SStmt,
    SVarDecl,
    Statement,
    Type,
    VarDecl,
    VarLocation,
    branches_view,
    cond_view,
    decl_view,
    decls_view,
    exprs_view,
    func_view,
    lemma_branches_view_index,
    lemma_branches_view_update,
    lemma_exprs_view_index,
    lemma_exprs_view_update,
    lemma_stmts_view_index,
    lemma_stmts_view_update,
    stmts_view,
    var_bytes,
    vardecl_view,
    vardecls_view,
};
use crate::symtab::{
    SSymbol,
    Symbol,
    SymbolTable,
    TableView,
    copy_vardecls,
    initial_table,
    table_find,
};
use crate::text::{append_u64, nat_text, text_of, texts};

verus! {

// ---------------------------------------------------------------------------
// The analysis as mathematics
// ---------------------------------------------------------------------------

/// What the analysis has gathered so far: the symbol table, the error
/// messages and the warnings, each in the order they arose.
pub struct SemState {
    pub table: TableView,
    pub errors: Seq<Seq<char>>,
    pub warnings: Seq<Seq<char>>,
}

impl SemState {
    /// Records an error message.
    pub open spec fn err(self, msg: Seq<char>) -> SemState {
        SemState { errors: self.errors.push(msg), ..self }
    }

    /// Records a warning.
    pub open spec fn warn(self, msg: Seq<char>) -> SemState {
        SemState { warnings: self.warnings.push(msg), ..self }
    }

    /// Replaces the symbol table.
    pub open spec fn with_table(self, t: TableView) -> SemState {
        SemState { table: t, ..self }
    }
}

/// The first offset from the stack pointer that a function's variables may
/// use: below it the frame keeps `ra`, `s0` and `s1`.
pub open spec fn frame_base() -> i32 {
    24
}

/// The offset after a variable of `size` bytes at `off`; it stops at `i32::MAX`.
pub open spec fn next_offset(off: i32, size: u8) -> i32 {
    if off + size <= i32::MAX {
        (off + size) as i32
    } else {
        i32::MAX
    }
}

/// Analyzes an expression: the state afterwards, its type, and the expression
/// with the place of each variable it reads.
pub open spec fn a_expr(st: SemState, e: SExpr) -> (SemState, Type, SExpr)
    decreases e, 0int,
{
    match e {
        SExpr::Number(_) => (st, Type::Int, e),
        SExpr::Char(_) => (st, Type::Char, e),
        SExpr::Ident { name, loc } => {
            let s1 = st.with_table(st.table.after_lookup(name));
            match table_find(st.table.scopes, name) {
                Some(SSymbol::Var { typ, loc: l }) => (s1, typ, SExpr::Ident { name, loc: Some(l) }),
                Some(SSymbol::Fn { .. }) => (s1, Type::Error, e),
                None => (s1.err("Undefined variable "@ + name), Type::Error, e),
            }
        },
        SExpr::Call(name, args) => {
            let (s1, t, args1) = a_call(st, name, args);
            (s1, t, SExpr::Call(name, args1))
        },
        SExpr::Binary { left, op, right } => {
            let (s1, lt, l1) = a_expr(st, *left);
            let (s2, rt, r1) = a_expr(s1, *right);
            let e1 = SExpr::Binary { left: Box::new(l1), op, right: Box::new(r1) };
            if lt != Type::Int || rt != Type::Int {
                (
                    s2.err(
                        "Cannot perform "@ + op.spec_name() + " on "@ + lt.spec_name() + " and "@
                            + rt.spec_name(),
                    ),
                    Type::Error,
                    e1,
                )
            } else {
                (s2, Type::Int, e1)
            }
        },
        SExpr::Unary { op, expr } => {
            let (s1, t, x1) = a_expr(st, *expr);
            let e1 = SExpr::Unary { op, expr: Box::new(x1) };
            if t != Type::Int {
                (
                    s1.err("Cannot perform "@ + op.spec_name() + " on non-integer types"@),
                    Type::Error,
                    e1,
                )
            } else {
                (s1, Type::Int, e1)
            }
        },
    }
}

/// Analyzes a call of `name` with `args`: the state afterwards, the type of
/// the call, and the arguments with the places of their variables.
pub open spec fn a_call(st: SemState, name: Seq<char>, args: Seq<SExpr>) -> (
    SemState,
    Type,
    Seq<SExpr>,
)
    decreases args, 1int,
{
    let s1 = st.with_table(st.table.after_lookup(name));
    match table_find(st.table.scopes, name) {
        Some(SSymbol::Var { .. }) => (s1.err(name + " is not a function"@), Type::Error, args),
        None => (s1.err("Undefined function "@ + name), Type::Error, args),
        Some(SSymbol::Fn { params, ret }) => {
            if params.len() != args.len() {
                (
                    s1.err(
                        "Function "@ + name + " expects "@ + nat_text(params.len())
                            + " arguments, got "@ + nat_text(args.len()),
                    ),
                    Type::Error,
                    args,
                )
            } else {
                let (s2, args1) = a_args(s1, name, params, args);
                (s2, ret, args1)
            }
        },
    }
}

/// Analyzes the arguments of a call, each against the type of its parameter.
pub open spec fn a_args(st: SemState, name: Seq<char>, params: Seq<SVarDecl>, args: Seq<SExpr>) -> (
    SemState,
    Seq<SExpr>,
)
    decreases args, 0int,
{
    if args.len() == 0 {
        (st, args)
    } else {
        let (s1, done) = a_args(st, name, params, args.drop_last());
        let (s2, actual, a1) = a_expr(s1, args.last());
        let expected = params[args.len() - 1].typ;
        let s3 = if actual != expected && actual != Type::Error {
            s2.err(
                "Function "@ + name + " expected argument type "@ + expected.spec_name()
                    + ", got "@ + actual.spec_name(),
            )
        } else {
            s2
        };
        (s3, done.push(a1))
    }
}

/// Analyzes a condition: both sides must have the same type.
pub open spec fn a_cond(st: SemState, c: SCond) -> (SemState, SCond) {
    let (s1, lt, l1) = a_expr(st, c.left);
    let (s2, rt, r1) = a_expr(s1, c.right);
    let c1 = SCond { left: l1, op: c.op, right: r1 };
    if lt == Type::Error || rt == Type::Error {
        (s2, c1)
    } else if lt != rt {
        (s2.err("Cannot compare "@ + lt.spec_name() + " with "@ + rt.spec_name()), c1)
    } else {
        (s2, c1)
    }
}

/// Combines the return types of two paths.
pub open spec fn merge_returns(st: SemState, a: Option<Type>, b: Option<Type>) -> (
    SemState,
    Option<Type>,
) {
    match (a, b) {
        (None, t) => (st, t),
        (t, None) => (st, t),
        (Some(x), Some(y)) => if x == Type::Error || y == Type::Error {
            (st, Some(Type::Error))
        } else if x == y {
            (st, Some(x))
        } else {
            (
                st.err("Mismatched return types: "@ + x.spec_name() + " vs "@ + y.spec_name()),
                Some(Type::Error),
            )
        },
    }
}

/// Analyzes a statement: the state afterwards, the type it returns (when
/// every path through it returns), and the statement with the places of its
/// variables.
pub open spec fn a_stmt(st: SemState, s: SStmt) -> (SemState, Option<Type>, SStmt)
    decreases s, 0int,
{
    match s {
        SStmt::Assign { name, loc, expr } => {
            let s1 = st.with_table(st.table.after_lookup(name));
            match table_find(st.table.scopes, name) {
                Some(SSymbol::Var { typ: lt, loc: l }) => {
                    let (s2, rt, e1) = a_expr(s1, expr);
                    let s3 = if lt != Type::Error && rt != Type::Error && lt != rt {
                        s2.err("Cannot assign "@ + rt.spec_name() + " to "@ + lt.spec_name())
                    } else {
                        s2
                    };
                    (s3, None, SStmt::Assign { name, loc: Some(l), expr: e1 })
                },
                Some(SSymbol::Fn { .. }) => (s1.err("Cannot assign to function "@ + name), None, s),
                None => (s1.err("Undefined variable "@ + name), None, s),
            }
        },
        SStmt::Call(name, args) => {
            let (s1, _t, args1) = a_call(st, name, args);
            (s1, None, SStmt::Call(name, args1))
        },
        SStmt::While { cond, body } => {
            let (s1, c1) = a_cond(st, cond);
            let s2 = s1.with_table(s1.table.after_enter());
            let (s3, b1) = a_body(s2, body, body.len());
            (s3.with_table(s3.table.after_exit()), None, SStmt::While { cond: c1, body: b1 })
        },
        SStmt::Return(e) => match e {
            Some(x) => {
                let (s1, t, x1) = a_expr(st, x);
                (s1, Some(t), SStmt::Return(Some(x1)))
            },
            None => (st, Some(Type::Void), s),
        },
        SStmt::If { branches, else_branch } => {
            let (s1, r1, b1) = a_branches(st, branches, branches.len());
            match else_branch {
                Some(eb) => {
                    let (s2, r2, e1) = a_seq(s1, eb, eb.len());
                    let (s3, r3) = merge_returns(s2, r1, r2);
                    (s3, r3, SStmt::If { branches: b1, else_branch: Some(e1) })
                },
                None => (s1, r1, SStmt::If { branches: b1, else_branch: None }),
            }
        },
    }
}

/// Analyzes the first `n` statements of a sequence of statements. It stops
/// after the first one that returns, with a warning when others follow it.
/// The sequence comes back with those statements analyzed.
pub open spec fn a_seq(st: SemState, stmts: Seq<SStmt>, n: nat) -> (SemState, Option<Type>, Seq<SStmt>)
    decreases stmts, n,
{
    if n == 0 || n > stmts.len() {
        (st, None, stmts)
    } else {
        let (s1, r1, cur) = a_seq(st, stmts, (n - 1) as nat);
        if r1 is Some {
            (s1, r1, cur)
        } else {
            let (s2, r2, x) = a_stmt(s1, stmts[n - 1]);
            let cur2 = cur.update(n - 1, x);
            match r2 {
                Some(t) => if n < stmts.len() {
                    (s2.warn("Dead code found after "@ + stmt_debug(x)), Some(t), cur2)
                } else {
                    (s2, Some(t), cur2)
                },
                None => (s2, None, cur2),
            }
        }
    }
}

/// Analyzes the first `n` statements of a loop's body, each on its own.
pub open spec fn a_body(st: SemState, stmts: Seq<SStmt>, n: nat) -> (SemState, Seq<SStmt>)
    decreases stmts, n,
{
    if n == 0 || n > stmts.len() {
        (st, stmts)
    } else {
        let (s1, cur) = a_body(st, stmts, (n - 1) as nat);
        let (s2, _r, x) = a_stmt(s1, stmts[n - 1]);
        (s2, cur.update(n - 1, x))
    }
}

/// Analyzes the first `n` branches of an `if`, combining their return types.
pub open spec fn a_branches(st: SemState, branches: Seq<(SCond, Seq<SStmt>)>, n: nat) -> (
    SemState,
    Option<Type>,
    Seq<(SCond, Seq<SStmt>)>,
)
    decreases branches, n,
{
    if n == 0 || n > branches.len() {
        (st, None, branches)
    } else {
        let (s1, r1, cur) = a_branches(st, branches, (n - 1) as nat);
        let (s2, c1) = a_cond(s1, branches[n - 1].0);
        let (s3, r2, b1) = a_seq(s2, branches[n - 1].1, branches[n - 1].1.len());
        let (s4, r3) = merge_returns(s3, r1, r2);
        (s4, r3, cur.update(n - 1, (c1, b1)))
    }
}

/// Declares the first `n` of a function's parameters or local variables,
/// giving each its place in the stack frame from `off` on.
pub open spec fn a_vars(
    st: SemState,
    fname: Seq<char>,
    what: Seq<char>,
    vars: Seq<SVarDecl>,
    n: nat,
    off: i32,
) -> (SemState, Seq<SVarDecl>, i32)
    decreases n,
{
    if n == 0 || n > vars.len() {
        (st, vars, off)
    } else {
        let (s1, cur, o) = a_vars(st, fname, what, vars, (n - 1) as nat, off);
        let v = vars[n - 1];
        let loc = SLoc::Stack(v.typ.size(), o);
        let (ok, t) = s1.table.after_insert(v.name, SSymbol::Var { typ: v.typ, loc });
        let s2 = if ok {
            s1.with_table(t)
        } else {
            s1.with_table(t).err(what + fname)
        };
        (s2, cur.update(n - 1, SVarDecl { loc: Some(loc), ..v }), next_offset(o, v.typ.size()))
    }
}

/// Analyzes a function: it is declared, its parameters and locals are declared
/// in a new scope, and its body must return the declared type.
pub open spec fn a_func(st: SemState, f: SFunc) -> (SemState, SFunc) {
    let (ok, t) = st.table.after_insert(f.name, SSymbol::Fn { params: f.params, ret: f.ret });
    let s1 = if ok {
        st.with_table(t)
    } else {
        st.with_table(t).err("Redefined function "@ + f.name)
    };
    let s2 = s1.with_table(s1.table.after_enter());
    let (s3, params1, o) = a_vars(
        s2,
        f.name,
        "Redefined parameter "@,
        f.params,
        f.params.len(),
        frame_base(),
    );
    let (s4, locals1, _o) = a_vars(
        s3,
        f.name,
        "Redefined local variable "@,
        f.locals,
        f.locals.len(),
        o,
    );
    let (s5, r, body1) = a_seq(s4, f.body, f.body.len());
    let s6 = match r {
        Some(rt) => if rt != Type::Error && rt != f.ret {
            s5.err(
                "Function "@ + f.name + " needs to return "@ + f.ret.spec_name() + " not "@
                    + rt.spec_name(),
            )
        } else {
            s5
        },
        None => if f.ret != Type::Void {
            s5.err("Function "@ + f.name + " does not have a return value"@)
        } else {
            s5
        },
    };
    (
        s6.with_table(s6.table.after_exit()),
        SFunc { params: params1, locals: locals1, body: body1, ..f },
    )
}

/// Analyzes a declaration. A global variable lives at the label of its name.
pub open spec fn a_decl(st: SemState, d: SDecl) -> (SemState, SDecl) {
    match d {
        SDecl::Var(v) => {
            let loc = SLoc::Global(v.typ.size(), v.name);
            let (ok, t) = st.table.after_insert(v.name, SSymbol::Var { typ: v.typ, loc });
            let s1 = if ok {
                st.with_table(t)
            } else {
                st.with_table(t).err("Duplicate variable "@ + v.name)
            };
            (s1, SDecl::Var(SVarDecl { loc: Some(loc), ..v }))
        },
        SDecl::Fn(f) => {
            let (s1, f1) = a_func(st, f);
            (s1, SDecl::Fn(f1))
        },
    }
}

/// The declaration is a function `main` that returns `int` or nothing.
pub open spec fn is_main(d: SDecl) -> bool {
    match d {
        SDecl::Fn(f) => f.name == "main"@ && (f.ret == Type::Int || f.ret == Type::Void),
        _ => false,
    }
}

/// Analyzes the first `n` declarations of a program, in order.
pub open spec fn a_decls(st: SemState, decls: Seq<SDecl>, n: nat) -> (SemState, Seq<SDecl>)
    decreases n,
{
    if n == 0 || n > decls.len() {
        (st, decls)
    } else {
        let (s1, cur) = a_decls(st, decls, (n - 1) as nat);
        let (s2, d1) = a_decl(s1, decls[n - 1]);
        (s2, cur.update(n - 1, d1))
    }
}

/// Analyzes a program: its declarations, then the check that it has a `main`.
/// The program passes when no error has been recorded, earlier ones included.
pub open spec fn a_program(st: SemState, decls: Seq<SDecl>) -> (SemState, bool, Seq<SDecl>) {
    let (s1, out) = a_decls(st, decls, decls.len());
    let s2 = if exists|i: int| 0 <= i < decls.len() && is_main(#[trigger] decls[i]) {
        s1
    } else {
        s1.err("No main method found"@)
    };
    (s2, s2.errors.len() == 0, out)
}

/// Once a statement of a sequence returns, analyzing more of the sequence
/// changes nothing.
pub proof fn lemma_a_seq_stops(st: SemState, stmts: Seq<SStmt>, n: nat, m: nat)
    requires
        n <= m <= stmts.len(),
        a_seq(st, stmts, n).1 is Some,
    ensures
        a_seq(st, stmts, m) == a_seq(st, stmts, n),
    decreases m - n,
{
    if m > n {
        lemma_a_seq_stops(st, stmts, n, (m - 1) as nat);
    }
}

/// Where the analysis puts a function's variables: the `k`-th of them at
/// `off` plus the bytes of those before it, while that fits in an `i32`.
/// Names and types stay as they were.
pub proof fn lemma_a_vars_places(
    st: SemState,
    fname: Seq<char>,
    what: Seq<char>,
    vars: Seq<SVarDecl>,
    n: nat,
    off: i32,
)
    requires
        n <= vars.len(),
        off + var_bytes(vars.take(n as int)) <= i32::MAX,
    ensures
        ({
            let (_s, out, o) = a_vars(st, fname, what, vars, n, off);
            &&& o == off + var_bytes(vars.take(n as int))
            &&& out.len() == vars.len()
            &&& forall|k: int|
                0 <= k < n ==> #[trigger] out[k] == SVarDecl {
                    loc: Some(SLoc::Stack(vars[k].typ.size(), (off + var_bytes(vars.take(k))) as i32)),
                    ..vars[k]
                }
            &&& forall|k: int| n <= k < vars.len() ==> #[trigger] out[k] == vars[k]
        }),
    decreases n,
{
    if n == 0 {
        assert(vars.take(0) =~= seq![]);
    } else {
        let m = (n - 1) as nat;
        assert(vars.take(n as int).drop_last() =~= vars.take(m as int));
        lemma_a_vars_places(st, fname, what, vars, m, off);
    }
}

// ---------------------------------------------------------------------------
// The analysis only fills in places
// ---------------------------------------------------------------------------

/// An expression with the places of its variables erased.
pub open spec fn erase_expr(e: SExpr) -> SExpr
    decreases e,
{
    match e {
        SExpr::Ident { name, loc: _ } => SExpr::Ident { name, loc: None },
        SExpr::Call(name, args) => SExpr::Call(name, erase_exprs(args)),
        SExpr::Unary { op, expr } => SExpr::Unary { op, expr: Box::new(erase_expr(*expr)) },
        SExpr::Binary { left, op, right } => SExpr::Binary {
            left: Box::new(erase_expr(*left)),
            op,
            right: Box::new(erase_expr(*right)),
        },
        _ => e,
    }
}

/// Expressions with their places erased.
pub open spec fn erase_exprs(s: Seq<SExpr>) -> Seq<SExpr>
    decreases s,
{
    if s.len() == 0 {
        s
    } else {
        erase_exprs(s.drop_last()).push(erase_expr(s.last()))
    }
}

/// A condition with its places erased.
pub open spec fn erase_cond(c: SCond) -> SCond {
    SCond { left: erase_expr(c.left), op: c.op, right: erase_expr(c.right) }
}

/// A statement with its places erased.
pub open spec fn erase_stmt(s: SStmt) -> SStmt
    decreases s,
{
    match s {
        SStmt::Call(name, args) => SStmt::Call(name, erase_exprs(args)),
        SStmt::Assign { name, loc: _, expr } => SStmt::Assign {
            name,
            loc: None,
            expr: erase_expr(expr),
        },
        SStmt::If { branches, else_branch } => SStmt::If {
            branches: erase_branches(branches),
            else_branch: match else_branch {
                Some(b) => Some(erase_stmts(b)),
                None => None,
            },
        },
        SStmt::While { cond, body } => SStmt::While {
            cond: erase_cond(cond),
            body: erase_stmts(body),
        },
        SStmt::Return(e) => SStmt::Return(
            match e {
                Some(x) => Some(erase_expr(x)),
                None => None,
            },
        ),
    }
}

/// Statements with their places erased.
pub open spec fn erase_stmts(s: Seq<SStmt>) -> Seq<SStmt>
    decreases s,
{
    if s.len() == 0 {
        s
    } else {
        erase_stmts(s.drop_last()).push(erase_stmt(s.last()))
    }
}

/// The branches of an `if` with their places erased.
pub open spec fn erase_branches(s: Seq<(SCond, Seq<SStmt>)>) -> Seq<(SCond, Seq<SStmt>)>
    decreases s,
{
    if s.len() == 0 {
        s
    } else {
        erase_branches(s.drop_last()).push((erase_cond(s.last().0), erase_stmts(s.last().1)))
    }
}

/// A declared variable without its place.
pub open spec fn erase_var(v: SVarDecl) -> SVarDecl {
    SVarDecl { loc: None, ..v }
}

/// A declaration with every place erased.
pub open spec fn erase_decl(d: SDecl) -> SDecl {
    match d {
        SDecl::Var(v) => SDecl::Var(erase_var(v)),
        SDecl::Fn(f) => SDecl::Fn(
            SFunc {
                params: f.params.map_values(|v: SVarDecl| erase_var(v)),
                locals: f.locals.map_values(|v: SVarDecl| erase_var(v)),
                body: erase_stmts(f.body),
                ..f
            },
        ),
    }
}

proof fn lemma_erase_exprs_index(s: Seq<SExpr>)
    ensures
        erase_exprs(s).len() == s.len(),
        forall|k: int| 0 <= k < s.len() ==> #[trigger] erase_exprs(s)[k] == erase_expr(s[k]),
    decreases s.len(),
{
    if s.len() > 0 {
        lemma_erase_exprs_index(s.drop_last());
    }
}

proof fn lemma_erase_stmts_index(s: Seq<SStmt>)
    ensures
        erase_stmts(s).len() == s.len(),
        forall|k: int| 0 <= k < s.len() ==> #[trigger] erase_stmts(s)[k] == erase_stmt(s[k]),
    decreases s.len(),
{
    if s.len() > 0 {
        lemma_erase_stmts_index(s.drop_last());
    }
}

proof fn lemma_erase_branches_index(s: Seq<(SCond, Seq<SStmt>)>)
    ensures
        erase_branches(s).len() == s.len(),
        forall|k: int|
            0 <= k < s.len() ==> #[trigger] erase_branches(s)[k] == (
                erase_cond(s[k].0),
                erase_stmts(s[k].1),
            ),
    decreases s.len(),
{
    if s.len() > 0 {
        lemma_erase_branches_index(s.drop_last());
    }
}

proof fn lemma_erase_a_expr(st: SemState, e: SExpr)
    ensures
        erase_expr(a_expr(st, e).2) == erase_expr(e),
    decreases e, 0int,
{
    match e {
        SExpr::Call(name, args) => {
            lemma_erase_a_call(st, name, args);
        },
        SExpr::Binary { left, op, right } => {
            lemma_erase_a_expr(st, *left);
            lemma_erase_a_expr(a_expr(st, *left).0, *right);
        },
        SExpr::Unary { op, expr } => {
            lemma_erase_a_expr(st, *expr);
        },
        _ => {},
    }
}

proof fn lemma_erase_a_call(st: SemState, name: Seq<char>, args: Seq<SExpr>)
    ensures
        erase_exprs(a_call(st, name, args).2) == erase_exprs(args),
    decreases args, 1int,
{
    let s1 = st.with_table(st.table.after_lookup(name));
    if let Some(SSymbol::Fn { params, ret }) = table_find(st.table.scopes, name) {
        if params.len() == args.len() {
            lemma_erase_a_args(s1, name, params, args);
        }
    }
}

proof fn lemma_erase_a_args(st: SemState, name: Seq<char>, params: Seq<SVarDecl>, args: Seq<SExpr>)
    ensures
        erase_exprs(a_args(st, name, params, args).1) == erase_exprs(args),
    decreases args, 0int,
{
    if args.len() > 0 {
        lemma_erase_a_args(st, name, params, args.drop_last());
        let (s1, done) = a_args(st, name, params, args.drop_last());
        lemma_erase_a_expr(s1, args.last());
        let a1 = a_expr(s1, args.last()).2;
        assert(done.push(a1).drop_last() =~= done);
    }
}

proof fn lemma_erase_a_cond(st: SemState, c: SCond)
    ensures
        erase_cond(a_cond(st, c).1) == erase_cond(c),
{
    lemma_erase_a_expr(st, c.left);
    lemma_erase_a_expr(a_expr(st, c.left).0, c.right);
}

proof fn lemma_erase_a_stmt(st: SemState, s: SStmt)
    ensures
        erase_stmt(a_stmt(st, s).2) == erase_stmt(s),
    decreases s, 0int,
{
    match s {
        SStmt::Assign { name, loc, expr } => {
            let s1 = st.with_table(st.table.after_lookup(name));
            lemma_erase_a_expr(s1, expr);
        },
        SStmt::Call(name, args) => {
            lemma_erase_a_call(st, name, args);
        },
        SStmt::While { cond, body } => {
            lemma_erase_a_cond(st, cond);
            let (s1, c1) = a_cond(st, cond);
            let s2 = s1.with_table(s1.table.after_enter());
            lemma_erase_a_body(s2, body, body.len());
        },
        SStmt::Return(e) => {
            if let Some(x) = e {
                lemma_erase_a_expr(st, x);
            }
        },
        SStmt::If { branches, else_branch } => {
            lemma_erase_a_branches(st, branches, branches.len());
            if let Some(eb) = else_branch {
                let s1 = a_branches(st, branches, branches.len()).0;
                lemma_erase_a_seq(s1, eb, eb.len());
            }
        },
    }
}

proof fn lemma_erase_a_seq(st: SemState, stmts: Seq<SStmt>, n: nat)
    ensures
        erase_stmts(a_seq(st, stmts, n).2) == erase_stmts(stmts),
    decreases stmts, n,
{
    if n > 0 && n <= stmts.len() {
        lemma_erase_a_seq(st, stmts, (n - 1) as nat);
        let (s1, r1, cur) = a_seq(st, stmts, (n - 1) as nat);
        if r1 is None {
            lemma_erase_a_stmt(s1, stmts[n - 1]);
            let x = a_stmt(s1, stmts[n - 1]).2;
            lemma_erase_stmts_index(cur);
            lemma_erase_stmts_index(stmts);
            lemma_erase_stmts_index(cur.update(n - 1, x));
            assert(erase_stmts(cur.update(n - 1, x)) =~= erase_stmts(stmts));
        }
    }
}

proof fn lemma_erase_a_body(st: SemState, stmts: Seq<SStmt>, n: nat)
    ensures
        erase_stmts(a_body(st, stmts, n).1) == erase_stmts(stmts),
    decreases stmts, n,
{
    if n > 0 && n <= stmts.len() {
        lemma_erase_a_body(st, stmts, (n - 1) as nat);
        let (s1, cur) = a_body(st, stmts, (n - 1) as nat);
        lemma_erase_a_stmt(s1, stmts[n - 1]);
        let x = a_stmt(s1, stmts[n - 1]).2;
        lemma_erase_stmts_index(cur);
        lemma_erase_stmts_index(stmts);
        lemma_erase_stmts_index(cur.update(n - 1, x));
        assert(erase_stmts(cur.update(n - 1, x)) =~= erase_stmts(stmts));
    }
}

proof fn lemma_erase_a_branches(st: SemState, branches: Seq<(SCond, Seq<SStmt>)>, n: nat)
    ensures
        erase_branches(a_branches(st, branches, n).2) == erase_branches(branches),
    decreases branches, n,
{
    if n > 0 && n <= branches.len() {
        lemma_erase_a_branches(st, branches, (n - 1) as nat);
        let (s1, r1, cur) = a_branches(st, branches, (n - 1) as nat);
        lemma_erase_a_cond(s1, branches[n - 1].0);
        let (s2, c1) = a_cond(s1, branches[n - 1].0);
        lemma_erase_a_seq(s2, branches[n - 1].1, branches[n - 1].1.len());
        let b1 = a_seq(s2, branches[n - 1].1, branches[n - 1].1.len()).2;
        lemma_erase_branches_index(cur);
        lemma_erase_branches_index(branches);
        lemma_erase_branches_index(cur.update(n - 1, (c1, b1)));
        assert(erase_branches(cur.update(n - 1, (c1, b1))) =~= erase_branches(branches));
    }
}

proof fn lemma_erase_a_vars(
    st: SemState,
    fname: Seq<char>,
    what: Seq<char>,
    vars: Seq<SVarDecl>,
    n: nat,
    off: i32,
)
    ensures
        a_vars(st, fname, what, vars, n, off).1.map_values(|v: SVarDecl| erase_var(v))
            == vars.map_values(|v: SVarDecl| erase_var(v)),
    decreases n,
{
    if n > 0 && n <= vars.len() {
        lemma_erase_a_vars(st, fname, what, vars, (n - 1) as nat, off);
        let (s1, cur, o) = a_vars(st, fname, what, vars, (n - 1) as nat, off);
        let out = a_vars(st, fname, what, vars, n, off).1;
        assert(out.map_values(|v: SVarDecl| erase_var(v)) =~= cur.map_values(
            |v: SVarDecl| erase_var(v),
        ));
    }
}

proof fn lemma_erase_a_decl(st: SemState, d: SDecl)
    ensures
        erase_decl(a_decl(st, d).1) == erase_decl(d),
{
    if let SDecl::Fn(f) = d {
        let (ok, t) = st.table.after_insert(f.name, SSymbol::Fn { params: f.params, ret: f.ret });
        let s1 = if ok {
            st.with_table(t)
        } else {
            st.with_table(t).err("Redefined function "@ + f.name)
        };
        let s2 = s1.with_table(s1.table.after_enter());
        let pw = "Redefined parameter "@;
        let lw = "Redefined local variable "@;
        lemma_erase_a_vars(s2, f.name, pw, f.params, f.params.len(), frame_base());
        let (s3, params1, o) = a_vars(s2, f.name, pw, f.params, f.params.len(), frame_base());
        lemma_erase_a_vars(s3, f.name, lw, f.locals, f.locals.len(), o);
        let s4 = a_vars(s3, f.name, lw, f.locals, f.locals.len(), o).0;
        lemma_erase_a_seq(s4, f.body, f.body.len());
    }
}

/// The analysis only fills in places: with every place erased, the program
/// it gives back is the program it was given.
pub proof fn lemma_analysis_only_places(st: SemState, decls: Seq<SDecl>)
    ensures
        a_program(st, decls).2.map_values(|d: SDecl| erase_decl(d)) == decls.map_values(
            |d: SDecl| erase_decl(d),
        ),
{
    lemma_erase_a_decls(st, decls, decls.len());
}

proof fn lemma_erase_a_decls(st: SemState, decls: Seq<SDecl>, n: nat)
    ensures
        a_decls(st, decls, n).1.map_values(|d: SDecl| erase_decl(d)) == decls.map_values(
            |d: SDecl| erase_decl(d),
        ),
    decreases n,
{
    if n > 0 && n <= decls.len() {
        lemma_erase_a_decls(st, decls, (n - 1) as nat);
        let (s1, cur) = a_decls(st, decls, (n - 1) as nat);
        lemma_erase_a_decl(s1, decls[n - 1]);
        let out = a_decls(st, decls, n).1;
        assert(out.map_values(|d: SDecl| erase_decl(d)) =~= cur.map_values(
            |d: SDecl| erase_decl(d),
        ));
    }
}

// ---------------------------------------------------------------------------
// Errors are only ever added
// ---------------------------------------------------------------------------

/// `b` holds every error of `a`, in the same place, and perhaps more after them.
pub open spec fn keeps_errors(a: SemState, b: SemState) -> bool {
    &&& a.errors.len() <= b.errors.len()
    &&& forall|i: int| 0 <= i < a.errors.len() ==> #[trigger] b.errors[i] == a.errors[i]
}

proof fn lemma_keeps_a_expr(st: SemState, e: SExpr)
    ensures
        keeps_errors(st, a_expr(st, e).0),
    decreases e, 0int,
{
    match e {
        SExpr::Call(name, args) => {
            lemma_keeps_a_call(st, name, args);
        },
        SExpr::Binary { left, op, right } => {
            lemma_keeps_a_expr(st, *left);
            lemma_keeps_a_expr(a_expr(st, *left).0, *right);
        },
        SExpr::Unary { op, expr } => {
            lemma_keeps_a_expr(st, *expr);
        },
        _ => {},
    }
}

proof fn lemma_keeps_a_call(st: SemState, name: Seq<char>, args: Seq<SExpr>)
    ensures
        keeps_errors(st, a_call(st, name, args).0),
    decreases args, 1int,
{
    let s1 = st.with_table(st.table.after_lookup(name));
    if let Some(SSymbol::Fn { params, ret }) = table_find(st.table.scopes, name) {
        if params.len() == args.len() {
            lemma_keeps_a_args(s1, name, params, args);
        }
    }
}

proof fn lemma_keeps_a_args(st: SemState, name: Seq<char>, params: Seq<SVarDecl>, args: Seq<SExpr>)
    ensures
        keeps_errors(st, a_args(st, name, params, args).0),
    decreases args, 0int,
{
    if args.len() > 0 {
        lemma_keeps_a_args(st, name, params, args.drop_last());
        let s1 = a_args(st, name, params, args.drop_last()).0;
        lemma_keeps_a_expr(s1, args.last());
    }
}

/// Every argument of a call is checked against its own parameter: where
/// the type of argument `i` (analyzed after the arguments before it) is
/// neither `Error` nor the type of parameter `i`, the analysis of the
/// arguments records the error that names both types.
pub proof fn lemma_every_argument_checked(
    st: SemState,
    name: Seq<char>,
    params: Seq<SVarDecl>,
    args: Seq<SExpr>,
    i: int,
)
    requires
        params.len() >= args.len(),
        0 <= i < args.len(),
    ensures
        ({
            let before = a_args(st, name, params, args.take(i)).0;
            let actual = a_expr(before, args[i]).1;
            let expected = params[i].typ;
            actual != expected && actual != Type::Error ==> a_args(
                st,
                name,
                params,
                args,
            ).0.errors.contains(
                "Function "@ + name + " expected argument type "@ + expected.spec_name() + ", got "@
                    + actual.spec_name(),
            )
        }),
    decreases args.len(),
{
    let n = args.len();
    let (s1, done) = a_args(st, name, params, args.drop_last());
    let before = a_args(st, name, params, args.take(i)).0;
    let actual = a_expr(before, args[i]).1;
    let expected = params[i].typ;
    let msg = "Function "@ + name + " expected argument type "@ + expected.spec_name() + ", got "@
        + actual.spec_name();
    let res = a_args(st, name, params, args).0;
    if actual != expected && actual != Type::Error {
        if i == n - 1 {
            assert(args.take(i) =~= args.drop_last());
            assert(res.errors.last() == msg);
            assert(res.errors[res.errors.len() - 1] == msg);
        } else {
            assert(args.drop_last().take(i) =~= args.take(i));
            assert(args.drop_last()[i] == args[i]);
            lemma_every_argument_checked(st, name, params, args.drop_last(), i);
            let j = choose|j: int| 0 <= j < s1.errors.len() && s1.errors[j] == msg;
            lemma_keeps_a_expr(s1, args.last());
            let s2 = a_expr(s1, args.last()).0;
            assert(s2.errors[j] == msg);
            assert(res.errors[j] == msg);
        }
    }
}

proof fn lemma_keeps_a_cond(st: SemState, c: SCond)
    ensures
        keeps_errors(st, a_cond(st, c).0),
{
    lemma_keeps_a_expr(st, c.left);
    lemma_keeps_a_expr(a_expr(st, c.left).0, c.right);
}

proof fn lemma_keeps_a_stmt(st: SemState, s: SStmt)
    ensures
        keeps_errors(st, a_stmt(st, s).0),
    decreases s, 0int,
{
    match s {
        SStmt::Assign { name, loc, expr } => {
            let s1 = st.with_table(st.table.after_lookup(name));
            lemma_keeps_a_expr(s1, expr);
        },
        SStmt::Call(name, args) => {
            lemma_keeps_a_call(st, name, args);
        },
        SStmt::While { cond, body } => {
            lemma_keeps_a_cond(st, cond);
            let s1 = a_cond(st, cond).0;
            let s2 = s1.with_table(s1.table.after_enter());
            lemma_keeps_a_body(s2, body, body.len());
        },
        SStmt::Return(e) => {
            if let Some(x) = e {
                lemma_keeps_a_expr(st, x);
            }
        },
        SStmt::If { branches, else_branch } => {
            lemma_keeps_a_branches(st, branches, branches.len());
            if let Some(eb) = else_branch {
                let s1 = a_branches(st, branches, branches.len()).0;
                lemma_keeps_a_seq(s1, eb, eb.len());
            }
        },
    }
}

proof fn lemma_keeps_a_seq(st: SemState, stmts: Seq<SStmt>, n: nat)
    ensures
        keeps_errors(st, a_seq(st, stmts, n).0),
    decreases stmts, n,
{
    if n > 0 && n <= stmts.len() {
        lemma_keeps_a_seq(st, stmts, (n - 1) as nat);
        let (s1, r1, cur) = a_seq(st, stmts, (n - 1) as nat);
        if r1 is None {
            lemma_keeps_a_stmt(s1, stmts[n - 1]);
        }
    }
}

proof fn lemma_keeps_a_body(st: SemState, stmts: Seq<SStmt>, n: nat)
    ensures
        keeps_errors(st, a_body(st, stmts, n).0),
    decreases stmts, n,
{
    if n > 0 && n <= stmts.len() {
        lemma_keeps_a_body(st, stmts, (n - 1) as nat);
        let s1 = a_body(st, stmts, (n - 1) as nat).0;
        lemma_keeps_a_stmt(s1, stmts[n - 1]);
    }
}

proof fn lemma_keeps_a_branches(st: SemState, branches: Seq<(SCond, Seq<SStmt>)>, n: nat)
    ensures
        keeps_errors(st, a_branches(st, branches, n).0),
    decreases branches, n,
{
    if n > 0 && n <= branches.len() {
        lemma_keeps_a_branches(st, branches, (n - 1) as nat);
        let (s1, r1, cur) = a_branches(st, branches, (n - 1) as nat);
        lemma_keeps_a_cond(s1, branches[n - 1].0);
        let s2 = a_cond(s1, branches[n - 1].0).0;
        lemma_keeps_a_seq(s2, branches[n - 1].1, branches[n - 1].1.len());
    }
}

proof fn lemma_keeps_a_vars(
    st: SemState,
    fname: Seq<char>,
    what: Seq<char>,
    vars: Seq<SVarDecl>,
    n: nat,
    off: i32,
)
    ensures
        keeps_errors(st, a_vars(st, fname, what, vars, n, off).0),
    decreases n,
{
    if n > 0 && n <= vars.len() {
        lemma_keeps_a_vars(st, fname, what, vars, (n - 1) as nat, off);
    }
}

proof fn lemma_keeps_a_decl(st: SemState, d: SDecl)
    ensures
        keeps_errors(st, a_decl(st, d).0),
{
    if let SDecl::Fn(f) = d {
        let (ok, t) = st.table.after_insert(f.name, SSymbol::Fn { params: f.params, ret: f.ret });
        let s1 = if ok {
            st.with_table(t)
        } else {
            st.with_table(t).err("Redefined function "@ + f.name)
        };
        let s2 = s1.with_table(s1.table.after_enter());
        let pw = "Redefined parameter "@;
        let lw = "Redefined local variable "@;
        lemma_keeps_a_vars(s2, f.name, pw, f.params, f.params.len(), frame_base());
        let (s3, params1, o) = a_vars(s2, f.name, pw, f.params, f.params.len(), frame_base());
        lemma_keeps_a_vars(s3, f.name, lw, f.locals, f.locals.len(), o);
        let s4 = a_vars(s3, f.name, lw, f.locals, f.locals.len(), o).0;
        lemma_keeps_a_seq(s4, f.body, f.body.len());
    }
}

proof fn lemma_keeps_a_decls(st: SemState, decls: Seq<SDecl>, n: nat)
    ensures
        keeps_errors(st, a_decls(st, decls, n).0),
    decreases n,
{
    if n > 0 && n <= decls.len() {
        lemma_keeps_a_decls(st, decls, (n - 1) as nat);
        let s1 = a_decls(st, decls, (n - 1) as nat).0;
        lemma_keeps_a_decl(s1, decls[n - 1]);
    }
}

/// The analysis only adds errors: those recorded before stay where they
/// were, so once an analysis has failed every later one on the same
/// analyzer fails too. Whether it passes depends on the errors alone;
/// warnings never make it fail.
pub proof fn lemma_errors_only_grow(st: SemState, decls: Seq<SDecl>)
    ensures
        keeps_errors(st, a_program(st, decls).0),
        st.errors.len() > 0 ==> !a_program(st, decls).1,
        a_program(st, decls).1 <==> a_program(st, decls).0.errors.len() == 0,
{
    lemma_keeps_a_decls(st, decls, decls.len());
}

// ---------------------------------------------------------------------------
// The analyzer
// ---------------------------------------------------------------------------

/// An error the analysis found.
#[derive(Debug)]
pub struct SemanticError {
    pub message: String,
}

impl Clone for SemanticError {
    fn clone(&self) -> (r: Self)
        ensures
            r.message@ == self.message@,
    {
        SemanticError { message: self.message.clone() }
    }
}

/// The messages of a list of errors.
pub open spec fn messages(v: Seq<SemanticError>) -> Seq<Seq<char>> {
    v.map_values(|e: SemanticError| e.message@)
}

/// Checks a program and places its variables; it keeps the symbol table,
/// the errors and the warnings.
pub struct SemanticAnalyzer {
    pub symbols: SymbolTable,
    errors: Vec<SemanticError>,
    warnings: Vec<String>,
}

/// The state of a new analyzer: the built-in functions only, no errors and no warnings.
pub open spec fn initial_state() -> SemState {
    SemState { table: initial_table(), errors: seq![], warnings: seq![] }
}

impl View for SemanticAnalyzer {
    type V = SemState;

    closed spec fn view(&self) -> SemState {
        SemState {
            table: self.symbols@,
            errors: messages(self.errors@),
            warnings: texts(self.warnings@),
        }
    }
}

impl Default for SemanticAnalyzer {
    fn default() -> (r: Self)
        ensures
            r@ == initial_state(),
    {
        Self::new()
    }
}

impl SemanticAnalyzer {
    /// An analyzer that knows the built-in functions only.
    pub fn new() -> (r: Self)
        ensures
            r@ == initial_state(),
    {
        let r = Self { symbols: SymbolTable::new(), errors: Vec::new(), warnings: Vec::new() };
        assert(r@.errors =~= seq![]);
        assert(r@.warnings =~= seq![]);
        r
    }

    /// Records an error.
    pub fn error(&mut self, msg: String)
        ensures
            final(self)@ == old(self)@.err(msg@),
    {
        self.errors.push(SemanticError { message: msg });
        assert(final(self)@.errors =~= old(self)@.errors.push(msg@));
    }

    fn warning(&mut self, msg: String)
        ensures
            final(self)@ == old(self)@.warn(msg@),
    {
        self.warnings.push(msg);
        assert(final(self)@.warnings =~= old(self)@.warnings.push(msg@));
    }

    /// The errors recorded so far.
    pub fn errors(&self) -> (r: &Vec<SemanticError>)
        ensures
            messages(r@) == self@.errors,
    {
        &self.errors
    }

    /// The warnings recorded so far.
    pub fn warnings(&self) -> (r: &Vec<String>)
        ensures
            texts(r@) == self@.warnings,
    {
        &self.warnings
    }

    fn analyze_expr(&mut self, e: &mut Expr) -> (t: Type)
        ensures
            (final(self)@, t, final(e)@) == a_expr(old(self)@, old(e)@),
            final(self)@.table.scopes == old(self)@.table.scopes,
        decreases *old(e),
    {
        match e {
            Expr::Number(_) => Type::Int,
            Expr::Char(_) => Type::Char,
            Expr::Ident { name, loc } => {
                let found: Option<Option<(Type, VarLocation)>> = match self.symbols.lookup(
                    name.as_str(),
                ) {
                    Some(Symbol::Var { typ, loc: l }) => Some(Some((*typ, l.clone()))),
                    Some(Symbol::Fn { .. }) => Some(None),
                    None => None,
                };
                match found {
                    Some(Some((t, l))) => {
                        *loc = Some(l);
                        t
                    },
                    Some(None) => Type::Error,
                    None => {
                        let mut m = text_of("Undefined variable ");
                        m.append(name.as_str());
                        self.error(m);
                        Type::Error
                    },
                }
            },
            Expr::Call(name, args) => self.analyze_func_call(name, args),
            Expr::Binary { left, op, right } => {
                let lt = self.analyze_expr(&mut **left);
                let rt = self.analyze_expr(&mut **right);
                if lt != Type::Int || rt != Type::Int {
                    let mut m = text_of("Cannot perform ");
                    m.append(op.name());
                    m.append(" on ");
                    m.append(lt.name());
                    m.append(" and ");
                    m.append(rt.name());
                    self.error(m);
                    Type::Error
                } else {
                    Type::Int
                }
            },
            Expr::Unary { op, expr } => {
                let t = self.analyze_expr(&mut **expr);
                if t != Type::Int {
                    let mut m = text_of("Cannot perform ");
                    m.append(op.name());
                    m.append(" on non-integer types");
                    self.error(m);
                    Type::Error
                } else {
                    Type::Int
                }
            },
        }
    }

    fn analyze_func_call(&mut self, name: &String, args: &mut Vec<Expr>) -> (t: Type)
        ensures
            (final(self)@, t, exprs_view(final(args)@)) == a_call(
                old(self)@,
                name@,
                exprs_view(old(args)@),
            ),
            final(self)@.table.scopes == old(self)@.table.scopes,
        decreases *old(args),
    {
        let found: Option<Option<(Vec<VarDecl>, Type)>> = match self.symbols.lookup(name.as_str()) {
            Some(Symbol::Fn { params, ret }) => Some(Some((copy_vardecls(params), *ret))),
            Some(Symbol::Var { .. }) => Some(None),
            None => None,
        };
        proof {
            lemma_exprs_view_index(args@);
        }
        match found {
            None => {
                let mut m = text_of("Undefined function ");
                m.append(name.as_str());
                self.error(m);
                Type::Error
            },
            Some(None) => {
                let mut m = name.clone();
                m.append(" is not a function");
                self.error(m);
                Type::Error
            },
            Some(Some((params, ret))) => {
                if params.len() != args.len() {
                    let mut m = text_of("Function ");
                    m.append(name.as_str());
                    m.append(" expects ");
                    append_u64(&mut m, params.len() as u64);
                    m.append(" arguments, got ");
                    append_u64(&mut m, args.len() as u64);
                    self.error(m);
                    return Type::Error;
                }
                let ghost st1 = self@;
                let ghost pv = vardecls_view(params@);
                let ghost a0 = exprs_view(old(args)@);
                let mut i: usize = 0;
                assert(a0.take(0) =~= seq![]);
                assert(exprs_view(args@).take(0) =~= seq![]);
                while i < args.len()
                    invariant
                        i <= args.len(),
                        params.len() == args.len(),
                        args@.len() == old(args)@.len(),
                        a0 == exprs_view(old(args)@),
                        pv == vardecls_view(params@),
                        forall|j: int| i <= j < args@.len() ==> args@[j] == old(args)@[j],
                        (self@, exprs_view(args@).take(i as int)) == a_args(
                            st1,
                            name@,
                            pv,
                            a0.take(i as int),
                        ),
                        self@.table.scopes == old(self)@.table.scopes,
                    decreases args.len() - i,
                {
                    proof {
                        lemma_exprs_view_index(args@);
                        lemma_exprs_view_index(old(args)@);
                        assert(a0.take(i + 1).drop_last() =~= a0.take(i as int));
                    }
                    let ghost before = args@;
                    let actual = self.analyze_expr(&mut args[i]);
                    let expected = params[i].typ;
                    if actual != expected && actual != Type::Error {
                        let mut m = text_of("Function ");
                        m.append(name.as_str());
                        m.append(" expected argument type ");
                        m.append(expected.name());
                        m.append(", got ");
                        m.append(actual.name());
                        self.error(m);
                    }
                    proof {
                        lemma_exprs_view_update(before, i as int, args@[i as int]);
                        assert(args@ == before.update(i as int, args@[i as int]));
                        lemma_exprs_view_index(args@);
                        assert(exprs_view(args@).take(i + 1) =~= exprs_view(args@).take(
                            i as int,
                        ).push(exprs_view(args@)[i as int]));
                        assert(exprs_view(args@).take(i as int) =~= exprs_view(before).take(
                            i as int,
                        ));
                    }
                    i = i + 1;
                }
                assert(a0.take(args.len() as int) =~= a0);
                proof {
                    lemma_exprs_view_index(args@);
                }
                assert(exprs_view(args@).take(args.len() as int) =~= exprs_view(args@));
                ret
            },
        }
    }

    fn analyze_condition(&mut self, c: &mut Condition)
        ensures
            (final(self)@, final(c)@) == a_cond(old(self)@, old(c)@),
            final(self)@.table.scopes == old(self)@.table.scopes,
    {
        let lt = self.analyze_expr(&mut c.left);
        let rt = self.analyze_expr(&mut c.right);
        if lt == Type::Error || rt == Type::Error {
            return;
        }
        if lt != rt {
            let mut m = text_of("Cannot compare ");
            m.append(lt.name());
            m.append(" with ");
            m.append(rt.name());
            self.error(m);
        }
    }

    fn merge_return_types(&mut self, a: Option<Type>, b: Option<Type>) -> (r: Option<Type>)
        ensures
            (final(self)@, r) == merge_returns(old(self)@, a, b),
    {
        match (a, b) {
            (None, t) => t,
            (t, None) => t,
            (Some(x), Some(y)) => {
                if x == Type::Error || y == Type::Error {
                    Some(Type::Error)
                } else if x == y {
                    Some(x)
                } else {
                    let mut m = text_of("Mismatched return types: ");
                    m.append(x.name());
                    m.append(" vs ");
                    m.append(y.name());
                    self.error(m);
                    Some(Type::Error)
                }
            },
        }
    }

    fn analyze_assign(&mut self, s: &mut Statement)
        requires
            *old(s) is Assign,
        ensures
            (final(self)@, None::<Type>, final(s)@) == a_stmt(old(self)@, old(s)@),
            final(self)@.table.scopes == old(self)@.table.scopes,
    {
        let (name, loc, expr) = match s {
            Statement::Assign { name, loc, expr } => (name, loc, expr),
            _ => {
                return;
            },
        };
        let found: Option<Option<(Type, VarLocation)>> = match self.symbols.lookup(name.as_str()) {
            Some(Symbol::Var { typ, loc: l }) => Some(Some((*typ, l.clone()))),
            Some(Symbol::Fn { .. }) => Some(None),
            None => None,
        };
        match found {
            Some(Some((lt, l))) => {
                let rt = self.analyze_expr(expr);
                if lt != Type::Error && rt != Type::Error && lt != rt {
                    let mut m = text_of("Cannot assign ");
                    m.append(rt.name());
                    m.append(" to ");
                    m.append(lt.name());
                    self.error(m);
                }
                *loc = Some(l);
            },
            Some(None) => {
                let mut m = text_of("Cannot assign to function ");
                m.append(name.as_str());
                self.error(m);
            },
            None => {
                let mut m = text_of("Undefined variable ");
                m.append(name.as_str());
                self.error(m);
            },
        }
    }

    fn analyze_statement(&mut self, s: &mut Statement) -> (r: Option<Type>)
        ensures
            (final(self)@, r, final(s)@) == a_stmt(old(self)@, old(s)@),
            final(self)@.table.scopes == old(self)@.table.scopes,
        decreases *old(s),
    {
        match s {
            Statement::Assign { .. } => {
                self.analyze_assign(s);
                None
            },
            Statement::Call(name, args) => {
                let _t = self.analyze_func_call(name, args);
                None
            },
            Statement::While { cond, body } => {
                proof {
                    lemma_stmts_view_index(body@);
                }
                self.analyze_condition(cond);
                self.symbols.enter_scope();
                self.analyze_loop_body(body);
                self.symbols.exit_scope();
                None
            },
            Statement::Return(ret_val) => match ret_val {
                Some(ret) => Some(self.analyze_expr(ret)),
                None => Some(Type::Void),
            },
            Statement::If { branches, else_branch } => {
                proof {
                    lemma_branches_view_index(branches@);
                }
                let ret = self.analyze_branches(branches);
                match else_branch {
                    Some(else_stmts) => {
                        proof {
                            lemma_stmts_view_index(else_stmts@);
                        }
                        let ret_val = self.analyze_stat_seq(else_stmts);
                        self.merge_return_types(ret, ret_val)
                    },
                    None => ret,
                }
            },
        }
    }

    /// Analyzes a sequence of statements up to the first that returns, and
    /// gives the type it returns.
    fn analyze_stat_seq(&mut self, v: &mut Vec<Statement>) -> (r: Option<Type>)
        ensures
            (final(self)@, r, stmts_view(final(v)@)) == a_seq(
                old(self)@,
                stmts_view(old(v)@),
                old(v)@.len(),
            ),
            final(self)@.table.scopes == old(self)@.table.scopes,
        decreases *old(v),
    {
        let ghost st0 = self@;
        let ghost v0 = stmts_view(old(v)@);
        proof {
            lemma_stmts_view_index(old(v)@);
        }
        let mut i: usize = 0;
        while i < v.len()
            invariant
                i <= v.len(),
                v@.len() == old(v)@.len(),
                v0 == stmts_view(old(v)@),
                v0.len() == v@.len(),
                forall|j: int| i <= j < v@.len() ==> v@[j] == old(v)@[j],
                (self@, None::<Type>, stmts_view(v@)) == a_seq(st0, v0, i as nat),
                st0 == old(self)@,
                self@.table.scopes == old(self)@.table.scopes,
            decreases v.len() - i,
        {
            let ghost before = v@;
            proof {
                lemma_stmts_view_index(before);
                lemma_stmts_view_index(old(v)@);
            }
            let r = self.analyze_statement(&mut v[i]);
            proof {
                lemma_stmts_view_update(before, i as int, v@[i as int]);
                assert(v@ == before.update(i as int, v@[i as int]));
            }
            match r {
                Some(t) => {
                    if i + 1 != v.len() {
                        let mut m = text_of("Dead code found after ");
                        let d = stmt_debug_text(&v[i]);
                        m.append(d.as_str());
                        self.warning(m);
                    }
                    proof {
                        lemma_a_seq_stops(st0, v0, (i + 1) as nat, v0.len());
                    }
                    return Some(t);
                },
                None => {},
            }
            i = i + 1;
        }
        None
    }

    /// Analyzes each statement of a loop's body.
    fn analyze_loop_body(&mut self, v: &mut Vec<Statement>)
        ensures
            (final(self)@, stmts_view(final(v)@)) == a_body(
                old(self)@,
                stmts_view(old(v)@),
                old(v)@.len(),
            ),
            final(self)@.table.scopes == old(self)@.table.scopes,
        decreases *old(v),
    {
        let ghost st0 = self@;
        let ghost v0 = stmts_view(old(v)@);
        proof {
            lemma_stmts_view_index(old(v)@);
        }
        let mut i: usize = 0;
        while i < v.len()
            invariant
                i <= v.len(),
                v@.len() == old(v)@.len(),
                v0 == stmts_view(old(v)@),
                v0.len() == v@.len(),
                forall|j: int| i <= j < v@.len() ==> v@[j] == old(v)@[j],
                (self@, stmts_view(v@)) == a_body(st0, v0, i as nat),
                st0 == old(self)@,
                self@.table.scopes == old(self)@.table.scopes,
            decreases v.len() - i,
        {
            let ghost before = v@;
            proof {
                lemma_stmts_view_index(before);
                lemma_stmts_view_index(old(v)@);
            }
            let _r = self.analyze_statement(&mut v[i]);
            proof {
                lemma_stmts_view_update(before, i as int, v@[i as int]);
                assert(v@ == before.update(i as int, v@[i as int]));
            }
            i = i + 1;
        }
    }

    /// Analyzes the branches of an `if` and combines what they return.
    fn analyze_branches(&mut self, v: &mut Vec<(Condition, Vec<Statement>)>) -> (r: Option<Type>)
        ensures
            (final(self)@, r, branches_view(final(v)@)) == a_branches(
                old(self)@,
                branches_view(old(v)@),
                old(v)@.len(),
            ),
            final(self)@.table.scopes == old(self)@.table.scopes,
        decreases *old(v),
    {
        let ghost st0 = self@;
        let ghost v0 = branches_view(old(v)@);
        proof {
            lemma_branches_view_index(old(v)@);
        }
        let mut ret: Option<Type> = None;
        let mut i: usize = 0;
        while i < v.len()
            invariant
                i <= v.len(),
                v@.len() == old(v)@.len(),
                v0 == branches_view(old(v)@),
                v0.len() == v@.len(),
                forall|j: int| i <= j < v@.len() ==> v@[j] == old(v)@[j],
                (self@, ret, branches_view(v@)) == a_branches(st0, v0, i as nat),
                st0 == old(self)@,
                self@.table.scopes == old(self)@.table.scopes,
            decreases v.len() - i,
        {
            let ghost before = v@;
            proof {
                lemma_branches_view_index(before);
                lemma_branches_view_index(old(v)@);
            }
            let ghost b_before = v@[i as int];
            let br = &mut v[i];
            self.analyze_condition(&mut br.0);
            let ret_val = self.analyze_stat_seq(&mut br.1);
            ret = self.merge_return_types(ret, ret_val);
            proof {
                lemma_branches_view_update(before, i as int, v@[i as int]);
                assert(v@ == before.update(i as int, v@[i as int]));
                lemma_stmts_view_index(b_before.1@);
            }
            i = i + 1;
        }
        ret
    }

    /// Declares a function's parameters or local variables in the innermost
    /// scope and gives each its place in the stack frame, from `off` on; the
    /// result is the first offset after them.
    fn analyze_vars(&mut self, fname: &String, what: &str, vars: &mut Vec<VarDecl>, off: i32) -> (o: i32)
        requires
            old(self)@.table.scopes.len() > 0,
        ensures
            (final(self)@, vardecls_view(final(vars)@), o) == a_vars(
                old(self)@,
                fname@,
                what@,
                vardecls_view(old(vars)@),
                old(vars)@.len(),
                off,
            ),
            final(self)@.table.scopes.len() == old(self)@.table.scopes.len(),
    {
        let ghost st0 = self@;
        let ghost v0 = vardecls_view(old(vars)@);
        let mut o = off;
        let mut i: usize = 0;
        while i < vars.len()
            invariant
                i <= vars.len(),
                vars@.len() == old(vars)@.len(),
                v0 == vardecls_view(old(vars)@),
                st0 == old(self)@,
                forall|j: int| i <= j < vars@.len() ==> vars@[j] == old(vars)@[j],
                (self@, vardecls_view(vars@), o) == a_vars(st0, fname@, what@, v0, i as nat, off),
                self@.table.scopes.len() == old(self)@.table.scopes.len(),
                old(self)@.table.scopes.len() > 0,
            decreases vars.len() - i,
        {
            let mut typ = vars[i].typ;
            let size = typ.get_size();
            let loc = VarLocation::Stack((size, o));
            let ok = self.symbols.insert(vars[i].name.clone(), Symbol::Var { typ, loc: loc.clone() });
            if !ok {
                let mut m = text_of(what);
                m.append(fname.as_str());
                self.error(m);
            }
            let ghost before = vars@;
            let d = VarDecl { name: vars[i].name.clone(), typ, loc: Some(loc) };
            vars.set(i, d);
            assert(vardecls_view(vars@) =~= vardecls_view(before).update(i as int, vardecl_view(d)));
            o = if o as i64 + size as i64 <= i32::MAX as i64 {
                o + size as i32
            } else {
                i32::MAX
            };
            i = i + 1;
        }
        o
    }

    /// Analyzes one declaration.
    fn analyze_declaration(&mut self, d: &mut Declaration)
        requires
            old(self)@.table.scopes.len() > 0,
        ensures
            (final(self)@, final(d)@) == a_decl(old(self)@, old(d)@),
            final(self)@.table.scopes.len() == old(self)@.table.scopes.len(),
    {
        match d {
            Declaration::Var(v) => {
                let mut typ = v.typ;
                let size = typ.get_size();
                let loc = VarLocation::Global((size, v.name.clone()));
                let ok = self.symbols.insert(v.name.clone(), Symbol::Var { typ, loc: loc.clone() });
                if !ok {
                    let mut m = text_of("Duplicate variable ");
                    m.append(v.name.as_str());
                    self.error(m);
                }
                v.loc = Some(loc);
            },
            Declaration::Fn(f) => {
                self.analyze_function(f);
            },
        }
    }

    /// Analyzes a function: its declaration, its parameters and local
    /// variables, and its body.
    fn analyze_function(&mut self, f: &mut FuncDecl)
        requires
            old(self)@.table.scopes.len() > 0,
        ensures
            (final(self)@, func_view(*final(f))) == a_func(old(self)@, func_view(*old(f))),
            final(self)@.table.scopes.len() == old(self)@.table.scopes.len(),
    {
        proof {
            lemma_stmts_view_index(f.body@);
        }
        let params = copy_vardecls(&f.params);
        let ok = self.symbols.insert(f.name.clone(), Symbol::Fn { params, ret: f.ret });
        if !ok {
            let mut m = text_of("Redefined function ");
            m.append(f.name.as_str());
            self.error(m);
        }
        self.symbols.enter_scope();
        let o = self.analyze_vars(&f.name, "Redefined parameter ", &mut f.params, 24);
        let _o = self.analyze_vars(&f.name, "Redefined local variable ", &mut f.locals, o);
        match self.analyze_stat_seq(&mut f.body) {
            Some(ret_type) => {
                if ret_type != Type::Error && ret_type != f.ret {
                    let mut m = text_of("Function ");
                    m.append(f.name.as_str());
                    m.append(" needs to return ");
                    m.append(f.ret.name());
                    m.append(" not ");
                    m.append(ret_type.name());
                    self.error(m);
                }
            },
            None => {
                if f.ret != Type::Void {
                    let mut m = text_of("Function ");
                    m.append(f.name.as_str());
                    m.append(" does not have a return value");
                    self.error(m);
                }
            },
        }
        self.symbols.exit_scope();
    }

    /// Analyzes a program: each declaration in order, then the check that
    /// it has a function `main` returning `int` or nothing. Each variable
    /// gets its place in memory, and each use of a variable records it. The
    /// result is whether no error has been recorded.
    pub fn analyze_program(&mut self, decls: &mut Vec<Declaration>) -> (r: bool)
        requires
            old(self)@.table.scopes.len() > 0,
        ensures
            (final(self)@, r, decls_view(final(decls)@)) == a_program(
                old(self)@,
                decls_view(old(decls)@),
            ),
            final(self)@.table.scopes.len() == old(self)@.table.scopes.len(),
    {
        let ghost st0 = self@;
        let ghost d0 = decls_view(old(decls)@);
        let mut found_main = false;
        let mut i: usize = 0;
        while i < decls.len()
            invariant
                i <= decls.len(),
                decls@.len() == old(decls)@.len(),
                d0 == decls_view(old(decls)@),
                st0 == old(self)@,
                forall|j: int| i <= j < decls@.len() ==> decls@[j] == old(decls)@[j],
                (self@, decls_view(decls@)) == a_decls(st0, d0, i as nat),
                found_main == exists|j: int| 0 <= j < i && is_main(#[trigger] d0[j]),
                self@.table.scopes.len() == old(self)@.table.scopes.len(),
                old(self)@.table.scopes.len() > 0,
            decreases decls.len() - i,
        {
            let ghost before = decls@;
            self.analyze_declaration(&mut decls[i]);
            assert(decls_view(decls@) =~= decls_view(before).update(i as int, decl_view(decls@[i as int])));
            match &decls[i] {
                Declaration::Fn(f) => {
                    if f.name == text_of("main") && (f.ret == Type::Int || f.ret == Type::Void) {
                        found_main = true;
                    }
                },
                Declaration::Var(_) => {},
            }
            assert(is_main(d0[i as int]) == is_main(decl_view(decls@[i as int])));
            assert(found_main == exists|j: int| 0 <= j < i + 1 && is_main(#[trigger] d0[j])) by {
                if is_main(d0[i as int]) {
                    assert(0 <= i < i + 1);
                }
            }
            i = i + 1;
        }
        if !found_main {
            self.error(text_of("No main method found"));
        }
        self.errors.len() == 0
    }

    /// The error messages, each on a line of its own, and a last line that
    /// counts them.
    pub fn error_report(&self) -> (r: Vec<String>)
        ensures
            texts(r@) == self@.errors.push(
                "slang: Compilation failed with "@ + nat_text(self@.errors.len())
                    + " errors."@,
            ),
    {
        let mut r: Vec<String> = Vec::new();
        let mut i: usize = 0;
        while i < self.errors.len()
            invariant
                i <= self.errors.len(),
                texts(r@) == messages(self.errors@).take(i as int),
            decreases self.errors.len() - i,
        {
            let ghost prev = r@;
            let m = self.errors[i].message.clone();
            r.push(m);
            assert(r@ == prev.push(m));
            assert(texts(r@) =~= texts(prev).push(m@));
            assert(messages(self.errors@).take(i + 1) =~= messages(self.errors@).take(i as int).push(
                self.errors@[i as int].message@,
            ));
            i = i + 1;
        }
        let mut last = text_of("slang: Compilation failed with ");
        append_u64(&mut last, self.errors.len() as u64);
        last.append(" errors.");
        let ghost prev = r@;
        r.push(last);
        assert(texts(r@) =~= texts(prev).push(last@));
        assert(messages(self.errors@).take(self.errors@.len() as int) =~= messages(self.errors@));
        assert(texts(r@) =~= self@.errors.push(
            "slang: Compilation failed with "@ + nat_text(self@.errors.len()) + " errors."@,
        ));
        r
    }

    /// The warnings, each on a line of its own, and a last line that counts them.
    pub fn warning_report(&self) -> (r: Vec<String>)
        ensures
            texts(r@) == self@.warnings.push(
                "slang: Compilation succedded with "@ + nat_text(self@.warnings.len())
                    + " warnings."@,
            ),
    {
        let mut r: Vec<String> = Vec::new();
        let mut i: usize = 0;
        while i < self.warnings.len()
            invariant
                i <= self.warnings.len(),
                texts(r@) == texts(self.warnings@).take(i as int),
            decreases self.warnings.len() - i,
        {
            let ghost prev = r@;
            let m = self.warnings[i].clone();
            r.push(m);
            assert(r@ == prev.push(m));
            assert(texts(r@) =~= texts(prev).push(m@));
            assert(texts(self.warnings@).take(i + 1) =~= texts(self.warnings@).take(i as int).push(
                self.warnings@[i as int]@,
            ));
            i = i + 1;
        }
        let mut last = text_of("slang: Compilation succedded with ");
        append_u64(&mut last, self.warnings.len() as u64);
        last.append(" warnings.");
        let ghost prev = r@;
        r.push(last);
        assert(texts(r@) =~= texts(prev).push(last@));
        assert(texts(self.warnings@).take(self.warnings@.len() as int) =~= texts(self.warnings@));
        assert(texts(r@) =~= self@.warnings.push(
            "slang: Compilation succedded with "@ + nat_text(self@.warnings.len()) + " warnings."@,
        ));
        r
    }
}

} // verus!
