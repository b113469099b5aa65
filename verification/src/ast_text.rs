//! The syntax tree as `{:?}` prints it, for the compiler's diagnostics.
use vstd::prelude::*;

use crate::structs::{
    Condition,
    Expr,
    SCond,
    SExpr,
    SLoc,
    SStmt,
    Statement,
    VarLocation,
    branches_view,
    exprs_view,
    lemma_branches_view_push,
    lemma_exprs_view_push,
    lemma_stmts_view_push,
    opt_loc_view,
    stmts_view,
};
use crate::text::{
    append_i64,
    append_u64,
    char_debug,
    char_debug_text,
    int_text,
    str_debug,
    str_debug_text,
};

verus! {

/// An optional variable location, as `{:?}` prints it.
pub open spec fn opt_loc_debug(l: Option<SLoc>) -> Seq<char> {
    match l {
        None => "None"@,
        Some(SLoc::Stack(size, off)) => "Some(Stack(("@ + int_text(size as int) + ", "@ + int_text(
            off as int,
        ) + ")))"@,
        Some(SLoc::Global(size, label)) => "Some(Global(("@ + int_text(size as int) + ", "@
            + str_debug_text(label) + ")))"@,
    }
}

/// An expression, as `{:?}` prints it.
pub open spec fn expr_debug(e: SExpr) -> Seq<char>
    decreases e,
{
    match e {
        SExpr::Number(n) => "Number("@ + int_text(n) + ")"@,
        SExpr::Char(c) => "Char("@ + char_debug_text(c) + ")"@,
        SExpr::Call(name, args) => "Call("@ + str_debug_text(name) + ", ["@ + exprs_debug(args)
            + "])"@,
        SExpr::Ident { name, loc } => "Ident { name: "@ + str_debug_text(name) + ", loc: "@
            + opt_loc_debug(loc) + " }"@,
        SExpr::Unary { op, expr } => "Unary { op: "@ + op.spec_name() + ", expr: "@ + expr_debug(
            *expr,
        ) + " }"@,
        SExpr::Binary { left, op, right } => "Binary { left: "@ + expr_debug(*left) + ", op: "@
            + op.spec_name() + ", right: "@ + expr_debug(*right) + " }"@,
    }
}

/// Expressions separated by `, `.
pub open spec fn exprs_debug(s: Seq<SExpr>) -> Seq<char>
    decreases s,
{
    if s.len() == 0 {
        seq![]
    } else if s.len() == 1 {
        expr_debug(s[0])
    } else {
        exprs_debug(s.drop_last()) + ", "@ + expr_debug(s.last())
    }
}

/// A condition, as `{:?}` prints it.
pub open spec fn cond_debug(c: SCond) -> Seq<char> {
    "Condition { left: "@ + expr_debug(c.left) + ", op: "@ + c.op.spec_name() + ", right: "@
        + expr_debug(c.right) + " }"@
}

/// A statement, as `{:?}` prints it.
pub open spec fn stmt_debug(s: SStmt) -> Seq<char>
    decreases s,
{
    match s {
        SStmt::Call(name, args) => "Call("@ + str_debug_text(name) + ", ["@ + exprs_debug(args)
            + "])"@,
        SStmt::Assign { name, loc, expr } => "Assign { name: "@ + str_debug_text(name)
            + ", loc: "@ + opt_loc_debug(loc) + ", expr: "@ + expr_debug(expr) + " }"@,
        SStmt::If { branches, else_branch } => "If { branches: ["@ + branches_debug(branches)
            + "], else_branch: "@ + match else_branch {
            None => "None"@,
            Some(b) => "Some(["@ + stmts_debug(b) + "])"@,
        } + " }"@,
        SStmt::While { cond, body } => "While { cond: "@ + cond_debug(cond) + ", body: ["@
            + stmts_debug(body) + "] }"@,
        SStmt::Return(e) => "Return("@ + match e {
            None => "None"@,
            Some(x) => "Some("@ + expr_debug(x) + ")"@,
        } + ")"@,
    }
}

/// Statements separated by `, `.
pub open spec fn stmts_debug(s: Seq<SStmt>) -> Seq<char>
    decreases s,
{
    if s.len() == 0 {
        seq![]
    } else if s.len() == 1 {
        stmt_debug(s[0])
    } else {
        stmts_debug(s.drop_last()) + ", "@ + stmt_debug(s.last())
    }
}

/// The branches of an `if`, each a pair of a condition and a list of statements.
pub open spec fn branches_debug(s: Seq<(SCond, Seq<SStmt>)>) -> Seq<char>
    decreases s,
{
    if s.len() == 0 {
        seq![]
    } else if s.len() == 1 {
        "("@ + cond_debug(s[0].0) + ", ["@ + stmts_debug(s[0].1) + "])"@
    } else {
        branches_debug(s.drop_last()) + ", "@ + ("("@ + cond_debug(s.last().0) + ", ["@
            + stmts_debug(s.last().1) + "])"@)
    }
}

/// Appends an optional variable location as `{:?}` prints it.
pub fn write_loc(out: &mut String, l: &Option<VarLocation>)
    ensures
        final(out)@ == old(out)@ + opt_loc_debug(opt_loc_view(*l)),
{
    match l {
        None => {
            out.append("None");
        },
        Some(VarLocation::Stack((size, off))) => {
            out.append("Some(Stack((");
            append_u64(out, *size as u64);
            out.append(", ");
            append_i64(out, *off as i64);
            out.append(")))");
        },
        Some(VarLocation::Global((size, label))) => {
            out.append("Some(Global((");
            append_u64(out, *size as u64);
            out.append(", ");
            let d = str_debug(label.as_str());
            out.append(d.as_str());
            out.append(")))");
        },
    }
    assert(out@ =~= old(out)@ + opt_loc_debug(opt_loc_view(*l)));
}

/// Appends an expression as `{:?}` prints it.
pub fn write_expr(out: &mut String, e: &Expr)
    ensures
        final(out)@ == old(out)@ + expr_debug(e@),
    decreases e,
{
    match e {
        Expr::Number(n) => {
            out.append("Number(");
            append_i64(out, *n);
            out.append(")");
        },
        Expr::Char(c) => {
            out.append("Char(");
            let d = char_debug(*c);
            out.append(d.as_str());
            out.append(")");
        },
        Expr::Call(name, args) => {
            out.append("Call(");
            let d = str_debug(name.as_str());
            out.append(d.as_str());
            out.append(", [");
            write_exprs(out, args);
            out.append("])");
        },
        Expr::Ident { name, loc } => {
            out.append("Ident { name: ");
            let d = str_debug(name.as_str());
            out.append(d.as_str());
            out.append(", loc: ");
            write_loc(out, loc);
            out.append(" }");
        },
        Expr::Unary { op, expr } => {
            out.append("Unary { op: ");
            out.append(op.name());
            out.append(", expr: ");
            write_expr(out, expr);
            out.append(" }");
        },
        Expr::Binary { left, op, right } => {
            out.append("Binary { left: ");
            write_expr(out, left);
            out.append(", op: ");
            out.append(op.name());
            out.append(", right: ");
            write_expr(out, right);
            out.append(" }");
        },
    }
    assert(out@ =~= old(out)@ + expr_debug(e@));
}

/// Appends expressions separated by `, `.
pub fn write_exprs(out: &mut String, args: &Vec<Expr>)
    ensures
        final(out)@ == old(out)@ + exprs_debug(exprs_view(args@)),
    decreases args,
{
    let ghost start = out@;
    let mut i: usize = 0;
    assert(args@.take(0) =~= seq![]);
    while i < args.len()
        invariant
            i <= args.len(),
            out@ == start + exprs_debug(exprs_view(args@.take(i as int))),
        decreases args.len() - i,
    {
        let ghost pre = args@.take(i as int);
        assert(args@.take(i + 1) =~= pre.push(args@[i as int]));
        proof {
            lemma_exprs_view_push(pre, args@[i as int]);
            assert(exprs_view(pre.push(args@[i as int])).drop_last() =~= exprs_view(pre));
        }
        if i > 0 {
            out.append(", ");
        }
        write_expr(out, &args[i]);
        assert(out@ =~= start + exprs_debug(exprs_view(args@.take(i + 1))));
        i = i + 1;
    }
    assert(args@.take(args.len() as int) =~= args@);
}

/// Appends a condition as `{:?}` prints it.
pub fn write_cond(out: &mut String, c: &Condition)
    ensures
        final(out)@ == old(out)@ + cond_debug(c@),
{
    out.append("Condition { left: ");
    write_expr(out, &c.left);
    out.append(", op: ");
    out.append(c.op.name());
    out.append(", right: ");
    write_expr(out, &c.right);
    out.append(" }");
    assert(out@ =~= old(out)@ + cond_debug(c@));
}

/// Appends a statement as `{:?}` prints it.
#[verifier::rlimit(40)]
pub fn write_stmt(out: &mut String, s: &Statement)
    ensures
        final(out)@ == old(out)@ + stmt_debug(s@),
    decreases s,
{
    match s {
        Statement::Call(name, args) => {
            out.append("Call(");
            let d = str_debug(name.as_str());
            out.append(d.as_str());
            out.append(", [");
            write_exprs(out, args);
            out.append("])");
            assert(out@ =~= old(out)@ + stmt_debug(s@));
        },
        Statement::Assign { name, loc, expr } => {
            out.append("Assign { name: ");
            let d = str_debug(name.as_str());
            out.append(d.as_str());
            out.append(", loc: ");
            write_loc(out, loc);
            out.append(", expr: ");
            write_expr(out, expr);
            out.append(" }");
            assert(out@ =~= old(out)@ + stmt_debug(s@));
        },
        Statement::If { branches, else_branch } => {
            out.append("If { branches: [");
            write_branches(out, branches);
            out.append("], else_branch: ");
            match else_branch {
                None => {
                    out.append("None");
                },
                Some(b) => {
                    out.append("Some([");
                    write_stmts(out, b);
                    out.append("])");
                },
            }
            out.append(" }");
            assert(out@ =~= old(out)@ + stmt_debug(s@));
        },
        Statement::While { cond, body } => {
            out.append("While { cond: ");
            write_cond(out, cond);
            out.append(", body: [");
            write_stmts(out, body);
            out.append("] }");
            assert(out@ =~= old(out)@ + stmt_debug(s@));
        },
        Statement::Return(e) => {
            out.append("Return(");
            match e {
                None => {
                    out.append("None");
                },
                Some(x) => {
                    out.append("Some(");
                    write_expr(out, x);
                    out.append(")");
                },
            }
            out.append(")");
            assert(out@ =~= old(out)@ + stmt_debug(s@));
        },
    }
}

/// Appends statements separated by `, `.
pub fn write_stmts(out: &mut String, v: &Vec<Statement>)
    ensures
        final(out)@ == old(out)@ + stmts_debug(stmts_view(v@)),
    decreases v,
{
    let ghost start = out@;
    let mut i: usize = 0;
    assert(v@.take(0) =~= seq![]);
    while i < v.len()
        invariant
            i <= v.len(),
            out@ == start + stmts_debug(stmts_view(v@.take(i as int))),
        decreases v.len() - i,
    {
        let ghost pre = v@.take(i as int);
        assert(v@.take(i + 1) =~= pre.push(v@[i as int]));
        proof {
            lemma_stmts_view_push(pre, v@[i as int]);
            assert(stmts_view(pre.push(v@[i as int])).drop_last() =~= stmts_view(pre));
        }
        if i > 0 {
            out.append(", ");
        }
        write_stmt(out, &v[i]);
        assert(out@ =~= start + stmts_debug(stmts_view(v@.take(i + 1))));
        i = i + 1;
    }
    assert(v@.take(v.len() as int) =~= v@);
}

/// Appends the branches of an `if` as `{:?}` prints them.
pub fn write_branches(out: &mut String, v: &Vec<(Condition, Vec<Statement>)>)
    ensures
        final(out)@ == old(out)@ + branches_debug(branches_view(v@)),
    decreases v,
{
    let ghost start = out@;
    let mut i: usize = 0;
    assert(v@.take(0) =~= seq![]);
    while i < v.len()
        invariant
            i <= v.len(),
            out@ == start + branches_debug(branches_view(v@.take(i as int))),
        decreases v.len() - i,
    {
        let ghost pre = v@.take(i as int);
        assert(v@.take(i + 1) =~= pre.push(v@[i as int]));
        proof {
            lemma_branches_view_push(pre, v@[i as int]);
            assert(branches_view(pre.push(v@[i as int])).drop_last() =~= branches_view(pre));
        }
        if i > 0 {
            out.append(", ");
        }
        out.append("(");
        write_cond(out, &v[i].0);
        out.append(", [");
        write_stmts(out, &v[i].1);
        out.append("])");
        assert(out@ =~= start + branches_debug(branches_view(v@.take(i + 1))));
        i = i + 1;
    }
    assert(v@.take(v.len() as int) =~= v@);
}

/// A statement as `{:?}` prints it.
pub fn stmt_debug_text(s: &Statement) -> (r: String)
    ensures
        r@ == stmt_debug(s@),
{
    let mut r = String::new();
    write_stmt(&mut r, s);
    assert(r@ =~= stmt_debug(s@));
    r
}

} // verus!
