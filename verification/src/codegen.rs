//! RISC-V assembly for an analyzed program.
//!
//! Expressions are evaluated into temporary registers handed out by a small
//! allocator; arguments travel in `a0`..`a7`; every variable lives at the
//! place the semantic analysis gave it. Generation fails where the program
//! asks for more registers than there are, or where a variable has no place.
use vstd::prelude::*;

use crate::structs::{
    BinaryOp,
    RelOp,
    Condition,
    Declaration,
    Expr,
    FuncDecl,
    SCond,
    SDecl,
    SExpr,
    SFunc,
    SLoc,
    SStmt,
    SVarDecl,
    Statement,
    UnaryOp,
    VarDecl,
    VarLocation,
};
use crate::structs::{
    branches_view,
    exprs_view,
    lemma_branches_view_index,
    lemma_exprs_view_index,
    lemma_stmts_view_index,
    decls_view,
    func_view,
    loc_view,
    stmts_view,
    var_bytes,
    lemma_var_bytes_prefix,
    vardecls_view,
};
use crate::sematics::{SemState, a_func, a_vars, lemma_a_vars_places};
use crate::symtab::{SSymbol, SymbolTable};
use crate::text::{
    digit_char,
    join_with_newlines,
    append_i64,
    append_u64,
    int_text,
    join_lines,
    nat_text,
    push_char,
    text_of,
    texts,
};

verus! {

/// The registers that generated code names.
#[derive(Debug, Clone, Copy, PartialEq, Eq, Structural)]
pub enum Register {
    T0,
    T1,
    T2,
    T3,
    T4,
    T5,
    T6,
    A0,
    A1,
    A2,
    A3,
    A4,
    A5,
    A6,
    A7,
    Zero,
}

impl Register {
    /// The register's name in assembly.
    pub open spec fn spec_name(self) -> Seq<char> {
        match self {
            Register::T0 => "t0"@,
            Register::T1 => "t1"@,
            Register::T2 => "t2"@,
            Register::T3 => "t3"@,
            Register::T4 => "t4"@,
            Register::T5 => "t5"@,
            Register::T6 => "t6"@,
            Register::A0 => "a0"@,
            Register::A1 => "a1"@,
            Register::A2 => "a2"@,
            Register::A3 => "a3"@,
            Register::A4 => "a4"@,
            Register::A5 => "a5"@,
            Register::A6 => "a6"@,
            Register::A7 => "a7"@,
            Register::Zero => "zero"@,
        }
    }
}

/// The argument registers, in the order a list hands them out from its end:
/// `a0` first.
pub open spec fn arg_regs() -> Seq<Register> {
    seq![
        Register::A7,
        Register::A6,
        Register::A5,
        Register::A4,
        Register::A3,
        Register::A2,
        Register::A1,
        Register::A0,
    ]
}

/// The temporary registers; a list hands them out from its end: `t6` first.
pub open spec fn temp_regs() -> Seq<Register> {
    seq![
        Register::T0,
        Register::T1,
        Register::T2,
        Register::T3,
        Register::T4,
        Register::T5,
        Register::T6,
    ]
}

// ---------------------------------------------------------------------------
// Generation as mathematics
// ---------------------------------------------------------------------------

/// The generator's state: the lines of code and of data so far, the free
/// temporaries (the next one handed out is the last), all temporaries, the
/// argument registers not yet handed out, and the number of the next label.
pub struct GenState {
    pub code: Seq<Seq<char>>,
    pub glob: Seq<Seq<char>>,
    pub free: Seq<Register>,
    pub tregs: Seq<Register>,
    pub args: Seq<Register>,
    pub label: nat,
}

impl GenState {
    /// Appends a line of code.
    pub open spec fn emit(self, line: Seq<char>) -> GenState {
        GenState { code: self.code.push(line), ..self }
    }

    /// Takes the last free temporary; fails when none is free.
    pub open spec fn take_temp(self) -> Option<(GenState, Register)> {
        if self.free.len() > 0 {
            Some((GenState { free: self.free.drop_last(), ..self }, self.free.last()))
        } else {
            None
        }
    }

    /// Gives a register back: a temporary joins the free ones, others are ignored.
    pub open spec fn release(self, r: Register) -> GenState {
        if self.tregs.contains(r) {
            GenState { free: self.free.push(r), ..self }
        } else {
            self
        }
    }

    /// Takes the next argument register; fails when all eight are taken.
    pub open spec fn next_arg(self) -> Option<(GenState, Register)> {
        if self.args.len() > 0 {
            Some((GenState { args: self.args.drop_last(), ..self }, self.args.last()))
        } else {
            None
        }
    }

    /// Makes all argument registers available again.
    pub open spec fn reset_args(self) -> GenState {
        GenState { args: arg_regs(), ..self }
    }

    /// A fresh label `.L<n>`.
    pub open spec fn new_label(self) -> Option<(GenState, Seq<char>)> {
        if self.label < usize::MAX {
            Some((GenState { label: self.label + 1, ..self }, ".L"@ + nat_text(self.label)))
        } else {
            None
        }
    }
}

/// The suffix of the load and store instructions for a variable of `size` bytes.
pub open spec fn load_cmd(size: u8) -> Option<char> {
    if size == 1 {
        Some('b')
    } else if size == 8 {
        Some('d')
    } else {
        None
    }
}

/// Stores `reg` into a variable's place, then gives `reg` back.
pub open spec fn g_store(s: GenState, reg: Register, loc: SLoc) -> Option<GenState> {
    match loc {
        SLoc::Stack(size, off) => match load_cmd(size) {
            None => None,
            Some(c) => Some(
                s.emit(
                    seq!['s', c] + " "@ + reg.spec_name() + ", "@ + int_text(off as int) + "(sp)"@,
                ).release(reg),
            ),
        },
        SLoc::Global(size, label) => match s.take_temp() {
            None => None,
            Some((s1, addr)) => match load_cmd(size) {
                None => None,
                Some(c) => Some(
                    s1.emit("la "@ + addr.spec_name() + ","@ + label).emit(
                        seq!['s', c] + " "@ + reg.spec_name() + ",0("@ + addr.spec_name() + ")"@,
                    ).release(reg),
                ),
            },
        },
    }
}

/// Loads a variable into a new temporary.
pub open spec fn g_load(s: GenState, loc: SLoc) -> Option<(GenState, Register)> {
    match s.take_temp() {
        None => None,
        Some((s1, reg)) => match loc {
            SLoc::Stack(size, off) => match load_cmd(size) {
                None => None,
                Some(c) => Some(
                    (
                        s1.emit(
                            seq!['l', c] + " "@ + reg.spec_name() + ","@ + int_text(off as int)
                                + "(sp)"@,
                        ),
                        reg,
                    ),
                ),
            },
            SLoc::Global(size, label) => match s1.take_temp() {
                None => None,
                Some((s2, addr)) => match load_cmd(size) {
                    None => None,
                    Some(c) => Some(
                        (
                            s2.emit("la "@ + addr.spec_name() + ","@ + label).emit(
                                seq!['l', c] + " "@ + reg.spec_name() + ",0("@ + addr.spec_name()
                                    + ")"@,
                            ),
                            reg,
                        ),
                    ),
                },
            },
        },
    }
}

/// The immediate that the generator adds for a unary operator.
pub open spec fn unary_imm(op: UnaryOp) -> Seq<char> {
    match op {
        UnaryOp::Plus => "1"@,
        UnaryOp::Minus => "-1"@,
    }
}

/// Evaluates an expression into a register.
pub open spec fn g_expr(s: GenState, e: SExpr) -> Option<(GenState, Register)>
    decreases e, 0int,
{
    match e {
        SExpr::Number(n) => match s.take_temp() {
            None => None,
            Some((s1, reg)) => Some((s1.emit("li "@ + reg.spec_name() + ","@ + int_text(n)), reg)),
        },
        SExpr::Char(c) => match s.take_temp() {
            None => None,
            Some((s1, reg)) => Some(
                (s1.emit("li "@ + reg.spec_name() + ","@ + nat_text(c as nat)), reg),
            ),
        },
        SExpr::Binary { left, op, right } => match g_expr(s, *left) {
            None => None,
            Some((s1, rs1)) => match g_expr(s1, *right) {
                None => None,
                Some((s2, rs2)) => Some(
                    (
                        s2.emit(
                            op.spec_mnemonic() + " "@ + rs1.spec_name() + ","@ + rs1.spec_name()
                                + ","@ + rs2.spec_name(),
                        ).release(rs2),
                        rs1,
                    ),
                ),
            },
        },
        SExpr::Unary { op, expr } => match g_expr(s, *expr) {
            None => None,
            Some((s1, rs1)) => Some(
                (
                    s1.emit(
                        "addi "@ + rs1.spec_name() + ","@ + rs1.spec_name() + ","@ + unary_imm(op),
                    ),
                    rs1,
                ),
            ),
        },
        SExpr::Ident { name: _, loc } => match loc {
            None => None,
            Some(l) => g_load(s, l),
        },
        SExpr::Call(name, args) => g_call(s, name, args),
    }
}

/// Calls a function. `ORD` and `CHR` are no calls: the value of their first
/// argument is their result.
pub open spec fn g_call(s: GenState, name: Seq<char>, args: Seq<SExpr>) -> Option<
    (GenState, Register),
>
    decreases args, 1int,
{
    let s1 = s.emit("# "@ + name + "()"@);
    if name == "ORD"@ || name == "CHR"@ {
        if args.len() == 0 {
            None
        } else {
            g_expr(s1, args[0])
        }
    } else {
        match g_args(s1, args) {
            None => None,
            Some(s2) => match s2.reset_args().emit("call "@ + name).take_temp() {
                None => None,
                Some((s3, reg)) => Some((s3.emit("addi "@ + reg.spec_name() + ",a0,0\n"@), reg)),
            },
        }
    }
}

/// Evaluates the arguments of a call into the argument registers, in order.
pub open spec fn g_args(s: GenState, args: Seq<SExpr>) -> Option<GenState>
    decreases args, 0int,
{
    if args.len() == 0 {
        Some(s)
    } else {
        match g_args(s, args.drop_last()) {
            None => None,
            Some(s1) => match g_expr(s1, args.last()) {
                None => None,
                Some((s2, reg)) => match s2.next_arg() {
                    None => None,
                    Some((s3, ar)) => Some(
                        s3.emit("addi "@ + ar.spec_name() + ","@ + reg.spec_name() + ",0"@).release(
                            reg,
                        ),
                    ),
                },
            },
        }
    }
}

/// Jumps to `flabel` when the condition does not hold.
pub open spec fn g_cond(s: GenState, c: SCond, flabel: Seq<char>) -> Option<GenState> {
    match g_expr(s, c.left) {
        None => None,
        Some((s1, l)) => match g_expr(s1, c.right) {
            None => None,
            Some((s2, r)) => Some(
                s2.emit(
                    c.op.spec_branch() + " "@ + l.spec_name() + ","@ + r.spec_name() + ","@ + flabel,
                ).release(l).release(r),
            ),
        },
    }
}

/// Generates a statement.
pub open spec fn g_stmt(s: GenState, st: SStmt) -> Option<GenState>
    decreases st, 0int,
{
    match st {
        SStmt::Return(e) => match e {
            None => Some(s),
            Some(x) => match g_expr(s, x) {
                None => None,
                Some((s1, reg)) => Some(s1.emit("addi a0,"@ + reg.spec_name() + ",0"@).release(reg)),
            },
        },
        SStmt::Assign { name: _, loc, expr } => match loc {
            None => None,
            Some(l) => match g_expr(s, expr) {
                None => None,
                Some((s1, v)) => g_store(s1, v, l),
            },
        },
        SStmt::Call(name, args) => match g_call(s, name, args) {
            None => None,
            Some((s1, reg)) => Some(s1.release(reg)),
        },
        SStmt::If { branches, else_branch } => match s.new_label() {
            None => None,
            Some((s1, end)) => match g_branches(s1, branches, branches.len(), end) {
                None => None,
                Some(s2) => {
                    let s3 = match else_branch {
                        Some(b) => g_stmts(s2, b, b.len()),
                        None => Some(s2),
                    };
                    match s3 {
                        None => None,
                        Some(s4) => Some(s4.emit(end + ":"@)),
                    }
                },
            },
        },
        SStmt::While { cond, body } => match s.new_label() {
            None => None,
            Some((s1, start)) => match s1.new_label() {
                None => None,
                Some((s2, end)) => match g_cond(s2.emit(start + ":"@), cond, end) {
                    None => None,
                    Some(s3) => match g_stmts(s3, body, body.len()) {
                        None => None,
                        Some(s4) => Some(s4.emit("j "@ + start).emit(end + ":"@)),
                    },
                },
            },
        },
    }
}

/// Generates the first `n` statements of a sequence.
pub open spec fn g_stmts(s: GenState, stmts: Seq<SStmt>, n: nat) -> Option<GenState>
    decreases stmts, n,
{
    if n == 0 || n > stmts.len() {
        Some(s)
    } else {
        match g_stmts(s, stmts, (n - 1) as nat) {
            None => None,
            Some(s1) => g_stmt(s1, stmts[n - 1]),
        }
    }
}

/// Generates the first `n` branches of an `if`; each ends with a jump to `end`.
pub open spec fn g_branches(
    s: GenState,
    branches: Seq<(SCond, Seq<SStmt>)>,
    n: nat,
    end: Seq<char>,
) -> Option<GenState>
    decreases branches, n,
{
    if n == 0 || n > branches.len() {
        Some(s)
    } else {
        match g_branches(s, branches, (n - 1) as nat, end) {
            None => None,
            Some(s1) => match s1.new_label() {
                None => None,
                Some((s2, next)) => match g_cond(s2, branches[n - 1].0, next) {
                    None => None,
                    Some(s3) => match g_stmts(s3, branches[n - 1].1, branches[n - 1].1.len()) {
                        None => None,
                        Some(s4) => Some(s4.emit("j "@ + end).emit(next + ":"@)),
                    },
                },
            },
        }
    }
}

/// A stack frame for `bytes` bytes of variables and three saved registers,
/// rounded up to a multiple of 16.
pub open spec fn frame_size(bytes: nat) -> nat {
    ((bytes + 24 + 15) / 16) * 16
}

/// Stores the first `n` parameters from their argument registers into their places.
pub open spec fn g_params(s: GenState, params: Seq<SVarDecl>, n: nat) -> Option<GenState>
    decreases n,
{
    if n == 0 || n > params.len() {
        Some(s)
    } else {
        match g_params(s, params, (n - 1) as nat) {
            None => None,
            Some(s1) => match s1.next_arg() {
                None => None,
                Some((s2, reg)) => match params[n - 1].loc {
                    None => None,
                    Some(l) => g_store(s2, reg, l),
                },
            },
        }
    }
}

/// Sets the first `n` local variables to zero.
pub open spec fn g_locals(s: GenState, locals: Seq<SVarDecl>, n: nat) -> Option<GenState>
    decreases n,
{
    if n == 0 || n > locals.len() {
        Some(s)
    } else {
        match g_locals(s, locals, (n - 1) as nat) {
            None => None,
            Some(s1) => match locals[n - 1].loc {
                None => None,
                Some(l) => g_store(s1, Register::Zero, l),
            },
        }
    }
}

/// The start of a function's code: it makes the frame, saves `ra`, `s0`
/// and `s1`, stores the parameters from their argument registers and zeroes
/// the locals.
pub open spec fn g_prologue(s: GenState, f: SFunc, frame: nat) -> Option<GenState> {
    let s1 = s.emit("addi sp,sp,-"@ + nat_text(frame)).emit("sd ra,0(sp)"@).emit(
        "sd s0,8(sp)"@,
    ).emit("sd s1,16(sp)"@);
    match g_params(s1, f.params, f.params.len()) {
        None => None,
        Some(s2) => g_locals(s2.reset_args(), f.locals, f.locals.len()),
    }
}

/// The end of a function's code: it restores the saved registers, drops
/// the frame and returns.
pub open spec fn g_epilogue(s: GenState, frame: nat) -> GenState {
    s.emit("ld s1,16(sp)"@).emit("ld s0,8(sp)"@).emit("ld ra,0(sp)"@).emit(
        "addi sp,sp,"@ + nat_text(frame),
    ).emit("ret"@)
}

/// Generates a function: its label, the prologue, its body and the epilogue.
pub open spec fn g_func(s: GenState, f: SFunc) -> Option<GenState> {
    let bytes = var_bytes(f.locals) + var_bytes(f.params);
    if bytes + 39 > usize::MAX {
        None
    } else {
        let frame = frame_size(bytes);
        match g_prologue(s.emit(f.name + ":"@), f, frame) {
            None => None,
            Some(s1) => match g_stmts(s1.emit("  "@), f.body, f.body.len()) {
                None => None,
                Some(s2) => Some(g_epilogue(s2.emit("  "@), frame)),
            },
        }
    }
}

/// Adds a global variable to the data section, which it opens if need be.
pub open spec fn g_glob(s: GenState, name: Seq<char>, size: u8) -> Option<GenState> {
    let s1 = if s.glob.len() == 0 {
        GenState { glob: s.glob.push(".data"@), ..s }
    } else {
        s
    };
    if size == 1 {
        Some(GenState { glob: s1.glob.push(name + ": .byte 0"@), ..s1 })
    } else if size == 8 {
        Some(GenState { glob: s1.glob.push(name + ": .quad 0"@), ..s1 })
    } else {
        None
    }
}

/// Generates a declaration.
pub open spec fn g_decl(s: GenState, d: SDecl) -> Option<GenState> {
    match d {
        SDecl::Fn(f) => g_func(s, f),
        SDecl::Var(v) => match v.loc {
            Some(SLoc::Global(size, _)) => g_glob(s, v.name, size),
            _ => None,
        },
    }
}

/// Generates the first `n` declarations.
pub open spec fn g_decls(s: GenState, decls: Seq<SDecl>, n: nat) -> Option<GenState>
    decreases n,
{
    if n == 0 || n > decls.len() {
        Some(s)
    } else {
        match g_decls(s, decls, (n - 1) as nat) {
            None => None,
            Some(s1) => g_decl(s1, decls[n - 1]),
        }
    }
}

/// The built-in function `put`: writes the character in `a0` to the standard output.
pub open spec fn put_text() -> Seq<char> {
    join_lines(
        seq![
            "put:"@,
            ".option push"@,
            ".option norelax"@,
            "addi sp,sp,-16"@,
            "sd ra,8(sp)"@,
            "la t0, put_buf"@,
            "sb a0, 0(t0)"@,
            "li a0, 1"@,
            "la a1, put_buf"@,
            "li a2, 1"@,
            "li a7, 64"@,
            "ecall"@,
            "ld ra,8(sp)"@,
            "addi sp,sp,16"@,
            ".option pop"@,
            "ret"@,
        ],
    )
}

/// The built-in function `putLn`: writes a line feed through `put`.
pub open spec fn put_ln_text() -> Seq<char> {
    join_lines(
        seq![
            "putLn:"@,
            "addi sp, sp, -16"@,
            "sd ra, 8(sp)"@,
            "li a0,10"@,
            "call put"@,
            "ld ra, 8(sp)"@,
            "addi sp, sp, 16"@,
            "ret"@,
        ],
    )
}

/// The code for the first `n` built-ins used, one entry each but for `ORD`
/// and `CHR`, which need none; `put` comes once, before `putLn` if that is
/// used. The flag says whether `put` has come.
pub open spec fn builtin_items(used: Seq<Seq<char>>, n: nat) -> (Seq<Seq<char>>, bool)
    decreases n,
{
    if n == 0 || n > used.len() {
        (seq![], false)
    } else {
        let (items, put_gen) = builtin_items(used, (n - 1) as nat);
        let f = used[n - 1];
        if f == "CHR"@ || f == "ORD"@ {
            (items, put_gen)
        } else if f == "putLn"@ {
            if put_gen {
                (items.push(put_ln_text() + "\n"@), true)
            } else {
                (items.push(put_text() + "\n"@ + put_ln_text() + "\n"@), true)
            }
        } else if f == "put"@ && !put_gen {
            (items.push(put_text() + "\n"@), true)
        } else {
            (items.push(seq![]), put_gen)
        }
    }
}

/// The section of built-in functions: a heading, then the code of those used.
pub open spec fn builtin_section(used: Seq<Seq<char>>) -> Seq<Seq<char>> {
    seq!["\n# BUILTIN FUNCTIONS"@] + builtin_items(used, used.len()).0
}

/// The state after generating a program, with the lines of code handed over.
pub open spec fn gen_final(s: GenState, decls: Seq<SDecl>) -> Option<GenState> {
    match g_decls(s, decls, decls.len()) {
        None => None,
        Some(s1) => if s1.code.len() < 2 {
            None
        } else {
            Some(GenState { code: seq![], ..s1 })
        },
    }
}

/// The assembly text for a program whose analysis left `used` as the
/// built-ins it uses: the data section, the code with the startup lines
/// first, then the built-ins, joined by line feeds. The second startup line
/// becomes the section of the buffer that `put` writes through when some
/// built-in needs code, and an empty line otherwise.
pub open spec fn asm_text(s: GenState, decls: Seq<SDecl>, used: Seq<Seq<char>>) -> Option<Seq<char>> {
    match g_decls(s, decls, decls.len()) {
        None => None,
        Some(s1) => if s1.code.len() < 2 {
            None
        } else {
            let builtins = builtin_section(used);
            let bss = if builtin_items(used, used.len()).0.len() == 0 {
                "\n"@
            } else {
                ".section .bss\nput_buf: .space 1"@
            };
            Some(join_lines(s1.glob + s1.code.update(1, bss) + builtins))
        },
    }
}

/// Once evaluating some first arguments fails, evaluating all of them fails.
pub proof fn lemma_g_args_fails(s: GenState, args: Seq<SExpr>, i: int)
    requires
        0 <= i <= args.len(),
        g_args(s, args.take(i)) is None,
    ensures
        g_args(s, args) is None,
    decreases args.len() - i,
{
    if i < args.len() {
        assert(args.take(i + 1).drop_last() =~= args.take(i));
        lemma_g_args_fails(s, args, i + 1);
    } else {
        assert(args.take(i) =~= args);
    }
}

/// Once generating some first statements fails, generating more fails too.
pub proof fn lemma_g_stmts_fails(s: GenState, stmts: Seq<SStmt>, n: nat, m: nat)
    requires
        n <= m <= stmts.len(),
        g_stmts(s, stmts, n) is None,
    ensures
        g_stmts(s, stmts, m) is None,
    decreases m - n,
{
    if m > n {
        lemma_g_stmts_fails(s, stmts, n, (m - 1) as nat);
    }
}

/// Once generating some first branches fails, generating more fails too.
pub proof fn lemma_g_branches_fails(
    s: GenState,
    branches: Seq<(SCond, Seq<SStmt>)>,
    n: nat,
    m: nat,
    end: Seq<char>,
)
    requires
        n <= m <= branches.len(),
        g_branches(s, branches, n, end) is None,
    ensures
        g_branches(s, branches, m, end) is None,
    decreases m - n,
{
    if m > n {
        lemma_g_branches_fails(s, branches, n, (m - 1) as nat, end);
    }
}

/// Once storing some first parameters fails, storing more fails too.
pub proof fn lemma_g_params_fails(s: GenState, params: Seq<SVarDecl>, n: nat, m: nat)
    requires
        n <= m <= params.len(),
        g_params(s, params, n) is None,
    ensures
        g_params(s, params, m) is None,
    decreases m - n,
{
    if m > n {
        lemma_g_params_fails(s, params, n, (m - 1) as nat);
    }
}

/// Once zeroing some first locals fails, zeroing more fails too.
pub proof fn lemma_g_locals_fails(s: GenState, locals: Seq<SVarDecl>, n: nat, m: nat)
    requires
        n <= m <= locals.len(),
        g_locals(s, locals, n) is None,
    ensures
        g_locals(s, locals, m) is None,
    decreases m - n,
{
    if m > n {
        lemma_g_locals_fails(s, locals, n, (m - 1) as nat);
    }
}

/// Once generating some first declarations fails, generating more fails too.
pub proof fn lemma_g_decls_fails(s: GenState, decls: Seq<SDecl>, n: nat, m: nat)
    requires
        n <= m <= decls.len(),
        g_decls(s, decls, n) is None,
    ensures
        g_decls(s, decls, m) is None,
    decreases m - n,
{
    if m > n {
        lemma_g_decls_fails(s, decls, n, (m - 1) as nat);
    }
}

// ---------------------------------------------------------------------------
// What generation keeps
// ---------------------------------------------------------------------------

/// `b` comes from `a` by appending code: every line of `a` stays where it
/// was, the data and the set of temporaries are the same, and the label
/// counter has not gone back.
pub open spec fn extends(a: GenState, b: GenState) -> bool {
    &&& a.code.len() <= b.code.len()
    &&& forall|i: int| 0 <= i < a.code.len() ==> #[trigger] b.code[i] == a.code[i]
    &&& b.glob == a.glob
    &&& b.tregs == a.tregs
    &&& a.label <= b.label
}

/// Taking a free temporary and giving it back restores the allocator.
pub proof fn lemma_take_release(s: GenState)
    requires
        s.free.len() > 0,
        s.tregs.contains(s.free.last()),
    ensures
        s.take_temp() is Some,
        s.take_temp().unwrap().0.release(s.take_temp().unwrap().1) == s,
{
    let (s1, r) = s.take_temp().unwrap();
    assert(s1.release(r).free =~= s.free);
}

proof fn lemma_store_extends(s: GenState, reg: Register, loc: SLoc)
    ensures
        g_store(s, reg, loc) matches Some(s2) ==> extends(s, s2),
{
}

proof fn lemma_load_extends(s: GenState, loc: SLoc)
    ensures
        g_load(s, loc) matches Some((s2, _r)) ==> extends(s, s2),
{
}

/// Evaluating an expression only appends code.
pub proof fn lemma_g_expr_extends(s: GenState, e: SExpr)
    ensures
        g_expr(s, e) matches Some((s2, _r)) ==> extends(s, s2),
    decreases e, 0int,
{
    match e {
        SExpr::Binary { left, op, right } => {
            lemma_g_expr_extends(s, *left);
            if let Some((s1, _r1)) = g_expr(s, *left) {
                lemma_g_expr_extends(s1, *right);
            }
        },
        SExpr::Unary { op, expr } => {
            lemma_g_expr_extends(s, *expr);
        },
        SExpr::Ident { name: _, loc } => {
            if let Some(l) = loc {
                lemma_load_extends(s, l);
            }
        },
        SExpr::Call(name, args) => {
            lemma_g_call_extends(s, name, args);
        },
        _ => {},
    }
}

/// A call only appends code.
pub proof fn lemma_g_call_extends(s: GenState, name: Seq<char>, args: Seq<SExpr>)
    ensures
        g_call(s, name, args) matches Some((s2, _r)) ==> extends(s, s2),
    decreases args, 1int,
{
    let s1 = s.emit("# "@ + name + "()"@);
    if name == "ORD"@ || name == "CHR"@ {
        if args.len() > 0 {
            lemma_g_expr_extends(s1, args[0]);
        }
    } else {
        lemma_g_args_extends(s1, args);
    }
}

/// Evaluating arguments only appends code.
pub proof fn lemma_g_args_extends(s: GenState, args: Seq<SExpr>)
    ensures
        g_args(s, args) matches Some(s2) ==> extends(s, s2),
    decreases args, 0int,
{
    if args.len() > 0 {
        lemma_g_args_extends(s, args.drop_last());
        if let Some(s1) = g_args(s, args.drop_last()) {
            lemma_g_expr_extends(s1, args.last());
        }
    }
}

/// A condition only appends code.
pub proof fn lemma_g_cond_extends(s: GenState, c: SCond, flabel: Seq<char>)
    ensures
        g_cond(s, c, flabel) matches Some(s2) ==> extends(s, s2),
{
    lemma_g_expr_extends(s, c.left);
    if let Some((s1, _l)) = g_expr(s, c.left) {
        lemma_g_expr_extends(s1, c.right);
    }
}

/// Generating a statement only appends code: the lines already emitted
/// stay, the data section and the set of temporaries stay, and the label
/// counter never goes back, so no label is handed out twice.
pub proof fn lemma_g_stmt_extends(s: GenState, st: SStmt)
    ensures
        g_stmt(s, st) matches Some(s2) ==> extends(s, s2),
    decreases st, 0int,
{
    match st {
        SStmt::Return(e) => {
            if let Some(x) = e {
                lemma_g_expr_extends(s, x);
            }
        },
        SStmt::Assign { name: _, loc, expr } => {
            lemma_g_expr_extends(s, expr);
            if let Some((s1, v)) = g_expr(s, expr) {
                if let Some(l) = loc {
                    lemma_store_extends(s1, v, l);
                }
            }
        },
        SStmt::Call(name, args) => {
            lemma_g_call_extends(s, name, args);
        },
        SStmt::If { branches, else_branch } => {
            if let Some((s1, end)) = s.new_label() {
                lemma_g_branches_extends(s1, branches, branches.len(), end);
                if let Some(s2) = g_branches(s1, branches, branches.len(), end) {
                    if let Some(b) = else_branch {
                        lemma_g_stmts_extends(s2, b, b.len());
                    }
                }
            }
        },
        SStmt::While { cond, body } => {
            if let Some((s1, start)) = s.new_label() {
                if let Some((s2, end)) = s1.new_label() {
                    lemma_g_cond_extends(s2.emit(start + ":"@), cond, end);
                    if let Some(s3) = g_cond(s2.emit(start + ":"@), cond, end) {
                        lemma_g_stmts_extends(s3, body, body.len());
                    }
                }
            }
        },
    }
}

/// Generating statements only appends code.
pub proof fn lemma_g_stmts_extends(s: GenState, stmts: Seq<SStmt>, n: nat)
    ensures
        g_stmts(s, stmts, n) matches Some(s2) ==> extends(s, s2),
    decreases stmts, n,
{
    if n > 0 && n <= stmts.len() {
        lemma_g_stmts_extends(s, stmts, (n - 1) as nat);
        if let Some(s1) = g_stmts(s, stmts, (n - 1) as nat) {
            lemma_g_stmt_extends(s1, stmts[n - 1]);
        }
    }
}

/// Generating the branches of an `if` only appends code.
pub proof fn lemma_g_branches_extends(
    s: GenState,
    branches: Seq<(SCond, Seq<SStmt>)>,
    n: nat,
    end: Seq<char>,
)
    ensures
        g_branches(s, branches, n, end) matches Some(s2) ==> extends(s, s2),
    decreases branches, n,
{
    if n > 0 && n <= branches.len() {
        lemma_g_branches_extends(s, branches, (n - 1) as nat, end);
        if let Some(s1) = g_branches(s, branches, (n - 1) as nat, end) {
            if let Some((s2, next)) = s1.new_label() {
                lemma_g_cond_extends(s2, branches[n - 1].0, next);
                if let Some(s3) = g_cond(s2, branches[n - 1].0, next) {
                    lemma_g_stmts_extends(s3, branches[n - 1].1, branches[n - 1].1.len());
                }
            }
        }
    }
}

// ---------------------------------------------------------------------------
// Labels
// ---------------------------------------------------------------------------

/// The name of label number `k`, as jumps and branches write it.
pub open spec fn label_name(k: nat) -> Seq<char> {
    ".L"@ + nat_text(k)
}

/// The line that defines label number `k`.
pub open spec fn label_line(k: nat) -> Seq<char> {
    label_name(k) + ":"@
}

/// How many of the lines `from`..`to` of `code` are `x`.
pub open spec fn count_lines(code: Seq<Seq<char>>, from: int, to: int, x: Seq<char>) -> nat
    decreases to - from,
{
    if to <= from {
        0
    } else {
        count_lines(code, from, to - 1, x) + (if code[to - 1] == x {
            1nat
        } else {
            0nat
        })
    }
}

/// `b` comes from `a` by appending code in which each of the labels `lo` up
/// to `hi` is defined exactly once and no other label is defined.
pub open spec fn defines(a: GenState, b: GenState, lo: nat, hi: nat) -> bool {
    &&& extends(a, b)
    &&& forall|k: nat|
        #[trigger] count_lines(b.code, a.code.len() as int, b.code.len() as int, label_line(k)) == (
        if lo <= k < hi {
            1nat
        } else {
            0nat
        })
}

/// A line that is no label's definition: it starts with anything but a dot.
pub open spec fn nodef(line: Seq<char>) -> bool {
    line.len() > 0 && line[0] != '.'
}

/// A jump or a branch: a line that starts with `j` or `b` and, unlike a
/// function's label, does not end with a colon.
pub open spec fn jump(line: Seq<char>) -> bool {
    line.len() > 0 && (line[0] == 'j' || line[0] == 'b') && line.last() != ':'
}

/// A line that neither defines a label nor starts as a jump does.
pub open spec fn plain(line: Seq<char>) -> bool {
    nodef(line) && line[0] != 'j' && line[0] != 'b'
}

/// `line` ends with `x`.
pub open spec fn ends_with(line: Seq<char>, x: Seq<char>) -> bool {
    x.len() <= line.len() && line.subrange(line.len() - x.len(), line.len() as int) == x
}

/// `line` ends with the name of one of the labels `lo` up to `hi`.
pub open spec fn targets(line: Seq<char>, lo: nat, hi: nat) -> bool {
    exists|k: nat| lo <= k < hi && #[trigger] ends_with(line, label_name(k))
}

/// Every jump or branch appended from `a` to `b` targets one of the labels
/// `lo` up to `hi`.
pub open spec fn jumps_within(a: GenState, b: GenState, lo: nat, hi: nat) -> bool {
    forall|i: int|
        a.code.len() <= i < b.code.len() && jump(#[trigger] b.code[i]) ==> targets(b.code[i], lo, hi)
}

/// Every jump or branch appended from `a` to `b` targets one of the labels
/// `lo` up to `hi`, or ends with `end`.
pub open spec fn jumps_within_or(a: GenState, b: GenState, lo: nat, hi: nat, end: Seq<char>) -> bool {
    forall|i: int|
        a.code.len() <= i < b.code.len() && jump(#[trigger] b.code[i]) ==> targets(b.code[i], lo, hi)
            || ends_with(b.code[i], end)
}

/// `b` comes from `a` by appending lines that define no label, with the
/// same label counter.
pub open spec fn appends_nodef(a: GenState, b: GenState) -> bool {
    &&& extends(a, b)
    &&& b.label == a.label
    &&& forall|i: int| a.code.len() <= i < b.code.len() ==> nodef(#[trigger] b.code[i])
}

/// `b` comes from `a` by appending plain lines, with the same label counter.
pub open spec fn appends_plain(a: GenState, b: GenState) -> bool {
    &&& extends(a, b)
    &&& b.label == a.label
    &&& forall|i: int| a.code.len() <= i < b.code.len() ==> plain(#[trigger] b.code[i])
}

proof fn lemma_nat_text_len(n: nat)
    ensures
        nat_text(n).len() >= 1,
        n >= 10 ==> nat_text(n).len() >= 2,
    decreases n,
{
    if n >= 10 {
        lemma_nat_text_len(n / 10);
    }
}

proof fn lemma_digit_char(d: nat)
    requires
        d < 10,
    ensures
        digit_char(d) as u32 == 48 + d,
{
    let x: u8 = (48 + d) as u8;
    assert(x == 48 + d);
    assert(x as char as u32 == x);
}

proof fn lemma_nat_text_injective(a: nat, b: nat)
    requires
        nat_text(a) == nat_text(b),
    ensures
        a == b,
    decreases a,
{
    lemma_nat_text_len(a);
    lemma_nat_text_len(b);
    if a < 10 && b < 10 {
        assert(nat_text(a) == seq![digit_char(a)]);
        assert(nat_text(b) == seq![digit_char(b)]);
        assert(nat_text(a)[0] == digit_char(a));
        assert(nat_text(b)[0] == digit_char(b));
        lemma_digit_char(a);
        lemma_digit_char(b);
        assert(digit_char(a) as u32 == digit_char(b) as u32);
    } else if a >= 10 && b >= 10 {
        assert(nat_text(a).drop_last() == nat_text(a / 10));
        assert(nat_text(b).drop_last() == nat_text(b / 10));
        lemma_nat_text_injective(a / 10, b / 10);
        assert(nat_text(a) == nat_text(a / 10).push(digit_char(a % 10)));
        assert(nat_text(b) == nat_text(b / 10).push(digit_char(b % 10)));
        assert(nat_text(a).last() == digit_char(a % 10));
        assert(nat_text(b).last() == digit_char(b % 10));
        lemma_digit_char(a % 10);
        lemma_digit_char(b % 10);
        assert(a % 10 == b % 10);
        assert(a / 10 == b / 10);
        assert(a == 10 * (a / 10) + a % 10);
        assert(b == 10 * (b / 10) + b % 10);
    } else if a < 10 {
        assert(nat_text(a).len() == 1);
    } else {
        assert(nat_text(b).len() == 1);
    }
}

/// Different numbers give different label lines.
pub proof fn lemma_label_lines_differ(j: nat, k: nat)
    ensures
        label_line(j) == label_line(k) ==> j == k,
        !nodef(label_line(k)),
        !jump(label_line(k)),
        label_line(k).len() > 1 && label_line(k)[1] == 'L',
{
    reveal_strlit(".L");
    reveal_strlit(":");
    if label_line(j) == label_line(k) {
        lemma_nat_text_len(j);
        lemma_nat_text_len(k);
        let a = nat_text(j);
        let b = nat_text(k);
        assert(label_line(j).len() == a.len() + 3);
        assert(a.len() == b.len());
        assert(a =~= label_line(j).subrange(2, 2 + a.len() as int));
        assert(b =~= label_line(k).subrange(2, 2 + b.len() as int));
        lemma_nat_text_injective(j, k);
    }
    assert(label_line(k)[0] == '.');
    assert(label_line(k)[1] == 'L');
}

proof fn lemma_count_split(code: Seq<Seq<char>>, a: int, b: int, c: int, x: Seq<char>)
    requires
        a <= b <= c,
    ensures
        count_lines(code, a, c, x) == count_lines(code, a, b, x) + count_lines(code, b, c, x),
    decreases c - b,
{
    if c > b {
        lemma_count_split(code, a, b, c - 1, x);
    }
}

proof fn lemma_count_stable(c1: Seq<Seq<char>>, c2: Seq<Seq<char>>, a: int, b: int, x: Seq<char>)
    requires
        0 <= a,
        b <= c1.len() <= c2.len(),
        forall|i: int| 0 <= i < c1.len() ==> #[trigger] c2[i] == c1[i],
    ensures
        count_lines(c2, a, b, x) == count_lines(c1, a, b, x),
    decreases b - a,
{
    if b > a {
        lemma_count_stable(c1, c2, a, b - 1, x);
    }
}

proof fn lemma_count_plain(code: Seq<Seq<char>>, a: int, b: int, k: nat)
    requires
        0 <= a,
        b <= code.len(),
        forall|i: int| a <= i < b ==> nodef(#[trigger] code[i]),
    ensures
        count_lines(code, a, b, label_line(k)) == 0,
    decreases b - a,
{
    lemma_label_lines_differ(k, k);
    if b > a {
        lemma_count_plain(code, a, b - 1, k);
        assert(nodef(code[b - 1]));
    }
}

/// Code without label lines defines no label.
proof fn lemma_plain_defines(a: GenState, b: GenState, j: nat)
    requires
        appends_nodef(a, b),
    ensures
        defines(a, b, j, j),
{
    assert forall|k: nat|
        #[trigger] count_lines(b.code, a.code.len() as int, b.code.len() as int, label_line(k)) == 0nat by {
        lemma_count_plain(b.code, a.code.len() as int, b.code.len() as int, k);
    }
}

/// A label's definition defines that label.
proof fn lemma_emit_label(s: GenState, j: nat)
    ensures
        defines(s, s.emit(label_line(j)), j, j + 1),
{
    let s2 = s.emit(label_line(j));
    let n = s.code.len() as int;
    assert forall|k: nat|
        #[trigger] count_lines(s2.code, n, s2.code.len() as int, label_line(k)) == (if j <= k < j + 1 {
            1nat
        } else {
            0nat
        }) by {
        lemma_label_lines_differ(j, k);
        assert(count_lines(s2.code, n, n, label_line(k)) == 0);
        assert(s2.code[n] == label_line(j));
    }
}

/// Definitions of adjacent runs of labels, one after the other, define the
/// whole run.
proof fn lemma_defines_then(a: GenState, b: GenState, c: GenState, l: nat, m: nat, h: nat, forward: bool)
    requires
        forward ==> defines(a, b, l, m) && defines(b, c, m, h),
        !forward ==> defines(a, b, m, h) && defines(b, c, l, m),
        l <= m <= h,
    ensures
        defines(a, c, l, h),
{
    let na = a.code.len() as int;
    let nb = b.code.len() as int;
    let nc = c.code.len() as int;
    assert forall|k: nat|
        #[trigger] count_lines(c.code, na, nc, label_line(k)) == (if l <= k < h {
            1nat
        } else {
            0nat
        }) by {
        lemma_count_split(c.code, na, nb, nc, label_line(k));
        lemma_count_stable(b.code, c.code, na, nb, label_line(k));
        assert(count_lines(b.code, na, nb, label_line(k)) == count_lines(b.code, na, nb, label_line(k)));
        assert(count_lines(c.code, nb, nc, label_line(k)) == count_lines(c.code, nb, nc, label_line(k)));
    }
}

/// A line that begins with a plain line is plain.
proof fn lemma_plain_add(a: Seq<char>, b: Seq<char>)
    requires
        plain(a),
    ensures
        plain(a + b),
{
    assert((a + b)[0] == a[0]);
}

/// A line that begins with no label's definition defines none.
proof fn lemma_nodef_add(a: Seq<char>, b: Seq<char>)
    requires
        nodef(a),
    ensures
        nodef(a + b),
{
    assert((a + b)[0] == a[0]);
}

/// A line ends with what was appended last.
proof fn lemma_ends_with_add(a: Seq<char>, b: Seq<char>)
    ensures
        ends_with(a + b, b),
{
    assert((a + b).subrange(a.len() as int, (a + b).len() as int) =~= b);
}

/// The literals that instructions begin with.
proof fn lemma_plain_literals()
    ensures
        plain("li "@),
        plain("addi "@),
        plain("la "@),
        plain("# "@),
        plain("call "@),
        plain("addi a0,"@),
        nodef("j "@),
        forall|op: BinaryOp| plain(#[trigger] op.spec_mnemonic()),
        forall|op: RelOp| nodef(#[trigger] op.spec_branch()),
        forall|c: char| plain(#[trigger] seq!['s', c]) && plain(seq!['l', c]),
{
    reveal_strlit("li ");
    reveal_strlit("addi ");
    reveal_strlit("la ");
    reveal_strlit("# ");
    reveal_strlit("call ");
    reveal_strlit("addi a0,");
    reveal_strlit("j ");
    reveal_strlit("add");
    reveal_strlit("sub");
    reveal_strlit("div");
    reveal_strlit("mul");
    reveal_strlit("rem");
    reveal_strlit("bne");
    reveal_strlit("beq");
    reveal_strlit("bge");
    reveal_strlit("bgt");
    reveal_strlit("ble");
    reveal_strlit("blt");
}

proof fn lemma_store_plain(s: GenState, reg: Register, loc: SLoc)
    ensures
        g_store(s, reg, loc) matches Some(s2) ==> appends_plain(s, s2),
{
    lemma_plain_literals();
    match loc {
        SLoc::Stack(size, off) => {
            if let Some(c) = load_cmd(size) {
                lemma_plain_add(seq!['s', c], " "@);
                lemma_plain_add(seq!['s', c] + " "@, reg.spec_name());
                lemma_plain_add(seq!['s', c] + " "@ + reg.spec_name(), ", "@);
                lemma_plain_add(seq!['s', c] + " "@ + reg.spec_name() + ", "@, int_text(off as int));
                lemma_plain_add(
                    seq!['s', c] + " "@ + reg.spec_name() + ", "@ + int_text(off as int),
                    "(sp)"@,
                );
            }
        },
        SLoc::Global(size, label) => {
            if let Some((s1, addr)) = s.take_temp() {
                if let Some(c) = load_cmd(size) {
                    lemma_plain_add("la "@, addr.spec_name());
                    lemma_plain_add("la "@ + addr.spec_name(), ","@);
                    lemma_plain_add("la "@ + addr.spec_name() + ","@, label);
                    lemma_plain_add(seq!['s', c], " "@);
                    lemma_plain_add(seq!['s', c] + " "@, reg.spec_name());
                    lemma_plain_add(seq!['s', c] + " "@ + reg.spec_name(), ",0("@);
                    lemma_plain_add(seq!['s', c] + " "@ + reg.spec_name() + ",0("@, addr.spec_name());
                    lemma_plain_add(
                        seq!['s', c] + " "@ + reg.spec_name() + ",0("@ + addr.spec_name(),
                        ")"@,
                    );
                }
            }
        },
    }
}

proof fn lemma_load_plain(s: GenState, loc: SLoc)
    ensures
        g_load(s, loc) matches Some((s2, _r)) ==> appends_plain(s, s2),
{
    lemma_plain_literals();
    if let Some((s1, reg)) = s.take_temp() {
        match loc {
            SLoc::Stack(size, off) => {
                if let Some(c) = load_cmd(size) {
                    lemma_plain_add(seq!['l', c], " "@);
                    lemma_plain_add(seq!['l', c] + " "@, reg.spec_name());
                    lemma_plain_add(seq!['l', c] + " "@ + reg.spec_name(), ","@);
                    lemma_plain_add(seq!['l', c] + " "@ + reg.spec_name() + ","@, int_text(off as int));
                    lemma_plain_add(
                        seq!['l', c] + " "@ + reg.spec_name() + ","@ + int_text(off as int),
                        "(sp)"@,
                    );
                }
            },
            SLoc::Global(size, label) => {
                if let Some((s2, addr)) = s1.take_temp() {
                    if let Some(c) = load_cmd(size) {
                        lemma_plain_add("la "@, addr.spec_name());
                        lemma_plain_add("la "@ + addr.spec_name(), ","@);
                        lemma_plain_add("la "@ + addr.spec_name() + ","@, label);
                        lemma_plain_add(seq!['l', c], " "@);
                        lemma_plain_add(seq!['l', c] + " "@, reg.spec_name());
                        lemma_plain_add(seq!['l', c] + " "@ + reg.spec_name(), ",0("@);
                        lemma_plain_add(seq!['l', c] + " "@ + reg.spec_name() + ",0("@, addr.spec_name());
                        lemma_plain_add(
                            seq!['l', c] + " "@ + reg.spec_name() + ",0("@ + addr.spec_name(),
                            ")"@,
                        );
                    }
                }
            },
        }
    }
}

proof fn lemma_plain_trans(a: GenState, b: GenState, c: GenState)
    requires
        appends_plain(a, b),
        appends_plain(b, c),
    ensures
        appends_plain(a, c),
{
    assert forall|i: int| a.code.len() <= i < c.code.len() implies plain(#[trigger] c.code[i]) by {
        if i < b.code.len() {
            assert(c.code[i] == b.code[i]);
        }
    }
}

proof fn lemma_expr_plain(s: GenState, e: SExpr)
    ensures
        g_expr(s, e) matches Some((s2, _r)) ==> appends_plain(s, s2),
    decreases e, 0int,
{
    lemma_plain_literals();
    match e {
        SExpr::Number(n) => {
            if let Some((s1, reg)) = s.take_temp() {
                lemma_plain_add("li "@, reg.spec_name());
                lemma_plain_add("li "@ + reg.spec_name(), ","@);
                lemma_plain_add("li "@ + reg.spec_name() + ","@, int_text(n));
            }
        },
        SExpr::Char(c) => {
            if let Some((s1, reg)) = s.take_temp() {
                lemma_plain_add("li "@, reg.spec_name());
                lemma_plain_add("li "@ + reg.spec_name(), ","@);
                lemma_plain_add("li "@ + reg.spec_name() + ","@, nat_text(c as nat));
            }
        },
        SExpr::Binary { left, op, right } => {
            lemma_expr_plain(s, *left);
            if let Some((s1, rs1)) = g_expr(s, *left) {
                lemma_expr_plain(s1, *right);
                if let Some((s2, rs2)) = g_expr(s1, *right) {
                    let m = op.spec_mnemonic();
                    lemma_plain_add(m, " "@);
                    lemma_plain_add(m + " "@, rs1.spec_name());
                    lemma_plain_add(m + " "@ + rs1.spec_name(), ","@);
                    lemma_plain_add(m + " "@ + rs1.spec_name() + ","@, rs1.spec_name());
                    lemma_plain_add(m + " "@ + rs1.spec_name() + ","@ + rs1.spec_name(), ","@);
                    lemma_plain_add(
                        m + " "@ + rs1.spec_name() + ","@ + rs1.spec_name() + ","@,
                        rs2.spec_name(),
                    );
                    lemma_plain_trans(s, s1, s2);
                }
            }
        },
        SExpr::Unary { op, expr } => {
            lemma_expr_plain(s, *expr);
            if let Some((s1, rs1)) = g_expr(s, *expr) {
                lemma_plain_add("addi "@, rs1.spec_name());
                lemma_plain_add("addi "@ + rs1.spec_name(), ","@);
                lemma_plain_add("addi "@ + rs1.spec_name() + ","@, rs1.spec_name());
                lemma_plain_add("addi "@ + rs1.spec_name() + ","@ + rs1.spec_name(), ","@);
                lemma_plain_add(
                    "addi "@ + rs1.spec_name() + ","@ + rs1.spec_name() + ","@,
                    unary_imm(op),
                );
            }
        },
        SExpr::Ident { name: _, loc } => {
            if let Some(l) = loc {
                lemma_load_plain(s, l);
            }
        },
        SExpr::Call(name, args) => {
            lemma_call_plain(s, name, args);
        },
    }
}

proof fn lemma_call_plain(s: GenState, name: Seq<char>, args: Seq<SExpr>)
    ensures
        g_call(s, name, args) matches Some((s2, _r)) ==> appends_plain(s, s2),
    decreases args, 1int,
{
    lemma_plain_literals();
    lemma_plain_add("# "@, name);
    lemma_plain_add("# "@ + name, "()"@);
    let s1 = s.emit("# "@ + name + "()"@);
    if name == "ORD"@ || name == "CHR"@ {
        if args.len() > 0 {
            lemma_expr_plain(s1, args[0]);
            if let Some((s2, _r)) = g_expr(s1, args[0]) {
                lemma_plain_trans(s, s1, s2);
            }
        }
    } else {
        lemma_args_plain(s1, args);
        if let Some(s2) = g_args(s1, args) {
            lemma_plain_add("call "@, name);
            let s3 = s2.reset_args().emit("call "@ + name);
            if let Some((s4, reg)) = s3.take_temp() {
                lemma_plain_add("addi "@, reg.spec_name());
                lemma_plain_add("addi "@ + reg.spec_name(), ",a0,0\n"@);
                lemma_plain_trans(s, s1, s2);
                lemma_plain_trans(s, s2, s3);
                lemma_plain_trans(s, s3, s4.emit("addi "@ + reg.spec_name() + ",a0,0\n"@));
            }
        }
    }
}

proof fn lemma_args_plain(s: GenState, args: Seq<SExpr>)
    ensures
        g_args(s, args) matches Some(s2) ==> appends_plain(s, s2),
    decreases args, 0int,
{
    lemma_plain_literals();
    if args.len() > 0 {
        lemma_args_plain(s, args.drop_last());
        if let Some(s1) = g_args(s, args.drop_last()) {
            lemma_expr_plain(s1, args.last());
            if let Some((s2, reg)) = g_expr(s1, args.last()) {
                if let Some((s3, ar)) = s2.next_arg() {
                    lemma_plain_add("addi "@, ar.spec_name());
                    lemma_plain_add("addi "@ + ar.spec_name(), ","@);
                    lemma_plain_add("addi "@ + ar.spec_name() + ","@, reg.spec_name());
                    lemma_plain_add("addi "@ + ar.spec_name() + ","@ + reg.spec_name(), ",0"@);
                    lemma_plain_trans(s, s1, s2);
                }
            }
        }
    }
}

/// A condition appends code that defines no label, and whose only jump is
/// its branch to `flabel`.
proof fn lemma_cond_plain(s: GenState, c: SCond, flabel: Seq<char>)
    ensures
        g_cond(s, c, flabel) matches Some(s3) ==> appends_nodef(s, s3) && jumps_within_or(
            s,
            s3,
            0,
            0,
            flabel,
        ),
{
    lemma_plain_literals();
    lemma_expr_plain(s, c.left);
    if let Some((s1, l)) = g_expr(s, c.left) {
        lemma_expr_plain(s1, c.right);
        if let Some((s2, r)) = g_expr(s1, c.right) {
            let b = c.op.spec_branch();
            lemma_nodef_add(b, " "@);
            lemma_nodef_add(b + " "@, l.spec_name());
            lemma_nodef_add(b + " "@ + l.spec_name(), ","@);
            lemma_nodef_add(b + " "@ + l.spec_name() + ","@, r.spec_name());
            lemma_nodef_add(b + " "@ + l.spec_name() + ","@ + r.spec_name(), ","@);
            lemma_nodef_add(b + " "@ + l.spec_name() + ","@ + r.spec_name() + ","@, flabel);
            let line = b + " "@ + l.spec_name() + ","@ + r.spec_name() + ","@ + flabel;
            lemma_ends_with_add(b + " "@ + l.spec_name() + ","@ + r.spec_name() + ","@, flabel);
            lemma_plain_trans(s, s1, s2);
            let s3 = s2.emit(line).release(l).release(r);
            assert(s3.code == s2.code.push(line));
            assert forall|i: int| s.code.len() <= i < s3.code.len() implies nodef(
                #[trigger] s3.code[i],
            ) && (jump(s3.code[i]) ==> ends_with(s3.code[i], flabel)) by {
                if i < s2.code.len() {
                    assert(s3.code[i] == s2.code[i]);
                }
            }
        }
    }
}

/// Jumps within a range stay within a wider one; a jump to `end` is a jump
/// into the wider range where `end` names label `e` of it.
proof fn lemma_or_widen(
    a: GenState,
    b: GenState,
    lo: nat,
    hi: nat,
    end: Seq<char>,
    lo2: nat,
    hi2: nat,
    end2: Seq<char>,
    e: nat,
)
    requires
        jumps_within_or(a, b, lo, hi, end),
        (lo2 <= lo && hi <= hi2) || hi <= lo,
        end == end2 || (end == label_name(e) && lo2 <= e < hi2),
    ensures
        jumps_within_or(a, b, lo2, hi2, end2),
{
    assert forall|i: int| a.code.len() <= i < b.code.len() && jump(#[trigger] b.code[i]) implies targets(
        b.code[i],
        lo2,
        hi2,
    ) || ends_with(b.code[i], end2) by {
        let line = b.code[i];
        if targets(line, lo, hi) {
            let k = choose|k: nat| lo <= k < hi && #[trigger] ends_with(line, label_name(k));
            assert(ends_with(line, label_name(k)));
        } else if end != end2 {
            assert(ends_with(line, label_name(e)));
        }
    }
}

/// Jumps within a range, appended one run after the other.
proof fn lemma_or_then(a: GenState, b: GenState, c: GenState, lo: nat, hi: nat, end: Seq<char>)
    requires
        extends(a, b),
        extends(b, c),
        jumps_within_or(a, b, lo, hi, end),
        jumps_within_or(b, c, lo, hi, end),
    ensures
        jumps_within_or(a, c, lo, hi, end),
{
    assert forall|i: int| a.code.len() <= i < c.code.len() && jump(#[trigger] c.code[i]) implies targets(
        c.code[i],
        lo,
        hi,
    ) || ends_with(c.code[i], end) by {
        if i < b.code.len() {
            assert(c.code[i] == b.code[i]);
        }
    }
}

/// One appended line that jumps within the range, or not at all.
proof fn lemma_or_emit(s: GenState, line: Seq<char>, lo: nat, hi: nat, end: Seq<char>)
    requires
        jump(line) ==> targets(line, lo, hi) || ends_with(line, end),
    ensures
        jumps_within_or(s, s.emit(line), lo, hi, end),
{
    assert forall|i: int|
        s.code.len() <= i < s.emit(line).code.len() && jump(#[trigger] s.emit(line).code[i]) implies targets(
        s.emit(line).code[i],
        lo,
        hi,
    ) || ends_with(s.emit(line).code[i], end) by {
        assert(s.emit(line).code[i] == line);
    }
}

/// Jumps within a range are jumps within it or to anything else.
proof fn lemma_within_or(a: GenState, b: GenState, lo: nat, hi: nat, end: Seq<char>)
    requires
        jumps_within(a, b, lo, hi),
    ensures
        jumps_within_or(a, b, lo, hi, end),
{
}

/// Where `end` names a label of the range, jumps to it are jumps into it.
proof fn lemma_or_within(a: GenState, b: GenState, lo: nat, hi: nat, e: nat)
    requires
        jumps_within_or(a, b, lo, hi, label_name(e)),
        lo <= e < hi,
    ensures
        jumps_within(a, b, lo, hi),
{
    assert forall|i: int| a.code.len() <= i < b.code.len() && jump(#[trigger] b.code[i]) implies targets(
        b.code[i],
        lo,
        hi,
    ) by {
        if ends_with(b.code[i], label_name(e)) {
            assert(ends_with(b.code[i], label_name(e)));
        }
    }
}

/// Code without jumps jumps nowhere.
proof fn lemma_plain_jumps(a: GenState, b: GenState, lo: nat, hi: nat)
    requires
        appends_plain(a, b),
    ensures
        jumps_within(a, b, lo, hi),
{
}

proof fn lemma_defines_refl(s: GenState, j: nat)
    ensures
        defines(s, s, j, j),
{
    assert forall|k: nat|
        #[trigger] count_lines(s.code, s.code.len() as int, s.code.len() as int, label_line(k))
            == 0nat by {}
}

/// Taking a label number writes no code.
proof fn lemma_defines_from_label(a: GenState, a1: GenState, b: GenState, l: nat, h: nat)
    requires
        a1.code == a.code,
        a1.glob == a.glob,
        a1.tregs == a.tregs,
        a.label <= a1.label,
        defines(a1, b, l, h),
    ensures
        defines(a, b, l, h),
{
}

/// Generating a statement defines each label it takes exactly once, and
/// no other label: the labels numbered from the counter before up to the
/// counter after. Every jump and branch it emits targets one of those
/// labels. Together with the counter never going back, every label of a
/// program is defined exactly once, and every jump lands on one of them.
pub proof fn lemma_g_stmt_labels(s: GenState, st: SStmt)
    ensures
        g_stmt(s, st) matches Some(s2) ==> defines(s, s2, s.label, s2.label) && jumps_within(
            s,
            s2,
            s.label,
            s2.label,
        ),
    decreases st, 0int,
{
    lemma_plain_literals();
    match st {
        SStmt::Return(e) => {
            if let Some(x) = e {
                lemma_expr_plain(s, x);
                if let Some((s1, reg)) = g_expr(s, x) {
                    lemma_plain_add("addi a0,"@, reg.spec_name());
                    lemma_plain_add("addi a0,"@ + reg.spec_name(), ",0"@);
                    let s2 = s1.emit("addi a0,"@ + reg.spec_name() + ",0"@).release(reg);
                    lemma_plain_trans(s, s1, s2);
                    lemma_plain_defines(s, s2, s.label);
                    lemma_plain_jumps(s, s2, s.label, s2.label);
                }
            } else {
                lemma_defines_refl(s, s.label);
            }
        },
        SStmt::Assign { name: _, loc, expr } => {
            lemma_expr_plain(s, expr);
            if let Some((s1, v)) = g_expr(s, expr) {
                if let Some(l) = loc {
                    lemma_store_plain(s1, v, l);
                    if let Some(s2) = g_store(s1, v, l) {
                        lemma_plain_trans(s, s1, s2);
                        lemma_plain_defines(s, s2, s.label);
                        lemma_plain_jumps(s, s2, s.label, s2.label);
                    }
                }
            }
        },
        SStmt::Call(name, args) => {
            lemma_call_plain(s, name, args);
            if let Some((s1, reg)) = g_call(s, name, args) {
                lemma_plain_defines(s, s1.release(reg), s.label);
                lemma_plain_jumps(s, s1.release(reg), s.label, s.label);
            }
        },
        SStmt::If { branches, else_branch } => {
            if let Some((s1, end)) = s.new_label() {
                let l = s.label;
                lemma_g_branches_labels(s1, branches, branches.len(), end);
                if let Some(s2) = g_branches(s1, branches, branches.len(), end) {
                    let s3o = match else_branch {
                        Some(b) => g_stmts(s2, b, b.len()),
                        None => Some(s2),
                    };
                    match else_branch {
                        Some(b) => {
                            lemma_g_stmts_labels(s2, b, b.len());
                        },
                        None => {
                            lemma_defines_refl(s2, s2.label);
                        },
                    }
                    if let Some(s3) = s3o {
                        let h = s3.label;
                        lemma_defines_then(s1, s2, s3, l + 1, s2.label, s3.label, true);
                        assert(end + ":"@ == label_line(l));
                        lemma_emit_label(s3, l);
                        let s4 = s3.emit(end + ":"@);
                        lemma_defines_then(s1, s3, s4, l, l + 1, s3.label, false);
                        lemma_defines_from_label(s, s1, s4, l, s3.label);
                        lemma_or_widen(s1, s2, l + 1, s2.label, end, l, h, end, l);
                        lemma_within_or(s2, s3, s2.label, h, end);
                        lemma_or_widen(s2, s3, s2.label, h, end, l, h, end, l);
                        lemma_or_then(s1, s2, s3, l, h, end);
                        lemma_label_lines_differ(l, l);
                        lemma_or_emit(s3, end + ":"@, l, h, end);
                        lemma_or_then(s1, s3, s4, l, h, end);
                        lemma_or_within(s1, s4, l, h, l);
                    }
                }
            }
        },
        SStmt::While { cond, body } => {
            if let Some((s1, start)) = s.new_label() {
                if let Some((s2, end)) = s1.new_label() {
                    let l = s.label;
                    let s2e = s2.emit(start + ":"@);
                    assert(start + ":"@ == label_line(l));
                    lemma_emit_label(s2, l);
                    lemma_cond_plain(s2e, cond, end);
                    if let Some(s3) = g_cond(s2e, cond, end) {
                        lemma_plain_defines(s2e, s3, l + 1);
                        lemma_defines_then(s2, s2e, s3, l, l + 1, l + 1, true);
                        lemma_g_stmts_labels(s3, body, body.len());
                        if let Some(s4) = g_stmts(s3, body, body.len()) {
                            let h = s4.label;
                            lemma_nodef_add("j "@, start);
                            let s5 = s4.emit("j "@ + start);
                            lemma_plain_defines(s4, s5, h);
                            lemma_defines_then(s3, s4, s5, l + 2, h, h, true);
                            assert(end + ":"@ == label_line(l + 1));
                            lemma_emit_label(s5, l + 1);
                            let s6 = s5.emit(end + ":"@);
                            lemma_defines_then(s3, s5, s6, l + 1, l + 2, h, false);
                            lemma_defines_then(s2, s3, s6, l, l + 1, h, true);
                            lemma_defines_from_label(s, s2, s6, l, h);
                            lemma_label_lines_differ(l, l);
                            lemma_label_lines_differ(l + 1, l + 1);
                            lemma_or_emit(s2, start + ":"@, l, h, end);
                            lemma_or_widen(s2e, s3, 0, 0, end, l, h, end, l);
                            lemma_within_or(s3, s4, l + 2, h, end);
                            lemma_or_widen(s3, s4, l + 2, h, end, l, h, end, l);
                            lemma_ends_with_add("j "@, start);
                            assert(ends_with("j "@ + start, label_name(l)));
                            lemma_or_emit(s4, "j "@ + start, l, h, end);
                            lemma_or_emit(s5, end + ":"@, l, h, end);
                            lemma_or_then(s2, s2e, s3, l, h, end);
                            lemma_or_then(s2, s3, s4, l, h, end);
                            lemma_or_then(s2, s4, s5, l, h, end);
                            lemma_or_then(s2, s5, s6, l, h, end);
                            lemma_or_within(s2, s6, l, h, l + 1);
                        }
                    }
                }
            }
        },
    }
}

/// Generating statements defines the labels they take, each exactly once,
/// and every jump they emit targets one of them.
pub proof fn lemma_g_stmts_labels(s: GenState, stmts: Seq<SStmt>, n: nat)
    ensures
        g_stmts(s, stmts, n) matches Some(s2) ==> defines(s, s2, s.label, s2.label) && jumps_within(
            s,
            s2,
            s.label,
            s2.label,
        ),
    decreases stmts, n,
{
    if n == 0 || n > stmts.len() {
        lemma_defines_refl(s, s.label);
    } else {
        lemma_g_stmts_labels(s, stmts, (n - 1) as nat);
        if let Some(s1) = g_stmts(s, stmts, (n - 1) as nat) {
            lemma_g_stmt_labels(s1, stmts[n - 1]);
            if let Some(s2) = g_stmt(s1, stmts[n - 1]) {
                let (lo, m, hi) = (s.label, s1.label, s2.label);
                lemma_defines_then(s, s1, s2, lo, m, hi, true);
                assert forall|i: int|
                    s.code.len() <= i < s2.code.len() && jump(#[trigger] s2.code[i]) implies targets(
                    s2.code[i],
                    lo,
                    hi,
                ) by {
                    let line = s2.code[i];
                    if i < s1.code.len() {
                        assert(line == s1.code[i]);
                        let k = choose|k: nat| lo <= k < m && #[trigger] ends_with(line, label_name(k));
                        assert(ends_with(line, label_name(k)));
                    } else {
                        let k = choose|k: nat| m <= k < hi && #[trigger] ends_with(line, label_name(k));
                        assert(ends_with(line, label_name(k)));
                    }
                }
            }
        }
    }
}

/// Generating the branches of an `if` defines the labels they take, each
/// exactly once; every jump they emit targets one of them, or `end`.
pub proof fn lemma_g_branches_labels(
    s: GenState,
    branches: Seq<(SCond, Seq<SStmt>)>,
    n: nat,
    end: Seq<char>,
)
    ensures
        g_branches(s, branches, n, end) matches Some(s2) ==> defines(s, s2, s.label, s2.label)
            && jumps_within_or(s, s2, s.label, s2.label, end),
    decreases branches, n,
{
    lemma_plain_literals();
    if n == 0 || n > branches.len() {
        lemma_defines_refl(s, s.label);
    } else {
        lemma_g_branches_labels(s, branches, (n - 1) as nat, end);
        if let Some(s1) = g_branches(s, branches, (n - 1) as nat, end) {
            if let Some((s2, next)) = s1.new_label() {
                let l = s1.label;
                lemma_cond_plain(s2, branches[n - 1].0, next);
                if let Some(s3) = g_cond(s2, branches[n - 1].0, next) {
                    lemma_plain_defines(s2, s3, l);
                    lemma_defines_from_label(s1, s2, s3, l, l);
                    lemma_g_stmts_labels(s3, branches[n - 1].1, branches[n - 1].1.len());
                    if let Some(s4) = g_stmts(s3, branches[n - 1].1, branches[n - 1].1.len()) {
                        let h = s4.label;
                        let lo = s.label;
                        lemma_nodef_add("j "@, end);
                        let s5 = s4.emit("j "@ + end);
                        lemma_plain_defines(s4, s5, h);
                        lemma_defines_then(s3, s4, s5, l + 1, h, h, true);
                        assert(next + ":"@ == label_line(l));
                        lemma_emit_label(s5, l);
                        let s6 = s5.emit(next + ":"@);
                        lemma_defines_then(s3, s5, s6, l, l + 1, h, false);
                        lemma_defines_then(s1, s3, s6, l, l, h, true);
                        lemma_defines_then(s, s1, s6, s.label, l, h, true);
                        lemma_or_widen(s, s1, lo, l, end, lo, h, end, l);
                        lemma_or_widen(s2, s3, 0, 0, next, lo, h, end, l);
                        lemma_within_or(s3, s4, l + 1, h, end);
                        lemma_or_widen(s3, s4, l + 1, h, end, lo, h, end, l);
                        lemma_ends_with_add("j "@, end);
                        lemma_or_emit(s4, "j "@ + end, lo, h, end);
                        lemma_label_lines_differ(l, l);
                        lemma_or_emit(s5, next + ":"@, lo, h, end);
                        lemma_or_then(s, s1, s3, lo, h, end);
                        lemma_or_then(s, s3, s4, lo, h, end);
                        lemma_or_then(s, s4, s5, lo, h, end);
                        lemma_or_then(s, s5, s6, lo, h, end);
                    }
                }
            }
        }
    }
}

/// One appended line that jumps within the range, or not at all.
proof fn lemma_within_emit(s: GenState, line: Seq<char>, lo: nat, hi: nat)
    requires
        jump(line) ==> targets(line, lo, hi),
    ensures
        jumps_within(s, s.emit(line), lo, hi),
{
    assert forall|i: int|
        s.code.len() <= i < s.emit(line).code.len() && jump(#[trigger] s.emit(line).code[i]) implies targets(
        s.emit(line).code[i],
        lo,
        hi,
    ) by {
        assert(s.emit(line).code[i] == line);
    }
}

/// Jumps within a range, appended one run after the other.
proof fn lemma_within_then(a: GenState, b: GenState, c: GenState, lo: nat, hi: nat)
    requires
        extends(a, b),
        extends(b, c),
        jumps_within(a, b, lo, hi),
        jumps_within(b, c, lo, hi),
    ensures
        jumps_within(a, c, lo, hi),
{
    assert forall|i: int| a.code.len() <= i < c.code.len() && jump(#[trigger] c.code[i]) implies targets(
        c.code[i],
        lo,
        hi,
    ) by {
        if i < b.code.len() {
            assert(c.code[i] == b.code[i]);
        }
    }
}

/// The register that carries argument number `k` of a call: `a0` for the
/// first, `a1` for the second, up to `a7`.
pub open spec fn arg_reg(k: nat) -> Register {
    if k == 0 {
        Register::A0
    } else if k == 1 {
        Register::A1
    } else if k == 2 {
        Register::A2
    } else if k == 3 {
        Register::A3
    } else if k == 4 {
        Register::A4
    } else if k == 5 {
        Register::A5
    } else if k == 6 {
        Register::A6
    } else {
        Register::A7
    }
}

/// A function's prologue stores its parameters in declaration order: with
/// all argument registers available, the first `n` parameters (each in a
/// stack slot of 1 or 8 bytes) take one line each, and the line for
/// parameter `k` stores argument register `a<k>` into that parameter's slot.
pub proof fn lemma_params_in_order(s: GenState, params: Seq<SVarDecl>, n: nat)
    requires
        s.args == arg_regs(),
        n <= params.len(),
        n <= 8,
        forall|k: int|
            0 <= k < n ==> match #[trigger] params[k].loc {
                Some(SLoc::Stack(size, _)) => size == 1 || size == 8,
                _ => false,
            },
    ensures
        g_params(s, params, n) is Some,
        ({
            let s2 = g_params(s, params, n).unwrap();
            &&& s2.code.len() == s.code.len() + n
            &&& s2.args == arg_regs().take(8 - n)
            &&& forall|i: int| 0 <= i < s.code.len() ==> s2.code[i] == s.code[i]
            &&& forall|k: int|
                0 <= k < n ==> match #[trigger] params[k].loc {
                    Some(SLoc::Stack(size, off)) => s2.code[s.code.len() + k] == seq![
                        's',
                        if size == 1 {
                            'b'
                        } else {
                            'd'
                        },
                    ] + " "@ + arg_reg(k as nat).spec_name() + ", "@ + int_text(off as int) + "(sp)"@,
                    _ => false,
                }
        }),
    decreases n,
{
    if n == 0 {
        assert(arg_regs().take(8) =~= arg_regs());
    } else {
        lemma_params_in_order(s, params, (n - 1) as nat);
        let s1 = g_params(s, params, (n - 1) as nat).unwrap();
        let k = n - 1;
        assert(s1.args.last() == arg_regs()[8 - n]);
        assert(arg_regs()[8 - n] == arg_reg(k as nat));
        assert(s1.args.drop_last() =~= arg_regs().take(8 - n));
        let s2 = g_params(s, params, n).unwrap();
        assert forall|j: int| 0 <= j < n implies match #[trigger] params[j].loc {
            Some(SLoc::Stack(size, off)) => s2.code[s.code.len() + j] == seq![
                's',
                if size == 1 {
                    'b'
                } else {
                    'd'
                },
            ] + " "@ + arg_reg(j as nat).spec_name() + ", "@ + int_text(off as int) + "(sp)"@,
            _ => false,
        } by {
            if j < k {
                assert(s2.code[s.code.len() + j] == s1.code[s.code.len() + j]);
            }
        }
    }
}

proof fn lemma_params_plain(s: GenState, params: Seq<SVarDecl>, n: nat)
    ensures
        g_params(s, params, n) matches Some(s2) ==> appends_plain(s, s2),
    decreases n,
{
    if n > 0 && n <= params.len() {
        lemma_params_plain(s, params, (n - 1) as nat);
        if let Some(s1) = g_params(s, params, (n - 1) as nat) {
            if let Some((s2, reg)) = s1.next_arg() {
                if let Some(l) = params[n - 1].loc {
                    lemma_store_plain(s2, reg, l);
                    if let Some(s3) = g_store(s2, reg, l) {
                        lemma_plain_trans(s, s1, s3);
                    }
                }
            }
        }
    }
}

proof fn lemma_locals_plain(s: GenState, locals: Seq<SVarDecl>, n: nat)
    ensures
        g_locals(s, locals, n) matches Some(s2) ==> appends_plain(s, s2),
    decreases n,
{
    if n > 0 && n <= locals.len() {
        lemma_locals_plain(s, locals, (n - 1) as nat);
        if let Some(s1) = g_locals(s, locals, (n - 1) as nat) {
            if let Some(l) = locals[n - 1].loc {
                lemma_store_plain(s1, Register::Zero, l);
                if let Some(s3) = g_store(s1, Register::Zero, l) {
                    lemma_plain_trans(s, s1, s3);
                }
            }
        }
    }
}

/// A name that does not start with a dot, so that its label line is no
/// numbered label's.
pub open spec fn dotless(name: Seq<char>) -> bool {
    name.len() == 0 || name[0] != '.'
}

/// Every function of `decls` has a dotless name.
pub open spec fn fn_names_dotless(decls: Seq<SDecl>) -> bool {
    forall|i: int| 0 <= i < decls.len() ==> (#[trigger] decls[i] matches SDecl::Fn(f) ==> dotless(f.name))
}

/// Generating a function with a dotless name defines each label it takes
/// exactly once and no other label, and every jump and branch it emits
/// targets one of those labels.
pub proof fn lemma_g_func_labels(s: GenState, f: SFunc)
    requires
        dotless(f.name),
    ensures
        g_func(s, f) matches Some(s2) ==> defines(s, s2, s.label, s2.label) && jumps_within(
            s,
            s2,
            s.label,
            s2.label,
        ),
{
    let bytes = var_bytes(f.locals) + var_bytes(f.params);
    if bytes + 39 <= usize::MAX {
        let frame = frame_size(bytes);
        let l = s.label;
        let name_line = f.name + ":"@;
        reveal_strlit(":");
        assert(name_line.last() == ':');
        if f.name.len() > 0 {
            assert(name_line[0] == f.name[0]);
        }
        let s0 = s.emit(name_line);
        lemma_plain_defines(s, s0, l);
        lemma_plain_literals();
        reveal_strlit("addi sp,sp,-");
        reveal_strlit("sd ra,0(sp)");
        reveal_strlit("sd s0,8(sp)");
        reveal_strlit("sd s1,16(sp)");
        reveal_strlit("  ");
        reveal_strlit("ld s1,16(sp)");
        reveal_strlit("ld s0,8(sp)");
        reveal_strlit("ld ra,0(sp)");
        reveal_strlit("addi sp,sp,");
        reveal_strlit("ret");
        lemma_plain_add("addi sp,sp,-"@, nat_text(frame));
        lemma_plain_add("addi sp,sp,"@, nat_text(frame));
        let p1 = s0.emit("addi sp,sp,-"@ + nat_text(frame));
        let p2 = p1.emit("sd ra,0(sp)"@);
        let p3 = p2.emit("sd s0,8(sp)"@);
        let p4 = p3.emit("sd s1,16(sp)"@);
        lemma_plain_trans(s0, p1, p2);
        lemma_plain_trans(s0, p2, p3);
        lemma_plain_trans(s0, p3, p4);
        lemma_params_plain(p4, f.params, f.params.len());
        if let Some(q) = g_params(p4, f.params, f.params.len()) {
            lemma_plain_trans(s0, p4, q);
            let q1 = q.reset_args();
            lemma_locals_plain(q1, f.locals, f.locals.len());
            if let Some(s1) = g_locals(q1, f.locals, f.locals.len()) {
                lemma_plain_trans(s0, q1, s1);
                let s1e = s1.emit("  "@);
                lemma_plain_trans(s0, s1, s1e);
                lemma_g_stmts_labels(s1e, f.body, f.body.len());
                if let Some(s2) = g_stmts(s1e, f.body, f.body.len()) {
                    let h = s2.label;
                    let e1 = s2.emit("  "@);
                    let e2 = e1.emit("ld s1,16(sp)"@);
                    let e3 = e2.emit("ld s0,8(sp)"@);
                    let e4 = e3.emit("ld ra,0(sp)"@);
                    let e5 = e4.emit("addi sp,sp,"@ + nat_text(frame));
                    let e6 = e5.emit("ret"@);
                    lemma_plain_trans(s2, e1, e2);
                    lemma_plain_trans(s2, e2, e3);
                    lemma_plain_trans(s2, e3, e4);
                    lemma_plain_trans(s2, e4, e5);
                    lemma_plain_trans(s2, e5, e6);
                    assert(g_func(s, f) == Some(e6));
                    lemma_plain_defines(s0, s1e, l);
                    lemma_plain_defines(s2, e6, h);
                    lemma_defines_then(s, s0, s1e, l, l, l, true);
                    lemma_defines_then(s, s1e, s2, l, l, h, true);
                    lemma_defines_then(s, s2, e6, l, h, h, true);
                    lemma_within_emit(s, name_line, l, h);
                    lemma_plain_jumps(s0, s1e, l, h);
                    lemma_plain_jumps(s2, e6, l, h);
                    lemma_within_then(s, s0, s1e, l, h);
                    lemma_within_then(s, s1e, s2, l, h);
                    lemma_within_then(s, s2, e6, l, h);
                }
            }
        }
    }
}

proof fn lemma_count_none(code: Seq<Seq<char>>, a: int, b: int, x: Seq<char>)
    requires
        0 <= a,
        b <= code.len(),
        forall|i: int| a <= i < b ==> #[trigger] code[i] != x,
    ensures
        count_lines(code, a, b, x) == 0,
    decreases b - a,
{
    if b > a {
        lemma_count_none(code, a, b - 1, x);
    }
}

/// The startup code defines no label and does not jump.
proof fn lemma_start_code_labels(k: nat)
    ensures
        count_lines(start_code(), 0, start_code().len() as int, label_line(k)) == 0,
        forall|i: int| 0 <= i < start_code().len() ==> !jump(#[trigger] start_code()[i]),
{
    reveal_strlit(".global _start");
    reveal_strlit("[BUILTINS]");
    reveal_strlit(".text");
    reveal_strlit("_start:");
    reveal_strlit("addi sp,sp,-16");
    reveal_strlit("sd ra,8(sp)");
    reveal_strlit("call main");
    reveal_strlit("ld ra,8(sp)");
    reveal_strlit("addi sp,sp,16");
    reveal_strlit("li a7,93");
    reveal_strlit("ecall");
    lemma_label_lines_differ(k, k);
    let c = start_code();
    assert forall|i: int| 0 <= i < c.len() implies #[trigger] c[i] != label_line(k) by {
        if i == 0 || i == 2 {
            assert(c[i][1] != 'L');
        } else {
            assert(c[i][0] != '.');
        }
    }
    lemma_count_none(c, 0, c.len() as int, label_line(k));
}

/// The first `n` declarations, generated from a new generator, give code
/// in which each label below the counter is defined exactly once and no
/// other label is, and every jump and branch targets one of those labels.
proof fn lemma_g_decls_labels(decls: Seq<SDecl>, n: nat)
    requires
        fn_names_dotless(decls),
    ensures
        g_decls(initial_gen(), decls, n) matches Some(s) ==> (forall|k: nat|
            #[trigger] count_lines(s.code, 0, s.code.len() as int, label_line(k)) == (if k < s.label {
                1nat
            } else {
                0nat
            })) && (forall|i: int|
            0 <= i < s.code.len() && jump(#[trigger] s.code[i]) ==> targets(s.code[i], 0, s.label)),
    decreases n,
{
    let s0 = initial_gen();
    if n == 0 || n > decls.len() {
        assert forall|k: nat|
            #[trigger] count_lines(s0.code, 0, s0.code.len() as int, label_line(k)) == (if k < s0.label {
                1nat
            } else {
                0nat
            }) by {
            lemma_start_code_labels(k);
        }
        lemma_start_code_labels(0);
    } else {
        lemma_g_decls_labels(decls, (n - 1) as nat);
        if let Some(s1) = g_decls(s0, decls, (n - 1) as nat) {
            let d = decls[n - 1];
            match d {
                SDecl::Fn(f) => {
                    assert(dotless(f.name));
                    lemma_g_func_labels(s1, f);
                    if let Some(s2) = g_func(s1, f) {
                        let n1 = s1.code.len() as int;
                        let n2 = s2.code.len() as int;
                        assert forall|k: nat|
                            #[trigger] count_lines(s2.code, 0, n2, label_line(k)) == (if k < s2.label {
                                1nat
                            } else {
                                0nat
                            }) by {
                            lemma_count_split(s2.code, 0, n1, n2, label_line(k));
                            lemma_count_stable(s1.code, s2.code, 0, n1, label_line(k));
                            assert(count_lines(s1.code, 0, n1, label_line(k)) == count_lines(
                                s1.code,
                                0,
                                n1,
                                label_line(k),
                            ));
                            assert(count_lines(s2.code, n1, n2, label_line(k)) == count_lines(
                                s2.code,
                                n1,
                                n2,
                                label_line(k),
                            ));
                        }
                        assert forall|i: int|
                            0 <= i < s2.code.len() && jump(#[trigger] s2.code[i]) implies targets(
                            s2.code[i],
                            0,
                            s2.label,
                        ) by {
                            let line = s2.code[i];
                            if i < n1 {
                                assert(line == s1.code[i]);
                                let k = choose|k: nat|
                                    0 <= k < s1.label && #[trigger] ends_with(line, label_name(k));
                                assert(ends_with(line, label_name(k)));
                            } else {
                                let k = choose|k: nat|
                                    s1.label <= k < s2.label && #[trigger] ends_with(line, label_name(k));
                                assert(ends_with(line, label_name(k)));
                            }
                        }
                    }
                },
                SDecl::Var(v) => {},
            }
        }
    }
}

/// In the code generated for a program whose functions have dotless
/// names, each label below the final counter is defined exactly once and
/// no other label is, and every jump and branch targets one of those
/// labels. These lines, with the data and the built-ins, are the text that
/// `Codegen::generate_asm` returns.
pub proof fn lemma_program_labels(decls: Seq<SDecl>)
    requires
        fn_names_dotless(decls),
    ensures
        g_decls(initial_gen(), decls, decls.len()) matches Some(s) ==> (forall|k: nat|
            #[trigger] count_lines(s.code, 0, s.code.len() as int, label_line(k)) == (if k < s.label {
                1nat
            } else {
                0nat
            })) && (forall|i: int|
            0 <= i < s.code.len() && jump(#[trigger] s.code[i]) ==> targets(s.code[i], 0, s.label)),
{
    lemma_g_decls_labels(decls, decls.len());
}

/// `b` comes from `a` by appending code and data.
pub open spec fn grows(a: GenState, b: GenState) -> bool {
    &&& a.code.len() <= b.code.len()
    &&& forall|i: int| 0 <= i < a.code.len() ==> #[trigger] b.code[i] == a.code[i]
    &&& a.glob.len() <= b.glob.len()
    &&& forall|i: int| 0 <= i < a.glob.len() ==> #[trigger] b.glob[i] == a.glob[i]
    &&& b.tregs == a.tregs
    &&& a.label <= b.label
}

proof fn lemma_g_params_extends(s: GenState, params: Seq<SVarDecl>, n: nat)
    ensures
        g_params(s, params, n) matches Some(s2) ==> extends(s, s2),
    decreases n,
{
    if n > 0 && n <= params.len() {
        lemma_g_params_extends(s, params, (n - 1) as nat);
        if let Some(s1) = g_params(s, params, (n - 1) as nat) {
            if let Some((s2, reg)) = s1.next_arg() {
                if let Some(l) = params[n - 1].loc {
                    lemma_store_extends(s2, reg, l);
                }
            }
        }
    }
}

proof fn lemma_g_locals_extends(s: GenState, locals: Seq<SVarDecl>, n: nat)
    ensures
        g_locals(s, locals, n) matches Some(s2) ==> extends(s, s2),
    decreases n,
{
    if n > 0 && n <= locals.len() {
        lemma_g_locals_extends(s, locals, (n - 1) as nat);
        if let Some(s1) = g_locals(s, locals, (n - 1) as nat) {
            if let Some(l) = locals[n - 1].loc {
                lemma_store_extends(s1, Register::Zero, l);
            }
        }
    }
}

/// Generating a declaration only appends code and data.
pub proof fn lemma_g_decl_grows(s: GenState, d: SDecl)
    ensures
        g_decl(s, d) matches Some(s2) ==> grows(s, s2),
{
    match d {
        SDecl::Fn(f) => {
            let bytes = var_bytes(f.locals) + var_bytes(f.params);
            let frame = frame_size(bytes);
            let s0 = s.emit(f.name + ":"@);
            let s1 = s0.emit("addi sp,sp,-"@ + nat_text(frame)).emit("sd ra,0(sp)"@).emit(
                "sd s0,8(sp)"@,
            ).emit("sd s1,16(sp)"@);
            lemma_g_params_extends(s1, f.params, f.params.len());
            if let Some(s2) = g_params(s1, f.params, f.params.len()) {
                lemma_g_locals_extends(s2.reset_args(), f.locals, f.locals.len());
            }
            if let Some(s3) = g_prologue(s0, f, frame) {
                lemma_g_stmts_extends(s3.emit("  "@), f.body, f.body.len());
            }
        },
        SDecl::Var(v) => {},
    }
}

/// Generating declarations only appends code and data.
pub proof fn lemma_g_decls_grows(s: GenState, decls: Seq<SDecl>, n: nat)
    ensures
        g_decls(s, decls, n) matches Some(s2) ==> grows(s, s2),
    decreases n,
{
    if n > 0 && n <= decls.len() {
        lemma_g_decls_grows(s, decls, (n - 1) as nat);
        if let Some(s1) = g_decls(s, decls, (n - 1) as nat) {
            lemma_g_decl_grows(s1, decls[n - 1]);
        }
    }
}

/// Every program's code begins with the startup lines, which call `main`
/// and exit with its result; the second of them is the one that the
/// built-ins' buffer replaces.
pub proof fn lemma_program_starts_with_startup(decls: Seq<SDecl>)
    ensures
        g_decls(initial_gen(), decls, decls.len()) matches Some(s2) ==> (s2.code.len() >= 11
            && forall|i: int| 0 <= i < 11 ==> #[trigger] s2.code[i] == start_code()[i]),
{
    lemma_g_decls_grows(initial_gen(), decls, decls.len());
}

// ---------------------------------------------------------------------------
// Variables and frames
// ---------------------------------------------------------------------------

/// The variable lives in the stack frame, above the three saved registers
/// and below `frame`.
pub open spec fn in_frame(v: SVarDecl, frame: nat) -> bool {
    match v.loc {
        Some(SLoc::Stack(size, off)) => size == v.typ.size() && 24 <= off && off + size <= frame,
        _ => false,
    }
}

/// Both variables live in the stack frame and `a` ends where `b` begins or before.
pub open spec fn placed_before(a: SVarDecl, b: SVarDecl) -> bool {
    match (a.loc, b.loc) {
        (Some(SLoc::Stack(sa, oa)), Some(SLoc::Stack(_sb, ob))) => oa + sa <= ob,
        _ => false,
    }
}

proof fn lemma_var_bytes_types(a: Seq<SVarDecl>, b: Seq<SVarDecl>)
    requires
        a.len() == b.len(),
        forall|k: int| 0 <= k < a.len() ==> #[trigger] a[k].typ == b[k].typ,
    ensures
        var_bytes(a) == var_bytes(b),
    decreases a.len(),
{
    if a.len() > 0 {
        lemma_var_bytes_types(a.drop_last(), b.drop_last());
    }
}

proof fn lemma_var_bytes_take_mono(v: Seq<SVarDecl>, i: int, j: int)
    requires
        0 <= i <= j <= v.len(),
    ensures
        var_bytes(v.take(i)) <= var_bytes(v.take(j)),
{
    assert(v.take(j).take(i) =~= v.take(i));
    lemma_var_bytes_prefix(v.take(j), i);
}

proof fn lemma_var_bytes_step(v: Seq<SVarDecl>, k: int)
    requires
        0 <= k < v.len(),
    ensures
        var_bytes(v.take(k + 1)) == var_bytes(v.take(k)) + v[k].typ.size(),
{
    assert(v.take(k + 1).drop_last() =~= v.take(k));
}

proof fn lemma_frame_size_covers(bytes: nat)
    ensures
        bytes + 24 <= frame_size(bytes),
{
    let x = bytes + 39;
    assert((x / 16) * 16 >= x - 15) by (nonlinear_arith);
}

/// The analysis places every parameter and local variable of a function
/// inside the stack frame that code generation makes for it: above the
/// saved registers, within the frame, in declaration order (parameters
/// first) and without overlap; each place has the size of its type. This
/// holds while the offsets fit in an `i32`.
pub proof fn lemma_places_in_frame(st: SemState, f: SFunc)
    requires
        24 + var_bytes(f.params) + var_bytes(f.locals) <= i32::MAX,
    ensures
        ({
            let g = a_func(st, f).1;
            let vars = g.params + g.locals;
            let frame = frame_size(var_bytes(g.locals) + var_bytes(g.params));
            &&& vars.len() == f.params.len() + f.locals.len()
            &&& forall|k: int| 0 <= k < vars.len() ==> in_frame(#[trigger] vars[k], frame)
            &&& forall|j: int, k: int|
                0 <= j < k < vars.len() ==> placed_before(#[trigger] vars[j], #[trigger] vars[k])
        }),
{
    let (ok, t) = st.table.after_insert(f.name, SSymbol::Fn { params: f.params, ret: f.ret });
    let s1 = if ok {
        st.with_table(t)
    } else {
        st.with_table(t).err("Redefined function "@ + f.name)
    };
    let s2 = s1.with_table(s1.table.after_enter());
    let pw = "Redefined parameter "@;
    let lw = "Redefined local variable "@;
    let p = f.params;
    let l = f.locals;
    assert(p.take(p.len() as int) =~= p);
    assert(l.take(l.len() as int) =~= l);
    lemma_a_vars_places(s2, f.name, pw, p, p.len(), 24);
    let (s3, params1, o) = a_vars(s2, f.name, pw, p, p.len(), 24);
    lemma_a_vars_places(s3, f.name, lw, l, l.len(), o);
    let (s4, locals1, _o) = a_vars(s3, f.name, lw, l, l.len(), o);
    let g = a_func(st, f).1;
    assert(g.params == params1);
    assert(g.locals == locals1);
    lemma_var_bytes_types(params1, p);
    lemma_var_bytes_types(locals1, l);
    let total = var_bytes(l) + var_bytes(p);
    let frame = frame_size(total);
    lemma_frame_size_covers(total);
    let vars = g.params + g.locals;
    let np = p.len() as int;
    assert forall|k: int| 0 <= k < vars.len() implies in_frame(#[trigger] vars[k], frame) by {
        if k < np {
            lemma_var_bytes_step(p, k);
            lemma_var_bytes_take_mono(p, k + 1, np);
            assert(vars[k] == params1[k]);
        } else {
            lemma_var_bytes_step(l, k - np);
            lemma_var_bytes_take_mono(l, k - np + 1, l.len() as int);
            assert(vars[k] == locals1[k - np]);
        }
    }
    assert forall|j: int, k: int|
        0 <= j < k < vars.len() implies placed_before(#[trigger] vars[j], #[trigger] vars[k]) by {
        if k < np {
            lemma_var_bytes_step(p, j);
            lemma_var_bytes_take_mono(p, j + 1, k);
            lemma_var_bytes_take_mono(p, k, np);
            assert(vars[j] == params1[j]);
            assert(vars[k] == params1[k]);
        } else if j < np {
            lemma_var_bytes_step(p, j);
            lemma_var_bytes_take_mono(p, j + 1, np);
            lemma_var_bytes_take_mono(l, k - np, l.len() as int);
            assert(vars[j] == params1[j]);
            assert(vars[k] == locals1[k - np]);
        } else {
            lemma_var_bytes_step(l, j - np);
            lemma_var_bytes_take_mono(l, j - np + 1, k - np);
            lemma_var_bytes_take_mono(l, k - np, l.len() as int);
            assert(vars[j] == locals1[j - np]);
            assert(vars[k] == locals1[k - np]);
        }
    }
}

// ---------------------------------------------------------------------------
// Registers
// ---------------------------------------------------------------------------

impl Register {
    /// The register's name in assembly.
    pub fn name(&self) -> (r: &'static str)
        ensures
            r@ == self.spec_name(),
    {
        match self {
            Register::T0 => "t0",
            Register::T1 => "t1",
            Register::T2 => "t2",
            Register::T3 => "t3",
            Register::T4 => "t4",
            Register::T5 => "t5",
            Register::T6 => "t6",
            Register::A0 => "a0",
            Register::A1 => "a1",
            Register::A2 => "a2",
            Register::A3 => "a3",
            Register::A4 => "a4",
            Register::A5 => "a5",
            Register::A6 => "a6",
            Register::A7 => "a7",
            Register::Zero => "zero",
        }
    }

    /// The argument registers, handed out from the end of the list: `a0` first.
    pub fn get_arg_reglist() -> (r: Vec<Register>)
        ensures
            r@ == arg_regs(),
    {
        let r = vec![
            Register::A7,
            Register::A6,
            Register::A5,
            Register::A4,
            Register::A3,
            Register::A2,
            Register::A1,
            Register::A0,
        ];
        assert(r@ =~= arg_regs());
        r
    }

    /// The temporary registers, handed out from the end of the list: `t6` first.
    pub fn get_temp_reglist() -> (r: Vec<Register>)
        ensures
            r@ == temp_regs(),
    {
        let r = vec![
            Register::T0,
            Register::T1,
            Register::T2,
            Register::T3,
            Register::T4,
            Register::T5,
            Register::T6,
        ];
        assert(r@ =~= temp_regs());
        r
    }
}

/// The registers an allocator holds: the free temporaries (the next one
/// handed out is the last), all temporaries, and the argument registers not
/// yet handed out (the next one is the last).
pub struct RegState {
    pub free: Seq<Register>,
    pub tregs: Seq<Register>,
    pub args: Seq<Register>,
}

/// Hands out temporaries and argument registers.
impl RegState {
    /// The temporaries are `t0`..`t6` and every free register is one of them.
    pub open spec fn wf(self) -> bool {
        &&& self.tregs == temp_regs()
        &&& forall|i: int| 0 <= i < self.free.len() ==> self.tregs.contains(#[trigger] self.free[i])
    }

    /// Hands out the last free temporary.
    pub open spec fn after_alloc(self) -> (RegState, Register) {
        (RegState { free: self.free.drop_last(), ..self }, self.free.last())
    }

    /// Gives a register back: only temporaries become free again.
    pub open spec fn after_free(self, reg: Register) -> RegState {
        if self.tregs.contains(reg) {
            RegState { free: self.free.push(reg), ..self }
        } else {
            self
        }
    }
}

/// No register is free twice: the temporaries start out distinct,
/// allocating keeps the free list distinct, and so does giving back a
/// register that is not free already. (Giving back a free temporary again
/// lists it twice.)
pub proof fn lemma_free_list_distinct(r: RegState, reg: Register)
    requires
        r.wf(),
        r.free.no_duplicates(),
    ensures
        temp_regs().no_duplicates(),
        r.free.len() > 0 ==> r.after_alloc().0.free.no_duplicates(),
        !r.free.contains(reg) ==> r.after_free(reg).free.no_duplicates(),
{
    let f = r.free;
    if f.len() > 0 {
        let g = f.drop_last();
        assert forall|i: int, j: int| 0 <= i < g.len() && 0 <= j < g.len() && i != j implies g[i]
            != g[j] by {
            assert(g[i] == f[i] && g[j] == f[j]);
        }
    }
    if !f.contains(reg) && temp_regs().contains(reg) {
        let g = f.push(reg);
        assert forall|i: int, j: int| 0 <= i < g.len() && 0 <= j < g.len() && i != j implies g[i]
            != g[j] by {
            if i < f.len() && j < f.len() {
                assert(g[i] == f[i] && g[j] == f[j]);
            } else if i < f.len() {
                assert(g[i] == f[i]);
            } else if j < f.len() {
                assert(g[j] == f[j]);
            }
        }
    }
}

/// A register given back is the next one handed out: freeing a temporary
/// and then allocating returns that temporary and leaves the free list as it
/// was; any other register is ignored. Allocating always hands out a
/// temporary, and both keep the allocator well formed.
pub proof fn lemma_free_then_alloc(r: RegState, reg: Register)
    requires
        r.wf(),
    ensures
        r.after_free(reg).wf(),
        temp_regs().contains(reg) ==> r.after_free(reg).after_alloc() == (r, reg),
        !temp_regs().contains(reg) ==> r.after_free(reg) == r,
        r.free.len() > 0 ==> r.after_alloc().0.wf() && temp_regs().contains(r.after_alloc().1),
{
    if temp_regs().contains(reg) {
        assert(r.after_free(reg).after_alloc().0.free =~= r.free);
    }
    if r.free.len() > 0 {
        assert(r.free.last() == r.free[r.free.len() - 1]);
    }
}

pub struct RegisterAllocator {
    free: Vec<Register>,
    tregs: Vec<Register>,
    args: Vec<Register>,
}

impl View for RegisterAllocator {
    type V = RegState;

    closed spec fn view(&self) -> RegState {
        RegState { free: self.free@, tregs: self.tregs@, args: self.args@ }
    }
}

/// Whether `r` is one of `v`.
fn contains_reg(v: &Vec<Register>, r: Register) -> (b: bool)
    ensures
        b == v@.contains(r),
{
    let mut i: usize = 0;
    while i < v.len()
        invariant
            i <= v.len(),
            forall|j: int| 0 <= j < i ==> v@[j] != r,
        decreases v.len() - i,
    {
        if v[i] == r {
            assert(v@[i as int] == r);
            return true;
        }
        i = i + 1;
    }
    false
}

impl RegisterAllocator {
    /// Every allocator is well formed: its temporaries are `t0`..`t6` and
    /// every free register is one of them.
    #[verifier::type_invariant]
    spec fn inv(self) -> bool {
        self@.wf()
    }

    /// All temporaries free, all argument registers available.
    pub fn new() -> (r: RegisterAllocator)
        ensures
            r@ == (RegState { free: temp_regs(), tregs: temp_regs(), args: arg_regs() }),
            r@.wf(),
            r@.free.no_duplicates(),
    {
        proof {
            lemma_free_list_distinct(RegState { free: seq![], tregs: temp_regs(), args: arg_regs() }, Register::Zero);
            assert forall|i: int| 0 <= i < temp_regs().len() implies temp_regs().contains(
                #[trigger] temp_regs()[i],
            ) by {}
        }
        Self {
            tregs: Register::get_temp_reglist(),
            free: Register::get_temp_reglist(),
            args: Register::get_arg_reglist(),
        }
    }

    /// How many temporaries are free.
    pub fn free_count(&self) -> (n: usize)
        ensures
            n == self@.free.len(),
    {
        self.free.len()
    }

    /// How many argument registers are left.
    pub fn arg_count(&self) -> (n: usize)
        ensures
            n == self@.args.len(),
    {
        self.args.len()
    }

    /// Hands out the last free temporary.
    pub fn alloc_reg(&mut self) -> (r: Register)
        requires
            old(self)@.free.len() > 0,
        ensures
            (final(self)@, r) == old(self)@.after_alloc(),
            final(self)@.wf(),
            temp_regs().contains(r),
            old(self)@.free.no_duplicates() ==> final(self)@.free.no_duplicates(),
    {
        proof {
            use_type_invariant(&*self);
            lemma_free_then_alloc(self@, Register::Zero);
            if self@.free.no_duplicates() {
                lemma_free_list_distinct(self@, Register::Zero);
            }
        }
        let mut free: Vec<Register> = Vec::new();
        std::mem::swap(&mut free, &mut self.free);
        let r = match free.pop() {
            Some(r) => r,
            None => Register::Zero,
        };
        self.free = free;
        r
    }

    /// Gives a register back; only temporaries become free again.
    pub fn free(&mut self, reg: Register)
        ensures
            final(self)@ == old(self)@.after_free(reg),
            final(self)@.wf(),
            temp_regs().contains(reg) ==> final(self)@.after_alloc() == (old(self)@, reg),
            !temp_regs().contains(reg) ==> final(self)@ == old(self)@,
            old(self)@.free.no_duplicates() && !old(self)@.free.contains(reg)
                ==> final(self)@.free.no_duplicates(),
    {
        proof {
            use_type_invariant(&*self);
            lemma_free_then_alloc(self@, reg);
            if self@.free.no_duplicates() {
                lemma_free_list_distinct(self@, reg);
            }
        }
        if contains_reg(&self.tregs, reg) {
            let mut free: Vec<Register> = Vec::new();
            std::mem::swap(&mut free, &mut self.free);
            free.push(reg);
            self.free = free;
        }
    }

    /// Hands out the next argument register: `a0`, then `a1`, and so on.
    pub fn get_next_arg_reg(&mut self) -> (r: Register)
        requires
            old(self)@.args.len() > 0,
        ensures
            r == old(self)@.args.last(),
            final(self)@ == (RegState { args: old(self)@.args.drop_last(), ..old(self)@ }),
            final(self)@.wf(),
    {
        proof {
            use_type_invariant(&*self);
        }
        let mut args: Vec<Register> = Vec::new();
        std::mem::swap(&mut args, &mut self.args);
        let r = match args.pop() {
            Some(r) => r,
            None => Register::Zero,
        };
        self.args = args;
        r
    }

    /// Makes all argument registers available again.
    pub fn reset_arg_regs(&mut self)
        ensures
            final(self)@ == (RegState { args: arg_regs(), ..old(self)@ }),
            final(self)@.wf(),
    {
        proof {
            use_type_invariant(&*self);
        }
        self.args = Register::get_arg_reglist();
    }
}

// ---------------------------------------------------------------------------
// The generator
// ---------------------------------------------------------------------------

/// The startup code: it calls `main` and exits with its result. The second
/// line stands in for the section of the built-ins' buffer.
pub open spec fn start_code() -> Seq<Seq<char>> {
    seq![
        ".global _start"@,
        "[BUILTINS]"@,
        ".text"@,
        "_start:"@,
        "addi sp,sp,-16"@,
        "sd ra,8(sp)"@,
        "call main"@,
        "ld ra,8(sp)"@,
        "addi sp,sp,16"@,
        "li a7,93"@,
        "ecall"@,
    ]
}

/// A new generator: the startup code, no data, all registers free, label 0.
pub open spec fn initial_gen() -> GenState {
    GenState {
        code: start_code(),
        glob: seq![],
        free: temp_regs(),
        tregs: temp_regs(),
        args: arg_regs(),
        label: 0,
    }
}

/// Emits RISC-V assembly.
pub struct Codegen {
    code: Vec<String>,
    glob_data: Vec<String>,
    regs: RegisterAllocator,
    next_label: usize,
}

impl View for Codegen {
    type V = GenState;

    closed spec fn view(&self) -> GenState {
        GenState {
            code: texts(self.code@),
            glob: texts(self.glob_data@),
            free: self.regs@.free,
            tregs: self.regs@.tregs,
            args: self.regs@.args,
            label: self.next_label as nat,
        }
    }
}

impl Default for Codegen {
    fn default() -> (r: Self)
        ensures
            r@ == initial_gen(),
    {
        Self::new()
    }
}

/// The suffix of the load and store instructions for a variable of `size` bytes.
fn get_load_cmd(size: &u8) -> (c: char)
    requires
        load_cmd(*size) is Some,
    ensures
        Some(c) == load_cmd(*size),
{
    if *size == 1 {
        'b'
    } else {
        'd'
    }
}

/// The bytes that the variables occupy; `None` where the count does not
/// fit in a `usize`.
fn get_bytes(vars: &Vec<VarDecl>) -> (r: Option<usize>)
    ensures
        match r {
            Some(b) => b == var_bytes(vardecls_view(vars@)),
            None => var_bytes(vardecls_view(vars@)) > usize::MAX,
        },
{
    let ghost vv = vardecls_view(vars@);
    let mut bytes: usize = 0;
    let mut i: usize = 0;
    assert(vv.take(0) =~= seq![]);
    while i < vars.len()
        invariant
            i <= vars.len(),
            vv == vardecls_view(vars@),
            bytes == var_bytes(vv.take(i as int)),
        decreases vars.len() - i,
    {
        assert(vv.take(i + 1).drop_last() =~= vv.take(i as int));
        let mut typ = vars[i].typ;
        let size = typ.get_size();
        if bytes > usize::MAX - size as usize {
            proof {
                lemma_var_bytes_prefix(vv, i + 1);
            }
            return None;
        }
        bytes = bytes + size as usize;
        i = i + 1;
    }
    assert(vv.take(vars.len() as int) =~= vv);
    Some(bytes)
}

/// The stack frame for `bytes` bytes of variables and three saved registers,
/// rounded up to a multiple of 16.
fn get_stack_frame(bytes: usize) -> (r: usize)
    requires
        bytes + 39 <= usize::MAX,
    ensures
        r == frame_size(bytes as nat),
{
    let frame_size: usize = bytes + (3 * 8);
    let q: usize = (frame_size + 15) / 16;
    assert(q * 16 <= frame_size + 15) by (nonlinear_arith)
        requires
            q == (frame_size + 15) / 16,
    ;
    q * 16
}

/// The lines joined by line feeds.
fn join_literals(lines: Vec<String>) -> (r: String)
    ensures
        r@ == join_lines(texts(lines@)),
{
    join_with_newlines(&lines)
}

/// The built-in function `put`.
fn put() -> (r: String)
    ensures
        r@ == put_text(),
{
    let lines = vec![
        text_of("put:"),
        text_of(".option push"),
        text_of(".option norelax"),
        text_of("addi sp,sp,-16"),
        text_of("sd ra,8(sp)"),
        text_of("la t0, put_buf"),
        text_of("sb a0, 0(t0)"),
        text_of("li a0, 1"),
        text_of("la a1, put_buf"),
        text_of("li a2, 1"),
        text_of("li a7, 64"),
        text_of("ecall"),
        text_of("ld ra,8(sp)"),
        text_of("addi sp,sp,16"),
        text_of(".option pop"),
        text_of("ret"),
    ];
    assert(texts(lines@) =~= seq![
        "put:"@,
        ".option push"@,
        ".option norelax"@,
        "addi sp,sp,-16"@,
        "sd ra,8(sp)"@,
        "la t0, put_buf"@,
        "sb a0, 0(t0)"@,
        "li a0, 1"@,
        "la a1, put_buf"@,
        "li a2, 1"@,
        "li a7, 64"@,
        "ecall"@,
        "ld ra,8(sp)"@,
        "addi sp,sp,16"@,
        ".option pop"@,
        "ret"@,
    ]);
    join_literals(lines)
}

/// The built-in function `putLn`.
fn put_ln() -> (r: String)
    ensures
        r@ == put_ln_text(),
{
    let lines = vec![
        text_of("putLn:"),
        text_of("addi sp, sp, -16"),
        text_of("sd ra, 8(sp)"),
        text_of("li a0,10"),
        text_of("call put"),
        text_of("ld ra, 8(sp)"),
        text_of("addi sp, sp, 16"),
        text_of("ret"),
    ];
    assert(texts(lines@) =~= seq![
        "putLn:"@,
        "addi sp, sp, -16"@,
        "sd ra, 8(sp)"@,
        "li a0,10"@,
        "call put"@,
        "ld ra, 8(sp)"@,
        "addi sp, sp, 16"@,
        "ret"@,
    ]);
    join_literals(lines)
}

/// The section of built-in functions for those the analysis saw used.
fn builtin_funcs(sym: &SymbolTable) -> (r: Vec<String>)
    ensures
        texts(r@) == builtin_section(sym@.used),
{
    let used = sym.used_builtins();
    let ghost uv = sym@.used;
    assert(texts(used@) =~= uv);
    let mut ret: Vec<String> = Vec::new();
    ret.push(text_of("\n# BUILTIN FUNCTIONS"));
    let mut put_gen = false;
    let mut i: usize = 0;
    assert(texts(ret@) =~= seq!["\n# BUILTIN FUNCTIONS"@] + builtin_items(uv, 0).0);
    while i < used.len()
        invariant
            i <= used.len(),
            uv == texts(used@),
            uv.len() == used@.len(),
            texts(ret@) == seq!["\n# BUILTIN FUNCTIONS"@] + builtin_items(uv, i as nat).0,
            put_gen == builtin_items(uv, i as nat).1,
        decreases used.len() - i,
    {
        let func = &used[i];
        if *func == text_of("CHR") || *func == text_of("ORD") {
            i = i + 1;
            continue;
        }
        let mut code = String::new();
        if *func == text_of("putLn") {
            if !put_gen {
                code.append(put().as_str());
                code.append("\n");
                put_gen = true;
            }
            code.append(put_ln().as_str());
            code.append("\n");
        }
        if *func == text_of("put") && !put_gen {
            code.append(put().as_str());
            code.append("\n");
            put_gen = true;
        }
        let ghost prev = ret@;
        ret.push(code);
        assert(texts(ret@) =~= texts(prev).push(code@));
        proof {
            reveal_strlit("putLn");
            reveal_strlit("put");
        }
        assert(code@ =~= builtin_items(uv, (i + 1) as nat).0.last());
        i = i + 1;
    }
    ret
}

/// A copy of a list of lines.
fn copy_lines(v: &Vec<String>) -> (r: Vec<String>)
    ensures
        r@ == v@,
{
    let mut r: Vec<String> = Vec::new();
    let mut i: usize = 0;
    while i < v.len()
        invariant
            i <= v.len(),
            r@ == v@.take(i as int),
        decreases v.len() - i,
    {
        r.push(v[i].clone());
        assert(r@ =~= v@.take(i + 1));
        i = i + 1;
    }
    assert(v@.take(v.len() as int) =~= v@);
    r
}

/// A line made of a literal and a register's name.
fn line_with_reg(lit: &str, reg: Register) -> (r: String)
    ensures
        r@ == lit@ + reg.spec_name(),
{
    let mut r = text_of(lit);
    r.append(reg.name());
    r
}

impl Codegen {
    /// A generator holding the startup code.
    pub fn new() -> (r: Self)
        ensures
            r@ == initial_gen(),
    {
        let code = vec![
            text_of(".global _start"),
            text_of("[BUILTINS]"),
            text_of(".text"),
            text_of("_start:"),
            text_of("addi sp,sp,-16"),
            text_of("sd ra,8(sp)"),
            text_of("call main"),
            text_of("ld ra,8(sp)"),
            text_of("addi sp,sp,16"),
            text_of("li a7,93"),
            text_of("ecall"),
        ];
        let r = Self {
            code,
            glob_data: Vec::new(),
            regs: RegisterAllocator::new(),
            next_label: 0,
        };
        assert(r@.code =~= start_code());
        assert(r@.glob =~= seq![]);
        r
    }

    fn emit(&mut self, text: String)
        ensures
            final(self)@ == old(self)@.emit(text@),
    {
        self.code.push(text);
        assert(final(self)@.code =~= old(self)@.code.push(text@));
    }

    /// A fresh label; `None` when the labels are used up.
    fn get_label(&mut self) -> (r: Option<String>)
        ensures
            match old(self)@.new_label() {
                Some((s, l)) => r is Some && r->0@ == l && final(self)@ == s,
                None => r is None,
            },
    {
        if self.next_label == usize::MAX {
            return None;
        }
        let mut label = text_of(".L");
        append_u64(&mut label, self.next_label as u64);
        self.next_label = self.next_label + 1;
        Some(label)
    }

    /// Takes a free temporary; `None` when none is free.
    fn take_reg(&mut self) -> (r: Option<Register>)
        ensures
            match old(self)@.take_temp() {
                Some((s, reg)) => r == Some(reg) && final(self)@ == s,
                None => r is None && final(self)@ == old(self)@,
            },
    {
        if self.regs.free_count() == 0 {
            return None;
        }
        Some(self.regs.alloc_reg())
    }

    /// Takes the next argument register; `None` when all are taken.
    fn take_arg_reg(&mut self) -> (r: Option<Register>)
        ensures
            match old(self)@.next_arg() {
                Some((s, reg)) => r == Some(reg) && final(self)@ == s,
                None => r is None && final(self)@ == old(self)@,
            },
    {
        if self.regs.arg_count() == 0 {
            return None;
        }
        Some(self.regs.get_next_arg_reg())
    }

    fn release(&mut self, reg: Register)
        ensures
            final(self)@ == old(self)@.release(reg),
    {
        self.regs.free(reg);
    }

    fn reset_args(&mut self)
        ensures
            final(self)@ == old(self)@.reset_args(),
    {
        self.regs.reset_arg_regs();
    }

    /// Adds a global variable of `size` bytes to the data section; fails
    /// for a size other than 1 or 8.
    fn emit_glob_var(&mut self, name: &str, size: &u8) -> (ok: bool)
        ensures
            match g_glob(old(self)@, name@, *size) {
                Some(s) => ok && final(self)@ == s,
                None => !ok,
            },
    {
        if self.glob_data.len() == 0 {
            self.glob_data.push(text_of(".data"));
        }
        let ghost mid = self@;
        assert(mid.glob =~= (if old(self)@.glob.len() == 0 {
            old(self)@.glob.push(".data"@)
        } else {
            old(self)@.glob
        }));
        let cmd: &str = if *size == 1 {
            ".byte"
        } else if *size == 8 {
            ".quad"
        } else {
            return false;
        };
        let mut line = text_of(name);
        line.append(": ");
        line.append(cmd);
        line.append(" 0");
        self.glob_data.push(line);
        proof {
            reveal_strlit(".byte");
            reveal_strlit(".quad");
            reveal_strlit(": ");
            reveal_strlit(" 0");
            reveal_strlit(": .byte 0");
            reveal_strlit(": .quad 0");
        }
        assert(final(self)@.glob =~= mid.glob.push(line@));
        assert(line@ =~= name@ + (if *size == 1 {
            ": .byte 0"@
        } else {
            ": .quad 0"@
        }));
        true
    }

    /// Stores `reg` into a variable's place and gives `reg` back; fails where
    /// the place's size is not 1 or 8 or no temporary is free for an address.
    fn store(&mut self, reg: Register, loc: &VarLocation) -> (ok: bool)
        ensures
            match g_store(old(self)@, reg, loc_view(*loc)) {
                Some(s) => ok && final(self)@ == s,
                None => !ok,
            },
    {
        match loc {
            VarLocation::Stack((size, offset)) => {
                if !(*size == 1 || *size == 8) {
                    return false;
                }
                let cmd = get_load_cmd(size);
                let mut line = text_of("s");
                push_char(&mut line, cmd);
                line.append(" ");
                line.append(reg.name());
                line.append(", ");
                append_i64(&mut line, *offset as i64);
                line.append("(sp)");
                proof {
                    reveal_strlit("s");
                }
                assert(line@ =~= seq!['s', cmd] + " "@ + reg.spec_name() + ", "@ + int_text(
                    *offset as int,
                ) + "(sp)"@);
                self.emit(line);
            },
            VarLocation::Global((size, label)) => {
                let addr = match self.take_reg() {
                    Some(a) => a,
                    None => {
                        return false;
                    },
                };
                if !(*size == 1 || *size == 8) {
                    return false;
                }
                let cmd = get_load_cmd(size);
                let mut l1 = line_with_reg("la ", addr);
                l1.append(",");
                l1.append(label.as_str());
                self.emit(l1);
                let mut l2 = text_of("s");
                push_char(&mut l2, cmd);
                l2.append(" ");
                l2.append(reg.name());
                l2.append(",0(");
                l2.append(addr.name());
                l2.append(")");
                proof {
                    reveal_strlit("s");
                }
                assert(l2@ =~= seq!['s', cmd] + " "@ + reg.spec_name() + ",0("@ + addr.spec_name()
                    + ")"@);
                self.emit(l2);
            },
        }
        self.release(reg);
        true
    }

    /// Loads a variable into a new temporary; fails where no temporary is
    /// free or the place's size is not 1 or 8.
    fn load(&mut self, loc: &VarLocation) -> (r: Option<Register>)
        ensures
            match g_load(old(self)@, loc_view(*loc)) {
                Some((s, reg)) => r == Some(reg) && final(self)@ == s,
                None => r is None,
            },
    {
        let reg = match self.take_reg() {
            Some(a) => a,
            None => {
                return None;
            },
        };
        match loc {
            VarLocation::Stack((size, offset)) => {
                if !(*size == 1 || *size == 8) {
                    return None;
                }
                let cmd = get_load_cmd(size);
                let mut line = text_of("l");
                push_char(&mut line, cmd);
                line.append(" ");
                line.append(reg.name());
                line.append(",");
                append_i64(&mut line, *offset as i64);
                line.append("(sp)");
                proof {
                    reveal_strlit("l");
                }
                assert(line@ =~= seq!['l', cmd] + " "@ + reg.spec_name() + ","@ + int_text(
                    *offset as int,
                ) + "(sp)"@);
                self.emit(line);
            },
            VarLocation::Global((size, label)) => {
                let addr = match self.take_reg() {
                    Some(a) => a,
                    None => {
                        return None;
                    },
                };
                if !(*size == 1 || *size == 8) {
                    return None;
                }
                let cmd = get_load_cmd(size);
                let mut l1 = line_with_reg("la ", addr);
                l1.append(",");
                l1.append(label.as_str());
                self.emit(l1);
                let mut l2 = text_of("l");
                push_char(&mut l2, cmd);
                l2.append(" ");
                l2.append(reg.name());
                l2.append(",0(");
                l2.append(addr.name());
                l2.append(")");
                proof {
                    reveal_strlit("l");
                }
                assert(l2@ =~= seq!['l', cmd] + " "@ + reg.spec_name() + ",0("@ + addr.spec_name()
                    + ")"@);
                self.emit(l2);
            },
        }
        Some(reg)
    }

    /// Evaluates an expression into a register; `None` where generation fails.
    fn gen_expression(&mut self, e: &Expr) -> (r: Option<Register>)
        ensures
            match g_expr(old(self)@, e@) {
                Some((s, reg)) => r == Some(reg) && final(self)@ == s,
                None => r is None,
            },
        decreases e,
    {
        match e {
            Expr::Number(num) => {
                let reg = match self.take_reg() {
                    Some(a) => a,
                    None => {
                        return None;
                    },
                };
                let mut line = line_with_reg("li ", reg);
                line.append(",");
                append_i64(&mut line, *num);
                self.emit(line);
                Some(reg)
            },
            Expr::Char(c) => {
                let reg = match self.take_reg() {
                    Some(a) => a,
                    None => {
                        return None;
                    },
                };
                let mut line = line_with_reg("li ", reg);
                line.append(",");
                append_u64(&mut line, *c as u32 as u64);
                self.emit(line);
                Some(reg)
            },
            Expr::Binary { left, op, right } => {
                let rs1 = match self.gen_expression(left) {
                    Some(a) => a,
                    None => {
                        return None;
                    },
                };
                let rs2 = match self.gen_expression(right) {
                    Some(a) => a,
                    None => {
                        return None;
                    },
                };
                let mut line = text_of(op.mnemonic());
                line.append(" ");
                line.append(rs1.name());
                line.append(",");
                line.append(rs1.name());
                line.append(",");
                line.append(rs2.name());
                self.emit(line);
                self.release(rs2);
                Some(rs1)
            },
            Expr::Unary { op, expr } => {
                let rs1 = match self.gen_expression(expr) {
                    Some(a) => a,
                    None => {
                        return None;
                    },
                };
                let imm: &str = match op {
                    UnaryOp::Plus => "1",
                    UnaryOp::Minus => "-1",
                };
                let mut line = line_with_reg("addi ", rs1);
                line.append(",");
                line.append(rs1.name());
                line.append(",");
                line.append(imm);
                self.emit(line);
                Some(rs1)
            },
            Expr::Ident { name: _, loc } => match loc {
                Some(var_loc) => self.load(var_loc),
                None => None,
            },
            Expr::Call(name, args) => self.gen_call(name, args),
        }
    }

    /// Calls a function and gives the register holding its result; `None`
    /// where generation fails.
    fn gen_call(&mut self, name: &String, args: &Vec<Expr>) -> (r: Option<Register>)
        ensures
            match g_call(old(self)@, name@, exprs_view(args@)) {
                Some((s, reg)) => r == Some(reg) && final(self)@ == s,
                None => r is None,
            },
        decreases args,
    {
        proof {
            lemma_exprs_view_index(args@);
        }
        let mut head = text_of("# ");
        head.append(name.as_str());
        head.append("()");
        self.emit(head);
        if *name == text_of("ORD") || *name == text_of("CHR") {
            if args.len() == 0 {
                return None;
            }
            return self.gen_expression(&args[0]);
        }
        let ghost s1 = self@;
        let ghost av = exprs_view(args@);
        let mut i: usize = 0;
        assert(av.take(0) =~= seq![]);
        while i < args.len()
            invariant
                i <= args.len(),
                av == exprs_view(args@),
                av.len() == args.len(),
                g_args(s1, av.take(i as int)) == Some(self@),
                s1 == old(self)@.emit("# "@ + name@ + "()"@),
                !(name@ == "ORD"@ || name@ == "CHR"@),
            decreases args.len() - i,
        {
            assert(av.take(i + 1).drop_last() =~= av.take(i as int));
            assert(av.take(i + 1).last() == av[i as int]);
            proof {
                lemma_exprs_view_index(args@);
            }
            let ghost before = self@;
            let reg = match self.gen_expression(&args[i]) {
                Some(a) => a,
                None => {
                    assert(g_expr(before, av[i as int]) is None);
                    assert(g_args(s1, av.take(i + 1)) is None);
                    proof {
                        lemma_g_args_fails(s1, av, i + 1);
                    }
                    return None;
                },
            };
            let ghost after_expr = self@;
            let arg_reg = match self.take_arg_reg() {
                Some(a) => a,
                None => {
                    assert(g_expr(before, av[i as int]) == Some((after_expr, reg)));
                    assert(g_args(s1, av.take(i + 1)) is None);
                    proof {
                        lemma_g_args_fails(s1, av, i + 1);
                    }
                    return None;
                },
            };
            let mut line = line_with_reg("addi ", arg_reg);
            line.append(",");
            line.append(reg.name());
            line.append(",0");
            self.emit(line);
            self.release(reg);
            i = i + 1;
        }
        assert(av.take(args.len() as int) =~= av);
        self.reset_args();
        let mut call = text_of("call ");
        call.append(name.as_str());
        self.emit(call);
        let reg = match self.take_reg() {
            Some(a) => a,
            None => {
                return None;
            },
        };
        let mut mv = line_with_reg("addi ", reg);
        mv.append(",a0,0\n");
        self.emit(mv);
        Some(reg)
    }

    /// Jumps to `flabel` when the condition does not hold; fails where
    /// generation fails.
    fn gen_condition(&mut self, cond: &Condition, flabel: &String) -> (ok: bool)
        ensures
            match g_cond(old(self)@, cond@, flabel@) {
                Some(s) => ok && final(self)@ == s,
                None => !ok,
            },
    {
        let left = match self.gen_expression(&cond.left) {
            Some(a) => a,
            None => {
                return false;
            },
        };
        let right = match self.gen_expression(&cond.right) {
            Some(a) => a,
            None => {
                return false;
            },
        };
        let mut line = text_of(cond.op.branch());
        line.append(" ");
        line.append(left.name());
        line.append(",");
        line.append(right.name());
        line.append(",");
        line.append(flabel.as_str());
        self.emit(line);
        self.release(left);
        self.release(right);
        true
    }

    /// Generates a statement; fails where generation fails.
    fn gen_statement(&mut self, stmt: &Statement) -> (ok: bool)
        ensures
            match g_stmt(old(self)@, stmt@) {
                Some(s) => ok && final(self)@ == s,
                None => !ok,
            },
            ok ==> defines(old(self)@, final(self)@, old(self)@.label, final(self)@.label),
            ok ==> jumps_within(old(self)@, final(self)@, old(self)@.label, final(self)@.label),
        decreases stmt,
    {
        proof {
            lemma_g_stmt_labels(self@, stmt@);
        }
        match stmt {
            Statement::Return(expr) => {
                if let Some(ex) = expr {
                    let reg = match self.gen_expression(ex) {
                        Some(a) => a,
                        None => {
                            return false;
                        },
                    };
                    let mut line = line_with_reg("addi a0,", reg);
                    line.append(",0");
                    self.emit(line);
                    self.release(reg);
                }
                true
            },
            Statement::Assign { name: _, loc, expr } => {
                match loc {
                    Some(var_loc) => {
                        let val = match self.gen_expression(expr) {
                            Some(a) => a,
                            None => {
                                return false;
                            },
                        };
                        self.store(val, var_loc)
                    },
                    None => false,
                }
            },
            Statement::Call(name, args) => {
                let reg = match self.gen_call(name, args) {
                    Some(a) => a,
                    None => {
                        return false;
                    },
                };
                self.release(reg);
                true
            },
            Statement::If { branches, else_branch } => {
                proof {
                    lemma_branches_view_index(branches@);
                }
                let end_label = match self.get_label() {
                    Some(l) => l,
                    None => {
                        return false;
                    },
                };
                if !self.gen_branches(branches, &end_label) {
                    return false;
                }
                if let Some(else_body) = else_branch {
                    proof {
                        lemma_stmts_view_index(else_body@);
                    }
                    if !self.gen_stmts(else_body) {
                        return false;
                    }
                }
                let mut line = end_label;
                line.append(":");
                self.emit(line);
                true
            },
            Statement::While { cond, body } => {
                proof {
                    lemma_stmts_view_index(body@);
                }
                let start_label = match self.get_label() {
                    Some(l) => l,
                    None => {
                        return false;
                    },
                };
                let end_label = match self.get_label() {
                    Some(l) => l,
                    None => {
                        return false;
                    },
                };
                let mut l1 = start_label.clone();
                l1.append(":");
                self.emit(l1);
                if !self.gen_condition(cond, &end_label) {
                    return false;
                }
                if !self.gen_stmts(body) {
                    return false;
                }
                let mut l2 = text_of("j ");
                l2.append(start_label.as_str());
                self.emit(l2);
                let mut l3 = end_label;
                l3.append(":");
                self.emit(l3);
                true
            },
        }
    }

    /// Generates statements in order; fails where generation fails.
    fn gen_stmts(&mut self, v: &Vec<Statement>) -> (ok: bool)
        ensures
            match g_stmts(old(self)@, stmts_view(v@), v@.len()) {
                Some(s) => ok && final(self)@ == s,
                None => !ok,
            },
        decreases v,
    {
        let ghost s0 = self@;
        let ghost sv = stmts_view(v@);
        proof {
            lemma_stmts_view_index(v@);
        }
        let mut i: usize = 0;
        while i < v.len()
            invariant
                i <= v.len(),
                sv == stmts_view(v@),
                sv.len() == v@.len(),
                s0 == old(self)@,
                g_stmts(s0, sv, i as nat) == Some(self@),
            decreases v.len() - i,
        {
            proof {
                lemma_stmts_view_index(v@);
            }
            if !self.gen_statement(&v[i]) {
                proof {
                    lemma_g_stmts_fails(s0, sv, (i + 1) as nat, v@.len());
                }
                return false;
            }
            i = i + 1;
        }
        true
    }

    /// Generates the branches of an `if`, each ending with a jump to
    /// `end`; fails where generation fails.
    fn gen_branches(&mut self, v: &Vec<(Condition, Vec<Statement>)>, end: &String) -> (ok: bool)
        ensures
            match g_branches(old(self)@, branches_view(v@), v@.len(), end@) {
                Some(s) => ok && final(self)@ == s,
                None => !ok,
            },
        decreases v,
    {
        let ghost s0 = self@;
        let ghost bv = branches_view(v@);
        proof {
            lemma_branches_view_index(v@);
        }
        let mut i: usize = 0;
        while i < v.len()
            invariant
                i <= v.len(),
                bv == branches_view(v@),
                bv.len() == v@.len(),
                s0 == old(self)@,
                g_branches(s0, bv, i as nat, end@) == Some(self@),
            decreases v.len() - i,
        {
            proof {
                lemma_branches_view_index(v@);
                lemma_stmts_view_index(v@[i as int].1@);
            }
            let next_label = match self.get_label() {
                Some(l) => l,
                None => {
                    proof {
                        lemma_g_branches_fails(s0, bv, (i + 1) as nat, v@.len(), end@);
                    }
                    return false;
                },
            };
            if !self.gen_condition(&v[i].0, &next_label) {
                proof {
                    lemma_g_branches_fails(s0, bv, (i + 1) as nat, v@.len(), end@);
                }
                return false;
            }
            if !self.gen_stmts(&v[i].1) {
                proof {
                    lemma_g_branches_fails(s0, bv, (i + 1) as nat, v@.len(), end@);
                }
                return false;
            }
            let mut l1 = text_of("j ");
            l1.append(end.as_str());
            self.emit(l1);
            let mut l2 = next_label;
            l2.append(":");
            self.emit(l2);
            i = i + 1;
        }
        true
    }

    /// Makes the frame, saves the registers, stores the parameters and
    /// zeroes the locals; fails where generation fails.
    fn gen_func_prologue(&mut self, func: &FuncDecl, frame_size: usize) -> (ok: bool)
        ensures
            match g_prologue(old(self)@, func_view(*func), frame_size as nat) {
                Some(s) => ok && final(self)@ == s,
                None => !ok,
            },
    {
        let mut l1 = text_of("addi sp,sp,-");
        append_u64(&mut l1, frame_size as u64);
        self.emit(l1);
        self.emit(text_of("sd ra,0(sp)"));
        self.emit(text_of("sd s0,8(sp)"));
        self.emit(text_of("sd s1,16(sp)"));
        let ghost s1 = self@;
        let ghost pv = vardecls_view(func.params@);
        let mut i: usize = 0;
        while i < func.params.len()
            invariant
                i <= func.params.len(),
                pv == vardecls_view(func.params@),
                pv.len() == func.params@.len(),
                g_params(s1, pv, i as nat) == Some(self@),
                s1 == old(self)@.emit("addi sp,sp,-"@ + nat_text(frame_size as nat)).emit(
                    "sd ra,0(sp)"@,
                ).emit("sd s0,8(sp)"@).emit("sd s1,16(sp)"@),
            decreases func.params.len() - i,
        {
            let ghost before = self@;
            let reg = match self.take_arg_reg() {
                Some(r) => r,
                None => {
                    proof {
                        lemma_g_params_fails(s1, pv, (i + 1) as nat, pv.len());
                    }
                    return false;
                },
            };
            match &func.params[i].loc {
                Some(loc) => {
                    if !self.store(reg, loc) {
                        proof {
                            lemma_g_params_fails(s1, pv, (i + 1) as nat, pv.len());
                        }
                        return false;
                    }
                },
                None => {
                    proof {
                        lemma_g_params_fails(s1, pv, (i + 1) as nat, pv.len());
                    }
                    return false;
                },
            }
            i = i + 1;
        }
        let ghost s2pre = self@;
        self.reset_args();
        let ghost s2 = self@;
        let ghost lv = vardecls_view(func.locals@);
        let mut j: usize = 0;
        while j < func.locals.len()
            invariant
                j <= func.locals.len(),
                lv == vardecls_view(func.locals@),
                lv.len() == func.locals@.len(),
                g_locals(s2, lv, j as nat) == Some(self@),
                s2 == s2pre.reset_args(),
                g_params(s1, vardecls_view(func.params@), func.params@.len() as nat) == Some(s2pre),
                s1 == old(self)@.emit("addi sp,sp,-"@ + nat_text(frame_size as nat)).emit(
                    "sd ra,0(sp)"@,
                ).emit("sd s0,8(sp)"@).emit("sd s1,16(sp)"@),
            decreases func.locals.len() - j,
        {
            match &func.locals[j].loc {
                Some(loc) => {
                    if !self.store(Register::Zero, loc) {
                        proof {
                            lemma_g_locals_fails(s2, lv, (j + 1) as nat, lv.len());
                        }
                        return false;
                    }
                },
                None => {
                    proof {
                        lemma_g_locals_fails(s2, lv, (j + 1) as nat, lv.len());
                    }
                    return false;
                },
            }
            j = j + 1;
        }
        true
    }

    /// Restores the saved registers, drops the frame and returns.
    fn gen_func_epilogue(&mut self, frame_size: usize)
        ensures
            final(self)@ == g_epilogue(old(self)@, frame_size as nat),
    {
        self.emit(text_of("ld s1,16(sp)"));
        self.emit(text_of("ld s0,8(sp)"));
        self.emit(text_of("ld ra,0(sp)"));
        let mut l = text_of("addi sp,sp,");
        append_u64(&mut l, frame_size as u64);
        self.emit(l);
        self.emit(text_of("ret"));
    }

    /// Generates a declaration; fails where generation fails.
    fn gen_decl(&mut self, decl: &Declaration) -> (ok: bool)
        ensures
            match g_decl(old(self)@, decl@) {
                Some(s) => ok && final(self)@ == s,
                None => !ok,
            },
    {
        match decl {
            Declaration::Fn(func) => {
                proof {
                    lemma_stmts_view_index(func.body@);
                }
                let bl = match get_bytes(&func.locals) {
                    Some(b) => b,
                    None => {
                        return false;
                    },
                };
                let bp = match get_bytes(&func.params) {
                    Some(b) => b,
                    None => {
                        return false;
                    },
                };
                if bp > usize::MAX - 39 || bl > usize::MAX - 39 - bp {
                    return false;
                }
                let mut head = func.name.clone();
                head.append(":");
                self.emit(head);
                let stack_frame_size = get_stack_frame(bl + bp);
                if !self.gen_func_prologue(func, stack_frame_size) {
                    return false;
                }
                self.emit(text_of("  "));
                if !self.gen_stmts(&func.body) {
                    return false;
                }
                self.emit(text_of("  "));
                self.gen_func_epilogue(stack_frame_size);
                true
            },
            Declaration::Var(var) => match &var.loc {
                Some(VarLocation::Global((size, _))) => self.emit_glob_var(var.name.as_str(), size),
                _ => false,
            },
        }
    }

    /// Generates the declarations in order; fails where generation fails.
    fn gen_decls(&mut self, ast: &[Declaration]) -> (ok: bool)
        ensures
            match g_decls(old(self)@, decls_view(ast@), ast@.len()) {
                Some(s) => ok && final(self)@ == s,
                None => !ok,
            },
    {
        let ghost s0 = self@;
        let ghost dv = decls_view(ast@);
        let mut i: usize = 0;
        while i < ast.len()
            invariant
                i <= ast.len(),
                dv == decls_view(ast@),
                s0 == old(self)@,
                g_decls(s0, dv, i as nat) == Some(self@),
            decreases ast.len() - i,
        {
            if !self.gen_decl(&ast[i]) {
                proof {
                    lemma_g_decls_fails(s0, dv, (i + 1) as nat, dv.len());
                }
                return false;
            }
            i = i + 1;
        }
        true
    }

    /// Generates the program and its assembly text, or `None` where
    /// generation fails: where an expression needs more temporaries than
    /// are free, a call has more than eight arguments, a variable has no
    /// place or a size other than 1 or 8 bytes, `ORD` or `CHR` has no
    /// argument, or the startup lines are gone.
    pub fn try_generate_asm(&mut self, ast: &[Declaration], sym: &SymbolTable) -> (r: Option<String>)
        ensures
            match asm_text(old(self)@, decls_view(ast@), sym@.used) {
                Some(t) => r is Some && r->0@ == t && Some(final(self)@) == gen_final(
                    old(self)@,
                    decls_view(ast@),
                ),
                None => r is None,
            },
    {
        if !self.gen_decls(ast) {
            return None;
        }
        if self.code.len() < 2 {
            return None;
        }
        let mut code = copy_lines(&self.glob_data);
        let mut builtins = builtin_funcs(sym);
        // Past the heading, the section holds one entry for each built-in
        // that needs code; the buffer is needed only then.
        let bss = if builtins.len() <= 1 {
            text_of("\n")
        } else {
            text_of(".section .bss\nput_buf: .space 1")
        };
        let ghost before = self@;
        self.code.set(1, bss);
        assert(texts(self.code@) =~= before.code.update(1, bss@));
        code.append(&mut self.code);
        code.append(&mut builtins);
        assert(texts(code@) =~= before.glob + before.code.update(1, bss@) + builtin_section(sym@.used));
        assert(self@.code =~= seq![]);
        Some(join_with_newlines(&code))
    }

    /// Generates the program and gives its assembly text: the data section,
    /// the code with the startup lines first, then the built-in functions
    /// that the analysis saw used. Generation must succeed on the program
    /// (see `try_generate_asm`).
    pub fn generate_asm(&mut self, ast: &[Declaration], sym: &SymbolTable) -> (r: String)
        requires
            asm_text(old(self)@, decls_view(ast@), sym@.used) is Some,
        ensures
            Some(r@) == asm_text(old(self)@, decls_view(ast@), sym@.used),
            Some(final(self)@) == gen_final(old(self)@, decls_view(ast@)),
    {
        match self.try_generate_asm(ast, sym) {
            Some(t) => t,
            None => String::new(),
        }
    }
}

} // verus!
