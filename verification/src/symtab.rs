//! The symbol table: nested scopes of named variables and functions, with the
//! built-in functions in the outermost scope.
use vstd::prelude::*;

use crate::structs::{
    SLoc,
    SVarDecl,
    Type,
    VarDecl,
    VarLocation,
    loc_view,
    vardecl_view,
    vardecls_view,
};
use crate::text::text_of;

verus! {

/// What a name denotes: a variable with its type and place, or a function.
#[derive(Debug, PartialEq)]
pub enum Symbol {
    Var { typ: Type, loc: VarLocation },
    Fn { params: Vec<VarDecl>, ret: Type },
}

/// A symbol as a mathematical value.
pub enum SSymbol {
    Var { typ: Type, loc: SLoc },
    Fn { params: Seq<SVarDecl>, ret: Type },
}

/// The view of a symbol.
pub open spec fn sym_view(s: Symbol) -> SSymbol {
    match s {
        Symbol::Var { typ, loc } => SSymbol::Var { typ, loc: loc_view(loc) },
        Symbol::Fn { params, ret } => SSymbol::Fn { params: vardecls_view(params@), ret },
    }
}

impl View for Symbol {
    type V = SSymbol;

    open spec fn view(&self) -> SSymbol {
        sym_view(*self)
    }
}

/// A copy of a list of declarations.
pub fn copy_vardecls(v: &Vec<VarDecl>) -> (r: Vec<VarDecl>)
    ensures
        r@ == v@,
{
    let mut r: Vec<VarDecl> = Vec::new();
    let mut i: usize = 0;
    while i < v.len()
        invariant
            i <= v.len(),
            r@ == v@.take(i as int),
        decreases v.len() - i,
    {
        r.push(v[i].clone());
        assert(r@ =~= v@.take(i + 1));
        i = i + 1;
    }
    assert(v@.take(v.len() as int) =~= v@);
    r
}

impl Clone for Symbol {
    fn clone(&self) -> (r: Self)
        ensures
            r@ == self@,
    {
        match self {
            Symbol::Var { typ, loc } => {
                Symbol::Var { typ: *typ, loc: loc.clone() }
            },
            Symbol::Fn { params, ret } => Symbol::Fn { params: copy_vardecls(params), ret: *ret },
        }
    }
}

impl Symbol {
    /// The kind of symbol, as text (`Fn` or `Var`).
    pub fn kind_text(&self) -> (r: String)
        ensures
            r@ == (if self@ is Fn {
                "Fn"@
            } else {
                "Var"@
            }),
    {
        match self {
            Symbol::Fn { .. } => text_of("Fn"),
            Symbol::Var { .. } => text_of("Var"),
        }
    }
}

/// The entries of a scope, as names and symbols.
pub open spec fn scope_view(s: Seq<(String, Symbol)>) -> Seq<(Seq<char>, SSymbol)> {
    s.map_values(|e: (String, Symbol)| (e.0@, sym_view(e.1)))
}

/// The first entry of a scope with this name.
pub open spec fn scope_find(s: Seq<(Seq<char>, SSymbol)>, k: Seq<char>) -> Option<SSymbol>
    decreases s.len(),
{
    if s.len() == 0 {
        None
    } else if s[0].0 == k {
        Some(s[0].1)
    } else {
        scope_find(s.drop_first(), k)
    }
}

/// The symbol a name denotes: from the innermost scope that holds it.
pub open spec fn table_find(scopes: Seq<Seq<(Seq<char>, SSymbol)>>, k: Seq<char>) -> Option<
    SSymbol,
>
    decreases scopes.len(),
{
    if scopes.len() == 0 {
        None
    } else {
        match scope_find(scopes.last(), k) {
            Some(x) => Some(x),
            None => table_find(scopes.drop_last(), k),
        }
    }
}

/// The symbol table as a mathematical value: the scopes (outermost first),
/// the built-in functions, and the built-ins looked up so far, in order.
pub struct TableView {
    pub scopes: Seq<Seq<(Seq<char>, SSymbol)>>,
    pub builtins: Seq<(Seq<char>, SSymbol)>,
    pub used: Seq<Seq<char>>,
}

impl TableView {
    /// The name is declared in the outermost scope.
    pub open spec fn is_global(self, k: Seq<char>) -> bool {
        self.scopes.len() > 0 && scope_find(self.scopes[0], k) is Some
    }

    /// The name is that of a built-in function, still in the outermost scope.
    pub open spec fn is_builtin(self, k: Seq<char>) -> bool {
        self.is_global(k) && scope_find(self.builtins, k) is Some
    }

    /// Looking a name up records a built-in the first time it is looked up.
    pub open spec fn after_lookup(self, k: Seq<char>) -> TableView {
        if self.scopes.len() > 0 && self.is_builtin(k) && !self.used.contains(k) {
            TableView { used: self.used.push(k), ..self }
        } else {
            self
        }
    }

    /// No scope declares a name twice.
    pub open spec fn names_unique(self) -> bool {
        forall|c: int, i: int, j: int|
            0 <= c < self.scopes.len() && 0 <= i < j < self.scopes[c].len() ==> #[trigger] self.scopes[c][i].0
                != #[trigger] self.scopes[c][j].0
    }

    /// Opens a new, empty innermost scope.
    pub open spec fn after_enter(self) -> TableView {
        TableView { scopes: self.scopes.push(seq![]), ..self }
    }

    /// Closes the innermost scope, if there is one.
    pub open spec fn after_exit(self) -> TableView {
        if self.scopes.len() > 0 {
            TableView { scopes: self.scopes.drop_last(), ..self }
        } else {
            self
        }
    }

    /// Declares a name in the innermost scope; refused when that scope has it already.
    pub open spec fn after_insert(self, k: Seq<char>, sym: SSymbol) -> (bool, TableView) {
        if scope_find(self.scopes.last(), k) is Some {
            (false, self)
        } else {
            (
                true,
                TableView {
                    scopes: self.scopes.update(self.scopes.len() - 1, self.scopes.last().push((k, sym))),
                    ..self
                },
            )
        }
    }
}

/// Finding a name in a scope with one more entry at its end.
pub proof fn lemma_scope_find_push(s: Seq<(Seq<char>, SSymbol)>, e: (Seq<char>, SSymbol), k: Seq<char>)
    ensures
        scope_find(s.push(e), k) == (if scope_find(s, k) is Some {
            scope_find(s, k)
        } else if e.0 == k {
            Some(e.1)
        } else {
            None
        }),
    decreases s.len(),
{
    if s.len() > 0 {
        assert(s.push(e)[0] == s[0]);
        assert(s.push(e).drop_first() =~= s.drop_first().push(e));
        lemma_scope_find_push(s.drop_first(), e, k);
    } else {
        assert(s.push(e).drop_first() =~= seq![]);
        assert(scope_find(s.push(e).drop_first(), k) is None);
    }
}

/// A declaration is found again: after a name is declared, looking it up
/// gives the symbol it was declared with. A refused declaration changes
/// nothing, and it is refused exactly when the innermost scope already
/// declares the name.
pub proof fn lemma_insert_then_find(t: TableView, k: Seq<char>, sym: SSymbol)
    requires
        t.scopes.len() > 0,
    ensures
        t.after_insert(k, sym).0 ==> table_find(t.after_insert(k, sym).1.scopes, k) == Some(sym),
        !t.after_insert(k, sym).0 ==> t.after_insert(k, sym).1 == t,
        !t.after_insert(k, sym).0 <==> scope_find(t.scopes.last(), k) is Some,
{
    let (ok, t2) = t.after_insert(k, sym);
    if ok {
        lemma_scope_find_push(t.scopes.last(), (k, sym), k);
        assert(t2.scopes.last() == t.scopes.last().push((k, sym)));
    }
}

/// Closing a scope just opened gives the table back as it was.
pub proof fn lemma_enter_exit(t: TableView)
    ensures
        t.after_enter().after_exit() == t,
{
    assert(t.after_enter().after_exit().scopes =~= t.scopes);
}

/// Shadowing: a name declared in a new scope is always accepted and hides
/// any outer declaration of it; once that scope is closed, the name denotes
/// what it denoted before.
pub proof fn lemma_shadowing(t: TableView, k: Seq<char>, sym: SSymbol)
    ensures
        t.after_enter().after_insert(k, sym).0,
        table_find(t.after_enter().after_insert(k, sym).1.scopes, k) == Some(sym),
        table_find(t.after_enter().after_insert(k, sym).1.after_exit().scopes, k) == table_find(
            t.scopes,
            k,
        ),
{
    let t1 = t.after_enter();
    assert(t1.scopes.last() =~= seq![]);
    lemma_insert_then_find(t1, k, sym);
    let t2 = t1.after_insert(k, sym).1;
    assert(t2.after_exit().scopes =~= t.scopes);
}

/// Looking a name up changes no scope.
pub proof fn lemma_lookup_keeps_scopes(t: TableView, k: Seq<char>)
    ensures
        t.after_lookup(k).scopes == t.scopes,
        t.after_lookup(k).builtins == t.builtins,
{
}

/// Declares the entries in order, in the innermost scope, as `insert` does;
/// refused ones change nothing.
pub open spec fn after_inserts(t: TableView, entries: Seq<(Seq<char>, SSymbol)>) -> TableView
    decreases entries.len(),
{
    if entries.len() == 0 {
        t
    } else {
        after_inserts(t, entries.drop_last()).after_insert(entries.last().0, entries.last().1).1
    }
}

proof fn lemma_inserts_touch_innermost(t: TableView, entries: Seq<(Seq<char>, SSymbol)>)
    requires
        t.scopes.len() > 0,
    ensures
        after_inserts(t, entries).scopes.len() == t.scopes.len(),
        after_inserts(t, entries).scopes.drop_last() == t.scopes.drop_last(),
        after_inserts(t, entries).builtins == t.builtins,
        after_inserts(t, entries).used == t.used,
    decreases entries.len(),
{
    if entries.len() > 0 {
        lemma_inserts_touch_innermost(t, entries.drop_last());
        let u = after_inserts(t, entries.drop_last());
        let v = u.after_insert(entries.last().0, entries.last().1).1;
        assert(v.scopes.drop_last() =~= u.scopes.drop_last());
    }
}

/// A scope takes its declarations with it: opening a scope, declaring any
/// names in it and closing it again gives back the table as it was, so every
/// name denotes again what it denoted before.
pub proof fn lemma_scope_discards_inserts(t: TableView, entries: Seq<(Seq<char>, SSymbol)>)
    ensures
        after_inserts(t.after_enter(), entries).after_exit() == t,
{
    lemma_inserts_touch_innermost(t.after_enter(), entries);
    assert(t.after_enter().scopes.drop_last() =~= t.scopes);
    assert(after_inserts(t.after_enter(), entries).after_exit().scopes =~= t.scopes);
}

/// No name is found in a scope exactly when no entry of it has that name.
proof fn lemma_scope_find_none(s: Seq<(Seq<char>, SSymbol)>, k: Seq<char>)
    ensures
        scope_find(s, k) is None <==> forall|i: int| 0 <= i < s.len() ==> #[trigger] s[i].0 != k,
    decreases s.len(),
{
    if s.len() > 0 {
        lemma_scope_find_none(s.drop_first(), k);
        assert forall|i: int| 1 <= i < s.len() implies #[trigger] s[i].0 == s.drop_first()[i - 1].0 by {}
        if scope_find(s, k) is None {
            assert forall|i: int| 0 <= i < s.len() implies #[trigger] s[i].0 != k by {
                if i > 0 {
                    assert(s[i].0 == s.drop_first()[i - 1].0);
                }
            }
        } else if s[0].0 != k {
            let i = choose|i: int| 0 <= i < s.drop_first().len() && s.drop_first()[i].0 == k;
            assert(s[i + 1].0 == k);
        }
    }
}

/// The built-in functions have four different names.
proof fn lemma_builtin_names_differ()
    ensures
        initial_table().names_unique(),
{
    reveal_strlit("put");
    reveal_strlit("putLn");
    reveal_strlit("ORD");
    reveal_strlit("CHR");
    let b = builtin_scope();
    assert("put"@.len() == 3 && "putLn"@.len() == 5);
    assert("put"@[0] == 'p' && "ORD"@[0] == 'O' && "CHR"@[0] == 'C');
    assert(b[0].0 != b[1].0);
    assert(b[0].0 != b[2].0);
    assert(b[0].0 != b[3].0);
    assert(b[1].0 != b[2].0);
    assert(b[1].0 != b[3].0);
    assert(b[2].0 != b[3].0);
}

/// No scope ever declares a name twice: a new table has that property, and
/// declaring, looking up, opening and closing scopes keep it.
pub proof fn lemma_names_stay_unique(t: TableView, k: Seq<char>, sym: SSymbol)
    ensures
        initial_table().names_unique(),
        t.names_unique() && t.scopes.len() > 0 ==> t.after_insert(k, sym).1.names_unique(),
        t.names_unique() ==> t.after_lookup(k).names_unique(),
        t.names_unique() ==> t.after_enter().names_unique(),
        t.names_unique() ==> t.after_exit().names_unique(),
{
    lemma_builtin_names_differ();
    if t.names_unique() && t.scopes.len() > 0 {
        let (ok, t2) = t.after_insert(k, sym);
        if ok {
            let last = t.scopes.last();
            lemma_scope_find_none(last, k);
            let n = t.scopes.len() - 1;
            assert forall|c: int, i: int, j: int|
                0 <= c < t2.scopes.len() && 0 <= i < j < t2.scopes[c].len() implies #[trigger] t2.scopes[c][i].0
                != #[trigger] t2.scopes[c][j].0 by {
                if c == n {
                    if j == last.len() {
                        assert(t2.scopes[c][i] == last[i]);
                    } else {
                        assert(t2.scopes[c][i] == last[i]);
                        assert(t2.scopes[c][j] == last[j]);
                    }
                } else {
                    assert(t2.scopes[c] == t.scopes[c]);
                }
            }
        }
    }
    if t.names_unique() {
        let t3 = t.after_enter();
        assert forall|c: int, i: int, j: int|
            0 <= c < t3.scopes.len() && 0 <= i < j < t3.scopes[c].len() implies #[trigger] t3.scopes[c][i].0
            != #[trigger] t3.scopes[c][j].0 by {
            assert(c < t.scopes.len());
            assert(t3.scopes[c] == t.scopes[c]);
        }
        let t4 = t.after_exit();
        assert forall|c: int, i: int, j: int|
            0 <= c < t4.scopes.len() && 0 <= i < j < t4.scopes[c].len() implies #[trigger] t4.scopes[c][i].0
            != #[trigger] t4.scopes[c][j].0 by {
            assert(t4.scopes[c] == t.scopes[c]);
        }
    }
}

/// The built-in functions: `put(e: char)`, `putLn()`, `ORD(ch: char): int`
/// and `CHR(i: int): char`.
pub open spec fn builtin_scope() -> Seq<(Seq<char>, SSymbol)> {
    seq![
        ("put"@, SSymbol::Fn { params: seq![SVarDecl { name: "e"@, typ: Type::Char, loc: None }], ret: Type::Void }),
        ("putLn"@, SSymbol::Fn { params: seq![], ret: Type::Void }),
        ("ORD"@, SSymbol::Fn { params: seq![SVarDecl { name: "ch"@, typ: Type::Char, loc: None }], ret: Type::Int }),
        ("CHR"@, SSymbol::Fn { params: seq![SVarDecl { name: "i"@, typ: Type::Int, loc: None }], ret: Type::Char }),
    ]
}

/// A new table: the built-in functions form its only scope.
pub open spec fn initial_table() -> TableView {
    TableView { scopes: seq![builtin_scope()], builtins: builtin_scope(), used: seq![] }
}

pub type Scope = Vec<(String, Symbol)>;

/// Scopes from the outermost (the built-ins and the globals) inwards, and
/// the built-in functions looked up so far.
#[derive(Debug)]
pub struct SymbolTable {
    scopes: Vec<Scope>,
    builtins: Scope,
    pub builtins_used: Vec<String>,
}

/// A declaration of `name` with one parameter.
fn builtin_fn(name: &str, param: &str, ptyp: Type, ret: Type) -> (r: (String, Symbol))
    ensures
        r.0@ == name@,
        sym_view(r.1) == (SSymbol::Fn {
            params: seq![SVarDecl { name: param@, typ: ptyp, loc: None }],
            ret,
        }),
{
    let mut params: Vec<VarDecl> = Vec::new();
    let p = VarDecl { name: text_of(param), typ: ptyp, loc: None };
    params.push(p);
    assert(vardecls_view(params@) =~= seq![vardecl_view(p)]);
    (text_of(name), Symbol::Fn { params, ret })
}

/// The scope of the built-in functions.
pub fn create_global_scope() -> (r: Scope)
    ensures
        scope_view(r@) == builtin_scope(),
{
    let mut glob_scope: Scope = Vec::new();
    glob_scope.push(builtin_fn("put", "e", Type::Char, Type::Void));
    let no_params: Vec<VarDecl> = Vec::new();
    assert(vardecls_view(no_params@) =~= seq![]);
    glob_scope.push((text_of("putLn"), Symbol::Fn { params: no_params, ret: Type::Void }));
    glob_scope.push(builtin_fn("ORD", "ch", Type::Char, Type::Int));
    glob_scope.push(builtin_fn("CHR", "i", Type::Int, Type::Char));
    assert(scope_view(glob_scope@) =~= builtin_scope());
    glob_scope
}

/// A copy of a scope.
fn copy_scope(s: &Scope) -> (r: Scope)
    ensures
        scope_view(r@) == scope_view(s@),
{
    let mut r: Scope = Vec::new();
    let mut i: usize = 0;
    while i < s.len()
        invariant
            i <= s.len(),
            scope_view(r@) == scope_view(s@.take(i as int)),
        decreases s.len() - i,
    {
        let ghost r0 = r@;
        let e = (s[i].0.clone(), s[i].1.clone());
        r.push(e);
        assert(s@.take(i + 1) =~= s@.take(i as int).push(s@[i as int]));
        assert(scope_view(r0.push(e)) =~= scope_view(r0).push((e.0@, sym_view(e.1))));
        assert(scope_view(s@.take(i as int).push(s@[i as int])) =~= scope_view(
            s@.take(i as int),
        ).push((s@[i as int].0@, sym_view(s@[i as int].1))));
        i = i + 1;
    }
    assert(s@.take(s.len() as int) =~= s@);
    r
}

/// Finds `key` in a scope.
fn find_in_scope<'b>(s: &'b Scope, key: &String) -> (r: Option<&'b Symbol>)
    ensures
        match r {
            Some(x) => scope_find(scope_view(s@), key@) == Some(sym_view(*x)),
            None => scope_find(scope_view(s@), key@) is None,
        },
{
    let mut i: usize = 0;
    assert(scope_view(s@).skip(0) =~= scope_view(s@));
    while i < s.len()
        invariant
            i <= s.len(),
            scope_find(scope_view(s@).skip(i as int), key@) == scope_find(scope_view(s@), key@),
        decreases s.len() - i,
    {
        let ghost rest = scope_view(s@).skip(i as int);
        assert(rest.drop_first() =~= scope_view(s@).skip(i + 1));
        if s[i].0 == *key {
            return Some(&s[i].1);
        }
        i = i + 1;
    }
    None
}

/// Whether `key` is one of the names in `v`.
fn contains_name(v: &Vec<String>, key: &String) -> (r: bool)
    ensures
        r == v@.map_values(|s: String| s@).contains(key@),
{
    let ghost names = v@.map_values(|s: String| s@);
    let mut i: usize = 0;
    while i < v.len()
        invariant
            i <= v.len(),
            names == v@.map_values(|s: String| s@),
            forall|j: int| 0 <= j < i ==> names[j] != key@,
        decreases v.len() - i,
    {
        if v[i] == *key {
            assert(names[i as int] == key@);
            return true;
        }
        i = i + 1;
    }
    false
}

impl View for SymbolTable {
    type V = TableView;

    closed spec fn view(&self) -> TableView {
        TableView {
            scopes: self.scopes@.map_values(|s: Scope| scope_view(s@)),
            builtins: scope_view(self.builtins@),
            used: self.builtins_used@.map_values(|s: String| s@),
        }
    }
}

impl Default for SymbolTable {
    fn default() -> (r: Self)
        ensures
            r@ == initial_table(),
    {
        Self::new()
    }
}

impl SymbolTable {
    /// A table whose only scope holds the built-in functions.
    pub fn new() -> (r: Self)
        ensures
            r@ == initial_table(),
            r@.names_unique(),
    {
        proof {
            lemma_names_stay_unique(initial_table(), seq![], SSymbol::Fn { params: seq![], ret: Type::Void });
        }
        let builtins = create_global_scope();
        let first = copy_scope(&builtins);
        let mut scopes: Vec<Scope> = Vec::new();
        scopes.push(first);
        let r = Self { scopes, builtins, builtins_used: Vec::new() };
        assert(r@.scopes =~= seq![builtin_scope()]);
        assert(r@.used =~= seq![]);
        r
    }

    /// Opens a new innermost scope.
    pub fn enter_scope(&mut self)
        ensures
            final(self)@ == old(self)@.after_enter(),
            old(self)@.names_unique() ==> final(self)@.names_unique(),
    {
        proof {
            lemma_names_stay_unique(old(self)@, seq![], SSymbol::Fn { params: seq![], ret: Type::Void });
        }
        let empty: Scope = Vec::new();
        self.scopes.push(empty);
        assert(scope_view(empty@) =~= seq![]);
        assert(final(self)@.scopes =~= old(self)@.scopes.push(seq![]));
    }

    /// Closes the innermost scope.
    pub fn exit_scope(&mut self)
        ensures
            final(self)@ == old(self)@.after_exit(),
            old(self)@.names_unique() ==> final(self)@.names_unique(),
    {
        proof {
            lemma_names_stay_unique(old(self)@, seq![], SSymbol::Fn { params: seq![], ret: Type::Void });
        }
        self.scopes.pop();
        assert(final(self)@.scopes =~= (if old(self)@.scopes.len() > 0 {
            old(self)@.scopes.drop_last()
        } else {
            old(self)@.scopes
        }));
    }

    /// Declares `name` in the innermost scope; `false` (and nothing changes)
    /// when that scope declares it already.
    pub fn insert(&mut self, name: String, sym: Symbol) -> (r: bool)
        requires
            old(self)@.scopes.len() > 0,
        ensures
            (r, final(self)@) == old(self)@.after_insert(name@, sym_view(sym)),
            old(self)@.names_unique() ==> final(self)@.names_unique(),
    {
        proof {
            lemma_names_stay_unique(old(self)@, name@, sym_view(sym));
        }
        let last = self.scopes.len() - 1;
        if find_in_scope(&self.scopes[last], &name).is_some() {
            return false;
        }
        let ghost nv = name@;
        let ghost sv = sym_view(sym);
        let mut scope: Scope = Vec::new();
        std::mem::swap(&mut scope, &mut self.scopes[last]);
        scope.push((name, sym));
        std::mem::swap(&mut scope, &mut self.scopes[last]);
        assert(scope_view(self.scopes@[last as int]@) =~= old(self)@.scopes.last().push((nv, sv)));
        assert(final(self)@.scopes =~= old(self)@.scopes.update(
            last as int,
            old(self)@.scopes.last().push((nv, sv)),
        ));
        true
    }

    /// What `name` denotes, from the innermost scope that declares it; a
    /// built-in function is recorded as used the first time it is looked up.
    pub fn lookup(&mut self, name: &str) -> (r: Option<&Symbol>)
        ensures
            final(self)@ == old(self)@.after_lookup(name@),
            match r {
                Some(x) => table_find(old(self)@.scopes, name@) == Some(sym_view(*x)),
                None => table_find(old(self)@.scopes, name@) is None,
            },
            old(self)@.names_unique() ==> final(self)@.names_unique(),
    {
        proof {
            lemma_names_stay_unique(old(self)@, name@, SSymbol::Fn { params: seq![], ret: Type::Void });
        }
        let key = text_of(name);
        if self.scopes.len() > 0 && self.is_builtin(&key) && !contains_name(
            &self.builtins_used,
            &key,
        ) {
            self.builtins_used.push(key.clone());
            assert(self@.used =~= old(self)@.used.push(name@));
        }
        let ghost t1 = self@;
        assert(t1 == old(self)@.after_lookup(name@)) by {
            assert(t1.scopes =~= old(self)@.scopes);
        }
        let mut i: usize = self.scopes.len();
        assert(t1.scopes.take(i as int) =~= t1.scopes);
        while i > 0
            invariant
                i <= self.scopes.len(),
                self@ == t1,
                t1 == old(self)@.after_lookup(name@),
                t1.scopes == old(self)@.scopes,
                t1.scopes.len() == self.scopes.len(),
                key@ == name@,
                table_find(t1.scopes.take(i as int), key@) == table_find(t1.scopes, key@),
            decreases i,
        {
            let ghost pre = t1.scopes.take(i as int);
            assert(pre.drop_last() =~= t1.scopes.take(i - 1));
            assert(pre.last() == scope_view(self.scopes@[i - 1]@));
            match find_in_scope(&self.scopes[i - 1], &key) {
                Some(s) => {
                    return Some(s);
                },
                None => {},
            }
            i = i - 1;
        }
        assert(t1.scopes.take(0) =~= seq![]);
        None
    }

    /// The built-in functions looked up so far, in the order of their first lookup.
    pub fn used_builtins(&self) -> (r: &Vec<String>)
        ensures
            r@.map_values(|s: String| s@) == self@.used,
    {
        &self.builtins_used
    }

    /// Whether the outermost scope declares `name`.
    pub fn is_global(&self, name: &str) -> (r: bool)
        requires
            self@.scopes.len() > 0,
        ensures
            r == self@.is_global(name@),
    {
        let key = text_of(name);
        find_in_scope(&self.scopes[0], &key).is_some()
    }

    fn is_builtin(&self, name: &String) -> (r: bool)
        requires
            self@.scopes.len() > 0,
        ensures
            r == self@.is_builtin(name@),
    {
        if find_in_scope(&self.scopes[0], name).is_some() {
            return find_in_scope(&self.builtins, name).is_some();
        }
        false
    }
}

} // verus!
