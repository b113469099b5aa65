# slang

A compiler for a small C-like language (see the grammar below), written in
Verus: the scanner, the parser with its error recovery, the symbol table,
the semantic analysis and the RISC-V code generator are each specified by
spec functions and proved to follow them.

## Layout

- `src/text.rs`: decimal numbers, escapes and joining lines.
- `src/structs.rs`: tokens, the syntax tree, types, and their mathematical views.
- `src/scanner.rs`: the scanner (`lex_token` says what the next token is).
- `src/parser.rs`: the recursive-descent parser (`p_program` and the functions it calls).
- `src/symtab.rs`: nested scopes with the built-in functions outermost.
- `src/ast_text.rs`: the syntax tree as `{:?}` prints it, for diagnostics.
- `src/sematics.rs`: the semantic analysis (`a_program`), which also places
  every variable in memory.
- `src/codegen.rs`: the code generator (`asm_text`), with its register allocator.
- `app/main.rs`: the command line program: it reads a file, parses and
  analyzes it, and prints the diagnostics.

## Language

```
SimpleLang = Declaration {Declaration}.
Declaration = VarDecl | FnDecl.
VarDecl = "var" ident ":" Type ";".
Type = ident.
FnDecl = "fn" ident Parameters "{" {VarDecl} StatSeq "}".
Parameters = "(" [Param {"," Param}] ")" [":" Type].
Param = ident ":" Type.
StatSeq = Statement {Statement}.
Statement =
      ident ( "=" Expression | ActParameters ) ";"
    | "if" "(" Condition ")" "{" StatSeq "}" {"elseif" "(" Condition ")" "{" StatSeq "}" } ["else" "{" StatSeq "}"]
    | "while" "(" Condition ")" "{" StatSeq "}"
    | "return" [Expression] ";".
Condition = Expression Relop Expression.
Expression = [Addop] Term {Addop Term}.
Term = Factor {Mulop Factor}.
Factor = ident [ActParameters] | number | charCon | "(" Expression ")".
ActParameters = "(" [Expression {"," Expression}] ")".
Relop = "=" | "#" | "<" | ">" | ">=" | "<=".
Addop = "+" | "-".
Mulop = "*" | "/" | "%".
```

Built-in functions: `put(c: char)`, `putLn()`, `ORD(c: char): int` and
`CHR(i: int): char`.
