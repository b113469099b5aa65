//! Whole programs through the compiler and the generated assembly through a
//! small RISC-V simulator that knows the instructions the generator emits,
//! the `write` and `exit` system calls, and nothing else.

use slang::codegen::Codegen;
use slang::parser::Parser;
use slang::scanner::Scanner;
use slang::sematics::SemanticAnalyzer;
use std::collections::HashMap;

const MEM_SIZE: usize = 1 << 20;
const STEP_LIMIT: usize = 10_000_000;

struct Outcome {
    exit_code: i32,
    stdout: String,
}

fn reg_index(name: &str) -> usize {
    match name {
        "zero" => 0,
        "ra" => 1,
        "sp" => 2,
        "s0" => 8,
        "s1" => 9,
        "a0" => 10,
        "a1" => 11,
        "a2" => 12,
        "a3" => 13,
        "a4" => 14,
        "a5" => 15,
        "a6" => 16,
        "a7" => 17,
        "t0" => 5,
        "t1" => 6,
        "t2" => 7,
        "t3" => 28,
        "t4" => 29,
        "t5" => 30,
        "t6" => 31,
        _ => panic!("unknown register {name}"),
    }
}

// An operand of the form `off(base)`.
fn mem_operand(op: &str) -> (i64, usize) {
    let open = op.find('(').expect("memory operand");
    let off: i64 = op[..open].trim().parse().expect("offset");
    let base = reg_index(op[open + 1..op.len() - 1].trim());
    (off, base)
}

fn simulate(listing: &str) -> Outcome {
    // First pass: instructions, labels and data.
    let mut instrs: Vec<(String, Vec<String>)> = Vec::new();
    let mut labels: HashMap<String, usize> = HashMap::new();
    let mut symbols: HashMap<String, usize> = HashMap::new();
    let mut data_top: usize = 64;
    for raw in listing.lines() {
        let line = raw.trim();
        if line.is_empty() || line.starts_with('#') {
            continue;
        }
        if line.starts_with('.') && !line.contains(':') {
            continue; // a directive
        }
        if let Some(colon) = line.find(':') {
            let name = line[..colon].trim().to_string();
            let rest = line[colon + 1..].trim();
            if rest.is_empty() {
                labels.insert(name, instrs.len());
                continue;
            }
            // a data item: `name: .quad 0`, `name: .byte 0` or `name: .space n`
            let size = if rest.starts_with(".quad") {
                8
            } else if rest.starts_with(".byte") {
                1
            } else if rest.starts_with(".space") {
                rest[6..].trim().parse::<usize>().expect("space size")
            } else {
                panic!("unknown data item {line}")
            };
            data_top = (data_top + 7) / 8 * 8;
            symbols.insert(name, data_top);
            data_top += size;
            continue;
        }
        let (op, args) = match line.find(' ') {
            Some(sp) => (line[..sp].to_string(), line[sp + 1..].to_string()),
            None => (line.to_string(), String::new()),
        };
        let args: Vec<String> = if args.trim().is_empty() {
            Vec::new()
        } else {
            args.split(',').map(|a| a.trim().to_string()).collect()
        };
        instrs.push((op, args));
    }

    // Second pass: run from `_start`.
    let mut regs = [0i64; 32];
    let mut mem = vec![0u8; MEM_SIZE];
    regs[2] = MEM_SIZE as i64;
    let mut stdout = String::new();
    let mut pc = *labels.get("_start").expect("_start");
    let target = |name: &str| -> usize { *labels.get(name).unwrap_or_else(|| panic!("label {name}")) };
    for _ in 0..STEP_LIMIT {
        let (op, a) = &instrs[pc];
        let mut next = pc + 1;
        let r = |i: usize| reg_index(&a[i]);
        match op.as_str() {
            "li" => regs[r(0)] = a[1].parse().expect("immediate"),
            "addi" => regs[r(0)] = regs[r(1)].wrapping_add(a[2].parse::<i64>().expect("immediate")),
            "add" => regs[r(0)] = regs[r(1)].wrapping_add(regs[r(2)]),
            "sub" => regs[r(0)] = regs[r(1)].wrapping_sub(regs[r(2)]),
            "mul" => regs[r(0)] = regs[r(1)].wrapping_mul(regs[r(2)]),
            "div" => regs[r(0)] = if regs[r(2)] == 0 { -1 } else { regs[r(1)].wrapping_div(regs[r(2)]) },
            "rem" => regs[r(0)] = if regs[r(2)] == 0 { regs[r(1)] } else { regs[r(1)].wrapping_rem(regs[r(2)]) },
            "la" => regs[r(0)] = *symbols.get(&a[1]).unwrap_or_else(|| panic!("symbol {}", a[1])) as i64,
            "sd" | "sb" => {
                let (off, base) = mem_operand(&a[1]);
                let addr = (regs[base] + off) as usize;
                let v = regs[r(0)];
                if op == "sd" {
                    mem[addr..addr + 8].copy_from_slice(&v.to_le_bytes());
                } else {
                    mem[addr] = v as u8;
                }
            }
            "ld" | "lb" => {
                let (off, base) = mem_operand(&a[1]);
                let addr = (regs[base] + off) as usize;
                regs[r(0)] = if op == "ld" {
                    let mut b = [0u8; 8];
                    b.copy_from_slice(&mem[addr..addr + 8]);
                    i64::from_le_bytes(b)
                } else {
                    mem[addr] as i8 as i64
                };
            }
            "call" => {
                regs[1] = next as i64;
                next = target(&a[0]);
            }
            "ret" => next = regs[1] as usize,
            "j" => next = target(&a[0]),
            "beq" | "bne" | "blt" | "bge" | "bgt" | "ble" => {
                let x = regs[r(0)];
                let y = regs[r(1)];
                let taken = match op.as_str() {
                    "beq" => x == y,
                    "bne" => x != y,
                    "blt" => x < y,
                    "bge" => x >= y,
                    "bgt" => x > y,
                    _ => x <= y,
                };
                if taken {
                    next = target(&a[2]);
                }
            }
            "ecall" => match regs[17] {
                64 => {
                    let buf = regs[11] as usize;
                    let len = regs[12] as usize;
                    for b in &mem[buf..buf + len] {
                        stdout.push(*b as char);
                    }
                    regs[10] = len as i64;
                }
                93 => {
                    return Outcome { exit_code: (regs[10] & 0xff) as i32, stdout };
                }
                n => panic!("unknown system call {n}"),
            },
            other => panic!("unknown instruction {other}"),
        }
        regs[0] = 0;
        pc = next;
    }
    panic!("the program did not stop")
}

fn compile_and_run(program: &str) -> Outcome {
    let mut parser = Parser::new(Scanner::new(program));
    let parse_result = parser.parse_program();

    if let Err(errors) = parse_result {
        for err in &errors {
            println!("{}:{}:{}", err.line, err.col, err.message);
        }
        panic!()
    }
    let mut ast = parse_result.unwrap();

    let mut analyzer = SemanticAnalyzer::new();
    let semantic_res = analyzer.analyze_program(&mut ast);
    for line in analyzer.warning_report() {
        println!("{line}");
    }
    if !semantic_res {
        for line in analyzer.error_report() {
            println!("{line}");
        }
        panic!()
    }

    let mut cg = Codegen::new();
    let listing = cg.try_generate_asm(&ast, &analyzer.symbols).expect("code generation failed");
    simulate(&listing)
}

fn check_ret(program: &str) -> i32 {
    compile_and_run(program).exit_code
}

fn check_stdout(program: &str) -> String {
    let res = compile_and_run(program);
    println!("STDOUT: {}", res.stdout);
    res.stdout
}

#[test]
fn test_return_literal() {
    let code = "
        fn main(): int {
            return 42;
        }
    ";
    assert_eq!(check_ret(code), 42);
}

#[test]
fn test_return_zero() {
    let code = "
        fn main(): int {
            return 0;
        }
    ";
    assert_eq!(check_ret(code), 0);
}

#[test]
fn test_return_expr() {
    let code = "
        fn main(): int {
            return 5+10;
        }
    ";
    assert_eq!(check_ret(code), 15);
}

#[test]
fn test_return_glob_var() {
    let code = "
        var x: int;

        fn main(): int {
            x = 42;
            return x;
        }
    ";
    assert_eq!(check_ret(code), 42);
}

#[test]
fn test_return_local_var() {
    let code = "
        fn main(): int {
            var x: int;
            x = 42;
            return x;
        }
    ";
    assert_eq!(check_ret(code), 42);
}

#[test]
fn test_return_unused_var() {
    let code = "
        fn main(): int {
            var y: int;
            return y;
        }
    ";
    assert_eq!(check_ret(code), 0);
}

#[test]
fn codegen_test_test_local_vars() {
    let code = "
        fn main(): int {
            var y0: int;
            var y1: int;
            var y2: int;
            var y3: int;
            var y4: int;
            var y5: int;
            var y6: int;
            var y7: int;
            var y8: int;
            var y9: int;
            y0=1;
            y1=2;
            y2=3;
            y3=4;
            y4=5;
            y5=6;
            y6=7;
            y7=8;
            y8=9;
            y9=10;
            return y0+y1;
        }
    ";
    assert_eq!(check_ret(code), 3);
}

#[test]
fn test_addition() {
    let code = "
        fn main(): int {
            return 5+10;
        }
    ";
    assert_eq!(check_ret(code), 15);
}

#[test]
fn test_minus() {
    let code = "
        fn main(): int {
            return 10-5;
        }
    ";
    assert_eq!(check_ret(code), 5);
}

#[test]
fn test_mul() {
    let code = "
        fn main(): int {
            return 5*10;
        }
    ";
    assert_eq!(check_ret(code), 50);
}

#[test]
fn test_div() {
    let code = "
        fn main(): int {
            return 50/10;
        }
    ";
    assert_eq!(check_ret(code), 5);
}

#[test]
fn test_mod() {
    let code = "
        fn main(): int {
            return 50%10;
        }
    ";
    assert_eq!(check_ret(code), 0);
}

#[test]
fn test_operater_precedence() {
    let code = "
        fn main(): int {
            return 1+10*5;
        }
    ";
    assert_eq!(check_ret(code), 51);
}

#[test]
fn codegen_test_test_parentheses() {
    let code = "
        fn main(): int {
            return (1+10)*5;
        }
    ";
    assert_eq!(check_ret(code), 55);
}

#[test]
fn test_unary() {
    let code = "
        fn main(): int {
            return -5;
        }
    ";
    assert_eq!(check_ret(code), 4);
}

#[test]
fn test_large_expr() {
    let code = "
        fn main(): int {
          return 1 + 2 + 3 + 4 + 5 + 6 + 7 + 8;
        }
    ";
    assert_eq!(check_ret(code), 36);
}

#[test]
fn test_put() {
    let code = "
        fn main(): int {
            put('A');
            return 0;
        }
    ";
    assert_eq!(check_ret(code), 0);
}

#[test]
fn test_put_ln() {
    let code = "
        fn main(): int {
            putLn();
            return 0;
        }
    ";
    assert_eq!(check_ret(code), 0);
}

#[test]
fn test_basic_fn_call() {
    let code = "
        fn add(x: int, y: int): int{
            return x+y;
        }

        fn main(): int {
            return add(10,10);
        }
    ";
    assert_eq!(check_ret(code), 20);
}

#[test]
fn test_multiple_fn_calls() {
    let code = "
        fn add(x: int, y: int): int{
            return x+y;
        }

        fn main(): int {
            var n1: int;
            var n2: int;
            var n3: int;
            var n4: int;
            n1 = 5;
            n2 = 10;
            n3 = add(n1,n2);
            n4 = add(n1,n3);
            n1 = add(n2,n3);
            n2 = add(n3,n4);
            return n1+n2+n3+n4;
        }
    ";
    //15+20+25+35
    assert_eq!(check_ret(code), 95);
}

#[test]
fn test_multiple_fn_expr() {
    let code = "
        fn foo(x: int): int{
            return x;
        }

        fn main(): int {
            return foo(foo(foo(foo(foo(foo(foo(foo(foo(foo(foo(foo(5))))))))))));
        }
    ";
    assert_eq!(check_ret(code), 5);
}

#[test]
fn test_stdout() {
    let code = "
        fn main(): void {
            var c: char;
            c = '1';
            put(c);
            putLn();
        }
    ";
    assert_eq!(check_stdout(code), "1\n");
}

#[test]
fn test_if() {
    let code = "
        fn main(): void {
            var c: char;
            c = '1';
            if(c > '0'){
                c='2';
            }
            put(c);
            putLn();
        }
    ";
    assert_eq!(check_stdout(code), "2\n");
}

#[test]
fn test_chr() {
    let code = "
        fn main(): void {
            var a: int;
            a = 65;
            while(a<70){
                put(CHR(a));
                putLn();
                a=a+1;
            }
        }
    ";
    assert_eq!(check_stdout(code), "A\nB\nC\nD\nE\n");
}

#[test]
fn test_final() {
    let code = "
        var i: int;

        fn putInt(x: int): void {
            var c0: char;
            var c1: char;
            var c2: char;
            var c3: char;

            c3 = CHR(48 + x % 10); x = x / 10;
            c2 = CHR(48 + x % 10); x = x / 10;
            c1 = CHR(48 + x % 10); x = x / 10;
            c0 = CHR(48 + x % 10);

            if (c0 > '0') { put(c0); put(c1); put(c2); }
            elseif (c1 > '0') { put(c1); put(c2); }
            elseif (c2 > '0') { put(c2); }
            put(c3);
        }

        fn main(): void { /* print odd numbers */
i = 1;
            while (i < 10) {
                putInt(i);
                putLn();
                i = i + 2;
            }
        }
    ";
    assert_eq!(check_stdout(code), "1\n3\n5\n7\n9\n");
}

#[test]
fn readme_example_prints_odd_numbers() {
    let code = "
        var i: int;

        fn putInt(x: int): void { /* largest printable number = 9999 */
            var c0: char;
            var c1: char;
            var c2: char;
            var c3: char;

            c3 = CHR(48 + x % 10); x = x / 10;
            c2 = CHR(48 + x % 10); x = x / 10;
            c1 = CHR(48 + x % 10); x = x / 10;
            c0 = CHR(48 + x % 10);

            if (c0 > '0') { put(c0); put(c1); put(c2); }
            elseif (c1 > '0') { put(c1); put(c2); }
            elseif (c2 > '0') { put(c2); }
            put(c3);
        }

        fn main(): void { /* print odd numbers */
            i = 1;
            while (i < 100) {
                putInt(i);
                putLn();
                i = i + 2;
            }
        }
    ";
    let expected: String = (1..100).step_by(2).map(|n| format!("{n}\n")).collect();
    assert_eq!(check_stdout(code), expected);
}

#[test]
fn temporaries_do_not_survive_a_call() {
    // The caller keeps partial results in temporaries, which the callee
    // uses too: in `100 + f()` the 100 held across the call is lost.
    let code = "
        fn f(): int {
            return 2 + 3;
        }

        fn main(): int {
            return 100 + f();
        }
    ";
    assert_eq!(check_ret(code), 10);
}

#[test]
fn ord_gives_the_code_of_a_character() {
    let code = "
        fn main(): int {
            return ORD('A') + 1;
        }
    ";
    assert_eq!(check_ret(code), 66);
}

#[test]
fn while_loop_counts() {
    let code = "
        fn main(): int {
            var n: int;
            var s: int;
            n = 0;
            s = 0;
            while (n # 10) {
                n = n + 1;
                s = s + n;
            }
            return s;
        }
    ";
    assert_eq!(check_ret(code), 55);
}

#[test]
fn if_elseif_else_chooses_one_branch() {
    let code = "
        fn pick(x: int): int {
            if (x < 5) { return 1; }
            elseif (x <= 7) { return 2; }
            elseif (x >= 9) { return 4; }
            else { return 3; }
        }

        fn main(): int {
            var a: int;
            var b: int;
            var c: int;
            var d: int;
            a = pick(3);
            b = pick(7);
            c = pick(8);
            d = pick(9);
            return a * 64 + b * 16 + c * 4 + d;
        }
    ";
    // 1, 2, 3 and 4 as base-4 digits: 64 + 32 + 12 + 4.
    assert_eq!(check_ret(code), 112);
}
