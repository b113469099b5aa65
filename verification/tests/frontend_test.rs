//! The scanner, parser and semantic analyzer together: programs that pass
//! the analysis and programs that the analysis or the parser refuses.

use slang::parser::Parser;
use slang::scanner::Scanner;
use slang::sematics::SemanticAnalyzer;

fn analyze_ok(input: &str) {
    let mut parser = Parser::new(Scanner::new(input));
    let parse_res = parser.parse_program();

    assert!(parse_res.is_ok());

    let mut ast = parse_res.unwrap();
    let mut analyzer = SemanticAnalyzer::new();
    let semantic_res = analyzer.analyze_program(&mut ast);

    if semantic_res {
        assert!(true);
    } else {
        for err in analyzer.errors() {
            println!("{}", err.message);
        }
        assert!(false)
    }
}

fn analyze_err(input: &str) {
    let mut parser = Parser::new(Scanner::new(input));
    let parse_result = parser.parse_program();

    if let Err(errors) = parse_result {
        for err in &errors {
            println!("{}", err.message);
        }
        panic!()
    }

    let mut ast = parse_result.unwrap();
    let mut analyzer = SemanticAnalyzer::new();
    let semantic_res = analyzer.analyze_program(&mut ast);

    if semantic_res {
        println!("{:?}", ast);
        assert!(false);
    } else {
        for err in analyzer.errors() {
            println!("{}", err.message);
        }
        assert!(true)
    }
}

fn parse_ok(input: &str) {
    let scanner = Scanner::new(input);
    let mut parser = Parser::new(scanner);

    match parser.parse_program() {
        Ok(_) => {
            assert!(true);
        }
        Err(errors) => {
            for err in &errors {
                println!("{}", err.message);
            }
            assert!(false)
        }
    }
}

fn parse_err(input: &str) {
    let scanner = Scanner::new(input);
    let mut parser = Parser::new(scanner);

    match parser.parse_program() {
        Ok(ast) => {
            println!("{:?}", ast);
            assert!(false);
        }
        Err(_) => {
            assert!(true)
        }
    }
}

#[test]
fn tests_test_valid_simple_assignment() {
    analyze_ok(
        "
        var x: int;

        fn main() {
            x = 5;
        }
    ",
    );
}

#[test]
fn tests_test_valid_shadowing() {
    analyze_ok(
        "
        var x: int;

        fn main() {
            var x: int;
            x = 10;
        }
    ",
    );
}

#[test]
fn tests_test_valid_function_call() {
    analyze_ok(
        "
        fn foo(a: int, b: int) {
            return;
        }

        fn main() {
            foo(1, 2);
        }
    ",
    );
}

#[test]
fn tests_test_valid_while() {
    analyze_ok(
        "
        fn main() {
            var x: int;
            x = 0;

            while (x < 10) {
                x = x + 1;
            }
        }
    ",
    );
}

#[test]
fn tests_test_undefined_variable() {
    analyze_err(
        "
        fn main() {
            x = 5;
        }
    ",
    );
}

#[test]
fn tests_test_duplicate_variable() {
    analyze_err(
        "
        fn main() {
            var x: int;
            var x: int;
        }
    ",
    );
}

#[test]
fn tests_test_duplicate_function() {
    analyze_err(
        "
        fn foo() {}
        fn foo() {}
    ",
    );
}

#[test]
fn tests_test_undefined_function_call() {
    analyze_err(
        "
        fn main() {
            foo(1);
        }
    ",
    );
}

#[test]
fn tests_test_wrong_argument_count() {
    analyze_err(
        "
        fn foo(a: int, b: int) {}

        fn main() {
            foo(1);
        }
    ",
    );
}

#[test]
fn tests_test_duplicate_parameter() {
    analyze_err(
        "
        fn foo(a: int, a: int) {}
    ",
    );
}

#[test]
fn tests_test_param_local_conflict() {
    analyze_err(
        "
        fn foo(a: int) {
            var a: int;
        }
    ",
    );
}

#[test]
fn tests_test_assign_to_function() {
    analyze_err(
        "
        fn foo() {}

        fn main() {
            foo = 5;
        }
    ",
    );
}

#[test]
fn tests_test_call_variable_as_function() {
    analyze_err(
        "
        var x: int;

        fn main() {
            x(1);
        }
    ",
    );
}

#[test]
fn tests_test_multiple_errors() {
    analyze_err(
        "
        fn main() {
            x = 5;
            y = 6;
            foo(1);
        }
    ",
    );
}

#[test]
fn tests_test_minimal_var() {
    parse_ok("var x: int;");
}

#[test]
fn tests_test_multiple_vars() {
    parse_ok(
        "
            var x: int;
            var y: int;
            var z: char;
        ",
    );
}

#[test]
fn tests_test_empty_function() {
    parse_ok(
        "
            fn main() {
            }
        ",
    );
}

#[test]
fn tests_test_function_return() {
    parse_ok(
        "
            fn main() {
                return;
            }
        ",
    );
}

#[test]
fn tests_test_function_with_params() {
    parse_ok(
        "
            fn add(a: int, b: int): int {
                return a + b;
            }
        ",
    );
}

#[test]
fn tests_test_local_vars() {
    parse_ok(
        "
            fn main() {
                var x: int;
                var y: int;
                x = 5;
                y = x;
            }
        ",
    );
}

#[test]
fn tests_test_function_call() {
    parse_ok(
        "
            fn main() {
                print(5);
            }
        ",
    );
}

#[test]
fn tests_test_expression_precedence() {
    parse_ok(
        "
            fn main() {
                var x: int;
                x = 1 + 2 * 3 - 4 / 2 % 2;
            }
        ",
    );
}

#[test]
fn tests_test_parentheses() {
    parse_ok(
        "
            fn main() {
                var x: int;
                x = (1 + 2) * (3 - 4);
            }
        ",
    );
}

#[test]
fn tests_test_if_statement() {
    parse_ok(
        "
            fn main() {
                if (1 = 1) {
                    return;
                }
            }
        ",
    );
}

#[test]
fn tests_test_if_elseif_else() {
    parse_ok(
        "
            fn main() {
                if (x = 1) {
                    return;
                } elseif (x # 2) {
                    return;
                } else {
                    return;
                }
            }
        ",
    );
}

#[test]
fn tests_test_while_loop() {
    parse_ok(
        "
            fn main() {
                while (x < 10) {
                    x = x + 1;
                }
            }
        ",
    );
}

#[test]
fn tests_test_call_with_args() {
    parse_ok(
        "
            fn main() {
                foo(1, 2, 3);
            }
        ",
    );
}

#[test]
fn tests_test_char_literal() {
    parse_ok(
        "
            var c: char;
            fn main() {
                c = 'a';
            }
        ",
    );
}

#[test]
fn tests_test_escaped_char() {
    parse_ok(
        "
            fn main() {
                var c: char;
                c = '\\n';
            }
        ",
    );
}

#[test]
fn tests_test_comments() {
    parse_ok(
        "
            // line comment
            var x: int;

            /* block comment */
            fn main() {
                x = 5;
            }
        ",
    );
}

#[test]
fn tests_test_nested_control() {
    parse_ok(
        "
            fn main() {
                if (1 = 1) {
                    while (2 = 2) {
                        if (3 = 3) {
                            return;
                        }
                    }
                }
            }
        ",
    );
}

#[test]
fn tests_test_many_params() {
    parse_ok(
        "
            fn test(a:int,b:int,c:int,d:int,e:int,f:int): int {
                return a;
            }
        ",
    );
}

#[test]
fn tests_test_missing_semicolon() {
    parse_err("var x: int");
}

#[test]
fn tests_test_missing_colon() {
    parse_err("var x int;");
}

#[test]
fn tests_test_invalid_assignment() {
    parse_err(
        "
            fn main() {
                = 5;
            }
        ",
    );
}

#[test]
fn tests_test_broken_expression() {
    parse_err(
        "
            fn main() {
                x = 1 + ;
            }
        ",
    );
}

#[test]
fn tests_test_unclosed_block() {
    parse_err(
        "
            fn main() {
                if (1 = 1) {
                    return;
            }
        ",
    );
}

#[test]
fn tests_test_invalid_function_syntax() {
    parse_err(
        "
            fn main( {
                return;
            }
        ",
    );
}

#[test]
fn tests_test_invalid_char() {
    parse_err(
        "
            fn main() {
                var c: char;
                c = '';
            }
        ",
    );
}

// Programs without `main` fail the analysis. A `var` declaration inside a
// block does not follow the grammar (a function's declarations come before
// its statements), so the parser refuses such a program.

fn refused_for_no_main(input: &str) {
    let mut parser = Parser::new(Scanner::new(input));
    let mut ast = parser.parse_program().expect("the program parses");
    let mut analyzer = SemanticAnalyzer::new();
    assert!(!analyzer.analyze_program(&mut ast));
    assert!(analyzer.errors().iter().any(|e| e.message == "No main method found"));
}

#[test]
fn function_params_without_main_are_refused() {
    refused_for_no_main(
        "
            fn add(a: int, b: int): int {
                return a;
            }
        ",
    );
}

#[test]
fn recursive_function_without_main_is_refused() {
    refused_for_no_main(
        "
            fn fact(n: int): int {
                if (n = 0) {
                    return 1;
                } else {
                    return n;
                }
            }
        ",
    );
}

#[test]
fn var_in_if_block_is_a_parse_error() {
    parse_err(
        "
            fn main() {
                var x: int;

                if (1 = 1) {
                    var y: int;
                    y = 5;
                }

                x = 3;
            }
        ",
    );
}

#[test]
fn shadowing_var_in_block_is_a_parse_error() {
    parse_err(
        "
            fn main() {
                var x: int;

                if (1 = 1) {
                    var x: int;
                    x = 2;
                }

                x = 3;
            }
        ",
    );
}

#[test]
fn var_used_after_its_block_is_a_parse_error() {
    parse_err(
        "
            fn main() {
                if (1 = 1) {
                    var x: int;
                }

                x = 5;
            }
        ",
    );
}
