use rlox::chunk::Chunk;
use rlox::compiler::{compile, Diagnostic};
use rlox::scanner::{number_lexemes, ScannerError};
use rlox::token::TokenKind;
use rlox::vm::{BinaryOp, InterpretError, RuntimeError, StepEvent, VM};

/// Resolve each number lexeme of the source into the encoding of the
/// double-precision value it denotes.
fn build_numbers(source: &str) -> Vec<Option<u64>> {
    number_lexemes(source)
        .iter()
        .map(|lex| lex.parse::<f64>().ok().map(f64::to_bits))
        .collect()
}

/// Drive a chunk to completion, applying the arithmetic the machine asks
/// for.
fn run_chunk(chunk: Chunk) -> Result<Option<f64>, RuntimeError> {
    let mut vm = VM::new();
    vm.chunk = chunk;
    vm.ip = 0;
    vm.stack.clear();
    loop {
        match vm.step() {
            Err(e) => return Err(e),
            Ok(StepEvent::Ran) => {}
            Ok(StepEvent::Arith { op, left, right }) => {
                let l = f64::from_bits(left);
                let r = f64::from_bits(right);
                let result = match op {
                    BinaryOp::Add => l + r,
                    BinaryOp::Subtract => l - r,
                    BinaryOp::Multiply => l * r,
                    BinaryOp::Divide => l / r,
                };
                vm.push_value(result.to_bits());
            }
            Ok(StepEvent::Returned { value }) => return Ok(value.map(f64::from_bits)),
        }
    }
}

/// Compile and execute one source text, as a host would.
fn interpret(source: &str) -> Result<Option<f64>, InterpretError> {
    let numbers = build_numbers(source);
    let chunk = compile(source, &numbers).map_err(InterpretError::Compiler)?;
    run_chunk(chunk).map_err(InterpretError::Runtime)
}

fn eval(source: &str) -> f64 {
    interpret(source)
        .expect("expected successful run")
        .expect("expected a value")
}

fn compile_err(source: &str) -> Vec<Diagnostic> {
    let numbers = build_numbers(source);
    match compile(source, &numbers) {
        Ok(_) => panic!("expected a compile error for {:?}", source),
        Err(e) => e.diagnostics,
    }
}

#[test]
fn literal_evaluates_to_itself() {
    assert_eq!(eval("4.2"), 4.2);
    assert_eq!(eval("0"), 0.0);
    assert_eq!(eval("007"), 7.0);
    assert_eq!(eval("3."), 3.0);
}

#[test]
fn arithmetic_matches_float_evaluation() {
    assert_eq!(eval("1.2 + 3.4 / -5.6"), 1.2 + 3.4 / -5.6);
    assert_eq!(eval("2 + 3 * 4"), 14.0);
    assert_eq!(eval("(2 + 3) * 4"), 20.0);
    assert_eq!(eval("10 - 4 - 3"), 3.0);
    assert_eq!(eval("100 / 10 / 5"), 2.0);
    assert_eq!(eval("0.1 + 0.2"), 0.1 + 0.2);
}

#[test]
fn unary_negation() {
    assert_eq!(eval("-5 + 2"), -3.0);
    assert_eq!(eval("--4"), 4.0);
    assert_eq!(eval("-(2 * 3)"), -6.0);
    assert_eq!(eval("2 * -3"), -6.0);
}

#[test]
fn division_by_zero_follows_ieee_semantics() {
    assert_eq!(eval("1 / 0"), f64::INFINITY);
    assert_eq!(eval("-1 / 0"), f64::NEG_INFINITY);
    assert!(eval("0 / 0").is_nan());
}

#[test]
fn comments_and_newlines_do_not_change_value() {
    assert_eq!(eval("1 + // plus\n2"), 3.0);
}

#[test]
fn compiling_twice_yields_identical_chunks() {
    let source = "1.2 + 3.4 * (5 - -6)";
    let numbers = build_numbers(source);
    let a = compile(source, &numbers).expect("compiles");
    let b = compile(source, &numbers).expect("compiles");
    assert_eq!(a.code, b.code);
    assert_eq!(a.constants, b.constants);
    assert_eq!(a.constant_texts, b.constant_texts);
    assert_eq!(a.lines, b.lines);
}

#[test]
fn line_tracking_across_a_newline() {
    let source = "1.2 +\n3.4";
    let numbers = build_numbers(source);
    let chunk = compile(source, &numbers).expect("compiles");
    // The load of 1.2 begins at byte 0, the load of 3.4 at byte 5.
    assert_eq!(chunk.get_line(0), Some(1));
    assert_eq!(chunk.get_line(5), Some(2));
    // Past the end of the stream no line is reported.
    assert_eq!(chunk.get_line(chunk.code.len()), None);
    assert_eq!(
        chunk.disassemble_instruction(0).expect("renders"),
        "0000    1 LoadConstant 0: 1.2\n"
    );
    assert_eq!(
        chunk.disassemble_instruction(5).expect("renders"),
        "0005    2 LoadConstant 1: 3.4\n"
    );
}

#[test]
fn two_bad_chars_are_both_recorded() {
    let diags = compile_err("1 @ 2 # 3");
    assert_eq!(diags.len(), 2);
    match &diags[0] {
        Diagnostic::Scan {
            err: ScannerError::BadChar { line, c },
        } => {
            assert_eq!(*line, 1);
            assert_eq!(*c, '@');
        }
        other => panic!("expected BadChar, got {:?}", other),
    }
    match &diags[1] {
        Diagnostic::Scan {
            err: ScannerError::BadChar { line, c },
        } => {
            assert_eq!(*line, 1);
            assert_eq!(*c, '#');
        }
        other => panic!("expected BadChar, got {:?}", other),
    }
}

#[test]
fn unterminated_string_fails_the_compile() {
    let diags = compile_err("\"abc");
    // The later missing-expression report is suppressed by panic mode, so
    // the scan error stands alone.
    assert_eq!(diags.len(), 1);
    match &diags[0] {
        Diagnostic::Scan {
            err: ScannerError::UnterminatedString { line },
        } => assert_eq!(*line, 1),
        other => panic!("expected UnterminatedString, got {:?}", other),
    }
}

#[test]
fn malformed_number_fails_the_compile() {
    let diags = compile_err("1.2.3");
    assert_eq!(diags.len(), 1);
    match &diags[0] {
        Diagnostic::Scan {
            err: ScannerError::BadNumber { line, n },
        } => {
            assert_eq!(*line, 1);
            assert_eq!(n, "1.2.3");
        }
        other => panic!("expected BadNumber, got {:?}", other),
    }
}

#[test]
fn empty_source_expects_an_expression() {
    let diags = compile_err("");
    assert_eq!(diags.len(), 1);
    assert!(matches!(&diags[0], Diagnostic::UnexpectedEnd { line: 1 }));
}

#[test]
fn dangling_operator_expects_an_operand() {
    let diags = compile_err("1 +");
    assert_eq!(diags.len(), 1);
    assert!(matches!(&diags[0], Diagnostic::UnexpectedEnd { line: 1 }));
}

#[test]
fn missing_close_paren_is_reported() {
    let diags = compile_err("(1 + 2");
    assert_eq!(diags.len(), 1);
    assert!(matches!(
        &diags[0],
        Diagnostic::ExpectedToken {
            expected: TokenKind::RParen,
            line: 1,
        }
    ));
}

#[test]
fn token_without_prefix_rule_is_reported() {
    let diags = compile_err("+ 1");
    assert_eq!(diags.len(), 1);
    assert!(matches!(&diags[0], Diagnostic::ExpectedExpression { line: 1 }));
}

#[test]
fn leftover_input_is_reported_once() {
    let diags = compile_err("1 2");
    assert_eq!(diags.len(), 1);
    assert!(matches!(&diags[0], Diagnostic::ExpectedEnd { line: 1 }));
}

#[test]
fn missing_number_value_is_reported() {
    let empty: Vec<Option<u64>> = Vec::new();
    match compile("1", &empty) {
        Ok(_) => panic!("expected a compile error"),
        Err(e) => {
            assert_eq!(e.diagnostics.len(), 1);
            match &e.diagnostics[0] {
                Diagnostic::BadNumberValue { line, n } => {
                    assert_eq!(*line, 1);
                    assert_eq!(n, "1");
                }
                other => panic!("expected BadNumberValue, got {:?}", other),
            }
        }
    }
}

#[test]
fn bad_constant_index_is_an_error_not_a_crash() {
    // A hand-constructed load whose operand indexes past the empty pool.
    let mut chunk = Chunk::new();
    chunk.code = vec![0u8, 5, 0, 0, 0];
    assert_eq!(run_chunk(chunk), Err(RuntimeError::BadConstantIndex));
}

#[test]
fn stack_underflow_on_binary_without_operands() {
    for byte in [1u8, 2, 3, 4] {
        let mut chunk = Chunk::new();
        chunk.code = vec![byte];
        assert_eq!(run_chunk(chunk), Err(RuntimeError::StackUnderflow));
    }
    // One operand is still one too few.
    let mut chunk = Chunk::new();
    chunk.push_const_opcode(1.0f64.to_bits(), String::from("1"), 1);
    chunk.code.push(1);
    assert_eq!(run_chunk(chunk), Err(RuntimeError::StackUnderflow));
}

#[test]
fn stack_underflow_on_negate_without_operand() {
    let mut chunk = Chunk::new();
    chunk.code = vec![5u8];
    assert_eq!(run_chunk(chunk), Err(RuntimeError::StackUnderflow));
}

#[test]
fn truncated_program_cases() {
    // An empty stream has nothing to fetch.
    let chunk = Chunk::new();
    assert_eq!(run_chunk(chunk), Err(RuntimeError::TruncatedProgram));
    // A load whose operand is cut short.
    let mut chunk = Chunk::new();
    chunk.code = vec![0u8, 1, 2];
    assert_eq!(run_chunk(chunk), Err(RuntimeError::TruncatedProgram));
    // A byte that is no opcode.
    let mut chunk = Chunk::new();
    chunk.code = vec![99u8];
    assert_eq!(run_chunk(chunk), Err(RuntimeError::TruncatedProgram));
    // Running past a return-less program's end.
    let mut chunk = Chunk::new();
    chunk.push_const_opcode(1.0f64.to_bits(), String::from("1"), 1);
    assert_eq!(run_chunk(chunk), Err(RuntimeError::TruncatedProgram));
}

#[test]
fn return_on_empty_stack_reports_nothing() {
    let mut chunk = Chunk::new();
    chunk.code = vec![6u8];
    assert_eq!(run_chunk(chunk), Ok(None));
}

#[test]
fn negation_is_exact_for_special_values() {
    assert_eq!(eval("-0.5"), -0.5);
    // Negating zero gives the negative zero encoding, exactly as floats do.
    let r = eval("-0");
    assert_eq!(r, 0.0);
    assert!(r.is_sign_negative());
    assert_eq!(eval("-(1 / 0)"), f64::NEG_INFINITY);
}

#[test]
fn interpret_error_wraps_both_kinds() {
    match interpret("@") {
        Err(InterpretError::Compiler(e)) => assert!(e.diagnostics.len() >= 1),
        other => panic!("expected a compiler error, got {:?}", other),
    }
    let numbers = build_numbers("1");
    let chunk = compile("1", &numbers).expect("compiles");
    // Sever the stream after the load so the run cannot finish.
    let mut chunk = chunk;
    chunk.code.truncate(5);
    match run_chunk(chunk) {
        Err(RuntimeError::TruncatedProgram) => {}
        other => panic!("expected TruncatedProgram, got {:?}", other),
    }
}

#[test]
fn deep_expression_matches_float_evaluation() {
    let source = "-(1.5 + 2.5) * 3 - 4 / 2 + -0.25";
    let expected = -(1.5 + 2.5) * 3.0 - 4.0 / 2.0 + -0.25;
    assert_eq!(eval(source), expected);
}

#[test]
fn fresh_vm_is_empty() {
    let vm = VM::new();
    assert_eq!(vm.ip, 0);
    assert_eq!(vm.stack.len(), 0);
    assert_eq!(vm.chunk.code.len(), 0);
    assert_eq!(vm.chunk.constants.len(), 0);
}

#[test]
fn compiled_chunk_disassembles_whole_program() {
    let source = "1.5 * -2";
    let numbers = build_numbers(source);
    let chunk = compile(source, &numbers).expect("compiles");
    assert_eq!(
        chunk.disassemble(),
        "0000    1 LoadConstant 0: 1.5\n\
         0005    1 LoadConstant 1: 2\n\
         0010    1 Negate\n\
         0011    1 Multiply\n\
         0012    1 Return\n"
    );
}

#[test]
fn constant_pool_keeps_duplicates() {
    let source = "2 + 2";
    let numbers = build_numbers(source);
    let chunk = compile(source, &numbers).expect("compiles");
    // The pool is append-only with no deduplication.
    assert_eq!(chunk.constants, vec![2.0f64.to_bits(), 2.0f64.to_bits()]);
    assert_eq!(chunk.constant_texts, vec![String::from("2"), String::from("2")]);
}

#[test]
fn reused_vm_interprets_repeatedly() {
    let mut vm = VM::new();
    for source in ["1 + 1", "2 * 3", "bad @", "4 - 1"] {
        let numbers = build_numbers(source);
        match compile(source, &numbers) {
            Ok(chunk) => {
                vm.chunk = chunk;
                vm.ip = 0;
                vm.stack.clear();
                loop {
                    match vm.step() {
                        Err(e) => panic!("unexpected runtime error {:?}", e),
                        Ok(StepEvent::Ran) => {}
                        Ok(StepEvent::Arith { op, left, right }) => {
                            let l = f64::from_bits(left);
                            let r = f64::from_bits(right);
                            let result = match op {
                                BinaryOp::Add => l + r,
                                BinaryOp::Subtract => l - r,
                                BinaryOp::Multiply => l * r,
                                BinaryOp::Divide => l / r,
                            };
                            vm.push_value(result.to_bits());
                        }
                        Ok(StepEvent::Returned { value }) => {
                            assert!(value.is_some());
                            break;
                        }
                    }
                }
            }
            Err(e) => {
                assert!(!e.diagnostics.is_empty());
            }
        }
    }
}
