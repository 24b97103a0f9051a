use loxvm::number::{number_equal, number_less, number_negate};
use loxvm::{
    compile, compile_with_errors, line_of, Chunk, CompileErrorKind, Instruction, InterpretResult,
    OpCode, Outcome, RuntimeErrorKind, Span, Token, TokenKind, Value, VM,
};

fn num(x: f64) -> Value {
    Value::Number(x.to_bits())
}

/// A small tokenizer for the test programs: digits, operators, parentheses,
/// `;` and the keywords `true`, `false`, `nil`.
fn lex(src: &str) -> Vec<Token> {
    let b = src.as_bytes();
    let mut out = Vec::new();
    let mut i = 0;
    while i < b.len() {
        let c = b[i];
        if c == b' ' || c == b'\n' || c == b'\t' {
            i += 1;
            continue;
        }
        let start = i;
        let kind = if c.is_ascii_digit() {
            while i < b.len() && b[i].is_ascii_digit() {
                i += 1;
            }
            TokenKind::Number
        } else if c.is_ascii_alphabetic() {
            while i < b.len() && b[i].is_ascii_alphanumeric() {
                i += 1;
            }
            match &src[start..i] {
                "true" => TokenKind::True,
                "false" => TokenKind::False,
                "nil" => TokenKind::Nil,
                "var" => TokenKind::Var,
                _ => TokenKind::Ident,
            }
        } else {
            let two = if i + 1 < b.len() { &src[i..i + 2] } else { "" };
            let (k, w) = match two {
                "==" => (TokenKind::Eq, 2),
                "!=" => (TokenKind::Neq, 2),
                "<=" => (TokenKind::Lte, 2),
                ">=" => (TokenKind::Gte, 2),
                _ => (
                    match c {
                        b'(' => TokenKind::LParen,
                        b')' => TokenKind::RParen,
                        b'+' => TokenKind::Add,
                        b'-' => TokenKind::Sub,
                        b'*' => TokenKind::Mul,
                        b'/' => TokenKind::Div,
                        b';' => TokenKind::Semicolon,
                        b'!' => TokenKind::Not,
                        b'=' => TokenKind::Assign,
                        b'<' => TokenKind::Lt,
                        b'>' => TokenKind::Gt,
                        _ => TokenKind::Error,
                    },
                    1,
                ),
            };
            i += w;
            k
        };
        out.push(Token::new(kind, Span::new(start as u32, i as u32)));
    }
    out.push(Token::new(TokenKind::Eof, Span::new(b.len() as u32, b.len() as u32)));
    out
}

fn compiled(src: &str) -> Chunk {
    let mut chunk = Chunk::new();
    assert!(compile(src.as_bytes(), &lex(src), &mut chunk));
    chunk
}

fn run_source(src: &str) -> Outcome {
    let mut vm = VM::new(compiled(src));
    vm.execute()
}

#[test]
fn opcode_bytes_round_trip() {
    let mut decoded = 0;
    for b in 0..=255u8 {
        if let Some(op) = OpCode::from_byte(b) {
            assert_eq!(op.to_byte(), b);
            decoded += 1;
        }
    }
    assert_eq!(decoded, 18);
    assert_eq!(OpCode::from_byte(OpCode::Const.to_byte()), Some(OpCode::Const));
    assert_eq!(OpCode::from_byte(200), None);
    assert!(OpCode::Const.has_operand());
    assert!(!OpCode::Add.has_operand());
}

#[test]
fn write_records_line_per_byte() {
    let mut chunk = Chunk::new();
    chunk.write(OpCode::Nil.to_byte(), 7);
    chunk.write(OpCode::Return.to_byte(), 9);
    assert_eq!(chunk.code(), &vec![3u8, 2]);
    assert_eq!(chunk.lines(), &vec![7u32, 9]);
}

#[test]
fn add_constant_returns_stable_indices() {
    let mut chunk = Chunk::new();
    assert_eq!(chunk.add_constant(num(1.5)), 0);
    assert_eq!(chunk.add_constant(Value::Nil), 1);
    assert_eq!(chunk.constants(), &vec![num(1.5), Value::Nil]);
    assert!(chunk.code().is_empty());
}

#[test]
fn disassembly_lists_each_instruction() {
    let mut chunk = Chunk::new();
    let c = chunk.add_constant(num(1.2));
    chunk.write(OpCode::Const.to_byte(), 1);
    chunk.write(c as u8, 1);
    chunk.write(99, 2);
    chunk.write(OpCode::Return.to_byte(), 3);
    chunk.write(OpCode::Const.to_byte(), 4);
    chunk.write(5, 4);
    chunk.write(OpCode::Const.to_byte(), 5);
    assert_eq!(
        chunk.disassemble(),
        vec![
            Instruction::Constant { offset: 0, index: 0, value: Some(num(1.2)) },
            Instruction::Unknown { offset: 2, byte: 99 },
            Instruction::Simple { offset: 3, op: OpCode::Return },
            Instruction::Constant { offset: 4, index: 5, value: None },
            Instruction::Truncated { offset: 6, op: OpCode::Const },
        ]
    );
    let (first, next) = chunk.disassemble_instr(0);
    assert_eq!(first, Instruction::Constant { offset: 0, index: 0, value: Some(num(1.2)) });
    assert_eq!(next, 2);
}

#[test]
fn compiled_constant_load_round_trips() {
    let chunk = compiled("7 + 8");
    assert_eq!(
        chunk.disassemble(),
        vec![
            Instruction::Constant { offset: 0, index: 0, value: Some(num(7.0)) },
            Instruction::Constant { offset: 2, index: 1, value: Some(num(8.0)) },
            Instruction::Simple { offset: 4, op: OpCode::Add },
            Instruction::Simple { offset: 5, op: OpCode::Return },
        ]
    );
}

#[test]
fn precedence_multiplication_first() {
    assert_eq!(run_source("2 + 3 * 4"), Outcome::Finished(Some(num(14.0))));
}

#[test]
fn precedence_grouping() {
    assert_eq!(run_source("(2 + 3) * 4"), Outcome::Finished(Some(num(20.0))));
}

#[test]
fn precedence_unary_minus() {
    assert_eq!(run_source("-2 * -3"), Outcome::Finished(Some(num(6.0))));
}

#[test]
fn subtraction_is_left_associative() {
    assert_eq!(run_source("10 - 4 - 3"), Outcome::Finished(Some(num(3.0))));
    assert_eq!(run_source("8 / 4 / 2"), Outcome::Finished(Some(num(1.0))));
}

#[test]
fn type_error_on_bool_plus_number() {
    let mut vm = VM::new(compiled("true + 1"));
    let outcome = vm.execute();
    match outcome {
        Outcome::Failed(e) => assert_eq!(e.kind, RuntimeErrorKind::OperandsMustBeNumbers),
        _ => panic!("expected a runtime error"),
    }
    let mut vm = VM::new(compiled("true + 1"));
    assert_eq!(vm.run(), InterpretResult::RuntimeError);
}

#[test]
fn type_error_on_negated_nil() {
    match run_source("-nil") {
        Outcome::Failed(e) => {
            assert_eq!(e.kind, RuntimeErrorKind::OperandMustBeNumber);
            assert!(!e.kind.is_internal());
        }
        _ => panic!("expected a runtime error"),
    }
}

#[test]
fn runtime_error_reports_line() {
    match run_source("1;\n\ntrue * 2") {
        Outcome::Failed(e) => assert_eq!(e.line, 3),
        _ => panic!("expected a runtime error"),
    }
}

#[test]
fn equality_and_truthiness() {
    assert!(Value::Nil.equals(&Value::Nil));
    assert!(!num(0.0).equals(&Value::Bool(false)));
    assert!(num(0.0).equals(&num(-0.0)));
    assert!(!num(f64::NAN).equals(&num(f64::NAN)));
    assert!(!Value::Nil.is_truthy());
    assert!(!Value::Bool(false).is_truthy());
    assert!(num(0.0).is_truthy());
    assert!(Value::Bool(true).is_truthy());
    assert_eq!(run_source("nil == nil"), Outcome::Finished(Some(Value::Bool(true))));
    assert_eq!(run_source("0 == false"), Outcome::Finished(Some(Value::Bool(false))));
    assert_eq!(run_source("!nil"), Outcome::Finished(Some(Value::Bool(true))));
    assert_eq!(run_source("!0"), Outcome::Finished(Some(Value::Bool(false))));
    assert_eq!(run_source("1 != 2"), Outcome::Finished(Some(Value::Bool(true))));
}

#[test]
fn comparisons() {
    assert_eq!(run_source("1 < 2"), Outcome::Finished(Some(Value::Bool(true))));
    assert_eq!(run_source("2 <= 2"), Outcome::Finished(Some(Value::Bool(true))));
    assert_eq!(run_source("2 > 3"), Outcome::Finished(Some(Value::Bool(false))));
    assert_eq!(run_source("3 >= 2 == true"), Outcome::Finished(Some(Value::Bool(true))));
    assert_eq!(run_source("0 - 1 < 0"), Outcome::Finished(Some(Value::Bool(true))));
}

#[test]
fn ordering_of_bit_patterns() {
    assert!(number_less((-1.0f64).to_bits(), 0.5f64.to_bits()));
    assert!(number_less((-2.0f64).to_bits(), (-1.0f64).to_bits()));
    assert!(!number_less((-0.0f64).to_bits(), 0.0f64.to_bits()));
    assert!(!number_less(f64::NAN.to_bits(), 1.0f64.to_bits()));
    assert!(number_less(1.0f64.to_bits(), f64::INFINITY.to_bits()));
    assert!(number_equal(0.0f64.to_bits(), (-0.0f64).to_bits()));
    assert_eq!(number_negate(2.5f64.to_bits()), (-2.5f64).to_bits());
}

#[test]
fn division_by_zero_is_infinity() {
    assert_eq!(run_source("1 / 0"), Outcome::Finished(Some(num(f64::INFINITY))));
    match run_source("0 / 0") {
        Outcome::Finished(Some(Value::Number(bits))) => assert!(f64::from_bits(bits).is_nan()),
        other => panic!("unexpected {:?}", other),
    }
}

#[test]
fn two_syntax_errors_are_both_reported() {
    let src = "1 + ;\n2 * ;";
    let mut chunk = Chunk::new();
    let errors = compile_with_errors(src.as_bytes(), &lex(src), &mut chunk);
    assert_eq!(errors.len(), 2);
    assert_eq!(errors[0].kind, CompileErrorKind::ExpectExpression);
    assert_eq!(errors[0].line, 1);
    assert_eq!(errors[1].line, 2);
    let mut chunk = Chunk::new();
    assert!(!compile(src.as_bytes(), &lex(src), &mut chunk));
}

#[test]
fn one_mistake_gives_one_error() {
    let src = "(1 + 2 3 4 5; 6";
    let mut chunk = Chunk::new();
    let errors = compile_with_errors(src.as_bytes(), &lex(src), &mut chunk);
    assert_eq!(errors.len(), 1);
    assert_eq!(errors[0].kind, CompileErrorKind::ExpectRightParen);
}

#[test]
fn statement_end_and_unexpected_character() {
    let src = "1 2";
    let mut chunk = Chunk::new();
    let errors = compile_with_errors(src.as_bytes(), &lex(src), &mut chunk);
    assert_eq!(errors.len(), 1);
    assert_eq!(errors[0].kind, CompileErrorKind::ExpectStatementEnd);
    let src = "1 + #";
    let mut chunk = Chunk::new();
    let errors = compile_with_errors(src.as_bytes(), &lex(src), &mut chunk);
    assert_eq!(errors.len(), 1);
    assert_eq!(errors[0].kind, CompileErrorKind::UnexpectedCharacter);
}

#[test]
fn too_many_constants() {
    let src: String = (0..300).map(|i| format!("{};", i)).collect();
    let mut chunk = Chunk::new();
    let errors = compile_with_errors(src.as_bytes(), &lex(&src), &mut chunk);
    assert!(!errors.is_empty());
    assert_eq!(errors[0].kind, CompileErrorKind::TooManyConstants);
}

#[test]
fn invalid_number_span() {
    let tokens = vec![Token::new(TokenKind::Number, Span::new(0, 9))];
    let mut chunk = Chunk::new();
    let errors = compile_with_errors(b"12", &tokens, &mut chunk);
    assert_eq!(errors.len(), 1);
    assert_eq!(errors[0].kind, CompileErrorKind::InvalidNumber);
}

#[test]
fn statements_leave_last_value() {
    assert_eq!(run_source("1; 2; 3;"), Outcome::Finished(Some(num(3.0))));
    assert_eq!(run_source(""), Outcome::Finished(None));
}

#[test]
fn internal_errors() {
    let mut chunk = Chunk::new();
    chunk.write(OpCode::Add.to_byte(), 4);
    let mut vm = VM::new(chunk.clone());
    match vm.execute() {
        Outcome::Failed(e) => {
            assert_eq!(e.kind, RuntimeErrorKind::StackUnderflow);
            assert_eq!(e.line, 4);
            assert!(e.kind.is_internal());
        }
        _ => panic!("expected underflow"),
    }
    let mut vm = VM::new(Chunk::new());
    assert_eq!(vm.execute(), Outcome::Failed(loxvm::RuntimeError { line: 0, kind: RuntimeErrorKind::EndOfCode }));
    let mut chunk = Chunk::new();
    chunk.write(OpCode::Const.to_byte(), 1);
    chunk.write(3, 1);
    let mut vm = VM::new(chunk);
    assert_eq!(
        vm.execute(),
        Outcome::Failed(loxvm::RuntimeError { line: 1, kind: RuntimeErrorKind::ConstantOutOfRange(3) })
    );
    let mut chunk = Chunk::new();
    chunk.write(250, 2);
    let mut vm = VM::new(chunk);
    assert_eq!(
        vm.execute(),
        Outcome::Failed(loxvm::RuntimeError { line: 2, kind: RuntimeErrorKind::UnknownOpcode(250) })
    );
}

#[test]
fn hand_built_program() {
    let mut chunk = Chunk::new();
    let c1 = chunk.add_constant(num(1.2));
    chunk.write(OpCode::Const.to_byte(), 0);
    chunk.write(c1 as u8, 0);
    let c2 = chunk.add_constant(num(3.4));
    chunk.write(OpCode::Const.to_byte(), 1);
    chunk.write(c2 as u8, 1);
    chunk.write(OpCode::Add.to_byte(), 2);
    let c3 = chunk.add_constant(num(5.6));
    chunk.write(OpCode::Const.to_byte(), 3);
    chunk.write(c3 as u8, 3);
    chunk.write(OpCode::Div.to_byte(), 4);
    chunk.write(OpCode::Neg.to_byte(), 5);
    chunk.write(OpCode::Return.to_byte(), 0);
    let mut vm = VM::new(chunk);
    assert_eq!(vm.execute(), Outcome::Finished(Some(num(-((1.2 + 3.4) / 5.6)))));
}

#[test]
fn arithmetic_results() {
    assert_eq!(run_source("7 - 10"), Outcome::Finished(Some(num(-3.0))));
    assert_eq!(run_source("1 / 4"), Outcome::Finished(Some(num(0.25))));
    assert_eq!(run_source("6 * 7"), Outcome::Finished(Some(num(42.0))));
    assert_eq!(run_source("123456789012345678901234567890"), Outcome::Finished(Some(num(123456789012345678901234567890.0))));
}

#[test]
fn lines_and_spans() {
    assert_eq!(line_of(b"a\nb\nc", 0), 1);
    assert_eq!(line_of(b"a\nb\nc", 2), 2);
    assert_eq!(line_of(b"a\nb\nc", 99), 3);
    let span = Span::from(3usize..7usize);
    assert_eq!(span, Span::new(3, 7));
    let range: std::ops::Range<usize> = span.into();
    assert_eq!(range, 3..7);
    let token = Token::new(TokenKind::Number, Span::new(2, 4));
    assert_eq!(token.lit(b"1 23 4"), b"23");
}

#[test]
fn compiled_lines_follow_tokens() {
    let chunk = compiled("1 +\n2");
    assert_eq!(chunk.code().len(), chunk.lines().len());
    assert_eq!(chunk.lines(), &vec![1u32, 1, 2, 2, 1, 2]);
}

#[test]
fn program_shapes() {
    let accepted = ["", "1;", "1; 2", "((1))", "--1", "!true == false;", "nil"];
    let rejected = [";", "1 +", "(1", "1)", ";;", "1;;", "var", "1 2", "= 1"];
    for src in accepted.iter() {
        let mut chunk = Chunk::new();
        assert!(compile(src.as_bytes(), &lex(src), &mut chunk), "{}", src);
    }
    for src in rejected.iter() {
        let mut chunk = Chunk::new();
        assert!(!compile(src.as_bytes(), &lex(src), &mut chunk), "{}", src);
    }
}

fn simple(offset: usize, op: OpCode) -> Instruction {
    Instruction::Simple { offset, op }
}

fn load(offset: usize, index: u8, x: f64) -> Instruction {
    Instruction::Constant { offset, index, value: Some(num(x)) }
}

#[test]
fn multiplication_is_emitted_before_addition() {
    assert_eq!(
        compiled("2 + 3 * 4").disassemble(),
        vec![
            load(0, 0, 2.0),
            load(2, 1, 3.0),
            load(4, 2, 4.0),
            simple(6, OpCode::Mul),
            simple(7, OpCode::Add),
            simple(8, OpCode::Return),
        ]
    );
}

#[test]
fn unary_minus_binds_tighter_than_multiplication() {
    assert_eq!(
        compiled("-2 * -3").disassemble(),
        vec![
            load(0, 0, 2.0),
            simple(2, OpCode::Neg),
            load(3, 1, 3.0),
            simple(5, OpCode::Neg),
            simple(6, OpCode::Mul),
            simple(7, OpCode::Return),
        ]
    );
}

#[test]
fn subtraction_groups_to_the_left() {
    assert_eq!(
        compiled("8 - 4 - 2").disassemble(),
        vec![
            load(0, 0, 8.0),
            load(2, 1, 4.0),
            simple(4, OpCode::Sub),
            load(5, 2, 2.0),
            simple(7, OpCode::Sub),
            simple(8, OpCode::Return),
        ]
    );
    assert_eq!(run_source("8 - 4 - 2"), Outcome::Finished(Some(num(2.0))));
}

#[test]
fn statements_are_separated_by_pop() {
    let chunk = compiled("1;\nnil");
    assert_eq!(
        chunk.disassemble(),
        vec![load(0, 0, 1.0), simple(2, OpCode::Pop), simple(3, OpCode::Nil), simple(4, OpCode::Return)]
    );
    assert_eq!(chunk.lines(), &vec![1u32, 1, 2, 2, 2]);
}

#[test]
fn ordering_needs_numbers_equality_never_fails() {
    match run_source("1 < true") {
        Outcome::Failed(e) => assert_eq!(e.kind, RuntimeErrorKind::OperandsMustBeNumbers),
        other => panic!("unexpected {:?}", other),
    }
    assert_eq!(run_source("1 == true"), Outcome::Finished(Some(Value::Bool(false))));
    assert_eq!(run_source("!false"), Outcome::Finished(Some(Value::Bool(true))));
}
