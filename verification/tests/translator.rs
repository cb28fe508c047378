//! End-to-end translation scenarios: generated output, first-use
//! declarations, label bookkeeping, and the fatal error cases.

use teeny::emit::Emitter;
use teeny::error::CompileError;
use teeny::lex::{Lexer, TokenType};
use teeny::parse::Parser;

fn translate(src: &str) -> Result<String, CompileError> {
    let lexer = Lexer::new(src.to_string());
    let emitter = Emitter::new("out.c".to_string());
    let mut parser = Parser::new(lexer, emitter)?;
    parser.program()?;
    Ok(parser.emitter.finalize())
}

#[test]
fn translates_conditional_print_scenario() {
    let out = translate("LET a = 5\nIF a > 3 THEN\n    PRINT \"big\"\nENDIF\n").unwrap();
    assert_eq!(
        out,
        "#include <stdio.h>\nint main(void){\nfloat a;\n\
         a = 5;\nif(a>3) {\nprintf(\"big\\n\");\n}\nreturn 0;\n}\n"
    );
    // `a` is declared exactly once.
    assert_eq!(out.matches("float a;").count(), 1);
}

#[test]
fn declares_each_variable_once() {
    let out = translate("LET a = 1\nLET a = 2\nLET b = 3\n").unwrap();
    assert_eq!(out.matches("float a;").count(), 1);
    assert_eq!(out.matches("float b;").count(), 1);
}

#[test]
fn declaration_precedes_every_read_in_the_output() {
    let out = translate("LET a = 1\nLET b = a + 2\nPRINT b\n").unwrap();
    let decl_a = out.find("float a;").unwrap();
    let decl_b = out.find("float b;").unwrap();
    let body = out.find("a = 1;").unwrap();
    assert!(decl_a < body);
    assert!(decl_b < body);
}

#[test]
fn rejects_print_of_unassigned_variable() {
    let err = translate("PRINT x\n").unwrap_err();
    match err {
        CompileError::UseBeforeAssignment(name) => assert_eq!(name, "x"),
        other => panic!("expected a use-before-assignment error, got {:?}", other),
    }
}

#[test]
fn rejects_read_before_assignment_in_expression() {
    let err = translate("LET a = b + 1\n").unwrap_err();
    assert!(matches!(err, CompileError::UseBeforeAssignment(n) if n == "b"));
}

#[test]
fn rejects_duplicate_label() {
    let err = translate("LABEL x\nLABEL x\n").unwrap_err();
    assert!(matches!(err, CompileError::DuplicateLabel(n) if n == "x"));
}

#[test]
fn rejects_goto_to_undeclared_label() {
    let err = translate("GOTO done\n").unwrap_err();
    assert!(matches!(err, CompileError::UndeclaredLabel(n) if n == "done"));
}

#[test]
fn accepts_goto_to_declared_label() {
    let out = translate("LABEL top\nGOTO top\n").unwrap();
    assert!(out.contains("top:\n"));
    assert!(out.contains("goto top;\n"));
}

#[test]
fn goto_may_precede_its_label() {
    // The existence check is deferred to the end of the program.
    let out = translate("GOTO fin\nLABEL fin\n").unwrap();
    assert!(out.contains("goto fin;\n"));
    assert!(out.contains("fin:\n"));
}

#[test]
fn rejects_comparison_without_comparator() {
    let err = translate("IF 1 THEN\nENDIF\n").unwrap_err();
    assert!(matches!(err, CompileError::ParseExpectedComparison(_, t) if t == "THEN"));
}

#[test]
fn rejects_comparison_without_comparator_on_variable() {
    let err = translate("LET a = 1\nIF a THEN\nENDIF\n").unwrap_err();
    assert!(matches!(err, CompileError::ParseExpectedComparison(_, _)));
}

#[test]
fn rejects_statement_starting_with_stray_keyword() {
    let err = translate("ENDIF\n").unwrap_err();
    assert!(matches!(err, CompileError::ParseInvalidStatement(TokenType::ENDIF, t) if t == "ENDIF"));
}

#[test]
fn rejects_let_without_identifier() {
    let err = translate("LET 5 = 3\n").unwrap_err();
    assert!(matches!(err, CompileError::ParseExpectedToken(_, _)));
}

#[test]
fn translates_while_loop() {
    let out = translate("LET i = 0\nWHILE i < 3 REPEAT\nLET i = i + 1\nENDWHILE\n").unwrap();
    assert!(out.contains("while(i<3){\n"));
    assert!(out.contains("i = i+1;\n"));
    assert!(out.ends_with("return 0;\n}\n"));
}

#[test]
fn translates_input_with_guarded_read() {
    let out = translate("INPUT x\nPRINT x\n").unwrap();
    assert!(out.contains("float x;\n"));
    assert!(out.contains("if(0 == scanf(\"%f\", &x)) {\nx = 0;\nscanf(\"%*s\");\n}\n"));
}

#[test]
fn print_expression_uses_fixed_point_format() {
    let out = translate("LET a = 1\nPRINT a + 2\n").unwrap();
    assert!(out.contains("printf(\"%.2f\\n\", (float)(a+2));\n"));
}

#[test]
fn tolerates_blank_lines_and_comments() {
    let out = translate("\n\n# leading comment\nLET a = 1\n\n\nPRINT a\n\n").unwrap();
    assert!(out.contains("a = 1;\n"));
}

#[test]
fn accepts_empty_if_body() {
    let out = translate("LET a = 1\nIF a == 1 THEN\nENDIF\n").unwrap();
    assert!(out.contains("if(a==1) {\n}\n"));
}

#[test]
fn translates_unary_signs_and_precedence_chain() {
    let out = translate("LET a = -1 + +2 * 3 / 4\n").unwrap();
    assert!(out.contains("a = -1++2*3/4;\n"));
}

#[test]
fn runs_are_deterministic() {
    let src = "LET a = 5\nIF a > 3 THEN\n    PRINT \"big\"\nENDIF\n";
    let first = translate(src).unwrap();
    let second = translate(src).unwrap();
    assert_eq!(first, second);
}

#[test]
fn lexical_error_propagates_through_translation() {
    let err = translate("LET a = 5\nPRINT \"a\\tb\"\n").unwrap_err();
    assert!(matches!(err, CompileError::LexIllegalStringChar('\\')));
}

#[test]
fn output_is_header_then_body() {
    let lexer = Lexer::new("LET a = 1\n".to_string());
    let emitter = Emitter::new("out.c".to_string());
    let mut parser = Parser::new(lexer, emitter).unwrap();
    parser.program().unwrap();
    let out = parser.emitter.finalize();
    assert!(out.starts_with("#include <stdio.h>\nint main(void){\nfloat a;\n"));
    assert!(out.ends_with("a = 1;\nreturn 0;\n}\n"));
    assert_eq!(parser.emitter.full_path().as_str(), "out.c");
}

#[test]
fn emitter_buffers_are_independent() {
    let mut emitter = Emitter::new("path.c".to_string());
    emitter.emit("bo".to_string());
    emitter.emit_line("dy".to_string());
    emitter.header_line("head".to_string());
    assert_eq!(emitter.finalize(), "head\nbody\n");
}

#[test]
fn rejects_operator_without_operand() {
    let err = translate("LET a = +\n").unwrap_err();
    assert!(matches!(err, CompileError::ParseExpectedPrimary(_, _)));
}

#[test]
fn window_checks_see_current_and_peeked_token() {
    let lexer = Lexer::new("PRINT \"hi\"".to_string());
    let emitter = Emitter::new("out.c".to_string());
    let parser = Parser::new(lexer, emitter).unwrap();
    assert!(parser.check_token(TokenType::PRINT));
    assert!(parser.check_peek(TokenType::STRING));
    assert!(!parser.check_peek(TokenType::NEWLINE));
}

#[test]
fn translates_nested_blocks() {
    let out = translate(
        "LET n = 2\nWHILE n > 0 REPEAT\nIF n == 1 THEN\nPRINT \"one\"\nENDIF\nLET n = n - 1\nENDWHILE\n",
    )
    .unwrap();
    assert!(out.contains("while(n>0){\n"));
    assert!(out.contains("if(n==1) {\n"));
    assert!(out.contains("printf(\"one\\n\");\n"));
    assert!(out.contains("n = n-1;\n"));
}

#[test]
fn translates_chained_comparators() {
    let out = translate("LET a = 1\nIF 0 < a < 2 THEN\nENDIF\n").unwrap();
    assert!(out.contains("if(0<a<2) {\n"));
}
