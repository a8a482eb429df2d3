use lox::errors::CompileError;
use lox::interpreter::Interpreter;
use lox::run;
use lox::run_lines;

fn printed(source: &str) -> Vec<String> {
    let (out, diagnostics) = run(source);
    assert!(diagnostics.is_empty(), "unexpected diagnostics: {:?}", diagnostics);
    out
}

fn lines(v: &[&str]) -> Vec<String> {
    v.iter().map(|s| s.to_string()).collect()
}

fn single_runtime_error(source: &str) -> ((usize, usize), String) {
    let (_, diagnostics) = run(source);
    assert_eq!(diagnostics.len(), 1, "{:?}", diagnostics);
    match &diagnostics[0] {
        CompileError::Interpreter(span, msg) => (*span, msg.clone()),
        other => panic!("expected a runtime diagnostic, got {:?}", other),
    }
}

#[test]
fn print_respects_precedence() {
    assert_eq!(printed("print 1 + 2 * 3;"), lines(&["7"]));
}

#[test]
fn variables_add_up() {
    assert_eq!(printed("var a = 1; var b = 2; print a + b;"), lines(&["3"]));
}

#[test]
fn block_shadows_then_restores() {
    assert_eq!(
        printed("var x = \"outer\"; { var x = \"inner\"; print x; } print x;"),
        lines(&["inner", "outer"])
    );
}

#[test]
fn while_counts_to_three() {
    assert_eq!(
        printed("var i = 0; while (i < 3) { print i; i = i + 1; }"),
        lines(&["0", "1", "2"])
    );
}

#[test]
fn closure_shares_its_frame() {
    assert_eq!(
        printed("fn make() { var c = 0; fn inc() { c = c + 1; print c; } inc(); inc(); } make();"),
        lines(&["1", "2"])
    );
}

#[test]
fn closure_modifies_captured_local_across_calls() {
    assert_eq!(
        printed(
            "fn counter() { var c = 0; fn inc() { c = c + 1; print c; } inc(); inc(); inc(); print c; } counter();"
        ),
        lines(&["1", "2", "3", "3"])
    );
}

#[test]
fn functions_declared_together_share_a_scope() {
    assert_eq!(
        printed("var n = 0; fn a() { n = n + 1; } fn b() { print n; } a(); a(); b();"),
        lines(&["2"])
    );
}

#[test]
fn recursion_sees_its_own_name() {
    assert_eq!(
        printed("fn down(n) { if (n > 0) { print n; down(n - 1); } } down(3);"),
        lines(&["3", "2", "1"])
    );
}

#[test]
fn if_takes_then_branch() {
    assert_eq!(printed("if (1 < 2) print \"y\"; else print \"n\";"), lines(&["y"]));
}

#[test]
fn if_takes_else_branch() {
    assert_eq!(printed("if (2 < 1) print \"y\"; else print \"n\";"), lines(&["n"]));
}

#[test]
fn undefined_variable_points_at_name() {
    let (span, msg) = single_runtime_error("print a;");
    assert_eq!(span, (6, 7));
    assert!(msg.contains("Undefined variable"));
    assert_eq!(msg, "Undefined variable or function: a.");
}

#[test]
fn assigning_undefined_variable_fails() {
    let (span, msg) = single_runtime_error("b = 1;");
    assert_eq!(span, (0, 1));
    assert_eq!(msg, "Undefined variable: b.");
}

#[test]
fn calling_a_number_fails_at_paren() {
    let (span, msg) = single_runtime_error("1();");
    assert_eq!(msg, "Not a callable object.");
    assert_eq!(span, (2, 3));
}

#[test]
fn arity_mismatch_is_reported() {
    let (_, msg) = single_runtime_error("fn f(a, b) {} f(1);");
    assert_eq!(msg, "Expected 2 arguments but got 1.");
}

#[test]
fn native_arity_is_checked() {
    let (_, msg) = single_runtime_error("clock(1);");
    assert_eq!(msg, "Expected 0 arguments but got 1.");
}

#[test]
fn missing_close_paren_is_a_parser_error() {
    let (out, diagnostics) = run("(1 + 2");
    assert!(out.is_empty());
    assert_eq!(diagnostics.len(), 1);
    match &diagnostics[0] {
        CompileError::Parser(_, msg) => assert_eq!(msg, "Expect ')' after expression."),
        other => panic!("expected a parser diagnostic, got {:?}", other),
    }
}

#[test]
fn invalid_assignment_target_points_at_equals() {
    let (_, diagnostics) = run("1 = 2;");
    assert_eq!(diagnostics.len(), 1);
    match &diagnostics[0] {
        CompileError::Parser(span, msg) => {
            assert_eq!(msg, "Invalid assignment target");
            assert_eq!(*span, (2, 3));
        }
        other => panic!("expected a parser diagnostic, got {:?}", other),
    }
}

#[test]
fn bang_follows_truthiness() {
    assert_eq!(
        printed("print !nil; print !false; print !0; print !\"\";"),
        lines(&["true", "true", "false", "false"])
    );
}

#[test]
fn plus_joins_strings() {
    assert_eq!(printed("print \"a\" + \"b\";"), lines(&["ab"]));
}

#[test]
fn plus_on_number_and_string_fails() {
    let (_, msg) = single_runtime_error("print 1 + \"b\";");
    assert_eq!(msg, "No Add for Number and String");
    let (_, msg) = single_runtime_error("print \"b\" + 1;");
    assert_eq!(msg, "No Add for String and Number");
    let (_, msg) = single_runtime_error("print nil + 1;");
    assert_eq!(msg, "No Add for the given values");
}

#[test]
fn or_keeps_truthy_left_operand() {
    assert_eq!(
        printed("print 1 or 2; print nil or \"x\"; print \"s\" or false; print false and 1; print 1 and 2;"),
        lines(&["1", "x", "s", "false", "2"])
    );
}

#[test]
fn short_circuit_skips_right_operand() {
    assert_eq!(printed("var a = 1; true or (a = 2); print a;"), lines(&["1"]));
}

#[test]
fn parentheses_do_not_change_value() {
    assert_eq!(printed("print (1 + 2) * 3; print ((5)); print (5);"), lines(&["9", "5", "5"]));
}

#[test]
fn subtraction_is_left_associative() {
    assert_eq!(printed("print 1 - 2 - 3; print 8 / 4 / 2;"), lines(&["-4", "1"]));
}

#[test]
fn assignment_is_right_associative() {
    assert_eq!(printed("var a; var b; a = b = 3; print a; print b;"), lines(&["3", "3"]));
}

#[test]
fn comparison_binds_tighter_than_equality() {
    assert_eq!(printed("print 1 < 2 == true; print 1 + 1 == 2 and 3 > 2;"), lines(&["true", "true"]));
}

#[test]
fn for_loop_matches_its_desugaring() {
    let with_for = printed("for (var i = 0; i < 3; i = i + 1) print i;");
    let desugared = printed("{ var i = 0; while (i < 3) { print i; i = i + 1; } }");
    assert_eq!(with_for, lines(&["0", "1", "2"]));
    assert_eq!(with_for, desugared);
}

#[test]
fn for_loop_variable_is_scoped() {
    let (_, diagnostics) = run("for (var i = 0; i < 1; i = i + 1) {} print i;");
    assert_eq!(diagnostics.len(), 1);
}

#[test]
fn for_without_clauses_stops_at_fuel() {
    let mut interpreter = Interpreter::default();
    interpreter.set_fuel(5);
    let diagnostics = run_lines("for (;;) {}", &mut interpreter);
    assert_eq!(diagnostics.len(), 1);
    assert_eq!(diagnostics[0].message(), "Step limit reached");
}

#[test]
fn equality_is_structural_within_a_kind() {
    assert_eq!(
        printed("print 1 == 1; print \"a\" == \"a\"; print nil == nil; print 1 == \"1\"; print nil != false;"),
        lines(&["true", "true", "true", "false", "true"])
    );
}

#[test]
fn functions_are_never_equal() {
    assert_eq!(printed("fn f() {} print f == f;"), lines(&["false"]));
}

#[test]
fn callables_display() {
    assert_eq!(printed("fn f() {} print f; print clock;"), lines(&["<fn f>", "<native function>"]));
}

#[test]
fn clock_reads_the_given_time() {
    let mut interpreter = Interpreter::default();
    interpreter.set_clock(1_700_000_000_000);
    let diagnostics = run_lines("print clock();", &mut interpreter);
    assert!(diagnostics.is_empty());
    assert_eq!(interpreter.take_output(), lines(&["1700000000000"]));
}

#[test]
fn interpreter_keeps_state_between_lines() {
    let mut interpreter = Interpreter::default();
    assert!(run_lines("var a = 40;", &mut interpreter).is_empty());
    assert!(run_lines("fn add(x) { a = a + x; }", &mut interpreter).is_empty());
    assert!(run_lines("add(2); print a;", &mut interpreter).is_empty());
    assert_eq!(interpreter.take_output(), lines(&["42"]));
    assert!(interpreter.take_output().is_empty());
}

#[test]
fn runtime_error_stops_the_program() {
    let (out, diagnostics) = run("print 1; print x; print 2;");
    assert_eq!(out, lines(&["1"]));
    assert_eq!(diagnostics.len(), 1);
}

#[test]
fn division_by_zero_fails() {
    let (_, msg) = single_runtime_error("print 1 / 0;");
    assert_eq!(msg, "Division by zero");
}

#[test]
fn division_rounds_toward_zero() {
    assert_eq!(printed("print 7 / 2; print -7 / 2; print 7 / -2;"), lines(&["3", "-3", "-3"]));
}

#[test]
fn overflow_is_reported() {
    let (_, msg) = single_runtime_error("print 9223372036854775807 + 1;");
    assert_eq!(msg, "Number out of range");
    let (_, msg) = single_runtime_error("print 4611686018427387904 * 2;");
    assert_eq!(msg, "Number out of range");
}

#[test]
fn minus_reads_numeric_strings() {
    assert_eq!(printed("print -\"12\"; print -\"-3\"; print -5;"), lines(&["-12", "3", "-5"]));
    let (_, msg) = single_runtime_error("print -\"x\";");
    assert_eq!(msg, "Not a number");
    let (_, msg) = single_runtime_error("print -nil;");
    assert_eq!(msg, "No - for the given value.");
}

#[test]
fn arithmetic_needs_numbers() {
    let (span, msg) = single_runtime_error("print \"a\" - 1;");
    assert_eq!(msg, "No Sub for the given value");
    assert_eq!(span, (10, 11));
    let (_, msg) = single_runtime_error("print \"a\" * 1;");
    assert_eq!(msg, "No Mul for the given value");
    let (_, msg) = single_runtime_error("print true / 1;");
    assert_eq!(msg, "No Div for the given value");
    let (_, msg) = single_runtime_error("print \"a\" < 1;");
    assert_eq!(msg, "Operands must be numbers.");
}

#[test]
fn comments_are_skipped() {
    assert_eq!(printed("// a comment\nprint 1; // another\nprint 2 / 1;"), lines(&["1", "2"]));
}

#[test]
fn multiline_strings_are_kept() {
    assert_eq!(printed("print \"a\nb\";"), lines(&["a\nb"]));
}

#[test]
fn integral_decimal_literals_are_numbers() {
    assert_eq!(printed("print 1.0 + 2.00;"), lines(&["3"]));
}

#[test]
fn fractional_literals_are_rejected() {
    let (_, diagnostics) = run("print 1.5;");
    assert_eq!(diagnostics.len(), 1);
    match &diagnostics[0] {
        CompileError::Scanner(span, msg) => {
            assert_eq!(msg, "Not a number");
            assert_eq!(*span, (6, 9));
        }
        other => panic!("expected a scanner diagnostic, got {:?}", other),
    }
}

#[test]
fn scanner_errors_are_all_reported() {
    let (out, diagnostics) = run("print 1; @ # print 2;");
    assert!(out.is_empty());
    assert_eq!(diagnostics.len(), 2);
    match &diagnostics[0] {
        CompileError::Scanner(span, msg) => {
            assert_eq!(msg, "Unexpected char: @");
            assert_eq!(*span, (9, 10));
        }
        other => panic!("expected a scanner diagnostic, got {:?}", other),
    }
}

#[test]
fn reserved_words_are_not_identifiers() {
    let (_, diagnostics) = run("var class = 1;");
    assert_eq!(diagnostics.len(), 1);
    assert_eq!(diagnostics[0].message(), "Expect variable name.");
}

#[test]
fn unicode_identifiers_and_strings() {
    assert_eq!(printed("var é = \"ü\"; print é + \"!\";"), lines(&["ü!"]));
}

#[test]
fn long_loops_with_blocks_run() {
    assert_eq!(
        printed("var i = 0; var s = 0; while (i < 20000) { var d = i; s = s + d; i = i + 1; } print s;"),
        lines(&["199990000"])
    );
}

#[test]
fn closure_declared_in_block_keeps_its_scope() {
    assert_eq!(
        printed("var g; { var hidden = \"kept\"; fn f() { print hidden; } g = f; } { var other = 1; } g();"),
        lines(&["kept"])
    );
}
