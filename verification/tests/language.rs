//! End-to-end runs of source programs through the whole pipeline.

use pl0::error::{DiagKind, RuntimeErrorKind};
use pl0::interpreter::OutputEvent;
use pl0::parser::{Parser, Stmt};
use pl0::scanner::Scanner;
use pl0::{run_source, RunVerdict, SourceRun};

fn run(src: &str) -> SourceRun {
    run_source(src.as_bytes().to_vec(), 100_000)
}

/// The printed integers of a run, failing on any other output line.
fn prints(r: &SourceRun) -> Vec<i32> {
    r.output
        .iter()
        .map(|e| match e {
            OutputEvent::Print(v) => *v,
            OutputEvent::PrintVar(_, _) => panic!("expected a plain print"),
        })
        .collect()
}

fn fault_kind(r: &SourceRun) -> RuntimeErrorKind {
    match &r.verdict {
        RunVerdict::Faulted(e) => e.kind,
        other => panic!("expected a runtime fault, got {:?}", other),
    }
}

#[test]
fn guarded_loop_counts_down() {
    // A pre-test loop over a constant guard prints 3, 2, 1 in that order.
    // (A block declares constants before variables and holds one statement,
    // so the count-down loop stands as the second block.)
    let src = "const ZERO=0; var n; n := 3 while n > ZERO do begin ! n; n := n - 1 end.";
    let r = run(src);
    assert!(r.diags.is_empty());
    assert!(matches!(r.verdict, RunVerdict::Completed));
    assert_eq!(prints(&r), vec![3, 2, 1]);
    // A second run of the same source produces the same print sequence.
    let r2 = run(src);
    assert_eq!(prints(&r2), vec![3, 2, 1]);
}

#[test]
fn division_truncates() {
    let r = run("! 7 / 2 .");
    assert!(matches!(r.verdict, RunVerdict::Completed));
    assert_eq!(prints(&r), vec![3]);
}

#[test]
fn division_truncates_toward_zero() {
    // Truncating division rounds toward zero also on a negative dividend.
    let r = run("! (0 - 7) / 2 .");
    assert!(matches!(r.verdict, RunVerdict::Completed));
    assert_eq!(prints(&r), vec![-3]);
}

#[test]
fn division_by_zero_faults() {
    let r = run("! 7 / 0 .");
    assert_eq!(fault_kind(&r), RuntimeErrorKind::ArithmeticFault);
}

#[test]
fn addition_overflow_faults() {
    let r = run("! 2147483647 + 1 .");
    assert_eq!(fault_kind(&r), RuntimeErrorKind::ArithmeticFault);
}

#[test]
fn print_unassigned_variable_shows_marker() {
    let r = run("var x; ? x .");
    assert!(matches!(r.verdict, RunVerdict::Completed));
    assert_eq!(r.output.len(), 1);
    match &r.output[0] {
        OutputEvent::PrintVar(name, value) => {
            assert_eq!(name.as_slice(), b"x");
            assert_eq!(*value, None);
        }
        other => panic!("expected a variable print, got {:?}", other),
    }
}

#[test]
fn print_assigned_variable_shows_value() {
    let r = run("var x; begin x := 41 + 1; ? x end.");
    assert!(matches!(r.verdict, RunVerdict::Completed));
    match &r.output[0] {
        OutputEvent::PrintVar(name, value) => {
            assert_eq!(name.as_slice(), b"x");
            assert_eq!(*value, Some(42));
        }
        other => panic!("expected a variable print, got {:?}", other),
    }
}

#[test]
fn reading_unassigned_variable_in_expression_faults() {
    let r = run("var x; ! x + 1 .");
    assert_eq!(fault_kind(&r), RuntimeErrorKind::UseOfUninitialized);
}

#[test]
fn double_declaration_in_one_list_faults() {
    let r = run("var x, x; ! 1 .");
    assert_eq!(fault_kind(&r), RuntimeErrorKind::DoubleDeclaration);
}

#[test]
fn double_declaration_across_blocks_faults() {
    // Both blocks declare into the same root scope.
    let r = run("var x; ! 1 var x; ! 2 .");
    assert_eq!(fault_kind(&r), RuntimeErrorKind::DoubleDeclaration);
}

#[test]
fn assigning_undeclared_name_faults() {
    let r = run("x := 1 .");
    assert_eq!(fault_kind(&r), RuntimeErrorKind::UnboundName);
}

#[test]
fn assigning_to_constant_faults() {
    let r = run("const LIMIT = 5; LIMIT := 1 .");
    assert_eq!(fault_kind(&r), RuntimeErrorKind::ConstAssignment);
}

#[test]
fn calling_undefined_procedure_faults() {
    let r = run("call missing .");
    assert_eq!(fault_kind(&r), RuntimeErrorKind::UndefinedProcedure);
}

#[test]
fn constants_are_readable() {
    let r = run("const TEN = 10, ONE = 1; ! TEN + ONE .");
    assert!(matches!(r.verdict, RunVerdict::Completed));
    assert_eq!(prints(&r), vec![11]);
}

#[test]
fn odd_test_selects_branch() {
    let r = run("if odd 3 then ! 1 .");
    assert_eq!(prints(&r), vec![1]);
    let r = run("if odd 4 then ! 1 .");
    assert_eq!(prints(&r), Vec::<i32>::new());
    // Under truncating remainder a negative value never tests odd.
    let r = run("if odd 0 - 3 then ! 1 .");
    assert_eq!(prints(&r), Vec::<i32>::new());
}

#[test]
fn unary_minus_negates() {
    let r = run("! -3 .");
    assert_eq!(prints(&r), vec![-3]);
}

#[test]
fn procedure_call_runs_body_in_child_scope() {
    // The call's body resolves the outer variable through the chain.
    let src = "var n; procedure dec; n := n - 1; begin n := 2; call dec; ! n end .";
    let r = run(src);
    assert!(matches!(r.verdict, RunVerdict::Completed));
    assert_eq!(prints(&r), vec![1]);
}

#[test]
fn inner_declaration_shadows_outer() {
    let src =
        "var x; procedure p; var x; begin x := 5; ! x end; begin x := 1; call p; ! x end .";
    let r = run(src);
    assert!(matches!(r.verdict, RunVerdict::Completed));
    assert_eq!(prints(&r), vec![5, 1]);
}

#[test]
fn recursive_procedure_counts_down() {
    // A procedure that calls itself under a guard terminates and prints
    // the same sequence every run.
    let src = "var n; procedure count; if n > 0 then begin ! n; n := n - 1; call count end; \
               begin n := 3; call count end .";
    let r = run(src);
    assert!(matches!(r.verdict, RunVerdict::Completed));
    assert_eq!(prints(&r), vec![3, 2, 1]);
    let r2 = run(src);
    assert_eq!(prints(&r2), vec![3, 2, 1]);
}

#[test]
fn unguarded_loop_runs_out_of_fuel() {
    let r = run_source(b"while 1 == 1 do ! 1 .".to_vec(), 10);
    assert!(matches!(r.verdict, RunVerdict::OutOfFuel));
}

#[test]
fn statements_execute_in_source_order() {
    let r = run("! 1 ! 2 ! 3 .");
    assert_eq!(prints(&r), vec![1, 2, 3]);
}

#[test]
fn malformed_block_is_discarded_but_later_block_survives() {
    // The first block's statement is malformed; the parser reports exactly
    // one structural error, synchronizes, and still parses the second
    // block, but interpretation is skipped entirely.
    let src = "! ; var y; begin y := 2; ! y end .";
    let mut scanner = Scanner::new(src.as_bytes().to_vec());
    let tokens = scanner.scan_tokens();
    assert!(scanner.diags.is_empty());
    let mut parser = Parser::new(tokens);
    let program = parser.parse();
    assert_eq!(parser.diags.len(), 1);
    assert_eq!(parser.diags[0].kind, DiagKind::ExpectedExpression);
    assert_eq!(program.len(), 2);
    assert!(matches!(program[0], Stmt::Var(_)));
    assert!(matches!(program[1], Stmt::Scope(_)));
    // Through the pipeline: the failure gates interpretation.
    let r = run(src);
    assert_eq!(r.diags.len(), 1);
    assert!(matches!(r.verdict, RunVerdict::Rejected));
    assert!(r.output.is_empty());
}

#[test]
fn parse_is_repeatable() {
    // Parsing the same token row twice yields the same statements.
    let src = "var a; begin a := 1; ! a end .";
    let parse_once = || {
        let mut scanner = Scanner::new(src.as_bytes().to_vec());
        let tokens = scanner.scan_tokens();
        let mut parser = Parser::new(tokens);
        parser.parse()
    };
    let first = parse_once();
    let second = parse_once();
    assert_eq!(first.len(), second.len());
    assert_eq!(first.len(), 2);
}

#[test]
fn missing_period_is_reported() {
    let r = run("! 1");
    assert_eq!(r.diags.len(), 1);
    assert_eq!(r.diags[0].kind, DiagKind::ExpectedProgramDot);
    assert!(matches!(r.verdict, RunVerdict::Rejected));
}

#[test]
fn unexpected_character_is_reported_and_skipped() {
    let r = run("@ ! 1 .");
    assert!(r.diags.iter().any(|d| d.kind == DiagKind::UnexpectedCharacter));
    assert!(matches!(r.verdict, RunVerdict::Rejected));
}

#[test]
fn lone_colon_is_reported() {
    let r = run("var x; x : 1 .");
    assert!(r.diags.iter().any(|d| d.kind == DiagKind::LoneColon));
    assert!(matches!(r.verdict, RunVerdict::Rejected));
}

#[test]
fn oversized_number_is_reported_but_scanning_continues() {
    let r = run("! 99999999999999999999 .");
    assert!(r.diags.iter().any(|d| d.kind == DiagKind::MalformedNumber));
    assert!(matches!(r.verdict, RunVerdict::Rejected));
}

#[test]
fn comment_runs_to_end_of_line() {
    let r = run("! 1 # this trailing note is skipped\n! 2 .");
    assert!(matches!(r.verdict, RunVerdict::Completed));
    assert_eq!(prints(&r), vec![1, 2]);
}

#[test]
fn comment_at_end_of_input_is_harmless() {
    let r = run("! 1 . # no newline after this");
    assert!(matches!(r.verdict, RunVerdict::Completed));
    assert_eq!(prints(&r), vec![1]);
}

#[test]
fn comparison_operators_compare() {
    let r = run("if 2 >= 2 then ! 1 if 2 <= 1 then ! 9 if 1 < 2 then ! 2 \
                 if 3 > 4 then ! 9 if 5 == 5 then ! 3 if 5 != 5 then ! 9 .");
    assert!(matches!(r.verdict, RunVerdict::Completed));
    assert_eq!(prints(&r), vec![1, 2, 3]);
}

#[test]
fn grouping_changes_precedence() {
    let r = run("! (1 + 2) * 3 .");
    assert_eq!(prints(&r), vec![9]);
    let r = run("! 1 + 2 * 3 .");
    assert_eq!(prints(&r), vec![7]);
}

#[test]
fn invalid_assignment_target_is_local_error() {
    // The bad target is reported but does not discard the block, so the
    // following well-formed statement of the same scope is still parsed.
    let src = "begin 1 + 1 := 5; ! 2 end .";
    let mut scanner = Scanner::new(src.as_bytes().to_vec());
    let tokens = scanner.scan_tokens();
    let mut parser = Parser::new(tokens);
    let program = parser.parse();
    assert_eq!(parser.diags.len(), 1);
    assert_eq!(parser.diags[0].kind, DiagKind::InvalidAssignmentTarget);
    assert_eq!(program.len(), 1);
    match &program[0] {
        Stmt::Scope(body) => assert_eq!(body.len(), 2),
        other => panic!("expected a scope, got {:?}", other),
    }
}
