//! An interpreter for a small block-structured imperative language with
//! variables, constants, nested procedures, conditionals, pre-test loops and
//! print statements, evaluated directly from source text.
//!
//! The pipeline is `scanner` (source bytes to tokens), `parser` (tokens to a
//! statement list, with error recovery), and `interpreter` (tree-walking
//! evaluation against the scope chain in `environment`). Each stage is
//! proved equal to a mathematical model of itself: `scan_model` for the
//! scanner, `p_parse` for the parser, and `exec_stmts_model` for the
//! interpreter, so what a program does is pinned down end to end by
//! `run_source`'s contract.

use vstd::prelude::*;

pub mod token;
pub mod error;
pub mod expressions;
pub mod scanner;
pub mod parser;
pub mod environment;
pub mod interpreter;

use crate::error::Diag;
use crate::interpreter::{
    exec_stmts_model, out_model, ExecOutcome, Halt, Interpreter, OutputEvent, RunState,
};
use crate::parser::{p_parse, tokens_wf, Parser};
use crate::scanner::{diags_model, lemma_scan_ends_eof, scan_model, tokens_model, Scanner};
use crate::environment::ScopeModel;

verus! {

/// The machine state a program starts in: one empty root scope, nothing
/// printed yet.
pub open spec fn initial_state() -> RunState {
    RunState { env: seq![ScopeModel::empty()], out: Seq::empty() }
}

/// How a run of a source file ended.
#[derive(Debug)]
pub enum RunVerdict {
    /// A lexical or parse error was found somewhere in the source, so
    /// interpretation was not attempted at all.
    Rejected,
    /// Every statement executed.
    Completed,
    /// Execution halted at the first runtime error.
    Faulted(crate::error::RuntimeError),
    /// The fuel budget ran out before the program completed.
    OutOfFuel,
}

/// Everything a run of a source file produced: the diagnostics collected
/// while scanning and parsing, the lines printed, and how the run ended.
pub struct SourceRun {
    pub diags: Vec<Diag>,
    pub output: Vec<OutputEvent>,
    pub verdict: RunVerdict,
}

/// Run a source file front to back: scan, parse, and — only when no
/// lexical or parse error was found anywhere — interpret, with `fuel`
/// bounding the loop iterations and procedure calls allowed.
///
/// The diagnostics are exactly those of the mathematical scan and parse of
/// the source, and the output and verdict are exactly what the mathematical
/// interpreter yields for the parsed program from the initial state.
pub fn run_source(source: Vec<u8>, fuel: u64) -> (r: SourceRun)
    ensures
        ({
            let sm = scan_model(source@, 0, 1);
            let pr = p_parse(sm.toks, 0);
            &&& diags_model(r.diags@) == sm.diags + pr.diags
            &&& (sm.diags + pr.diags).len() > 0 ==> r.verdict is Rejected && r.output@.len() == 0
            &&& (sm.diags + pr.diags).len() == 0 ==> match exec_stmts_model(
                pr.stmts,
                initial_state(),
                fuel as nat,
            ) {
                ExecOutcome::Done(st) => r.verdict is Completed && out_model(r.output@) == st.out,
                ExecOutcome::Fault(st, fault) => (match r.verdict {
                    RunVerdict::Faulted(e) => e@ == fault,
                    _ => false,
                }) && out_model(r.output@) == st.out,
                ExecOutcome::OutOfFuel(st) => r.verdict is OutOfFuel && out_model(r.output@)
                    == st.out,
            }
        }),
{
    let ghost src0 = source@;
    let ghost sm = scan_model(source@, 0, 1);
    let mut scanner = Scanner::new(source);
    let tokens = scanner.scan_tokens();
    proof {
        lemma_scan_ends_eof(src0, 0, 1);
        assert(tokens_model(tokens@) == sm.toks);
        assert(tokens_wf(tokens_model(tokens@)));
    }
    let mut parser = Parser::new(tokens);
    let program = parser.parse();
    let ghost pr = p_parse(sm.toks, 0);
    let mut diags = scanner.diags;
    let mut late = parser.diags;
    diags.append(&mut late);
    proof {
        assert(diags_model(diags@) =~= sm.diags + pr.diags);
    }
    if diags.len() > 0 {
        return SourceRun { diags, output: Vec::new(), verdict: RunVerdict::Rejected };
    }
    let mut runtime = Interpreter::new();
    proof {
        assert(runtime.state().env =~= initial_state().env);
        assert(runtime.state() == initial_state());
    }
    let outcome = runtime.interpret(program, fuel);
    let verdict = match outcome {
        Ok(()) => RunVerdict::Completed,
        Err(Halt::Fault(e)) => RunVerdict::Faulted(e),
        Err(Halt::OutOfFuel) => RunVerdict::OutOfFuel,
    };
    SourceRun { diags, output: runtime.output, verdict }
}

} // verus!
