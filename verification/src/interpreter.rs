//! The tree-walking evaluator.
//!
//! Expressions evaluate to tagged values (integer or boolean); statements
//! run against the scope chain and append to an output record. The whole
//! run is specified by a fuel-indexed mathematical interpreter
//! (`eval_expr_model`, `exec_stmt_model`, `exec_stmts_model`); the
//! executable interpreter provably produces exactly the outcome the
//! mathematical one describes. Fuel is spent once per loop iteration and
//! once per procedure call, the only two unbounded constructs, so a run
//! that diverges in the source language surfaces as `OutOfFuel` rather
//! than nontermination.

use vstd::prelude::*;

use crate::environment::{
    assign_var_model, lookup_proc_model, lookup_var_model, Environment, ScopeModel,
};
use crate::error::{RuntimeError, RuntimeErrorKind, RuntimeErrorModel};
use crate::expressions::{Expr, ExprModel};
use crate::parser::{clone_stmts, consts_model, lemma_stmts_model_ext, lemma_stmts_model_len,
    names_model, stmt_model, stmts_model, Stmt, StmtModel};
use crate::token::{clone_bytes, Literal, LiteralModel, TokenModel, TokenType};

verus! {

/// A value an expression evaluates to. `Ident` only arises from a literal
/// token that carries a name, which no parsed program produces; it is kept
/// so that every token payload has a value form.
#[derive(Debug)]
pub enum RuntimeValue {
    Value(i32),
    Ident(Vec<u8>),
    Boolean(bool),
}

/// The mathematical value of a `RuntimeValue`.
pub enum ValueModel {
    Value(i32),
    Ident(Seq<u8>),
    Boolean(bool),
}

impl View for RuntimeValue {
    type V = ValueModel;

    open spec fn view(&self) -> ValueModel {
        match self {
            RuntimeValue::Value(v) => ValueModel::Value(*v),
            RuntimeValue::Ident(n) => ValueModel::Ident(n@),
            RuntimeValue::Boolean(b) => ValueModel::Boolean(*b),
        }
    }
}

impl RuntimeValue {
    /// The value a literal token payload denotes.
    pub fn from_literal(literal: &Literal) -> (r: Self)
        ensures
            r@ == match literal@ {
                LiteralModel::Number(v) => ValueModel::Value(v),
                LiteralModel::Identifier(n) => ValueModel::Ident(n),
            },
    {
        match literal {
            Literal::Number(v) => Self::Value(*v),
            Literal::Identifier(i) => Self::Ident(clone_bytes(i)),
        }
    }

    /// The integer carried, if this is an integer value.
    pub fn as_value(&self) -> (r: Option<i32>)
        ensures
            r == (match self@ {
                ValueModel::Value(v) => Some(v),
                _ => None,
            }),
    {
        match self {
            Self::Value(v) => Some(*v),
            _ => None,
        }
    }

    /// The name carried, if this is an identifier value.
    pub fn as_ident(&self) -> (r: Option<Vec<u8>>)
        ensures
            match (r, self@) {
                (Some(n), ValueModel::Ident(m)) => n@ == m,
                (None, ValueModel::Value(_)) => true,
                (None, ValueModel::Boolean(_)) => true,
                _ => false,
            },
    {
        match self {
            Self::Ident(s) => Some(clone_bytes(s)),
            _ => None,
        }
    }

    /// The boolean carried, if this is a boolean value.
    pub fn as_bool(&self) -> (r: Option<bool>)
        ensures
            r == (match self@ {
                ValueModel::Boolean(b) => Some(b),
                _ => None,
            }),
    {
        match self {
            Self::Boolean(b) => Some(*b),
            _ => None,
        }
    }
}

/// One emitted line: a printed integer, or a variable's name with its
/// current value (`None` prints as the unassigned marker).
#[derive(Debug)]
pub enum OutputEvent {
    Print(i32),
    PrintVar(Vec<u8>, Option<i32>),
}

/// The mathematical value of an `OutputEvent`.
pub enum OutputEventModel {
    Print(i32),
    PrintVar(Seq<u8>, Option<i32>),
}

impl View for OutputEvent {
    type V = OutputEventModel;

    open spec fn view(&self) -> OutputEventModel {
        match self {
            OutputEvent::Print(v) => OutputEventModel::Print(*v),
            OutputEvent::PrintVar(n, v) => OutputEventModel::PrintVar(n@, *v),
        }
    }
}

/// The values of an output record, elementwise.
pub open spec fn out_model(s: Seq<OutputEvent>) -> Seq<OutputEventModel> {
    s.map(|_i: int, e: OutputEvent| e@)
}

/// A runtime error that concerns no particular name.
pub open spec fn anon_fault(kind: RuntimeErrorKind) -> RuntimeErrorModel {
    RuntimeErrorModel { kind, name: Seq::empty() }
}

/// A runtime error naming the binding it concerns.
pub open spec fn named_fault(kind: RuntimeErrorKind, name: Seq<u8>) -> RuntimeErrorModel {
    RuntimeErrorModel { kind, name }
}

/// Whether `v` is odd under truncating remainder: `v % 2` in the source
/// language is the remainder of truncating division, which is negative for
/// negative `v`, so no negative value tests odd.
pub open spec fn odd_of(v: i32) -> bool {
    v > 0 && v as int % 2 == 1
}

/// What an expression evaluates to against the scope chain `env`:
/// an integer or boolean value, or the first runtime error encountered.
/// Operands are evaluated left to right, and arithmetic is over the value
/// range of `i32`: a result outside it is an `ArithmeticFault`, as is
/// division by zero. Comparison operators take integers to booleans;
/// `odd` tests an integer; unary minus negates one.
pub open spec fn eval_expr_model(e: ExprModel, env: Seq<ScopeModel>) -> Result<
    ValueModel,
    RuntimeErrorModel,
>
    decreases e,
{
    match e {
        ExprModel::Literal(t) => match t.literal {
            Some(LiteralModel::Number(v)) => Ok(ValueModel::Value(v)),
            Some(LiteralModel::Identifier(n)) => Ok(ValueModel::Ident(n)),
            None => Err(anon_fault(RuntimeErrorKind::TypeMismatch)),
        },
        ExprModel::Grouping(inner) => eval_expr_model(*inner, env),
        ExprModel::Unary(op, inner) => match eval_expr_model(*inner, env) {
            Ok(ValueModel::Value(v)) => match op.kind {
                TokenType::MINUS => match (0i32).checked_sub(v) {
                    Some(n) => Ok(ValueModel::Value(n)),
                    None => Err(anon_fault(RuntimeErrorKind::ArithmeticFault)),
                },
                TokenType::ODD => Ok(ValueModel::Boolean(odd_of(v))),
                _ => Err(anon_fault(RuntimeErrorKind::TypeMismatch)),
            },
            Ok(_) => Err(anon_fault(RuntimeErrorKind::TypeMismatch)),
            Err(err) => Err(err),
        },
        ExprModel::Binary(lhs, op, rhs) => match eval_expr_model(*lhs, env) {
            Ok(ValueModel::Value(va)) => match eval_expr_model(*rhs, env) {
                Ok(ValueModel::Value(vb)) => eval_binary_model(op.kind, va, vb),
                Ok(_) => Err(anon_fault(RuntimeErrorKind::TypeMismatch)),
                Err(err) => Err(err),
            },
            Ok(_) => Err(anon_fault(RuntimeErrorKind::TypeMismatch)),
            Err(err) => Err(err),
        },
        ExprModel::Variable(name) => match lookup_var_model(env, name.lexeme) {
            None => Err(named_fault(RuntimeErrorKind::UnboundName, name.lexeme)),
            Some(None) => Err(named_fault(RuntimeErrorKind::UseOfUninitialized, name.lexeme)),
            Some(Some(v)) => Ok(ValueModel::Value(v)),
        },
        ExprModel::Assign(_, _) => Err(anon_fault(RuntimeErrorKind::TypeMismatch)),
    }
}

/// What a binary operator yields on two integers. `7 / 2` is `3`:
/// division truncates toward zero; `7 / 0` is an `ArithmeticFault`.
pub open spec fn eval_binary_model(op: TokenType, va: i32, vb: i32) -> Result<
    ValueModel,
    RuntimeErrorModel,
> {
    match op {
        TokenType::PLUS => match va.checked_add(vb) {
            Some(v) => Ok(ValueModel::Value(v)),
            None => Err(anon_fault(RuntimeErrorKind::ArithmeticFault)),
        },
        TokenType::MINUS => match va.checked_sub(vb) {
            Some(v) => Ok(ValueModel::Value(v)),
            None => Err(anon_fault(RuntimeErrorKind::ArithmeticFault)),
        },
        TokenType::STAR => match va.checked_mul(vb) {
            Some(v) => Ok(ValueModel::Value(v)),
            None => Err(anon_fault(RuntimeErrorKind::ArithmeticFault)),
        },
        TokenType::SLASH => match va.checked_div(vb) {
            Some(v) => Ok(ValueModel::Value(v)),
            None => Err(anon_fault(RuntimeErrorKind::ArithmeticFault)),
        },
        TokenType::EQU_EQU => Ok(ValueModel::Boolean(va == vb)),
        TokenType::BANG_EQU => Ok(ValueModel::Boolean(va != vb)),
        TokenType::LESS_EQU => Ok(ValueModel::Boolean(va <= vb)),
        TokenType::MORE_EQU => Ok(ValueModel::Boolean(va >= vb)),
        TokenType::LESS => Ok(ValueModel::Boolean(va < vb)),
        TokenType::MORE => Ok(ValueModel::Boolean(va > vb)),
        _ => Err(anon_fault(RuntimeErrorKind::TypeMismatch)),
    }
}


/// The machine states that statement execution moves between, and the
/// fuel-indexed mathematical interpreter, follow.
///
/// Declaring the constants of one declaration, first to last: each pair
/// must carry a number literal, and a name already bound as a constant at
/// the current level faults with `DoubleDeclaration` there and then.
pub open spec fn declare_consts_model(pairs: Seq<(TokenModel, TokenModel)>, st: RunState) -> ExecOutcome
    decreases pairs.len(),
{
    if pairs.len() == 0 {
        ExecOutcome::Done(st)
    } else {
        let name = pairs[0].0;
        let value = pairs[0].1;
        match value.literal {
            Some(LiteralModel::Number(v)) => if st.env.last().consts.contains_key(name.lexeme) {
                ExecOutcome::Fault(
                    st,
                    named_fault(RuntimeErrorKind::DoubleDeclaration, name.lexeme),
                )
            } else {
                declare_consts_model(
                    pairs.drop_first(),
                    RunState {
                        env: st.env.update(
                            st.env.len() - 1,
                            st.env.last().with_const(name.lexeme, v),
                        ),
                        ..st
                    },
                )
            },
            _ => ExecOutcome::Fault(st, anon_fault(RuntimeErrorKind::TypeMismatch)),
        }
    }
}

/// Declaring the variables of one declaration, first to last: a name
/// already declared as a variable at the current level faults with
/// `DoubleDeclaration` there and then.
pub open spec fn declare_vars_model(names: Seq<TokenModel>, st: RunState) -> ExecOutcome
    decreases names.len(),
{
    if names.len() == 0 {
        ExecOutcome::Done(st)
    } else {
        let name = names[0];
        if st.env.last().vars.contains_key(name.lexeme) {
            ExecOutcome::Fault(st, named_fault(RuntimeErrorKind::DoubleDeclaration, name.lexeme))
        } else {
            declare_vars_model(
                names.drop_first(),
                RunState {
                    env: st.env.update(
                        st.env.len() - 1,
                        st.env.last().with_var(name.lexeme, None),
                    ),
                    ..st
                },
            )
        }
    }
}

/// What executing one statement does to the machine state, with `fuel`
/// bounding the loop iterations and procedure calls still allowed.
///
/// Declarations bind in the current scope; `begin`..`end` runs its
/// statements in the same scope; a call runs the procedure's body in a
/// fresh child scope that is discarded when the call returns, also on a
/// fault. The first runtime error halts execution with the state reached
/// so far.
pub open spec fn exec_stmt_model(s: StmtModel, st: RunState, fuel: nat) -> ExecOutcome
    decreases fuel, s, 0int,
{
    match s {
        StmtModel::Proc(name, body) => if st.env.last().procs.contains_key(name.lexeme) {
            ExecOutcome::Fault(st, named_fault(RuntimeErrorKind::DoubleDeclaration, name.lexeme))
        } else {
            ExecOutcome::Done(
                RunState {
                    env: st.env.update(
                        st.env.len() - 1,
                        st.env.last().with_proc(name.lexeme, body),
                    ),
                    ..st
                },
            )
        },
        StmtModel::Const(pairs) => declare_consts_model(pairs, st),
        StmtModel::Var(names) => declare_vars_model(names, st),
        StmtModel::Print(e) => match eval_expr_model(e, st.env) {
            Ok(ValueModel::Value(v)) => ExecOutcome::Done(
                RunState { out: st.out.push(OutputEventModel::Print(v)), ..st },
            ),
            Ok(_) => ExecOutcome::Fault(st, anon_fault(RuntimeErrorKind::TypeMismatch)),
            Err(err) => ExecOutcome::Fault(st, err),
        },
        StmtModel::PrintVar(name) => match lookup_var_model(st.env, name.lexeme) {
            None => ExecOutcome::Fault(
                st,
                named_fault(RuntimeErrorKind::UnboundName, name.lexeme),
            ),
            Some(ov) => ExecOutcome::Done(
                RunState { out: st.out.push(OutputEventModel::PrintVar(name.lexeme, ov)), ..st },
            ),
        },
        StmtModel::Expression(e) => match eval_expr_model(e, st.env) {
            Ok(_) => ExecOutcome::Done(st),
            Err(err) => ExecOutcome::Fault(st, err),
        },
        StmtModel::Scope(body) => exec_stmts_model(body, st, fuel),
        StmtModel::Assign(name, e) => match eval_expr_model(e, st.env) {
            Ok(ValueModel::Value(v)) => match assign_var_model(st.env, name.lexeme, Some(v)) {
                Ok(env2) => ExecOutcome::Done(RunState { env: env2, ..st }),
                Err(kind) => ExecOutcome::Fault(st, named_fault(kind, name.lexeme)),
            },
            Ok(_) => ExecOutcome::Fault(st, anon_fault(RuntimeErrorKind::TypeMismatch)),
            Err(err) => ExecOutcome::Fault(st, err),
        },
        StmtModel::If(c, branch) => match eval_expr_model(c, st.env) {
            Ok(ValueModel::Boolean(true)) => exec_stmt_model(*branch, st, fuel),
            Ok(ValueModel::Boolean(false)) => ExecOutcome::Done(st),
            Ok(_) => ExecOutcome::Fault(st, anon_fault(RuntimeErrorKind::TypeMismatch)),
            Err(err) => ExecOutcome::Fault(st, err),
        },
        StmtModel::While(c, branch) => match eval_expr_model(c, st.env) {
            Ok(ValueModel::Boolean(false)) => ExecOutcome::Done(st),
            Ok(ValueModel::Boolean(true)) => if fuel == 0 {
                ExecOutcome::OutOfFuel(st)
            } else {
                match exec_stmt_model(*branch, st, (fuel - 1) as nat) {
                    ExecOutcome::Done(st2) => exec_stmt_model(s, st2, (fuel - 1) as nat),
                    other => other,
                }
            },
            Ok(_) => ExecOutcome::Fault(st, anon_fault(RuntimeErrorKind::TypeMismatch)),
            Err(err) => ExecOutcome::Fault(st, err),
        },
        StmtModel::Call(name) => match lookup_proc_model(st.env, name.lexeme) {
            None => ExecOutcome::Fault(
                st,
                named_fault(RuntimeErrorKind::UndefinedProcedure, name.lexeme),
            ),
            Some(body) => if fuel == 0 {
                ExecOutcome::OutOfFuel(st)
            } else {
                match exec_stmts_model(
                    body,
                    RunState { env: st.env.push(ScopeModel::empty()), ..st },
                    (fuel - 1) as nat,
                ) {
                    ExecOutcome::Done(st2) => ExecOutcome::Done(
                        RunState { env: st2.env.drop_last(), ..st2 },
                    ),
                    ExecOutcome::Fault(st2, err) => ExecOutcome::Fault(
                        RunState { env: st2.env.drop_last(), ..st2 },
                        err,
                    ),
                    ExecOutcome::OutOfFuel(st2) => ExecOutcome::OutOfFuel(
                        RunState { env: st2.env.drop_last(), ..st2 },
                    ),
                }
            },
        },
    }
}

/// What executing a statement sequence does: the statements run in order,
/// and the first fault or exhausted fuel budget stops the run.
pub open spec fn exec_stmts_model(ss: Seq<StmtModel>, st: RunState, fuel: nat) -> ExecOutcome
    decreases fuel, ss, 1int,
{
    if ss.len() == 0 {
        ExecOutcome::Done(st)
    } else {
        match exec_stmt_model(ss[0], st, fuel) {
            ExecOutcome::Done(st2) => exec_stmts_model(ss.drop_first(), st2, fuel),
            other => other,
        }
    }
}

/// The scope chain's length after the outcome `oc`.
pub open spec fn outcome_env_len(oc: ExecOutcome) -> int {
    match oc {
        ExecOutcome::Done(st) => st.env.len() as int,
        ExecOutcome::Fault(st, _) => st.env.len() as int,
        ExecOutcome::OutOfFuel(st) => st.env.len() as int,
    }
}

/// Declaring constants touches only the current scope's bindings.
pub proof fn lemma_declare_consts_len(pairs: Seq<(TokenModel, TokenModel)>, st: RunState)
    requires
        st.env.len() >= 1,
    ensures
        outcome_env_len(declare_consts_model(pairs, st)) == st.env.len(),
    decreases pairs.len(),
{
    if pairs.len() > 0 {
        let name = pairs[0].0;
        match pairs[0].1.literal {
            Some(LiteralModel::Number(v)) => {
                if !st.env.last().consts.contains_key(name.lexeme) {
                    lemma_declare_consts_len(
                        pairs.drop_first(),
                        RunState {
                            env: st.env.update(
                                st.env.len() - 1,
                                st.env.last().with_const(name.lexeme, v),
                            ),
                            ..st
                        },
                    );
                }
            },
            _ => {},
        }
    }
}

/// Declaring variables touches only the current scope's bindings.
pub proof fn lemma_declare_vars_len(names: Seq<TokenModel>, st: RunState)
    requires
        st.env.len() >= 1,
    ensures
        outcome_env_len(declare_vars_model(names, st)) == st.env.len(),
    decreases names.len(),
{
    if names.len() > 0 {
        let name = names[0];
        if !st.env.last().vars.contains_key(name.lexeme) {
            lemma_declare_vars_len(
                names.drop_first(),
                RunState {
                    env: st.env.update(
                        st.env.len() - 1,
                        st.env.last().with_var(name.lexeme, None),
                    ),
                    ..st
                },
            );
        }
    }
}

/// Statement execution keeps the scope chain's length: every pushed scope
/// is discarded by the call that pushed it, whatever the outcome.
pub proof fn lemma_exec_stmt_len(s: StmtModel, st: RunState, fuel: nat)
    requires
        st.env.len() >= 1,
    ensures
        outcome_env_len(exec_stmt_model(s, st, fuel)) == st.env.len(),
    decreases fuel, s, 0int,
{
    match s {
        StmtModel::Const(pairs) => {
            lemma_declare_consts_len(pairs, st);
        },
        StmtModel::Var(names) => {
            lemma_declare_vars_len(names, st);
        },
        StmtModel::Scope(body) => {
            lemma_exec_stmts_len(body, st, fuel);
        },
        StmtModel::Assign(name, e) => {
            crate::environment::lemma_assign_model_len(st.env, name.lexeme, match eval_expr_model(
                e,
                st.env,
            ) {
                Ok(ValueModel::Value(v)) => Some(v),
                _ => None,
            });
        },
        StmtModel::If(c, branch) => {
            if eval_expr_model(c, st.env) == Ok::<ValueModel, RuntimeErrorModel>(
                ValueModel::Boolean(true),
            ) {
                lemma_exec_stmt_len(*branch, st, fuel);
            }
        },
        StmtModel::While(c, branch) => {
            if eval_expr_model(c, st.env) == Ok::<ValueModel, RuntimeErrorModel>(
                ValueModel::Boolean(true),
            ) && fuel > 0 {
                lemma_exec_stmt_len(*branch, st, (fuel - 1) as nat);
                match exec_stmt_model(*branch, st, (fuel - 1) as nat) {
                    ExecOutcome::Done(st2) => {
                        lemma_exec_stmt_len(s, st2, (fuel - 1) as nat);
                    },
                    _ => {},
                }
            }
        },
        StmtModel::Call(name) => {
            match lookup_proc_model(st.env, name.lexeme) {
                Some(body) => {
                    if fuel > 0 {
                        lemma_exec_stmts_len(
                            body,
                            RunState { env: st.env.push(ScopeModel::empty()), ..st },
                            (fuel - 1) as nat,
                        );
                    }
                },
                None => {},
            }
        },
        _ => {},
    }
}

/// Statement-sequence execution keeps the scope chain's length.
pub proof fn lemma_exec_stmts_len(ss: Seq<StmtModel>, st: RunState, fuel: nat)
    requires
        st.env.len() >= 1,
    ensures
        outcome_env_len(exec_stmts_model(ss, st, fuel)) == st.env.len(),
    decreases fuel, ss, 1int,
{
    if ss.len() > 0 {
        lemma_exec_stmt_len(ss[0], st, fuel);
        match exec_stmt_model(ss[0], st, fuel) {
            ExecOutcome::Done(st2) => {
                lemma_exec_stmts_len(ss.drop_first(), st2, fuel);
            },
            _ => {},
        }
    }
}


/// Printing a declared-but-never-assigned variable always emits the
/// unassigned marker — the event carries `None`, never a numeric value —
/// and execution continues.
pub proof fn lemma_print_var_unassigned(st: RunState, name: TokenModel, fuel: nat)
    requires
        lookup_var_model(st.env, name.lexeme) == Some(None::<i32>),
    ensures
        exec_stmt_model(StmtModel::PrintVar(name), st, fuel) == ExecOutcome::Done(
            RunState { out: st.out.push(OutputEventModel::PrintVar(name.lexeme, None)), ..st },
        ),
{
}

/// Declaring a name that is already bound as a variable at the current
/// level faults with `DoubleDeclaration`, wherever in the declaration the
/// repetition stands.
pub proof fn lemma_declare_vars_known_dup(names: Seq<TokenModel>, st: RunState, j: int)
    requires
        st.env.len() >= 1,
        0 <= j < names.len(),
        st.env.last().vars.contains_key(names[j].lexeme),
    ensures
        match declare_vars_model(names, st) {
            ExecOutcome::Fault(_, e) => e.kind == RuntimeErrorKind::DoubleDeclaration,
            _ => false,
        },
    decreases names.len(),
{
    let name = names[0];
    if !st.env.last().vars.contains_key(name.lexeme) {
        let st2 = RunState {
            env: st.env.update(st.env.len() - 1, st.env.last().with_var(name.lexeme, None)),
            ..st
        };
        assert(st2.env.last() == st.env.last().with_var(name.lexeme, None));
        assert(names.drop_first()[j - 1] == names[j]);
        lemma_declare_vars_known_dup(names.drop_first(), st2, j - 1);
    }
}

/// Declaring the same variable name twice in one declaration always
/// faults with `DoubleDeclaration`, regardless of where in the
/// declaration the two occurrences stand.
pub proof fn lemma_double_declaration(names: Seq<TokenModel>, st: RunState, i: int, j: int)
    requires
        st.env.len() >= 1,
        0 <= i < j < names.len(),
        names[i].lexeme == names[j].lexeme,
    ensures
        match declare_vars_model(names, st) {
            ExecOutcome::Fault(_, e) => e.kind == RuntimeErrorKind::DoubleDeclaration,
            _ => false,
        },
    decreases names.len(),
{
    let name = names[0];
    if !st.env.last().vars.contains_key(name.lexeme) {
        let st2 = RunState {
            env: st.env.update(st.env.len() - 1, st.env.last().with_var(name.lexeme, None)),
            ..st
        };
        assert(st2.env.last() == st.env.last().with_var(name.lexeme, None));
        if i == 0 {
            assert(names.drop_first()[j - 1] == names[j]);
            assert(st2.env.last().vars.contains_key(names[j].lexeme));
            lemma_declare_vars_known_dup(names.drop_first(), st2, j - 1);
        } else {
            assert(names.drop_first()[i - 1] == names[i]);
            assert(names.drop_first()[j - 1] == names[j]);
            lemma_double_declaration(names.drop_first(), st2, i - 1, j - 1);
        }
    }
}

/// How an executable run's result and final state stand for a mathematical
/// outcome.
pub open spec fn matches_outcome(r: Result<(), Halt>, st: RunState, oc: ExecOutcome) -> bool {
    match r {
        Ok(()) => oc == ExecOutcome::Done(st),
        Err(Halt::Fault(e)) => oc == ExecOutcome::Fault(st, e@),
        Err(Halt::OutOfFuel) => oc == ExecOutcome::OutOfFuel(st),
    }
}

/// A runtime error value that concerns no particular name.
fn anon_error(kind: RuntimeErrorKind) -> (r: RuntimeError)
    ensures
        r@ == anon_fault(kind),
{
    let r = RuntimeError { kind, name: Vec::new() };
    proof {
        assert(r@.name =~= Seq::<u8>::empty());
    }
    r
}

/// The machine state a statement runs against: the scope chain and the
/// output emitted so far.
pub struct RunState {
    pub env: Seq<ScopeModel>,
    pub out: Seq<OutputEventModel>,
}

/// How a statement run ends: it completes, it halts on the first runtime
/// error, or the fuel budget is exhausted before it completes.
pub enum ExecOutcome {
    Done(RunState),
    Fault(RunState, RuntimeErrorModel),
    OutOfFuel(RunState),
}

/// What halts an executable run early: a runtime error, or an exhausted
/// fuel budget.
#[derive(Debug)]
pub enum Halt {
    Fault(RuntimeError),
    OutOfFuel,
}

/// The tree-walking interpreter: the scope chain it mutates and the output
/// record it appends to.
pub struct Interpreter {
    pub env: Environment,
    pub output: Vec<OutputEvent>,
}

impl Interpreter {
    /// The scope chain is well formed.
    pub open spec fn wf(&self) -> bool {
        self.env.wf()
    }

    /// The machine state this interpreter is in.
    pub open spec fn state(&self) -> RunState {
        RunState { env: self.env@, out: out_model(self.output@) }
    }

    /// A fresh interpreter: one empty root scope and no output.
    pub fn new() -> (r: Interpreter)
        ensures
            r.wf(),
            r.state().env =~= seq![ScopeModel::empty()],
            r.state().out =~= Seq::<OutputEventModel>::empty(),
    {
        let r = Interpreter { env: Environment::new(), output: Vec::new() };
        proof {
            assert(out_model(r.output@) =~= Seq::<OutputEventModel>::empty());
        }
        r
    }

    /// Evaluate `expr` against the scope chain, yielding exactly what
    /// `eval_expr_model` says.
    pub fn evaluate(&self, expr: &Expr) -> (r: Result<RuntimeValue, RuntimeError>)
        requires
            self.wf(),
        ensures
            match r {
                Ok(v) => eval_expr_model(expr@, self.env@) == Ok::<ValueModel, RuntimeErrorModel>(
                    v@,
                ),
                Err(e) => eval_expr_model(expr@, self.env@) == Err::<
                    ValueModel,
                    RuntimeErrorModel,
                >(e@),
            },
        decreases *expr,
    {
    match expr {
        Expr::Literal(t) => match &t.literal {
            Some(lit) => Ok(RuntimeValue::from_literal(lit)),
            None => Err(anon_error(RuntimeErrorKind::TypeMismatch)),
        },
        Expr::Grouping(inner) => self.evaluate(inner),
        Expr::Unary(op, inner) => {
            let v = match self.evaluate(inner)? {
                RuntimeValue::Value(v) => v,
                _ => {
                    return Err(anon_error(RuntimeErrorKind::TypeMismatch));
                },
            };
            match op.kind {
                TokenType::MINUS => match (0i32).checked_sub(v) {
                    Some(n) => Ok(RuntimeValue::Value(n)),
                    None => Err(anon_error(RuntimeErrorKind::ArithmeticFault)),
                },
                TokenType::ODD => {
                    let odd = if v > 0 {
                        v % 2 == 1
                    } else {
                        false
                    };
                    Ok(RuntimeValue::Boolean(odd))
                },
                _ => Err(anon_error(RuntimeErrorKind::TypeMismatch)),
            }
        },
        Expr::Binary(lhs, op, rhs) => {
            let va = match self.evaluate(lhs)? {
                RuntimeValue::Value(v) => v,
                _ => {
                    return Err(anon_error(RuntimeErrorKind::TypeMismatch));
                },
            };
            let vb = match self.evaluate(rhs)? {
                RuntimeValue::Value(v) => v,
                _ => {
                    return Err(anon_error(RuntimeErrorKind::TypeMismatch));
                },
            };
            match op.kind {
                TokenType::PLUS => match va.checked_add(vb) {
                    Some(v) => Ok(RuntimeValue::Value(v)),
                    None => Err(anon_error(RuntimeErrorKind::ArithmeticFault)),
                },
                TokenType::MINUS => match va.checked_sub(vb) {
                    Some(v) => Ok(RuntimeValue::Value(v)),
                    None => Err(anon_error(RuntimeErrorKind::ArithmeticFault)),
                },
                TokenType::STAR => match va.checked_mul(vb) {
                    Some(v) => Ok(RuntimeValue::Value(v)),
                    None => Err(anon_error(RuntimeErrorKind::ArithmeticFault)),
                },
                TokenType::SLASH => match va.checked_div(vb) {
                    Some(v) => Ok(RuntimeValue::Value(v)),
                    None => Err(anon_error(RuntimeErrorKind::ArithmeticFault)),
                },
                TokenType::EQU_EQU => Ok(RuntimeValue::Boolean(va == vb)),
                TokenType::BANG_EQU => Ok(RuntimeValue::Boolean(va != vb)),
                TokenType::LESS_EQU => Ok(RuntimeValue::Boolean(va <= vb)),
                TokenType::MORE_EQU => Ok(RuntimeValue::Boolean(va >= vb)),
                TokenType::LESS => Ok(RuntimeValue::Boolean(va < vb)),
                TokenType::MORE => Ok(RuntimeValue::Boolean(va > vb)),
                _ => Err(anon_error(RuntimeErrorKind::TypeMismatch)),
            }
        },
        Expr::Variable(name) => match self.env.get_var(name.clone()) {
            Ok(Some(v)) => Ok(RuntimeValue::Value(v)),
            Ok(None) => Err(
                RuntimeError {
                    kind: RuntimeErrorKind::UseOfUninitialized,
                    name: clone_bytes(&name.lexeme),
                },
            ),
            Err(e) => Err(e),
        },
            Expr::Assign(_, _) => Err(anon_error(RuntimeErrorKind::TypeMismatch)),
        }
    }

    /// Execute one statement with the fuel budget `fuel`, producing exactly
    /// the outcome `exec_stmt_model` describes for it.
    pub fn execute(&mut self, s: &Stmt, fuel: u64) -> (r: Result<(), Halt>)
        requires
            old(self).wf(),
        ensures
            final(self).wf(),
            matches_outcome(
                r,
                final(self).state(),
                exec_stmt_model(s@, old(self).state(), fuel as nat),
            ),
        decreases fuel, *s, 0int,
    {
        match s {
            Stmt::Proc(name, body) => {
                let b = clone_stmts(body);
                proof {
                    lemma_stmts_model_ext(b@, (**body)@);
                }
                match self.env.define_proc(name.clone(), b) {
                    Ok(()) => Ok(()),
                    Err(e) => Err(Halt::Fault(e)),
                }
            },
            Stmt::Const(pairs) => {
                let ghost full = consts_model(pairs@);
                let mut i: usize = 0;
                proof {
                    assert(full.skip(0) =~= full);
                }
                #[verifier::loop_isolation(false)]
                while i < pairs.len()
                    invariant
                        self.wf(),
                        i <= pairs@.len(),
                        full == consts_model(pairs@),
                        declare_consts_model(full, old(self).state()) == declare_consts_model(
                            full.skip(i as int),
                            self.state(),
                        ),
                    decreases pairs@.len() - i,
                {
                    proof {
                        assert(full[i as int] == (pairs@[i as int].0@, pairs@[i as int].1@));
                        assert(full.skip(i as int)[0] == full[i as int]);
                        assert(full.skip(i as int).drop_first() =~= full.skip(i + 1));
                    }
                    let value: i32 = match &pairs[i].1.literal {
                        Some(Literal::Number(v)) => *v,
                        _ => {
                            return Err(Halt::Fault(anon_error(RuntimeErrorKind::TypeMismatch)));
                        },
                    };
                    match self.env.declare_const(pairs[i].0.clone(), value) {
                        Ok(()) => {
                            i = i + 1;
                        },
                        Err(e) => {
                            return Err(Halt::Fault(e));
                        },
                    }
                }
                proof {
                    assert(full.skip(i as int) =~= Seq::<(TokenModel, TokenModel)>::empty());
                }
                Ok(())
            },
            Stmt::Var(names) => {
                let ghost full = names_model(names@);
                let mut i: usize = 0;
                proof {
                    assert(full.skip(0) =~= full);
                }
                #[verifier::loop_isolation(false)]
                while i < names.len()
                    invariant
                        self.wf(),
                        i <= names@.len(),
                        full == names_model(names@),
                        declare_vars_model(full, old(self).state()) == declare_vars_model(
                            full.skip(i as int),
                            self.state(),
                        ),
                    decreases names@.len() - i,
                {
                    proof {
                        assert(full[i as int] == names@[i as int]@);
                        assert(full.skip(i as int)[0] == full[i as int]);
                        assert(full.skip(i as int).drop_first() =~= full.skip(i + 1));
                    }
                    match self.env.declare_var(names[i].clone()) {
                        Ok(()) => {
                            i = i + 1;
                        },
                        Err(e) => {
                            return Err(Halt::Fault(e));
                        },
                    }
                }
                proof {
                    assert(full.skip(i as int) =~= Seq::<TokenModel>::empty());
                }
                Ok(())
            },
            Stmt::Print(e) => {
                match self.evaluate(e) {
                    Ok(RuntimeValue::Value(v)) => {
                        self.output.push(OutputEvent::Print(v));
                        proof {
                            assert(out_model(self.output@) =~= out_model(
                                old(self).output@,
                            ).push(OutputEventModel::Print(v)));
                        }
                        Ok(())
                    },
                    Ok(_) => Err(Halt::Fault(anon_error(RuntimeErrorKind::TypeMismatch))),
                    Err(e) => Err(Halt::Fault(e)),
                }
            },
            Stmt::PrintVar(name) => {
                match self.env.get_var(name.clone()) {
                    Ok(ov) => {
                        let shown = clone_bytes(&name.lexeme);
                        self.output.push(OutputEvent::PrintVar(shown, ov));
                        proof {
                            assert(out_model(self.output@) =~= out_model(
                                old(self).output@,
                            ).push(OutputEventModel::PrintVar(name@.lexeme, ov)));
                        }
                        Ok(())
                    },
                    Err(e) => Err(Halt::Fault(e)),
                }
            },
            Stmt::Expression(e) => {
                match self.evaluate(e) {
                    Ok(_) => Ok(()),
                    Err(e) => Err(Halt::Fault(e)),
                }
            },
            Stmt::Scope(body) => self.execute_block(body, fuel),
            Stmt::Assign(name, e) => {
                let v = match self.evaluate(e) {
                    Ok(RuntimeValue::Value(v)) => v,
                    Ok(_) => {
                        return Err(Halt::Fault(anon_error(RuntimeErrorKind::TypeMismatch)));
                    },
                    Err(e) => {
                        return Err(Halt::Fault(e));
                    },
                };
                match self.env.assign_var(name.clone(), Some(v)) {
                    Ok(()) => Ok(()),
                    Err(e) => Err(Halt::Fault(e)),
                }
            },
            Stmt::If(c, branch) => {
                match self.evaluate(c) {
                    Ok(RuntimeValue::Boolean(true)) => self.execute(branch, fuel),
                    Ok(RuntimeValue::Boolean(false)) => Ok(()),
                    Ok(_) => Err(Halt::Fault(anon_error(RuntimeErrorKind::TypeMismatch))),
                    Err(e) => Err(Halt::Fault(e)),
                }
            },
            Stmt::While(c, branch) => {
                let mut fuel_left = fuel;
                #[verifier::loop_isolation(false)]
                loop
                    invariant
                        self.wf(),
                        fuel_left <= fuel,
                        exec_stmt_model(s@, old(self).state(), fuel as nat) == exec_stmt_model(
                            s@,
                            self.state(),
                            fuel_left as nat,
                        ),
                    decreases fuel_left,
                {
                    match self.evaluate(c) {
                        Ok(RuntimeValue::Boolean(false)) => {
                            return Ok(());
                        },
                        Ok(RuntimeValue::Boolean(true)) => {
                            if fuel_left == 0 {
                                return Err(Halt::OutOfFuel);
                            }
                            fuel_left = fuel_left - 1;
                            match self.execute(branch, fuel_left) {
                                Ok(()) => (),
                                Err(h) => {
                                    return Err(h);
                                },
                            }
                        },
                        Ok(_) => {
                            return Err(Halt::Fault(anon_error(RuntimeErrorKind::TypeMismatch)));
                        },
                        Err(e) => {
                            return Err(Halt::Fault(e));
                        },
                    }
                }
            },
            Stmt::Call(name) => {
                let body = match self.env.get_proc(name.clone()) {
                    Ok(body) => body,
                    Err(e) => {
                        return Err(Halt::Fault(e));
                    },
                };
                if fuel == 0 {
                    return Err(Halt::OutOfFuel);
                }
                proof {
                    self.env.lemma_wf_nonempty();
                }
                self.env.from_parent();
                let r = self.execute_block(&body, fuel - 1);
                proof {
                    lemma_exec_stmts_len(
                        stmts_model(body@),
                        RunState {
                            env: old(self).state().env.push(ScopeModel::empty()),
                            out: old(self).state().out,
                        },
                        (fuel - 1) as nat,
                    );
                }
                self.env.discard_scope();
                match r {
                    Ok(()) => Ok(()),
                    Err(h) => Err(h),
                }
            },
        }
    }

    /// Execute the statements of `ss` in order with the fuel budget `fuel`,
    /// producing exactly the outcome `exec_stmts_model` describes.
    pub fn execute_block(&mut self, ss: &Vec<Stmt>, fuel: u64) -> (r: Result<(), Halt>)
        requires
            old(self).wf(),
        ensures
            final(self).wf(),
            matches_outcome(
                r,
                final(self).state(),
                exec_stmts_model(stmts_model(ss@), old(self).state(), fuel as nat),
            ),
        decreases fuel, *ss, 1int,
    {
        let ghost full = stmts_model(ss@);
        let mut i: usize = 0;
        proof {
            lemma_stmts_model_len(ss@);
            assert(full.skip(0) =~= full);
        }
        #[verifier::loop_isolation(false)]
        while i < ss.len()
            invariant
                self.wf(),
                i <= ss@.len(),
                full == stmts_model(ss@),
                full.len() == ss@.len(),
                forall|j: int| 0 <= j < ss@.len() ==> full[j] == stmt_model(#[trigger] ss@[j]),
                exec_stmts_model(full, old(self).state(), fuel as nat) == exec_stmts_model(
                    full.skip(i as int),
                    self.state(),
                    fuel as nat,
                ),
            decreases ss@.len() - i,
        {
            proof {
                assert(full.skip(i as int)[0] == full[i as int]);
                assert(full.skip(i as int).drop_first() =~= full.skip(i + 1));
            }
            match self.execute(&ss[i], fuel) {
                Ok(()) => {
                    i = i + 1;
                },
                Err(h) => {
                    return Err(h);
                },
            }
        }
        proof {
            assert(full.skip(i as int) =~= Seq::<StmtModel>::empty());
        }
        Ok(())
    }

    /// Run a parsed program with the fuel budget `fuel`: the statements in
    /// order, stopping at the first runtime error. The outcome and every
    /// emitted line are exactly what `exec_stmts_model` describes, so two
    /// runs of one program from one state produce the same output.
    pub fn interpret(&mut self, statements: Vec<Stmt>, fuel: u64) -> (r: Result<(), Halt>)
        requires
            old(self).wf(),
        ensures
            final(self).wf(),
            matches_outcome(
                r,
                final(self).state(),
                exec_stmts_model(stmts_model(statements@), old(self).state(), fuel as nat),
            ),
    {
        self.execute_block(&statements, fuel)
    }
}


} // verus!
