//! The statement tree, and the recursive-descent parser that builds it.

use vstd::prelude::*;

use crate::expressions::{clone_expr, expr_model, Expr, ExprModel};
use crate::error::{Diag, DiagKind, DiagModel, ParseError};
use crate::scanner::{diags_model, tokens_model};
use crate::token::{clone_bytes, Token, TokenModel, TokenType};

verus! {

/// One statement. A program is a sequence of statements.
#[derive(Debug)]
pub enum Stmt {
    /// A procedure declaration: its name and its body.
    Proc(Token, Box<Vec<Stmt>>),
    /// A constant declaration: (name, number literal) pairs.
    Const(Vec<(Token, Token)>),
    /// A variable declaration: the declared names.
    Var(Vec<Token>),
    /// `!`: evaluate and emit an integer.
    Print(Expr),
    /// `?`: emit a variable's current value, or an unassigned marker.
    PrintVar(Token),
    /// Evaluate and discard the result.
    Expression(Expr),
    /// `begin` .. `end`: a statement sequence. It opens no new binding
    /// scope at evaluation time; only a procedure call does.
    Scope(Vec<Stmt>),
    /// Assign the value of an expression to a named variable.
    Assign(Token, Expr),
    /// Execute the branch only when the condition holds.
    If(Expr, Box<Stmt>),
    /// Re-evaluate the condition before every iteration of the body.
    While(Expr, Box<Stmt>),
    /// Call a named procedure.
    Call(Token),
}

/// The mathematical value of a `Stmt`.
pub enum StmtModel {
    Proc(TokenModel, Seq<StmtModel>),
    Const(Seq<(TokenModel, TokenModel)>),
    Var(Seq<TokenModel>),
    Print(ExprModel),
    PrintVar(TokenModel),
    Expression(ExprModel),
    Scope(Seq<StmtModel>),
    Assign(TokenModel, ExprModel),
    If(ExprModel, Box<StmtModel>),
    While(ExprModel, Box<StmtModel>),
    Call(TokenModel),
}

/// The values of a constant declaration's (name, number) pairs, pairwise.
pub open spec fn consts_model(pairs: Seq<(Token, Token)>) -> Seq<(TokenModel, TokenModel)> {
    pairs.map(|_i: int, p: (Token, Token)| (p.0@, p.1@))
}

/// The values of a row of name tokens, elementwise.
pub open spec fn names_model(names: Seq<Token>) -> Seq<TokenModel> {
    names.map(|_i: int, t: Token| t@)
}

/// The value of each node of `s`, token views included.
pub open spec fn stmt_model(s: Stmt) -> StmtModel
    decreases s,
{
    match s {
        Stmt::Proc(name, body) => StmtModel::Proc(name@, stmts_model((*body)@)),
        Stmt::Const(pairs) => StmtModel::Const(consts_model(pairs@)),
        Stmt::Var(names) => StmtModel::Var(names_model(names@)),
        Stmt::Print(e) => StmtModel::Print(expr_model(e)),
        Stmt::PrintVar(t) => StmtModel::PrintVar(t@),
        Stmt::Expression(e) => StmtModel::Expression(expr_model(e)),
        Stmt::Scope(body) => StmtModel::Scope(stmts_model(body@)),
        Stmt::Assign(t, e) => StmtModel::Assign(t@, expr_model(e)),
        Stmt::If(c, branch) => StmtModel::If(expr_model(c), Box::new(stmt_model(*branch))),
        Stmt::While(c, branch) => StmtModel::While(expr_model(c), Box::new(stmt_model(*branch))),
        Stmt::Call(t) => StmtModel::Call(t@),
    }
}

/// The values of a statement sequence, elementwise.
pub open spec fn stmts_model(v: Seq<Stmt>) -> Seq<StmtModel>
    decreases v,
{
    if v.len() == 0 {
        Seq::empty()
    } else {
        seq![stmt_model(v[0])] + stmts_model(v.drop_first())
    }
}

impl View for Stmt {
    type V = StmtModel;

    open spec fn view(&self) -> StmtModel {
        stmt_model(*self)
    }
}

/// Two statement lists with elementwise equal values have equal values.
pub proof fn lemma_stmts_model_ext(a: Seq<Stmt>, b: Seq<Stmt>)
    requires
        a.len() == b.len(),
        forall|i: int| 0 <= i < a.len() ==> (#[trigger] a[i])@ == b[i]@,
    ensures
        stmts_model(a) == stmts_model(b),
{
    lemma_stmts_model_len(a);
    lemma_stmts_model_len(b);
    assert forall|i: int| 0 <= i < a.len() implies stmts_model(a)[i] == stmts_model(b)[i] by {
        assert(a[i]@ == b[i]@);
    }
    assert(stmts_model(a) =~= stmts_model(b));
}

/// A copy of a statement whose value is known to be kept.
pub fn clone_stmt(s: &Stmt) -> (r: Stmt)
    ensures
        r@ == s@,
    decreases *s, 0int,
{
    match s {
        Stmt::Proc(name, body) => {
            let body2 = clone_stmts(body);
            proof {
                lemma_stmts_model_ext(body2@, (*body)@);
            }
            Stmt::Proc(name.clone(), Box::new(body2))
        },
        Stmt::Const(pairs) => {
            let mut out: Vec<(Token, Token)> = Vec::new();
            let mut i: usize = 0;
            while i < pairs.len()
                invariant
                    i <= pairs@.len(),
                    out@.len() == i,
                    forall|j: int|
                        0 <= j < i ==> (#[trigger] out@[j]).0@ == pairs@[j].0@ && out@[j].1@
                            == pairs@[j].1@,
                decreases pairs@.len() - i,
            {
                let pair = (pairs[i].0.clone(), pairs[i].1.clone());
                out.push(pair);
                i = i + 1;
            }
            proof {
                assert(consts_model(out@) =~= consts_model(pairs@));
            }
            Stmt::Const(out)
        },
        Stmt::Var(names) => {
            let mut out: Vec<Token> = Vec::new();
            let mut i: usize = 0;
            while i < names.len()
                invariant
                    i <= names@.len(),
                    out@.len() == i,
                    forall|j: int| 0 <= j < i ==> (#[trigger] out@[j])@ == names@[j]@,
                decreases names@.len() - i,
            {
                let t = names[i].clone();
                out.push(t);
                i = i + 1;
            }
            proof {
                assert(names_model(out@) =~= names_model(names@));
            }
            Stmt::Var(out)
        },
        Stmt::Print(e) => Stmt::Print(clone_expr(e)),
        Stmt::PrintVar(t) => Stmt::PrintVar(t.clone()),
        Stmt::Expression(e) => Stmt::Expression(clone_expr(e)),
        Stmt::Scope(body) => {
            let body2 = clone_stmts(body);
            proof {
                lemma_stmts_model_ext(body2@, body@);
            }
            Stmt::Scope(body2)
        },
        Stmt::Assign(t, e) => Stmt::Assign(t.clone(), clone_expr(e)),
        Stmt::If(c, branch) => Stmt::If(clone_expr(c), Box::new(clone_stmt(branch))),
        Stmt::While(c, branch) => Stmt::While(clone_expr(c), Box::new(clone_stmt(branch))),
        Stmt::Call(t) => Stmt::Call(t.clone()),
    }
}

/// A copy of a statement list whose values are known to be kept.
pub fn clone_stmts(v: &Vec<Stmt>) -> (r: Vec<Stmt>)
    ensures
        r@.len() == v@.len(),
        forall|j: int| 0 <= j < v@.len() ==> (#[trigger] r@[j])@ == v@[j]@,
    decreases *v, 1int,
{
    let mut out: Vec<Stmt> = Vec::new();
    let mut i: usize = 0;
    while i < v.len()
        invariant
            i <= v@.len(),
            out@.len() == i,
            forall|j: int| 0 <= j < i ==> (#[trigger] out@[j])@ == v@[j]@,
        decreases v@.len() - i,
    {
        let s = clone_stmt(&v[i]);
        out.push(s);
        i = i + 1;
    }
    out
}

impl Clone for Stmt {
    fn clone(&self) -> (res: Self)
        ensures
            res@ == self@,
    {
        clone_stmt(self)
    }
}


/// The token kinds that may open a new block, where error recovery resumes.
pub open spec fn starts_block(kind: TokenType) -> bool {
    kind == TokenType::CONST || kind == TokenType::VAR || kind == TokenType::PROCEDURE || kind
        == TokenType::BEGIN
}

/// Whether parsing has reached the end of the program: the closing period,
/// or the end of the input.
pub open spec fn p_at_end(toks: Seq<TokenModel>, pos: int) -> bool {
    toks[pos].kind == TokenType::DOT || toks[pos].kind == TokenType::EOF
}

/// Whether the token at `pos` has kind `kind` and is not the program's end.
pub open spec fn p_check(toks: Seq<TokenModel>, pos: int, kind: TokenType) -> bool {
    !p_at_end(toks, pos) && toks[pos].kind == kind
}

/// Whether the token at `pos` has one of the kinds in `kinds` (and is not
/// the program's end).
pub open spec fn p_match_any(toks: Seq<TokenModel>, pos: int, kinds: Seq<TokenType>) -> bool {
    !p_at_end(toks, pos) && kinds.contains(toks[pos].kind)
}

/// The diagnostic `kind` reported at the token at `pos`.
pub open spec fn p_diag(toks: Seq<TokenModel>, pos: int, kind: DiagKind) -> DiagModel {
    DiagModel {
        line: toks[pos].line,
        at_end: toks[pos].kind == TokenType::EOF,
        lexeme: toks[pos].lexeme,
        kind,
    }
}

/// `raw` where it lies within `lo..=hi`, and `lo` otherwise. The parser
/// only ever moves forward through the tokens; this bound makes that
/// manifest position by position.
pub open spec fn bounded(raw: int, lo: int, hi: int) -> int {
    if lo <= raw && raw <= hi {
        raw
    } else {
        lo
    }
}

/// Where one production of the grammar ended, the diagnostics it reported,
/// and what it produced — or that it failed, its diagnostics already
/// reported.
pub struct PStep<T> {
    pub pos: int,
    pub diags: Seq<DiagModel>,
    pub res: Result<T, ()>,
}

/// Where a block ended, its diagnostics, and the statements it produced;
/// a block never fails as a whole: a failed statement is recovered from by
/// synchronization.
pub struct BlockStep {
    pub pos: int,
    pub diags: Seq<DiagModel>,
    pub stmts: Seq<StmtModel>,
}

/// The statements and diagnostics of a whole parse.
pub struct ParseOut {
    pub stmts: Seq<StmtModel>,
    pub diags: Seq<DiagModel>,
}

/// A failed production at `pos` reporting one diagnostic there.
pub open spec fn p_fail<T>(toks: Seq<TokenModel>, pos: int, kind: DiagKind) -> PStep<T> {
    PStep { pos, diags: seq![p_diag(toks, pos, kind)], res: Err(()) }
}

/// factor := NUMBER | IDENT | '(' expression ')'
pub open spec fn p_primary(toks: Seq<TokenModel>, pos: int) -> PStep<ExprModel>
    decreases toks.len() - pos, 0int,
{
    if !(0 <= pos < toks.len()) {
        PStep { pos, diags: Seq::empty(), res: Err(()) }
    } else if p_check(toks, pos, TokenType::NUMBER) {
        PStep { pos: pos + 1, diags: Seq::empty(), res: Ok(ExprModel::Literal(toks[pos])) }
    } else if p_check(toks, pos, TokenType::IDENTIFIER) {
        PStep { pos: pos + 1, diags: Seq::empty(), res: Ok(ExprModel::Variable(toks[pos])) }
    } else if p_check(toks, pos, TokenType::LEFT_PAREN) {
        let e = p_expression(toks, pos + 1);
        match e.res {
            Ok(expr) => if p_check(toks, e.pos, TokenType::RIGHT_PAREN) {
                PStep {
                    pos: e.pos + 1,
                    diags: e.diags,
                    res: Ok(ExprModel::Grouping(Box::new(expr))),
                }
            } else {
                PStep {
                    pos: e.pos,
                    diags: e.diags + seq![p_diag(toks, e.pos, DiagKind::ExpectedRightParen)],
                    res: Err(()),
                }
            },
            Err(()) => PStep { pos: e.pos, diags: e.diags, res: Err(()) },
        }
    } else {
        p_fail(toks, pos, DiagKind::ExpectedExpression)
    }
}

/// The `('*'|'/') factor` repetition, folding onto `acc` from the left.
pub open spec fn p_factor_tail(toks: Seq<TokenModel>, pos: int, acc: ExprModel) -> PStep<ExprModel>
    decreases toks.len() - pos, 1int,
{
    if !(0 <= pos < toks.len()) {
        PStep { pos, diags: Seq::empty(), res: Err(()) }
    } else if p_match_any(toks, pos, seq![TokenType::STAR, TokenType::SLASH]) {
        let sub = p_primary(toks, pos + 1);
        match sub.res {
            Ok(right) => {
                let t = p_factor_tail(
                    toks,
                    bounded(sub.pos, pos + 1, toks.len() as int),
                    ExprModel::Binary(Box::new(acc), toks[pos], Box::new(right)),
                );
                PStep { pos: t.pos, diags: sub.diags + t.diags, res: t.res }
            },
            Err(()) => PStep { pos: sub.pos, diags: sub.diags, res: Err(()) },
        }
    } else {
        PStep { pos, diags: Seq::empty(), res: Ok(acc) }
    }
}

/// term := factor (('*'|'/') factor)*
pub open spec fn p_factor(toks: Seq<TokenModel>, pos: int) -> PStep<ExprModel>
    decreases toks.len() - pos, 2int,
{
    if !(0 <= pos < toks.len()) {
        PStep { pos, diags: Seq::empty(), res: Err(()) }
    } else {
        let sub = p_primary(toks, pos);
        match sub.res {
            Ok(first) => {
                let t = p_factor_tail(toks, bounded(sub.pos, pos, toks.len() as int), first);
                PStep { pos: t.pos, diags: sub.diags + t.diags, res: t.res }
            },
            Err(()) => PStep { pos: sub.pos, diags: sub.diags, res: Err(()) },
        }
    }
}

/// The `('+'|'-') term` repetition, folding onto `acc` from the left.
pub open spec fn p_expr_tail(toks: Seq<TokenModel>, pos: int, acc: ExprModel) -> PStep<ExprModel>
    decreases toks.len() - pos, 3int,
{
    if !(0 <= pos < toks.len()) {
        PStep { pos, diags: Seq::empty(), res: Err(()) }
    } else if p_match_any(toks, pos, seq![TokenType::MINUS, TokenType::PLUS]) {
        let sub = p_factor(toks, pos + 1);
        match sub.res {
            Ok(right) => {
                let t = p_expr_tail(
                    toks,
                    bounded(sub.pos, pos + 1, toks.len() as int),
                    ExprModel::Binary(Box::new(acc), toks[pos], Box::new(right)),
                );
                PStep { pos: t.pos, diags: sub.diags + t.diags, res: t.res }
            },
            Err(()) => PStep { pos: sub.pos, diags: sub.diags, res: Err(()) },
        }
    } else {
        PStep { pos, diags: Seq::empty(), res: Ok(acc) }
    }
}

/// expression := ('+'|'-')? term (('+'|'-') term)*
pub open spec fn p_expression(toks: Seq<TokenModel>, pos: int) -> PStep<ExprModel>
    decreases toks.len() - pos, 4int,
{
    if !(0 <= pos < toks.len()) {
        PStep { pos, diags: Seq::empty(), res: Err(()) }
    } else {
        let prefixed = p_match_any(toks, pos, seq![TokenType::MINUS, TokenType::PLUS]);
        let p0 = if prefixed {
            pos + 1
        } else {
            pos
        };
        let sub = p_factor(toks, p0);
        match sub.res {
            Ok(first) => {
                let acc = if prefixed {
                    ExprModel::Unary(toks[pos], Box::new(first))
                } else {
                    first
                };
                let t = p_expr_tail(toks, bounded(sub.pos, p0, toks.len() as int), acc);
                PStep { pos: t.pos, diags: sub.diags + t.diags, res: t.res }
            },
            Err(()) => PStep { pos: sub.pos, diags: sub.diags, res: Err(()) },
        }
    }
}

/// The comparison kinds of the `condition` production.
pub open spec fn comparison_kinds() -> Seq<TokenType> {
    seq![
        TokenType::BANG_EQU,
        TokenType::EQU_EQU,
        TokenType::LESS,
        TokenType::LESS_EQU,
        TokenType::MORE,
        TokenType::MORE_EQU,
    ]
}

/// expression relOp expression
pub open spec fn p_equality(toks: Seq<TokenModel>, pos: int) -> PStep<ExprModel>
    decreases toks.len() - pos, 5int,
{
    if !(0 <= pos < toks.len()) {
        PStep { pos, diags: Seq::empty(), res: Err(()) }
    } else {
        let l = p_expression(toks, pos);
        match l.res {
            Ok(left) => if p_match_any(toks, l.pos, comparison_kinds()) {
                let r = p_expression(toks, bounded(l.pos + 1, pos + 1, toks.len() as int));
                match r.res {
                    Ok(right) => PStep {
                        pos: r.pos,
                        diags: l.diags + r.diags,
                        res: Ok(
                            ExprModel::Binary(Box::new(left), toks[l.pos], Box::new(right)),
                        ),
                    },
                    Err(()) => PStep { pos: r.pos, diags: l.diags + r.diags, res: Err(()) },
                }
            } else {
                PStep {
                    pos: l.pos,
                    diags: l.diags + seq![
                        p_diag(toks, l.pos, DiagKind::ExpectedComparisonOperator),
                    ],
                    res: Err(()),
                }
            },
            Err(()) => PStep { pos: l.pos, diags: l.diags, res: Err(()) },
        }
    }
}

/// condition := 'odd' expression | expression relOp expression
pub open spec fn p_condition(toks: Seq<TokenModel>, pos: int) -> PStep<ExprModel>
    decreases toks.len() - pos, 6int,
{
    if !(0 <= pos < toks.len()) {
        PStep { pos, diags: Seq::empty(), res: Err(()) }
    } else if p_check(toks, pos, TokenType::ODD) {
        let e = p_expression(toks, pos + 1);
        match e.res {
            Ok(expr) => PStep {
                pos: e.pos,
                diags: e.diags,
                res: Ok(ExprModel::Unary(toks[pos], Box::new(expr))),
            },
            Err(()) => PStep { pos: e.pos, diags: e.diags, res: Err(()) },
        }
    } else {
        p_equality(toks, pos)
    }
}

/// assignOrExpr := expression (':=' expression)?
///
/// An assignment whose target is not a variable reference is reported but
/// kept as a bare expression statement: this does not discard the block.
pub open spec fn p_assignment_or_expr(toks: Seq<TokenModel>, pos: int) -> PStep<StmtModel>
    decreases toks.len() - pos, 7int,
{
    if !(0 <= pos < toks.len()) {
        PStep { pos, diags: Seq::empty(), res: Err(()) }
    } else {
        let e = p_expression(toks, pos);
        match e.res {
            Ok(lhs) => if p_check(toks, e.pos, TokenType::COLON_EQU) {
                let v = p_expression(toks, bounded(e.pos + 1, pos + 1, toks.len() as int));
                match v.res {
                    Ok(value) => match lhs {
                        ExprModel::Variable(name) => PStep {
                            pos: v.pos,
                            diags: e.diags + v.diags,
                            res: Ok(StmtModel::Assign(name, value)),
                        },
                        _ => PStep {
                            pos: v.pos,
                            diags: e.diags + v.diags + seq![
                                p_diag(toks, v.pos, DiagKind::InvalidAssignmentTarget),
                            ],
                            res: Ok(StmtModel::Expression(lhs)),
                        },
                    },
                    Err(()) => PStep { pos: v.pos, diags: e.diags + v.diags, res: Err(()) },
                }
            } else {
                PStep { pos: e.pos, diags: e.diags, res: Ok(StmtModel::Expression(lhs)) }
            },
            Err(()) => PStep { pos: e.pos, diags: e.diags, res: Err(()) },
        }
    }
}

/// statement := scope | print | printVar | ifStmt | callStmt | whileStmt
///            | assignOrExpr
pub open spec fn p_statement(toks: Seq<TokenModel>, pos: int) -> PStep<StmtModel>
    decreases toks.len() - pos, 8int,
{
    if !(0 <= pos < toks.len()) {
        PStep { pos, diags: Seq::empty(), res: Err(()) }
    } else if p_check(toks, pos, TokenType::BEGIN) {
        p_scope(toks, pos + 1)
    } else if p_check(toks, pos, TokenType::BANG) {
        let e = p_expression(toks, pos + 1);
        match e.res {
            Ok(expr) => PStep { pos: e.pos, diags: e.diags, res: Ok(StmtModel::Print(expr)) },
            Err(()) => PStep { pos: e.pos, diags: e.diags, res: Err(()) },
        }
    } else if p_check(toks, pos, TokenType::QMARK) {
        if p_check(toks, pos + 1, TokenType::IDENTIFIER) {
            PStep {
                pos: pos + 2,
                diags: Seq::empty(),
                res: Ok(StmtModel::PrintVar(toks[pos + 1])),
            }
        } else {
            PStep {
                pos: pos + 1,
                diags: seq![p_diag(toks, pos + 1, DiagKind::ExpectedPrintVarName)],
                res: Err(()),
            }
        }
    } else if p_check(toks, pos, TokenType::IF) {
        p_if_statement(toks, pos + 1)
    } else if p_check(toks, pos, TokenType::CALL) {
        if p_check(toks, pos + 1, TokenType::IDENTIFIER) {
            PStep { pos: pos + 2, diags: Seq::empty(), res: Ok(StmtModel::Call(toks[pos + 1])) }
        } else {
            PStep {
                pos: pos + 1,
                diags: seq![p_diag(toks, pos + 1, DiagKind::ExpectedCallName)],
                res: Err(()),
            }
        }
    } else if p_check(toks, pos, TokenType::WHILE) {
        p_while_statement(toks, pos + 1)
    } else {
        p_assignment_or_expr(toks, pos)
    }
}

/// ifStmt := condition 'then' statement (after the consumed `if`).
pub open spec fn p_if_statement(toks: Seq<TokenModel>, pos: int) -> PStep<StmtModel>
    decreases toks.len() - pos, 9int,
{
    if !(0 <= pos < toks.len()) {
        PStep { pos, diags: Seq::empty(), res: Err(()) }
    } else {
        let c = p_condition(toks, pos);
        match c.res {
            Ok(cond) => if p_check(toks, c.pos, TokenType::THEN) {
                let s = p_statement(toks, bounded(c.pos + 1, pos + 1, toks.len() as int));
                match s.res {
                    Ok(branch) => PStep {
                        pos: s.pos,
                        diags: c.diags + s.diags,
                        res: Ok(StmtModel::If(cond, Box::new(branch))),
                    },
                    Err(()) => PStep { pos: s.pos, diags: c.diags + s.diags, res: Err(()) },
                }
            } else {
                PStep {
                    pos: c.pos,
                    diags: c.diags + seq![p_diag(toks, c.pos, DiagKind::ExpectedThenToken)],
                    res: Err(()),
                }
            },
            Err(()) => PStep { pos: c.pos, diags: c.diags, res: Err(()) },
        }
    }
}

/// whileStmt := condition 'do' statement (after the consumed `while`).
pub open spec fn p_while_statement(toks: Seq<TokenModel>, pos: int) -> PStep<StmtModel>
    decreases toks.len() - pos, 9int,
{
    if !(0 <= pos < toks.len()) {
        PStep { pos, diags: Seq::empty(), res: Err(()) }
    } else {
        let c = p_condition(toks, pos);
        match c.res {
            Ok(cond) => if p_check(toks, c.pos, TokenType::DO) {
                let s = p_statement(toks, bounded(c.pos + 1, pos + 1, toks.len() as int));
                match s.res {
                    Ok(branch) => PStep {
                        pos: s.pos,
                        diags: c.diags + s.diags,
                        res: Ok(StmtModel::While(cond, Box::new(branch))),
                    },
                    Err(()) => PStep { pos: s.pos, diags: c.diags + s.diags, res: Err(()) },
                }
            } else {
                PStep {
                    pos: c.pos,
                    diags: c.diags + seq![p_diag(toks, c.pos, DiagKind::ExpectedDoToken)],
                    res: Err(()),
                }
            },
            Err(()) => PStep { pos: c.pos, diags: c.diags, res: Err(()) },
        }
    }
}

/// The statements of a `begin`..`end` scope after the first, each opened by
/// a `;`. The scope closes at `end`; reaching the program's end leaves it
/// silently closed.
pub open spec fn p_scope_items(toks: Seq<TokenModel>, pos: int, acc: Seq<StmtModel>) -> PStep<
    StmtModel,
>
    decreases toks.len() - pos, 9int,
{
    if !(0 <= pos < toks.len()) {
        PStep { pos, diags: Seq::empty(), res: Err(()) }
    } else if p_at_end(toks, pos) {
        PStep { pos, diags: Seq::empty(), res: Ok(StmtModel::Scope(acc)) }
    } else if toks[pos].kind == TokenType::SEMICOLON {
        if toks[pos + 1].kind == TokenType::END {
            PStep { pos: pos + 2, diags: Seq::empty(), res: Ok(StmtModel::Scope(acc)) }
        } else {
            let s = p_statement(toks, bounded(pos + 1, pos + 1, toks.len() as int));
            match s.res {
                Ok(st) => {
                    let t = p_scope_items(
                        toks,
                        bounded(s.pos, pos + 1, toks.len() as int),
                        acc.push(st),
                    );
                    PStep { pos: t.pos, diags: s.diags + t.diags, res: t.res }
                },
                Err(()) => PStep { pos: s.pos, diags: s.diags, res: Err(()) },
            }
        }
    } else if p_check(toks, pos, TokenType::END) {
        PStep { pos: pos + 1, diags: Seq::empty(), res: Ok(StmtModel::Scope(acc)) }
    } else {
        p_fail(toks, pos, DiagKind::ExpectedEndToken)
    }
}

/// scope := 'begin' statement (';' statement)* 'end' (after the consumed
/// `begin`).
pub open spec fn p_scope(toks: Seq<TokenModel>, pos: int) -> PStep<StmtModel>
    decreases toks.len() - pos, 10int,
{
    if !(0 <= pos < toks.len()) {
        PStep { pos, diags: Seq::empty(), res: Err(()) }
    } else {
        let s = p_statement(toks, pos);
        match s.res {
            Ok(first) => {
                let t = p_scope_items(
                    toks,
                    bounded(s.pos, pos, toks.len() as int),
                    seq![first],
                );
                PStep { pos: t.pos, diags: s.diags + t.diags, res: t.res }
            },
            Err(()) => PStep { pos: s.pos, diags: s.diags, res: Err(()) },
        }
    }
}

/// constDecl := IDENT '=' NUMBER (',' IDENT '=' NUMBER)* ';' (after the
/// consumed `const`), collecting the (name, value) pairs onto `acc`.
pub open spec fn p_const_items(
    toks: Seq<TokenModel>,
    pos: int,
    acc: Seq<(TokenModel, TokenModel)>,
) -> PStep<StmtModel>
    decreases toks.len() - pos, 0int,
{
    if !(0 <= pos < toks.len()) {
        PStep { pos, diags: Seq::empty(), res: Err(()) }
    } else if !p_check(toks, pos, TokenType::IDENTIFIER) {
        p_fail(toks, pos, DiagKind::ExpectedConstName)
    } else if !p_check(toks, pos + 1, TokenType::EQU) {
        PStep {
            pos: pos + 1,
            diags: seq![p_diag(toks, pos + 1, DiagKind::ExpectedEquAfterConstName)],
            res: Err(()),
        }
    } else if !p_check(toks, pos + 2, TokenType::NUMBER) {
        PStep {
            pos: pos + 2,
            diags: seq![p_diag(toks, pos + 2, DiagKind::ExpectedConstValue)],
            res: Err(()),
        }
    } else {
        let acc2 = acc.push((toks[pos], toks[pos + 2]));
        if p_check(toks, pos + 3, TokenType::COMMA) {
            p_const_items(toks, bounded(pos + 4, pos + 1, toks.len() as int), acc2)
        } else if p_check(toks, pos + 3, TokenType::SEMICOLON) {
            PStep { pos: pos + 4, diags: Seq::empty(), res: Ok(StmtModel::Const(acc2)) }
        } else {
            PStep {
                pos: pos + 3,
                diags: seq![p_diag(toks, pos + 3, DiagKind::ExpectedSemicolonAfterConstDecl)],
                res: Err(()),
            }
        }
    }
}

/// The names of a variable declaration after the first, each opened by a
/// `,`, closed by `;` (after the consumed `var` and first name).
pub open spec fn p_var_items(toks: Seq<TokenModel>, pos: int, acc: Seq<TokenModel>) -> PStep<
    StmtModel,
>
    decreases toks.len() - pos, 0int,
{
    if !(0 <= pos < toks.len()) {
        PStep { pos, diags: Seq::empty(), res: Err(()) }
    } else if p_check(toks, pos, TokenType::COMMA) {
        if p_check(toks, pos + 1, TokenType::IDENTIFIER) {
            p_var_items(toks, bounded(pos + 2, pos + 1, toks.len() as int), acc.push(toks[pos + 1]))
        } else {
            PStep {
                pos: pos + 1,
                diags: seq![p_diag(toks, pos + 1, DiagKind::ExpectedVarNameAfterComma)],
                res: Err(()),
            }
        }
    } else if p_check(toks, pos, TokenType::SEMICOLON) {
        PStep { pos: pos + 1, diags: Seq::empty(), res: Ok(StmtModel::Var(acc)) }
    } else {
        p_fail(toks, pos, DiagKind::ExpectedSemicolonAfterVarDecl)
    }
}

/// varDecl := IDENT (',' IDENT)* ';' (after the consumed `var`).
pub open spec fn p_var_decl(toks: Seq<TokenModel>, pos: int) -> PStep<StmtModel>
    decreases toks.len() - pos, 1int,
{
    if !(0 <= pos < toks.len()) {
        PStep { pos, diags: Seq::empty(), res: Err(()) }
    } else if !p_check(toks, pos, TokenType::IDENTIFIER) {
        p_fail(toks, pos, DiagKind::ExpectedVarName)
    } else {
        p_var_items(toks, bounded(pos + 1, pos + 1, toks.len() as int), seq![toks[pos]])
    }
}

/// Error recovery: discard tokens until one that starts a new block, having
/// stepped over the token the failure was reported at.
pub open spec fn p_sync_loop(toks: Seq<TokenModel>, pos: int) -> int
    decreases toks.len() - pos, 0int,
{
    if !(0 <= pos < toks.len()) {
        pos
    } else if p_at_end(toks, pos) || starts_block(toks[pos].kind) {
        pos
    } else {
        p_sync_loop(toks, pos + 1)
    }
}

/// Synchronization after a structural error: step past the offending token,
/// then discard up to the next block start.
pub open spec fn p_synchronise(toks: Seq<TokenModel>, pos: int) -> int
    decreases toks.len() - pos, 1int,
{
    if !(0 <= pos < toks.len()) {
        pos
    } else if p_at_end(toks, pos) {
        pos
    } else {
        p_sync_loop(toks, bounded(pos + 1, pos + 1, toks.len() as int))
    }
}

/// procDecl := IDENT ';' block ';' (after the consumed `procedure`).
pub open spec fn p_proc_declaration(toks: Seq<TokenModel>, pos: int) -> PStep<StmtModel>
    decreases toks.len() - pos, 13int,
{
    if !(0 <= pos < toks.len()) {
        PStep { pos, diags: Seq::empty(), res: Err(()) }
    } else if !p_check(toks, pos, TokenType::IDENTIFIER) {
        p_fail(toks, pos, DiagKind::ExpectedProcedureName)
    } else if !p_check(toks, pos + 1, TokenType::SEMICOLON) {
        PStep {
            pos: pos + 1,
            diags: seq![p_diag(toks, pos + 1, DiagKind::ExpectedSemicolonAfterProcedureName)],
            res: Err(()),
        }
    } else {
        let b = p_block(toks, bounded(pos + 2, pos + 1, toks.len() as int));
        if p_check(toks, b.pos, TokenType::SEMICOLON) {
            PStep {
                pos: b.pos + 1,
                diags: b.diags,
                res: Ok(StmtModel::Proc(toks[pos], b.stmts)),
            }
        } else {
            PStep {
                pos: b.pos,
                diags: b.diags + seq![
                    p_diag(toks, b.pos, DiagKind::ExpectedSemicolonAfterProcedureBlock),
                ],
                res: Err(()),
            }
        }
    }
}

/// The `('procedure' procDecl)*` repetition of a block. A failed
/// declaration's statement is dropped; its diagnostics remain.
pub open spec fn p_block_procs(toks: Seq<TokenModel>, pos: int) -> BlockStep
    decreases toks.len() - pos, 14int,
{
    if !(0 <= pos < toks.len()) {
        BlockStep { pos, diags: Seq::empty(), stmts: Seq::empty() }
    } else if p_check(toks, pos, TokenType::PROCEDURE) {
        let pd = p_proc_declaration(toks, pos + 1);
        let rest = p_block_procs(toks, bounded(pd.pos, pos + 1, toks.len() as int));
        BlockStep {
            pos: rest.pos,
            diags: pd.diags + rest.diags,
            stmts: (match pd.res {
                Ok(st) => seq![st],
                Err(()) => Seq::empty(),
            }) + rest.stmts,
        }
    } else {
        BlockStep { pos, diags: Seq::empty(), stmts: Seq::empty() }
    }
}

/// The optional `('const' constDecl)?` opening of a block. A failed
/// declaration is dropped; its diagnostics remain.
pub open spec fn p_block_const(toks: Seq<TokenModel>, pos: int) -> BlockStep
    decreases toks.len() - pos, 1int,
{
    if !(0 <= pos < toks.len()) {
        BlockStep { pos, diags: Seq::empty(), stmts: Seq::empty() }
    } else if p_check(toks, pos, TokenType::CONST) {
        let cd = p_const_items(toks, bounded(pos + 1, pos + 1, toks.len() as int), Seq::empty());
        BlockStep {
            pos: cd.pos,
            diags: cd.diags,
            stmts: match cd.res {
                Ok(st) => seq![st],
                Err(()) => Seq::empty(),
            },
        }
    } else {
        BlockStep { pos, diags: Seq::empty(), stmts: Seq::empty() }
    }
}

/// The optional `('var' varDecl)?` part of a block. A failed declaration
/// is dropped; its diagnostics remain.
pub open spec fn p_block_var(toks: Seq<TokenModel>, pos: int) -> BlockStep
    decreases toks.len() - pos, 2int,
{
    if !(0 <= pos < toks.len()) {
        BlockStep { pos, diags: Seq::empty(), stmts: Seq::empty() }
    } else if p_check(toks, pos, TokenType::VAR) {
        let vd = p_var_decl(toks, bounded(pos + 1, pos + 1, toks.len() as int));
        BlockStep {
            pos: vd.pos,
            diags: vd.diags,
            stmts: match vd.res {
                Ok(st) => seq![st],
                Err(()) => Seq::empty(),
            },
        }
    } else {
        BlockStep { pos, diags: Seq::empty(), stmts: Seq::empty() }
    }
}

/// block := ('const' constDecl)? ('var' varDecl)? ('procedure' procDecl)*
///          statement
///
/// A failed declaration is dropped but parsing continues within the block;
/// a failed statement synchronizes to the next block start. Either way the
/// block's surviving statements are returned, in source order.
pub open spec fn p_block(toks: Seq<TokenModel>, pos: int) -> BlockStep
    decreases toks.len() - pos, 15int,
{
    if !(0 <= pos < toks.len()) {
        BlockStep { pos, diags: Seq::empty(), stmts: Seq::empty() }
    } else {
        let c = p_block_const(toks, pos);
        let v = p_block_var(toks, bounded(c.pos, pos, toks.len() as int));
        let procs = p_block_procs(toks, bounded(v.pos, pos, toks.len() as int));
        let st = p_statement(toks, bounded(procs.pos, pos, toks.len() as int));
        match st.res {
            Ok(stmt) => BlockStep {
                pos: st.pos,
                diags: c.diags + v.diags + procs.diags + st.diags,
                stmts: c.stmts + v.stmts + procs.stmts + seq![stmt],
            },
            Err(()) => BlockStep {
                pos: p_synchronise(toks, bounded(st.pos, pos, toks.len() as int)),
                diags: c.diags + v.diags + procs.diags + st.diags,
                stmts: c.stmts + v.stmts + procs.stmts,
            },
        }
    }
}

/// program := block* '.'
///
/// Blocks are parsed until the closing period; a program that ends without
/// one is reported. Statements appear in the output in source order.
pub open spec fn p_parse(toks: Seq<TokenModel>, pos: int) -> ParseOut
    decreases toks.len() - pos, 16int,
{
    if !(0 <= pos < toks.len()) {
        ParseOut { stmts: Seq::empty(), diags: Seq::empty() }
    } else if p_at_end(toks, pos) {
        if toks[pos].kind == TokenType::EOF {
            ParseOut {
                stmts: Seq::empty(),
                diags: seq![p_diag(toks, pos, DiagKind::ExpectedProgramDot)],
            }
        } else {
            ParseOut { stmts: Seq::empty(), diags: Seq::empty() }
        }
    } else {
        let b = p_block(toks, pos);
        let rest = p_parse(toks, bounded(b.pos, pos + 1, toks.len() as int));
        ParseOut { stmts: b.stmts + rest.stmts, diags: b.diags + rest.diags }
    }
}


/// A token row whose last token closes the program: the period, or the
/// end-of-input sentinel the scanner always appends.
pub open spec fn tokens_wf(toks: Seq<TokenModel>) -> bool {
    toks.len() >= 1 && (toks.last().kind == TokenType::DOT || toks.last().kind == TokenType::EOF)
}

/// Appending a statement appends its value.
pub proof fn lemma_stmts_model_push(v: Seq<Stmt>, x: Stmt)
    ensures
        stmts_model(v.push(x)) == stmts_model(v).push(stmt_model(x)),
{
    lemma_stmts_model_len(v.push(x));
    lemma_stmts_model_len(v);
    assert forall|i: int| 0 <= i < v.len() + 1 implies stmts_model(v.push(x))[i] == stmts_model(
        v,
    ).push(stmt_model(x))[i] by {
        if i < v.len() {
            assert(v.push(x)[i] == v[i]);
        } else {
            assert(v.push(x)[i] == x);
        }
    }
    assert(stmts_model(v.push(x)) =~= stmts_model(v).push(stmt_model(x)));
}

/// Concatenating statement lists concatenates their values.
pub proof fn lemma_stmts_model_append(a: Seq<Stmt>, b: Seq<Stmt>)
    ensures
        stmts_model(a + b) == stmts_model(a) + stmts_model(b),
{
    lemma_stmts_model_len(a + b);
    lemma_stmts_model_len(a);
    lemma_stmts_model_len(b);
    assert forall|i: int| 0 <= i < a.len() + b.len() implies stmts_model(a + b)[i] == (stmts_model(
        a,
    ) + stmts_model(b))[i] by {
        if i < a.len() {
            assert((a + b)[i] == a[i]);
        } else {
            assert((a + b)[i] == b[i - a.len()]);
        }
    }
    assert(stmts_model(a + b) =~= stmts_model(a) + stmts_model(b));
}

/// Matching one of two kinds is checking each.
pub proof fn lemma_match_two(toks: Seq<TokenModel>, pos: int, a: TokenType, b: TokenType)
    ensures
        p_match_any(toks, pos, seq![a, b]) == (p_check(toks, pos, a) || p_check(toks, pos, b)),
{
    let kinds = seq![a, b];
    assert(kinds[0] == a);
    assert(kinds[1] == b);
    if p_check(toks, pos, a) {
        assert(kinds.contains(toks[pos].kind));
    }
    if p_check(toks, pos, b) {
        assert(kinds.contains(toks[pos].kind));
    }
    if p_match_any(toks, pos, kinds) {
        let i = choose|i: int| 0 <= i < kinds.len() && kinds[i] == toks[pos].kind;
    }
}

/// Matching a comparison operator is checking each of the six kinds.
pub proof fn lemma_match_comparison(toks: Seq<TokenModel>, pos: int)
    ensures
        p_match_any(toks, pos, comparison_kinds()) == (p_check(toks, pos, TokenType::BANG_EQU)
            || p_check(toks, pos, TokenType::EQU_EQU) || p_check(toks, pos, TokenType::LESS)
            || p_check(toks, pos, TokenType::LESS_EQU) || p_check(toks, pos, TokenType::MORE)
            || p_check(toks, pos, TokenType::MORE_EQU)),
{
    let kinds = comparison_kinds();
    assert(kinds[0] == TokenType::BANG_EQU);
    assert(kinds[1] == TokenType::EQU_EQU);
    assert(kinds[2] == TokenType::LESS);
    assert(kinds[3] == TokenType::LESS_EQU);
    assert(kinds[4] == TokenType::MORE);
    assert(kinds[5] == TokenType::MORE_EQU);
    if p_match_any(toks, pos, kinds) {
        let i = choose|i: int| 0 <= i < kinds.len() && kinds[i] == toks[pos].kind;
    }
}

/// The recursive-descent parser: the token row it reads, the position of
/// its one-token lookahead, and the diagnostics collected so far.
pub struct Parser {
    pub tokens: Vec<Token>,
    pub current: usize,
    pub diags: Vec<Diag>,
}

impl Parser {
    /// The token row is well formed and the lookahead is on it.
    pub open spec fn wf(&self) -> bool {
        &&& tokens_wf(tokens_model(self.tokens@))
        &&& self.current < self.tokens@.len()
    }

    /// The row of token values being parsed.
    pub open spec fn toks(&self) -> Seq<TokenModel> {
        tokens_model(self.tokens@)
    }

    /// How an expression production's executable run stands for its
    /// mathematical step: same end position, same appended diagnostics,
    /// and the value step the step describes.
    pub open spec fn expr_step_ok(
        pre: Parser,
        post: Parser,
        r: Result<Expr, ParseError>,
        step: PStep<ExprModel>,
    ) -> bool {
        &&& post.tokens == pre.tokens
        &&& pre.current <= post.current
        &&& post.current == step.pos
        &&& diags_model(post.diags@) == diags_model(pre.diags@) + step.diags
        &&& match r {
            Ok(e) => step.res == Ok::<ExprModel, ()>(e@),
            Err(_) => step.res is Err,
        }
    }

    /// As `expr_step_ok`, for statement productions.
    pub open spec fn stmt_step_ok(
        pre: Parser,
        post: Parser,
        r: Result<Stmt, ParseError>,
        step: PStep<StmtModel>,
    ) -> bool {
        &&& post.tokens == pre.tokens
        &&& pre.current <= post.current
        &&& post.current == step.pos
        &&& diags_model(post.diags@) == diags_model(pre.diags@) + step.diags
        &&& match r {
            Ok(s) => step.res == Ok::<StmtModel, ()>(s@),
            Err(_) => step.res is Err,
        }
    }

    /// A parser at the start of `tokens`.
    pub fn new(tokens: Vec<Token>) -> (p: Parser)
        ensures
            p.tokens@ == tokens@,
            p.current == 0,
            p.diags@ =~= Seq::<Diag>::empty(),
    {
        Parser { tokens, current: 0, diags: Vec::new() }
    }

    /// The token under the lookahead.
    fn peek(&self) -> (t: Token)
        requires
            self.wf(),
        ensures
            t@ == self.toks()[self.current as int],
    {
        self.tokens[self.current].clone()
    }

    /// Whether the lookahead is on the program's end.
    fn is_at_end(&self) -> (r: bool)
        requires
            self.wf(),
        ensures
            r == p_at_end(self.toks(), self.current as int),
    {
        let k = self.tokens[self.current].kind;
        k == TokenType::DOT || k == TokenType::EOF
    }

    /// The most recently consumed token.
    fn previous(&self) -> (t: Token)
        requires
            self.wf(),
            self.current >= 1,
        ensures
            t@ == self.toks()[self.current - 1],
    {
        self.tokens[self.current - 1].clone()
    }

    /// Step over the current token, unless it ends the program; the token
    /// stepped over is returned.
    fn advance(&mut self) -> (t: Token)
        requires
            old(self).wf(),
        ensures
            final(self).wf(),
            final(self).tokens == old(self).tokens,
            final(self).diags == old(self).diags,
            final(self).current == if p_at_end(old(self).toks(), old(self).current as int) {
                old(self).current as int
            } else {
                old(self).current + 1
            },
            !p_at_end(old(self).toks(), old(self).current as int) ==> t@ == old(self).toks()[old(self).current as int],
    {
        if !self.is_at_end() {
            let n = self.tokens.len();
            proof {
                if self.current + 1 == self.tokens@.len() {
                    assert(self.toks()[self.current as int] == self.toks().last());
                }
            }
            self.current = self.current + 1;
            self.previous()
        } else {
            self.peek()
        }
    }

    /// Whether the lookahead has kind `kind` short of the program's end.
    fn check(&self, kind: TokenType) -> (r: bool)
        requires
            self.wf(),
        ensures
            r == p_check(self.toks(), self.current as int, kind),
    {
        if self.is_at_end() {
            false
        } else {
            self.tokens[self.current].kind == kind
        }
    }

    /// Consume the lookahead if it has kind `kind`.
    fn match_kind(&mut self, kind: TokenType) -> (r: bool)
        requires
            old(self).wf(),
        ensures
            final(self).wf(),
            final(self).tokens == old(self).tokens,
            final(self).diags == old(self).diags,
            r == p_check(old(self).toks(), old(self).current as int, kind),
            final(self).current == old(self).current + if r {
                1int
            } else {
                0int
            },
    {
        if self.check(kind) {
            let _ = self.advance();
            true
        } else {
            false
        }
    }

    /// Report the diagnostic `kind` at the lookahead, yielding the failure
    /// signal for the caller to propagate.
    fn error(&mut self, kind: DiagKind) -> (r: ParseError)
        requires
            old(self).wf(),
        ensures
            final(self).wf(),
            final(self).tokens == old(self).tokens,
            final(self).current == old(self).current,
            diags_model(final(self).diags@) == diags_model(old(self).diags@) + seq![
                p_diag(old(self).toks(), old(self).current as int, kind),
            ],
    {
        let t = &self.tokens[self.current];
        let d = Diag {
            line: t.line,
            at_end: t.kind == TokenType::EOF,
            lexeme: clone_bytes(&t.lexeme),
            kind,
        };
        self.diags.push(d);
        proof {
            assert(diags_model(self.diags@) =~= diags_model(old(self).diags@) + seq![
                p_diag(old(self).toks(), old(self).current as int, kind),
            ]);
        }
        ParseError
    }


    /// factor := NUMBER | IDENT | '(' expression ')'
    fn primary(&mut self) -> (r: Result<Expr, ParseError>)
        requires
            old(self).wf(),
        ensures
            final(self).wf(),
            Self::expr_step_ok(
                *old(self),
                *final(self),
                r,
                p_primary(old(self).toks(), old(self).current as int),
            ),
            r is Ok ==> old(self).current < final(self).current,
        decreases old(self).tokens@.len() - old(self).current, 0int,
    {
        let ghost toks = old(self).toks();
        let ghost pos = old(self).current as int;
        let ghost none: Seq<DiagModel> = Seq::empty();
        proof {
            assert(diags_model(self.diags@) =~= diags_model(self.diags@) + none);
        }
        if self.check(TokenType::NUMBER) {
            let t = self.advance();
            return Ok(Expr::Literal(t));
        }
        if self.check(TokenType::IDENTIFIER) {
            let t = self.advance();
            return Ok(Expr::Variable(t));
        }
        if self.check(TokenType::LEFT_PAREN) {
            let _ = self.advance();
            match self.expression() {
                Ok(e) => {
                    let ghost estep = p_expression(toks, pos + 1);
                    if self.check(TokenType::RIGHT_PAREN) {
                        let _ = self.advance();
                        return Ok(Expr::Grouping(Box::new(e)));
                    }
                    let pe = self.error(DiagKind::ExpectedRightParen);
                    proof {
                        assert((diags_model(old(self).diags@) + estep.diags) + seq![
                            p_diag(toks, estep.pos, DiagKind::ExpectedRightParen),
                        ] =~= diags_model(old(self).diags@) + (estep.diags + seq![
                            p_diag(toks, estep.pos, DiagKind::ExpectedRightParen),
                        ]));
                    }
                    return Err(pe);
                },
                Err(pe) => {
                    return Err(pe);
                },
            }
        }
        let pe = self.error(DiagKind::ExpectedExpression);
        Err(pe)
    }

    /// term := factor (('*'|'/') factor)*
    fn factor(&mut self) -> (r: Result<Expr, ParseError>)
        requires
            old(self).wf(),
        ensures
            final(self).wf(),
            Self::expr_step_ok(
                *old(self),
                *final(self),
                r,
                p_factor(old(self).toks(), old(self).current as int),
            ),
            r is Ok ==> old(self).current < final(self).current,
        decreases old(self).tokens@.len() - old(self).current, 2int,
    {
        let ghost toks = old(self).toks();
        let ghost pos = old(self).current as int;
        let ghost full = p_factor(toks, pos);
        let mut acc = match self.primary() {
            Ok(e) => e,
            Err(pe) => {
                return Err(pe);
            },
        };
        proof {
            assert(bounded(self.current as int, pos, toks.len() as int) == self.current as int);
        }
        #[verifier::loop_isolation(false)]
        loop
            invariant
                self.wf(),
                self.tokens == old(self).tokens,
                pos < self.current,
                ({
                    let rem = p_factor_tail(toks, self.current as int, acc@);
                    &&& full.pos == rem.pos
                    &&& full.res == rem.res
                    &&& diags_model(self.diags@) + rem.diags =~= diags_model(old(self).diags@)
                        + full.diags
                }),
            decreases toks.len() - self.current,
        {
            proof {
                lemma_match_two(toks, self.current as int, TokenType::STAR, TokenType::SLASH);
            }
            if self.check(TokenType::STAR) || self.check(TokenType::SLASH) {
                let ghost tail_pos = self.current as int;
                let ghost diags_in = diags_model(self.diags@);
                let op = self.advance();
                match self.primary() {
                    Ok(right) => {
                        proof {
                            assert(bounded(self.current as int, tail_pos + 1, toks.len() as int)
                                == self.current as int);
                        }
                        let ghost sub = p_primary(toks, tail_pos + 1);
                        acc = Expr::Binary(Box::new(acc), op, Box::new(right));
                        proof {
                            let rem2 = p_factor_tail(toks, self.current as int, acc@);
                            assert((diags_in + sub.diags) + rem2.diags =~= diags_in + (sub.diags
                                + rem2.diags));
                        }
                    },
                    Err(pe) => {
                        return Err(pe);
                    },
                }
            } else {
                return Ok(acc);
            }
        }
    }

    /// expression := ('+'|'-')? term (('+'|'-') term)*
    fn expression(&mut self) -> (r: Result<Expr, ParseError>)
        requires
            old(self).wf(),
        ensures
            final(self).wf(),
            Self::expr_step_ok(
                *old(self),
                *final(self),
                r,
                p_expression(old(self).toks(), old(self).current as int),
            ),
            r is Ok ==> old(self).current < final(self).current,
        decreases old(self).tokens@.len() - old(self).current, 4int,
    {
        let ghost toks = old(self).toks();
        let ghost pos = old(self).current as int;
        let ghost full = p_expression(toks, pos);
        proof {
            lemma_match_two(toks, pos, TokenType::MINUS, TokenType::PLUS);
        }
        let prefix: Option<Token> = if self.check(TokenType::MINUS) || self.check(
            TokenType::PLUS,
        ) {
            Some(self.advance())
        } else {
            None
        };
        let ghost p0 = self.current as int;
        let first = match self.factor() {
            Ok(e) => e,
            Err(pe) => {
                return Err(pe);
            },
        };
        let mut acc = match prefix {
            Some(op) => Expr::Unary(op, Box::new(first)),
            None => first,
        };
        proof {
            assert(bounded(self.current as int, p0, toks.len() as int) == self.current as int);
            let sub = p_factor(toks, p0);
            let rem = p_expr_tail(toks, self.current as int, acc@);
            assert((diags_model(old(self).diags@) + sub.diags) + rem.diags =~= diags_model(
                old(self).diags@,
            ) + (sub.diags + rem.diags));
        }
        #[verifier::loop_isolation(false)]
        loop
            invariant
                self.wf(),
                self.tokens == old(self).tokens,
                pos < self.current,
                ({
                    let rem = p_expr_tail(toks, self.current as int, acc@);
                    &&& full.pos == rem.pos
                    &&& full.res == rem.res
                    &&& diags_model(self.diags@) + rem.diags =~= diags_model(old(self).diags@)
                        + full.diags
                }),
            decreases toks.len() - self.current,
        {
            proof {
                lemma_match_two(toks, self.current as int, TokenType::MINUS, TokenType::PLUS);
            }
            if self.check(TokenType::MINUS) || self.check(TokenType::PLUS) {
                let ghost tail_pos = self.current as int;
                let ghost diags_in = diags_model(self.diags@);
                let op = self.advance();
                match self.factor() {
                    Ok(right) => {
                        proof {
                            assert(bounded(self.current as int, tail_pos + 1, toks.len() as int)
                                == self.current as int);
                        }
                        let ghost sub = p_factor(toks, tail_pos + 1);
                        acc = Expr::Binary(Box::new(acc), op, Box::new(right));
                        proof {
                            let rem2 = p_expr_tail(toks, self.current as int, acc@);
                            assert((diags_in + sub.diags) + rem2.diags =~= diags_in + (sub.diags
                                + rem2.diags));
                        }
                    },
                    Err(pe) => {
                        return Err(pe);
                    },
                }
            } else {
                return Ok(acc);
            }
        }
    }

    /// expression relOp expression
    fn equality(&mut self) -> (r: Result<Expr, ParseError>)
        requires
            old(self).wf(),
        ensures
            final(self).wf(),
            Self::expr_step_ok(
                *old(self),
                *final(self),
                r,
                p_equality(old(self).toks(), old(self).current as int),
            ),
        decreases old(self).tokens@.len() - old(self).current, 5int,
    {
        let ghost toks = old(self).toks();
        let ghost pos = old(self).current as int;
        let left = match self.expression() {
            Ok(e) => e,
            Err(pe) => {
                return Err(pe);
            },
        };
        let ghost lstep = p_expression(toks, pos);
        proof {
            lemma_match_comparison(toks, self.current as int);
        }
        if self.check(TokenType::BANG_EQU) || self.check(TokenType::EQU_EQU) || self.check(
            TokenType::LESS,
        ) || self.check(TokenType::LESS_EQU) || self.check(TokenType::MORE) || self.check(
            TokenType::MORE_EQU,
        ) {
            let op = self.advance();
            proof {
                assert(bounded(lstep.pos + 1, pos + 1, toks.len() as int) == self.current as int);
            }
            match self.expression() {
                Ok(right) => {
                    proof {
                        let rstep = p_expression(toks, lstep.pos + 1);
                        assert((diags_model(old(self).diags@) + lstep.diags) + rstep.diags
                            =~= diags_model(old(self).diags@) + (lstep.diags + rstep.diags));
                    }
                    Ok(Expr::Binary(Box::new(left), op, Box::new(right)))
                },
                Err(pe) => {
                    proof {
                        let rstep = p_expression(toks, lstep.pos + 1);
                        assert((diags_model(old(self).diags@) + lstep.diags) + rstep.diags
                            =~= diags_model(old(self).diags@) + (lstep.diags + rstep.diags));
                    }
                    Err(pe)
                },
            }
        } else {
            let pe = self.error(DiagKind::ExpectedComparisonOperator);
            proof {
                assert((diags_model(old(self).diags@) + lstep.diags) + seq![
                    p_diag(toks, lstep.pos, DiagKind::ExpectedComparisonOperator),
                ] =~= diags_model(old(self).diags@) + (lstep.diags + seq![
                    p_diag(toks, lstep.pos, DiagKind::ExpectedComparisonOperator),
                ]));
            }
            Err(pe)
        }
    }

    /// condition := 'odd' expression | expression relOp expression
    fn condition(&mut self) -> (r: Result<Expr, ParseError>)
        requires
            old(self).wf(),
        ensures
            final(self).wf(),
            Self::expr_step_ok(
                *old(self),
                *final(self),
                r,
                p_condition(old(self).toks(), old(self).current as int),
            ),
        decreases old(self).tokens@.len() - old(self).current, 6int,
    {
        let ghost toks = old(self).toks();
        let ghost pos = old(self).current as int;
        if self.check(TokenType::ODD) {
            let op = self.advance();
            match self.expression() {
                Ok(e) => Ok(Expr::Unary(op, Box::new(e))),
                Err(pe) => Err(pe),
            }
        } else {
            self.equality()
        }
    }

    /// assignOrExpr := expression (':=' expression)?
    ///
    /// An assignment whose target is not a variable reference is reported
    /// but kept as a bare expression statement, without discarding the
    /// enclosing block.
    fn assignment_or_expr(&mut self) -> (r: Result<Stmt, ParseError>)
        requires
            old(self).wf(),
        ensures
            final(self).wf(),
            Self::stmt_step_ok(
                *old(self),
                *final(self),
                r,
                p_assignment_or_expr(old(self).toks(), old(self).current as int),
            ),
            r is Ok ==> old(self).current < final(self).current,
        decreases old(self).tokens@.len() - old(self).current, 7int,
    {
        let ghost toks = old(self).toks();
        let ghost pos = old(self).current as int;
        let lhs = match self.expression() {
            Ok(e) => e,
            Err(pe) => {
                return Err(pe);
            },
        };
        let ghost estep = p_expression(toks, pos);
        if self.match_kind(TokenType::COLON_EQU) {
            proof {
                assert(bounded(estep.pos + 1, pos + 1, toks.len() as int) == self.current as int);
            }
            match self.expression() {
                Ok(value) => {
                    let ghost vstep = p_expression(toks, estep.pos + 1);
                    proof {
                        assert((diags_model(old(self).diags@) + estep.diags) + vstep.diags
                            =~= diags_model(old(self).diags@) + (estep.diags + vstep.diags));
                    }
                    match lhs {
                        Expr::Variable(name) => Ok(Stmt::Assign(name, value)),
                        other => {
                            let _ = self.error(DiagKind::InvalidAssignmentTarget);
                            proof {
                                assert(((diags_model(old(self).diags@) + estep.diags)
                                    + vstep.diags) + seq![
                                    p_diag(toks, vstep.pos, DiagKind::InvalidAssignmentTarget),
                                ] =~= diags_model(old(self).diags@) + (estep.diags + vstep.diags
                                    + seq![
                                    p_diag(toks, vstep.pos, DiagKind::InvalidAssignmentTarget),
                                ]));
                            }
                            Ok(Stmt::Expression(other))
                        },
                    }
                },
                Err(pe) => {
                    proof {
                        let vstep = p_expression(toks, estep.pos + 1);
                        assert((diags_model(old(self).diags@) + estep.diags) + vstep.diags
                            =~= diags_model(old(self).diags@) + (estep.diags + vstep.diags));
                    }
                    Err(pe)
                },
            }
        } else {
            Ok(Stmt::Expression(lhs))
        }
    }


    /// statement := scope | print | printVar | ifStmt | callStmt
    ///            | whileStmt | assignOrExpr
    fn statement(&mut self) -> (r: Result<Stmt, ParseError>)
        requires
            old(self).wf(),
        ensures
            final(self).wf(),
            Self::stmt_step_ok(
                *old(self),
                *final(self),
                r,
                p_statement(old(self).toks(), old(self).current as int),
            ),
            r is Ok ==> old(self).current < final(self).current,
        decreases old(self).tokens@.len() - old(self).current, 8int,
    {
        let ghost toks = old(self).toks();
        let ghost pos = old(self).current as int;
        if self.match_kind(TokenType::BEGIN) {
            return self.scope();
        }
        if self.match_kind(TokenType::BANG) {
            return match self.expression() {
                Ok(e) => Ok(Stmt::Print(e)),
                Err(pe) => Err(pe),
            };
        }
        if self.match_kind(TokenType::QMARK) {
            if self.match_kind(TokenType::IDENTIFIER) {
                let t = self.previous();
                return Ok(Stmt::PrintVar(t));
            }
            let pe = self.error(DiagKind::ExpectedPrintVarName);
            return Err(pe);
        }
        if self.match_kind(TokenType::IF) {
            return self.if_statement();
        }
        if self.match_kind(TokenType::CALL) {
            if self.match_kind(TokenType::IDENTIFIER) {
                let t = self.previous();
                return Ok(Stmt::Call(t));
            }
            let pe = self.error(DiagKind::ExpectedCallName);
            return Err(pe);
        }
        if self.match_kind(TokenType::WHILE) {
            return self.while_statement();
        }
        self.assignment_or_expr()
    }

    /// ifStmt := condition 'then' statement (after the consumed `if`).
    fn if_statement(&mut self) -> (r: Result<Stmt, ParseError>)
        requires
            old(self).wf(),
        ensures
            final(self).wf(),
            Self::stmt_step_ok(
                *old(self),
                *final(self),
                r,
                p_if_statement(old(self).toks(), old(self).current as int),
            ),
        decreases old(self).tokens@.len() - old(self).current, 9int,
    {
        let ghost toks = old(self).toks();
        let ghost pos = old(self).current as int;
        let cond = match self.condition() {
            Ok(c) => c,
            Err(pe) => {
                return Err(pe);
            },
        };
        let ghost cstep = p_condition(toks, pos);
        if self.check(TokenType::THEN) {
            let _ = self.advance();
            proof {
                assert(bounded(cstep.pos + 1, pos + 1, toks.len() as int) == self.current as int);
            }
            match self.statement() {
                Ok(branch) => {
                    proof {
                        let sstep = p_statement(toks, cstep.pos + 1);
                        assert((diags_model(old(self).diags@) + cstep.diags) + sstep.diags
                            =~= diags_model(old(self).diags@) + (cstep.diags + sstep.diags));
                    }
                    Ok(Stmt::If(cond, Box::new(branch)))
                },
                Err(pe) => {
                    proof {
                        let sstep = p_statement(toks, cstep.pos + 1);
                        assert((diags_model(old(self).diags@) + cstep.diags) + sstep.diags
                            =~= diags_model(old(self).diags@) + (cstep.diags + sstep.diags));
                    }
                    Err(pe)
                },
            }
        } else {
            let pe = self.error(DiagKind::ExpectedThenToken);
            proof {
                assert((diags_model(old(self).diags@) + cstep.diags) + seq![
                    p_diag(toks, cstep.pos, DiagKind::ExpectedThenToken),
                ] =~= diags_model(old(self).diags@) + (cstep.diags + seq![
                    p_diag(toks, cstep.pos, DiagKind::ExpectedThenToken),
                ]));
            }
            Err(pe)
        }
    }

    /// whileStmt := condition 'do' statement (after the consumed `while`).
    fn while_statement(&mut self) -> (r: Result<Stmt, ParseError>)
        requires
            old(self).wf(),
        ensures
            final(self).wf(),
            Self::stmt_step_ok(
                *old(self),
                *final(self),
                r,
                p_while_statement(old(self).toks(), old(self).current as int),
            ),
        decreases old(self).tokens@.len() - old(self).current, 9int,
    {
        let ghost toks = old(self).toks();
        let ghost pos = old(self).current as int;
        let cond = match self.condition() {
            Ok(c) => c,
            Err(pe) => {
                return Err(pe);
            },
        };
        let ghost cstep = p_condition(toks, pos);
        if self.check(TokenType::DO) {
            let _ = self.advance();
            proof {
                assert(bounded(cstep.pos + 1, pos + 1, toks.len() as int) == self.current as int);
            }
            match self.statement() {
                Ok(branch) => {
                    proof {
                        let sstep = p_statement(toks, cstep.pos + 1);
                        assert((diags_model(old(self).diags@) + cstep.diags) + sstep.diags
                            =~= diags_model(old(self).diags@) + (cstep.diags + sstep.diags));
                    }
                    Ok(Stmt::While(cond, Box::new(branch)))
                },
                Err(pe) => {
                    proof {
                        let sstep = p_statement(toks, cstep.pos + 1);
                        assert((diags_model(old(self).diags@) + cstep.diags) + sstep.diags
                            =~= diags_model(old(self).diags@) + (cstep.diags + sstep.diags));
                    }
                    Err(pe)
                },
            }
        } else {
            let pe = self.error(DiagKind::ExpectedDoToken);
            proof {
                assert((diags_model(old(self).diags@) + cstep.diags) + seq![
                    p_diag(toks, cstep.pos, DiagKind::ExpectedDoToken),
                ] =~= diags_model(old(self).diags@) + (cstep.diags + seq![
                    p_diag(toks, cstep.pos, DiagKind::ExpectedDoToken),
                ]));
            }
            Err(pe)
        }
    }

    /// scope := 'begin' statement (';' statement)* 'end' (after the
    /// consumed `begin`). Reaching the program's end leaves the scope
    /// silently closed.
    #[verifier::rlimit(50)]
    fn scope(&mut self) -> (r: Result<Stmt, ParseError>)
        requires
            old(self).wf(),
        ensures
            final(self).wf(),
            Self::stmt_step_ok(
                *old(self),
                *final(self),
                r,
                p_scope(old(self).toks(), old(self).current as int),
            ),
        decreases old(self).tokens@.len() - old(self).current, 10int,
    {
        let ghost toks = old(self).toks();
        let ghost pos = old(self).current as int;
        let ghost full = p_scope(toks, pos);
        let first = match self.statement() {
            Ok(s) => s,
            Err(pe) => {
                return Err(pe);
            },
        };
        let mut statements: Vec<Stmt> = Vec::new();
        statements.push(first);
        proof {
            assert(bounded(self.current as int, pos, toks.len() as int) == self.current as int);
            lemma_stmts_model_len(statements@);
            assert(stmts_model(statements@) =~= seq![statements@[0]@]);
            let sstep = p_statement(toks, pos);
            let rem = p_scope_items(toks, self.current as int, stmts_model(statements@));
            assert((diags_model(old(self).diags@) + sstep.diags) + rem.diags =~= diags_model(
                old(self).diags@,
            ) + (sstep.diags + rem.diags));
        }
        #[verifier::loop_isolation(false)]
        loop
            invariant
                self.wf(),
                self.tokens == old(self).tokens,
                pos <= self.current,
                ({
                    let rem = p_scope_items(toks, self.current as int, stmts_model(statements@));
                    &&& full.pos == rem.pos
                    &&& full.res == rem.res
                    &&& diags_model(self.diags@) + rem.diags =~= diags_model(old(self).diags@)
                        + full.diags
                }),
            decreases toks.len() - self.current,
        {
            if self.is_at_end() {
                proof {
                    assert(diags_model(self.diags@) =~= diags_model(self.diags@)
                        + Seq::<DiagModel>::empty());
                }
                return Ok(Stmt::Scope(statements));
            }
            let ghost item_pos = self.current as int;
            let ghost diags_in = diags_model(self.diags@);
            if self.match_kind(TokenType::SEMICOLON) {
                if self.check(TokenType::END) {
                    let _ = self.advance();
                    return Ok(Stmt::Scope(statements));
                }
                proof {
                    // The end of the program is not `end`, so the inner
                    // statement starts right after the semicolon.
                    assert(bounded(item_pos + 1, item_pos + 1, toks.len() as int) == self.current
                        as int);
                }
                match self.statement() {
                    Ok(st) => {
                        proof {
                            lemma_stmts_model_push(statements@, st);
                        }
                        statements.push(st);
                        proof {
                            assert(bounded(self.current as int, item_pos + 1, toks.len() as int)
                                == self.current as int);
                            let sstep = p_statement(toks, item_pos + 1);
                            let rem2 = p_scope_items(
                                toks,
                                self.current as int,
                                stmts_model(statements@),
                            );
                            assert((diags_in + sstep.diags) + rem2.diags =~= diags_in + (sstep.diags
                                + rem2.diags));
                        }
                    },
                    Err(pe) => {
                        return Err(pe);
                    },
                }
            } else {
                match self.consume(TokenType::END, DiagKind::ExpectedEndToken) {
                    Ok(_) => {
                        proof {
                            assert(diags_model(self.diags@) =~= diags_model(self.diags@)
                                + Seq::<DiagModel>::empty());
                        }
                        return Ok(Stmt::Scope(statements));
                    },
                    Err(pe) => {
                        return Err(pe);
                    },
                }
            }
        }
    }

    /// constDecl := IDENT '=' NUMBER (',' IDENT '=' NUMBER)* ';' (after the
    /// consumed `const`).
    fn const_declaration(&mut self) -> (r: Result<Stmt, ParseError>)
        requires
            old(self).wf(),
        ensures
            final(self).wf(),
            Self::stmt_step_ok(
                *old(self),
                *final(self),
                r,
                p_const_items(old(self).toks(), old(self).current as int, Seq::empty()),
            ),
        decreases old(self).tokens@.len() - old(self).current, 12int,
    {
        let ghost toks = old(self).toks();
        let ghost pos = old(self).current as int;
        let ghost full = p_const_items(toks, pos, Seq::empty());
        let mut consts: Vec<(Token, Token)> = Vec::new();
        proof {
            assert(consts_model(consts@) =~= Seq::<(TokenModel, TokenModel)>::empty());
        }
        #[verifier::loop_isolation(false)]
        loop
            invariant
                self.wf(),
                self.tokens == old(self).tokens,
                self.diags == old(self).diags,
                pos <= self.current,
                ({
                    let rem = p_const_items(toks, self.current as int, consts_model(consts@));
                    &&& full.pos == rem.pos
                    &&& full.res == rem.res
                    &&& full.diags == rem.diags
                }),
            decreases toks.len() - self.current,
        {
            let ghost item_pos = self.current as int;
            let name = match self.consume(TokenType::IDENTIFIER, DiagKind::ExpectedConstName) {
                Ok(t) => t,
                Err(pe) => {
                    proof {
                        assert(diags_model(self.diags@) =~= diags_model(old(self).diags@)
                            + full.diags);
                    }
                    return Err(pe);
                },
            };
            match self.consume(TokenType::EQU, DiagKind::ExpectedEquAfterConstName) {
                Ok(_) => (),
                Err(pe) => {
                    proof {
                        assert(diags_model(self.diags@) =~= diags_model(old(self).diags@)
                            + full.diags);
                    }
                    return Err(pe);
                },
            }
            let value = match self.consume(TokenType::NUMBER, DiagKind::ExpectedConstValue) {
                Ok(t) => t,
                Err(pe) => {
                    proof {
                        assert(diags_model(self.diags@) =~= diags_model(old(self).diags@)
                            + full.diags);
                    }
                    return Err(pe);
                },
            };
            let ghost consts_before = consts_model(consts@);
            consts.push((name, value));
            proof {
                assert(consts_model(consts@) =~= consts_before.push(
                    (toks[item_pos], toks[item_pos + 2]),
                ));
            }
            if !self.match_kind(TokenType::COMMA) {
                match self.consume(
                    TokenType::SEMICOLON,
                    DiagKind::ExpectedSemicolonAfterConstDecl,
                ) {
                    Ok(_) => {
                        proof {
                            assert(diags_model(self.diags@) =~= diags_model(old(self).diags@)
                                + full.diags);
                        }
                        return Ok(Stmt::Const(consts));
                    },
                    Err(pe) => {
                        proof {
                            assert(diags_model(self.diags@) =~= diags_model(old(self).diags@)
                                + full.diags);
                        }
                        return Err(pe);
                    },
                }
            }
            proof {
                assert(bounded(item_pos + 4, item_pos + 1, toks.len() as int) == self.current
                    as int);
            }
        }
    }

    /// varDecl := IDENT (',' IDENT)* ';' (after the consumed `var`).
    fn var_declaration(&mut self) -> (r: Result<Stmt, ParseError>)
        requires
            old(self).wf(),
        ensures
            final(self).wf(),
            Self::stmt_step_ok(
                *old(self),
                *final(self),
                r,
                p_var_decl(old(self).toks(), old(self).current as int),
            ),
        decreases old(self).tokens@.len() - old(self).current, 12int,
    {
        let ghost toks = old(self).toks();
        let ghost pos = old(self).current as int;
        let ghost full = p_var_decl(toks, pos);
        let mut names: Vec<Token> = Vec::new();
        let first = match self.consume(TokenType::IDENTIFIER, DiagKind::ExpectedVarName) {
            Ok(t) => t,
            Err(pe) => {
                return Err(pe);
            },
        };
        names.push(first);
        proof {
            assert(names_model(names@) =~= seq![toks[pos]]);
            assert(bounded(pos + 1, pos + 1, toks.len() as int) == self.current as int);
        }
        #[verifier::loop_isolation(false)]
        loop
            invariant
                self.wf(),
                self.tokens == old(self).tokens,
                self.diags == old(self).diags,
                pos <= self.current,
                ({
                    let rem = p_var_items(toks, self.current as int, names_model(names@));
                    &&& full.pos == rem.pos
                    &&& full.res == rem.res
                    &&& full.diags == rem.diags
                }),
            decreases toks.len() - self.current,
        {
            let ghost item_pos = self.current as int;
            if self.match_kind(TokenType::COMMA) {
                let ghost names_before = names_model(names@);
                match self.consume(TokenType::IDENTIFIER, DiagKind::ExpectedVarNameAfterComma) {
                    Ok(t) => {
                        names.push(t);
                        proof {
                            assert(names_model(names@) =~= names_before.push(
                                toks[item_pos + 1],
                            ));
                            assert(bounded(item_pos + 2, item_pos + 1, toks.len() as int)
                                == self.current as int);
                        }
                    },
                    Err(pe) => {
                        proof {
                            assert(diags_model(self.diags@) =~= diags_model(old(self).diags@)
                                + full.diags);
                        }
                        return Err(pe);
                    },
                }
            } else {
                match self.consume(
                    TokenType::SEMICOLON,
                    DiagKind::ExpectedSemicolonAfterVarDecl,
                ) {
                    Ok(_) => {
                        proof {
                            assert(diags_model(self.diags@) =~= diags_model(old(self).diags@)
                                + full.diags);
                        }
                        return Ok(Stmt::Var(names));
                    },
                    Err(pe) => {
                        proof {
                            assert(diags_model(self.diags@) =~= diags_model(old(self).diags@)
                                + full.diags);
                        }
                        return Err(pe);
                    },
                }
            }
        }
    }


    /// procDecl := IDENT ';' block ';' (after the consumed `procedure`).
    fn proc_declaration(&mut self) -> (r: Result<Stmt, ParseError>)
        requires
            old(self).wf(),
        ensures
            final(self).wf(),
            Self::stmt_step_ok(
                *old(self),
                *final(self),
                r,
                p_proc_declaration(old(self).toks(), old(self).current as int),
            ),
        decreases old(self).tokens@.len() - old(self).current, 13int,
    {
        let ghost toks = old(self).toks();
        let ghost pos = old(self).current as int;
        let name = match self.consume(TokenType::IDENTIFIER, DiagKind::ExpectedProcedureName) {
            Ok(t) => t,
            Err(pe) => {
                return Err(pe);
            },
        };
        match self.consume(TokenType::SEMICOLON, DiagKind::ExpectedSemicolonAfterProcedureName) {
            Ok(_) => (),
            Err(pe) => {
                return Err(pe);
            },
        }
        proof {
            assert(bounded(pos + 2, pos + 1, toks.len() as int) == self.current as int);
        }
        let body = self.block();
        let ghost bstep = p_block(toks, pos + 2);
        match self.consume(
            TokenType::SEMICOLON,
            DiagKind::ExpectedSemicolonAfterProcedureBlock,
        ) {
            Ok(_) => {
                proof {
                    assert(diags_model(self.diags@) =~= diags_model(old(self).diags@)
                        + bstep.diags);
                }
                Ok(Stmt::Proc(name, Box::new(body)))
            },
            Err(pe) => {
                proof {
                    assert((diags_model(old(self).diags@) + bstep.diags) + seq![
                        p_diag(toks, bstep.pos, DiagKind::ExpectedSemicolonAfterProcedureBlock),
                    ] =~= diags_model(old(self).diags@) + (bstep.diags + seq![
                        p_diag(toks, bstep.pos, DiagKind::ExpectedSemicolonAfterProcedureBlock),
                    ]));
                }
                Err(pe)
            },
        }
    }

    /// Error recovery: step past the token the failure was reported at,
    /// then discard tokens until one that starts a new block.
    fn synchronise(&mut self)
        requires
            old(self).wf(),
        ensures
            final(self).wf(),
            final(self).tokens == old(self).tokens,
            final(self).diags == old(self).diags,
            old(self).current <= final(self).current,
            !p_at_end(old(self).toks(), old(self).current as int) ==> old(self).current < final(self).current,
            final(self).current == p_synchronise(old(self).toks(), old(self).current as int),
    {
        let ghost toks = old(self).toks();
        let ghost pos = old(self).current as int;
        if self.is_at_end() {
            return;
        }
        let _ = self.advance();
        proof {
            assert(bounded(pos + 1, pos + 1, toks.len() as int) == self.current as int);
        }
        #[verifier::loop_isolation(false)]
        loop
            invariant
                self.wf(),
                self.tokens == old(self).tokens,
                self.diags == old(self).diags,
                pos + 1 <= self.current,
                p_sync_loop(toks, pos + 1) == p_sync_loop(toks, self.current as int),
            decreases toks.len() - self.current,
        {
            if self.is_at_end() {
                return;
            }
            let k = self.tokens[self.current].kind;
            if k == TokenType::CONST || k == TokenType::VAR || k == TokenType::PROCEDURE || k
                == TokenType::BEGIN {
                return;
            }
            let _ = self.advance();
        }
    }


    /// The `('procedure' procDecl)*` repetition of a block. A failed
    /// declaration's statement is dropped; its diagnostics remain.
    fn procedures(&mut self, out: &mut Vec<Stmt>)
        requires
            old(self).wf(),
        ensures
            final(self).wf(),
            final(self).tokens == old(self).tokens,
            old(self).current <= final(self).current,
            ({
                let step = p_block_procs(old(self).toks(), old(self).current as int);
                &&& final(self).current == step.pos
                &&& diags_model(final(self).diags@) == diags_model(old(self).diags@)
                    + step.diags
                &&& stmts_model(final(out)@) == stmts_model(old(out)@) + step.stmts
            }),
        decreases old(self).tokens@.len() - old(self).current, 14int,
    {
        let ghost toks = old(self).toks();
        let ghost pos = old(self).current as int;
        let ghost full = p_block_procs(toks, pos);
        proof {
            assert(stmts_model(out@) =~= stmts_model(out@) + Seq::<StmtModel>::empty());
            assert(diags_model(self.diags@) =~= diags_model(self.diags@)
                + Seq::<DiagModel>::empty());
        }
        #[verifier::loop_isolation(false)]
        loop
            invariant
                self.wf(),
                self.tokens == old(self).tokens,
                pos <= self.current,
                ({
                    let rem = p_block_procs(toks, self.current as int);
                    &&& full.pos == rem.pos
                    &&& diags_model(self.diags@) + rem.diags =~= diags_model(old(self).diags@)
                        + full.diags
                    &&& stmts_model(out@) + rem.stmts =~= stmts_model(old(out)@) + full.stmts
                }),
            decreases toks.len() - self.current,
        {
            if self.match_kind(TokenType::PROCEDURE) {
                let ghost item_pos = self.current as int;
                let ghost diags_in = diags_model(self.diags@);
                let ghost stmts_in = stmts_model(out@);
                let ghost pd = p_proc_declaration(toks, item_pos);
                match self.proc_declaration() {
                    Ok(p) => {
                        proof {
                            lemma_stmts_model_push(out@, p);
                        }
                        out.push(p);
                    },
                    Err(_) => (),
                }
                proof {
                    assert(bounded(self.current as int, item_pos, toks.len() as int)
                        == self.current as int);
                    let rem2 = p_block_procs(toks, self.current as int);
                    assert((diags_in + pd.diags) + rem2.diags =~= diags_in + (pd.diags
                        + rem2.diags));
                    match pd.res {
                        Ok(st) => {
                            assert(stmts_in.push(st) + rem2.stmts =~= stmts_in + (seq![st]
                                + rem2.stmts));
                        },
                        Err(()) => {
                            assert(stmts_in + rem2.stmts =~= stmts_in + (
                            Seq::<StmtModel>::empty() + rem2.stmts));
                        },
                    }
                }
            } else {
                return ;
            }
        }
    }

    /// The optional `('const' constDecl)?` opening of a block.
    fn const_opt(&mut self, out: &mut Vec<Stmt>)
        requires
            old(self).wf(),
        ensures
            final(self).wf(),
            final(self).tokens == old(self).tokens,
            old(self).current <= final(self).current,
            ({
                let step = p_block_const(old(self).toks(), old(self).current as int);
                &&& final(self).current == step.pos
                &&& diags_model(final(self).diags@) == diags_model(old(self).diags@)
                    + step.diags
                &&& stmts_model(final(out)@) == stmts_model(old(out)@) + step.stmts
            }),
        decreases old(self).tokens@.len() - old(self).current, 14int,
    {
        let ghost toks = old(self).toks();
        let ghost pos = old(self).current as int;
        let ghost stmts0 = stmts_model(out@);
        if self.match_kind(TokenType::CONST) {
            proof {
                assert(bounded(pos + 1, pos + 1, toks.len() as int) == self.current as int);
            }
            match self.const_declaration() {
                Ok(c) => {
                    proof {
                        lemma_stmts_model_push(out@, c);
                        assert(stmts0.push(c@) =~= stmts0 + seq![c@]);
                    }
                    out.push(c);
                },
                Err(_) => {
                    proof {
                        assert(stmts0 =~= stmts0 + Seq::<StmtModel>::empty());
                    }
                },
            }
        } else {
            proof {
                assert(stmts0 =~= stmts0 + Seq::<StmtModel>::empty());
                assert(diags_model(self.diags@) =~= diags_model(self.diags@)
                    + Seq::<DiagModel>::empty());
            }
        }
    }

    /// The optional `('var' varDecl)?` part of a block.
    fn var_opt(&mut self, out: &mut Vec<Stmt>)
        requires
            old(self).wf(),
        ensures
            final(self).wf(),
            final(self).tokens == old(self).tokens,
            old(self).current <= final(self).current,
            ({
                let step = p_block_var(old(self).toks(), old(self).current as int);
                &&& final(self).current == step.pos
                &&& diags_model(final(self).diags@) == diags_model(old(self).diags@)
                    + step.diags
                &&& stmts_model(final(out)@) == stmts_model(old(out)@) + step.stmts
            }),
        decreases old(self).tokens@.len() - old(self).current, 14int,
    {
        let ghost toks = old(self).toks();
        let ghost pos = old(self).current as int;
        let ghost stmts0 = stmts_model(out@);
        if self.match_kind(TokenType::VAR) {
            proof {
                assert(bounded(pos + 1, pos + 1, toks.len() as int) == self.current as int);
            }
            match self.var_declaration() {
                Ok(v) => {
                    proof {
                        lemma_stmts_model_push(out@, v);
                        assert(stmts0.push(v@) =~= stmts0 + seq![v@]);
                    }
                    out.push(v);
                },
                Err(_) => {
                    proof {
                        assert(stmts0 =~= stmts0 + Seq::<StmtModel>::empty());
                    }
                },
            }
        } else {
            proof {
                assert(stmts0 =~= stmts0 + Seq::<StmtModel>::empty());
                assert(diags_model(self.diags@) =~= diags_model(self.diags@)
                    + Seq::<DiagModel>::empty());
            }
        }
    }

    /// block := ('const' constDecl)? ('var' varDecl)? ('procedure'
    /// procDecl)* statement
    ///
    /// A failed declaration is dropped but parsing continues within the
    /// block; a failed statement synchronizes to the next block start.
    /// The block's surviving statements are returned in source order.
    #[verifier::rlimit(100)]
    fn block(&mut self) -> (r: Vec<Stmt>)
        requires
            old(self).wf(),
        ensures
            final(self).wf(),
            final(self).tokens == old(self).tokens,
            old(self).current <= final(self).current,
            ({
                let step = p_block(old(self).toks(), old(self).current as int);
                &&& final(self).current == step.pos
                &&& diags_model(final(self).diags@) == diags_model(old(self).diags@)
                    + step.diags
                &&& stmts_model(r@) == step.stmts
            }),
            !p_at_end(old(self).toks(), old(self).current as int) ==> old(self).current < final(self).current,
        decreases old(self).tokens@.len() - old(self).current, 15int,
    {
        let ghost toks = old(self).toks();
        let ghost pos = old(self).current as int;
        let ghost full = p_block(toks, pos);
        let ghost c = p_block_const(toks, pos);
        let mut out: Vec<Stmt> = Vec::new();
        proof {
            assert(stmts_model(out@) =~= Seq::<StmtModel>::empty());
            assert(Seq::<StmtModel>::empty() + c.stmts =~= c.stmts);
        }
        self.const_opt(&mut out);
        proof {
            assert(bounded(self.current as int, pos, toks.len() as int) == self.current as int);
        }
        let ghost v = p_block_var(toks, c.pos);
        self.var_opt(&mut out);
        proof {
            assert(bounded(self.current as int, pos, toks.len() as int) == self.current as int);
            assert((diags_model(old(self).diags@) + c.diags) + v.diags =~= diags_model(
                old(self).diags@,
            ) + (c.diags + v.diags));
            assert((c.stmts + v.stmts) =~= stmts_model(out@));
        }
        let ghost procs = p_block_procs(toks, v.pos);
        self.procedures(&mut out);
        proof {
            assert(bounded(self.current as int, pos, toks.len() as int) == self.current as int);
            assert((diags_model(old(self).diags@) + (c.diags + v.diags)) + procs.diags
                =~= diags_model(old(self).diags@) + (c.diags + v.diags + procs.diags));
            assert(((c.stmts + v.stmts) + procs.stmts) =~= (c.stmts + v.stmts + procs.stmts));
        }
        let ghost sstep = p_statement(toks, procs.pos);
        match self.statement() {
            Ok(st) => {
                proof {
                    lemma_stmts_model_push(out@, st);
                    assert((c.stmts + v.stmts + procs.stmts).push(st@) =~= c.stmts + v.stmts
                        + procs.stmts + seq![st@]);
                    assert((diags_model(old(self).diags@) + (c.diags + v.diags + procs.diags))
                        + sstep.diags =~= diags_model(old(self).diags@) + (c.diags + v.diags
                        + procs.diags + sstep.diags));
                }
                out.push(st);
            },
            Err(_) => {
                proof {
                    assert(bounded(self.current as int, pos, toks.len() as int) == self.current
                        as int);
                    assert((diags_model(old(self).diags@) + (c.diags + v.diags + procs.diags))
                        + sstep.diags =~= diags_model(old(self).diags@) + (c.diags + v.diags
                        + procs.diags + sstep.diags));
                }
                self.synchronise();
            },
        }
        out
    }


    /// Parse the whole program: blocks until the closing period, with the
    /// statements of every surviving block in source order. One malformed
    /// block does not prevent later blocks from being parsed; the collected
    /// diagnostics say what failed, and a program that ends without its
    /// period is reported too.
    #[verifier::rlimit(100)]
    pub fn parse(&mut self) -> (r: Vec<Stmt>)
        requires
            old(self).wf(),
            old(self).current == 0,
            old(self).diags@.len() == 0,
        ensures
            final(self).wf(),
            final(self).tokens == old(self).tokens,
            stmts_model(r@) == p_parse(old(self).toks(), 0).stmts,
            diags_model(final(self).diags@) == p_parse(old(self).toks(), 0).diags,
    {
        let ghost toks = old(self).toks();
        let ghost full = p_parse(toks, 0);
        let mut out: Vec<Stmt> = Vec::new();
        proof {
            assert(diags_model(self.diags@) =~= Seq::<DiagModel>::empty());
            assert(stmts_model(out@) =~= Seq::<StmtModel>::empty());
            assert(Seq::<StmtModel>::empty() + full.stmts =~= full.stmts);
            assert(Seq::<DiagModel>::empty() + full.diags =~= full.diags);
        }
        #[verifier::loop_isolation(false)]
        loop
            invariant
                self.wf(),
                self.tokens == old(self).tokens,
                ({
                    let rest = p_parse(toks, self.current as int);
                    &&& stmts_model(out@) + rest.stmts =~= full.stmts
                    &&& diags_model(self.diags@) + rest.diags =~= full.diags
                }),
            decreases toks.len() - self.current,
        {
            if self.is_at_end() {
                break ;
            }
            let ghost pos = self.current as int;
            let ghost stmts_in = stmts_model(out@);
            let ghost diags_in = diags_model(self.diags@);
            let ghost bstep = p_block(toks, pos);
            let mut stmts = self.block();
            proof {
                lemma_stmts_model_append(out@, stmts@);
                assert(bounded(self.current as int, pos + 1, toks.len() as int) == self.current
                    as int);
                let rest2 = p_parse(toks, self.current as int);
                assert((stmts_in + bstep.stmts) + rest2.stmts =~= stmts_in + (bstep.stmts
                    + rest2.stmts));
                assert((diags_in + bstep.diags) + rest2.diags =~= diags_in + (bstep.diags
                    + rest2.diags));
            }
            out.append(&mut stmts);
        }
        if self.tokens[self.current].kind == TokenType::EOF {
            // The program ended without its closing period.
            let _ = self.error(DiagKind::ExpectedProgramDot);
            proof {
                assert(diags_model(self.diags@) + Seq::<DiagModel>::empty() =~= diags_model(
                    self.diags@,
                ));
                assert(stmts_model(out@) + Seq::<StmtModel>::empty() =~= stmts_model(out@));
            }
        } else {
            proof {
                assert(diags_model(self.diags@) + Seq::<DiagModel>::empty() =~= diags_model(
                    self.diags@,
                ));
                assert(stmts_model(out@) + Seq::<StmtModel>::empty() =~= stmts_model(out@));
            }
        }
        out
    }

    /// Consume a token of kind `kind`, or report `dkind` at the lookahead
    /// and fail.
    fn consume(&mut self, kind: TokenType, dkind: DiagKind) -> (r: Result<Token, ParseError>)
        requires
            old(self).wf(),
        ensures
            final(self).wf(),
            final(self).tokens == old(self).tokens,
            old(self).current <= final(self).current,
            match r {
                Ok(t) => p_check(old(self).toks(), old(self).current as int, kind) && t@ == old(self).toks()[old(self).current as int] && final(self).current == old(self).current + 1
                    && final(self).diags == old(self).diags,
                Err(_) => !p_check(old(self).toks(), old(self).current as int, kind) && final(self).current == old(self).current && diags_model(final(self).diags@) == diags_model(
                    old(self).diags@,
                ) + seq![p_diag(old(self).toks(), old(self).current as int, dkind)],
            },
    {
        if self.check(kind) {
            Ok(self.advance())
        } else {
            Err(self.error(dkind))
        }
    }
}

/// Basic shape of `stmts_model`: it maps the sequence elementwise.
pub proof fn lemma_stmts_model_len(v: Seq<Stmt>)
    ensures
        stmts_model(v).len() == v.len(),
        forall|i: int| 0 <= i < v.len() ==> stmts_model(v)[i] == stmt_model(#[trigger] v[i]),
    decreases v.len(),
{
    if v.len() > 0 {
        lemma_stmts_model_len(v.drop_first());
        assert forall|i: int| 0 <= i < v.len() implies stmts_model(v)[i] == stmt_model(
            #[trigger] v[i],
        ) by {
            if i > 0 {
                assert(v.drop_first()[i - 1] == v[i]);
                assert(stmts_model(v)[i] == stmts_model(v.drop_first())[i - 1]);
            }
        }
    }
}

} // verus!
