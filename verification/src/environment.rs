//! The lexically-scoped binding environment.
//!
//! Live scopes always form a strictly nested (stack-like) chain: one root
//! scope exists for the whole program, a procedure call pushes a child scope
//! parented to the caller's current scope, and the call's return discards it.
//! The chain is therefore held as a stack of scope records; the last record
//! is the current scope and its predecessor is its parent.
//!
//! Each scope level is a flat table per namespace (variables, constants,
//! procedures). Lookup walks from the current scope to the root, so an inner
//! declaration shadows an outer one of the same name until the inner scope
//! is discarded.

use vstd::prelude::*;

use crate::error::{RuntimeError, RuntimeErrorKind};
use crate::parser::{clone_stmts, lemma_stmts_model_ext, stmts_model, Stmt, StmtModel};
use crate::token::{bytes_eq, clone_bytes, Token};

verus! {

/// The mathematical value of one scope level: what each name denotes there.
/// A variable maps to `None` while it is declared but not yet assigned.
pub struct ScopeModel {
    pub vars: Map<Seq<u8>, Option<i32>>,
    pub consts: Map<Seq<u8>, i32>,
    pub procs: Map<Seq<u8>, Seq<StmtModel>>,
}

impl ScopeModel {
    /// A scope level with no bindings at all.
    pub open spec fn empty() -> ScopeModel {
        ScopeModel { vars: Map::empty(), consts: Map::empty(), procs: Map::empty() }
    }

    /// This level with the variable binding `k -> v` added or overwritten.
    pub open spec fn with_var(self, k: Seq<u8>, v: Option<i32>) -> ScopeModel {
        ScopeModel { vars: self.vars.insert(k, v), ..self }
    }

    /// This level with the constant binding `k -> v` added.
    pub open spec fn with_const(self, k: Seq<u8>, v: i32) -> ScopeModel {
        ScopeModel { consts: self.consts.insert(k, v), ..self }
    }

    /// This level with the procedure `k`, whose body is `body`, added.
    pub open spec fn with_proc(self, k: Seq<u8>, body: Seq<StmtModel>) -> ScopeModel {
        ScopeModel { procs: self.procs.insert(k, body), ..self }
    }
}

/// The value a variable or constant named `k` denotes, walking from the
/// current scope up through its parents: `None` if `k` is bound nowhere,
/// `Some(None)` if the nearest binding is a declared-but-unassigned variable,
/// `Some(Some(v))` if it is a variable with value `v` or a constant `v`.
/// Within one level a variable hides a constant of the same name.
pub open spec fn lookup_var_model(env: Seq<ScopeModel>, k: Seq<u8>) -> Option<Option<i32>>
    decreases env.len(),
{
    if env.len() == 0 {
        None
    } else if env.last().vars.contains_key(k) {
        Some(env.last().vars[k])
    } else if env.last().consts.contains_key(k) {
        Some(Some(env.last().consts[k]))
    } else {
        lookup_var_model(env.drop_last(), k)
    }
}

/// The body of the procedure named `k`, walking from the current scope up
/// through its parents: `None` if `k` names a procedure nowhere.
pub open spec fn lookup_proc_model(env: Seq<ScopeModel>, k: Seq<u8>) -> Option<Seq<StmtModel>>
    decreases env.len(),
{
    if env.len() == 0 {
        None
    } else if env.last().procs.contains_key(k) {
        Some(env.last().procs[k])
    } else {
        lookup_proc_model(env.drop_last(), k)
    }
}

/// The effect of assigning `v` to the variable named `k`: the chain with the
/// binding overwritten at the nearest enclosing scope that declares `k` as a
/// variable. No new binding is ever created. If the nearest binding of `k`
/// is a constant, the assignment faults with `ConstAssignment`; if `k` is
/// bound nowhere, with `UnboundName`.
pub open spec fn assign_var_model(env: Seq<ScopeModel>, k: Seq<u8>, v: Option<i32>) -> Result<
    Seq<ScopeModel>,
    RuntimeErrorKind,
>
    decreases env.len(),
{
    if env.len() == 0 {
        Err(RuntimeErrorKind::UnboundName)
    } else if env.last().vars.contains_key(k) {
        Ok(env.drop_last().push(env.last().with_var(k, v)))
    } else if env.last().consts.contains_key(k) {
        Err(RuntimeErrorKind::ConstAssignment)
    } else {
        match assign_var_model(env.drop_last(), k, v) {
            Ok(parents) => Ok(parents.push(env.last())),
            Err(e) => Err(e),
        }
    }
}

/// A successful assignment keeps the chain's length: it only overwrites.
pub proof fn lemma_assign_model_len(env: Seq<ScopeModel>, k: Seq<u8>, v: Option<i32>)
    ensures
        assign_var_model(env, k, v) is Ok ==> assign_var_model(env, k, v)->Ok_0.len() == env.len(),
    decreases env.len(),
{
    if env.len() > 0 && !env.last().vars.contains_key(k) && !env.last().consts.contains_key(k) {
        lemma_assign_model_len(env.drop_last(), k, v);
    }
}


/// Assigning to a name that no scope in the chain binds always faults with
/// `UnboundName`: assignment never creates a binding.
pub proof fn lemma_assign_unbound_name(env: Seq<ScopeModel>, k: Seq<u8>, v: Option<i32>)
    requires
        forall|i: int|
            0 <= i < env.len() ==> !(#[trigger] env[i]).vars.contains_key(k)
                && !env[i].consts.contains_key(k),
    ensures
        assign_var_model(env, k, v) == Err::<Seq<ScopeModel>, RuntimeErrorKind>(
            RuntimeErrorKind::UnboundName,
        ),
    decreases env.len(),
{
    if env.len() > 0 {
        assert(env.last() == env[env.len() - 1]);
        assert forall|i: int|
            0 <= i < env.drop_last().len() implies !(#[trigger] env.drop_last()[i]).vars.contains_key(
            k,
        ) && !env.drop_last()[i].consts.contains_key(k) by {
            assert(env.drop_last()[i] == env[i]);
        }
        lemma_assign_unbound_name(env.drop_last(), k, v);
    }
}

/// Assigning to a name that the chain binds only as a constant always
/// faults with `ConstAssignment`.
pub proof fn lemma_assign_to_constant(env: Seq<ScopeModel>, k: Seq<u8>, v: Option<i32>)
    requires
        forall|i: int| 0 <= i < env.len() ==> !(#[trigger] env[i]).vars.contains_key(k),
        exists|j: int| 0 <= j < env.len() && (#[trigger] env[j]).consts.contains_key(k),
    ensures
        assign_var_model(env, k, v) == Err::<Seq<ScopeModel>, RuntimeErrorKind>(
            RuntimeErrorKind::ConstAssignment,
        ),
    decreases env.len(),
{
    assert(env.last() == env[env.len() - 1]);
    if !env.last().consts.contains_key(k) {
        let j = choose|j: int| 0 <= j < env.len() && (#[trigger] env[j]).consts.contains_key(k);
        assert(j < env.len() - 1);
        assert forall|i: int|
            0 <= i < env.drop_last().len() implies !(#[trigger] env.drop_last()[i]).vars.contains_key(
            k,
        ) by {
            assert(env.drop_last()[i] == env[i]);
        }
        assert(env.drop_last()[j] == env[j]);
        lemma_assign_to_constant(env.drop_last(), k, v);
    }
}

/// A variable just declared — bound in the current scope with no value —
/// reads back as declared-but-unassigned, never as a number.
pub proof fn lemma_declared_unassigned_reads_none(env: Seq<ScopeModel>, k: Seq<u8>)
    requires
        env.len() >= 1,
    ensures
        lookup_var_model(env.update(env.len() - 1, env.last().with_var(k, None)), k) == Some(
            None::<i32>,
        ),
{
    let env2 = env.update(env.len() - 1, env.last().with_var(k, None));
    assert(env2.last() == env.last().with_var(k, None));
    assert(env2.last().vars.contains_key(k));
    assert(env2.last().vars[k] == None::<i32>);
}

/// The position of the first entry of `names` that spells `k`, or -1 if
/// none does.
pub open spec fn first_index(names: Seq<Vec<u8>>, k: Seq<u8>) -> int
    decreases names.len(),
{
    if names.len() == 0 {
        -1
    } else if names[0]@ == k {
        0
    } else {
        let rest = first_index(names.drop_first(), k);
        if rest < 0 {
            -1
        } else {
            rest + 1
        }
    }
}

/// The binding table spelled out by parallel name and value rows: each key
/// maps to the value beside its first occurrence among the names.
pub open spec fn map_of<V>(names: Seq<Vec<u8>>, vals: Seq<V>) -> Map<Seq<u8>, V> {
    Map::new(|k: Seq<u8>| first_index(names, k) >= 0, |k: Seq<u8>| vals[first_index(names, k)])
}

/// `first_index` is in range and finds an entry that spells `k`, when it
/// finds one.
pub proof fn lemma_first_index_bounds(names: Seq<Vec<u8>>, k: Seq<u8>)
    ensures
        first_index(names, k) >= 0 ==> first_index(names, k) < names.len() && names[first_index(
            names,
            k,
        )]@ == k,
        first_index(names, k) >= 0 <==> exists|j: int| 0 <= j < names.len() && names[j]@ == k,
    decreases names.len(),
{
    if names.len() > 0 && names[0]@ != k {
        lemma_first_index_bounds(names.drop_first(), k);
        let rest = first_index(names.drop_first(), k);
        if rest >= 0 {
            assert(names[rest + 1]@ == k);
        } else {
            assert forall|j: int| 0 <= j < names.len() implies names[j]@ != k by {
                if j > 0 {
                    assert(names.drop_first()[j - 1] == names[j]);
                }
            }
        }
    }
}

/// A forward scan that saw only mismatches up to `i` pins `first_index`
/// down: it is `i` on a match at `i`, and -1 when `i` is the length.
pub proof fn lemma_first_index_scan(names: Seq<Vec<u8>>, k: Seq<u8>, i: int)
    requires
        0 <= i <= names.len(),
        forall|j: int| 0 <= j < i ==> (#[trigger] names[j])@ != k,
    ensures
        i < names.len() && names[i]@ == k ==> first_index(names, k) == i,
        i == names.len() ==> first_index(names, k) == -1,
    decreases names.len(),
{
    if names.len() > 0 && names[0]@ != k {
        assert forall|j: int| 0 <= j < i - 1 implies (#[trigger] names.drop_first()[j])@ != k by {
            assert(names.drop_first()[j] == names[j + 1]);
        }
        if i > 0 {
            lemma_first_index_scan(names.drop_first(), k, i - 1);
            if i < names.len() {
                assert(names.drop_first()[i - 1] == names[i]);
            }
        } else {
            // A match at position 0 was excluded, so i > 0 whenever i is a match;
            // with i == 0 the claims are about a match at 0, contradicting the test.
        }
    }
}

/// The first entry that spells any key `q` is unchanged by appending a name,
/// and the appended name becomes the first for `q` only if no earlier entry
/// spells `q`.
pub proof fn lemma_first_index_push(names: Seq<Vec<u8>>, k: Seq<u8>, n: Vec<u8>)
    ensures
        first_index(names.push(n), k) == if first_index(names, k) >= 0 {
            first_index(names, k)
        } else if n@ == k {
            names.len() as int
        } else {
            -1int
        },
    decreases names.len(),
{
    if names.len() == 0 {
        assert(names.push(n).len() == 1);
        assert(names.push(n)[0] == n);
        if n@ == k {
            assert(first_index(names.push(n), k) == 0);
        } else {
            assert(names.push(n).drop_first() =~= Seq::<Vec<u8>>::empty());
            assert(first_index(Seq::<Vec<u8>>::empty(), k) == -1);
            assert(first_index(names.push(n), k) == -1);
        }
    } else {
        assert(names.push(n)[0] == names[0]);
        if names[0]@ != k {
            lemma_first_index_push(names.drop_first(), k, n);
            assert(names.push(n).drop_first() =~= names.drop_first().push(n));
            assert(first_index(names.push(n).drop_first(), k) == first_index(
                names.drop_first().push(n),
                k,
            ));
        }
    }
}

/// Appending a name that no earlier entry spells adds a binding; every other
/// binding keeps its place.
pub proof fn lemma_map_of_push<V>(names: Seq<Vec<u8>>, vals: Seq<V>, n: Vec<u8>, v: V)
    requires
        names.len() == vals.len(),
        first_index(names, n@) == -1,
    ensures
        map_of(names.push(n), vals.push(v)) == map_of(names, vals).insert(n@, v),
{
    let m1 = map_of(names.push(n), vals.push(v));
    let m2 = map_of(names, vals).insert(n@, v);
    assert forall|q: Seq<u8>| m1.contains_key(q) <==> m2.contains_key(q) by {
        lemma_first_index_push(names, q, n);
    }
    assert forall|q: Seq<u8>| m1.contains_key(q) implies m1[q] == m2[q] by {
        lemma_first_index_push(names, q, n);
        lemma_first_index_bounds(names, q);
        lemma_first_index_bounds(names.push(n), q);
    }
    assert(m1 =~= m2);
}

/// Overwriting the value beside the first occurrence of a name rebinds that
/// name; every other binding keeps its value.
pub proof fn lemma_map_of_update<V>(names: Seq<Vec<u8>>, vals: Seq<V>, i: int, v: V)
    requires
        names.len() == vals.len(),
        0 <= i < names.len(),
        first_index(names, names[i]@) == i,
    ensures
        map_of(names, vals.update(i, v)) == map_of(names, vals).insert(names[i]@, v),
{
    assert forall|q: Seq<u8>| first_index(names, q) >= 0 implies vals.update(i, v)[first_index(
        names,
        q,
    )] == map_of(names, vals).insert(names[i]@, v)[q] by {
        lemma_first_index_bounds(names, q);
        if first_index(names, q) == i {
            assert(names[i]@ == q);
        }
    }
    assert(map_of(names, vals.update(i, v)) =~= map_of(names, vals).insert(names[i]@, v));
}

/// The values of a row of procedure bodies, elementwise.
pub open spec fn proc_bodies_model(bodies: Seq<Vec<Stmt>>) -> Seq<Seq<StmtModel>> {
    bodies.map(|_i: int, b: Vec<Stmt>| stmts_model(b@))
}

/// One scope level: parallel name and value rows per namespace. The value
/// beside the first occurrence of a name is the binding that counts; the
/// operations below never append a name twice, so each name occurs once.
struct Scope {
    var_names: Vec<Vec<u8>>,
    var_vals: Vec<Option<i32>>,
    const_names: Vec<Vec<u8>>,
    const_vals: Vec<i32>,
    proc_names: Vec<Vec<u8>>,
    proc_bodies: Vec<Vec<Stmt>>,
}

impl Scope {
    /// Each name row is as long as its value row.
    spec fn wf(&self) -> bool {
        &&& self.var_names@.len() == self.var_vals@.len()
        &&& self.const_names@.len() == self.const_vals@.len()
        &&& self.proc_names@.len() == self.proc_bodies@.len()
    }

    /// The binding tables this level spells out.
    spec fn model(&self) -> ScopeModel {
        ScopeModel {
            vars: map_of(self.var_names@, self.var_vals@),
            consts: map_of(self.const_names@, self.const_vals@),
            procs: map_of(self.proc_names@, proc_bodies_model(self.proc_bodies@)),
        }
    }

    /// A scope level with no bindings.
    fn empty() -> (s: Scope)
        ensures
            s.wf(),
            s.model() == ScopeModel::empty(),
    {
        let s = Scope {
            var_names: Vec::new(),
            var_vals: Vec::new(),
            const_names: Vec::new(),
            const_vals: Vec::new(),
            proc_names: Vec::new(),
            proc_bodies: Vec::new(),
        };
        proof {
            assert forall|q: Seq<u8>| first_index(Seq::<Vec<u8>>::empty(), q) == -1 by {}
            assert(s.model().vars =~= ScopeModel::empty().vars);
            assert(s.model().consts =~= ScopeModel::empty().consts);
            assert(s.model().procs =~= ScopeModel::empty().procs);
        }
        s
    }
}

/// The position of the first entry of `names` that spells `k`, by scan.
fn find_name(names: &Vec<Vec<u8>>, k: &Vec<u8>) -> (r: Option<usize>)
    ensures
        match r {
            Some(i) => first_index(names@, k@) == i as int,
            None => first_index(names@, k@) == -1,
        },
{
    let mut i: usize = 0;
    while i < names.len()
        invariant
            i <= names@.len(),
            forall|j: int| 0 <= j < i ==> (#[trigger] names@[j])@ != k@,
        decreases names@.len() - i,
    {
        if bytes_eq(&names[i], k) {
            proof {
                lemma_first_index_scan(names@, k@, i as int);
            }
            return Some(i);
        }
        i = i + 1;
    }
    proof {
        lemma_first_index_scan(names@, k@, i as int);
    }
    None
}

/// The chained binding environment: a stack of scope levels whose last
/// entry is the current scope and whose first entry is the program root.
pub struct Environment {
    scopes: Vec<Scope>,
}

impl View for Environment {
    type V = Seq<ScopeModel>;

    closed spec fn view(&self) -> Seq<ScopeModel> {
        self.scopes@.map(|_i: int, s: Scope| s.model())
    }
}

impl Environment {
    /// The chain always holds at least the root scope, and each level's
    /// rows line up.
    pub closed spec fn wf(&self) -> bool {
        &&& self.scopes@.len() >= 1
        &&& forall|i: int| 0 <= i < self.scopes@.len() ==> (#[trigger] self.scopes@[i]).wf()
    }

    /// A well-formed chain is never empty.
    pub proof fn lemma_wf_nonempty(&self)
        requires
            self.wf(),
        ensures
            self@.len() >= 1,
    {
    }

    /// A fresh environment: one empty root scope.
    pub fn new() -> (e: Environment)
        ensures
            e.wf(),
            e@ =~= seq![ScopeModel::empty()],
    {
        let mut scopes: Vec<Scope> = Vec::new();
        scopes.push(Scope::empty());
        Environment { scopes }
    }

    /// Enter a child scope parented to the current scope, as a procedure
    /// call does.
    pub fn from_parent(&mut self)
        requires
            old(self).wf(),
        ensures
            final(self).wf(),
            final(self)@ =~= old(self)@.push(ScopeModel::empty()),
    {
        self.scopes.push(Scope::empty());
    }

    /// Discard the current scope and make its parent current again, as a
    /// procedure return does.
    pub fn discard_scope(&mut self)
        requires
            old(self).wf(),
            old(self)@.len() > 1,
        ensures
            final(self).wf(),
            final(self)@ =~= old(self)@.drop_last(),
    {
        let got = self.scopes.pop();
        proof {
            assert(self.scopes@ =~= old(self).scopes@.drop_last());
        }
    }

    /// Create an uninitialized binding for `name` in the current scope;
    /// a second declaration of the same name at this level is refused with
    /// `DoubleDeclaration` and changes nothing.
    pub fn declare_var(&mut self, name: Token) -> (r: Result<(), RuntimeError>)
        requires
            old(self).wf(),
        ensures
            final(self).wf(),
            match r {
                Ok(()) => !old(self)@.last().vars.contains_key(name@.lexeme) && final(self)@
                    == old(self)@.update(
                    old(self)@.len() - 1,
                    old(self)@.last().with_var(name@.lexeme, None),
                ),
                Err(e) => old(self)@.last().vars.contains_key(name@.lexeme) && e@.kind
                    == RuntimeErrorKind::DoubleDeclaration && e@.name == name@.lexeme && final(self)@ == old(self)@,
            },
    {
        let ghost k = name@.lexeme;
        let ghost n = old(self)@.len() - 1;
        proof {
            assert(old(self)@[n] == old(self).scopes@[n].model());
        }
        match self.scopes.pop() {
            Some(mut sc) => {
                match find_name(&sc.var_names, &name.lexeme) {
                    Some(_) => {
                        self.scopes.push(sc);
                        proof {
                            assert(self.scopes@ =~= old(self).scopes@);
                        }
                        Err(RuntimeError { kind: RuntimeErrorKind::DoubleDeclaration, name: name.lexeme })
                    },
                    None => {
                        let lex = clone_bytes(&name.lexeme);
                        proof {
                            lemma_map_of_push(sc.var_names@, sc.var_vals@, lex, None);
                        }
                        sc.var_names.push(lex);
                        sc.var_vals.push(None);
                        self.scopes.push(sc);
                        proof {
                            assert(self.scopes@ =~= old(self).scopes@.update(
                                n,
                                self.scopes@.last(),
                            ));
                            assert(self.scopes@.last().model() == old(self)@[n].with_var(k, None));
                            assert(self@ =~= old(self)@.update(n, old(self)@[n].with_var(k, None)));
                        }
                        Ok(())
                    },
                }
            },
            None => {
                proof {
                    assert(false);
                }
                Ok(())
            },
        }
    }

    /// Bind the constant `name = value` in the current scope; a second
    /// constant of the same name at this level is refused with
    /// `DoubleDeclaration` and changes nothing.
    pub fn declare_const(&mut self, name: Token, value: i32) -> (r: Result<(), RuntimeError>)
        requires
            old(self).wf(),
        ensures
            final(self).wf(),
            match r {
                Ok(()) => !old(self)@.last().consts.contains_key(name@.lexeme) && final(self)@
                    == old(self)@.update(
                    old(self)@.len() - 1,
                    old(self)@.last().with_const(name@.lexeme, value),
                ),
                Err(e) => old(self)@.last().consts.contains_key(name@.lexeme) && e@.kind
                    == RuntimeErrorKind::DoubleDeclaration && e@.name == name@.lexeme && final(self)@ == old(self)@,
            },
    {
        let ghost k = name@.lexeme;
        let ghost n = old(self)@.len() - 1;
        proof {
            assert(old(self)@[n] == old(self).scopes@[n].model());
        }
        match self.scopes.pop() {
            Some(mut sc) => {
                match find_name(&sc.const_names, &name.lexeme) {
                    Some(_) => {
                        self.scopes.push(sc);
                        proof {
                            assert(self.scopes@ =~= old(self).scopes@);
                        }
                        Err(RuntimeError { kind: RuntimeErrorKind::DoubleDeclaration, name: name.lexeme })
                    },
                    None => {
                        let lex = clone_bytes(&name.lexeme);
                        proof {
                            lemma_map_of_push(sc.const_names@, sc.const_vals@, lex, value);
                        }
                        sc.const_names.push(lex);
                        sc.const_vals.push(value);
                        self.scopes.push(sc);
                        proof {
                            assert(self.scopes@ =~= old(self).scopes@.update(
                                n,
                                self.scopes@.last(),
                            ));
                            assert(self.scopes@.last().model() == old(self)@[n].with_const(
                                k,
                                value,
                            ));
                            assert(self@ =~= old(self)@.update(
                                n,
                                old(self)@[n].with_const(k, value),
                            ));
                        }
                        Ok(())
                    },
                }
            },
            None => {
                proof {
                    assert(false);
                }
                Ok(())
            },
        }
    }

    /// Record the body of the procedure `name` in the current scope; a
    /// second procedure of the same name at this level is refused with
    /// `DoubleDeclaration` and changes nothing.
    pub fn define_proc(&mut self, name: Token, def: Vec<Stmt>) -> (r: Result<(), RuntimeError>)
        requires
            old(self).wf(),
        ensures
            final(self).wf(),
            match r {
                Ok(()) => !old(self)@.last().procs.contains_key(name@.lexeme) && final(self)@
                    == old(self)@.update(
                    old(self)@.len() - 1,
                    old(self)@.last().with_proc(name@.lexeme, stmts_model(def@)),
                ),
                Err(e) => old(self)@.last().procs.contains_key(name@.lexeme) && e@.kind
                    == RuntimeErrorKind::DoubleDeclaration && e@.name == name@.lexeme && final(self)@ == old(self)@,
            },
    {
        let ghost k = name@.lexeme;
        let ghost n = old(self)@.len() - 1;
        proof {
            assert(old(self)@[n] == old(self).scopes@[n].model());
        }
        match self.scopes.pop() {
            Some(mut sc) => {
                match find_name(&sc.proc_names, &name.lexeme) {
                    Some(_) => {
                        self.scopes.push(sc);
                        proof {
                            assert(self.scopes@ =~= old(self).scopes@);
                        }
                        Err(RuntimeError { kind: RuntimeErrorKind::DoubleDeclaration, name: name.lexeme })
                    },
                    None => {
                        let lex = clone_bytes(&name.lexeme);
                        proof {
                            lemma_map_of_push(
                                sc.proc_names@,
                                proc_bodies_model(sc.proc_bodies@),
                                lex,
                                stmts_model(def@),
                            );
                        }
                        let ghost old_bodies = sc.proc_bodies@;
                        sc.proc_names.push(lex);
                        sc.proc_bodies.push(def);
                        self.scopes.push(sc);
                        proof {
                            assert(proc_bodies_model(old_bodies.push(self.scopes@.last().proc_bodies@.last()))
                                =~= proc_bodies_model(old_bodies).push(
                                stmts_model(self.scopes@.last().proc_bodies@.last()@),
                            ));
                            assert(self.scopes@ =~= old(self).scopes@.update(
                                n,
                                self.scopes@.last(),
                            ));
                            assert(self.scopes@.last().model() == old(self)@[n].with_proc(
                                k,
                                stmts_model(def@),
                            ));
                            assert(self@ =~= old(self)@.update(
                                n,
                                old(self)@[n].with_proc(k, stmts_model(def@)),
                            ));
                        }
                        Ok(())
                    },
                }
            },
            None => {
                proof {
                    assert(false);
                }
                Ok(())
            },
        }
    }

    /// The current value of the variable or constant `name`, resolved
    /// through the scope chain; `UnboundName` if no scope binds it.
    pub fn get_var(&self, name: Token) -> (r: Result<Option<i32>, RuntimeError>)
        requires
            self.wf(),
        ensures
            match r {
                Ok(v) => lookup_var_model(self@, name@.lexeme) == Some(v),
                Err(e) => lookup_var_model(self@, name@.lexeme) == None::<Option<i32>> && e@.kind
                    == RuntimeErrorKind::UnboundName && e@.name == name@.lexeme,
            },
    {
        let ghost k = name@.lexeme;
        let mut i: usize = self.scopes.len();
        proof {
            assert(self@.take(i as int) =~= self@);
        }
        while i > 0
            invariant
                self.wf(),
                i <= self.scopes@.len(),
                k == name@.lexeme,
                lookup_var_model(self@, k) == lookup_var_model(self@.take(i as int), k),
            decreases i,
        {
            i = i - 1;
            let sc = &self.scopes[i];
            proof {
                assert(self@[i as int] == self.scopes@[i as int].model());
                assert(self@.take(i + 1).last() == self@[i as int]);
                assert(self@.take(i + 1).drop_last() =~= self@.take(i as int));
            }
            match find_name(&sc.var_names, &name.lexeme) {
                Some(j) => {
                    proof {
                        lemma_first_index_bounds(sc.var_names@, k);
                        assert(sc.model().vars.contains_key(k));
                        assert(sc.model().vars[k] == sc.var_vals@[j as int]);
                    }
                    return Ok(sc.var_vals[j]);
                },
                None => {
                    match find_name(&sc.const_names, &name.lexeme) {
                        Some(j) => {
                            proof {
                                lemma_first_index_bounds(sc.const_names@, k);
                                assert(!sc.model().vars.contains_key(k));
                                assert(sc.model().consts.contains_key(k));
                                assert(sc.model().consts[k] == sc.const_vals@[j as int]);
                            }
                            return Ok(Some(sc.const_vals[j]));
                        },
                        None => {
                            proof {
                                assert(!sc.model().vars.contains_key(k));
                                assert(!sc.model().consts.contains_key(k));
                            }
                        },
                    }
                },
            }
        }
        proof {
            assert(self@.take(0).len() == 0);
        }
        Err(RuntimeError { kind: RuntimeErrorKind::UnboundName, name: name.lexeme })
    }

    /// A copy of the body of the procedure `name`, resolved through the
    /// scope chain; `UndefinedProcedure` if no scope defines it.
    pub fn get_proc(&self, name: Token) -> (r: Result<Vec<Stmt>, RuntimeError>)
        requires
            self.wf(),
        ensures
            match r {
                Ok(body) => lookup_proc_model(self@, name@.lexeme) == Some(stmts_model(body@)),
                Err(e) => lookup_proc_model(self@, name@.lexeme) == None::<Seq<StmtModel>>
                    && e@.kind == RuntimeErrorKind::UndefinedProcedure && e@.name == name@.lexeme,
            },
    {
        let ghost k = name@.lexeme;
        let mut i: usize = self.scopes.len();
        proof {
            assert(self@.take(i as int) =~= self@);
        }
        while i > 0
            invariant
                self.wf(),
                i <= self.scopes@.len(),
                k == name@.lexeme,
                lookup_proc_model(self@, k) == lookup_proc_model(self@.take(i as int), k),
            decreases i,
        {
            i = i - 1;
            let sc = &self.scopes[i];
            proof {
                assert(self@[i as int] == self.scopes@[i as int].model());
                assert(self@.take(i + 1).last() == self@[i as int]);
                assert(self@.take(i + 1).drop_last() =~= self@.take(i as int));
            }
            match find_name(&sc.proc_names, &name.lexeme) {
                Some(j) => {
                    proof {
                        lemma_first_index_bounds(sc.proc_names@, k);
                        assert(sc.model().procs.contains_key(k));
                        assert(sc.model().procs[k] == proc_bodies_model(sc.proc_bodies@)[j as int]);
                        assert(proc_bodies_model(sc.proc_bodies@)[j as int] == stmts_model(
                            sc.proc_bodies@[j as int]@,
                        ));
                    }
                    let body = clone_stmts(&sc.proc_bodies[j]);
                    proof {
                        lemma_stmts_model_ext(body@, sc.proc_bodies@[j as int]@);
                    }
                    return Ok(body);
                },
                None => {
                    proof {
                        assert(!sc.model().procs.contains_key(k));
                    }
                },
            }
        }
        proof {
            assert(self@.take(0).len() == 0);
        }
        Err(RuntimeError { kind: RuntimeErrorKind::UndefinedProcedure, name: name.lexeme })
    }

    /// Overwrite the binding of `name` with `value` at the nearest enclosing
    /// scope that declares it as a variable, exactly as `assign_var_model`
    /// says; on a fault nothing changes.
    pub fn assign_var(&mut self, name: Token, value: Option<i32>) -> (r: Result<(), RuntimeError>)
        requires
            old(self).wf(),
        ensures
            final(self).wf(),
            match r {
                Ok(()) => assign_var_model(old(self)@, name@.lexeme, value) == Ok::<
                    Seq<ScopeModel>,
                    RuntimeErrorKind,
                >(final(self)@),
                Err(e) => assign_var_model(old(self)@, name@.lexeme, value) == Err::<
                    Seq<ScopeModel>,
                    RuntimeErrorKind,
                >(e@.kind) && e@.name == name@.lexeme && final(self)@ == old(self)@,
            },
    {
        let ghost k = name@.lexeme;
        let ghost full = assign_var_model(old(self)@, k, value);
        let mut i: usize = self.scopes.len();
        proof {
            assert(self@.take(i as int) =~= self@);
            if full is Ok {
                assert(full->Ok_0 + self@.skip(i as int) =~= full->Ok_0);
            }
        }
        while i > 0
            invariant
                self.wf(),
                self == old(self),
                i <= self.scopes@.len(),
                k == name@.lexeme,
                full == assign_var_model(old(self)@, k, value),
                assign_var_model(self@.take(i as int), k, value) is Ok <==> full is Ok,
                full is Err ==> assign_var_model(self@.take(i as int), k, value) == full,
                full is Ok ==> full->Ok_0 == assign_var_model(self@.take(i as int), k, value)->Ok_0
                    + self@.skip(i as int),
            decreases i,
        {
            i = i - 1;
            let ghost part = assign_var_model(self@.take(i + 1), k, value);
            let sc = &self.scopes[i];
            proof {
                assert(self@[i as int] == self.scopes@[i as int].model());
                assert(self@.take(i + 1).last() == self@[i as int]);
                assert(self@.take(i + 1).drop_last() =~= self@.take(i as int));
            }
            match find_name(&sc.var_names, &name.lexeme) {
                Some(j) => {
                    proof {
                        lemma_first_index_bounds(sc.var_names@, k);
                        assert(sc.model().vars.contains_key(k));
                        assert(part == Ok::<Seq<ScopeModel>, RuntimeErrorKind>(
                            self@.take(i as int).push(self@[i as int].with_var(k, value)),
                        ));
                    }
                    let mut owned = self.scopes.remove(i);
                    let ghost names_snap = owned.var_names@;
                    let ghost vals_snap = owned.var_vals@;
                    let _ = owned.var_vals.remove(j);
                    owned.var_vals.insert(j, value);
                    proof {
                        assert(owned.var_vals@ =~= vals_snap.update(j as int, value));
                        lemma_map_of_update(names_snap, vals_snap, j as int, value);
                        assert(names_snap[j as int]@ == k);
                        assert(owned.model() == old(self)@[i as int].with_var(k, value));
                    }
                    self.scopes.insert(i, owned);
                    proof {
                        assert(self.scopes@ =~= old(self).scopes@.update(
                            i as int,
                            self.scopes@[i as int],
                        ));
                        assert(self@ =~= old(self)@.update(
                            i as int,
                            old(self)@[i as int].with_var(k, value),
                        ));
                        assert(full->Ok_0 == old(self)@.take(i as int).push(
                            old(self)@[i as int].with_var(k, value),
                        ) + old(self)@.skip(i + 1));
                        assert(full->Ok_0 =~= self@);
                        assert(full == Ok::<Seq<ScopeModel>, RuntimeErrorKind>(self@));
                    }
                    return Ok(());
                },
                None => {
                    proof {
                        assert(!sc.model().vars.contains_key(k));
                    }
                    match find_name(&sc.const_names, &name.lexeme) {
                        Some(_) => {
                            proof {
                                lemma_first_index_bounds(sc.const_names@, k);
                                assert(sc.model().consts.contains_key(k));
                                assert(part == Err::<Seq<ScopeModel>, RuntimeErrorKind>(
                                    RuntimeErrorKind::ConstAssignment,
                                ));
                            }
                            return Err(
                                RuntimeError {
                                    kind: RuntimeErrorKind::ConstAssignment,
                                    name: name.lexeme,
                                },
                            );
                        },
                        None => {
                            proof {
                                assert(!sc.model().consts.contains_key(k));
                                if full is Ok {
                                    assert(full->Ok_0 == assign_var_model(
                                        self@.take(i as int),
                                        k,
                                        value,
                                    )->Ok_0.push(self@[i as int]) + self@.skip(i + 1));
                                    assert(assign_var_model(self@.take(i as int), k, value)->Ok_0
                                        .push(self@[i as int]) + self@.skip(i + 1)
                                        =~= assign_var_model(self@.take(i as int), k, value)->Ok_0
                                        + self@.skip(i as int));
                                }
                            }
                        },
                    }
                },
            }
        }
        proof {
            assert(self@.take(0).len() == 0);
        }
        Err(RuntimeError { kind: RuntimeErrorKind::UnboundName, name: name.lexeme })
    }
}

} // verus!
