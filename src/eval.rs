//! Evaluation of statements and expressions against an environment.
use vstd::prelude::*;
use crate::ast::{
    copy_names, expr_view, exprs_view, lemma_exprs_view, lemma_stmts_view, names_view, stmt_view,
    stmts_view, BindingDef, BindingUsage, Block, Expr, ExprV, FuncCall, FuncDef, Op, Stmt, StmtV,
};
use crate::env::{bind, define, empty_scope, lemma_find_store, lookup_binding, lookup_func, Env, ScopeV};
use crate::val::Val;

verus! {

/// How many calls may be nested in one evaluation.
pub const MAX_CALL_DEPTH: usize = 100;

/// Why an evaluation failed.
#[derive(Debug, PartialEq)]
pub enum EvalError {
    /// No enclosing scope binds the name.
    UnresolvedBinding(String),
    /// No enclosing scope defines a function of that name.
    UnresolvedFunction(String),
    /// An operand of an arithmetic operation is not a number.
    NotANumber,
    DivisionByZero,
    /// The result of an arithmetic operation does not fit in an `i32`.
    Overflow,
    /// Calls nest deeper than `MAX_CALL_DEPTH`.
    CallTooDeep,
}

pub enum EvalErrorV {
    UnresolvedBinding(Seq<char>),
    UnresolvedFunction(Seq<char>),
    NotANumber,
    DivisionByZero,
    Overflow,
    CallTooDeep,
}

pub open spec fn error_view(e: EvalError) -> EvalErrorV {
    match e {
        EvalError::UnresolvedBinding(n) => EvalErrorV::UnresolvedBinding(n@),
        EvalError::UnresolvedFunction(n) => EvalErrorV::UnresolvedFunction(n@),
        EvalError::NotANumber => EvalErrorV::NotANumber,
        EvalError::DivisionByZero => EvalErrorV::DivisionByZero,
        EvalError::Overflow => EvalErrorV::Overflow,
        EvalError::CallTooDeep => EvalErrorV::CallTooDeep,
    }
}

pub open spec fn result_view(r: Result<Val, EvalError>) -> Result<Val, EvalErrorV> {
    match r {
        Ok(v) => Ok(v),
        Err(e) => Err(error_view(e)),
    }
}

/// Integer division that rounds toward zero.
pub open spec fn div_toward_zero(a: int, b: int) -> int {
    if a == 0 {
        0
    } else if a > 0 && b > 0 {
        a / b
    } else if a < 0 && b < 0 {
        (a * -1) / (b * -1)
    } else if a < 0 {
        ((a * -1) / b) * -1
    } else {
        (a / (b * -1)) * -1
    }
}

/// The exact result of `a op b` over the integers.
pub open spec fn exact(op: Op, a: int, b: int) -> int {
    match op {
        Op::Add => a + b,
        Op::Sub => a - b,
        Op::Mul => a * b,
        Op::Div => div_toward_zero(a, b),
    }
}

/// `a op b` on numbers: the exact result where it fits in an `i32`.
pub open spec fn apply_op(op: Op, a: Val, b: Val) -> Result<Val, EvalErrorV> {
    match (a, b) {
        (Val::Number(x), Val::Number(y)) => if op == Op::Div && y == 0 {
            Err(EvalErrorV::DivisionByZero)
        } else if i32::MIN <= exact(op, x as int, y as int) <= i32::MAX {
            Ok(Val::Number(exact(op, x as int, y as int) as i32))
        } else {
            Err(EvalErrorV::Overflow)
        },
        _ => Err(EvalErrorV::NotANumber),
    }
}

/// `env` with a new innermost scope, where each parameter is bound to the
/// argument at its position (parameters or arguments beyond the shorter of
/// the two are left out).
pub open spec fn bind_params(env: Seq<ScopeV>, params: Seq<Seq<char>>, args: Seq<Val>) -> Seq<ScopeV>
    decreases params.len(),
{
    if params.len() == 0 || args.len() == 0 {
        env
    } else {
        bind_params(
            bind(env, params[0], args[0]),
            params.subrange(1, params.len() as int),
            args.subrange(1, args.len() as int),
        )
    }
}

/// The result of a statement and the environment after it; `depth` is how
/// many more calls may be nested.
pub open spec fn eval_stmt(st: StmtV, env: Seq<ScopeV>, depth: nat) -> (Result<Val, EvalErrorV>, Seq<ScopeV>)
    decreases depth, st, 0int,
{
    match st {
        StmtV::BindingDef(name, e) => {
            let (r, env1) = eval_expr(e, env, depth);
            match r {
                Ok(v) => (Ok(Val::Unit), bind(env1, name, v)),
                Err(err) => (Err(err), env1),
            }
        },
        StmtV::FuncDef(name, params, body) => (Ok(Val::Unit), define(env, name, (params, *body))),
        StmtV::Expr(e) => eval_expr(e, env, depth),
    }
}

pub open spec fn eval_expr(e: ExprV, env: Seq<ScopeV>, depth: nat) -> (Result<Val, EvalErrorV>, Seq<ScopeV>)
    decreases depth, e, 0int,
{
    match e {
        ExprV::Number(n) => (Ok(Val::Number(n)), env),
        ExprV::Operation { lhs, rhs, op } => {
            let (a, env1) = eval_expr(*lhs, env, depth);
            match a {
                Err(err) => (Err(err), env1),
                Ok(va) => {
                    let (b, env2) = eval_expr(*rhs, env1, depth);
                    match b {
                        Err(err) => (Err(err), env2),
                        Ok(vb) => (apply_op(op, va, vb), env2),
                    }
                },
            }
        },
        ExprV::BindingUsage(name) => match lookup_binding(env, name) {
            Some(v) => (Ok(v), env),
            None => (Err(EvalErrorV::UnresolvedBinding(name)), env),
        },
        ExprV::Block(stmts) => eval_block(stmts, env, depth),
        ExprV::FuncCall(callee, args) => match lookup_func(env, callee) {
            None => (Err(EvalErrorV::UnresolvedFunction(callee)), env),
            Some(f) => {
                let (vals, env1) = eval_args(args, env, depth);
                match vals {
                    Err(err) => (Err(err), env1),
                    Ok(vs) => if depth == 0 {
                        (Err(EvalErrorV::CallTooDeep), env1)
                    } else {
                        let child = bind_params(env1.push(empty_scope()), f.0, vs);
                        let (r, env2) = eval_stmt(f.1, child, (depth - 1) as nat);
                        (r, env2.drop_last())
                    },
                }
            },
        },
    }
}

/// The statements in order, in the current scope; the result is the last
/// one's, or `Unit` where there is none.
pub open spec fn eval_block(stmts: Seq<StmtV>, env: Seq<ScopeV>, depth: nat) -> (Result<Val, EvalErrorV>, Seq<ScopeV>)
    decreases depth, stmts, 0int,
{
    if stmts.len() == 0 {
        (Ok(Val::Unit), env)
    } else {
        let (r, env1) = eval_stmt(stmts[0], env, depth);
        if stmts.len() == 1 || r is Err {
            (r, env1)
        } else {
            eval_block(stmts.subrange(1, stmts.len() as int), env1, depth)
        }
    }
}

/// The arguments in order, each in the environment the one before left.
pub open spec fn eval_args(args: Seq<ExprV>, env: Seq<ScopeV>, depth: nat) -> (Result<Seq<Val>, EvalErrorV>, Seq<ScopeV>)
    decreases depth, args, 0int,
{
    if args.len() == 0 {
        (Ok(Seq::empty()), env)
    } else {
        let (r, env1) = eval_expr(args[0], env, depth);
        match r {
            Err(err) => (Err(err), env1),
            Ok(v) => {
                let (rest, env2) = eval_args(args.subrange(1, args.len() as int), env1, depth);
                match rest {
                    Ok(vs) => (Ok(seq![v] + vs), env2),
                    Err(err) => (Err(err), env2),
                }
            },
        }
    }
}

pub open spec fn unit_result(r: Result<(), EvalError>) -> Result<Val, EvalErrorV> {
    match r {
        Ok(()) => Ok(Val::Unit),
        Err(e) => Err(error_view(e)),
    }
}

impl Op {
    /// `a op b` on numbers, with `i32` results.
    pub fn apply(&self, a: Val, b: Val) -> (r: Result<Val, EvalError>)
        ensures
            result_view(r) == apply_op(*self, a, b),
    {
        match (a, b) {
            (Val::Number(x), Val::Number(y)) => {
                let r = match self {
                    Op::Add => x.checked_add(y),
                    Op::Sub => x.checked_sub(y),
                    Op::Mul => x.checked_mul(y),
                    Op::Div => {
                        if y == 0 {
                            return Err(EvalError::DivisionByZero);
                        }
                        x.checked_div(y)
                    },
                };
                match r {
                    Some(v) => Ok(Val::Number(v)),
                    None => Err(EvalError::Overflow),
                }
            },
            _ => Err(EvalError::NotANumber),
        }
    }
}

impl Stmt {
    fn eval_depth(&self, env: &mut Env, depth: usize) -> (r: Result<Val, EvalError>)
        ensures
            (result_view(r), final(env)@) == eval_stmt(stmt_view(*self), old(env)@, depth as nat),
            final(env)@.len() == old(env)@.len(),
        decreases depth, self, 1int,
    {
        proof {
            old(env).lemma_has_scope();
        }
        match self {
            Stmt::BindingDef(d) => {
                proof {
                    assert(decreases_to!(*self => self->BindingDef_0.val));
                }
                let v = d.val.eval_depth(env, depth)?;
                env.store_bindings(d.name.clone(), v);
                Ok(Val::Unit)
            },
            Stmt::FuncDef(f) => {
                env.store_func(f.name.clone(), copy_names(&f.params), f.body.duplicate());
                Ok(Val::Unit)
            },
            Stmt::Expr(e) => e.eval_depth(env, depth),
        }
    }

    /// Evaluates the statement in the innermost scope of `env`.
    pub fn eval(&self, env: &mut Env) -> (r: Result<Val, EvalError>)
        ensures
            (result_view(r), final(env)@) == eval_stmt(stmt_view(*self), old(env)@, MAX_CALL_DEPTH as nat),
    {
        self.eval_depth(env, MAX_CALL_DEPTH)
    }
}

impl Expr {
    fn eval_depth(&self, env: &mut Env, depth: usize) -> (r: Result<Val, EvalError>)
        ensures
            (result_view(r), final(env)@) == eval_expr(expr_view(*self), old(env)@, depth as nat),
            final(env)@.len() == old(env)@.len(),
        decreases depth, self, 1int,
    {
        match self {
            Expr::Number(n) => Ok(Val::Number(n.0)),
            Expr::Operation { lhs, rhs, op } => {
                let a = lhs.eval_depth(env, depth)?;
                let b = rhs.eval_depth(env, depth)?;
                op.apply(a, b)
            },
            Expr::BindingUsage(b) => b.eval(env),
            Expr::Block(b) => {
                proof {
                    assert(decreases_to!(*self => self->Block_0));
                }
                b.eval_depth(env, depth)
            },
            Expr::FuncCall(c) => {
                proof {
                    assert(decreases_to!(*self => self->FuncCall_0));
                }
                c.eval_depth(env, depth)
            },
        }
    }

    /// Evaluates the expression in the innermost scope of `env`.
    pub fn eval(&self, env: &mut Env) -> (r: Result<Val, EvalError>)
        ensures
            (result_view(r), final(env)@) == eval_expr(expr_view(*self), old(env)@, MAX_CALL_DEPTH as nat),
    {
        self.eval_depth(env, MAX_CALL_DEPTH)
    }
}

impl BindingUsage {
    /// The value bound to the name in the innermost scope that binds it.
    pub fn eval(&self, env: &Env) -> (r: Result<Val, EvalError>)
        ensures
            result_view(r) == match lookup_binding(env@, self.name@) {
                Some(v) => Ok(v),
                None => Err(EvalErrorV::UnresolvedBinding(self.name@)),
            },
    {
        env.get_binding_value(self.name.as_str())
    }
}

impl BindingDef {
    /// Evaluates the value in the current scope, then binds the name to it
    /// there.
    pub fn eval(&self, env: &mut Env) -> (r: Result<(), EvalError>)
        ensures
            (unit_result(r), final(env)@) == eval_stmt(
                StmtV::BindingDef(self.name@, expr_view(self.val)),
                old(env)@,
                MAX_CALL_DEPTH as nat,
            ),
    {
        let v = self.val.eval(env)?;
        env.store_bindings(self.name.clone(), v);
        Ok(())
    }
}

impl FuncDef {
    /// Defines the function in the current scope; its body is not evaluated.
    pub fn eval(&self, env: &mut Env)
        ensures
            final(env)@ == define(old(env)@, self.name@, (names_view(self.params@), stmt_view(*self.body))),
    {
        env.store_func(self.name.clone(), copy_names(&self.params), self.body.duplicate());
    }
}

impl Block {
    fn eval_depth(&self, env: &mut Env, depth: usize) -> (r: Result<Val, EvalError>)
        ensures
            (result_view(r), final(env)@) == eval_block(stmts_view(self.stmts@), old(env)@, depth as nat),
            final(env)@.len() == old(env)@.len(),
        decreases depth, self, 0int,
    {
        proof {
            lemma_stmts_view(self.stmts@);
        }
        let ghost all = stmts_view(self.stmts@);
        let n = self.stmts.len();
        if n == 0 {
            return Ok(Val::Unit);
        }
        let mut i: usize = 0;
        assert(all.subrange(0, n as int) =~= all);
        loop
            invariant
                0 <= i < n,
                n == self.stmts@.len(),
                all == stmts_view(self.stmts@),
                all.len() == n,
                forall|j: int| 0 <= j < n ==> #[trigger] all[j] == stmt_view(self.stmts@[j]),
                eval_block(all, old(env)@, depth as nat) == eval_block(all.subrange(i as int, n as int), env@, depth as nat),
                env@.len() == old(env)@.len(),
            decreases n - i,
        {
            proof {
                assert(decreases_to!(*self => self.stmts[i as int]));
                let rest = all.subrange(i as int, n as int);
                assert(rest[0] == all[i as int]);
                assert(rest.subrange(1, rest.len() as int) =~= all.subrange(i + 1, n as int));
            }
            let r = self.stmts[i].eval_depth(env, depth);
            if i + 1 == n || r.is_err() {
                return r;
            }
            i = i + 1;
        }
    }

    /// Evaluates the statements in order, in the current scope.
    pub fn eval(&self, env: &mut Env) -> (r: Result<Val, EvalError>)
        ensures
            (result_view(r), final(env)@) == eval_block(stmts_view(self.stmts@), old(env)@, MAX_CALL_DEPTH as nat),
    {
        self.eval_depth(env, MAX_CALL_DEPTH)
    }
}

impl FuncCall {
    fn eval_depth(&self, env: &mut Env, depth: usize) -> (r: Result<Val, EvalError>)
        ensures
            (result_view(r), final(env)@) == eval_expr(
                ExprV::FuncCall(self.callee@, exprs_view(self.params@)),
                old(env)@,
                depth as nat,
            ),
            final(env)@.len() == old(env)@.len(),
        decreases depth, self, 0int,
    {
        let (params, body) = match env.get_func(self.callee.as_str()) {
            Some(f) => (copy_names(&f.1), f.2.duplicate()),
            None => {
                return Err(EvalError::UnresolvedFunction(self.callee.clone()));
            },
        };
        proof {
            lemma_exprs_view(self.params@);
        }
        let ghost args = exprs_view(self.params@);
        let ghost env0 = env@;
        let n = self.params.len();
        let mut vals: Vec<Val> = Vec::new();
        let mut i: usize = 0;
        assert(args.subrange(0, n as int) =~= args);
        assert forall|vs: Seq<Val>| #[trigger] (vals@ + vs) == vs by {
            assert(vals@ + vs =~= vs);
        }
        while i < n
            invariant
                i <= n,
                n == self.params@.len(),
                args == exprs_view(self.params@),
                args.len() == n,
                forall|j: int| 0 <= j < n ==> #[trigger] args[j] == expr_view(self.params@[j]),
                vals@.len() == i,
                env0 == old(env)@,
                lookup_func(env0, self.callee@) == Some((names_view(params@), stmt_view(body))),
                env@.len() == env0.len(),
                eval_args(args, env0, depth as nat) == (match eval_args(args.subrange(i as int, n as int), env@, depth as nat) {
                    (Ok(vs), e) => (Ok(vals@ + vs), e),
                    (Err(x), e) => (Err(x), e),
                }),
            decreases n - i,
        {
            proof {
                assert(decreases_to!(*self => self.params[i as int]));
                let rest = args.subrange(i as int, n as int);
                assert(rest[0] == args[i as int]);
                assert(rest.subrange(1, rest.len() as int) =~= args.subrange(i + 1, n as int));
            }
            let v = match self.params[i].eval_depth(env, depth) {
                Ok(v) => v,
                Err(e) => {
                    return Err(e);
                },
            };
            proof {
                let ghost before = vals@;
                assert(before.push(v) =~= before + seq![v]);
                assert forall|vs: Seq<Val>| #[trigger] (before.push(v) + vs) == before + (seq![v] + vs) by {
                    assert(before.push(v) + vs =~= before + (seq![v] + vs));
                }
            }
            vals.push(v);
            i = i + 1;
        }
        assert(args.subrange(n as int, n as int) =~= Seq::<ExprV>::empty());
        assert(vals@ + Seq::<Val>::empty() =~= vals@);
        if depth == 0 {
            return Err(EvalError::CallTooDeep);
        }
        let ghost pnames = names_view(params@);
        let ghost env1 = env@;
        env.create_child();
        let m = if params.len() < vals.len() {
            params.len()
        } else {
            vals.len()
        };
        let mut k: usize = 0;
        assert(pnames.subrange(0, pnames.len() as int) =~= pnames);
        assert(vals@.subrange(0, vals@.len() as int) =~= vals@);
        while k < m
            invariant
                k <= m,
                m <= params@.len(),
                m <= vals@.len(),
                m == params@.len() || m == vals@.len(),
                pnames == names_view(params@),
                env@.len() == env0.len() + 1,
                bind_params(env1.push(empty_scope()), pnames, vals@) == bind_params(
                    env@,
                    pnames.subrange(k as int, pnames.len() as int),
                    vals@.subrange(k as int, vals@.len() as int),
                ),
            decreases m - k,
        {
            proof {
                let ps = pnames.subrange(k as int, pnames.len() as int);
                let vs = vals@.subrange(k as int, vals@.len() as int);
                assert(ps[0] == params@[k as int]@);
                assert(vs[0] == vals@[k as int]);
                assert(ps.subrange(1, ps.len() as int) =~= pnames.subrange(k + 1, pnames.len() as int));
                assert(vs.subrange(1, vs.len() as int) =~= vals@.subrange(k + 1, vals@.len() as int));
            }
            env.store_bindings(params[k].clone(), vals[k]);
            k = k + 1;
        }
        proof {
            let ps = pnames.subrange(m as int, pnames.len() as int);
            let vs = vals@.subrange(m as int, vals@.len() as int);
            assert(ps.len() == 0 || vs.len() == 0);
        }
        let r = body.eval_depth(env, depth - 1);
        env.drop_child();
        r
    }

    /// Calls the function: evaluates the arguments in the current scope, then
    /// the body in a new scope where the parameters are bound to them.
    pub fn eval(&self, env: &mut Env) -> (r: Result<Val, EvalError>)
        ensures
            (result_view(r), final(env)@) == eval_expr(
                ExprV::FuncCall(self.callee@, exprs_view(self.params@)),
                old(env)@,
                MAX_CALL_DEPTH as nat,
            ),
    {
        self.eval_depth(env, MAX_CALL_DEPTH)
    }
}

/// Binding a name in the innermost scope makes it evaluate to the new value,
/// whatever it was bound to before.
pub proof fn lemma_lookup_after_bind(env: Seq<ScopeV>, name: Seq<char>, v: Val)
    requires
        env.len() > 0,
    ensures
        lookup_binding(bind(env, name, v), name) == Some(v),
{
    let e = bind(env, name, v);
    lemma_find_store(env.last().bindings, name, v, name);
    assert(e.last().bindings == crate::env::store(env.last().bindings, name, v));
}

/// Last write wins: `let name = v1` followed in the same scope by
/// `let name = v2` succeeds, and `name` then evaluates to `v2`.
pub proof fn lemma_rebinding_keeps_last(env: Seq<ScopeV>, name: Seq<char>, v1: i32, v2: i32, depth: nat)
    requires
        env.len() > 0,
    ensures
        ({
            let (r1, env1) = eval_stmt(StmtV::BindingDef(name, ExprV::Number(v1)), env, depth);
            let (r2, env2) = eval_stmt(StmtV::BindingDef(name, ExprV::Number(v2)), env1, depth);
            let (r3, env3) = eval_expr(ExprV::BindingUsage(name), env2, depth);
            r1 == Ok::<Val, EvalErrorV>(Val::Unit) && r2 == Ok::<Val, EvalErrorV>(Val::Unit) && r3
                == Ok::<Val, EvalErrorV>(Val::Number(v2))
        }),
{
    let env1 = bind(env, name, Val::Number(v1));
    lemma_lookup_after_bind(env1, name, Val::Number(v2));
}

/// A name that no enclosing scope binds fails to evaluate, with an
/// unresolved-binding error, and leaves the environment as it was.
pub proof fn lemma_unbound_name_fails(env: Seq<ScopeV>, name: Seq<char>, depth: nat)
    requires
        lookup_binding(env, name) is None,
    ensures
        eval_expr(ExprV::BindingUsage(name), env, depth) == (
            Err::<Val, EvalErrorV>(EvalErrorV::UnresolvedBinding(name)),
            env,
        ),
{
}

/// A call of a function that no enclosing scope defines fails with an
/// unresolved-function error, before any argument is evaluated.
pub proof fn lemma_undefined_function_fails(env: Seq<ScopeV>, callee: Seq<char>, args: Seq<ExprV>, depth: nat)
    requires
        lookup_func(env, callee) is None,
    ensures
        eval_expr(ExprV::FuncCall(callee, args), env, depth) == (
            Err::<Val, EvalErrorV>(EvalErrorV::UnresolvedFunction(callee)),
            env,
        ),
{
}

} // verus!
