//! Scopes of bindings and functions, innermost last.
use vstd::prelude::*;
use vstd::string::StrSliceExecFns;
use crate::ast::{stmt_view, names_view, Stmt, StmtV};
use crate::eval::{error_view, EvalError, EvalErrorV};
use crate::val::Val;
use vstd::string::StringExecFns;

verus! {

/// A function as a scope stores it: parameter names and body.
pub type FuncV = (Seq<Seq<char>>, StmtV);

/// One scope: its bindings and its functions, each by name, in the order in
/// which they were first defined there.
pub struct ScopeV {
    pub bindings: Seq<(Seq<char>, Val)>,
    pub funcs: Seq<(Seq<char>, FuncV)>,
}

/// The value last stored under `name` in `entries`.
pub open spec fn find<V>(entries: Seq<(Seq<char>, V)>, name: Seq<char>) -> Option<V>
    decreases entries.len(),
{
    if entries.len() == 0 {
        None
    } else if entries.last().0 == name {
        Some(entries.last().1)
    } else {
        find(entries.drop_last(), name)
    }
}

/// Index of the last entry stored under `name`.
pub open spec fn last_index<V>(entries: Seq<(Seq<char>, V)>, name: Seq<char>) -> Option<int>
    decreases entries.len(),
{
    if entries.len() == 0 {
        None
    } else if entries.last().0 == name {
        Some(entries.len() - 1)
    } else {
        last_index(entries.drop_last(), name)
    }
}

/// `entries` with `name` mapped to `v`: the entry of that name is overwritten
/// in place, or a new one is added at the end.
pub open spec fn store<V>(entries: Seq<(Seq<char>, V)>, name: Seq<char>, v: V) -> Seq<(Seq<char>, V)> {
    match last_index(entries, name) {
        Some(i) => entries.update(i, (name, v)),
        None => entries.push((name, v)),
    }
}

pub proof fn lemma_last_index<V>(entries: Seq<(Seq<char>, V)>, name: Seq<char>)
    ensures
        match last_index(entries, name) {
            Some(i) => 0 <= i < entries.len() && entries[i].0 == name && forall|j: int|
                i < j < entries.len() ==> #[trigger] entries[j].0 != name,
            None => forall|j: int| 0 <= j < entries.len() ==> #[trigger] entries[j].0 != name,
        },
    decreases entries.len(),
{
    if entries.len() > 0 {
        let e = entries.drop_last();
        lemma_last_index(e, name);
        assert forall|j: int| 0 <= j < e.len() implies #[trigger] entries[j] == e[j] by {}
    }
}

proof fn lemma_find_update<V>(entries: Seq<(Seq<char>, V)>, i: int, name: Seq<char>, v: V, other: Seq<char>)
    requires
        0 <= i < entries.len(),
        entries[i].0 == name,
        forall|j: int| i < j < entries.len() ==> #[trigger] entries[j].0 != name,
    ensures
        find(entries.update(i, (name, v)), other) == if other == name {
            Some(v)
        } else {
            find(entries, other)
        },
    decreases entries.len(),
{
    let u = entries.update(i, (name, v));
    if i < entries.len() - 1 {
        assert(u.drop_last() =~= entries.drop_last().update(i, (name, v)));
        lemma_find_update(entries.drop_last(), i, name, v, other);
    } else {
        assert(u.drop_last() =~= entries.drop_last());
    }
}

/// After `store`, `name` finds the new value and every other name what it
/// found before.
pub proof fn lemma_find_store<V>(entries: Seq<(Seq<char>, V)>, name: Seq<char>, v: V, other: Seq<char>)
    ensures
        find(store(entries, name, v), other) == if other == name {
            Some(v)
        } else {
            find(entries, other)
        },
{
    lemma_last_index(entries, name);
    match last_index(entries, name) {
        Some(i) => lemma_find_update(entries, i, name, v, other),
        None => assert(entries.push((name, v)).drop_last() =~= entries),
    }
}

/// The value bound to `name` in the innermost scope that binds it.
pub open spec fn lookup_binding(env: Seq<ScopeV>, name: Seq<char>) -> Option<Val>
    decreases env.len(),
{
    if env.len() == 0 {
        None
    } else {
        match find(env.last().bindings, name) {
            Some(v) => Some(v),
            None => lookup_binding(env.drop_last(), name),
        }
    }
}

/// The function defined as `name` in the innermost scope that defines it.
pub open spec fn lookup_func(env: Seq<ScopeV>, name: Seq<char>) -> Option<FuncV>
    decreases env.len(),
{
    if env.len() == 0 {
        None
    } else {
        match find(env.last().funcs, name) {
            Some(f) => Some(f),
            None => lookup_func(env.drop_last(), name),
        }
    }
}

/// `env` with `name` bound to `v` in its innermost scope.
pub open spec fn bind(env: Seq<ScopeV>, name: Seq<char>, v: Val) -> Seq<ScopeV>
    recommends
        env.len() > 0,
{
    let top = env.last();
    env.update(env.len() - 1, ScopeV { bindings: store(top.bindings, name, v), funcs: top.funcs })
}

/// `env` with the function `name` defined in its innermost scope.
pub open spec fn define(env: Seq<ScopeV>, name: Seq<char>, f: FuncV) -> Seq<ScopeV>
    recommends
        env.len() > 0,
{
    let top = env.last();
    env.update(env.len() - 1, ScopeV { bindings: top.bindings, funcs: store(top.funcs, name, f) })
}

pub struct Scope {
    bindings: Vec<(String, Val)>,
    funcs: Vec<(String, Vec<String>, Stmt)>,
}

impl Scope {
    pub closed spec fn view(&self) -> ScopeV {
        ScopeV {
            bindings: Seq::new(self.bindings@.len(), |i: int| (self.bindings@[i].0@, self.bindings@[i].1)),
            funcs: Seq::new(
                self.funcs@.len(),
                |i: int| (self.funcs@[i].0@, (names_view(self.funcs@[i].1@), stmt_view(self.funcs@[i].2))),
            ),
        }
    }
}

/// The environment of an evaluation: a chain of scopes, from the top-level
/// one (first) to the innermost one (last).
pub struct Env {
    outer: Vec<Scope>,
    innermost: Scope,
}

impl View for Env {
    type V = Seq<ScopeV>;

    closed spec fn view(&self) -> Seq<ScopeV> {
        Seq::new(self.outer@.len(), |i: int| self.outer@[i].view()).push(self.innermost.view())
    }
}

pub open spec fn empty_scope() -> ScopeV {
    ScopeV { bindings: Seq::empty(), funcs: Seq::empty() }
}

/// Whether `a` and `b` hold the same characters.
pub fn same_name(a: &String, b: &str) -> (r: bool)
    ensures
        r == (a@ == b@),
{
    let t = a.as_str();
    let n = t.unicode_len();
    if n != b.unicode_len() {
        return false;
    }
    let mut i: usize = 0;
    while i < n
        invariant
            n == a@.len(),
            t@ == a@,
            n == b@.len(),
            i <= n,
            forall|j: int| 0 <= j < i ==> a@[j] == b@[j],
        decreases n - i,
    {
        if t.get_char(i) != b.get_char(i) {
            return false;
        }
        i = i + 1;
    }
    assert(a@ =~= b@);
    true
}

impl Scope {
    fn new() -> (r: Scope)
        ensures
            r.view() == empty_scope(),
    {
        let r = Scope { bindings: Vec::new(), funcs: Vec::new() };
        assert(r.view().bindings =~= Seq::empty());
        assert(r.view().funcs =~= Seq::empty());
        r
    }

    /// Index of the last binding named `name`.
    fn binding_index(&self, name: &str) -> (r: Option<usize>)
        ensures
            r matches Some(i) ==> i < self.bindings@.len(),
            match r {
                Some(i) => last_index(self.view().bindings, name@) == Some(i as int),
                None => last_index(self.view().bindings, name@) is None,
            },
    {
        let ghost entries = self.view().bindings;
        let mut i = self.bindings.len();
        assert(entries.subrange(0, i as int) =~= entries);
        proof {
            lemma_last_index(entries, name@);
        }
        while i > 0
            invariant
                i <= self.bindings@.len(),
                entries == self.view().bindings,
                last_index(entries, name@) == last_index(entries.subrange(0, i as int), name@),
            decreases i,
        {
            let ghost prefix = entries.subrange(0, i as int);
            assert(prefix.drop_last() =~= entries.subrange(0, i - 1));
            if same_name(&self.bindings[i - 1].0, name) {
                return Some(i - 1);
            }
            i = i - 1;
        }
        None
    }

    /// Index of the last function named `name`.
    fn func_index(&self, name: &str) -> (r: Option<usize>)
        ensures
            r matches Some(i) ==> i < self.funcs@.len(),
            match r {
                Some(i) => last_index(self.view().funcs, name@) == Some(i as int),
                None => last_index(self.view().funcs, name@) is None,
            },
    {
        let ghost entries = self.view().funcs;
        let mut i = self.funcs.len();
        assert(entries.subrange(0, i as int) =~= entries);
        proof {
            lemma_last_index(entries, name@);
        }
        while i > 0
            invariant
                i <= self.funcs@.len(),
                entries == self.view().funcs,
                last_index(entries, name@) == last_index(entries.subrange(0, i as int), name@),
            decreases i,
        {
            let ghost prefix = entries.subrange(0, i as int);
            assert(prefix.drop_last() =~= entries.subrange(0, i - 1));
            if same_name(&self.funcs[i - 1].0, name) {
                return Some(i - 1);
            }
            i = i - 1;
        }
        None
    }

    fn store_binding(&mut self, name: String, val: Val)
        ensures
            final(self).view() == (ScopeV {
                bindings: store(old(self).view().bindings, name@, val),
                funcs: old(self).view().funcs,
            }),
    {
        let ghost old_view = self.view();
        proof {
            lemma_last_index(old_view.bindings, name@);
        }
        match self.binding_index(name.as_str()) {
            Some(i) => {
                let ghost n = name@;
                self.bindings.set(i, (name, val));
                assert(self.view().bindings =~= old_view.bindings.update(i as int, (n, val)));
                assert(store(old_view.bindings, n, val) == old_view.bindings.update(i as int, (n, val)));
            },
            None => {
                let ghost n = name@;
                self.bindings.push((name, val));
                assert(self.view().bindings =~= old_view.bindings.push((n, val)));
            },
        }
        assert(self.view().funcs =~= old_view.funcs);
    }

    fn store_func(&mut self, name: String, params: Vec<String>, body: Stmt)
        ensures
            final(self).view() == (ScopeV {
                bindings: old(self).view().bindings,
                funcs: store(old(self).view().funcs, name@, (names_view(params@), stmt_view(body))),
            }),
    {
        let ghost old_view = self.view();
        let ghost f = (names_view(params@), stmt_view(body));
        proof {
            lemma_last_index(old_view.funcs, name@);
        }
        match self.func_index(name.as_str()) {
            Some(i) => {
                self.funcs.set(i, (name, params, body));
                assert(self.view().funcs =~= old_view.funcs.update(i as int, (name@, f)));
            },
            None => {
                self.funcs.push((name, params, body));
                assert(self.view().funcs =~= old_view.funcs.push((name@, f)));
            },
        }
        assert(self.view().bindings =~= old_view.bindings);
    }

    fn get_binding(&self, name: &str) -> (r: Option<Val>)
        ensures
            r == find(self.view().bindings, name@),
    {
        proof {
            lemma_find_last_index(self.view().bindings, name@);
            lemma_last_index(self.view().bindings, name@);
        }
        match self.binding_index(name) {
            Some(i) => {
                assert(self.view().bindings[i as int].1 == self.bindings@[i as int].1);
                Some(self.bindings[i].1)
            },
            None => None,
        }
    }

    fn get_func(&self, name: &str) -> (r: Option<&(String, Vec<String>, Stmt)>)
        ensures
            match r {
                Some(f) => find(self.view().funcs, name@) == Some((names_view(f.1@), stmt_view(f.2))),
                None => find(self.view().funcs, name@) is None,
            },
    {
        proof {
            lemma_find_last_index(self.view().funcs, name@);
            lemma_last_index(self.view().funcs, name@);
        }
        match self.func_index(name) {
            Some(i) => {
                let f = &self.funcs[i];
                assert(self.view().funcs[i as int].1 == (names_view(f.1@), stmt_view(f.2)));
                Some(f)
            },
            None => None,
        }
    }
}

proof fn lemma_find_last_index<V>(entries: Seq<(Seq<char>, V)>, name: Seq<char>)
    ensures
        find(entries, name) == match last_index(entries, name) {
            Some(i) => Some(entries[i].1),
            None => None::<V>,
        },
    decreases entries.len(),
{
    if entries.len() > 0 {
        lemma_find_last_index(entries.drop_last(), name);
        lemma_last_index(entries.drop_last(), name);
    }
}

impl Env {
    pub proof fn lemma_has_scope(&self)
        ensures
            self@.len() > 0,
    {
    }

    /// Opens a scope inside the innermost one.
    pub fn create_child(&mut self)
        ensures
            final(self)@ == old(self)@.push(empty_scope()),
    {
        let ghost before = self@;
        let mut child = Scope::new();
        core::mem::swap(&mut self.innermost, &mut child);
        self.outer.push(child);
        assert(self@ =~= before.push(empty_scope()));
    }

    /// Closes the innermost scope.
    pub fn drop_child(&mut self)
        requires
            old(self)@.len() > 1,
        ensures
            final(self)@ == old(self)@.drop_last(),
    {
        let ghost before = self@;
        let mut parent = self.outer.pop().unwrap();
        core::mem::swap(&mut self.innermost, &mut parent);
        assert(self@ =~= before.drop_last());
    }

    pub fn store_bindings(&mut self, name: String, val: Val)
        ensures
            final(self)@ == bind(old(self)@, name@, val),
    {
        let ghost before = self@;
        self.innermost.store_binding(name, val);
        assert(self@ =~= bind(before, name@, val));
    }

    pub fn store_func(&mut self, name: String, params: Vec<String>, body: Stmt)
        ensures
            final(self)@ == define(old(self)@, name@, (names_view(params@), stmt_view(body))),
    {
        let ghost before = self@;
        let ghost f = (names_view(params@), stmt_view(body));
        self.innermost.store_func(name, params, body);
        assert(self@ =~= define(before, name@, f));
    }

    /// The value of `name` in the innermost scope that binds it.
    pub fn get_binding_value_inner(&self, name: &str) -> (r: Option<Val>)
        ensures
            r == lookup_binding(self@, name@),
    {
        match self.innermost.get_binding(name) {
            Some(v) => {
                return Some(v);
            },
            None => {},
        }
        let mut i = self.outer.len();
        assert(self@.drop_last() =~= self@.subrange(0, i as int));
        while i > 0
            invariant
                i <= self.outer@.len(),
                self@.len() == self.outer@.len() + 1,
                lookup_binding(self@, name@) == lookup_binding(self@.subrange(0, i as int), name@),
            decreases i,
        {
            let ghost prefix = self@.subrange(0, i as int);
            assert(prefix.drop_last() =~= self@.subrange(0, i - 1));
            match self.outer[i - 1].get_binding(name) {
                Some(v) => {
                    return Some(v);
                },
                None => {},
            }
            i = i - 1;
        }
        None
    }

    /// The value of `name` in the innermost scope that binds it, or an
    /// unresolved-binding error.
    pub fn get_binding_value(&self, name: &str) -> (r: Result<Val, EvalError>)
        ensures
            match r {
                Ok(v) => lookup_binding(self@, name@) == Some(v),
                Err(e) => lookup_binding(self@, name@) is None && error_view(e) == EvalErrorV::UnresolvedBinding(name@),
            },
    {
        match self.get_binding_value_inner(name) {
            Some(v) => Ok(v),
            None => Err(EvalError::UnresolvedBinding(String::from_str(name))),
        }
    }

    /// The function `name` of the innermost scope that defines it.
    pub fn get_func(&self, name: &str) -> (r: Option<&(String, Vec<String>, Stmt)>)
        ensures
            match r {
                Some(f) => lookup_func(self@, name@) == Some((names_view(f.1@), stmt_view(f.2))),
                None => lookup_func(self@, name@) is None,
            },
    {
        match self.innermost.get_func(name) {
            Some(f) => {
                return Some(f);
            },
            None => {},
        }
        let mut i = self.outer.len();
        assert(self@.drop_last() =~= self@.subrange(0, i as int));
        while i > 0
            invariant
                i <= self.outer@.len(),
                self@.len() == self.outer@.len() + 1,
                lookup_func(self@, name@) == lookup_func(self@.subrange(0, i as int), name@),
            decreases i,
        {
            let ghost prefix = self@.subrange(0, i as int);
            assert(prefix.drop_last() =~= self@.subrange(0, i - 1));
            match self.outer[i - 1].get_func(name) {
                Some(f) => {
                    return Some(f);
                },
                None => {},
            }
            i = i - 1;
        }
        None
    }
}

impl Default for Env {
    /// An environment with one, empty, top-level scope.
    fn default() -> (r: Env)
        ensures
            r@ == seq![empty_scope()],
    {
        let r = Env { outer: Vec::new(), innermost: Scope::new() };
        assert(r@ =~= seq![empty_scope()]);
        r
    }
}

} // verus!
