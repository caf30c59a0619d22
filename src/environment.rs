use vstd::prelude::*;

use crate::token::Token;
use crate::value::{Object, Val};

verus! {

/// A scope: its bindings in order of first definition; a name is bound at
/// most once.
pub type ScopeModel = Seq<(Seq<char>, Val)>;

/// `name` is bound at position `k` of the scope and nowhere before.
pub open spec fn bound_at(sc: ScopeModel, name: Seq<char>, k: int) -> bool {
    &&& 0 <= k < sc.len()
    &&& sc[k].0 == name
    &&& forall|j: int| 0 <= j < k ==> (#[trigger] sc[j]).0 != name
}

pub open spec fn scope_has(sc: ScopeModel, name: Seq<char>) -> bool {
    exists|k: int| bound_at(sc, name, k)
}

/// The position of `name` in the scope (meaningful where it is bound).
pub open spec fn scope_index(sc: ScopeModel, name: Seq<char>) -> int {
    choose|k: int| bound_at(sc, name, k)
}

/// The value of `name` in the scope.
pub open spec fn scope_get(sc: ScopeModel, name: Seq<char>) -> Option<Val> {
    if scope_has(sc, name) {
        Some(sc[scope_index(sc, name)].1)
    } else {
        None
    }
}

/// The scope with `name` bound to `v`, replacing an earlier binding.
pub open spec fn scope_set(sc: ScopeModel, name: Seq<char>, v: Val) -> ScopeModel {
    if scope_has(sc, name) {
        sc.update(scope_index(sc, name), (name, v))
    } else {
        sc.push((name, v))
    }
}

/// `name` is bound in scope `i` of the chain and in no scope inside it
/// (scopes are listed from the outermost to the innermost).
pub open spec fn innermost_at(env: Seq<ScopeModel>, name: Seq<char>, i: int) -> bool {
    &&& 0 <= i < env.len()
    &&& scope_has(env[i], name)
    &&& forall|j: int| i < j < env.len() ==> !scope_has(#[trigger] env[j], name)
}

pub open spec fn env_has(env: Seq<ScopeModel>, name: Seq<char>) -> bool {
    exists|i: int| innermost_at(env, name, i)
}

pub open spec fn env_index(env: Seq<ScopeModel>, name: Seq<char>) -> int {
    choose|i: int| innermost_at(env, name, i)
}

/// The value of `name` in the innermost scope that binds it.
pub open spec fn env_get(env: Seq<ScopeModel>, name: Seq<char>) -> Option<Val> {
    if env_has(env, name) {
        scope_get(env[env_index(env, name)], name)
    } else {
        None
    }
}

/// `name` bound to `v` in the innermost scope only.
pub open spec fn env_define(env: Seq<ScopeModel>, name: Seq<char>, v: Val) -> Seq<ScopeModel> {
    env.update(env.len() - 1, scope_set(env.last(), name, v))
}

/// The innermost binding of `name` set to `v`; nothing changes where `name`
/// is bound nowhere.
pub open spec fn env_assign(env: Seq<ScopeModel>, name: Seq<char>, v: Val) -> Seq<ScopeModel> {
    if env_has(env, name) {
        let i = env_index(env, name);
        env.update(i, scope_set(env[i], name, v))
    } else {
        env
    }
}

/// The message for a name that no scope binds.
pub open spec fn undefined_message(name: Seq<char>) -> Seq<char> {
    "Undefined variable '"@ + name + "'."@
}

pub proof fn lemma_bound_at_unique(sc: ScopeModel, name: Seq<char>, k: int)
    requires
        bound_at(sc, name, k),
    ensures
        scope_has(sc, name),
        scope_index(sc, name) == k,
{
    let c = scope_index(sc, name);
    assert(bound_at(sc, name, c));
    if c < k {
        assert(sc[c].0 != name);
    } else if c > k {
        assert(sc[k].0 != name);
    }
}

pub proof fn lemma_innermost_unique(env: Seq<ScopeModel>, name: Seq<char>, i: int)
    requires
        innermost_at(env, name, i),
    ensures
        env_has(env, name),
        env_index(env, name) == i,
{
    let c = env_index(env, name);
    assert(innermost_at(env, name, c));
    if c < i {
        assert(!scope_has(env[i], name));
    } else if c > i {
        assert(!scope_has(env[c], name));
    }
}

/// A binding of a scope.
#[derive(Clone, Debug)]
pub struct Binding {
    pub name: String,
    pub value: Object,
}

pub open spec fn scope_model(sc: Seq<Binding>) -> ScopeModel {
    sc.map_values(|b: Binding| (b.name@, b.value@))
}

/// A chain of scopes, from the global scope to the innermost one. A block
/// adds a scope on entry and drops it on exit.
#[derive(Clone, Debug)]
pub struct Environment {
    scopes: Vec<Vec<Binding>>,
}

impl View for Environment {
    type V = Seq<ScopeModel>;

    closed spec fn view(&self) -> Seq<ScopeModel> {
        self.scopes@.map_values(|sc: Vec<Binding>| scope_model(sc@))
    }
}

impl Environment {
    /// A chain of a single, empty, global scope.
    pub fn new() -> (r: Environment)
        ensures
            r@ == seq![Seq::<(Seq<char>, Val)>::empty()],
    {
        let mut scopes: Vec<Vec<Binding>> = Vec::new();
        scopes.push(Vec::new());
        let r = Environment { scopes };
        assert(scope_model(r.scopes@[0]@) =~= Seq::empty());
        assert(r@ =~= seq![Seq::<(Seq<char>, Val)>::empty()]);
        r
    }

    /// The chain with an empty scope added inside `environment`.
    pub fn new_with_enclosing(environment: Environment) -> (r: Environment)
        ensures
            r@ == environment@.push(Seq::empty()),
    {
        let mut e = environment;
        let ghost old_view = e@;
        e.scopes.push(Vec::new());
        assert(scope_model(e.scopes@.last()@) =~= Seq::empty());
        assert(e@ =~= old_view.push(Seq::empty()));
        e
    }

    /// The number of scopes in the chain.
    pub fn depth(&self) -> (r: usize)
        ensures
            r == self@.len(),
    {
        self.scopes.len()
    }

    /// The chain without its innermost scope, if that scope has an enclosing one.
    pub fn get_enclosing(&mut self) -> (r: Option<Environment>)
        ensures
            *final(self) == *old(self),
            old(self)@.len() > 1 ==> (r matches Some(e) && e@ == old(self)@.drop_last()),
            old(self)@.len() <= 1 ==> r is None,
    {
        if self.scopes.len() > 1 {
            let mut e = self.clone_chain();
            let ghost v = e@;
            e.scopes.pop();
            assert(e@ =~= v.drop_last());
            Some(e)
        } else {
            None
        }
    }

    fn clone_chain(&self) -> (r: Environment)
        ensures
            r@ == self@,
    {
        let mut scopes: Vec<Vec<Binding>> = Vec::new();
        let mut i: usize = 0;
        while i < self.scopes.len()
            invariant
                i <= self.scopes.len(),
                scopes@.len() == i,
                forall|j: int|
                    0 <= j < i ==> scope_model(#[trigger] scopes@[j]@) == scope_model(
                        self.scopes@[j]@,
                    ),
            decreases self.scopes.len() - i,
        {
            let sc = clone_scope(&self.scopes[i]);
            scopes.push(sc);
            i = i + 1;
        }
        let r = Environment { scopes };
        assert(r@ =~= self@);
        r
    }

    /// Leaves the innermost scope, dropping its bindings; the global scope stays.
    pub fn pop_scope(&mut self)
        ensures
            old(self)@.len() > 1 ==> final(self)@ == old(self)@.drop_last(),
            old(self)@.len() <= 1 ==> final(self)@ == old(self)@,
    {
        if self.scopes.len() > 1 {
            let ghost v = self@;
            self.scopes.pop();
            assert(self@ =~= v.drop_last());
        }
    }

    /// Enters a new, empty, innermost scope.
    pub fn push_scope(&mut self)
        ensures
            final(self)@ == old(self)@.push(Seq::empty()),
    {
        let ghost v = self@;
        self.scopes.push(Vec::new());
        assert(scope_model(self.scopes@.last()@) =~= Seq::empty());
        assert(self@ =~= v.push(Seq::empty()));
    }

    /// Binds `name` to `value` in the innermost scope, replacing a binding of
    /// the same name there; outer scopes are not consulted.
    pub fn define(&mut self, name: String, value: Object)
        requires
            old(self)@.len() > 0,
        ensures
            final(self)@ == env_define(old(self)@, name@, value@),
    {
        let ghost v = self@;
        let last = self.scopes.len() - 1;
        assert(scope_model(self.scopes@[last as int]@) == v.last());
        set_in_scope(&mut self.scopes[last], name, value);
        assert(self@ =~= env_define(v, name@, value@));
    }

    /// The position of the innermost scope that binds `name`.
    fn find_scope(&self, name: &String) -> (r: Option<usize>)
        ensures
            r is Some <==> env_has(self@, name@),
            r matches Some(i) ==> i == env_index(self@, name@) && i < self@.len(),
    {
        let mut i: usize = self.scopes.len();
        while i > 0
            invariant
                i <= self.scopes.len(),
                forall|j: int| i <= j < self@.len() ==> !scope_has(#[trigger] self@[j], name@),
            decreases i,
        {
            let k = find_in_scope(&self.scopes[i - 1], name);
            if k.is_some() {
                proof {
                    assert(self@[i - 1] == scope_model(self.scopes@[i - 1]@));
                    assert(innermost_at(self@, name@, i - 1));
                    lemma_innermost_unique(self@, name@, i - 1);
                }
                return Some(i - 1);
            }
            assert(self@[i - 1] == scope_model(self.scopes@[i - 1]@));
            i = i - 1;
        }
        proof {
            if env_has(self@, name@) {
                let c = env_index(self@, name@);
                assert(innermost_at(self@, name@, c));
            }
        }
        None
    }

    /// The value of `name` in the innermost scope that binds it, or an
    /// "undefined variable" message.
    pub fn get(&self, name: Token) -> (r: Result<Object, String>)
        ensures
            match env_get(self@, name.lexeme@) {
                Some(v) => r matches Ok(o) && o@ == v,
                None => r matches Err(m) && m@ == undefined_message(name.lexeme@),
            },
    {
        match self.find_scope(&name.lexeme) {
            Some(i) => {
                let k = find_in_scope(&self.scopes[i], &name.lexeme);
                match k {
                    Some(k) => {
                        assert(self@[i as int] == scope_model(self.scopes@[i as int]@));
                        Ok(self.scopes[i][k].value.duplicate())
                    },
                    None => Err(undefined_text(&name.lexeme)),
                }
            },
            None => Err(undefined_text(&name.lexeme)),
        }
    }

    /// Sets the innermost binding of `name` to `value`; where no scope binds
    /// `name`, nothing changes and an "undefined variable" message comes back.
    pub fn assign(&mut self, name: Token, value: &Object) -> (r: Result<(), String>)
        ensures
            final(self)@ == env_assign(old(self)@, name.lexeme@, value@),
            r is Ok <==> env_has(old(self)@, name.lexeme@),
            r matches Err(m) ==> m@ == undefined_message(name.lexeme@),
    {
        match self.find_scope(&name.lexeme) {
            Some(i) => {
                let ghost v = self@;
                assert(scope_model(self.scopes@[i as int]@) == v[i as int]);
                set_in_scope(&mut self.scopes[i], name.lexeme, value.duplicate());
                assert(self@ =~= env_assign(v, name.lexeme@, value@));
                Ok(())
            },
            None => Err(undefined_text(&name.lexeme)),
        }
    }
}

fn undefined_text(name: &String) -> (r: String)
    ensures
        r@ == undefined_message(name@),
{
    let mut out = String::from_str("Undefined variable '");
    out.append(name.as_str());
    out.append("'.");
    out
}

fn clone_scope(sc: &Vec<Binding>) -> (r: Vec<Binding>)
    ensures
        scope_model(r@) == scope_model(sc@),
{
    let mut out: Vec<Binding> = Vec::new();
    let mut i: usize = 0;
    while i < sc.len()
        invariant
            i <= sc.len(),
            scope_model(out@) =~= scope_model(sc@.take(i as int)),
        decreases sc.len() - i,
    {
        let b = Binding { name: sc[i].name.clone(), value: sc[i].value.duplicate() };
        let ghost prev = out@;
        out.push(b);
        assert(sc@.take(i as int + 1) =~= sc@.take(i as int).push(sc@[i as int]));
        assert(scope_model(out@) =~= scope_model(prev).push((b.name@, b.value@)));
        assert(scope_model(sc@.take(i as int + 1)) =~= scope_model(sc@.take(i as int)).push(
            (b.name@, b.value@),
        ));
        i = i + 1;
    }
    assert(sc@.take(i as int) =~= sc@);
    out
}

/// The position of `name` in a scope.
fn find_in_scope(sc: &Vec<Binding>, name: &String) -> (r: Option<usize>)
    ensures
        r is Some <==> scope_has(scope_model(sc@), name@),
        r matches Some(k) ==> k == scope_index(scope_model(sc@), name@) && k < sc@.len(),
{
    let ghost m = scope_model(sc@);
    let mut k: usize = 0;
    while k < sc.len()
        invariant
            k <= sc.len(),
            m == scope_model(sc@),
            forall|j: int| 0 <= j < k ==> (#[trigger] m[j]).0 != name@,
        decreases sc.len() - k,
    {
        if sc[k].name == *name {
            proof {
                assert(bound_at(m, name@, k as int));
                lemma_bound_at_unique(m, name@, k as int);
            }
            return Some(k);
        }
        k = k + 1;
    }
    proof {
        if scope_has(m, name@) {
            let c = scope_index(m, name@);
            assert(bound_at(m, name@, c));
            assert(m[c].0 == name@);
        }
    }
    None
}

/// Binds `name` to `value` in a scope, replacing an earlier binding.
fn set_in_scope(sc: &mut Vec<Binding>, name: String, value: Object)
    ensures
        scope_model(final(sc)@) == scope_set(scope_model(old(sc)@), name@, value@),
{
    let ghost m = scope_model(sc@);
    match find_in_scope(sc, &name) {
        Some(k) => {
            let ghost nv = name@;
            let ghost vv = value@;
            sc.set(k, Binding { name, value });
            assert(scope_model(sc@) =~= m.update(k as int, (nv, vv)));
        },
        None => {
            let ghost nv = name@;
            let ghost vv = value@;
            sc.push(Binding { name, value });
            assert(scope_model(sc@) =~= m.push((nv, vv)));
        },
    }
}

} // verus!
