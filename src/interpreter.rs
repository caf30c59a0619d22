use vstd::prelude::*;

use crate::ast::{Expr, Stmt};
use crate::environment::{
    env_assign, env_define, env_get, env_has, undefined_message, Environment, ScopeModel,
};
use crate::text::{int_text, int_to_text};
use crate::token::Tokentype;
use crate::value::{
    add_val, bool, div_val, eq_val, lt_val, mul_val, negate_val, not_val, sub_val, val_of_bool,
    FloatArith, Object, Val,
};

verus! {

broadcast use vstd::std_specs::vec::group_vec_axioms, vstd::seq::group_seq_axioms;

/// The result of a binary operator, or `None` where it comes from the host's
/// float arithmetic.
pub open spec fn binary_val(k: Tokentype, a: Val, b: Val) -> Option<Val> {
    match k {
        Tokentype::Minus => sub_val(a, b),
        Tokentype::Plus => add_val(a, b),
        Tokentype::Slash => div_val(a, b),
        Tokentype::Star => mul_val(a, b),
        Tokentype::Greater => bool_result(lt_val(b, a, true)),
        Tokentype::GreaterEqual => bool_result(lt_val(b, a, false)),
        Tokentype::Less => bool_result(lt_val(a, b, true)),
        Tokentype::LessEqual => bool_result(lt_val(a, b, false)),
        Tokentype::EqualEqual => Some(val_of_bool(eq_val(a, b))),
        Tokentype::BangEqual => Some(val_of_bool(!eq_val(a, b))),
        _ => Some(Val::Null),
    }
}

pub open spec fn bool_result(b: Option<bool>) -> Option<Val> {
    match b {
        Some(x) => Some(val_of_bool(x)),
        None => None,
    }
}

/// The result of a unary operator.
pub open spec fn unary_val(k: Tokentype, v: Val) -> Val {
    match k {
        Tokentype::Bang => not_val(v),
        Tokentype::Minus => negate_val(v),
        _ => Val::Null,
    }
}

/// The printed form of a value, or `None` for a float, whose text the host
/// gives.
pub open spec fn text_val(v: Val) -> Option<Seq<char>> {
    match v {
        Val::Int(i) => Some(int_text(i as int)),
        Val::Float(_) => None,
        Val::Str(s) => Some(s),
        Val::True => Some("True"@),
        Val::False => Some("False"@),
        Val::Null => Some("Nil"@),
    }
}

/// How deep evaluation may recurse into an expression tree; a deeper
/// subexpression is reported and counts as `nil`.
pub const MAX_EVAL_DEPTH: usize = 1000;

/// The line reported for a subexpression nested too deeply.
pub open spec fn too_deep_message() -> Seq<char> {
    "Expression nested too deeply."@
}

/// What evaluating an expression gives in a scope chain: its value, the
/// chain afterwards and the lines it reports.
pub open spec fn eval(e: Expr, env: Seq<ScopeModel>) -> Option<(Val, Seq<ScopeModel>, Seq<Seq<char>>)> {
    eval_at(e, env, 0)
}

/// Evaluating an expression found at nesting depth `d`. `None` where the
/// host's float arithmetic is consulted on the way.
pub open spec fn eval_at(e: Expr, env: Seq<ScopeModel>, d: nat) -> Option<
    (Val, Seq<ScopeModel>, Seq<Seq<char>>),
>
    decreases e,
{
    if d >= MAX_EVAL_DEPTH {
        Some((Val::Null, env, seq![too_deep_message()]))
    } else {
        match e {
            Expr::Literal { value } => Some((value@, env, Seq::empty())),
            Expr::Grouping { expression } => eval_at(*expression, env, d + 1),
            Expr::Unary { operator, right } => match eval_at(*right, env, d + 1) {
                Some((v, e1, o1)) => Some((unary_val(operator.tokentype, v), e1, o1)),
                None => None,
            },
            Expr::Binary { left, operator, right } => match eval_at(*left, env, d + 1) {
                Some((a, e1, o1)) => match eval_at(*right, e1, d + 1) {
                    Some((b, e2, o2)) => match binary_val(operator.tokentype, a, b) {
                        Some(v) => Some((v, e2, o1 + o2)),
                        None => None,
                    },
                    None => None,
                },
                None => None,
            },
            Expr::Variable { name } => match env_get(env, name.lexeme@) {
                Some(v) => Some((v, env, Seq::empty())),
                None => Some((Val::Null, env, seq![undefined_message(name.lexeme@)])),
            },
            Expr::Assign { name, value } => match eval_at(*value, env, d + 1) {
                Some((v, e1, o1)) => if env_has(e1, name.lexeme@) {
                    Some((v, env_assign(e1, name.lexeme@, v), o1))
                } else {
                    Some((v, e1, o1.push(undefined_message(name.lexeme@))))
                },
                None => None,
            },
        }
    }
}

/// What executing a statement gives: the scope chain and the output lines
/// afterwards. `None` where the host's float arithmetic is consulted.
pub open spec fn exec(s: Stmt, env: Seq<ScopeModel>, out: Seq<Seq<char>>) -> Option<
    (Seq<ScopeModel>, Seq<Seq<char>>),
>
    decreases s, 0int,
{
    match s {
        Stmt::Expression { expression } => match eval(expression, env) {
            Some((_, e1, o1)) => Some((e1, out + o1)),
            None => None,
        },
        Stmt::Print { expression } => match eval(expression, env) {
            Some((v, e1, o1)) => match text_val(v) {
                Some(t) => Some((e1, (out + o1).push(t))),
                None => None,
            },
            None => None,
        },
        Stmt::Var { name, initalizer } => match eval(initalizer, env) {
            Some((v, e1, o1)) => Some((env_define(e1, name.lexeme@, v), out + o1)),
            None => None,
        },
        Stmt::Block { statements } => {
            proof {
                assert(decreases_to!(statements => statements@));
            }
            match exec_list(statements@, 0, env.push(Seq::empty()), out) {
                Some((e1, o1)) => Some((e1.drop_last(), o1)),
                None => None,
            }
        },
    }
}

/// Executing the statements from position `i` on, in order.
pub open spec fn exec_list(ss: Seq<Stmt>, i: int, env: Seq<ScopeModel>, out: Seq<Seq<char>>) -> Option<
    (Seq<ScopeModel>, Seq<Seq<char>>),
>
    decreases ss, ss.len() - i,
{
    if i < 0 || i >= ss.len() {
        Some((env, out))
    } else {
        match exec(ss[i], env, out) {
            Some((e1, o1)) => exec_list(ss, i + 1, e1, o1),
            None => None,
        }
    }
}

/// The host's answer at position `k` of `tape` for a binary operator of
/// kind `k`: a float for `+ - * /`, `True` or `False` for a comparison (an
/// answer of another kind, or a missing one, stands for `0.0` or `False`).
pub open spec fn host_answer(op: Tokentype, tape: Seq<Val>, k: int) -> Val {
    let a = if 0 <= k < tape.len() {
        tape[k]
    } else {
        Val::Null
    };
    if op == Tokentype::Minus || op == Tokentype::Plus || op == Tokentype::Slash || op
        == Tokentype::Star {
        if a is Float {
            a
        } else {
            Val::Float(0)
        }
    } else if a == Val::True {
        Val::True
    } else {
        Val::False
    }
}

/// The host's text at position `k` of `tape` for a printed float.
pub open spec fn host_text(tape: Seq<Val>, k: int) -> Seq<char> {
    if 0 <= k < tape.len() && tape[k] is Str {
        tape[k]->Str_0
    } else {
        Seq::empty()
    }
}

/// Evaluating `e` at depth `d` in `env`, where the host's answers are read
/// from `tape` starting at position `k`: the value, the chain afterwards,
/// the lines reported and the position of the next unread answer. Where the
/// host is never asked, this is `eval_at`.
pub open spec fn eval_tape(e: Expr, env: Seq<ScopeModel>, d: nat, tape: Seq<Val>, k: int) -> (
    Val,
    Seq<ScopeModel>,
    Seq<Seq<char>>,
    int,
)
    decreases e,
{
    if d >= MAX_EVAL_DEPTH {
        (Val::Null, env, seq![too_deep_message()], k)
    } else {
        match e {
            Expr::Literal { value } => (value@, env, Seq::empty(), k),
            Expr::Grouping { expression } => eval_tape(*expression, env, d + 1, tape, k),
            Expr::Unary { operator, right } => {
                let r = eval_tape(*right, env, d + 1, tape, k);
                (unary_val(operator.tokentype, r.0), r.1, r.2, r.3)
            },
            Expr::Binary { left, operator, right } => {
                let l = eval_tape(*left, env, d + 1, tape, k);
                let r = eval_tape(*right, l.1, d + 1, tape, l.3);
                match binary_val(operator.tokentype, l.0, r.0) {
                    Some(v) => (v, r.1, l.2 + r.2, r.3),
                    None => (host_answer(operator.tokentype, tape, r.3), r.1, l.2 + r.2, r.3 + 1),
                }
            },
            Expr::Variable { name } => match env_get(env, name.lexeme@) {
                Some(v) => (v, env, Seq::empty(), k),
                None => (Val::Null, env, seq![undefined_message(name.lexeme@)], k),
            },
            Expr::Assign { name, value } => {
                let r = eval_tape(*value, env, d + 1, tape, k);
                if env_has(r.1, name.lexeme@) {
                    (r.0, env_assign(r.1, name.lexeme@, r.0), r.2, r.3)
                } else {
                    (r.0, r.1, r.2.push(undefined_message(name.lexeme@)), r.3)
                }
            },
        }
    }
}

/// Executing `s` from chain `env` and output `out`, with the host's answers
/// read from `tape` at `k`: the chain, the output and the next position.
pub open spec fn exec_tape(s: Stmt, env: Seq<ScopeModel>, out: Seq<Seq<char>>, tape: Seq<Val>, k: int) -> (
    Seq<ScopeModel>,
    Seq<Seq<char>>,
    int,
)
    decreases s, 0int,
{
    match s {
        Stmt::Expression { expression } => {
            let r = eval_tape(expression, env, 0, tape, k);
            (r.1, out + r.2, r.3)
        },
        Stmt::Print { expression } => {
            let r = eval_tape(expression, env, 0, tape, k);
            match text_val(r.0) {
                Some(t) => (r.1, (out + r.2).push(t), r.3),
                None => (r.1, (out + r.2).push(host_text(tape, r.3)), r.3 + 1),
            }
        },
        Stmt::Var { name, initalizer } => {
            let r = eval_tape(initalizer, env, 0, tape, k);
            (env_define(r.1, name.lexeme@, r.0), out + r.2, r.3)
        },
        Stmt::Block { statements } => {
            proof {
                assert(decreases_to!(statements => statements@));
            }
            let r = exec_list_tape(statements@, 0, env.push(Seq::empty()), out, tape, k);
            (r.0.drop_last(), r.1, r.2)
        },
    }
}

/// Executing the statements of `ss` from position `i` on, in order.
pub open spec fn exec_list_tape(
    ss: Seq<Stmt>,
    i: int,
    env: Seq<ScopeModel>,
    out: Seq<Seq<char>>,
    tape: Seq<Val>,
    k: int,
) -> (Seq<ScopeModel>, Seq<Seq<char>>, int)
    decreases ss, ss.len() - i,
{
    if i < 0 || i >= ss.len() {
        (env, out, k)
    } else {
        let r = exec_tape(ss[i], env, out, tape, k);
        exec_list_tape(ss, i + 1, r.0, r.1, tape, r.2)
    }
}

/// `t` begins with `a`.
pub open spec fn begins_with(t: Seq<Val>, a: Seq<Val>) -> bool {
    a.len() <= t.len() && t.take(a.len() as int) == a
}

pub proof fn lemma_begins_trans(t: Seq<Val>, a: Seq<Val>, b: Seq<Val>)
    requires
        begins_with(t, b),
        begins_with(b, a),
    ensures
        begins_with(t, a),
{
    assert forall|i: int| 0 <= i < a.len() implies t[i] == a[i] by {
        assert(t.take(b.len() as int)[i] == b[i]);
        assert(b.take(a.len() as int)[i] == a[i]);
    }
    assert(t.take(a.len() as int) =~= a);
}

pub proof fn lemma_begins_refl(t: Seq<Val>)
    ensures
        begins_with(t, t),
{
    assert(t.take(t.len() as int) =~= t);
}

pub proof fn lemma_begins_push(a: Seq<Val>, x: Val)
    ensures
        begins_with(a.push(x), a),
{
    assert(a.push(x).take(a.len() as int) =~= a);
}

fn binary<F: FloatArith>(k: Tokentype, a: &Object, b: &Object, host: &F) -> (r: Object)
    ensures
        binary_val(k, a@, b@) matches Some(v) ==> r@ == v,
        binary_val(k, a@, b@) is None ==> if k == Tokentype::Minus || k == Tokentype::Plus || k
            == Tokentype::Slash || k == Tokentype::Star {
            r@ is Float
        } else {
            r@ == Val::True || r@ == Val::False
        },
{
    match k {
        Tokentype::Minus => a.minus(b, host),
        Tokentype::Plus => a.plus(b, host),
        Tokentype::Slash => a.divide(b, host),
        Tokentype::Star => a.times(b, host),
        Tokentype::Greater => bool(b.less(a, true, host)),
        Tokentype::GreaterEqual => bool(b.less(a, false, host)),
        Tokentype::Less => bool(a.less(b, true, host)),
        Tokentype::LessEqual => bool(a.less(b, false, host)),
        Tokentype::EqualEqual => bool(a.equals(b)),
        Tokentype::BangEqual => bool(!a.equals(b)),
        _ => Object::Null,
    }
}

fn unary(k: Tokentype, v: &Object) -> (r: Object)
    ensures
        r@ == unary_val(k, v@),
{
    match k {
        Tokentype::Bang => v.not(),
        Tokentype::Minus => v.negate(),
        _ => Object::Null,
    }
}

/// The printed form of a value: integers in decimal, strings as they are,
/// `True`, `False` and `Nil`; a float as the host writes it.
pub fn value_text<F: FloatArith>(v: &Object, host: &F) -> (r: String)
    ensures
        text_val(v@) matches Some(t) ==> r@ == t,
{
    match v {
        Object::IntValue(i) => int_to_text(*i),
        Object::FloatValue(b) => host.render(*b),
        Object::StringValue(s) => s.clone(),
        Object::True => String::from_str("True"),
        Object::False => String::from_str("False"),
        Object::Null => String::from_str("Nil"),
    }
}

pub open spec fn lines_of(v: Seq<String>) -> Seq<Seq<char>> {
    v.map_values(|s: String| s@)
}

/// `a` starts with `b`.
pub open spec fn extends(a: Seq<Seq<char>>, b: Seq<Seq<char>>) -> bool {
    &&& b.len() <= a.len()
    &&& forall|k: int| 0 <= k < b.len() ==> #[trigger] a[k] == b[k]
}

/// Runs statements against a scope chain that persists between runs, and
/// collects what they print and report.
pub struct Interpreter {
    environment: Environment,
    pub output: Vec<String>,
    /// The answers the host has given so far, in order.
    answers: Ghost<Seq<Val>>,
}

impl Interpreter {
    /// The current scope chain.
    pub closed spec fn scopes(&self) -> Seq<ScopeModel> {
        self.environment@
    }

    /// The lines printed and reported so far.
    pub closed spec fn lines(&self) -> Seq<Seq<char>> {
        lines_of(self.output@)
    }

    /// The answers the host's float arithmetic has given so far, in order
    /// (a printed float's text as a string value).
    pub closed spec fn answers(&self) -> Seq<Val> {
        self.answers@
    }

    /// An interpreter with an empty global scope and no output.
    pub fn new() -> (r: Interpreter)
        ensures
            r.scopes() == seq![Seq::<(Seq<char>, Val)>::empty()],
            r.lines() == Seq::<Seq<char>>::empty(),
            r.answers() == Seq::<Val>::empty(),
    {
        let r = Interpreter {
            environment: Environment::new(),
            output: Vec::new(),
            answers: Ghost(Seq::empty()),
        };
        assert(r.lines() =~= Seq::<Seq<char>>::empty());
        r
    }

    /// Adds a line to the output.
    pub(crate) fn emit(&mut self, line: String)
        ensures
            final(self).scopes() == old(self).scopes(),
            final(self).answers() == old(self).answers(),
            final(self).lines() == old(self).lines().push(line@),
            extends(final(self).lines(), old(self).lines()),
    {
        self.output.push(line);
        assert(self.lines() =~= old(self).lines().push(line@));
    }

    /// Executes the statements in order. The scope chain and output
    /// afterwards are those of `exec_list_tape` over the host's answers given
    /// during the run (`answers()`), and, where the host is not asked, those
    /// of `exec_list`; the number of scopes never changes.
    pub fn interpret<F: FloatArith>(&mut self, statements: Vec<Stmt>, host: &F)
        requires
            old(self).scopes().len() > 0,
        ensures
            begins_with(final(self).answers(), old(self).answers()),
            exec_list_tape(
                statements@,
                0,
                old(self).scopes(),
                old(self).lines(),
                final(self).answers(),
                old(self).answers().len() as int,
            ) == (final(self).scopes(), final(self).lines(), final(self).answers().len() as int),
            final(self).scopes().len() == old(self).scopes().len(),
            extends(final(self).lines(), old(self).lines()),
            exec_list(statements@, 0, old(self).scopes(), old(self).lines()) matches Some(r) ==> (
            final(self).scopes() == r.0 && final(self).lines() == r.1),
    {
        self.execute_all(&statements, host);
        proof {
            lemma_begins_refl(self.answers@);
        }
    }

    fn execute_all<F: FloatArith>(&mut self, statements: &Vec<Stmt>, host: &F)
        requires
            old(self).environment@.len() > 0,
        ensures
            final(self).environment@.len() == old(self).environment@.len(),
            extends(final(self).lines(), old(self).lines()),
            exec_list(statements@, 0, old(self).environment@, old(self).lines()) matches Some(r)
                ==> (final(self).environment@ == r.0 && final(self).lines() == r.1),
            begins_with(final(self).answers@, old(self).answers@),
            forall|t: Seq<Val>|
                #![trigger exec_list_tape(statements@, 0, old(self).environment@, old(self).lines(), t, old(self).answers@.len() as int)]
                begins_with(t, final(self).answers@) ==> exec_list_tape(
                    statements@,
                    0,
                    old(self).environment@,
                    old(self).lines(),
                    t,
                    old(self).answers@.len() as int,
                ) == (final(self).environment@, final(self).lines(), final(self).answers@.len() as int),
        decreases statements, 1int,
    {
        let ghost ss = statements@;
        let ghost whole = exec_list(ss, 0, self.environment@, self.lines());
        let ghost mut ok = true;
        let mut i: usize = 0;
        proof {
            lemma_begins_refl(self.answers@);
        }
        while i < statements.len()
            invariant
                i <= ss.len(),
                ss == statements@,
                self.environment@.len() == old(self).environment@.len(),
                old(self).environment@.len() > 0,
                extends(self.lines(), old(self).lines()),
                whole == exec_list(ss, 0, old(self).environment@, old(self).lines()),
                ok ==> whole == exec_list(ss, i as int, self.environment@, self.lines()),
                !ok ==> whole is None,
                begins_with(self.answers@, old(self).answers@),
                forall|t: Seq<Val>|
                    #![trigger exec_list_tape(ss, 0, old(self).environment@, old(self).lines(), t, old(self).answers@.len() as int)]
                    begins_with(t, self.answers@) ==> exec_list_tape(
                        ss,
                        0,
                        old(self).environment@,
                        old(self).lines(),
                        t,
                        old(self).answers@.len() as int,
                    ) == exec_list_tape(
                        ss,
                        i as int,
                        self.environment@,
                        self.lines(),
                        t,
                        self.answers@.len() as int,
                    ),
            decreases ss.len() - i,
        {
            let ghost env0 = self.environment@;
            let ghost out0 = self.lines();
            let ghost ans0 = self.answers@;
            proof {
                assert(decreases_to!(statements => statements@));
                assert(decreases_to!(statements@ => statements@[i as int]));
            }
            self.execute(&statements[i], host);
            proof {
                if ok {
                    match exec(ss[i as int], env0, out0) {
                        Some(r) => {
                            assert(exec_list(ss, i as int, env0, out0) == exec_list(
                                ss,
                                i + 1,
                                r.0,
                                r.1,
                            ));
                        },
                        None => {
                            ok = false;
                        },
                    }
                }
                lemma_begins_trans(self.answers@, old(self).answers@, ans0);
                assert forall|t: Seq<Val>| begins_with(t, self.answers@) implies exec_list_tape(
                    ss,
                    0,
                    old(self).environment@,
                    old(self).lines(),
                    t,
                    old(self).answers@.len() as int,
                ) == exec_list_tape(
                    ss,
                    i + 1,
                    self.environment@,
                    self.lines(),
                    t,
                    self.answers@.len() as int,
                ) by {
                    lemma_begins_trans(t, ans0, self.answers@);
                    assert(exec_tape(ss[i as int], env0, out0, t, ans0.len() as int) == (self.environment@, self.lines(), self.answers@.len() as int));
                    assert(exec_list_tape(ss, i as int, env0, out0, t, ans0.len() as int) == exec_list_tape(ss, i + 1, self.environment@, self.lines(), t, self.answers@.len() as int));
                }
            }
            i = i + 1;
        }
    }

    fn execute<F: FloatArith>(&mut self, statement: &Stmt, host: &F)
        requires
            old(self).environment@.len() > 0,
        ensures
            final(self).environment@.len() == old(self).environment@.len(),
            extends(final(self).lines(), old(self).lines()),
            exec(*statement, old(self).environment@, old(self).lines()) matches Some(r) ==> (
            final(self).environment@ == r.0 && final(self).lines() == r.1),
            begins_with(final(self).answers@, old(self).answers@),
            forall|t: Seq<Val>|
                #![trigger exec_tape(*statement, old(self).environment@, old(self).lines(), t, old(self).answers@.len() as int)]
                begins_with(t, final(self).answers@) ==> exec_tape(
                    *statement,
                    old(self).environment@,
                    old(self).lines(),
                    t,
                    old(self).answers@.len() as int,
                ) == (final(self).environment@, final(self).lines(), final(self).answers@.len() as int),
        decreases statement, 0int,
    {
        let ghost n0 = self.lines().len() as int;
        match statement {
            Stmt::Expression { expression } => {
                let v = self.evaluate(expression, host, 0);
                assert(self.lines() =~= old(self).lines() + self.lines().subrange(n0, self.lines().len() as int));
                assert forall|tp: Seq<Val>| begins_with(tp, self.answers@) implies exec_tape(
                    *statement,
                    old(self).environment@,
                    old(self).lines(),
                    tp,
                    old(self).answers@.len() as int,
                ) == (self.environment@, self.lines(), self.answers@.len() as int) by {
                    assert(eval_tape(*expression, old(self).environment@, 0, tp, old(self).answers@.len() as int) == (v@, self.environment@, self.lines().subrange(n0, self.lines().len() as int), self.answers@.len() as int));
                }
            },
            Stmt::Print { expression } => {
                let v = self.evaluate(expression, host, 0);
                let ghost a1 = self.answers@;
                let ghost o1 = self.lines();
                let ghost e1 = self.environment@;
                let t = value_text(&v, host);
                proof {
                    assert(o1 =~= old(self).lines() + o1.subrange(n0, o1.len() as int));
                    if text_val(v@) is None {
                        self.answers = Ghost(self.answers@.push(Val::Str(t@)));
                        lemma_begins_push(a1, Val::Str(t@));
                    } else {
                        lemma_begins_refl(a1);
                    }
                    lemma_begins_trans(self.answers@, old(self).answers@, a1);
                }
                self.emit(t);
                proof {
                    assert forall|tp: Seq<Val>| begins_with(tp, self.answers@) implies exec_tape(
                        *statement,
                        old(self).environment@,
                        old(self).lines(),
                        tp,
                        old(self).answers@.len() as int,
                    ) == (self.environment@, self.lines(), self.answers@.len() as int) by {
                        lemma_begins_trans(tp, a1, self.answers@);
                        assert(eval_tape(*expression, old(self).environment@, 0, tp, old(self).answers@.len() as int) == (v@, e1, o1.subrange(n0, o1.len() as int), a1.len() as int));
                        if text_val(v@) is None {
                            assert(tp.take(self.answers@.len() as int)[a1.len() as int] == Val::Str(t@));
                        }
                    }
                }
            },
            Stmt::Var { name, initalizer } => {
                let v = self.evaluate(initalizer, host, 0);
                assert(self.lines() =~= old(self).lines() + self.lines().subrange(n0, self.lines().len() as int));
                let ghost e1 = self.environment@;
                let ghost vv = v@;
                self.environment.define(name.lexeme.clone(), v);
                assert forall|tp: Seq<Val>| begins_with(tp, self.answers@) implies exec_tape(
                    *statement,
                    old(self).environment@,
                    old(self).lines(),
                    tp,
                    old(self).answers@.len() as int,
                ) == (self.environment@, self.lines(), self.answers@.len() as int) by {
                    assert(eval_tape(*initalizer, old(self).environment@, 0, tp, old(self).answers@.len() as int) == (vv, e1, self.lines().subrange(n0, self.lines().len() as int), self.answers@.len() as int));
                }
            },
            Stmt::Block { statements } => {
                self.environment.push_scope();
                proof {
                    assert(decreases_to!(statement => statements));
                }
                let ghost pushed = self.environment@;
                self.execute_all(statements, host);
                let ghost inner = self.environment@;
                self.environment.pop_scope();
                assert(pushed == old(self).environment@.push(Seq::empty()));
                assert forall|tp: Seq<Val>| begins_with(tp, self.answers@) implies exec_tape(
                    *statement,
                    old(self).environment@,
                    old(self).lines(),
                    tp,
                    old(self).answers@.len() as int,
                ) == (self.environment@, self.lines(), self.answers@.len() as int) by {
                    assert(exec_list_tape(statements@, 0, pushed, old(self).lines(), tp, old(self).answers@.len() as int) == (inner, self.lines(), self.answers@.len() as int));
                }
            },
        }
    }

    fn evaluate<F: FloatArith>(&mut self, expr: &Expr, host: &F, depth: usize) -> (r: Object)
        requires
            depth <= MAX_EVAL_DEPTH,
        ensures
            final(self).environment@.len() == old(self).environment@.len(),
            extends(final(self).lines(), old(self).lines()),
            eval_at(*expr, old(self).environment@, depth as nat) matches Some(x) ==> (r@ == x.0
                && final(self).environment@ == x.1 && final(self).lines() == old(self).lines()
                + x.2),
            begins_with(final(self).answers@, old(self).answers@),
            forall|t: Seq<Val>|
                #![trigger eval_tape(*expr, old(self).environment@, depth as nat, t, old(self).answers@.len() as int)]
                begins_with(t, final(self).answers@) ==> eval_tape(
                    *expr,
                    old(self).environment@,
                    depth as nat,
                    t,
                    old(self).answers@.len() as int,
                ) == (
                    r@,
                    final(self).environment@,
                    final(self).lines().subrange(
                        old(self).lines().len() as int,
                        final(self).lines().len() as int,
                    ),
                    final(self).answers@.len() as int,
                ),
        decreases expr,
    {
        let ghost n0 = self.lines().len() as int;
        proof {
            lemma_begins_refl(self.answers@);
        }
        if depth >= MAX_EVAL_DEPTH {
            self.emit(String::from_str("Expression nested too deeply."));
            assert(old(self).lines().push(too_deep_message()) =~= old(self).lines() + seq![
                too_deep_message(),
            ]);
            assert(self.lines().subrange(n0, self.lines().len() as int) =~= seq![too_deep_message()]);
            return Object::Null;
        }
        match expr {
            Expr::Literal { value } => {
                assert(old(self).lines() + Seq::<Seq<char>>::empty() =~= old(self).lines());
                assert(self.lines().subrange(n0, n0) =~= Seq::<Seq<char>>::empty());
                value.duplicate()
            },
            Expr::Grouping { expression } => {
                let r = self.evaluate(expression, host, depth + 1);
                proof {
                    assert forall|t: Seq<Val>| begins_with(t, self.answers@) implies eval_tape(
                        *expr,
                        old(self).environment@,
                        depth as nat,
                        t,
                        old(self).answers@.len() as int,
                    ) == (
                        r@,
                        self.environment@,
                        self.lines().subrange(n0, self.lines().len() as int),
                        self.answers@.len() as int,
                    ) by {
                        assert(eval_tape(**expression, old(self).environment@, depth as nat + 1, t, old(self).answers@.len() as int) == (r@, self.environment@, self.lines().subrange(n0, self.lines().len() as int), self.answers@.len() as int));
                    }
                }
                r
            },
            Expr::Unary { operator, right } => {
                let v = self.evaluate(right, host, depth + 1);
                let r = unary(operator.tokentype, &v);
                proof {
                    assert forall|t: Seq<Val>| begins_with(t, self.answers@) implies eval_tape(
                        *expr,
                        old(self).environment@,
                        depth as nat,
                        t,
                        old(self).answers@.len() as int,
                    ) == (
                        r@,
                        self.environment@,
                        self.lines().subrange(n0, self.lines().len() as int),
                        self.answers@.len() as int,
                    ) by {
                        assert(eval_tape(**right, old(self).environment@, depth as nat + 1, t, old(self).answers@.len() as int) == (v@, self.environment@, self.lines().subrange(n0, self.lines().len() as int), self.answers@.len() as int));
                    }
                }
                r
            },
            Expr::Binary { left, operator, right } => {
                let ghost o0 = self.lines();
                let a = self.evaluate(left, host, depth + 1);
                let ghost o1 = self.lines();
                let ghost a1 = self.answers@;
                let ghost env1 = self.environment@;
                let b = self.evaluate(right, host, depth + 1);
                proof {
                    match eval_at(**left, old(self).environment@, depth as nat + 1) {
                        Some(x1) => {
                            match eval_at(**right, x1.1, depth as nat + 1) {
                                Some(x2) => {
                                    assert(o0 + x1.2 + x2.2 =~= o0 + (x1.2 + x2.2));
                                },
                                None => {},
                            }
                        },
                        None => {},
                    }
                }
                let ghost a2 = self.answers@;
                let ghost o2 = self.lines();
                let r = binary(operator.tokentype, &a, &b, host);
                proof {
                    if binary_val(operator.tokentype, a@, b@) is None {
                        self.answers = Ghost(self.answers@.push(r@));
                        lemma_begins_push(a2, r@);
                    } else {
                        lemma_begins_refl(a2);
                    }
                    lemma_begins_trans(self.answers@, a1, a2);
                    lemma_begins_trans(self.answers@, old(self).answers@, a1);
                    let n1 = o1.len() as int;
                    let n2 = o2.len() as int;
                    assert(o2.subrange(n0, n2) =~= o1.subrange(n0, n1) + o2.subrange(n1, n2));
                    assert(o1.subrange(n0, n1) =~= o2.subrange(n0, n1));
                    assert forall|t: Seq<Val>| begins_with(t, self.answers@) implies eval_tape(
                        *expr,
                        old(self).environment@,
                        depth as nat,
                        t,
                        old(self).answers@.len() as int,
                    ) == (
                        r@,
                        self.environment@,
                        self.lines().subrange(n0, self.lines().len() as int),
                        self.answers@.len() as int,
                    ) by {
                        lemma_begins_trans(t, a2, self.answers@);
                        lemma_begins_trans(t, a1, a2);
                        assert(eval_tape(**left, old(self).environment@, depth as nat + 1, t, old(self).answers@.len() as int) == (a@, env1, o1.subrange(n0, n1), a1.len() as int));
                        assert(eval_tape(**right, env1, depth as nat + 1, t, a1.len() as int) == (b@, self.environment@, o2.subrange(n1, n2), a2.len() as int));
                        if binary_val(operator.tokentype, a@, b@) is None {
                            assert(t.take(self.answers@.len() as int)[a2.len() as int] == r@);
                        }
                    }
                }
                r
            },
            Expr::Variable { name } => {
                match self.environment.get(name.duplicate()) {
                    Ok(v) => {
                        assert(old(self).lines() + Seq::<Seq<char>>::empty() =~= old(
                            self,
                        ).lines());
                        assert(self.lines().subrange(n0, n0) =~= Seq::<Seq<char>>::empty());
                        v
                    },
                    Err(m) => {
                        self.emit(m);
                        assert(old(self).lines().push(undefined_message(name.lexeme@)) =~= old(
                            self,
                        ).lines() + seq![undefined_message(name.lexeme@)]);
                        assert(self.lines().subrange(n0, self.lines().len() as int) =~= seq![
                            undefined_message(name.lexeme@),
                        ]);
                        Object::Null
                    },
                }
            },
            Expr::Assign { name, value } => {
                let v = self.evaluate(value, host, depth + 1);
                let ghost e1 = self.environment@;
                let ghost oa = self.lines();
                let ghost aa = self.answers@;
                match self.environment.assign(name.duplicate(), &v) {
                    Ok(_) => {},
                    Err(m) => {
                        let ghost o1 = self.lines();
                        self.emit(m);
                        proof {
                            match eval_at(**value, old(self).environment@, depth as nat + 1) {
                                Some(x1) => {
                                    assert(o1.push(undefined_message(name.lexeme@)) =~= old(
                                        self,
                                    ).lines() + x1.2.push(undefined_message(name.lexeme@)));
                                },
                                None => {},
                            }
                        }
                    },
                }
                proof {
                    let na = oa.len() as int;
                    if !env_has(e1, name.lexeme@) {
                        assert(self.lines().subrange(n0, self.lines().len() as int) =~= oa.subrange(
                            n0,
                            na,
                        ).push(undefined_message(name.lexeme@)));
                    } else {
                        assert(self.lines() == oa);
                    }
                    assert forall|t: Seq<Val>| begins_with(t, self.answers@) implies eval_tape(
                        *expr,
                        old(self).environment@,
                        depth as nat,
                        t,
                        old(self).answers@.len() as int,
                    ) == (
                        v@,
                        self.environment@,
                        self.lines().subrange(n0, self.lines().len() as int),
                        self.answers@.len() as int,
                    ) by {
                        assert(eval_tape(**value, old(self).environment@, depth as nat + 1, t, old(self).answers@.len() as int) == (v@, e1, oa.subrange(n0, na), aa.len() as int));
                    }
                }
                v
            },
        }
    }
}

} // verus!
