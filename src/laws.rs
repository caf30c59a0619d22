use vstd::prelude::*;

use crate::ast::{Expr, Stmt};
use crate::environment::{
    bound_at, env_assign, env_define, env_get, env_has, env_index, innermost_at, lemma_bound_at_unique,
    lemma_innermost_unique, scope_get, scope_has, scope_index, scope_set, undefined_message,
    ScopeModel,
};
use crate::interpreter::{
    binary_val, eval, eval_at, eval_tape, exec_list_tape, exec_tape, text_val, MAX_EVAL_DEPTH,
};
use crate::scanner::{
    digits_end, digits_value, find_char, is_digit_char, is_operator_char, lemma_digits_end,
    lemma_digits_value_grows, lemma_find_char, lemma_step_advances, lex, line_at, literal_fits,
    single_kind, step, token_step,
};
use crate::text::{digit_char, nat_text};
use crate::token::{TokenModel, Tokentype};
use crate::value::{eq_val, float_eq, float_equals_int, is_numeric, Val};

verus! {

/// Integer `+`, `-` and `*` give the exact integer whenever it fits in 64
/// bits; `/` on two integers always gives a float.
pub proof fn law_integer_arithmetic(a: i64, b: i64)
    ensures
        i64::MIN <= a + b <= i64::MAX ==> binary_val(Tokentype::Plus, Val::Int(a), Val::Int(b))
            == Some(Val::Int((a + b) as i64)),
        i64::MIN <= a - b <= i64::MAX ==> binary_val(Tokentype::Minus, Val::Int(a), Val::Int(b))
            == Some(Val::Int((a - b) as i64)),
        i64::MIN <= a * b <= i64::MAX ==> binary_val(Tokentype::Star, Val::Int(a), Val::Int(b))
            == Some(Val::Int((a * b) as i64)),
        binary_val(Tokentype::Slash, Val::Int(a), Val::Int(b)) is None,
{
}

/// Every number equals itself.
pub proof fn law_number_equals_itself(x: Val)
    requires
        is_numeric(x),
    ensures
        eq_val(x, x),
        binary_val(Tokentype::EqualEqual, x, x) == Some(Val::True),
        binary_val(Tokentype::BangEqual, x, x) == Some(Val::False),
{
}

/// Equality is symmetric, and an integer equals a float exactly when their
/// values are the same number.
pub proof fn law_equality_symmetric(a: Val, b: Val)
    ensures
        eq_val(a, b) == eq_val(b, a),
        binary_val(Tokentype::EqualEqual, a, b) == binary_val(Tokentype::EqualEqual, b, a),
        a is Int && b is Float ==> eq_val(a, b) == float_equals_int(b->Float_0, a->Int_0),
{
    if a is Float && b is Float {
        assert(float_eq(a->Float_0, b->Float_0) == float_eq(b->Float_0, a->Float_0));
    }
}

/// A string and a number are never ordered, whichever side each is on.
pub proof fn law_string_number_unordered(s: Seq<char>, n: Val)
    requires
        is_numeric(n),
    ensures
        binary_val(Tokentype::Less, Val::Str(s), n) == Some(Val::False),
        binary_val(Tokentype::LessEqual, Val::Str(s), n) == Some(Val::False),
        binary_val(Tokentype::Greater, Val::Str(s), n) == Some(Val::False),
        binary_val(Tokentype::GreaterEqual, Val::Str(s), n) == Some(Val::False),
        binary_val(Tokentype::Less, n, Val::Str(s)) == Some(Val::False),
        binary_val(Tokentype::LessEqual, n, Val::Str(s)) == Some(Val::False),
        binary_val(Tokentype::Greater, n, Val::Str(s)) == Some(Val::False),
        binary_val(Tokentype::GreaterEqual, n, Val::Str(s)) == Some(Val::False),
{
}

/// After `name` is bound in a scope, the scope gives the new value for it.
pub proof fn lemma_scope_set_get(sc: ScopeModel, name: Seq<char>, v: Val)
    ensures
        scope_get(scope_set(sc, name, v), name) == Some(v),
        scope_has(scope_set(sc, name, v), name),
{
    let sc2 = scope_set(sc, name, v);
    if scope_has(sc, name) {
        let k = scope_index(sc, name);
        assert(bound_at(sc, name, k));
        assert(bound_at(sc2, name, k));
        lemma_bound_at_unique(sc2, name, k);
    } else {
        let k = sc.len() as int;
        assert forall|j: int| 0 <= j < k implies (#[trigger] sc2[j]).0 != name by {
            if sc[j].0 == name {
                lemma_first_occurrence(sc, name, j);
            }
        }
        assert(bound_at(sc2, name, k));
        lemma_bound_at_unique(sc2, name, k);
    }
}

/// A name that occurs in a scope is bound there.
pub proof fn lemma_first_occurrence(sc: ScopeModel, name: Seq<char>, j: int)
    requires
        0 <= j < sc.len(),
        sc[j].0 == name,
    ensures
        scope_has(sc, name),
    decreases j,
{
    if forall|i: int| 0 <= i < j ==> (#[trigger] sc[i]).0 != name {
        assert(bound_at(sc, name, j));
    } else {
        let i = choose|i: int| 0 <= i < j && (#[trigger] sc[i]).0 == name;
        lemma_first_occurrence(sc, name, i);
    }
}

/// Binding `name` twice in a scope is the same as binding it once to the
/// second value.
pub proof fn lemma_scope_set_twice(sc: ScopeModel, name: Seq<char>, v1: Val, v2: Val)
    ensures
        scope_set(scope_set(sc, name, v1), name, v2) == scope_set(sc, name, v2),
{
    let sc1 = scope_set(sc, name, v1);
    lemma_scope_set_get(sc, name, v1);
    if scope_has(sc, name) {
        let k = scope_index(sc, name);
        assert(bound_at(sc, name, k));
        assert(bound_at(sc1, name, k));
        lemma_bound_at_unique(sc1, name, k);
        assert(scope_set(sc1, name, v2) =~= scope_set(sc, name, v2));
    } else {
        let k = sc.len() as int;
        let sc2 = scope_set(sc, name, v2);
        lemma_scope_set_get(sc, name, v2);
        let c = scope_index(sc1, name);
        assert(bound_at(sc1, name, c));
        if c < k {
            assert(sc[c] == sc1[c]);
            lemma_first_occurrence(sc, name, c);
        }
        assert(scope_set(sc1, name, v2) =~= sc2);
    }
}

/// After `define`, the chain gives the defined value for the name.
pub proof fn lemma_define_get(env: Seq<ScopeModel>, name: Seq<char>, v: Val)
    requires
        env.len() > 0,
    ensures
        env_get(env_define(env, name, v), name) == Some(v),
        env_has(env_define(env, name, v), name),
{
    let env2 = env_define(env, name, v);
    let i = env.len() - 1;
    lemma_scope_set_get(env.last(), name, v);
    assert(innermost_at(env2, name, i));
    lemma_innermost_unique(env2, name, i);
}

/// A name declared in a block shadows an outer one inside the block, and
/// leaving the block gives back the chain as it was before the block.
pub proof fn law_block_shadowing(env: Seq<ScopeModel>, name: Seq<char>, v: Val)
    requires
        env.len() > 0,
    ensures
        env_get(env_define(env.push(Seq::empty()), name, v), name) == Some(v),
        env_define(env.push(Seq::empty()), name, v).drop_last() == env,
{
    lemma_define_get(env.push(Seq::empty()), name, v);
    assert(env_define(env.push(Seq::empty()), name, v).drop_last() =~= env);
}

/// Assigning to a name that no scope binds changes no scope and binds
/// nothing; the expression reports the name as undefined and still gives the
/// assigned value.
pub proof fn law_assign_undeclared(e: Expr, env: Seq<ScopeModel>)
    requires
        e matches Expr::Assign { name, value } && eval_at(*value, env, 1) matches Some(r) && !env_has(
            r.1,
            name.lexeme@,
        ),
    ensures
        e matches Expr::Assign { name, value } && eval_at(*value, env, 1) matches Some(r) && eval(
            e,
            env,
        )
            == Some((r.0, r.1, r.2.push(undefined_message(name.lexeme@)))) && env_assign(
            r.1,
            name.lexeme@,
            r.0,
        ) == r.1 && env_get(r.1, name.lexeme@) is None,
{
}

/// Declaring a name again in the same scope replaces its binding.
pub proof fn law_redeclaration(env: Seq<ScopeModel>, name: Seq<char>, v1: Val, v2: Val)
    requires
        env.len() > 0,
    ensures
        env_define(env_define(env, name, v1), name, v2) == env_define(env, name, v2),
        env_get(env_define(env_define(env, name, v1), name, v2), name) == Some(v2),
{
    lemma_scope_set_twice(env.last(), name, v1, v2);
    assert(env_define(env_define(env, name, v1), name, v2) =~= env_define(env, name, v2));
    lemma_define_get(env, name, v2);
}

/// `+` concatenates two strings; a string added to a number gives null.
pub proof fn law_string_concatenation(s: Seq<char>, t: Seq<char>, n: Val)
    requires
        is_numeric(n),
    ensures
        binary_val(Tokentype::Plus, Val::Str(s), Val::Str(t)) == Some(Val::Str(s + t)),
        binary_val(Tokentype::Plus, Val::Str(s), n) == Some(Val::Null),
        binary_val(Tokentype::Plus, n, Val::Str(s)) == Some(Val::Null),
{
}

pub proof fn lemma_nat_text_digits(n: nat)
    ensures
        nat_text(n).len() > 0,
        forall|k: int| 0 <= k < nat_text(n).len() ==> is_digit_char(#[trigger] nat_text(n)[k]),
        digits_value(nat_text(n)) == n,
    decreases n,
{
    let d = digit_char(n % 10);
    assert(d as int - '0' as int == n % 10);
    if n >= 10 {
        lemma_nat_text_digits(n / 10);
        let q = nat_text(n / 10);
        assert(nat_text(n).drop_last() =~= q);
        assert(nat_text(n).last() == d);
        assert(digits_value(nat_text(n)) == digits_value(q) * 10 + (n % 10));
        assert((n / 10) * 10 + n % 10 == n) by (nonlinear_arith);
    } else {
        assert(nat_text(n).drop_last() =~= Seq::<char>::empty());
        assert(nat_text(n).last() == d);
        assert(digits_value(nat_text(n)) == digits_value(Seq::<char>::empty()) * 10 + (n % 10));
    }
}

pub proof fn lemma_digits_end_all(s: Seq<char>, i: int)
    requires
        0 <= i <= s.len(),
        forall|k: int| i <= k < s.len() ==> is_digit_char(#[trigger] s[k]),
    ensures
        digits_end(s, i) == s.len(),
    decreases s.len() - i,
{
    if i < s.len() {
        lemma_digits_end_all(s, i + 1);
    }
}

/// The printed form of a scanned integer literal scans back to a single
/// number token with the same value.
pub proof fn law_integer_literal_round_trip(v: i64)
    requires
        v >= 0,
    ensures
        text_val(Val::Int(v)) == Some(nat_text(v as nat)),
        lex(nat_text(v as nat), 0) == seq![
            TokenModel { kind: Tokentype::Number, text: nat_text(v as nat), line: 1 },
            TokenModel { kind: Tokentype::Eof, text: Seq::empty(), line: 1 },
        ],
        literal_fits(Tokentype::Number, nat_text(v as nat), Val::Int(v)),
{
    let q = nat_text(v as nat);
    lemma_nat_text_digits(v as nat);
    lemma_digits_end_all(q, 0);
    assert(q.subrange(0, q.len() as int) =~= q);
    lemma_no_newlines_in_digits(q, q.len() as int);
    assert(step(q, 0) == token_step(q, Tokentype::Number, 0, q.len() as int));
    assert(lex(q, q.len() as int) == seq![
        TokenModel { kind: Tokentype::Eof, text: Seq::empty(), line: line_at(q, q.len() as int) },
    ]);
    assert(lex(q, 0) =~= seq![
        TokenModel { kind: Tokentype::Number, text: q, line: 1 },
        TokenModel { kind: Tokentype::Eof, text: Seq::empty(), line: 1 },
    ]);
    if q.contains('.') {
        let k = choose|k: int| 0 <= k < q.len() && q[k] == '.';
        assert(is_digit_char(q[k]));
    }
}

proof fn lemma_no_newlines_in_digits(q: Seq<char>, p: int)
    requires
        0 <= p <= q.len(),
        forall|k: int| 0 <= k < q.len() ==> is_digit_char(#[trigger] q[k]),
    ensures
        line_at(q, p) == 1,
    decreases p,
{
    if p > 0 {
        lemma_no_newlines_in_digits(q, p - 1);
        assert(q.take(p).drop_last() =~= q.take(p - 1));
        assert(q.take(p).last() == q[p - 1]);
    } else {
        assert(q.take(0) =~= Seq::<char>::empty());
    }
}

/// The printed form of a string is its text; put back between quotes (where
/// it holds no quote) it scans as a string token whose literal is that text.
pub proof fn law_string_literal_round_trip(s: Seq<char>)
    requires
        !s.contains('"'),
    ensures
        text_val(Val::Str(s)) == Some(s),
        ({
            let q = seq!['"'] + s + seq!['"'];
            &&& step(q, 0) == token_step(q, Tokentype::String, 0, q.len() as int)
            &&& literal_fits(Tokentype::String, q, Val::Str(s))
        }),
{
    let q = seq!['"'] + s + seq!['"'];
    lemma_find_quote(q, 1, s);
    assert(q.subrange(1, q.len() - 1) =~= s);
}

proof fn lemma_find_quote(q: Seq<char>, i: int, s: Seq<char>)
    requires
        q == seq!['"'] + s + seq!['"'],
        !s.contains('"'),
        1 <= i <= s.len() + 1,
    ensures
        find_char(q, i, '"') == s.len() + 1,
    decreases s.len() + 1 - i,
{
    if i < s.len() + 1 {
        assert(q[i] == s[i - 1]);
        lemma_find_quote(q, i + 1, s);
    }
}

/// After an assignment to a bound name, the chain gives the assigned value
/// for it.
pub proof fn lemma_assign_get(env: Seq<ScopeModel>, name: Seq<char>, v: Val)
    requires
        env_has(env, name),
    ensures
        env_get(env_assign(env, name, v), name) == Some(v),
{
    let i = env_index(env, name);
    assert(innermost_at(env, name, i));
    let env2 = env_assign(env, name, v);
    lemma_scope_set_get(env[i], name, v);
    assert forall|j: int| i < j < env2.len() implies !scope_has(#[trigger] env2[j], name) by {
        assert(env2[j] == env[j]);
    }
    assert(innermost_at(env2, name, i));
    lemma_innermost_unique(env2, name, i);
}

/// An assignment gives the value it stores, whatever the host answered
/// while computing it: where a scope binds the name, the chain then gives
/// that value for it; where none does, the chain is left as it was.
pub proof fn law_assignment_stores_its_value(
    e: Expr,
    env: Seq<ScopeModel>,
    d: nat,
    tape: Seq<Val>,
    k: int,
)
    requires
        e is Assign,
        d < MAX_EVAL_DEPTH,
    ensures
        ({
            let name = e->Assign_name.lexeme@;
            let inner = eval_tape(*e->Assign_value, env, d + 1, tape, k);
            let r = eval_tape(e, env, d, tape, k);
            &&& r.0 == inner.0
            &&& env_has(inner.1, name) ==> env_get(r.1, name) == Some(r.0)
            &&& !env_has(inner.1, name) ==> r.1 == inner.1 && env_get(r.1, name) is None
        }),
{
    let name = e->Assign_name.lexeme@;
    let inner = eval_tape(*e->Assign_value, env, d + 1, tape, k);
    if env_has(inner.1, name) {
        lemma_assign_get(inner.1, name, inner.0);
    }
}

/// Evaluating keeps the number of scopes.
pub proof fn lemma_eval_tape_depth(e: Expr, env: Seq<ScopeModel>, d: nat, tape: Seq<Val>, k: int)
    ensures
        eval_tape(e, env, d, tape, k).1.len() == env.len(),
    decreases e,
{
    if d < MAX_EVAL_DEPTH {
        match e {
            Expr::Grouping { expression } => lemma_eval_tape_depth(*expression, env, d + 1, tape, k),
            Expr::Unary { right, .. } => lemma_eval_tape_depth(*right, env, d + 1, tape, k),
            Expr::Binary { left, right, .. } => {
                lemma_eval_tape_depth(*left, env, d + 1, tape, k);
                let l = eval_tape(*left, env, d + 1, tape, k);
                lemma_eval_tape_depth(*right, l.1, d + 1, tape, l.3);
            },
            Expr::Assign { value, .. } => lemma_eval_tape_depth(*value, env, d + 1, tape, k),
            _ => {},
        }
    }
}

/// Executing a statement keeps the number of scopes, where there is one.
pub proof fn lemma_exec_tape_depth(
    s: Stmt,
    env: Seq<ScopeModel>,
    out: Seq<Seq<char>>,
    tape: Seq<Val>,
    k: int,
)
    requires
        env.len() > 0,
    ensures
        exec_tape(s, env, out, tape, k).0.len() == env.len(),
    decreases s, 1int,
{
    match s {
        Stmt::Expression { expression } => lemma_eval_tape_depth(expression, env, 0, tape, k),
        Stmt::Print { expression } => lemma_eval_tape_depth(expression, env, 0, tape, k),
        Stmt::Var { initalizer, .. } => lemma_eval_tape_depth(initalizer, env, 0, tape, k),
        Stmt::Block { statements } => {
            assert(decreases_to!(statements => statements@));
            lemma_exec_list_tape_depth(statements@, 0, env.push(Seq::empty()), out, tape, k);
        },
    }
}

/// Executing statements keeps the number of scopes, where there is one.
pub proof fn lemma_exec_list_tape_depth(
    ss: Seq<Stmt>,
    i: int,
    env: Seq<ScopeModel>,
    out: Seq<Seq<char>>,
    tape: Seq<Val>,
    k: int,
)
    requires
        env.len() > 0,
    ensures
        exec_list_tape(ss, i, env, out, tape, k).0.len() == env.len(),
    decreases ss, ss.len() - i,
{
    if 0 <= i < ss.len() {
        assert(decreases_to!(ss => ss[i]));
        lemma_exec_tape_depth(ss[i], env, out, tape, k);
        let r = exec_tape(ss[i], env, out, tape, k);
        lemma_exec_list_tape_depth(ss, i + 1, r.0, r.1, tape, r.2);
    }
}

/// A block runs its statements in one new innermost scope and then drops
/// that scope: the names it declared are gone, and every outer scope is as
/// the statements left it, assignments to outer names included, whatever
/// the host answered.
pub proof fn law_block_scope(
    ss: Seq<Stmt>,
    statements: Vec<Stmt>,
    env: Seq<ScopeModel>,
    out: Seq<Seq<char>>,
    tape: Seq<Val>,
    k: int,
)
    requires
        env.len() > 0,
        statements@ == ss,
    ensures
        ({
            let inner = exec_list_tape(ss, 0, env.push(Seq::empty()), out, tape, k);
            let r = exec_tape(Stmt::Block { statements }, env, out, tape, k);
            &&& inner.0.len() == env.len() + 1
            &&& r.0.len() == env.len()
            &&& forall|j: int| 0 <= j < env.len() ==> #[trigger] r.0[j] == inner.0[j]
            &&& r.1 == inner.1
        }),
{
    lemma_exec_list_tape_depth(ss, 0, env.push(Seq::empty()), out, tape, k);
}

/// What a scanned number or string token's text looks like: an integer is a
/// run of digits whose value fits in 64 bits, and a string is quoted text
/// without a quote inside.
pub open spec fn literal_text_ok(t: TokenModel) -> bool {
    &&& (t.kind == Tokentype::Number && !t.text.contains('.')) ==> {
        &&& t.text.len() > 0
        &&& forall|k: int| 0 <= k < t.text.len() ==> is_digit_char(#[trigger] t.text[k])
        &&& digits_value(t.text) <= i64::MAX
    }
    &&& t.kind == Tokentype::String ==> {
        &&& t.text.len() >= 2
        &&& t.text[0] == '"'
        &&& t.text[t.text.len() - 1] == '"'
        &&& !t.text.subrange(1, t.text.len() - 1).contains('"')
    }
}

proof fn lemma_step_literal(src: Seq<char>, p: int)
    requires
        0 <= p < src.len(),
    ensures
        step(src, p).token matches Some(t) ==> literal_text_ok(t),
{
    let c = src[p];
    if is_digit_char(c) && single_kind(c) is None && c != '/' && !is_operator_char(c) && c != '"' {
        lemma_digits_end(src, p + 1);
        let j = digits_end(src, p);
        assert(j == digits_end(src, p + 1));
        if j + 1 < src.len() && src[j] == '.' && is_digit_char(src[j + 1]) {
            lemma_digits_end(src, j + 1);
            let text = src.subrange(p, digits_end(src, j + 1));
            assert(text[j - p] == '.');
        } else {
            let text = src.subrange(p, j);
            assert forall|k: int| 0 <= k < text.len() implies is_digit_char(#[trigger] text[k]) by {
                if k > 0 {
                    assert(text[k] == src[p + k]);
                }
            }
        }
    }
    if c == '"' && single_kind(c) is None {
        lemma_find_char(src, p + 1, '"');
        let j = find_char(src, p + 1, '"');
        if j < src.len() {
            let text = src.subrange(p, j + 1);
            let inner = text.subrange(1, text.len() - 1);
            if inner.contains('"') {
                let k = choose|k: int| 0 <= k < inner.len() && inner[k] == '"';
                assert(inner[k] == src[p + 1 + k]);
            }
        }
    }
}

/// Every number and string token of a source has a literal text of the
/// shape `literal_text_ok` describes.
pub proof fn lemma_lex_literals(src: Seq<char>, p: int)
    ensures
        forall|i: int| 0 <= i < lex(src, p).len() ==> literal_text_ok(#[trigger] lex(src, p)[i]),
    decreases src.len() - p,
{
    if 0 <= p < src.len() {
        let st = step(src, p);
        lemma_step_advances(src, p);
        lemma_step_literal(src, p);
        lemma_lex_literals(src, st.next);
        let rest = lex(src, st.next);
        match st.token {
            Some(t) => {
                assert forall|i: int| 0 <= i < lex(src, p).len() implies literal_text_ok(
                    #[trigger] lex(src, p)[i],
                ) by {
                    if i > 0 {
                        assert(lex(src, p)[i] == rest[i - 1]);
                    }
                }
            },
            None => {},
        }
    }
}

/// Printing the literal of a scanned integer or string token and scanning
/// the printed text again (between quotes, for a string) gives the same
/// literal.
pub proof fn law_scanned_literal_round_trip(src: Seq<char>, i: int)
    requires
        0 <= i < lex(src, 0).len(),
    ensures
        ({
            let t = lex(src, 0)[i];
            &&& (t.kind == Tokentype::Number && !t.text.contains('.')) ==> {
                let v = digits_value(t.text) as i64;
                &&& v >= 0
                &&& literal_fits(t.kind, t.text, Val::Int(v))
                &&& text_val(Val::Int(v)) == Some(nat_text(v as nat))
                &&& lex(nat_text(v as nat), 0)[0].kind == Tokentype::Number
                &&& literal_fits(Tokentype::Number, lex(nat_text(v as nat), 0)[0].text, Val::Int(v))
            }
            &&& t.kind == Tokentype::String ==> {
                let s = t.text.subrange(1, t.text.len() - 1);
                let q = seq!['"'] + s + seq!['"'];
                &&& literal_fits(t.kind, t.text, Val::Str(s))
                &&& text_val(Val::Str(s)) == Some(s)
                &&& step(q, 0).token == Some(TokenModel { kind: Tokentype::String, text: q, line: line_at(q, q.len() as int) })
                &&& literal_fits(Tokentype::String, q, Val::Str(s))
            }
        }),
{
    lemma_lex_literals(src, 0);
    let t = lex(src, 0)[i];
    assert(literal_text_ok(t));
    if t.kind == Tokentype::Number && !t.text.contains('.') {
        lemma_digits_value_grows(t.text, 0);
        assert(t.text.take(0) =~= Seq::<char>::empty());
        let v = digits_value(t.text) as i64;
        law_integer_literal_round_trip(v);
    }
    if t.kind == Tokentype::String {
        let s = t.text.subrange(1, t.text.len() - 1);
        law_string_literal_round_trip(s);
        let q = seq!['"'] + s + seq!['"'];
        assert(q.subrange(0, q.len() as int) =~= q);
    }
}

} // verus!
