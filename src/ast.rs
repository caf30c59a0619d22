use vstd::prelude::*;

use crate::token::{Token, Tokentype};
use crate::value::Object;

verus! {

broadcast use vstd::std_specs::vec::group_vec_axioms;

/// An expression tree.
#[derive(Debug)]
pub enum Expr {
    Binary { left: Box<Expr>, operator: Token, right: Box<Expr> },
    Grouping { expression: Box<Expr> },
    Literal { value: Object },
    Unary { operator: Token, right: Box<Expr> },
    Variable { name: Token },
    Assign { name: Token, value: Box<Expr> },
}

/// A statement tree.
#[derive(Debug)]
pub enum Stmt {
    Expression { expression: Expr },
    Print { expression: Expr },
    Var { name: Token, initalizer: Expr },
    Block { statements: Vec<Stmt> },
}

pub open spec fn is_binary_operator(k: Tokentype) -> bool {
    k == Tokentype::Minus || k == Tokentype::Plus || k == Tokentype::Slash || k == Tokentype::Star
        || k == Tokentype::Greater || k == Tokentype::GreaterEqual || k == Tokentype::Less || k
        == Tokentype::LessEqual || k == Tokentype::EqualEqual || k == Tokentype::BangEqual
}

pub open spec fn is_unary_operator(k: Tokentype) -> bool {
    k == Tokentype::Bang || k == Tokentype::Minus
}

/// Operators are operator tokens and names are identifier tokens throughout.
pub open spec fn expr_wf(e: Expr) -> bool
    decreases e,
{
    match e {
        Expr::Binary { left, operator, right } => is_binary_operator(operator.tokentype) && expr_wf(
            *left,
        ) && expr_wf(*right),
        Expr::Grouping { expression } => expr_wf(*expression),
        Expr::Literal { .. } => true,
        Expr::Unary { operator, right } => is_unary_operator(operator.tokentype) && expr_wf(*right),
        Expr::Variable { name } => name.tokentype == Tokentype::Identifier,
        Expr::Assign { name, value } => name.tokentype == Tokentype::Identifier && expr_wf(*value),
    }
}

/// Every expression in the statement is well formed and every declared name
/// is an identifier token.
pub open spec fn stmt_wf(s: Stmt) -> bool
    decreases s,
{
    match s {
        Stmt::Expression { expression } => expr_wf(expression),
        Stmt::Print { expression } => expr_wf(expression),
        Stmt::Var { name, initalizer } => name.tokentype == Tokentype::Identifier && expr_wf(
            initalizer,
        ),
        Stmt::Block { statements } => forall|i: int|
            0 <= i < statements@.len() ==> stmt_wf(#[trigger] statements@[i]),
    }
}

pub open spec fn stmts_wf(ss: Seq<Stmt>) -> bool {
    forall|i: int| 0 <= i < ss.len() ==> stmt_wf(#[trigger] ss[i])
}

/// What a tree records of one token of its source.
pub enum Piece {
    /// A token the tree keeps: an operator or a name.
    Kept(Token),
    /// A literal token, known by the value it gives.
    Lit(Object),
    /// A token known by its kind alone.
    Mark(Tokentype),
}

pub open spec fn piece_fits(t: Token, p: Piece) -> bool {
    match p {
        Piece::Kept(m) => t == m,
        Piece::Lit(v) => ((t.tokentype == Tokentype::Number || t.tokentype == Tokentype::String)
            && t.literal == v) || (t.tokentype == Tokentype::True && v == Object::True) || (
        t.tokentype == Tokentype::False && v == Object::False) || (t.tokentype == Tokentype::Nil
            && v == Object::Null),
        Piece::Mark(k) => t.tokentype == k,
    }
}

/// The tokens an expression is written with, in order.
pub open spec fn expr_pieces(e: Expr) -> Seq<Piece>
    decreases e,
{
    match e {
        Expr::Binary { left, operator, right } => expr_pieces(*left) + seq![
            Piece::Kept(operator),
        ] + expr_pieces(*right),
        Expr::Grouping { expression } => seq![Piece::Mark(Tokentype::LeftParen)] + expr_pieces(
            *expression,
        ) + seq![Piece::Mark(Tokentype::RightParen)],
        Expr::Literal { value } => seq![Piece::Lit(value)],
        Expr::Unary { operator, right } => seq![Piece::Kept(operator)] + expr_pieces(
            *right,
        ),
        Expr::Variable { name } => seq![Piece::Kept(name)],
        Expr::Assign { name, value } => seq![
            Piece::Kept(name),
            Piece::Mark(Tokentype::Equal),
        ] + expr_pieces(*value),
    }
}

/// Tokens `a` to `b` of `ts` are, one for one, the pieces `ps`.
pub open spec fn spells(ts: Seq<Token>, a: int, b: int, ps: Seq<Piece>) -> bool {
    &&& 0 <= a <= b <= ts.len()
    &&& ps.len() == b - a
    &&& forall|k: int| 0 <= k < ps.len() ==> piece_fits(ts[a + k], #[trigger] ps[k])
}

/// The precedence level of a binary operator, from equality (1) up to
/// factors (4).
pub open spec fn binary_level(k: Tokentype) -> int {
    if k == Tokentype::BangEqual || k == Tokentype::EqualEqual {
        1
    } else if k == Tokentype::Greater || k == Tokentype::GreaterEqual || k == Tokentype::Less || k
        == Tokentype::LessEqual {
        2
    } else if k == Tokentype::Minus || k == Tokentype::Plus {
        3
    } else if k == Tokentype::Slash || k == Tokentype::Star {
        4
    } else {
        6
    }
}

/// The precedence level of an expression: assignment 0, binary operators 1
/// to 4, unary 5, primary 6.
pub open spec fn expr_level(e: Expr) -> int {
    match e {
        Expr::Assign { .. } => 0,
        Expr::Binary { operator, .. } => binary_level(operator.tokentype),
        Expr::Unary { .. } => 5,
        _ => 6,
    }
}

/// The tree nests as precedence and left associativity require: the left
/// operand of a binary operator binds at least as tightly as it, the right
/// one more tightly, and the operand of a unary operator is unary or primary.
pub open spec fn expr_nested(e: Expr) -> bool
    decreases e,
{
    match e {
        Expr::Binary { left, operator, right } => expr_level(*left) >= binary_level(
            operator.tokentype,
        ) && expr_level(*right) > binary_level(operator.tokentype) && expr_nested(*left)
            && expr_nested(*right),
        Expr::Grouping { expression } => expr_nested(*expression),
        Expr::Literal { .. } => true,
        Expr::Unary { right, .. } => expr_level(*right) >= 5 && expr_nested(*right),
        Expr::Variable { .. } => true,
        Expr::Assign { value, .. } => expr_nested(*value),
    }
}

/// Where the pieces `ps` are spelled by the tokens of `ts` from `a` on,
/// the position just after them.
pub open spec fn match_pieces(ts: Seq<Token>, a: int, ps: Seq<Piece>) -> Option<int> {
    if spells(ts, a, a + ps.len(), ps) {
        Some(a + ps.len())
    } else {
        None
    }
}

/// Where the tokens of `ts` from `a` on spell the statement `s`, the position
/// just after it. A declaration whose `=` is missing holds `nil`.
pub open spec fn stmt_match(ts: Seq<Token>, a: int, s: Stmt) -> Option<int>
    decreases s, 0int,
{
    match s {
        Stmt::Expression { expression } => match_pieces(
            ts,
            a,
            expr_pieces(expression) + seq![Piece::Mark(Tokentype::Semicolon)],
        ),
        Stmt::Print { expression } => match_pieces(
            ts,
            a,
            seq![Piece::Mark(Tokentype::Print)] + expr_pieces(expression) + seq![
                Piece::Mark(Tokentype::Semicolon),
            ],
        ),
        Stmt::Var { name, initalizer } => if 0 <= a + 2 < ts.len() && ts[a + 2].tokentype
            == Tokentype::Equal {
            match_pieces(
                ts,
                a,
                seq![
                    Piece::Mark(Tokentype::Var),
                    Piece::Kept(name),
                    Piece::Mark(Tokentype::Equal),
                ] + expr_pieces(initalizer) + seq![Piece::Mark(Tokentype::Semicolon)],
            )
        } else if initalizer == (Expr::Literal { value: Object::Null }) {
            match_pieces(
                ts,
                a,
                seq![
                    Piece::Mark(Tokentype::Var),
                    Piece::Kept(name),
                    Piece::Mark(Tokentype::Semicolon),
                ],
            )
        } else {
            None
        },
        Stmt::Block { statements } => {
            proof {
                assert(decreases_to!(statements => statements@));
            }
            if 0 <= a < ts.len() && ts[a].tokentype == Tokentype::LeftBrace {
                match stmts_match(ts, a + 1, statements@, 0) {
                    Some(m) => if 0 <= m < ts.len() && ts[m].tokentype == Tokentype::RightBrace {
                        Some(m + 1)
                    } else {
                        None
                    },
                    None => None,
                }
            } else {
                None
            }
        },
    }
}

/// Where the tokens of `ts` from `a` on spell the statements of `ss` from
/// position `i` on, one after another, the position just after them.
pub open spec fn stmts_match(ts: Seq<Token>, a: int, ss: Seq<Stmt>, i: int) -> Option<int>
    decreases ss, ss.len() - i,
{
    if i < 0 || i >= ss.len() {
        Some(a)
    } else {
        match stmt_match(ts, a, ss[i]) {
            Some(m) => stmts_match(ts, m, ss, i + 1),
            None => None,
        }
    }
}

pub proof fn lemma_stmts_match_push(ts: Seq<Token>, a: int, m: int, b: int, ss: Seq<Stmt>, i: int, s: Stmt)
    requires
        0 <= i <= ss.len(),
        stmts_match(ts, a, ss, i) == Some(m),
        stmt_match(ts, m, s) == Some(b),
    ensures
        stmts_match(ts, a, ss.push(s), i) == Some(b),
    decreases ss.len() - i,
{
    let t = ss.push(s);
    if i == ss.len() {
        assert(t[i] == s);
        assert(stmts_match(ts, b, t, i + 1) == Some(b));
    } else {
        assert(t[i] == ss[i]);
        let m1 = stmt_match(ts, a, ss[i])->0;
        lemma_stmts_match_push(ts, m1, m, b, ss, i + 1, s);
    }
}

pub proof fn lemma_spells_concat(ts: Seq<Token>, a: int, b: int, c: int, p: Seq<Piece>, q: Seq<Piece>)
    requires
        spells(ts, a, b, p),
        spells(ts, b, c, q),
    ensures
        spells(ts, a, c, p + q),
{
    assert forall|k: int| 0 <= k < (p + q).len() implies piece_fits(ts[a + k], #[trigger] (p
        + q)[k]) by {
        if k >= p.len() {
            assert(q[k - p.len()] == (p + q)[k]);
            assert(piece_fits(ts[b + (k - p.len())], q[k - p.len()]));
        }
    }
}

pub proof fn lemma_spells_one(ts: Seq<Token>, a: int, p: Piece)
    requires
        0 <= a < ts.len(),
        piece_fits(ts[a], p),
    ensures
        spells(ts, a, a + 1, seq![p]),
{
}

} // verus!
