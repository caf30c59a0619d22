use vstd::prelude::*;

use crate::ast::{binary_level, expr_level, expr_nested, expr_pieces, expr_wf, piece_fits, spells, Expr, Piece, Stmt};
use crate::parser::{parse_error_line, MAX_NESTING};
use crate::token::{Token, Tokentype};
use crate::value::Object;

verus! {

broadcast use vstd::std_specs::vec::group_vec_axioms;

// What the recursive-descent parser does, stated over the token sequence:
// from a position and a nesting depth, each rule gives its tree (or none,
// for a syntax error), the position after it and the lines it reports.

/// The outcome of an expression rule.
pub struct ExprOutcome {
    pub expr: Option<Expr>,
    pub next: int,
    pub reports: Seq<Seq<char>>,
}

/// A statement tree with its blocks' statements as sequences.
pub enum StmtShape {
    Expression(Expr),
    Print(Expr),
    Var(Token, Expr),
    Block(Seq<StmtShape>),
}

/// The outcome of a statement rule.
pub struct StmtOutcome {
    pub stmt: Option<StmtShape>,
    pub next: int,
    pub reports: Seq<Seq<char>>,
}

/// The outcome of a rule that gives a list of statements.
pub struct ListOutcome {
    pub stmts: Seq<StmtShape>,
    pub next: int,
    pub reports: Seq<Seq<char>>,
}

/// The statement `s` has the shape `sh`.
pub open spec fn shape_of(s: Stmt, sh: StmtShape) -> bool
    decreases s,
{
    match s {
        Stmt::Expression { expression } => sh == StmtShape::Expression(expression),
        Stmt::Print { expression } => sh == StmtShape::Print(expression),
        Stmt::Var { name, initalizer } => sh == StmtShape::Var(name, initalizer),
        Stmt::Block { statements } => match sh {
            StmtShape::Block(shs) => statements@.len() == shs.len() && forall|i: int|
                0 <= i < shs.len() ==> shape_of(#[trigger] statements@[i], shs[i]),
            _ => false,
        },
    }
}

pub open spec fn shapes_of(ss: Seq<Stmt>, shs: Seq<StmtShape>) -> bool {
    ss.len() == shs.len() && forall|i: int| 0 <= i < shs.len() ==> shape_of(#[trigger] ss[i], shs[i])
}

/// The token at `p` has kind `k` and is not the end marker.
pub open spec fn sees(ts: Seq<Token>, p: int, k: Tokentype) -> bool {
    0 <= p < ts.len() && ts[p].tokentype == k && k != Tokentype::Eof
}

/// The report of `message` at the token at `p`.
pub open spec fn report_at(ts: Seq<Token>, p: int, message: Seq<char>) -> Seq<Seq<char>> {
    seq![parse_error_line(ts[p], message)]
}

pub open spec fn expr_out(e: Option<Expr>, next: int, reports: Seq<Seq<char>>) -> ExprOutcome {
    ExprOutcome { expr: e, next, reports }
}

pub open spec fn stmt_out(s: Option<StmtShape>, next: int, reports: Seq<Seq<char>>) -> StmtOutcome {
    StmtOutcome { stmt: s, next, reports }
}

/// Where a token of kind `k` is expected at `p`: the position after it and
/// the report, if it is missing.
pub open spec fn consume_next(ts: Seq<Token>, p: int, k: Tokentype) -> int {
    if sees(ts, p, k) {
        p + 1
    } else {
        p
    }
}

pub open spec fn consume_reports(ts: Seq<Token>, p: int, k: Tokentype, message: Seq<char>) -> Seq<
    Seq<char>,
> {
    if sees(ts, p, k) {
        Seq::empty()
    } else {
        report_at(ts, p, message)
    }
}

pub open spec fn nesting_report(ts: Seq<Token>, p: int) -> Seq<Seq<char>> {
    report_at(ts, p, "Too much nesting."@)
}

/// `primary → NUMBER | STRING | "true" | "false" | "nil" | IDENTIFIER | "(" expression ")"`
pub open spec fn primary_rule(ts: Seq<Token>, p: int, d: int) -> ExprOutcome
    decreases ts.len() - p, 3int,
{
    if !(0 <= p < ts.len()) {
        expr_out(None, p, Seq::empty())
    } else {
        let k = ts[p].tokentype;
        if k == Tokentype::False {
            expr_out(Some(Expr::Literal { value: Object::False }), p + 1, Seq::empty())
        } else if k == Tokentype::True {
            expr_out(Some(Expr::Literal { value: Object::True }), p + 1, Seq::empty())
        } else if k == Tokentype::Nil {
            expr_out(Some(Expr::Literal { value: Object::Null }), p + 1, Seq::empty())
        } else if k == Tokentype::Number || k == Tokentype::String {
            expr_out(Some(Expr::Literal { value: ts[p].literal }), p + 1, Seq::empty())
        } else if k == Tokentype::Identifier {
            expr_out(Some(Expr::Variable { name: ts[p] }), p + 1, Seq::empty())
        } else if k == Tokentype::LeftParen {
            if d >= MAX_NESTING {
                expr_out(None, p + 1, nesting_report(ts, p + 1))
            } else {
                let inner = expression_rule(ts, p + 1, d + 1);
                match inner.expr {
                    Some(e) => expr_out(
                        Some(Expr::Grouping { expression: Box::new(e) }),
                        consume_next(ts, inner.next, Tokentype::RightParen),
                        inner.reports + consume_reports(
                            ts,
                            inner.next,
                            Tokentype::RightParen,
                            "Expect ')' after expression."@,
                        ),
                    ),
                    None => inner,
                }
            }
        } else {
            expr_out(None, p, report_at(ts, p, "Expect expression."@))
        }
    }
}

/// `unary → ("!" | "-") unary | primary`
pub open spec fn unary_rule(ts: Seq<Token>, p: int, d: int) -> ExprOutcome
    decreases ts.len() - p, 4int,
{
    if 0 <= p < ts.len() && (ts[p].tokentype == Tokentype::Bang || ts[p].tokentype
        == Tokentype::Minus) {
        if d >= MAX_NESTING {
            expr_out(None, p + 1, nesting_report(ts, p + 1))
        } else {
            let r = unary_rule(ts, p + 1, d + 1);
            match r.expr {
                Some(e) => expr_out(
                    Some(Expr::Unary { operator: ts[p], right: Box::new(e) }),
                    r.next,
                    r.reports,
                ),
                None => r,
            }
        }
    } else {
        primary_rule(ts, p, d)
    }
}

/// An operand of a binary operator of level `l`.
pub open spec fn operand_rule(ts: Seq<Token>, p: int, d: int, l: int) -> ExprOutcome
    decreases ts.len() - p, 19 - 2 * l,
{
    if l == 4 {
        unary_rule(ts, p, d)
    } else if 1 <= l < 4 {
        chain_rule(ts, p, d, l + 1)
    } else {
        expr_out(None, p, Seq::empty())
    }
}

/// `operand ( op operand )*` for the operators of level `l`, grouped to the left.
pub open spec fn chain_rule(ts: Seq<Token>, p: int, d: int, l: int) -> ExprOutcome
    decreases ts.len() - p, 20 - 2 * l,
{
    if !(1 <= l <= 4) {
        expr_out(None, p, Seq::empty())
    } else {
        let first = operand_rule(ts, p, d, l);
        match first.expr {
            Some(e) => if p < first.next <= ts.len() {
                chain_rest(ts, first.next, d, l, e, first.reports)
            } else {
                first
            },
            None => first,
        }
    }
}

/// The rest of a chain of level `l` whose operands so far make `left`.
pub open spec fn chain_rest(
    ts: Seq<Token>,
    p: int,
    d: int,
    l: int,
    left: Expr,
    reports: Seq<Seq<char>>,
) -> ExprOutcome
    decreases ts.len() - p, 0int,
{
    if 0 <= p < ts.len() && 1 <= l <= 4 && binary_level(ts[p].tokentype) == l {
        let r = operand_rule(ts, p + 1, d, l);
        match r.expr {
            Some(e) => {
                let b = Expr::Binary { left: Box::new(left), operator: ts[p], right: Box::new(e) };
                if p + 1 < r.next <= ts.len() {
                    chain_rest(ts, r.next, d, l, b, reports + r.reports)
                } else {
                    expr_out(Some(b), r.next, reports + r.reports)
                }
            },
            None => expr_out(None, r.next, reports + r.reports),
        }
    } else {
        expr_out(Some(left), p, reports)
    }
}

/// `assignment → equality ( "=" assignment )?`; only a variable may stand on
/// the left of `=`.
pub open spec fn assignment_rule(ts: Seq<Token>, p: int, d: int) -> ExprOutcome
    decreases ts.len() - p, 25int,
{
    let l = chain_rule(ts, p, d, 1);
    match l.expr {
        Some(target) => if p < l.next < ts.len() && sees(ts, l.next, Tokentype::Equal) {
            let q = l.next;
            if d >= MAX_NESTING {
                expr_out(None, q + 1, l.reports + nesting_report(ts, q + 1))
            } else {
                let v = assignment_rule(ts, q + 1, d + 1);
                match v.expr {
                    Some(value) => match target {
                        Expr::Variable { name } => expr_out(
                            Some(Expr::Assign { name, value: Box::new(value) }),
                            v.next,
                            l.reports + v.reports,
                        ),
                        _ => expr_out(
                            None,
                            v.next,
                            l.reports + v.reports + report_at(
                                ts,
                                q,
                                "Invalid assignment target."@,
                            ),
                        ),
                    },
                    None => expr_out(None, v.next, l.reports + v.reports),
                }
            }
        } else {
            l
        },
        None => l,
    }
}

pub open spec fn expression_rule(ts: Seq<Token>, p: int, d: int) -> ExprOutcome
    decreases ts.len() - p, 26int,
{
    assignment_rule(ts, p, d)
}

/// Where skipping to a statement boundary from `p` stops: past the next
/// token, then at the end marker, just after a `;`, or before a keyword that
/// starts a statement.
pub open spec fn synchronize_stop(ts: Seq<Token>, p: int) -> int {
    if 0 <= p < ts.len() && ts[p].tokentype != Tokentype::Eof {
        sync_scan(ts, p + 1)
    } else {
        p
    }
}

pub open spec fn starts_statement(k: Tokentype) -> bool {
    k == Tokentype::Class || k == Tokentype::Fun || k == Tokentype::Var || k == Tokentype::For || k
        == Tokentype::If || k == Tokentype::While || k == Tokentype::Print || k == Tokentype::Return
}

pub open spec fn sync_scan(ts: Seq<Token>, q: int) -> int
    decreases ts.len() - q,
{
    if !(1 <= q < ts.len()) || ts[q].tokentype == Tokentype::Eof || ts[q - 1].tokentype
        == Tokentype::Semicolon || starts_statement(ts[q].tokentype) {
        q
    } else {
        sync_scan(ts, q + 1)
    }
}

/// `varDecl → "var" IDENTIFIER ( "=" expression )? ";"`, from just after `var`.
pub open spec fn var_rule(ts: Seq<Token>, p: int, d: int) -> StmtOutcome
    decreases ts.len() - p, 19int,
{
    if !sees(ts, p, Tokentype::Identifier) {
        stmt_out(None, p, report_at(ts, p, "Expect variable name."@))
    } else if sees(ts, p + 1, Tokentype::Equal) {
        let i = expression_rule(ts, p + 2, d);
        match i.expr {
            Some(e) => stmt_out(
                Some(StmtShape::Var(ts[p], e)),
                consume_next(ts, i.next, Tokentype::Semicolon),
                i.reports + consume_reports(
                    ts,
                    i.next,
                    Tokentype::Semicolon,
                    "Expect ';' after variable declaration."@,
                ),
            ),
            None => stmt_out(None, i.next, i.reports),
        }
    } else {
        stmt_out(
            Some(StmtShape::Var(ts[p], Expr::Literal { value: Object::Null })),
            consume_next(ts, p + 1, Tokentype::Semicolon),
            consume_reports(ts, p + 1, Tokentype::Semicolon, "Expect ';' after variable declaration."@),
        )
    }
}

/// An expression followed by `;` (after `print`, where `print` is true).
pub open spec fn simple_rule(ts: Seq<Token>, p: int, d: int, print: bool) -> StmtOutcome
    decreases ts.len() - p, 30int,
{
    let i = expression_rule(ts, p, d);
    match i.expr {
        Some(e) => stmt_out(
            Some(
                if print {
                    StmtShape::Print(e)
                } else {
                    StmtShape::Expression(e)
                },
            ),
            consume_next(ts, i.next, Tokentype::Semicolon),
            i.reports + consume_reports(
                ts,
                i.next,
                Tokentype::Semicolon,
                if print {
                    "Expect ';' after value."@
                } else {
                    "Expect ';' after expression."@
                },
            ),
        ),
        None => stmt_out(None, i.next, i.reports),
    }
}

/// `statement → "print" expression ";" | "{" block | expression ";"`
pub open spec fn statement_rule(ts: Seq<Token>, p: int, d: int) -> StmtOutcome
    decreases ts.len() - p, 31int,
{
    if sees(ts, p, Tokentype::Print) {
        simple_rule(ts, p + 1, d, true)
    } else if sees(ts, p, Tokentype::LeftBrace) {
        if d >= MAX_NESTING {
            stmt_out(None, p + 1, nesting_report(ts, p + 1))
        } else {
            let b = block_rest(ts, p + 1, d + 1, Seq::empty(), Seq::empty());
            stmt_out(Some(StmtShape::Block(b.stmts)), b.next, b.reports)
        }
    } else {
        simple_rule(ts, p, d, false)
    }
}

/// `declaration → varDecl | statement`
pub open spec fn declaration_rule(ts: Seq<Token>, p: int, d: int) -> StmtOutcome
    decreases ts.len() - p, 32int,
{
    if sees(ts, p, Tokentype::Var) {
        var_rule(ts, p + 1, d)
    } else {
        statement_rule(ts, p, d)
    }
}

/// The declarations of a block up to its `}` (or the end), the statements
/// `done` and reports `reports` being those before `p`. A declaration with a
/// syntax error is skipped to the next statement boundary.
pub open spec fn block_rest(
    ts: Seq<Token>,
    p: int,
    d: int,
    done: Seq<StmtShape>,
    reports: Seq<Seq<char>>,
) -> ListOutcome
    decreases ts.len() - p, 33int,
{
    if !(0 <= p < ts.len()) || ts[p].tokentype == Tokentype::RightBrace || ts[p].tokentype
        == Tokentype::Eof {
        ListOutcome {
            stmts: done,
            next: consume_next(ts, p, Tokentype::RightBrace),
            reports: reports + consume_reports(
                ts,
                p,
                Tokentype::RightBrace,
                "Expect '}' after block."@,
            ),
        }
    } else {
        let r = declaration_rule(ts, p, d);
        match r.stmt {
            Some(s) => if p < r.next <= ts.len() {
                block_rest(ts, r.next, d, done.push(s), reports + r.reports)
            } else {
                ListOutcome { stmts: done.push(s), next: r.next, reports: reports + r.reports }
            },
            None => {
                let y = synchronize_stop(ts, r.next);
                if p < y <= ts.len() {
                    block_rest(ts, y, d, done, reports + r.reports)
                } else {
                    ListOutcome { stmts: done, next: y, reports: reports + r.reports }
                }
            },
        }
    }
}

/// The declarations from `p` up to the end marker, as `parse` gives them.
pub open spec fn program_rest(
    ts: Seq<Token>,
    p: int,
    d: int,
    done: Seq<StmtShape>,
    reports: Seq<Seq<char>>,
) -> ListOutcome
    decreases ts.len() - p,
{
    if !(0 <= p < ts.len()) || ts[p].tokentype == Tokentype::Eof {
        ListOutcome { stmts: done, next: p, reports }
    } else {
        let r = declaration_rule(ts, p, d);
        match r.stmt {
            Some(s) => if p < r.next <= ts.len() {
                program_rest(ts, r.next, d, done.push(s), reports + r.reports)
            } else {
                ListOutcome { stmts: done.push(s), next: r.next, reports: reports + r.reports }
            },
            None => {
                let y = synchronize_stop(ts, r.next);
                if p < y <= ts.len() {
                    program_rest(ts, y, d, done, reports + r.reports)
                } else {
                    ListOutcome { stmts: done, next: y, reports: reports + r.reports }
                }
            },
        }
    }
}

/// The token `t` cannot continue an expression of level `l`: it is no binary
/// operator of level `l` or tighter, nor `=` where `l` is 0.
pub open spec fn ends_level(t: Token, l: int) -> bool {
    !(l <= binary_level(t.tokentype) <= 4) && (l == 0 ==> t.tokentype != Tokentype::Equal)
}

/// `e` nests groupings, unary operators and assignments at most `b` deep.
pub open spec fn expr_fits(e: Expr, b: int) -> bool
    decreases e,
{
    match e {
        Expr::Binary { left, right, .. } => expr_fits(*left, b) && expr_fits(*right, b),
        Expr::Grouping { expression } => b >= 1 && expr_fits(*expression, b - 1),
        Expr::Unary { right, .. } => b >= 1 && expr_fits(*right, b - 1),
        Expr::Assign { value, .. } => b >= 1 && expr_fits(*value, b - 1),
        _ => true,
    }
}

/// The tokens from `p` spell `e`, a well-formed tree that nests as
/// precedence requires, sits at level `l` or tighter and fits the nesting
/// left at depth `d`; the token after it ends level `l`.
pub open spec fn clean_at(ts: Seq<Token>, p: int, d: int, e: Expr, l: int) -> bool {
    let q = p + expr_pieces(e).len();
    &&& 0 <= p
    &&& q < ts.len()
    &&& spells(ts, p, q, expr_pieces(e))
    &&& expr_wf(e)
    &&& expr_nested(e)
    &&& expr_level(e) >= l
    &&& 0 <= d
    &&& expr_fits(e, MAX_NESTING - d)
    &&& ends_level(ts[q], l)
}

pub proof fn lemma_spells_split(ts: Seq<Token>, a: int, b: int, x: Seq<Piece>, y: Seq<Piece>)
    requires
        spells(ts, a, b, x + y),
    ensures
        spells(ts, a, a + x.len(), x),
        spells(ts, a + x.len(), b, y),
{
    assert forall|k: int| 0 <= k < x.len() implies piece_fits(ts[a + k], #[trigger] x[k]) by {
        assert((x + y)[k] == x[k]);
    }
    assert forall|k: int| 0 <= k < y.len() implies piece_fits(ts[a + x.len() + k], #[trigger] y[k]) by {
        assert((x + y)[x.len() + k] == y[k]);
    }
}

/// Where the token after an operand may be an operator of level `l`.
pub open spec fn op_or_end(t: Token, l: int) -> bool {
    binary_level(t.tokentype) == l || ends_level(t, l)
}

/// A clean primary expression parses to itself, with no report.
pub proof fn lemma_primary_complete(ts: Seq<Token>, p: int, d: int, e: Expr)
    requires
        clean_at(ts, p, d, e, 6),
    ensures
        primary_rule(ts, p, d) == expr_out(Some(e), p + expr_pieces(e).len(), Seq::empty()),
    decreases expr_pieces(e).len() * 32,
{
    let q = p + expr_pieces(e).len();
    assert(piece_fits(ts[p + 0], expr_pieces(e)[0]));
    match e {
        Expr::Grouping { expression } => {
            let inner = *expression;
            let open = seq![Piece::Mark(Tokentype::LeftParen)];
            let close = seq![Piece::Mark(Tokentype::RightParen)];
            assert(expr_pieces(e) == open + expr_pieces(inner) + close);
            lemma_spells_split(ts, p, q, open + expr_pieces(inner), close);
            lemma_spells_split(ts, p, q - 1, open, expr_pieces(inner));
            assert(piece_fits(ts[q - 1 + 0], close[0]));
            lemma_assignment_complete(ts, p + 1, d + 1, inner);
            assert(Seq::<Seq<char>>::empty() + Seq::<Seq<char>>::empty() =~= Seq::<Seq<char>>::empty());
        },
        _ => {},
    }
}

/// A clean unary or primary expression parses to itself, with no report.
pub proof fn lemma_unary_complete(ts: Seq<Token>, p: int, d: int, e: Expr)
    requires
        clean_at(ts, p, d, e, 5),
    ensures
        unary_rule(ts, p, d) == expr_out(Some(e), p + expr_pieces(e).len(), Seq::empty()),
    decreases expr_pieces(e).len() * 32 + 1,
{
    let q = p + expr_pieces(e).len();
    assert(piece_fits(ts[p + 0], expr_pieces(e)[0]));
    match e {
        Expr::Unary { operator, right } => {
            let r = *right;
            lemma_spells_split(ts, p, q, seq![Piece::Kept(operator)], expr_pieces(r));
            lemma_unary_complete(ts, p + 1, d + 1, r);
        },
        _ => {
            lemma_primary_complete(ts, p, d, e);
        },
    }
}

/// A clean operand of level `l` (an expression of level `l + 1` or
/// tighter) parses to itself, with no report.
pub proof fn lemma_operand_complete(ts: Seq<Token>, p: int, d: int, e: Expr, l: int)
    requires
        1 <= l <= 4,
        clean_at(ts, p, d, e, l + 1),
    ensures
        operand_rule(ts, p, d, l) == expr_out(Some(e), p + expr_pieces(e).len(), Seq::empty()),
    decreases expr_pieces(e).len() * 32 + 3 * (5 - l),
{
    if l == 4 {
        lemma_unary_complete(ts, p, d, e);
    } else {
        lemma_chain_complete(ts, p, d, e, l + 1);
    }
}

/// Where the tokens from `p` spell `x`, of level `l` or tighter, and the
/// token after it is an operator of level `l` or ends level `l`, the chain
/// of level `l` reaches the end of `x` with `x` as its tree so far.
pub proof fn lemma_chain_prefix(ts: Seq<Token>, p: int, d: int, x: Expr, l: int)
    requires
        1 <= l <= 4,
        0 <= p,
        p + expr_pieces(x).len() < ts.len(),
        spells(ts, p, p + expr_pieces(x).len(), expr_pieces(x)),
        expr_wf(x),
        expr_nested(x),
        expr_level(x) >= l,
        0 <= d,
        expr_fits(x, MAX_NESTING - d),
        op_or_end(ts[p + expr_pieces(x).len()], l),
    ensures
        chain_rule(ts, p, d, l) == chain_rest(ts, p + expr_pieces(x).len(), d, l, x, Seq::empty()),
    decreases expr_pieces(x).len() * 32 + 3 * (5 - l) + 1,
{
    let q = p + expr_pieces(x).len();
    if expr_level(x) > l {
        lemma_operand_complete(ts, p, d, x, l);
    } else {
        match x {
            Expr::Binary { left, operator, right } => {
                let x1 = *left;
                let r = *right;
                let m = p + expr_pieces(x1).len();
                lemma_spells_split(ts, p, q, expr_pieces(x1) + seq![Piece::Kept(operator)], expr_pieces(r));
                lemma_spells_split(ts, p, m + 1, expr_pieces(x1), seq![Piece::Kept(operator)]);
                assert(piece_fits(ts[m + 0], seq![Piece::Kept(operator)][0]));
                lemma_chain_prefix(ts, p, d, x1, l);
                lemma_operand_complete(ts, m + 1, d, r, l);
                assert(Seq::<Seq<char>>::empty() + Seq::<Seq<char>>::empty() =~= Seq::<Seq<char>>::empty());
            },
            _ => {},
        }
    }
}

/// A clean chain of level `l` parses to itself, with no report.
pub proof fn lemma_chain_complete(ts: Seq<Token>, p: int, d: int, e: Expr, l: int)
    requires
        1 <= l <= 4,
        clean_at(ts, p, d, e, l),
    ensures
        chain_rule(ts, p, d, l) == expr_out(Some(e), p + expr_pieces(e).len(), Seq::empty()),
    decreases expr_pieces(e).len() * 32 + 3 * (5 - l) + 2,
{
    lemma_chain_prefix(ts, p, d, e, l);
}

/// A clean expression parses to itself, with no report.
pub proof fn lemma_assignment_complete(ts: Seq<Token>, p: int, d: int, e: Expr)
    requires
        clean_at(ts, p, d, e, 0),
    ensures
        assignment_rule(ts, p, d) == expr_out(Some(e), p + expr_pieces(e).len(), Seq::empty()),
        expression_rule(ts, p, d) == expr_out(Some(e), p + expr_pieces(e).len(), Seq::empty()),
    decreases expr_pieces(e).len() * 32 + 20,
{
    let q = p + expr_pieces(e).len();
    match e {
        Expr::Assign { name, value } => {
            let v = *value;
            let head = seq![Piece::Kept(name), Piece::Mark(Tokentype::Equal)];
            lemma_spells_split(ts, p, q, head, expr_pieces(v));
            assert(piece_fits(ts[p + 0], head[0]));
            assert(piece_fits(ts[p + 1], head[1]));
            let var = Expr::Variable { name };
            assert(expr_pieces(var) =~= seq![Piece::Kept(name)]);
            assert(spells(ts, p, p + 1, expr_pieces(var)));
            lemma_chain_complete(ts, p, d, var, 1);
            lemma_assignment_complete(ts, p + 2, d + 1, v);
            assert(Seq::<Seq<char>>::empty() + Seq::<Seq<char>>::empty() =~= Seq::<Seq<char>>::empty());
        },
        _ => {
            lemma_chain_complete(ts, p, d, e, 1);
        },
    }
}

} // verus!
