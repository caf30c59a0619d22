use vstd::prelude::*;

use crate::ast::{
    binary_level, expr_level, expr_nested, expr_pieces, expr_wf, is_binary_operator,
    lemma_spells_concat, lemma_spells_one, lemma_stmts_match_push, spells, stmt_match, stmt_wf,
    stmts_match, stmts_wf, Expr, Piece, Stmt,
};
use crate::text::{nat_text, nat_to_text};
use crate::token::{Token, Tokentype};
use crate::syntax::{
    assignment_rule, block_rest, chain_rule, chain_rest, consume_next, consume_reports,
    declaration_rule, expression_rule, nesting_report, operand_rule, primary_rule, program_rest,
    shape_of, shapes_of, simple_rule, statement_rule, sync_scan, synchronize_stop, unary_rule,
    var_rule, ExprOutcome, StmtOutcome, StmtShape,
};
use crate::value::Object;

verus! {

broadcast use vstd::std_specs::vec::group_vec_axioms;

/// A syntax error, reported in the parser's diagnostics.
#[derive(Debug)]
pub struct ParseError {}

/// A parser diagnostic for the token `t`.
pub open spec fn parse_error_line(t: Token, message: Seq<char>) -> Seq<char> {
    if t.tokentype == Tokentype::Eof {
        "[line "@ + nat_text(t.line as nat) + "] Error at end: "@ + message
    } else {
        "[line "@ + nat_text(t.line as nat) + "] Error at '"@ + t.lexeme@ + "': "@ + message
    }
}

/// Builds statement trees from tokens by recursive descent.
pub struct Parser {
    current: usize,
    tokens: Vec<Token>,
    pub diagnostics: Vec<String>,
    depth: usize,
}

/// How deeply groupings, unary operators, assignments and blocks may nest
/// before the parser reports the input instead of recursing further.
pub const MAX_NESTING: usize = 64;

impl Parser {
    pub closed spec fn wf(&self) -> bool {
        &&& self.tokens@.len() > 0
        &&& self.tokens@.last().tokentype == Tokentype::Eof
        &&& self.current < self.tokens@.len()
    }

    /// The tokens being parsed.
    pub closed spec fn token_list(&self) -> Seq<Token> {
        self.tokens@
    }

    /// The diagnostics reported so far.
    pub closed spec fn diagnostic_list(&self) -> Seq<String> {
        self.diagnostics@
    }

    /// The diagnostics, taken out of the parser.
    pub fn into_diagnostics(self) -> (r: Vec<String>)
        ensures
            r@ == self.diagnostic_list(),
            r@.map_values(|s: String| s@) == self.reports(),
    {
        self.diagnostics
    }

    /// The position of the next token.
    pub closed spec fn position(&self) -> int {
        self.current as int
    }

    /// The diagnostics reported so far, as text.
    pub closed spec fn reports(&self) -> Seq<Seq<char>> {
        self.diagnostics@.map_values(|s: String| s@)
    }

    /// The current nesting depth.
    pub closed spec fn nesting(&self) -> int {
        self.depth as int
    }

    spec fn follows_expr(&self, before: Parser, o: ExprOutcome, r: Result<Expr, ParseError>) -> bool {
        &&& self.current == o.next
        &&& self.reports() =~= before.reports() + o.reports
        &&& match o.expr {
            Some(e) => r matches Ok(x) && x == e,
            None => r is Err,
        }
    }

    spec fn follows_stmt(&self, before: Parser, o: StmtOutcome, r: Result<Stmt, ParseError>) -> bool {
        &&& self.current == o.next
        &&& self.reports() =~= before.reports() + o.reports
        &&& match o.stmt {
            Some(sh) => r matches Ok(x) && shape_of(x, sh),
            None => r is Err,
        }
    }

    spec fn moved_on(&self, before: Parser) -> bool {
        &&& self.wf()
        &&& self.tokens@ == before.tokens@
        &&& self.current >= before.current
        &&& self.diagnostics@.len() >= before.diagnostics@.len()
        &&& self.depth == before.depth
    }

    /// Where nothing was reported since `before`, the tokens consumed since
    /// then spell `e`, which nests as precedence requires and sits at `level`
    /// or tighter.
    spec fn clean_expr(&self, before: Parser, e: Expr, level: int) -> bool {
        self.diagnostics@.len() == before.diagnostics@.len() ==> {
            &&& spells(self.tokens@, before.current as int, self.current as int, expr_pieces(e))
            &&& expr_nested(e)
            &&& expr_level(e) >= level
        }
    }

    /// Where nothing was reported since `before`, the tokens consumed since
    /// then spell `s`.
    spec fn clean_stmt(&self, before: Parser, s: Stmt) -> bool {
        self.diagnostics@.len() == before.diagnostics@.len() ==> stmt_match(
            self.tokens@,
            before.current as int,
            s,
        ) == Some(self.current as int)
    }

    /// A parser at the first of `tokens`, which end with the end marker.
    pub fn new(tokens: Vec<Token>) -> (r: Parser)
        requires
            tokens@.len() > 0,
            tokens@.last().tokentype == Tokentype::Eof,
        ensures
            r.wf(),
            r.token_list() == tokens@,
            r.position() == 0,
            r.diagnostic_list().len() == 0,
            r.reports().len() == 0,
            r.nesting() == 0,
    {
        Parser { tokens, current: 0, diagnostics: Vec::new(), depth: 0 }
    }

    /// Parses statements up to the end marker. A statement with a syntax
    /// error is reported in `diagnostics` and skipped up to the next
    /// statement boundary; the others are returned in order. The statements,
    /// the reports and the final position are exactly those of
    /// `program_rest`; where nothing is reported, the tokens spell the
    /// statements returned, one after another.
    pub fn parse(&mut self) -> (r: Vec<Stmt>)
        requires
            old(self).wf(),
        ensures
            final(self).wf(),
            final(self).token_list() == old(self).token_list(),
            0 <= final(self).position() < final(self).token_list().len(),
            final(self).token_list()[final(self).position()].tokentype == Tokentype::Eof,
            stmts_wf(r@),
            ({
                let o = program_rest(
                    old(self).token_list(),
                    old(self).position(),
                    old(self).nesting(),
                    Seq::empty(),
                    Seq::empty(),
                );
                &&& final(self).position() == o.next
                &&& final(self).reports() =~= old(self).reports() + o.reports
                &&& shapes_of(r@, o.stmts)
            }),
            final(self).nesting() == old(self).nesting(),
            final(self).diagnostic_list().len() >= old(self).diagnostic_list().len(),
            final(self).diagnostic_list().len() == old(self).diagnostic_list().len() ==> stmts_match(
                old(self).token_list(),
                old(self).position(),
                r@,
                0,
            ) == Some(final(self).position()),
    {
        let mut statements: Vec<Stmt> = Vec::new();
        let ghost whole = program_rest(self.tokens@, self.current as int, self.depth as int, Seq::empty(), Seq::empty());
        let ghost mut shapes: Seq<StmtShape> = Seq::empty();
        let ghost mut acc: Seq<Seq<char>> = Seq::empty();
        assert(self.reports() =~= old(self).reports() + acc);
        while !self.is_at_end()
            invariant
                self.moved_on(*old(self)),
                whole == program_rest(old(self).tokens@, old(self).current as int, old(self).depth as int, Seq::empty(), Seq::empty()),
                whole == program_rest(self.tokens@, self.current as int, self.depth as int, shapes, acc),
                self.reports() =~= old(self).reports() + acc,
                shapes_of(statements@, shapes),
                stmts_wf(statements@),
                self.diagnostics@.len() == old(self).diagnostics@.len() ==> stmts_match(
                    self.tokens@,
                    old(self).current as int,
                    statements@,
                    0,
                ) == Some(self.current as int),
            decreases self.tokens@.len() - self.current,
        {
            let ghost before = self.current as int;
            let ghost rule = declaration_rule(self.tokens@, before, self.depth as int);
            match self.declaration() {
                Ok(s) => {
                    proof {
                        let sh = rule.stmt->0;
                        assert(self.reports() =~= old(self).reports() + (acc + rule.reports));
                        acc = acc + rule.reports;
                        shapes = shapes.push(sh);
                    }
                    proof {
                        if self.diagnostics@.len() == old(self).diagnostics@.len() {
                            lemma_stmts_match_push(
                                self.tokens@,
                                old(self).current as int,
                                before,
                                self.current as int,
                                statements@,
                                0,
                                s,
                            );
                        }
                    }
                    let ghost prev = statements@;
                    statements.push(s);
                    proof {
                        assert forall|k: int| 0 <= k < shapes.len() implies shape_of(
                            #[trigger] statements@[k],
                            shapes[k],
                        ) by {
                            if k < prev.len() {
                                assert(statements@[k] == prev[k]);
                            }
                        }
                    }
                },
                Err(_) => {
                    self.synchronize();
                    proof {
                        assert(self.reports() =~= old(self).reports() + (acc + rule.reports));
                        acc = acc + rule.reports;
                    }
                },
            }
            assert(self.current > before);
        }
        statements
    }

    fn declaration(&mut self) -> (r: Result<Stmt, ParseError>)
        requires
            old(self).wf(),
        ensures
            final(self).moved_on(*old(self)),
            r matches Ok(s) ==> stmt_wf(s) && final(self).current > old(self).current
                && final(self).clean_stmt(*old(self), s),
            r is Err ==> final(self).diagnostics@.len() > old(self).diagnostics@.len(),
            final(self).follows_stmt(*old(self), declaration_rule(old(self).tokens@, old(self).current as int, old(self).depth as int), r),
        decreases old(self).tokens@.len() - old(self).current, 32int,
    {
        if self.match_token(Tokentype::Var) {
            self.var_declaration()
        } else {
            self.statement()
        }
    }

    /// A declaration whose `var` has just been consumed.
    #[verifier::rlimit(100)]
    fn var_declaration(&mut self) -> (r: Result<Stmt, ParseError>)
        requires
            old(self).wf(),
            old(self).current > 0,
            old(self).tokens@[old(self).current - 1].tokentype == Tokentype::Var,
        ensures
            final(self).moved_on(*old(self)),
            r matches Ok(s) ==> stmt_wf(s) && (final(self).diagnostics@.len()
                == old(self).diagnostics@.len() ==> stmt_match(
                final(self).tokens@,
                old(self).current - 1,
                s,
            ) == Some(final(self).current as int)),
            r is Err ==> final(self).diagnostics@.len() > old(self).diagnostics@.len(),
            final(self).follows_stmt(*old(self), var_rule(old(self).tokens@, old(self).current as int, old(self).depth as int), r),
        decreases old(self).tokens@.len() - old(self).current, 19int,
    {
        let ghost start = self.current as int;
        let name = match self.consume(Tokentype::Identifier, "Expect variable name.") {
            Ok(t) => t,
            Err(e) => {
                return Err(e);
            },
        };
        let ghost has_init = self.tokens@[start + 1].tokentype == Tokentype::Equal;
        let initalizer = if self.match_token(Tokentype::Equal) {
            match self.expression() {
                Ok(e) => e,
                Err(e) => {
                    return Err(e);
                },
            }
        } else {
            Expr::Literal { value: Object::Null }
        };
        let ghost mid = self.current as int;
        let _ = self.consume(Tokentype::Semicolon, "Expect ';' after variable declaration.");
        let r = Stmt::Var { name, initalizer };
        proof {
            if self.diagnostics@.len() == old(self).diagnostics@.len() {
                lemma_var_spelled(self.tokens@, start, mid, name, initalizer, has_init);
            }
        }
        Ok(r)
    }

    #[verifier::rlimit(80)]
    fn statement(&mut self) -> (r: Result<Stmt, ParseError>)
        requires
            old(self).wf(),
        ensures
            final(self).moved_on(*old(self)),
            r matches Ok(s) ==> stmt_wf(s) && final(self).current > old(self).current
                && final(self).clean_stmt(*old(self), s),
            r is Err ==> final(self).diagnostics@.len() > old(self).diagnostics@.len(),
            final(self).follows_stmt(*old(self), statement_rule(old(self).tokens@, old(self).current as int, old(self).depth as int), r),
        decreases old(self).tokens@.len() - old(self).current, 31int,
    {
        if self.match_token(Tokentype::Print) {
            self.print_statement()
        } else if self.match_token(Tokentype::LeftBrace) {
            if !self.enter() {
                return Err(ParseError {});
            }
            let statements = self.block();
            self.leave();
            Ok(Stmt::Block { statements })
        } else {
            self.expression_statement()
        }
    }

    /// The statements of a block whose `{` has just been consumed, through
    /// its `}`.
    fn block(&mut self) -> (r: Vec<Stmt>)
        requires
            old(self).wf(),
            old(self).current > 0,
        ensures
            final(self).moved_on(*old(self)),
            stmts_wf(r@),
            final(self).diagnostics@.len() == old(self).diagnostics@.len() ==> {
                &&& final(self).current > old(self).current
                &&& stmts_match(final(self).tokens@, old(self).current as int, r@, 0) == Some(
                    final(self).current - 1,
                )
                &&& final(self).tokens@[final(self).current - 1].tokentype == Tokentype::RightBrace
            },
            ({
                let o = block_rest(old(self).tokens@, old(self).current as int, old(self).depth as int, Seq::empty(), Seq::empty());
                &&& final(self).current == o.next
                &&& final(self).reports() =~= old(self).reports() + o.reports
                &&& shapes_of(r@, o.stmts)
            }),
        decreases old(self).tokens@.len() - old(self).current, 33int,
    {
        let mut statements: Vec<Stmt> = Vec::new();
        let ghost whole = block_rest(self.tokens@, self.current as int, self.depth as int, Seq::empty(), Seq::empty());
        let ghost mut shapes: Seq<StmtShape> = Seq::empty();
        let ghost mut acc: Seq<Seq<char>> = Seq::empty();
        assert(self.reports() =~= old(self).reports() + acc);
        while !self.check(Tokentype::RightBrace) && !self.is_at_end()
            invariant
                self.moved_on(*old(self)),
                whole == block_rest(old(self).tokens@, old(self).current as int, old(self).depth as int, Seq::empty(), Seq::empty()),
                whole == block_rest(self.tokens@, self.current as int, self.depth as int, shapes, acc),
                self.reports() =~= old(self).reports() + acc,
                shapes_of(statements@, shapes),
                old(self).current > 0,
                stmts_wf(statements@),
                self.diagnostics@.len() == old(self).diagnostics@.len() ==> stmts_match(
                    self.tokens@,
                    old(self).current as int,
                    statements@,
                    0,
                ) == Some(self.current as int),
            decreases self.tokens@.len() - self.current,
        {
            let ghost before = self.current as int;
            let ghost rule = declaration_rule(self.tokens@, before, self.depth as int);
            let ghost reps_before = self.reports();
            match self.declaration() {
                Ok(s) => {
                    proof {
                        let sh = rule.stmt->0;
                        assert(self.reports() =~= old(self).reports() + (acc + rule.reports));
                        acc = acc + rule.reports;
                        shapes = shapes.push(sh);
                    }
                    proof {
                        if self.diagnostics@.len() == old(self).diagnostics@.len() {
                            lemma_stmts_match_push(
                                self.tokens@,
                                old(self).current as int,
                                before,
                                self.current as int,
                                statements@,
                                0,
                                s,
                            );
                        }
                    }
                    let ghost prev = statements@;
                    statements.push(s);
                    proof {
                        assert forall|k: int| 0 <= k < shapes.len() implies shape_of(
                            #[trigger] statements@[k],
                            shapes[k],
                        ) by {
                            if k < prev.len() {
                                assert(statements@[k] == prev[k]);
                            }
                        }
                    }
                },
                Err(_) => {
                    self.synchronize();
                    proof {
                        assert(self.reports() =~= old(self).reports() + (acc + rule.reports));
                        acc = acc + rule.reports;
                    }
                },
            }
            assert(self.current > before);
        }
        let _ = self.consume(Tokentype::RightBrace, "Expect '}' after block.");
        statements
    }

    /// A print statement whose `print` has just been consumed.
    fn print_statement(&mut self) -> (r: Result<Stmt, ParseError>)
        requires
            old(self).wf(),
            old(self).current > 0,
            old(self).tokens@[old(self).current - 1].tokentype == Tokentype::Print,
        ensures
            final(self).moved_on(*old(self)),
            r matches Ok(s) ==> stmt_wf(s) && (final(self).diagnostics@.len()
                == old(self).diagnostics@.len() ==> stmt_match(
                final(self).tokens@,
                old(self).current - 1,
                s,
            ) == Some(final(self).current as int)),
            r is Err ==> final(self).diagnostics@.len() > old(self).diagnostics@.len(),
            final(self).follows_stmt(*old(self), simple_rule(old(self).tokens@, old(self).current as int, old(self).depth as int, true), r),
        decreases old(self).tokens@.len() - old(self).current, 16int,
    {
        let ghost start = self.current as int;
        let value = match self.expression() {
            Ok(e) => e,
            Err(e) => {
                return Err(e);
            },
        };
        let ghost mid = self.current as int;
        let _ = self.consume(Tokentype::Semicolon, "Expect ';' after value.");
        proof {
            if self.diagnostics@.len() == old(self).diagnostics@.len() {
                let ts = self.tokens@;
                lemma_spells_one(ts, start - 1, Piece::Mark(Tokentype::Print));
                lemma_spells_one(ts, mid, Piece::Mark(Tokentype::Semicolon));
                lemma_spells_concat(
                    ts,
                    start - 1,
                    start,
                    mid,
                    seq![Piece::Mark(Tokentype::Print)],
                    expr_pieces(value),
                );
                lemma_spells_concat(
                    ts,
                    start - 1,
                    mid,
                    mid + 1,
                    seq![Piece::Mark(Tokentype::Print)] + expr_pieces(value),
                    seq![Piece::Mark(Tokentype::Semicolon)],
                );
            }
        }
        Ok(Stmt::Print { expression: value })
    }

    fn expression_statement(&mut self) -> (r: Result<Stmt, ParseError>)
        requires
            old(self).wf(),
        ensures
            final(self).moved_on(*old(self)),
            r matches Ok(s) ==> stmt_wf(s) && final(self).current > old(self).current
                && final(self).clean_stmt(*old(self), s),
            r is Err ==> final(self).diagnostics@.len() > old(self).diagnostics@.len(),
            final(self).follows_stmt(*old(self), simple_rule(old(self).tokens@, old(self).current as int, old(self).depth as int, false), r),
        decreases old(self).tokens@.len() - old(self).current, 30int,
    {
        let ghost start = self.current as int;
        let expr = match self.expression() {
            Ok(e) => e,
            Err(e) => {
                return Err(e);
            },
        };
        let ghost mid = self.current as int;
        let _ = self.consume(Tokentype::Semicolon, "Expect ';' after expression.");
        proof {
            if self.diagnostics@.len() == old(self).diagnostics@.len() {
                let ts = self.tokens@;
                lemma_spells_one(ts, mid, Piece::Mark(Tokentype::Semicolon));
                lemma_spells_concat(
                    ts,
                    start,
                    mid,
                    mid + 1,
                    expr_pieces(expr),
                    seq![Piece::Mark(Tokentype::Semicolon)],
                );
            }
        }
        Ok(Stmt::Expression { expression: expr })
    }

    fn expression(&mut self) -> (r: Result<Expr, ParseError>)
        requires
            old(self).wf(),
        ensures
            final(self).moved_on(*old(self)),
            r matches Ok(e) ==> expr_wf(e) && final(self).current > old(self).current
                && final(self).clean_expr(*old(self), e, 0),
            r is Err ==> final(self).diagnostics@.len() > old(self).diagnostics@.len(),
            final(self).follows_expr(*old(self), expression_rule(old(self).tokens@, old(self).current as int, old(self).depth as int), r),
        decreases old(self).tokens@.len() - old(self).current, 26int,
    {
        self.assignment()
    }

    /// `equality ( "=" assignment )?`; a target other than a variable is
    /// a syntax error.
    fn assignment(&mut self) -> (r: Result<Expr, ParseError>)
        requires
            old(self).wf(),
        ensures
            final(self).moved_on(*old(self)),
            r matches Ok(e) ==> expr_wf(e) && final(self).current > old(self).current
                && final(self).clean_expr(*old(self), e, 0),
            r is Err ==> final(self).diagnostics@.len() > old(self).diagnostics@.len(),
            final(self).follows_expr(*old(self), assignment_rule(old(self).tokens@, old(self).current as int, old(self).depth as int), r),
        decreases old(self).tokens@.len() - old(self).current, 25int,
    {
        let ghost start = self.current as int;
        let expr = match self.binary_chain(1) {
            Ok(e) => e,
            Err(e) => {
                return Err(e);
            },
        };
        let ghost mid = self.current as int;
        if self.match_token(Tokentype::Equal) {
            let equals = self.previous();
            if !self.enter() {
                return Err(ParseError {});
            }
            let value = match self.assignment() {
                Ok(v) => v,
                Err(e) => {
                    self.leave();
                    return Err(e);
                },
            };
            self.leave();
            match expr {
                Expr::Variable { name } => {
                    let r = Expr::Assign { name, value: Box::new(value) };
                    proof {
                        if self.diagnostics@.len() == old(self).diagnostics@.len() {
                            let ts = self.tokens@;
                            lemma_spells_one(ts, mid, Piece::Mark(Tokentype::Equal));
                            lemma_spells_concat(
                                ts,
                                start,
                                mid,
                                mid + 1,
                                seq![Piece::Kept(name)],
                                seq![Piece::Mark(Tokentype::Equal)],
                            );
                            assert(seq![Piece::Kept(name)] + seq![
                                Piece::Mark(Tokentype::Equal),
                            ] =~= seq![Piece::Kept(name), Piece::Mark(Tokentype::Equal)]);
                            lemma_spells_concat(
                                ts,
                                start,
                                mid + 1,
                                self.current as int,
                                seq![Piece::Kept(name), Piece::Mark(Tokentype::Equal)],
                                expr_pieces(value),
                            );
                        }
                    }
                    Ok(r)
                },
                _ => {
                    self.error(&equals, "Invalid assignment target.");
                    Err(ParseError {})
                },
            }
        } else {
            Ok(expr)
        }
    }

    /// Consumes a binary operator of the given precedence level.
    fn match_operator(&mut self, level: u8) -> (r: bool)
        requires
            old(self).wf(),
            1 <= level <= 4,
        ensures
            final(self).moved_on(*old(self)),
            final(self).diagnostics@ == old(self).diagnostics@,
            r ==> final(self).current == old(self).current + 1 && binary_level(
                old(self).tokens@[old(self).current as int].tokentype,
            ) == level && is_binary_operator(old(self).tokens@[old(self).current as int].tokentype),
            !r ==> final(self).current == old(self).current,
            r == (binary_level(old(self).tokens@[old(self).current as int].tokentype) == level),
    {
        if level == 1 {
            self.match_token(Tokentype::BangEqual) || self.match_token(Tokentype::EqualEqual)
        } else if level == 2 {
            self.match_token(Tokentype::Greater) || self.match_token(Tokentype::GreaterEqual)
                || self.match_token(Tokentype::Less) || self.match_token(Tokentype::LessEqual)
        } else if level == 3 {
            self.match_token(Tokentype::Minus) || self.match_token(Tokentype::Plus)
        } else {
            self.match_token(Tokentype::Slash) || self.match_token(Tokentype::Star)
        }
    }

    /// An operand of a binary operator of the given level: a chain of the
    /// next level, or a unary expression under factors.
    fn operand(&mut self, level: u8) -> (r: Result<Expr, ParseError>)
        requires
            old(self).wf(),
            1 <= level <= 4,
        ensures
            final(self).moved_on(*old(self)),
            r matches Ok(e) ==> expr_wf(e) && final(self).current > old(self).current
                && final(self).clean_expr(*old(self), e, level + 1),
            r is Err ==> final(self).diagnostics@.len() > old(self).diagnostics@.len(),
            final(self).follows_expr(*old(self), operand_rule(old(self).tokens@, old(self).current as int, old(self).depth as int, level as int), r),
        decreases old(self).tokens@.len() - old(self).current, 19int - 2 * level,
    {
        if level == 4 {
            self.unary()
        } else {
            self.binary_chain(level + 1)
        }
    }

    /// A left-associative chain of binary operators of one precedence
    /// level: equality (1), comparison (2), term (3) or factor (4).
    fn binary_chain(&mut self, level: u8) -> (r: Result<Expr, ParseError>)
        requires
            old(self).wf(),
            1 <= level <= 4,
        ensures
            final(self).moved_on(*old(self)),
            r matches Ok(e) ==> expr_wf(e) && final(self).current > old(self).current
                && final(self).clean_expr(*old(self), e, level as int),
            r is Err ==> final(self).diagnostics@.len() > old(self).diagnostics@.len(),
            final(self).follows_expr(*old(self), chain_rule(old(self).tokens@, old(self).current as int, old(self).depth as int, level as int), r),
        decreases old(self).tokens@.len() - old(self).current, 20int - 2 * level,
    {
        let ghost start = self.current as int;
        let ghost whole = chain_rule(self.tokens@, start, self.depth as int, level as int);
        let mut expr = match self.operand(level) {
            Ok(e) => e,
            Err(e) => {
                return Err(e);
            },
        };
        let ghost mut acc = operand_rule(self.tokens@, start, self.depth as int, level as int).reports;
        loop
            invariant
                self.moved_on(*old(self)),
                self.current > old(self).current,
                1 <= level <= 4,
                start == old(self).current,
                whole == chain_rule(old(self).tokens@, start, old(self).depth as int, level as int),
                whole == chain_rest(self.tokens@, self.current as int, self.depth as int, level as int, expr, acc),
                self.reports() =~= old(self).reports() + acc,
                expr_wf(expr),
                self.diagnostics@.len() == old(self).diagnostics@.len() ==> spells(
                    self.tokens@,
                    start,
                    self.current as int,
                    expr_pieces(expr),
                ) && expr_nested(expr) && expr_level(expr) >= level,
            decreases self.tokens@.len() - self.current,
        {
            let ghost mid = self.current as int;
            let ghost before = self.reports();
            if !self.match_operator(level) {
                return Ok(expr);
            }
            let operator = self.previous();
            let ghost step = operand_rule(self.tokens@, mid + 1, self.depth as int, level as int);
            let right = match self.operand(level) {
                Ok(e) => e,
                Err(e) => {
                    assert(self.reports() =~= old(self).reports() + (acc + step.reports));
                    return Err(e);
                },
            };
            let ghost left = expr;
            proof {
                assert(self.reports() =~= old(self).reports() + (acc + step.reports));
                acc = acc + step.reports;
            }
            proof {
                if self.diagnostics@.len() == old(self).diagnostics@.len() {
                    let ts = self.tokens@;
                    lemma_spells_one(ts, mid, Piece::Kept(operator));
                    lemma_spells_concat(
                        ts,
                        start,
                        mid,
                        mid + 1,
                        expr_pieces(left),
                        seq![Piece::Kept(operator)],
                    );
                    lemma_spells_concat(
                        ts,
                        start,
                        mid + 1,
                        self.current as int,
                        expr_pieces(left) + seq![Piece::Kept(operator)],
                        expr_pieces(right),
                    );
                }
            }
            expr = Expr::Binary { left: Box::new(expr), operator, right: Box::new(right) };
        }
    }

    fn unary(&mut self) -> (r: Result<Expr, ParseError>)
        requires
            old(self).wf(),
        ensures
            final(self).moved_on(*old(self)),
            r matches Ok(e) ==> expr_wf(e) && final(self).current > old(self).current
                && final(self).clean_expr(*old(self), e, 5),
            r is Err ==> final(self).diagnostics@.len() > old(self).diagnostics@.len(),
            final(self).follows_expr(*old(self), unary_rule(old(self).tokens@, old(self).current as int, old(self).depth as int), r),
        decreases old(self).tokens@.len() - old(self).current, 4int,
    {
        let ghost start = self.current as int;
        if self.match_token(Tokentype::Bang) || self.match_token(Tokentype::Minus) {
            let operator = self.previous();
            if !self.enter() {
                return Err(ParseError {});
            }
            let right = match self.unary() {
                Ok(e) => e,
                Err(e) => {
                    self.leave();
                    return Err(e);
                },
            };
            self.leave();
            proof {
                if self.diagnostics@.len() == old(self).diagnostics@.len() {
                    let ts = self.tokens@;
                    lemma_spells_one(ts, start, Piece::Kept(operator));
                    lemma_spells_concat(
                        ts,
                        start,
                        start + 1,
                        self.current as int,
                        seq![Piece::Kept(operator)],
                        expr_pieces(right),
                    );
                }
            }
            return Ok(Expr::Unary { operator, right: Box::new(right) });
        }
        self.primary()
    }

    fn primary(&mut self) -> (r: Result<Expr, ParseError>)
        requires
            old(self).wf(),
        ensures
            final(self).moved_on(*old(self)),
            r matches Ok(e) ==> expr_wf(e) && final(self).current > old(self).current
                && final(self).clean_expr(*old(self), e, 6),
            r is Err ==> final(self).diagnostics@.len() > old(self).diagnostics@.len(),
            final(self).follows_expr(*old(self), primary_rule(old(self).tokens@, old(self).current as int, old(self).depth as int), r),
        decreases old(self).tokens@.len() - old(self).current, 3int,
    {
        let ghost start = self.current as int;
        if self.match_token(Tokentype::False) {
            return Ok(Expr::Literal { value: Object::False });
        }
        if self.match_token(Tokentype::True) {
            return Ok(Expr::Literal { value: Object::True });
        }
        if self.match_token(Tokentype::Nil) {
            return Ok(Expr::Literal { value: Object::Null });
        }
        if self.match_token(Tokentype::Number) || self.match_token(Tokentype::String) {
            let t = self.previous();
            return Ok(Expr::Literal { value: t.literal });
        }
        if self.match_token(Tokentype::Identifier) {
            let name = self.previous();
            return Ok(Expr::Variable { name });
        }
        if self.match_token(Tokentype::LeftParen) {
            if !self.enter() {
                return Err(ParseError {});
            }
            let expr = match self.expression() {
                Ok(e) => e,
                Err(e) => {
                    self.leave();
                    return Err(e);
                },
            };
            self.leave();
            let ghost mid = self.current as int;
            let closed = self.consume(Tokentype::RightParen, "Expect ')' after expression.");
            proof {
                if self.diagnostics@.len() == old(self).diagnostics@.len() {
                    let ts = self.tokens@;
                    lemma_spells_one(ts, start, Piece::Mark(Tokentype::LeftParen));
                    lemma_spells_one(ts, mid, Piece::Mark(Tokentype::RightParen));
                    lemma_spells_concat(
                        ts,
                        start,
                        start + 1,
                        mid,
                        seq![Piece::Mark(Tokentype::LeftParen)],
                        expr_pieces(expr),
                    );
                    lemma_spells_concat(
                        ts,
                        start,
                        mid,
                        mid + 1,
                        seq![Piece::Mark(Tokentype::LeftParen)] + expr_pieces(expr),
                        seq![Piece::Mark(Tokentype::RightParen)],
                    );
                }
            }
            return Ok(Expr::Grouping { expression: Box::new(expr) });
        }
        let t = self.peek();
        self.error(&t, "Expect expression.");
        Err(ParseError {})
    }

    /// Goes one level deeper, or reports that the input nests too deeply.
    fn enter(&mut self) -> (r: bool)
        requires
            old(self).wf(),
        ensures
            final(self).wf(),
            final(self).tokens@ == old(self).tokens@,
            final(self).current == old(self).current,
            r ==> final(self).depth == old(self).depth + 1 && final(self).diagnostics@ == old(
                self,
            ).diagnostics@,
            !r ==> final(self).depth == old(self).depth && final(self).diagnostics@.len() > old(
                self,
            ).diagnostics@.len(),
            r == (old(self).depth < MAX_NESTING),
            !r ==> final(self).reports() == old(self).reports() + nesting_report(
                old(self).tokens@,
                old(self).current as int,
            ),
    {
        if self.depth >= MAX_NESTING {
            let t = self.peek();
            self.error(&t, "Too much nesting.");
            false
        } else {
            self.depth = self.depth + 1;
            true
        }
    }

    /// Comes back up one level.
    fn leave(&mut self)
        requires
            old(self).wf(),
            old(self).depth > 0,
        ensures
            final(self).wf(),
            final(self).tokens@ == old(self).tokens@,
            final(self).current == old(self).current,
            final(self).diagnostics@ == old(self).diagnostics@,
            final(self).depth == old(self).depth - 1,
    {
        self.depth = self.depth - 1;
    }

    /// Consumes the next token if it has the given kind (never the end marker).
    fn match_token(&mut self, kind: Tokentype) -> (r: bool)
        requires
            old(self).wf(),
        ensures
            final(self).moved_on(*old(self)),
            r == (old(self).tokens@[old(self).current as int].tokentype == kind
                && old(self).tokens@[old(self).current as int].tokentype != Tokentype::Eof),
            r ==> final(self).current == old(self).current + 1,
            !r ==> final(self).current == old(self).current,
            final(self).diagnostics@ == old(self).diagnostics@,
    {
        if self.check(kind) {
            self.advance();
            true
        } else {
            false
        }
    }

    fn check(&self, kind: Tokentype) -> (r: bool)
        requires
            self.wf(),
        ensures
            r == (self.tokens@[self.current as int].tokentype == kind
                && self.tokens@[self.current as int].tokentype != Tokentype::Eof),
    {
        if self.is_at_end() {
            return false;
        }
        self.tokens[self.current].tokentype == kind
    }

    /// Moves past the next token unless it is the end marker, and returns
    /// the token moved past (or the end marker).
    fn advance(&mut self) -> (r: Token)
        requires
            old(self).wf(),
        ensures
            final(self).moved_on(*old(self)),
            old(self).tokens@[old(self).current as int].tokentype != Tokentype::Eof
                ==> final(self).current == old(self).current + 1,
            old(self).tokens@[old(self).current as int].tokentype == Tokentype::Eof
                ==> final(self).current == old(self).current,
            old(self).tokens@[old(self).current as int].tokentype != Tokentype::Eof ==> r
                == old(self).tokens@[old(self).current as int],
            old(self).tokens@[old(self).current as int].tokentype != Tokentype::Eof ==> r.model()
                == old(self).tokens@[old(self).current as int].model(),
            final(self).diagnostics@ == old(self).diagnostics@,
    {
        if !self.is_at_end() {
            let n = self.tokens.len();
            assert(self.current + 1 < n);
            self.current = self.current + 1;
            self.previous()
        } else {
            self.peek()
        }
    }

    fn is_at_end(&self) -> (r: bool)
        requires
            self.wf(),
        ensures
            r == (self.tokens@[self.current as int].tokentype == Tokentype::Eof),
            !r ==> self.current + 1 < self.tokens@.len(),
    {
        self.tokens[self.current].tokentype == Tokentype::Eof
    }

    fn peek(&self) -> (r: Token)
        requires
            self.wf(),
        ensures
            r == self.tokens@[self.current as int],
            r.model() == self.tokens@[self.current as int].model(),
    {
        self.tokens[self.current].duplicate()
    }

    fn previous(&self) -> (r: Token)
        requires
            self.current > 0,
            self.current <= self.tokens@.len(),
        ensures
            r == self.tokens@[self.current - 1],
            r.model() == self.tokens@[self.current - 1].model(),
            r.literal@ == self.tokens@[self.current - 1].literal@,
    {
        self.tokens[self.current - 1].duplicate()
    }

    /// Consumes a token of the expected kind, or reports `message` at the
    /// next token.
    fn consume(&mut self, kind: Tokentype, message: &str) -> (r: Result<Token, ParseError>)
        requires
            old(self).wf(),
        ensures
            final(self).moved_on(*old(self)),
            r matches Ok(t) ==> t.tokentype == kind && t.model() == old(self).tokens@[old(
                self,
            ).current as int].model(),
            r is Ok <==> (old(self).tokens@[old(self).current as int].tokentype == kind
                && old(self).tokens@[old(self).current as int].tokentype != Tokentype::Eof),
            r is Ok ==> final(self).current == old(self).current + 1 && final(self).diagnostics@
                == old(self).diagnostics@,
            r is Err ==> final(self).current == old(self).current
                && final(self).diagnostics@.len() > old(self).diagnostics@.len(),
            r matches Ok(t) ==> t == old(self).tokens@[old(self).current as int],
            final(self).current == consume_next(old(self).tokens@, old(self).current as int, kind),
            final(self).reports() == old(self).reports() + consume_reports(
                old(self).tokens@,
                old(self).current as int,
                kind,
                message@,
            ),
    {
        if self.check(kind) {
            let t = self.advance();
            assert(t.model() == self.tokens@[old(self).current as int].model());
            Ok(t)
        } else {
            let t = self.peek();
            self.error(&t, message);
            Err(ParseError {})
        }
    }

    /// Skips tokens up to a statement boundary: just past a `;`, or before a
    /// keyword that starts a statement. Moves on by at least one token unless
    /// at the end.
    fn synchronize(&mut self)
        requires
            old(self).wf(),
        ensures
            final(self).moved_on(*old(self)),
            old(self).tokens@[old(self).current as int].tokentype != Tokentype::Eof
                ==> final(self).current > old(self).current,
            final(self).current == synchronize_stop(old(self).tokens@, old(self).current as int),
            final(self).diagnostics@ == old(self).diagnostics@,
    {
        self.advance();
        while !self.is_at_end()
            invariant
                self.moved_on(*old(self)),
                old(self).tokens@[old(self).current as int].tokentype != Tokentype::Eof
                    ==> self.current > old(self).current,
                self.current > 0 || self.tokens@[self.current as int].tokentype == Tokentype::Eof,
                self.diagnostics@ == old(self).diagnostics@,
                (self.current > old(self).current) == (self.tokens@[old(self).current as int].tokentype
                    != Tokentype::Eof),
                synchronize_stop(self.tokens@, old(self).current as int) == if self.tokens@[old(
                    self,
                ).current as int].tokentype == Tokentype::Eof {
                    old(self).current as int
                } else {
                    sync_scan(self.tokens@, self.current as int)
                },
            decreases self.tokens@.len() - self.current,
        {
            if self.tokens[self.current - 1].tokentype == Tokentype::Semicolon {
                assert(sync_scan(self.tokens@, self.current as int) == self.current);
                return;
            }
            match self.tokens[self.current].tokentype {
                Tokentype::Class | Tokentype::Fun | Tokentype::Var | Tokentype::For
                | Tokentype::If | Tokentype::While | Tokentype::Print | Tokentype::Return => {
                    assert(sync_scan(self.tokens@, self.current as int) == self.current);
                    return;
                },
                _ => {},
            }
            self.advance();
        }
        proof {
            if self.tokens@[old(self).current as int].tokentype != Tokentype::Eof {
                assert(sync_scan(self.tokens@, self.current as int) == self.current);
            }
        }
    }

    /// Reports `message` at the token `t`.
    fn error(&mut self, t: &Token, message: &str)
        requires
            old(self).wf(),
        ensures
            final(self).wf(),
            final(self).tokens@ == old(self).tokens@,
            final(self).current == old(self).current,
            final(self).depth == old(self).depth,
            final(self).diagnostics@ == old(self).diagnostics@.push(final(self).diagnostics@.last()),
            final(self).diagnostics@.last()@ == parse_error_line(*t, message@),
            final(self).reports() == old(self).reports().push(parse_error_line(*t, message@)),
    {
        let mut out = String::from_str("[line ");
        let n = nat_to_text(t.line as u64);
        out.append(n.as_str());
        if t.tokentype == Tokentype::Eof {
            out.append("] Error at end: ");
        } else {
            out.append("] Error at '");
            out.append(t.lexeme.as_str());
            out.append("': ");
        }
        out.append(message);
        proof {
            if t.tokentype == Tokentype::Eof {
                assert(out@ =~= parse_error_line(*t, message@));
            } else {
                assert(out@ =~= parse_error_line(*t, message@));
            }
        }
        let ghost before = self.reports();
        self.diagnostics.push(out);
        assert(self.reports() =~= before.push(parse_error_line(*t, message@)));
    }
}

/// The tokens of a clean declaration spell it.
proof fn lemma_var_spelled(ts: Seq<Token>, start: int, mid: int, name: Token, initalizer: Expr, has_init: bool)
    requires
        1 <= start,
        start + 1 <= mid < ts.len(),
        ts[start - 1].tokentype == Tokentype::Var,
        ts[start] == name,
        has_init == (ts[start + 1].tokentype == Tokentype::Equal),
        has_init ==> start + 2 <= mid && spells(ts, start + 2, mid, expr_pieces(initalizer)),
        !has_init ==> mid == start + 1 && initalizer == (Expr::Literal { value: Object::Null }),
        ts[mid].tokentype == Tokentype::Semicolon,
    ensures
        stmt_match(ts, start - 1, Stmt::Var { name, initalizer }) == Some(mid + 1),
{
    let head = seq![Piece::Mark(Tokentype::Var), Piece::Kept(name)];
    lemma_spells_one(ts, start - 1, Piece::Mark(Tokentype::Var));
    lemma_spells_one(ts, start, Piece::Kept(name));
    lemma_spells_concat(
        ts,
        start - 1,
        start,
        start + 1,
        seq![Piece::Mark(Tokentype::Var)],
        seq![Piece::Kept(name)],
    );
    assert(seq![Piece::Mark(Tokentype::Var)] + seq![Piece::Kept(name)] =~= head);
    lemma_spells_one(ts, mid, Piece::Mark(Tokentype::Semicolon));
    if has_init {
        let h2 = head + seq![Piece::Mark(Tokentype::Equal)];
        lemma_spells_one(ts, start + 1, Piece::Mark(Tokentype::Equal));
        lemma_spells_concat(
            ts,
            start - 1,
            start + 1,
            start + 2,
            head,
            seq![Piece::Mark(Tokentype::Equal)],
        );
        lemma_spells_concat(ts, start - 1, start + 2, mid, h2, expr_pieces(initalizer));
        lemma_spells_concat(
            ts,
            start - 1,
            mid,
            mid + 1,
            h2 + expr_pieces(initalizer),
            seq![Piece::Mark(Tokentype::Semicolon)],
        );
        assert(h2 =~= seq![
            Piece::Mark(Tokentype::Var),
            Piece::Kept(name),
            Piece::Mark(Tokentype::Equal),
        ]);
    } else {
        lemma_spells_concat(
            ts,
            start - 1,
            start + 1,
            mid + 1,
            head,
            seq![Piece::Mark(Tokentype::Semicolon)],
        );
        assert(head + seq![Piece::Mark(Tokentype::Semicolon)] =~= seq![
            Piece::Mark(Tokentype::Var),
            Piece::Kept(name),
            Piece::Mark(Tokentype::Semicolon),
        ]);
    }
}

} // verus!
