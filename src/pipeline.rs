use vstd::prelude::*;

use crate::ast::{stmts_match, stmts_wf, Stmt};
use crate::interpreter::{begins_with, exec_list, exec_list_tape, extends, lines_of, Interpreter};
use crate::parser::Parser;
use crate::scanner::{lemma_lex_ends_with_eof, lex, lex_diagnostics, literal_fits, Scanner};
use crate::token::{token_models, Token, Tokentype};
use crate::syntax::{program_rest, shapes_of};
use crate::value::FloatArith;

verus! {

/// `d` and `ss` are what one unit of source gives: for the tokens `ts` of
/// the source (each number and string token carrying its value), `d` is the scanner's diagnostics followed by the parser's
/// reports and `ss` the statements the parser gives (`program_rest`). The
/// statements are well formed, and where nothing is reported the tokens
/// spell them, one after another, up to the end marker.
pub open spec fn runs_as(source: Seq<char>, d: Seq<Seq<char>>, ss: Seq<Stmt>) -> bool {
    exists|ts: Seq<Token>|
        #![trigger token_models(ts)]
        {
            let o = program_rest(ts, 0, 0, Seq::empty(), Seq::empty());
            &&& token_models(ts) == lex(source, 0)
            &&& forall|k: int|
                0 <= k < ts.len() ==> literal_fits(
                    #[trigger] ts[k].tokentype,
                    ts[k].lexeme@,
                    ts[k].literal@,
                )
            &&& d == lex_diagnostics(source, 0) + o.reports
            &&& shapes_of(ss, o.stmts)
            &&& stmts_wf(ss)
            &&& d.len() == 0 ==> stmts_match(ts, 0, ss, 0) == Some(ts.len() - 1)
        }
}

/// Scans and parses one unit of source: the statements that parsed, and the
/// diagnostics of the scanner followed by those of the parser. Where there
/// are no diagnostics, the tokens of the source spell the statements, one
/// after another, up to the end marker.
pub fn run<F: FloatArith>(source: String, host: &F) -> (r: (Vec<Stmt>, Vec<String>))
    requires
        source@.len() < usize::MAX,
    ensures
        runs_as(source@, lines_of(r.1@), r.0@),
{
    let ghost s = source@;
    let mut scanner = Scanner::new(source);
    scanner.scan_tokens(host);
    let (tokens, scan_diagnostics) = scanner.into_parts();
    proof {
        lemma_lex_ends_with_eof(s, 0);
        assert(token_models(Seq::<Token>::empty()) =~= Seq::empty());
        assert(token_models(tokens@) =~= lex(s, 0));
        assert(token_models(tokens@).last() == tokens@.last().model());
        assert(lines_of(Seq::<String>::empty()) =~= Seq::empty());
        assert(lines_of(scan_diagnostics@) =~= lex_diagnostics(s, 0));
    }
    let ghost ts = tokens@;
    let mut parser = Parser::new(tokens);
    let statements = parser.parse();
    proof {
        let p = parser.position();
        if p < ts.len() - 1 {
            assert(token_models(ts)[p] == ts[p].model());
            assert(lex(s, 0)[p].kind != Tokentype::Eof);
        }
    }
    let mut diagnostics = scan_diagnostics;
    let ghost pr = parser.reports();
    let mut parse_diagnostics = parser.into_diagnostics();
    let ghost parse_diagnostics_view = parse_diagnostics@;
    let ghost first = diagnostics@;
    diagnostics.append(&mut parse_diagnostics);
    proof {
        assert(lines_of(diagnostics@).subrange(0, first.len() as int) =~= lines_of(first));
        if diagnostics@.len() == 0 {
            assert(token_models(ts) == lex(s, 0));
            assert(parser.position() == ts.len() - 1);
            assert(stmts_match(ts, 0, statements@, 0) == Some(ts.len() - 1));
        }
        let o = program_rest(ts, 0, 0, Seq::empty(), Seq::empty());
        assert(pr =~= Seq::<Seq<char>>::empty() + o.reports);
        assert(lines_of(diagnostics@) =~= lines_of(first) + lines_of(parse_diagnostics_view));
        assert(lines_of(diagnostics@) == lex_diagnostics(s, 0) + o.reports);
        assert(token_models(ts) == lex(s, 0));
    }
    (statements, diagnostics)
}

impl Interpreter {
    /// Runs one unit of source against the persistent scope chain: its
    /// diagnostics are added to the output, then its statements run. The
    /// scope chain and the output afterwards are those of `exec_list_tape`
    /// over the host's answers given during the run, and, where the host is
    /// not asked, exactly those of `exec_list`.
    pub fn run_source<F: FloatArith>(&mut self, source: String, host: &F)
        requires
            old(self).scopes().len() > 0,
            source@.len() < usize::MAX,
        ensures
            final(self).scopes().len() == old(self).scopes().len(),
            begins_with(final(self).answers(), old(self).answers()),
            exists|d: Seq<Seq<char>>, ss: Seq<Stmt>|
                #![trigger runs_as(source@, d, ss)]
                {
                    &&& runs_as(source@, d, ss)
                    &&& extends(final(self).lines(), old(self).lines() + d)
                    &&& exec_list(ss, 0, old(self).scopes(), old(self).lines() + d) matches Some(r)
                        ==> final(self).scopes() == r.0 && final(self).lines() == r.1
                    &&& exec_list_tape(
                        ss,
                        0,
                        old(self).scopes(),
                        old(self).lines() + d,
                        final(self).answers(),
                        old(self).answers().len() as int,
                    ) == (final(self).scopes(), final(self).lines(), final(self).answers().len() as int)
                },
    {
        let ghost s = source@;
        let (statements, diagnostics) = run(source, host);
        let mut i: usize = 0;
        while i < diagnostics.len()
            invariant
                i <= diagnostics.len(),
                self.scopes() == old(self).scopes(),
                self.answers() == old(self).answers(),
                self.lines() =~= old(self).lines() + lines_of(diagnostics@).take(i as int),
            decreases diagnostics.len() - i,
        {
            self.emit(diagnostics[i].clone());
            assert(lines_of(diagnostics@).take(i + 1) =~= lines_of(diagnostics@).take(
                i as int,
            ).push(diagnostics@[i as int]@));
            i = i + 1;
        }
        proof {
            assert(lines_of(diagnostics@).take(i as int) =~= lines_of(diagnostics@));
        }
        let ghost d = lines_of(diagnostics@);
        let ghost ss = statements@;
        self.interpret(statements, host);
        proof {
            assert(runs_as(s, d, ss));
        }
    }
}

} // verus!
