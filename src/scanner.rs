use vstd::prelude::*;

use crate::text::{chars_of, nat_text, nat_to_text, text_of};
use crate::token::{token_models, Token, TokenModel, Tokentype};
use crate::value::{FloatArith, Object, Val};

verus! {

broadcast use vstd::string::group_string_axioms;

pub open spec fn is_digit_char(c: char) -> bool {
    '0' <= c && c <= '9'
}

pub open spec fn is_alpha_char(c: char) -> bool {
    ('a' <= c && c <= 'z') || ('A' <= c && c <= 'Z') || c == '_'
}

pub open spec fn is_alnum_char(c: char) -> bool {
    is_alpha_char(c) || is_digit_char(c)
}

/// The number of newline characters in `q`.
pub open spec fn newlines(q: Seq<char>) -> nat
    decreases q.len(),
{
    if q.len() == 0 {
        0
    } else {
        newlines(q.drop_last()) + if q.last() == '\n' {
            1nat
        } else {
            0nat
        }
    }
}

/// The line of the source that position `p` lies on, counting from 1.
pub open spec fn line_at(s: Seq<char>, p: int) -> int {
    1 + newlines(s.take(p)) as int
}

/// The end of the run of digits that starts at `i`.
pub open spec fn digits_end(s: Seq<char>, i: int) -> int
    decreases s.len() - i,
{
    if 0 <= i < s.len() && is_digit_char(s[i]) {
        digits_end(s, i + 1)
    } else {
        i
    }
}

/// The end of the run of letters, digits and underscores that starts at `i`.
pub open spec fn word_end(s: Seq<char>, i: int) -> int
    decreases s.len() - i,
{
    if 0 <= i < s.len() && is_alnum_char(s[i]) {
        word_end(s, i + 1)
    } else {
        i
    }
}

/// The first position from `i` on that holds `c`, or the end of the source.
pub open spec fn find_char(s: Seq<char>, i: int, c: char) -> int
    decreases s.len() - i,
{
    if 0 <= i < s.len() && s[i] != c {
        find_char(s, i + 1, c)
    } else {
        i
    }
}

/// The first position from `i` on where `*/` starts, or the end of the source.
pub open spec fn comment_close(s: Seq<char>, i: int) -> int
    decreases s.len() - i,
{
    if i < 0 || i >= s.len() {
        i
    } else if i + 1 < s.len() && s[i] == '*' && s[i + 1] == '/' {
        i
    } else {
        comment_close(s, i + 1)
    }
}

/// The value of a run of decimal digits.
pub open spec fn digits_value(q: Seq<char>) -> int
    decreases q.len(),
{
    if q.len() == 0 {
        0
    } else {
        digits_value(q.drop_last()) * 10 + (q.last() as int - '0' as int)
    }
}

/// The kind of a word: a keyword's own kind, else an identifier.
pub open spec fn keyword_kind(w: Seq<char>) -> Tokentype {
    if w == "and"@ {
        Tokentype::And
    } else if w == "class"@ {
        Tokentype::Class
    } else if w == "else"@ {
        Tokentype::Else
    } else if w == "false"@ {
        Tokentype::False
    } else if w == "for"@ {
        Tokentype::For
    } else if w == "fun"@ {
        Tokentype::Fun
    } else if w == "if"@ {
        Tokentype::If
    } else if w == "nil"@ {
        Tokentype::Nil
    } else if w == "or"@ {
        Tokentype::Or
    } else if w == "print"@ {
        Tokentype::Print
    } else if w == "return"@ {
        Tokentype::Return
    } else if w == "super"@ {
        Tokentype::Super
    } else if w == "this"@ {
        Tokentype::This
    } else if w == "true"@ {
        Tokentype::True
    } else if w == "var"@ {
        Tokentype::Var
    } else if w == "while"@ {
        Tokentype::While
    } else {
        Tokentype::Identifier
    }
}

/// The kind of a one-character token that never takes a second character.
pub open spec fn single_kind(c: char) -> Option<Tokentype> {
    if c == '(' {
        Some(Tokentype::LeftParen)
    } else if c == ')' {
        Some(Tokentype::RightParen)
    } else if c == '{' {
        Some(Tokentype::LeftBrace)
    } else if c == '}' {
        Some(Tokentype::RightBrace)
    } else if c == ',' {
        Some(Tokentype::Comma)
    } else if c == '.' {
        Some(Tokentype::Dot)
    } else if c == '-' {
        Some(Tokentype::Minus)
    } else if c == '+' {
        Some(Tokentype::Plus)
    } else if c == ';' {
        Some(Tokentype::Semicolon)
    } else if c == '*' {
        Some(Tokentype::Star)
    } else {
        None
    }
}

/// Whether `c` starts a one- or two-character operator (`!`, `=`, `<`, `>`).
pub open spec fn is_operator_char(c: char) -> bool {
    c == '!' || c == '=' || c == '<' || c == '>'
}

/// The kind of the operator `c` alone, or of `c` followed by `=` (`two`).
pub open spec fn operator_kind(c: char, two: bool) -> Tokentype {
    if c == '!' {
        if two {
            Tokentype::BangEqual
        } else {
            Tokentype::Bang
        }
    } else if c == '=' {
        if two {
            Tokentype::EqualEqual
        } else {
            Tokentype::Equal
        }
    } else if c == '<' {
        if two {
            Tokentype::LessEqual
        } else {
            Tokentype::Less
        }
    } else if two {
        Tokentype::GreaterEqual
    } else {
        Tokentype::Greater
    }
}

/// A diagnostic of the scanner.
pub open spec fn error_line(line: int, message: Seq<char>) -> Seq<char> {
    "[line "@ + nat_text(line as nat) + "] Error: "@ + message
}

/// What one lexeme that starts at `i` amounts to: where the next one starts,
/// the token it gives, if any, and the diagnostic it gives, if any.
pub struct Step {
    pub next: int,
    pub token: Option<TokenModel>,
    pub diagnostic: Option<Seq<char>>,
}

pub open spec fn token_step(s: Seq<char>, kind: Tokentype, i: int, j: int) -> Step {
    Step {
        next: j,
        token: Some(TokenModel { kind, text: s.subrange(i, j), line: line_at(s, j) }),
        diagnostic: None,
    }
}

pub open spec fn skip_step(j: int) -> Step {
    Step { next: j, token: None, diagnostic: None }
}

pub open spec fn error_step(j: int, d: Seq<char>) -> Step {
    Step { next: j, token: None, diagnostic: Some(d) }
}

pub open spec fn next_is(s: Seq<char>, i: int, c: char) -> bool {
    i + 1 < s.len() && s[i + 1] == c
}

/// The lexeme that starts at `i` (for `0 <= i < s.len()`).
pub open spec fn step(s: Seq<char>, i: int) -> Step {
    let c = s[i];
    if single_kind(c) is Some {
        token_step(s, single_kind(c)->0, i, i + 1)
    } else if c == '/' {
        if next_is(s, i, '/') {
            skip_step(find_char(s, i + 2, '\n'))
        } else if next_is(s, i, '*') {
            let j = comment_close(s, i + 2);
            skip_step(
                if j < s.len() {
                    j + 2
                } else {
                    s.len() as int
                },
            )
        } else {
            token_step(s, Tokentype::Slash, i, i + 1)
        }
    } else if is_operator_char(c) {
        if next_is(s, i, '=') {
            token_step(s, operator_kind(c, true), i, i + 2)
        } else {
            token_step(s, operator_kind(c, false), i, i + 1)
        }
    } else if c == '"' {
        let j = find_char(s, i + 1, '"');
        if j < s.len() {
            token_step(s, Tokentype::String, i, j + 1)
        } else {
            error_step(s.len() as int, error_line(line_at(s, s.len() as int), "Unterminated string."@))
        }
    } else if c == ' ' || c == '\r' || c == '\t' || c == '\n' {
        skip_step(i + 1)
    } else if is_digit_char(c) {
        let j = digits_end(s, i);
        if j + 1 < s.len() && s[j] == '.' && is_digit_char(s[j + 1]) {
            token_step(s, Tokentype::Number, i, digits_end(s, j + 1))
        } else if digits_value(s.subrange(i, j)) <= i64::MAX {
            token_step(s, Tokentype::Number, i, j)
        } else {
            error_step(j, error_line(line_at(s, j), "Number out of range."@))
        }
    } else if is_alpha_char(c) {
        let j = word_end(s, i);
        token_step(s, keyword_kind(s.subrange(i, j)), i, j)
    } else {
        error_step(i + 1, error_line(line_at(s, i), "Unexpected token."@))
    }
}

/// The tokens of the source from position `i` on, ending with the end marker.
pub open spec fn lex(s: Seq<char>, i: int) -> Seq<TokenModel>
    decreases s.len() - i,
{
    if i < 0 || i >= s.len() {
        seq![TokenModel { kind: Tokentype::Eof, text: Seq::empty(), line: line_at(s, s.len() as int) }]
    } else {
        let st = step(s, i);
        proof {
            lemma_step_advances(s, i);
        }
        match st.token {
            Some(t) => seq![t] + lex(s, st.next),
            None => lex(s, st.next),
        }
    }
}

/// The diagnostics that scanning the source from position `i` on gives.
pub open spec fn lex_diagnostics(s: Seq<char>, i: int) -> Seq<Seq<char>>
    decreases s.len() - i,
{
    if i < 0 || i >= s.len() {
        Seq::empty()
    } else {
        let st = step(s, i);
        proof {
            lemma_step_advances(s, i);
        }
        match st.diagnostic {
            Some(d) => seq![d] + lex_diagnostics(s, st.next),
            None => lex_diagnostics(s, st.next),
        }
    }
}

/// The literal a token carries: a number token's value (any float for one
/// with a fraction), a string token's text between the quotes, else null.
pub open spec fn literal_fits(kind: Tokentype, text: Seq<char>, lit: Val) -> bool {
    if kind == Tokentype::Number {
        if text.contains('.') {
            lit is Float
        } else {
            lit == Val::Int(digits_value(text) as i64)
        }
    } else if kind == Tokentype::String {
        lit == Val::Str(text.subrange(1, text.len() - 1))
    } else {
        lit == Val::Null
    }
}

/// The tokens of any source end with exactly one end marker.
pub proof fn lemma_lex_ends_with_eof(s: Seq<char>, i: int)
    ensures
        lex(s, i).len() > 0,
        lex(s, i).last().kind == Tokentype::Eof,
        forall|k: int| 0 <= k < lex(s, i).len() - 1 ==> (#[trigger] lex(s, i)[k]).kind != Tokentype::Eof,
    decreases s.len() - i,
{
    if 0 <= i < s.len() {
        let st = step(s, i);
        lemma_step_advances(s, i);
        lemma_lex_ends_with_eof(s, st.next);
        lemma_step_never_eof(s, i);
        match st.token {
            Some(t) => {
                let rest = lex(s, st.next);
                assert(lex(s, i) == seq![t] + rest);
                assert forall|k: int| 0 <= k < lex(s, i).len() - 1 implies (#[trigger] lex(
                    s,
                    i,
                )[k]).kind != Tokentype::Eof by {
                    if k > 0 {
                        assert(lex(s, i)[k] == rest[k - 1]);
                    }
                }
            },
            None => {},
        }
    }
}

/// No lexeme gives an end marker.
pub proof fn lemma_step_never_eof(s: Seq<char>, i: int)
    requires
        0 <= i < s.len(),
    ensures
        step(s, i).token matches Some(t) ==> t.kind != Tokentype::Eof,
{
}

pub proof fn lemma_digits_end(s: Seq<char>, i: int)
    requires
        0 <= i <= s.len(),
    ensures
        i <= digits_end(s, i) <= s.len(),
        forall|k: int| i <= k < digits_end(s, i) ==> is_digit_char(#[trigger] s[k]),
        digits_end(s, i) < s.len() ==> !is_digit_char(s[digits_end(s, i)]),
    decreases s.len() - i,
{
    if i < s.len() && is_digit_char(s[i]) {
        lemma_digits_end(s, i + 1);
    }
}

pub proof fn lemma_word_end(s: Seq<char>, i: int)
    requires
        0 <= i <= s.len(),
    ensures
        i <= word_end(s, i) <= s.len(),
        word_end(s, i) < s.len() ==> !is_alnum_char(s[word_end(s, i)]),
    decreases s.len() - i,
{
    if i < s.len() && is_alnum_char(s[i]) {
        lemma_word_end(s, i + 1);
    }
}

pub proof fn lemma_find_char(s: Seq<char>, i: int, c: char)
    requires
        0 <= i <= s.len(),
    ensures
        i <= find_char(s, i, c) <= s.len(),
        find_char(s, i, c) < s.len() ==> s[find_char(s, i, c)] == c,
        forall|k: int| i <= k < find_char(s, i, c) ==> s[k] != c,
    decreases s.len() - i,
{
    if i < s.len() && s[i] != c {
        lemma_find_char(s, i + 1, c);
    }
}

pub proof fn lemma_comment_close(s: Seq<char>, i: int)
    requires
        0 <= i <= s.len(),
    ensures
        i <= comment_close(s, i) <= s.len(),
        comment_close(s, i) < s.len() ==> comment_close(s, i) + 1 < s.len(),
    decreases s.len() - i,
{
    if i < s.len() && !(i + 1 < s.len() && s[i] == '*' && s[i + 1] == '/') {
        lemma_comment_close(s, i + 1);
    }
}

pub proof fn lemma_step_advances(s: Seq<char>, i: int)
    requires
        0 <= i < s.len(),
    ensures
        i < step(s, i).next <= s.len(),
{
    if i + 2 <= s.len() {
        lemma_find_char(s, i + 2, '\n');
        lemma_comment_close(s, i + 2);
    }
    lemma_find_char(s, i + 1, '"');
    lemma_digits_end(s, i + 1);
    let j = digits_end(s, i);
    if j + 1 < s.len() {
        lemma_digits_end(s, j + 1);
    }
    lemma_word_end(s, i + 1);
}

pub proof fn lemma_line_step(s: Seq<char>, p: int)
    requires
        0 <= p < s.len(),
    ensures
        line_at(s, p + 1) == line_at(s, p) + if s[p] == '\n' {
            1int
        } else {
            0int
        },
{
    assert(s.take(p + 1).drop_last() =~= s.take(p));
}

pub proof fn lemma_newlines_bound(q: Seq<char>)
    ensures
        newlines(q) <= q.len(),
    decreases q.len(),
{
    if q.len() > 0 {
        lemma_newlines_bound(q.drop_last());
    }
}

pub proof fn lemma_digits_value_grows(q: Seq<char>, n: int)
    requires
        0 <= n <= q.len(),
        forall|k: int| 0 <= k < q.len() ==> is_digit_char(#[trigger] q[k]),
    ensures
        0 <= digits_value(q.take(n)) <= digits_value(q),
    decreases q.len(),
{
    if q.len() > 0 {
        if n == q.len() {
            assert(q.take(n) =~= q);
            lemma_digits_value_grows(q.drop_last(), n - 1);
            assert(q.drop_last().take(n - 1) =~= q.drop_last());
        } else {
            lemma_digits_value_grows(q.drop_last(), n);
            assert(q.drop_last().take(n) =~= q.take(n));
        }
    }
}

/// Whether a character is a decimal digit.
pub fn is_digit(character: char) -> (r: bool)
    ensures
        r == is_digit_char(character),
{
    character >= '0' && character <= '9'
}

/// Whether a character is a letter or an underscore.
pub fn is_alpha(character: char) -> (r: bool)
    ensures
        r == is_alpha_char(character),
{
    (character >= 'a' && character <= 'z') || (character >= 'A' && character <= 'Z')
        || character == '_'
}

/// Whether a character is a letter, a digit or an underscore.
pub fn is_alpha_numeric(character: char) -> (r: bool)
    ensures
        r == is_alnum_char(character),
{
    is_alpha(character) || is_digit(character)
}

fn error_text(line: usize, message: &str) -> (r: String)
    ensures
        r@ == error_line(line as int, message@),
{
    let mut out = String::from_str("[line ");
    let n = nat_to_text(line as u64);
    out.append(n.as_str());
    out.append("] Error: ");
    out.append(message);
    proof {
        assert(out@ =~= error_line(line as int, message@));
    }
    out
}

/// Turns source text into tokens.
pub struct Scanner {
    source: String,
    chars: Vec<char>,
    pub tokens: Vec<Token>,
    pub diagnostics: Vec<String>,
    start: usize,
    current: usize,
    line: usize,
}

impl Scanner {
    /// The source text.
    pub closed spec fn text(&self) -> Seq<char> {
        self.chars@
    }

    /// The tokens scanned so far.
    pub closed spec fn token_list(&self) -> Seq<Token> {
        self.tokens@
    }

    /// The diagnostics reported so far.
    pub closed spec fn diagnostic_list(&self) -> Seq<String> {
        self.diagnostics@
    }

    /// Where scanning has reached in the source.
    pub closed spec fn position(&self) -> int {
        self.current as int
    }

    pub closed spec fn wf(&self) -> bool {
        &&& self.chars@ == self.source@
        &&& self.start <= self.current <= self.chars.len()
        &&& self.line == line_at(self.chars@, self.current as int)
        &&& self.chars.len() < usize::MAX
    }

    spec fn literals_fit(&self) -> bool {
        forall|k: int|
            0 <= k < self.tokens.len() ==> literal_fits(
                #[trigger] self.tokens[k].tokentype,
                self.tokens[k].lexeme@,
                self.tokens[k].literal@,
            )
    }

    /// A scanner at the start of `source`, with no tokens yet.
    pub fn new(source: String) -> (r: Scanner)
        requires
            source@.len() < usize::MAX,
        ensures
            r.wf(),
            r.text() == source@,
            r.position() == 0,
            r.token_list().len() == 0,
            r.diagnostic_list().len() == 0,
    {
        let chars = chars_of(source.as_str());
        proof {
            assert(chars@.take(0) =~= Seq::<char>::empty());
        }
        Scanner {
            source,
            chars,
            tokens: Vec::new(),
            diagnostics: Vec::new(),
            start: 0,
            current: 0,
            line: 1,
        }
    }

    /// Scans the rest of the source. The tokens are those of `lex`, ending with
    /// one end marker; each number and string token carries its value.
    /// Malformed lexemes are skipped and reported in `diagnostics`.
    pub fn scan_tokens<F: FloatArith>(&mut self, host: &F) -> (r: &Vec<Token>)
        requires
            old(self).wf(),
        ensures
            final(self).wf(),
            final(self).text() == old(self).text(),
            token_models(final(self).token_list()) == token_models(old(self).token_list()) + lex(
                old(self).text(),
                old(self).position(),
            ),
            final(self).diagnostic_list().map_values(|d: String| d@) == old(self).diagnostic_list().map_values(
                |d: String| d@,
            ) + lex_diagnostics(old(self).text(), old(self).position()),
            forall|k: int|
                old(self).token_list().len() <= k < final(self).token_list().len() ==> literal_fits(
                    #[trigger] final(self).token_list()[k].tokentype,
                    final(self).token_list()[k].lexeme@,
                    final(self).token_list()[k].literal@,
                ),
            r@ == final(self).token_list(),
    {
        let ghost s = self.chars@;
        let ghost t0 = token_models(self.tokens@);
        let ghost d0 = self.diagnostics@.map_values(|d: String| d@);
        let ghost p0 = self.current as int;
        let ghost n0 = self.tokens@.len();
        while self.current < self.chars.len()
            invariant
                self.wf(),
                self.chars@ == s,
                n0 <= self.tokens@.len(),
                t0 + lex(s, p0) == token_models(self.tokens@) + lex(s, self.current as int),
                d0 + lex_diagnostics(s, p0) == self.diagnostics@.map_values(|d: String| d@)
                    + lex_diagnostics(s, self.current as int),
                forall|k: int|
                    n0 <= k < self.tokens@.len() ==> literal_fits(
                        #[trigger] self.tokens@[k].tokentype,
                        self.tokens@[k].lexeme@,
                        self.tokens@[k].literal@,
                    ),
            decreases self.chars.len() - self.current,
        {
            self.start = self.current;
            let ghost tm = token_models(self.tokens@);
            let ghost dm = self.diagnostics@.map_values(|d: String| d@);
            let ghost i = self.current as int;
            self.scan_token(host);
            proof {
                let st = step(s, i);
                lemma_step_advances(s, i);
                match st.token {
                    Some(t) => {
                        assert(token_models(self.tokens@) =~= tm.push(t));
                        assert(lex(s, i) == seq![t] + lex(s, st.next));
                        assert(tm + lex(s, i) =~= tm.push(t) + lex(s, st.next));
                    },
                    None => {
                        assert(token_models(self.tokens@) =~= tm);
                    },
                }
                match st.diagnostic {
                    Some(d) => {
                        assert(self.diagnostics@.map_values(|d: String| d@) =~= dm.push(d));
                        assert(dm + lex_diagnostics(s, i) =~= dm.push(d) + lex_diagnostics(
                            s,
                            st.next,
                        ));
                    },
                    None => {
                        assert(self.diagnostics@.map_values(|d: String| d@) =~= dm);
                    },
                }
            }
        }
        let ghost tm = token_models(self.tokens@);
        let eof = Token::new(Tokentype::Eof, String::new(), Object::Null, self.line);
        self.tokens.push(eof);
        proof {
            assert(token_models(self.tokens@) =~= tm.push(eof.model()));
            assert(eof.model() == TokenModel {
                kind: Tokentype::Eof,
                text: Seq::empty(),
                line: line_at(s, s.len() as int),
            });
            assert(lex(s, self.current as int) =~= seq![eof.model()]);
            assert(t0 + lex(s, p0) =~= tm.push(eof.model()));
            assert(lex_diagnostics(s, self.current as int) =~= Seq::<Seq<char>>::empty());
            assert(d0 + lex_diagnostics(s, p0) =~= self.diagnostics@.map_values(|d: String| d@));
        }
        &self.tokens
    }

    /// The scanned tokens and the diagnostics, taken out of the scanner.
    pub fn into_parts(self) -> (r: (Vec<Token>, Vec<String>))
        ensures
            r.0@ == self.token_list(),
            r.1@ == self.diagnostic_list(),
    {
        (self.tokens, self.diagnostics)
    }

    /// Scans the one lexeme that starts at `start`.
    fn scan_token<F: FloatArith>(&mut self, host: &F)
        requires
            old(self).wf(),
            old(self).start == old(self).current,
            old(self).current < old(self).chars.len(),
        ensures
            final(self).wf(),
            final(self).chars@ == old(self).chars@,
            ({
                let st = step(old(self).chars@, old(self).current as int);
                &&& final(self).current == st.next
                &&& match st.token {
                    Some(t) => final(self).tokens@ == old(self).tokens@.push(
                        final(self).tokens@.last(),
                    ) && final(self).tokens@.last().model() == t && literal_fits(
                        t.kind,
                        t.text,
                        final(self).tokens@.last().literal@,
                    ),
                    None => final(self).tokens@ == old(self).tokens@,
                }
                &&& match st.diagnostic {
                    Some(d) => final(self).diagnostics@ == old(self).diagnostics@.push(
                        final(self).diagnostics@.last(),
                    ) && final(self).diagnostics@.last()@ == d,
                    None => final(self).diagnostics@ == old(self).diagnostics@,
                }
            }),
    {
        let ghost s = self.chars@;
        let ghost i = self.current as int;
        let c = self.advance();
        if c == '(' {
            self.add_token(Tokentype::LeftParen);
        } else if c == ')' {
            self.add_token(Tokentype::RightParen);
        } else if c == '{' {
            self.add_token(Tokentype::LeftBrace);
        } else if c == '}' {
            self.add_token(Tokentype::RightBrace);
        } else if c == ',' {
            self.add_token(Tokentype::Comma);
        } else if c == '.' {
            self.add_token(Tokentype::Dot);
        } else if c == '-' {
            self.add_token(Tokentype::Minus);
        } else if c == '+' {
            self.add_token(Tokentype::Plus);
        } else if c == ';' {
            self.add_token(Tokentype::Semicolon);
        } else if c == '*' {
            self.add_token(Tokentype::Star);
        } else if c == '/' {
            if self.check_next_char('/') {
                self.skip_line();
            } else if self.check_next_char('*') {
                self.multi_line_comment();
            } else {
                self.add_token(Tokentype::Slash);
            }
        } else if c == '!' {
            self.check_next_char_and_add_token(Tokentype::Bang, Tokentype::BangEqual);
        } else if c == '=' {
            self.check_next_char_and_add_token(Tokentype::Equal, Tokentype::EqualEqual);
        } else if c == '<' {
            self.check_next_char_and_add_token(Tokentype::Less, Tokentype::LessEqual);
        } else if c == '>' {
            self.check_next_char_and_add_token(Tokentype::Greater, Tokentype::GreaterEqual);
        } else if c == '"' {
            self.string();
            proof {
                lemma_find_char(s, i + 1, '"');
                let j = find_char(s, i + 1, '"');
                if j < s.len() {
                    assert(s.subrange(i, j + 1).subrange(1, j - i) =~= s.subrange(i + 1, j));
                }
            }
        } else if c == ' ' || c == '\r' || c == '\t' || c == '\n' {
        } else if is_digit(c) {
            self.number(host);
        } else if is_alpha(c) {
            self.identifier();
        } else {
            proof {
                lemma_line_step(s, i);
            }
            let d = error_text(self.line, "Unexpected token.");
            self.diagnostics.push(d);
        }
    }

    fn is_at_end(&self) -> (r: bool)
        ensures
            r == (self.current >= self.chars.len()),
    {
        self.current >= self.chars.len()
    }

    /// Moves one character on and returns the character passed.
    fn advance(&mut self) -> (c: char)
        requires
            old(self).wf(),
            old(self).current < old(self).chars.len(),
        ensures
            final(self).wf(),
            c == old(self).chars@[old(self).current as int],
            final(self).current == old(self).current + 1,
            final(self).start == old(self).start,
            final(self).chars@ == old(self).chars@,
            final(self).tokens@ == old(self).tokens@,
            final(self).diagnostics@ == old(self).diagnostics@,
    {
        let c = self.chars[self.current];
        proof {
            lemma_line_step(self.chars@, self.current as int);
            lemma_newlines_bound(self.chars@.take(self.current as int));
        }
        if c == '\n' {
            self.line = self.line + 1;
        }
        self.current = self.current + 1;
        c
    }

    /// The character at `current`, or `'\0'` at the end.
    fn peek(&self) -> (c: char)
        ensures
            self.current < self.chars.len() ==> c == self.chars@[self.current as int],
            self.current >= self.chars.len() ==> c == '\0',
    {
        if self.is_at_end() {
            '\0'
        } else {
            self.chars[self.current]
        }
    }

    /// The character after `current`, or `'\0'` past the end.
    fn peek_next(&self) -> (c: char)
        requires
            self.wf(),
        ensures
            self.current + 1 < self.chars.len() ==> c == self.chars@[self.current + 1],
            self.current + 1 >= self.chars.len() ==> c == '\0',
    {
        if self.current + 1 >= self.chars.len() {
            '\0'
        } else {
            self.chars[self.current + 1]
        }
    }

    /// Consumes the next character if it is `expected`.
    fn check_next_char(&mut self, expected: char) -> (r: bool)
        requires
            old(self).wf(),
        ensures
            final(self).wf(),
            r == (old(self).current < old(self).chars.len() && old(self).chars@[old(
                self,
            ).current as int] == expected),
            final(self).current == old(self).current + if r {
                1int
            } else {
                0int
            },
            final(self).start == old(self).start,
            final(self).chars@ == old(self).chars@,
            final(self).tokens@ == old(self).tokens@,
            final(self).diagnostics@ == old(self).diagnostics@,
    {
        if self.is_at_end() {
            return false;
        }
        if self.chars[self.current] != expected {
            return false;
        }
        self.advance();
        true
    }

    /// Adds a token of the given kind for the text from `start` to `current`,
    /// with no literal.
    fn add_token(&mut self, tokentype: Tokentype)
        requires
            old(self).wf(),
        ensures
            final(self).wf(),
            final(self).current == old(self).current,
            final(self).chars@ == old(self).chars@,
            final(self).tokens@ == old(self).tokens@.push(final(self).tokens@.last()),
            final(self).tokens@.last().model() == (TokenModel {
                kind: tokentype,
                text: old(self).chars@.subrange(old(self).start as int, old(self).current as int),
                line: line_at(old(self).chars@, old(self).current as int),
            }),
            final(self).tokens@.last().literal@ == Val::Null,
            final(self).diagnostics@ == old(self).diagnostics@,
    {
        self.add_token_with_literal(tokentype, Object::Null);
    }

    /// Adds a token for the text from `start` to `current` with a literal.
    fn add_token_with_literal(&mut self, tokentype: Tokentype, literal: Object)
        requires
            old(self).wf(),
        ensures
            final(self).wf(),
            final(self).current == old(self).current,
            final(self).chars@ == old(self).chars@,
            final(self).tokens@ == old(self).tokens@.push(final(self).tokens@.last()),
            final(self).tokens@.last().model() == (TokenModel {
                kind: tokentype,
                text: old(self).chars@.subrange(old(self).start as int, old(self).current as int),
                line: line_at(old(self).chars@, old(self).current as int),
            }),
            final(self).tokens@.last().literal@ == literal@,
            final(self).diagnostics@ == old(self).diagnostics@,
    {
        let text = text_of(&self.chars, self.start, self.current);
        let token = Token::new(tokentype, text, literal, self.line);
        self.tokens.push(token);
    }

    /// Adds `large` where the next character is `=` (consuming it), else `small`.
    fn check_next_char_and_add_token(&mut self, small: Tokentype, large: Tokentype)
        requires
            old(self).wf(),
        ensures
            final(self).wf(),
            ({
                let p = old(self).current as int;
                let two = p < old(self).chars.len() && old(self).chars@[p] == '=';
                let end = if two {
                    p + 1
                } else {
                    p
                };
                &&& final(self).current == end
                &&& final(self).tokens@ == old(self).tokens@.push(final(self).tokens@.last())
                &&& final(self).tokens@.last().model() == (TokenModel {
                    kind: if two {
                        large
                    } else {
                        small
                    },
                    text: old(self).chars@.subrange(old(self).start as int, end),
                    line: line_at(old(self).chars@, end),
                })
                &&& final(self).tokens@.last().literal@ == Val::Null
            }),
            final(self).chars@ == old(self).chars@,
            final(self).diagnostics@ == old(self).diagnostics@,
    {
        if self.check_next_char('=') {
            self.add_token(large);
        } else {
            self.add_token(small);
        }
    }

    /// Skips the rest of a line comment, up to the newline.
    fn skip_line(&mut self)
        requires
            old(self).wf(),
        ensures
            final(self).wf(),
            final(self).current == find_char(old(self).chars@, old(self).current as int, '\n'),
            final(self).chars@ == old(self).chars@,
            final(self).tokens@ == old(self).tokens@,
            final(self).diagnostics@ == old(self).diagnostics@,
    {
        let ghost s = self.chars@;
        let ghost p = self.current as int;
        while !self.is_at_end() && self.peek() != '\n'
            invariant
                self.wf(),
                self.chars@ == s,
                p <= self.current,
                find_char(s, p, '\n') == find_char(s, self.current as int, '\n'),
                self.tokens@ == old(self).tokens@,
                self.diagnostics@ == old(self).diagnostics@,
            decreases self.chars.len() - self.current,
        {
            self.advance();
        }
    }

    /// Skips a block comment through its closing `*/`, or to the end.
    fn multi_line_comment(&mut self)
        requires
            old(self).wf(),
        ensures
            final(self).wf(),
            ({
                let j = comment_close(old(self).chars@, old(self).current as int);
                final(self).current == if j < old(self).chars.len() {
                    j + 2
                } else {
                    old(self).chars.len() as int
                }
            }),
            final(self).chars@ == old(self).chars@,
            final(self).tokens@ == old(self).tokens@,
            final(self).diagnostics@ == old(self).diagnostics@,
    {
        let ghost s = self.chars@;
        let ghost p = self.current as int;
        while !self.is_at_end() && !(self.peek() == '*' && self.peek_next() == '/')
            invariant
                self.wf(),
                self.chars@ == s,
                p <= self.current,
                comment_close(s, p) == comment_close(s, self.current as int),
                self.tokens@ == old(self).tokens@,
                self.diagnostics@ == old(self).diagnostics@,
            decreases self.chars.len() - self.current,
        {
            self.advance();
        }
        if !self.is_at_end() {
            self.advance();
            self.advance();
        }
    }

    /// Scans a string literal whose opening quote has been consumed.
    fn string(&mut self)
        requires
            old(self).wf(),
            old(self).start + 1 == old(self).current,
            old(self).chars@[old(self).start as int] == '"',
        ensures
            final(self).wf(),
            final(self).chars@ == old(self).chars@,
            ({
                let s = old(self).chars@;
                let j = find_char(s, old(self).current as int, '"');
                if j < s.len() {
                    &&& final(self).current == j + 1
                    &&& final(self).tokens@ == old(self).tokens@.push(final(self).tokens@.last())
                    &&& final(self).tokens@.last().model() == (TokenModel {
                        kind: Tokentype::String,
                        text: s.subrange(old(self).start as int, j + 1),
                        line: line_at(s, j + 1),
                    })
                    &&& final(self).tokens@.last().literal@ == Val::Str(
                        s.subrange(old(self).start + 1, j),
                    )
                    &&& final(self).diagnostics@ == old(self).diagnostics@
                } else {
                    &&& final(self).current == s.len()
                    &&& final(self).tokens@ == old(self).tokens@
                    &&& final(self).diagnostics@ == old(self).diagnostics@.push(
                        final(self).diagnostics@.last(),
                    )
                    &&& final(self).diagnostics@.last()@ == error_line(
                        line_at(s, s.len() as int),
                        "Unterminated string."@,
                    )
                }
            }),
    {
        let ghost s = self.chars@;
        let ghost p = self.current as int;
        while !self.is_at_end() && self.peek() != '"'
            invariant
                self.wf(),
                self.chars@ == s,
                p <= self.current,
                self.start + 1 == p,
                find_char(s, p, '"') == find_char(s, self.current as int, '"'),
                self.tokens@ == old(self).tokens@,
                self.diagnostics@ == old(self).diagnostics@,
            decreases self.chars.len() - self.current,
        {
            self.advance();
        }
        if self.is_at_end() {
            let d = error_text(self.line, "Unterminated string.");
            self.diagnostics.push(d);
            return;
        }
        self.advance();
        let value = text_of(&self.chars, self.start + 1, self.current - 1);
        self.add_token_with_literal(Tokentype::String, Object::StringValue(value));
    }

    /// Consumes a run of digits.
    fn digits(&mut self)
        requires
            old(self).wf(),
        ensures
            final(self).wf(),
            final(self).current == digits_end(old(self).chars@, old(self).current as int),
            final(self).start == old(self).start,
            final(self).chars@ == old(self).chars@,
            final(self).tokens@ == old(self).tokens@,
            final(self).diagnostics@ == old(self).diagnostics@,
    {
        let ghost s = self.chars@;
        let ghost p = self.current as int;
        while !self.is_at_end() && is_digit(self.peek())
            invariant
                self.wf(),
                self.chars@ == s,
                self.start == old(self).start,
                p <= self.current,
                digits_end(s, p) == digits_end(s, self.current as int),
                self.tokens@ == old(self).tokens@,
                self.diagnostics@ == old(self).diagnostics@,
            decreases self.chars.len() - self.current,
        {
            self.advance();
        }
    }

    /// The value of the digits from `start` to `current`, or `None` where it
    /// exceeds the largest integer.
    fn integer_value(&self) -> (r: Option<i64>)
        requires
            self.wf(),
            forall|k: int| self.start <= k < self.current ==> is_digit_char(#[trigger] self.chars@[k]),
        ensures
            ({
                let v = digits_value(self.chars@.subrange(self.start as int, self.current as int));
                &&& r is Some <==> v <= i64::MAX
                &&& r matches Some(x) ==> x == v
            }),
    {
        let ghost q = self.chars@.subrange(self.start as int, self.current as int);
        let mut k: usize = self.start;
        let mut v: i64 = 0;
        while k < self.current
            invariant
                self.start <= k <= self.current <= self.chars.len(),
                q == self.chars@.subrange(self.start as int, self.current as int),
                forall|j: int| 0 <= j < q.len() ==> is_digit_char(#[trigger] q[j]),
                v == digits_value(q.take(k - self.start)),
                v >= 0,
            decreases self.current - k,
        {
            assert(q[k - self.start] == self.chars@[k as int]);
            let d = (self.chars[k] as u32 - '0' as u32) as i64;
            proof {
                assert(q.take(k - self.start + 1).drop_last() =~= q.take(k - self.start));
                assert(q.take(k - self.start + 1).last() == self.chars@[k as int]);
            }
            if v > (i64::MAX - d) / 10 {
                proof {
                    lemma_digits_value_grows(q, k - self.start + 1);
                    assert(digits_value(q.take(k - self.start + 1)) == v * 10 + d);
                    assert(v * 10 + d > i64::MAX) by (nonlinear_arith)
                        requires
                            v > (i64::MAX - d) / 10,
                            0 <= d <= 9,
                    ;
                }
                return None;
            }
            proof {
                assert(v * 10 + d <= i64::MAX) by (nonlinear_arith)
                    requires
                        v <= (i64::MAX - d) / 10,
                        0 <= d <= 9,
                        v >= 0,
                ;
                lemma_digits_value_grows(q, k - self.start);
            }
            v = v * 10 + d;
            k = k + 1;
        }
        proof {
            assert(q.take(k - self.start) =~= q);
        }
        Some(v)
    }

    /// Scans a number whose first digit has been consumed.
    fn number<F: FloatArith>(&mut self, host: &F)
        requires
            old(self).wf(),
            old(self).start + 1 == old(self).current,
            is_digit_char(old(self).chars@[old(self).start as int]),
        ensures
            final(self).wf(),
            final(self).chars@ == old(self).chars@,
            ({
                let s = old(self).chars@;
                let i = old(self).start as int;
                let st = step(s, i);
                &&& final(self).current == st.next
                &&& match st.token {
                    Some(t) => final(self).tokens@ == old(self).tokens@.push(
                        final(self).tokens@.last(),
                    ) && final(self).tokens@.last().model() == t && literal_fits(
                        t.kind,
                        t.text,
                        final(self).tokens@.last().literal@,
                    ),
                    None => final(self).tokens@ == old(self).tokens@,
                }
                &&& match st.diagnostic {
                    Some(d) => final(self).diagnostics@ == old(self).diagnostics@.push(
                        final(self).diagnostics@.last(),
                    ) && final(self).diagnostics@.last()@ == d,
                    None => final(self).diagnostics@ == old(self).diagnostics@,
                }
            }),
    {
        let ghost s = self.chars@;
        let ghost i = self.start as int;
        proof {
            assert(digits_end(s, i) == digits_end(s, i + 1));
        }
        self.digits();
        let ghost j = self.current as int;
        proof {
            lemma_digits_end(s, i);
        }
        if self.peek() == '.' && is_digit(self.peek_next()) {
            self.advance();
            proof {
                assert(digits_end(s, j + 1) == digits_end(s, j + 2));
            }
            self.digits();
            proof {
                lemma_digits_end(s, j + 1);
            }
            let text = text_of(&self.chars, self.start, self.current);
            let bits = host.parse_decimal(text.as_str());
            self.add_token_with_literal(Tokentype::Number, Object::FloatValue(bits));
            proof {
                assert(self.tokens@.last().lexeme@[j - i] == '.');
            }
            return;
        }
        match self.integer_value() {
            Some(v) => {
                self.add_token_with_literal(Tokentype::Number, Object::IntValue(v));
                proof {
                    let text = s.subrange(i, j);
                    if text.contains('.') {
                        let k = choose|k: int| 0 <= k < text.len() && text[k] == '.';
                        assert(is_digit_char(s[i + k]));
                    }
                }
            },
            None => {
                let d = error_text(self.line, "Number out of range.");
                self.diagnostics.push(d);
            },
        }
    }

    /// Whether the text from `start` to `current` is the word `k`.
    fn word_is(&self, k: &str) -> (r: bool)
        requires
            self.wf(),
        ensures
            r == (self.chars@.subrange(self.start as int, self.current as int) == k@),
    {
        let n = k.unicode_len();
        if self.current - self.start != n {
            return false;
        }
        let mut i: usize = 0;
        while i < n
            invariant
                0 <= i <= n,
                n == k@.len(),
                self.current - self.start == n,
                self.start <= self.current <= self.chars.len(),
                forall|j: int| 0 <= j < i ==> self.chars@[self.start + j] == k@[j],
            decreases n - i,
        {
            if self.chars[self.start + i] != k.get_char(i) {
                proof {
                    let w = self.chars@.subrange(self.start as int, self.current as int);
                    assert(w[i as int] != k@[i as int]);
                }
                return false;
            }
            i = i + 1;
        }
        proof {
            assert(self.chars@.subrange(self.start as int, self.current as int) =~= k@);
        }
        true
    }

    /// The kind of the word from `start` to `current`.
    fn word_kind(&self) -> (r: Tokentype)
        requires
            self.wf(),
        ensures
            r == keyword_kind(self.chars@.subrange(self.start as int, self.current as int)),
    {
        if self.word_is("and") {
            Tokentype::And
        } else if self.word_is("class") {
            Tokentype::Class
        } else if self.word_is("else") {
            Tokentype::Else
        } else if self.word_is("false") {
            Tokentype::False
        } else if self.word_is("for") {
            Tokentype::For
        } else if self.word_is("fun") {
            Tokentype::Fun
        } else if self.word_is("if") {
            Tokentype::If
        } else if self.word_is("nil") {
            Tokentype::Nil
        } else if self.word_is("or") {
            Tokentype::Or
        } else if self.word_is("print") {
            Tokentype::Print
        } else if self.word_is("return") {
            Tokentype::Return
        } else if self.word_is("super") {
            Tokentype::Super
        } else if self.word_is("this") {
            Tokentype::This
        } else if self.word_is("true") {
            Tokentype::True
        } else if self.word_is("var") {
            Tokentype::Var
        } else if self.word_is("while") {
            Tokentype::While
        } else {
            Tokentype::Identifier
        }
    }

    /// Scans an identifier or keyword whose first character has been consumed.
    fn identifier(&mut self)
        requires
            old(self).wf(),
            old(self).start + 1 == old(self).current,
            is_alpha_char(old(self).chars@[old(self).start as int]),
        ensures
            final(self).wf(),
            final(self).chars@ == old(self).chars@,
            ({
                let s = old(self).chars@;
                let i = old(self).start as int;
                let j = word_end(s, i);
                &&& final(self).current == j
                &&& final(self).tokens@ == old(self).tokens@.push(final(self).tokens@.last())
                &&& final(self).tokens@.last().model() == (TokenModel {
                    kind: keyword_kind(s.subrange(i, j)),
                    text: s.subrange(i, j),
                    line: line_at(s, j),
                })
                &&& final(self).tokens@.last().literal@ == Val::Null
            }),
            final(self).diagnostics@ == old(self).diagnostics@,
    {
        let ghost s = self.chars@;
        let ghost i = self.start as int;
        proof {
            assert(word_end(s, i) == word_end(s, i + 1));
        }
        while !self.is_at_end() && is_alpha_numeric(self.peek())
            invariant
                self.wf(),
                self.chars@ == s,
                self.start == i,
                i < self.current,
                word_end(s, i) == word_end(s, self.current as int),
                self.tokens@ == old(self).tokens@,
                self.diagnostics@ == old(self).diagnostics@,
            decreases self.chars.len() - self.current,
        {
            self.advance();
        }
        let kind = self.word_kind();
        self.add_token(kind);
    }
}

} // verus!
