use vstd::prelude::*;

use crate::value::{Object, Val};

verus! {

/// The kinds of lexical tokens.
#[derive(Clone, Copy, Debug, PartialEq, Eq, Structural)]
pub enum Tokentype {
    // Single-character tokens.
    LeftParen,
    RightParen,
    LeftBrace,
    RightBrace,
    Comma,
    Dot,
    Minus,
    Plus,
    Semicolon,
    Slash,
    Star,
    // One or two character tokens.
    Bang,
    BangEqual,
    Equal,
    EqualEqual,
    Greater,
    GreaterEqual,
    Less,
    LessEqual,
    // Literals.
    Identifier,
    String,
    Number,
    // Keywords.
    And,
    Class,
    Else,
    False,
    Fun,
    For,
    If,
    Nil,
    Or,
    Print,
    Return,
    Super,
    This,
    True,
    Var,
    While,
    Eof,
}

/// A token: its kind, its text in the source, its literal value (for number
/// and string tokens) and the line it ends on.
#[derive(Clone, Debug)]
pub struct Token {
    pub tokentype: Tokentype,
    pub lexeme: String,
    pub literal: Object,
    pub line: usize,
}

/// What a token is, apart from its literal value.
pub struct TokenModel {
    pub kind: Tokentype,
    pub text: Seq<char>,
    pub line: int,
}

impl Token {
    pub fn new(tokentype: Tokentype, lexeme: String, literal: Object, line: usize) -> (r: Token)
        ensures
            r.tokentype == tokentype,
            r.lexeme@ == lexeme@,
            r.literal@ == literal@,
            r.line == line,
    {
        Token { tokentype, lexeme, literal, line }
    }

    pub open spec fn model(&self) -> TokenModel {
        TokenModel { kind: self.tokentype, text: self.lexeme@, line: self.line as int }
    }

    /// A copy of the token.
    pub fn duplicate(&self) -> (r: Token)
        ensures
            r == *self,
            r.model() == self.model(),
            r.literal@ == self.literal@,
    {
        Token {
            tokentype: self.tokentype,
            lexeme: self.lexeme.clone(),
            literal: self.literal.duplicate(),
            line: self.line,
        }
    }
}

/// The models of a sequence of tokens.
pub open spec fn token_models(ts: Seq<Token>) -> Seq<TokenModel> {
    ts.map_values(|t: Token| t.model())
}

/// The literals of a sequence of tokens.
pub open spec fn token_literals(ts: Seq<Token>) -> Seq<Val> {
    ts.map_values(|t: Token| t.literal@)
}

} // verus!
