use vstd::prelude::*;

verus! {

/// The kinds of token the scanner produces.
#[derive(Debug, Clone, Copy, PartialEq, Eq, Structural)]
pub enum TokenType {
    Keyword,
    Identifier,
    StringLiteral,
    NumericLiteral,
    Operator,
    LParen,
    RParen,
    Semicolon,
}

/// A classified lexeme: its kind, the text it spans in the input, and the
/// zero-based line and column of its first character.
#[derive(Debug, Clone, Copy)]
pub struct Token<'input> {
    pub(crate) type_: TokenType,
    pub(crate) text: &'input str,
    pub(crate) line: usize,
    pub(crate) col: usize,
}

/// The abstract content of a token.
pub struct TokenView {
    pub kind: TokenType,
    pub text: Seq<char>,
    pub line: nat,
    pub col: nat,
}

impl<'input> View for Token<'input> {
    type V = TokenView;

    closed spec fn view(&self) -> TokenView {
        TokenView {
            kind: self.type_,
            text: self.text@,
            line: self.line as nat,
            col: self.col as nat,
        }
    }
}

impl<'input> Token<'input> {
    /// Creates a token; only the scanner does this.
    pub(crate) fn new(type_: TokenType, text: &'input str, line: usize, col: usize) -> (r: Self)
        ensures
            r@ == (TokenView { kind: type_, text: text@, line: line as nat, col: col as nat }),
    {
        Token { type_, text, line, col }
    }

    /// The kind of the token.
    pub fn token_type(&self) -> (r: TokenType)
        ensures
            r == self@.kind,
    {
        self.type_
    }

    /// The text of the token, borrowed from the scanned input.
    pub fn text(&self) -> (r: &str)
        ensures
            r@ == self@.text,
    {
        self.text
    }

    /// The line and column of the token's first character.
    pub fn pos(&self) -> (r: (usize, usize))
        ensures
            r.0 as nat == self@.line,
            r.1 as nat == self@.col,
    {
        (self.line, self.col)
    }
}

/// A lexical error, with the offending character and its position.
#[derive(Debug, Clone, Copy, PartialEq, Eq, Structural)]
pub enum LexerError {
    /// A character that can start no token.
    UnrecognizedStart { character: char, line: usize, col: usize },
    /// A backslash in a string literal followed by something other than `"`;
    /// `character` is what followed it.
    InvalidEscape { character: char, line: usize, col: usize },
}

/// Where the scanner stands: still producing tokens, or stopped for good.
#[derive(Debug, Clone, Copy, PartialEq, Eq, Structural)]
pub enum LexerStatus {
    Okay,
    EndOfStream,
    Error(LexerError),
}

pub open spec fn unrecognized_prefix() -> Seq<char> {
    "Unrecognized start character, '"@
}

pub open spec fn invalid_escape_prefix() -> Seq<char> {
    "Invalid escape in string, \"\\"@
}

impl LexerError {
    /// The text that `message` renders.
    pub open spec fn message_view(self) -> Seq<char> {
        match self {
            LexerError::UnrecognizedStart { character, .. } => unrecognized_prefix() + seq![character]
                + "'."@,
            LexerError::InvalidEscape { character, .. } => invalid_escape_prefix() + seq![character]
                + "\"."@,
        }
    }

    /// A human-readable description of the error.
    pub fn message(&self) -> (r: String)
        ensures
            r@ == self.message_view(),
    {
        match self {
            LexerError::UnrecognizedStart { character, .. } => {
                let mut m = String::from_str("Unrecognized start character, '");
                push_char(&mut m, *character);
                m.append("'.");
                m
            },
            LexerError::InvalidEscape { character, .. } => {
                let mut m = String::from_str("Invalid escape in string, \"\\");
                push_char(&mut m, *character);
                m.append("\".");
                m
            },
        }
    }
}

/// Relies on `String::push`: appends the one character at the end.
#[verifier::external_body]
fn push_char(s: &mut String, c: char)
    ensures
        final(s)@ == old(s)@.push(c),
{
    s.push(c)
}

} // verus!
