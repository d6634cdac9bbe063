use vstd::prelude::*;

verus! {

/// The kind of a token.
#[derive(Debug, Copy, Clone, PartialEq, Eq, Structural)]
pub enum TokenType {
    Unknown,
    Word,
    OpenBrace,
    CloseBrace,
    Eof,
}

impl Default for TokenType {
    fn default() -> (r: Self)
        ensures
            r == TokenType::Unknown,
    {
        TokenType::Unknown
    }
}

/// One token: its kind, the text of a word (empty for the other kinds), and
/// the byte offsets of its first byte and of the byte after it.
#[derive(Debug, Copy, Clone)]
pub struct Token<'a> {
    pub typ: TokenType,
    pub word: &'a str,
    pub start: usize,
    pub end: usize,
}

/// What a token is, as a value.
pub ghost struct TokenView {
    pub typ: TokenType,
    pub word: Seq<char>,
    pub start: int,
    pub end: int,
}

impl<'a> View for Token<'a> {
    type V = TokenView;

    open spec fn view(&self) -> TokenView {
        TokenView { typ: self.typ, word: self.word@, start: self.start as int, end: self.end as int }
    }
}

} // verus!
