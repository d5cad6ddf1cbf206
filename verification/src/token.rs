//! The tokens of a program text.

use vstd::prelude::*;

verus! {

/// A token; the text of a name, keyword or separator is a piece of the
/// program text.
#[derive(Debug, Clone, Copy, PartialEq, Eq)]
pub enum Token<'a> {
    /// A number.
    Number(i32),
    /// A name.
    Ident(&'a str),
    /// One of `BEGIN`, `END`, `PROCEDURE`, `WHILE`, `DO`, `IF`, `THEN`,
    /// `CALL`, `ODD`, `VAR`, `CONST`.
    Keyword(&'a str),
    /// One of `:=`, `>=`, `<=`, `,`, `;`, `=`, `>`, `<`, `+`, `-`, `*`, `/`,
    /// `#`, `.`, `!`, `?`, `(`, `)`.
    Separator(&'a str),
}

/// What a token says.
pub enum TokenView {
    Number(i32),
    Ident(Seq<char>),
    Keyword(Seq<char>),
    Separator(Seq<char>),
}

impl<'a> View for Token<'a> {
    type V = TokenView;

    open spec fn view(&self) -> TokenView {
        match *self {
            Token::Number(n) => TokenView::Number(n),
            Token::Ident(text) => TokenView::Ident(text@),
            Token::Keyword(text) => TokenView::Keyword(text@),
            Token::Separator(text) => TokenView::Separator(text@),
        }
    }
}

/// The views of a list of tokens.
pub open spec fn token_views(tokens: Seq<Token>) -> Seq<TokenView> {
    Seq::new(tokens.len(), |i: int| tokens[i]@)
}

} // verus!
