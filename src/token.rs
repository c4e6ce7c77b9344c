use vstd::prelude::*;

verus! {

/// A classified unit of source text.
#[derive(Debug, PartialEq)]
pub enum TokenType {
    /// A name from the reserved-word set.
    Keyword(String),
    /// Any other name of the form `[A-Za-z_][A-Za-z0-9_]*`.
    Identifier(String),
    /// The value of a maximal run of decimal digits.
    Number(i64),
    /// Reserved for string literals; the scanner never produces it.
    StringLiteral(String),
    /// One of `+ - * / % =`.
    Operator(String),
    /// One of `( ) { } [ ] , ;`.
    Separator(char),
    /// The end of the input; always the last token, and the only one of its kind.
    EOF,
}

/// The mathematical content of a token: names as character sequences,
/// numbers as integers.
pub enum TokenView {
    Keyword(Seq<char>),
    Identifier(Seq<char>),
    Number(int),
    StringLiteral(Seq<char>),
    Operator(Seq<char>),
    Separator(char),
    EOF,
}

impl View for TokenType {
    type V = TokenView;

    open spec fn view(&self) -> TokenView {
        match self {
            TokenType::Keyword(s) => TokenView::Keyword(s@),
            TokenType::Identifier(s) => TokenView::Identifier(s@),
            TokenType::Number(n) => TokenView::Number(*n as int),
            TokenType::StringLiteral(s) => TokenView::StringLiteral(s@),
            TokenType::Operator(s) => TokenView::Operator(s@),
            TokenType::Separator(c) => TokenView::Separator(*c),
            TokenType::EOF => TokenView::EOF,
        }
    }
}

/// The view of each token of a sequence, in order.
pub open spec fn tokens_view(v: Seq<TokenType>) -> Seq<TokenView> {
    v.map_values(|t: TokenType| t@)
}

/// Why a scan was abandoned.
#[derive(Debug, Clone, Copy, PartialEq, Eq, Structural)]
pub enum LexError {
    /// A character outside every recognised class.
    UnknownCharacter(char),
    /// A name that would begin with a digit.
    IdentifierStartsWithDigit,
    /// A run of digits whose value exceeds `i64::MAX`.
    NumeralOverflow,
}

} // verus!
