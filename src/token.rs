use vstd::prelude::*;

verus! {

/// The kinds of token that the lexer recognises.
#[derive(Clone, Copy, Debug, PartialEq, Eq, Structural)]
pub enum Token {
    /// A name: a letter, then letters, digits and `_`.
    Ident,
    /// A quoted character such as `'+'`.
    Char,
    /// A run of decimal digits.
    Number,
    /// A double-quoted string, quotes included.
    String,
    /// A type name between angle brackets, such as `<val>`.
    Type,
    /// A `%` followed by a name, such as `%token`.
    Directive,
    /// A brace-balanced block of code, outer braces included.
    Code,
    /// A `%{ ... %}` block.
    Prologue,
    /// Everything from the second `%%` to the end of the input.
    Epilogue,
    /// The first `%%`.
    PercentPercent,
    /// `=`
    Equal,
    /// `|`
    Bar,
    /// `:`
    Colon,
    /// `;`
    SemiColon,
    /// Text that forms no token.
    Error,
}

/// A token with the half-open range `start..end` of input positions that it covers.
#[derive(Clone, Copy, Debug, PartialEq, Eq, Structural)]
pub struct Spanned {
    pub data: Token,
    pub start: usize,
    pub end: usize,
}

impl Spanned {
    /// A token of kind `data` over `start..end`.
    pub fn new(data: Token, start: usize, end: usize) -> (r: Spanned)
        ensures
            r == (Spanned { data, start, end }),
    {
        Spanned { data, start, end }
    }
}

} // verus!
