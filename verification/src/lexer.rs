//! Tokens and the routines that produce them from source text.

use std::ops::Index;
use std::slice::SliceIndex;
use vstd::prelude::*;
use vstd::slice::SliceIndexSpec;
use vstd::std_specs::cmp::PartialEqSpecImpl;

pub mod parse;
pub mod text;

verus! {

/// The characters that separate tokens and are never part of one.
#[derive(Debug, Clone, Copy, PartialEq, Eq, Structural, PartialOrd, Ord, Hash)]
pub enum WhiteSpace {
    NewLine,
    Space,
    Tab,
}

impl WhiteSpace {
    /// The kind of white space that a character is, if it is any.
    pub open spec fn of(c: char) -> Option<WhiteSpace> {
        if c == ' ' {
            Some(WhiteSpace::Space)
        } else if c == '\t' {
            Some(WhiteSpace::Tab)
        } else if c == '\n' || c == '\r' {
            Some(WhiteSpace::NewLine)
        } else {
            None
        }
    }

    /// Classifies a byte of source text.
    pub fn recognize(byte: u8) -> (r: Option<WhiteSpace>)
        ensures
            r == if byte < 0x80 {
                WhiteSpace::of(byte as char)
            } else {
                None
            },
    {
        if byte == 0x20 {
            Some(WhiteSpace::Space)
        } else if byte == 0x09 {
            Some(WhiteSpace::Tab)
        } else if byte == 0x0A || byte == 0x0D {
            Some(WhiteSpace::NewLine)
        } else {
            None
        }
    }
}

/// The two forms of number literal.
#[derive(Debug, Clone, Copy, PartialEq, Eq, Structural, PartialOrd, Ord, Hash)]
pub enum Literal {
    /// One or more digits.
    Digits,
    /// Digits, one `.`, digits.
    Float,
}

/// The symbols of the notation, one character each.
#[derive(Debug, Clone, Copy, PartialEq, Eq, Structural, PartialOrd, Ord, Hash)]
pub enum Operator {
    LeftRoundBracket,
    RightRoundBracket,
    Comma,
}

/// What a token is.
#[derive(Debug, Clone, Copy, PartialEq, Eq, Structural, PartialOrd, Ord, Hash)]
pub enum TokenKind {
    /// A letter or `_`, then letters, digits and `_`.
    Identifier,
    Literal(Literal),
    Operator(Operator),
    /// A single character that starts no other token.
    Invalid,
}

/// A piece of the source text together with its kind.
#[derive(Debug, Clone, Copy, Eq, Hash)]
pub struct Token<'src> {
    pub fragment: &'src str,
    pub kind: TokenKind,
}

/// A token as contracts see it: its characters and its kind.
pub struct TokenView {
    pub fragment: Seq<char>,
    pub kind: TokenKind,
}

impl<'src> View for Token<'src> {
    type V = TokenView;

    open spec fn view(&self) -> TokenView {
        TokenView { fragment: self.fragment@, kind: self.kind }
    }
}

impl<'src> DeepView for Token<'src> {
    type V = TokenView;

    open spec fn deep_view(&self) -> TokenView {
        self@
    }
}

impl<'src> PartialEq for Token<'src> {
    fn eq(&self, other: &Self) -> (r: bool) {
        self.kind == other.kind && text::same_text(self.fragment, other.fragment)
    }
}

impl<'src> PartialEqSpecImpl for Token<'src> {
    open spec fn obeys_eq_spec() -> bool {
        true
    }

    open spec fn eq_spec(&self, other: &Self) -> bool {
        self.kind == other.kind && self.fragment@ == other.fragment@
    }
}

/// Why a piece of text was refused.
#[derive(Debug, Clone, Copy, PartialEq, Eq, Structural, Hash)]
pub enum LexErrorKind {
    /// The text does not begin with a character of the wanted class.
    TakeWhile1,
    /// The characters taken do not have the wanted shape.
    Verify,
    /// The text is empty.
    Eof,
}

/// A refusal by one of the tokenizer's routines: the text at which it
/// happened and the reason.
#[derive(Debug, Clone, Copy, PartialEq, Eq, Hash)]
pub struct LexError<'src> {
    pub input: &'src str,
    pub kind: LexErrorKind,
}

impl<'src> LexError<'src> {
    /// A refusal at `input` for the reason `kind`.
    pub fn new(input: &'src str, kind: LexErrorKind) -> (e: LexError<'src>)
        ensures
            e.input == input,
            e.kind == kind,
    {
        LexError { input, kind }
    }
}

impl Operator {
    /// The characters of the symbol.
    pub open spec fn spec_value(self) -> Seq<char> {
        match self {
            Operator::LeftRoundBracket => seq!['('],
            Operator::RightRoundBracket => seq![')'],
            Operator::Comma => seq![','],
        }
    }

    /// The symbol that a text spells, if it spells one.
    pub open spec fn spec_recognize(text: Seq<char>) -> Option<Operator> {
        if text == Operator::LeftRoundBracket.spec_value() {
            Some(Operator::LeftRoundBracket)
        } else if text == Operator::RightRoundBracket.spec_value() {
            Some(Operator::RightRoundBracket)
        } else if text == Operator::Comma.spec_value() {
            Some(Operator::Comma)
        } else {
            None
        }
    }

    /// The symbol as text.
    pub fn value(&self) -> (r: &'static str)
        ensures
            r@ == self.spec_value(),
    {
        proof {
            reveal_strlit("(");
            reveal_strlit(")");
            reveal_strlit(",");
        }
        match self {
            Operator::LeftRoundBracket => {
                assert("("@ =~= seq!['(']);
                "("
            },
            Operator::RightRoundBracket => {
                assert(")"@ =~= seq![')']);
                ")"
            },
            Operator::Comma => {
                assert(","@ =~= seq![',']);
                ","
            },
        }
    }

    /// The table of all symbols: each one once, beside its text.
    pub fn map() -> (table: Vec<(&'static str, Operator)>)
        ensures
            table@.len() == 3,
            table@[0].1 == Operator::LeftRoundBracket,
            table@[1].1 == Operator::RightRoundBracket,
            table@[2].1 == Operator::Comma,
            forall|i: int| 0 <= i < 3 ==> (#[trigger] table@[i]).0@ == table@[i].1.spec_value(),
    {
        let mut table: Vec<(&'static str, Operator)> = Vec::new();
        table.push((Operator::LeftRoundBracket.value(), Operator::LeftRoundBracket));
        table.push((Operator::RightRoundBracket.value(), Operator::RightRoundBracket));
        table.push((Operator::Comma.value(), Operator::Comma));
        table
    }

    /// Looks a text up in the table of symbols.
    pub fn recognize(str: &str) -> (r: Option<Operator>)
        ensures
            r == Operator::spec_recognize(str@),
    {
        let table = Operator::map();
        let mut i: usize = 0;
        while i < table.len()
            invariant
                i <= 3,
                table@.len() == 3,
                table@[0].1 == Operator::LeftRoundBracket,
                table@[1].1 == Operator::RightRoundBracket,
                table@[2].1 == Operator::Comma,
                forall|j: int| 0 <= j < 3 ==> (#[trigger] table@[j]).0@ == table@[j].1.spec_value(),
                forall|j: int| 0 <= j < i ==> str@ != (#[trigger] table@[j]).1.spec_value(),
            decreases 3 - i,
        {
            if text::same_text(table[i].0, str) {
                proof {
                    assert(seq!['('] != seq![')']) by {
                        assert(seq!['('][0] != seq![')'][0]);
                    }
                    assert(seq!['('] != seq![',']) by {
                        assert(seq!['('][0] != seq![','][0]);
                    }
                    assert(seq![')'] != seq![',']) by {
                        assert(seq![')'][0] != seq![','][0]);
                    }
                }
                return Some(table[i].1);
            }
            i += 1;
        }
        None
    }
}

/// The tokens of a source text, in the order of the text.
#[derive(Debug, PartialEq, Eq, Hash)]
pub struct Tokens<'src> {
    tokens: Vec<Token<'src>>,
}

impl<'src> View for Tokens<'src> {
    type V = Seq<Token<'src>>;

    closed spec fn view(&self) -> Seq<Token<'src>> {
        self.tokens@
    }
}

impl<'src> Clone for Tokens<'src> {
    fn clone(&self) -> (res: Self)
        ensures
            res@ == self@,
    {
        Tokens { tokens: vstd::slice::slice_to_vec(self.tokens.as_slice()) }
    }
}

impl<'src, I> Index<I> for Tokens<'src> where I: SliceIndex<[Token<'src>]> {
    type Output = I::Output;

    fn index(&self, index: I) -> (r: &Self::Output)
        ensures
            exists|s: &[Token<'src>]| #[trigger]
                s@ == self@ && call_ensures(
                    <I as SliceIndex<[Token<'src>]>>::index,
                    (index, s),
                    r,
                ),
    {
        &self.tokens[index]
    }
}

impl<'src, I> vstd::std_specs::core::IndexSpecImpl<I> for Tokens<'src> where I: SliceIndex<[Token<'src>]> {
    open spec fn index_req(&self, index: &I) -> bool {
        forall|s: &[Token<'src>]| #[trigger] s@ == self@ ==> index.index_req(s)
    }
}

impl<'src> AsRef<[Token<'src>]> for Tokens<'src> {
    fn as_ref(&self) -> (r: &[Token<'src>])
        ensures
            r@ == self@,
    {
        self.tokens.as_slice()
    }
}

impl<'src> Tokens<'src> {
    /// The given tokens, in their order.
    pub(crate) fn from_vec(tokens: Vec<Token<'src>>) -> (r: Tokens<'src>)
        ensures
            r@ == tokens@,
    {
        Tokens { tokens }
    }

    /// The tokens as a slice.
    pub fn as_slice(&self) -> (r: &[Token<'src>])
        ensures
            r@ == self@,
    {
        self.tokens.as_slice()
    }
}

/// Cuts a source text into its tokens. No text is refused. Every token has
/// the shape of its kind.
pub fn parse(str: &str) -> (r: Result<Tokens<'_>, LexError<'_>>)
    ensures
        r matches Ok(tokens) && parse::tokens_of(tokens@, str@, parse::lexemes(str@, 0)),
        r matches Ok(tokens) ==> forall|i: int|
            0 <= i < tokens@.len() ==> parse::well_formed(
                (#[trigger] tokens@[i]).fragment@,
                tokens@[i].kind,
            ),
{
    proof {
        parse::lemma_lexemes_well_formed(str@, 0);
    }
    match parse::tokens(str) {
        Ok((_, tokens)) => {
            proof {
                let found = parse::lexemes(str@, 0);
                assert forall|i: int| 0 <= i < tokens@.len() implies parse::well_formed(
                    (#[trigger] tokens@[i]).fragment@,
                    tokens@[i].kind,
                ) by {
                    let lexeme = found[i];
                    assert(tokens@[i].kind == lexeme.kind);
                }
            }
            Ok(tokens)
        },
        Err(e) => Err(e),
    }
}

impl<'src> Token<'src> {
    /// A token of the given kind over the given piece of text.
    pub fn new(fragment: &'src str, kind: TokenKind) -> (token: Token<'src>)
        ensures
            token.fragment == fragment,
            token.kind == kind,
    {
        Token { fragment, kind }
    }

    /// The token's text, if the token is of the given kind.
    pub fn fragment_if_kind(&self, kind: TokenKind) -> (r: Option<&'src str>)
        ensures
            r == if self.kind == kind {
                Some(self.fragment)
            } else {
                None::<&str>
            },
    {
        if self.kind == kind {
            Some(self.fragment)
        } else {
            None
        }
    }
}

} // verus!
