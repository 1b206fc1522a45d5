//! The syntax tree, and the failures that parsing can end in.

use crate::lexer::{Token, TokenKind};
use vstd::prelude::*;
use vstd::string::StringExecFns;

pub mod parse;

verus! {

/// The tokens that are left to parse.
pub type TS<'a, 'src> = &'a [Token<'src>];

/// The three ways in which parsing fails.
#[derive(Debug, Clone, Copy, PartialEq, Eq, Structural, Hash)]
pub enum ErrorKind {
    /// A token was needed where the text holds an invalid one.
    Lexical,
    /// A literal is well formed and cannot be converted.
    NumericConversion,
    /// The structure is broken: a token or an expression is missing, or
    /// another one stands in its place.
    Grammar,
}

impl ErrorKind {
    /// The kind in words.
    pub open spec fn spec_name(self) -> Seq<char> {
        match self {
            ErrorKind::Lexical => "lexical error"@,
            ErrorKind::NumericConversion => "numeric conversion error"@,
            ErrorKind::Grammar => "structural error"@,
        }
    }

    /// The kind in words.
    pub fn name(&self) -> (r: &'static str)
        ensures
            r@ == self.spec_name(),
    {
        match self {
            ErrorKind::Lexical => "lexical error",
            ErrorKind::NumericConversion => "numeric conversion error",
            ErrorKind::Grammar => "structural error",
        }
    }
}

/// What the parser was looking for when it failed.
#[derive(Debug, Clone, Copy, PartialEq, Eq, Structural, Hash)]
pub enum Expectation {
    /// Nothing more is known than the place.
    Unspecified,
    /// The tokens of a tag.
    Tag,
    /// A literal of digits that fits 64 bits.
    Whole,
    /// A float literal.
    Float,
    /// A whole or float literal.
    Literal,
    /// A literal, a function call or a variable.
    Expression,
    /// A separator or the end of a list, after an item.
    SeparatorOrEnd,
    /// The marker that closes a balanced region.
    Close,
    /// An item or a separator that takes at least one token.
    Progress,
}

impl Expectation {
    /// The expectation in words.
    pub open spec fn spec_label(self) -> Seq<char> {
        match self {
            Expectation::Unspecified => "unexpected input"@,
            Expectation::Tag => "expected the tokens of the tag"@,
            Expectation::Whole => "expected a whole literal that fits 64 bits"@,
            Expectation::Float => "expected a float literal"@,
            Expectation::Literal => "expected whole or float literal"@,
            Expectation::Expression => "expected literal, function call or variable"@,
            Expectation::SeparatorOrEnd => "expected separator or end after an item"@,
            Expectation::Close => "expected the closing marker"@,
            Expectation::Progress => "expected an item or a separator that takes a token"@,
        }
    }

    /// The expectation in words.
    pub fn label(&self) -> (r: &'static str)
        ensures
            r@ == self.spec_label(),
    {
        match self {
            Expectation::Unspecified => "unexpected input",
            Expectation::Tag => "expected the tokens of the tag",
            Expectation::Whole => "expected a whole literal that fits 64 bits",
            Expectation::Float => "expected a float literal",
            Expectation::Literal => "expected whole or float literal",
            Expectation::Expression => "expected literal, function call or variable",
            Expectation::SeparatorOrEnd => "expected separator or end after an item",
            Expectation::Close => "expected the closing marker",
            Expectation::Progress => "expected an item or a separator that takes a token",
        }
    }
}

/// The kind of a failure that is no failed conversion, by the place where it
/// happened: lexical where an invalid token stands there, else one of grammar.
pub open spec fn kind_at(input: Seq<Token>) -> ErrorKind {
    if input.len() > 0 && input[0].kind is Invalid {
        ErrorKind::Lexical
    } else {
        ErrorKind::Grammar
    }
}

/// A failure of the parser.
#[derive(Debug, Clone, Copy, PartialEq)]
pub struct Error<'a, 'src> {
    /// The tokens from the place of the failure on.
    pub input: TS<'a, 'src>,
    pub kind: ErrorKind,
    pub expectation: Expectation,
    /// Whether the failure ends the whole parse: a choice between
    /// alternatives goes on to the next one only after a failure that is
    /// not committed.
    pub committed: bool,
}

impl<'a, 'src> Error<'a, 'src> {
    /// An uncommitted failure at `input`, with its kind told by the token
    /// that stands there.
    pub fn new(input: TS<'a, 'src>) -> (e: Error<'a, 'src>)
        ensures
            e.input == input,
            e.kind == kind_at(input@),
            e.expectation == Expectation::Unspecified,
            !e.committed,
    {
        let kind = if input.len() > 0 && matches!(input[0].kind, TokenKind::Invalid) {
            ErrorKind::Lexical
        } else {
            ErrorKind::Grammar
        };
        Error { input, kind, expectation: Expectation::Unspecified, committed: false }
    }

    /// A committed failure to convert the literal at the start of `input`.
    pub fn conversion(input: TS<'a, 'src>, expectation: Expectation) -> (e: Error<'a, 'src>)
        ensures
            e.input == input,
            e.kind == ErrorKind::NumericConversion,
            e.expectation == expectation,
            e.committed,
    {
        Error { input, kind: ErrorKind::NumericConversion, expectation, committed: true }
    }

    /// The same failure, said to have looked for `expectation`.
    pub fn with_context(self, expectation: Expectation) -> (e: Error<'a, 'src>)
        ensures
            e == (Error { expectation, ..self }),
    {
        Error { expectation, ..self }
    }

    /// The same failure, committed.
    pub fn commit(self) -> (e: Error<'a, 'src>)
        ensures
            e == (Error { committed: true, ..self }),
    {
        Error { committed: true, ..self }
    }

    /// The failure in words: its kind, a colon, and what was looked for.
    pub fn message(&self) -> (r: String)
        ensures
            r@ == self.kind.spec_name() + ": "@ + self.expectation.spec_label(),
    {
        let mut message = String::from_str(self.kind.name());
        message.append(": ");
        message.append(self.expectation.label());
        message
    }
}

/// A name.
#[derive(Debug, PartialEq, PartialOrd, Clone, Copy)]
pub struct Identifier<'src> {
    pub text: &'src str,
}

/// A whole number.
#[derive(Debug, PartialEq, PartialOrd, Clone, Copy)]
pub struct Whole(pub u64);

/// A number with a fraction, as it is written: digits, a dot, digits.
#[derive(Debug, PartialEq, PartialOrd, Clone, Copy)]
pub struct Float<'src>(pub &'src str);

/// A number.
#[derive(Debug, PartialEq, PartialOrd, Clone, Copy)]
pub enum Literal<'src> {
    Whole(Whole),
    Float(Float<'src>),
}

/// A reference to a variable by its name.
#[derive(Debug, PartialEq, PartialOrd, Clone, Copy)]
pub struct Variable<'src> {
    pub identifier: Identifier<'src>,
}

/// A function applied to its inputs.
#[derive(Debug, PartialEq, PartialOrd)]
pub struct FunctionCall<'src> {
    pub identifier: Identifier<'src>,
    pub inputs: Vec<Expression<'src>>,
}

/// Thing that gives a value.
#[derive(Debug, PartialEq, PartialOrd)]
pub enum Expression<'src> {
    Literal(Literal<'src>),
    Variable(Variable<'src>),
    FunctionCall(FunctionCall<'src>),
}

/// The expressions of a source text, in its order.
#[derive(Debug, PartialEq, PartialOrd)]
pub struct Ast<'src> {
    pub expressions: Vec<Expression<'src>>,
}

/// A literal as contracts see it.
pub enum LiteralView {
    Whole(u64),
    Float(Seq<char>),
}

/// A function call as contracts see it.
pub struct FunctionCallView {
    pub identifier: Seq<char>,
    pub inputs: Seq<ExpressionView>,
}

/// An expression as contracts see it: names and literals by their
/// characters.
pub enum ExpressionView {
    Literal(LiteralView),
    Variable(Seq<char>),
    FunctionCall(FunctionCallView),
}

impl<'src> View for Identifier<'src> {
    type V = Seq<char>;

    open spec fn view(&self) -> Seq<char> {
        self.text@
    }
}

impl View for Whole {
    type V = u64;

    open spec fn view(&self) -> u64 {
        self.0
    }
}

impl<'src> View for Float<'src> {
    type V = Seq<char>;

    open spec fn view(&self) -> Seq<char> {
        self.0@
    }
}

impl<'src> View for Literal<'src> {
    type V = LiteralView;

    open spec fn view(&self) -> LiteralView {
        match self {
            Literal::Whole(whole) => LiteralView::Whole(whole@),
            Literal::Float(float) => LiteralView::Float(float@),
        }
    }
}

impl<'src> View for Variable<'src> {
    type V = Seq<char>;

    open spec fn view(&self) -> Seq<char> {
        self.identifier@
    }
}

/// The view of an expression.
pub open spec fn expression_view(expression: Expression) -> ExpressionView
    decreases expression, 1int,
{
    match expression {
        Expression::Literal(literal) => ExpressionView::Literal(literal@),
        Expression::Variable(variable) => ExpressionView::Variable(variable@),
        Expression::FunctionCall(call) => ExpressionView::FunctionCall(
            FunctionCallView {
                identifier: call.identifier@,
                inputs: expression_views(call.inputs@),
            },
        ),
    }
}

/// The views of a sequence of expressions, one for one.
pub open spec fn expression_views(expressions: Seq<Expression>) -> Seq<ExpressionView>
    decreases expressions, 0int,
{
    if expressions.len() == 0 {
        Seq::empty()
    } else {
        expression_views(expressions.drop_last()).push(expression_view(expressions.last()))
    }
}

impl<'src> View for Expression<'src> {
    type V = ExpressionView;

    open spec fn view(&self) -> ExpressionView {
        expression_view(*self)
    }
}

impl<'src> View for FunctionCall<'src> {
    type V = FunctionCallView;

    open spec fn view(&self) -> FunctionCallView {
        FunctionCallView { identifier: self.identifier@, inputs: expression_views(self.inputs@) }
    }
}

impl<'src> View for Ast<'src> {
    type V = Seq<ExpressionView>;

    open spec fn view(&self) -> Seq<ExpressionView> {
        expression_views(self.expressions@)
    }
}

impl<'src> Clone for Expression<'src> {
    fn clone(&self) -> (res: Self)
        ensures
            res@ == self@,
        decreases self,
    {
        match self {
            Expression::Literal(literal) => Expression::Literal(*literal),
            Expression::Variable(variable) => Expression::Variable(*variable),
            Expression::FunctionCall(call) => Expression::FunctionCall(call.clone()),
        }
    }
}

impl<'src> Clone for FunctionCall<'src> {
    fn clone(&self) -> (res: Self)
        ensures
            res@ == self@,
        decreases self,
    {
        let mut inputs: Vec<Expression<'src>> = Vec::new();
        let mut i: usize = 0;
        while i < self.inputs.len()
            invariant
                i <= self.inputs@.len(),
                expression_views(inputs@) == expression_views(self.inputs@.take(i as int)),
            decreases self.inputs@.len() - i,
        {
            let ghost before = inputs@;
            let input = self.inputs[i].clone();
            inputs.push(input);
            proof {
                lemma_expression_views_push(before, input);
                lemma_expression_views_push(self.inputs@.take(i as int), self.inputs@[i as int]);
                assert(self.inputs@.take(i + 1) == self.inputs@.take(i as int).push(
                    self.inputs@[i as int],
                ));
            }
            i += 1;
        }
        proof {
            assert(self.inputs@.take(i as int) == self.inputs@);
        }
        FunctionCall { identifier: self.identifier, inputs }
    }
}

impl<'src> Clone for Ast<'src> {
    fn clone(&self) -> (res: Self)
        ensures
            res@ == self@,
    {
        let mut expressions: Vec<Expression<'src>> = Vec::new();
        let mut i: usize = 0;
        while i < self.expressions.len()
            invariant
                i <= self.expressions@.len(),
                expression_views(expressions@) == expression_views(
                    self.expressions@.take(i as int),
                ),
            decreases self.expressions@.len() - i,
        {
            let ghost before = expressions@;
            let expression = self.expressions[i].clone();
            expressions.push(expression);
            proof {
                lemma_expression_views_push(before, expression);
                lemma_expression_views_push(
                    self.expressions@.take(i as int),
                    self.expressions@[i as int],
                );
                assert(self.expressions@.take(i + 1) == self.expressions@.take(i as int).push(
                    self.expressions@[i as int],
                ));
            }
            i += 1;
        }
        proof {
            assert(self.expressions@.take(i as int) == self.expressions@);
        }
        Ast { expressions }
    }
}

/// `expression_views` keeps the length and views each expression in place.
pub proof fn lemma_expression_views(expressions: Seq<Expression>)
    ensures
        expression_views(expressions).len() == expressions.len(),
        forall|i: int|
            0 <= i < expressions.len() ==> #[trigger] expression_views(expressions)[i]
                == expressions[i]@,
    decreases expressions.len(),
{
    if expressions.len() > 0 {
        lemma_expression_views(expressions.drop_last());
    }
}

/// Viewing after a push is pushing the view.
pub proof fn lemma_expression_views_push(expressions: Seq<Expression>, last: Expression)
    ensures
        expression_views(expressions.push(last)) == expression_views(expressions).push(last@),
{
    assert(expressions.push(last).drop_last() == expressions);
}

} // verus!
