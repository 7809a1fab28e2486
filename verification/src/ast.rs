//! The syntax tree that the pass works on. A node of which the pass never looks at the inside
//! stands in it as a [`NodeId`], which the owner of the whole tree can resolve.
use crate::number::Number;
use vstd::prelude::*;

verus! {

/// A stretch of the source text.
#[derive(Clone, Copy, Debug, PartialEq, Eq, Structural)]
pub struct Span {
    pub start: u32,
    pub end: u32,
}

/// A node that is only moved about.
#[derive(Clone, Copy, Debug, PartialEq, Eq, Structural)]
pub struct NodeId {
    pub index: u32,
}

#[derive(Clone, Copy, Debug, PartialEq, Eq, Structural)]
pub enum NumberBase {
    Float,
    Decimal,
    Binary,
    Octal,
    Hex,
}

#[derive(Clone, Copy, Debug, PartialEq, Eq, Structural)]
pub enum BigintBase {
    Decimal,
    Binary,
    Octal,
    Hex,
}

#[derive(Clone, Copy, Debug, PartialEq, Eq, Structural)]
pub enum UnaryOperator {
    UnaryPlus,
    UnaryNegation,
    LogicalNot,
    BitwiseNot,
    Typeof,
    Void,
    Delete,
}

#[derive(Debug, PartialEq)]
pub struct BooleanLiteral {
    pub span: Span,
    pub value: bool,
}

#[derive(Debug, PartialEq)]
pub struct NullLiteral {
    pub span: Span,
}

#[derive(Debug, PartialEq)]
pub struct NumericLiteral {
    pub span: Span,
    pub value: Number,
    /// The literal as the source text has it; `None` for one that a pass made.
    pub raw: Option<String>,
    pub base: NumberBase,
}

#[derive(Debug, PartialEq)]
pub struct BigIntLiteral {
    pub span: Span,
    /// The literal as the source text has it, with the `n` at its end.
    pub raw: String,
    pub base: BigintBase,
}

#[derive(Debug, PartialEq)]
pub struct RegExpLiteral {
    pub span: Span,
    pub regex: NodeId,
}

#[derive(Debug, PartialEq)]
pub struct StringLiteral {
    pub span: Span,
    pub value: String,
    /// The literal as the source text has it; `None` for one that a pass made.
    pub raw: Option<String>,
}

#[derive(Debug, PartialEq)]
pub struct IdentifierName {
    pub span: Span,
    pub name: String,
}

#[derive(Debug, PartialEq)]
pub struct IdentifierReference {
    pub span: Span,
    pub name: String,
    pub reference: NodeId,
}

#[derive(Debug, PartialEq)]
pub struct SpreadElement {
    pub span: Span,
    pub argument: NodeId,
}

#[derive(Debug, PartialEq)]
pub struct Elision {
    pub span: Span,
}

#[derive(Debug, PartialEq)]
pub enum ArrayExpressionElement {
    SpreadElement(SpreadElement),
    Elision(Elision),
    Expression(Expression),
}

#[derive(Debug, PartialEq)]
pub struct ArrayExpression {
    pub span: Span,
    pub elements: Vec<ArrayExpressionElement>,
    pub trailing_comma: Option<Span>,
}

#[derive(Debug, PartialEq)]
pub struct UnaryExpression {
    pub span: Span,
    pub operator: UnaryOperator,
    pub argument: Expression,
}

/// `object.property`, or `object?.property` where it is optional.
#[derive(Debug, PartialEq)]
pub struct StaticMemberExpression {
    pub span: Span,
    pub object: Expression,
    pub property: IdentifierName,
    pub optional: bool,
}

/// `object[expression]`, or `object?.[expression]` where it is optional.
#[derive(Debug, PartialEq)]
pub struct ComputedMemberExpression {
    pub span: Span,
    pub object: Expression,
    pub expression: Expression,
    pub optional: bool,
}

#[derive(Debug, PartialEq)]
pub enum Argument {
    SpreadElement(SpreadElement),
    Expression(Expression),
}

/// `callee(arguments)`, or `callee?.(arguments)` where it is optional.
#[derive(Debug, PartialEq)]
pub struct CallExpression {
    pub span: Span,
    pub callee: Expression,
    pub type_parameters: Option<NodeId>,
    pub arguments: Vec<Argument>,
    pub optional: bool,
}

#[derive(Debug, PartialEq)]
pub enum Expression {
    BooleanLiteral(BooleanLiteral),
    NullLiteral(NullLiteral),
    NumericLiteral(NumericLiteral),
    BigIntLiteral(BigIntLiteral),
    RegExpLiteral(RegExpLiteral),
    StringLiteral(StringLiteral),
    Identifier(IdentifierReference),
    ArrayExpression(ArrayExpression),
    UnaryExpression(Box<UnaryExpression>),
    CallExpression(Box<CallExpression>),
    StaticMemberExpression(Box<StaticMemberExpression>),
    ComputedMemberExpression(Box<ComputedMemberExpression>),
    /// Any other expression, such as a template literal.
    Other(NodeId),
}

impl Expression {
    /// The expression is a literal; an array or a template is not one.
    pub open spec fn literal(self) -> bool {
        ||| self is BooleanLiteral
        ||| self is NullLiteral
        ||| self is NumericLiteral
        ||| self is BigIntLiteral
        ||| self is RegExpLiteral
        ||| self is StringLiteral
    }

    /// Whether the expression is a literal.
    pub fn is_literal(&self) -> (r: bool)
        ensures
            r == self.literal(),
    {
        match self {
            Expression::BooleanLiteral(_)
            | Expression::NullLiteral(_)
            | Expression::NumericLiteral(_)
            | Expression::BigIntLiteral(_)
            | Expression::RegExpLiteral(_)
            | Expression::StringLiteral(_) => true,
            _ => false,
        }
    }

    /// The expression is what is left where an expression has been taken out of the tree: a `null`
    /// at no place in the source text.
    pub open spec fn is_placeholder(self) -> bool {
        self matches Expression::NullLiteral(lit) && lit.span == (Span { start: 0, end: 0 })
    }

    /// What is put where an expression is taken out of the tree.
    pub fn placeholder() -> (r: Expression)
        ensures
            r.is_placeholder(),
    {
        Expression::NullLiteral(NullLiteral { span: Span { start: 0, end: 0 } })
    }

    /// The expression is the string literal that a pass writes for `value` in place of what stood
    /// at `span`.
    pub open spec fn is_text(self, span: Span, value: Seq<char>) -> bool {
        self matches Expression::StringLiteral(lit) && lit.span == span && lit.value@ == value
            && lit.raw is None
    }

    /// The expression is the numeric literal that a pass writes for `value` in place of what stood
    /// at `span`.
    pub open spec fn is_number(self, span: Span, value: Number) -> bool {
        self matches Expression::NumericLiteral(lit) && lit.span == span && lit.value == value
            && lit.raw is None && lit.base == NumberBase::Decimal
    }

    /// A string literal that no source text stands behind.
    pub fn string_literal(span: Span, value: String) -> (r: Expression)
        ensures
            r.is_text(span, value@),
    {
        Expression::StringLiteral(StringLiteral { span, value, raw: None })
    }

    /// A decimal numeric literal that no source text stands behind.
    pub fn numeric_literal(span: Span, value: Number) -> (r: Expression)
        ensures
            r.is_number(span, value),
    {
        Expression::NumericLiteral(
            NumericLiteral { span, value, raw: None, base: NumberBase::Decimal },
        )
    }
}

} // verus!
