//! What the surrounding traversal knows about a call that the pass looks at.
use crate::ast::{Argument, CallExpression, Expression};
use crate::number::Number;
use vstd::prelude::*;

verus! {

/// The node that an expression is a direct part of.
#[derive(Debug, PartialEq)]
pub enum Ancestor {
    /// The expression is the `object` of `object.property`.
    StaticMemberExpressionObject { property: String },
    Other,
}

/// The place of an expression in the tree, and the values of its parts that take more than the
/// expression itself to tell.
#[derive(Debug, PartialEq)]
pub struct TraverseCtx {
    pub parent: Ancestor,
    /// For each argument of the call, its value as a number, where it is known and nothing else
    /// comes of evaluating the argument.
    pub number_values: Vec<Option<Number>>,
    /// For each argument of the call, its value as a string, where it is known and nothing else
    /// comes of evaluating the argument.
    pub string_values: Vec<Option<String>>,
    /// The object whose method is called is an identifier that no declaration binds.
    pub object_is_global_reference: bool,
    /// The text of the number whose method is called. It is read only where the number is not an
    /// integer of up to 53 bits.
    pub number_text: String,
}

impl TraverseCtx {
    /// The expression is the `object` of some `object.property`.
    pub open spec fn in_static_member(self) -> bool {
        self.parent is StaticMemberExpressionObject
    }

    /// The expression is the `object` of `object.concat`.
    pub open spec fn in_concat(self) -> bool {
        self.parent matches Ancestor::StaticMemberExpressionObject { property } && property@
            == "concat"@
    }

    /// The value of argument `i` as a number.
    pub open spec fn number_value(self, i: int) -> Option<Number> {
        if 0 <= i < self.number_values@.len() {
            self.number_values@[i]
        } else {
            None
        }
    }

    /// The value of argument `i` as a string.
    pub open spec fn string_value(self, i: int) -> Option<Seq<char>> {
        if 0 <= i < self.string_values@.len() {
            match self.string_values@[i] {
                Some(s) => Some(s@),
                None => None,
            }
        } else {
            None
        }
    }

    /// What the context tells of the arguments of the call is so of those that speak for
    /// themselves: a numeric literal is the number that it stands for, a string literal the
    /// string.
    pub open spec fn agrees(self, ce: CallExpression) -> bool {
        forall|i: int|
            0 <= i < ce.arguments@.len() ==> match #[trigger] ce.arguments@[i] {
                Argument::Expression(Expression::NumericLiteral(n)) => self.number_value(i)
                    == Some(n.value),
                Argument::Expression(Expression::StringLiteral(s)) => self.string_value(i)
                    == Some(s.value@),
                _ => true,
            }
    }

    /// Whether the expression is the `object` of some `object.property`.
    pub fn parent_is_static_member(&self) -> (r: bool)
        ensures
            r == self.in_static_member(),
    {
        match &self.parent {
            Ancestor::StaticMemberExpressionObject { .. } => true,
            Ancestor::Other => false,
        }
    }

    /// Whether the expression is the `object` of `object.concat`.
    pub fn parent_is_concat(&self) -> (r: bool)
        ensures
            r == self.in_concat(),
    {
        match &self.parent {
            Ancestor::StaticMemberExpressionObject { property } => *property.as_str() == *"concat",
            Ancestor::Other => false,
        }
    }

    /// The value of argument `i` as a number, where it is known and free of side effects.
    pub fn get_side_free_number_value(&self, i: usize) -> (r: Option<Number>)
        ensures
            r == self.number_value(i as int),
    {
        if i < self.number_values.len() {
            self.number_values[i]
        } else {
            None
        }
    }

    /// The value of argument `i` as a string, where it is known and free of side effects.
    pub fn get_side_free_string_value(&self, i: usize) -> (r: Option<&str>)
        ensures
            match self.string_value(i as int) {
                Some(t) => r matches Some(s) && s@ == t,
                None => r is None,
            },
    {
        if i < self.string_values.len() {
            match &self.string_values[i] {
                Some(s) => Some(s.as_str()),
                None => None,
            }
        } else {
            None
        }
    }
}

} // verus!
