//! What becomes of the calls that the pass knows.
use crate::ast::{Argument, BigintBase, CallExpression, Expression, UnaryOperator};
use crate::concat;
use crate::context::TraverseCtx;
use crate::number::Number;
use crate::outside;
use crate::text;
use vstd::prelude::*;

verus! {

/// What becomes of a call.
pub enum Outcome {
    /// It stays as it is.
    Keep,
    /// A string literal takes its place.
    Text(Seq<char>),
    /// A numeric literal for an integer takes its place.
    Integer(int),
    /// A numeric literal for not-a-number takes its place.
    NotANumber,
    /// An array literal takes in arguments of `concat`.
    Merge,
}

impl Outcome {
    /// `e` is what takes the place of the call.
    pub open spec fn written(self, ce: CallExpression, e: Expression) -> bool {
        match self {
            Outcome::Keep => false,
            Outcome::Text(t) => e.is_text(ce.span, t),
            Outcome::Integer(n) => e matches Expression::NumericLiteral(lit) && e.is_number(
                ce.span,
                lit.value,
            ) && lit.value.converts(n),
            Outcome::NotANumber => e.is_number(ce.span, Number { bits: 0x7ff8_0000_0000_0000 }),
            Outcome::Merge => ce.callee matches Expression::StaticMemberExpression(member)
                && member.object matches Expression::ArrayExpression(base) && concat::is_merged(
                e,
                ce.span,
                *member,
                base,
                ce.arguments@,
            ),
        }
    }

    /// `r` tells what takes the place of the call, if anything does.
    pub open spec fn told(self, ce: CallExpression, r: Option<Expression>) -> bool {
        match r {
            Some(e) => self.written(ce, e),
            None => self is Keep,
        }
    }
}

/// The name of the method that is called and the object it is called on: `object.name(..)` or
/// `object['name'](..)`, unless the access is optional.
pub open spec fn called_method(ce: CallExpression) -> Option<(Seq<char>, Expression)> {
    match ce.callee {
        Expression::StaticMemberExpression(member) => if !member.optional {
            Some((member.property.name@, member.object))
        } else {
            None
        },
        Expression::ComputedMemberExpression(member) => if !member.optional {
            match member.expression {
                Expression::StringLiteral(s) => Some((s.value@, member.object)),
                _ => None,
            }
        } else {
            None
        },
        _ => None,
    }
}

/// A string in lower case: letter by letter for ASCII, else by the Unicode tables.
pub open spec fn lowercased(s: Seq<char>) -> Seq<char> {
    if text::ascii(s) {
        text::ascii_lowercase(s)
    } else {
        outside::lowercase(s)
    }
}

/// A string in upper case: letter by letter for ASCII, else by the Unicode tables.
pub open spec fn uppercased(s: Seq<char>) -> Seq<char> {
    if text::ascii(s) {
        text::ascii_uppercase(s)
    } else {
        outside::uppercase(s)
    }
}

/// `toLowerCase`, `toUpperCase` and `trim`, which take no argument.
pub open spec fn casing(ce: CallExpression, name: Seq<char>, object: Expression) -> Outcome {
    if ce.arguments@.len() >= 1 {
        Outcome::Keep
    } else {
        match object {
            Expression::StringLiteral(s) => if name == "toLowerCase"@ {
                Outcome::Text(lowercased(s.value@))
            } else if name == "toUpperCase"@ {
                Outcome::Text(uppercased(s.value@))
            } else if name == "trim"@ {
                Outcome::Text(text::trim(s.value@))
            } else {
                Outcome::Keep
            },
            _ => Outcome::Keep,
        }
    }
}

/// A start position: negative ones count as zero.
pub open spec fn position(v: Number) -> int {
    text::at_least_zero(v.int_32())
}

/// `indexOf` and `lastIndexOf` of a string literal, optionally from a numeric literal on.
pub open spec fn index_of(ce: CallExpression, name: Seq<char>, object: Expression) -> Outcome {
    let args = ce.arguments@;
    match object {
        Expression::StringLiteral(s) => if args.len() >= 3 || !(name == "indexOf"@ || name
            == "lastIndexOf"@) {
            Outcome::Keep
        } else if args.len() == 0 {
            Outcome::Integer(-1)
        } else {
            match args[0] {
                Argument::Expression(Expression::StringLiteral(t)) => if args.len() == 1 {
                    if name == "indexOf"@ {
                        Outcome::Integer(text::index_of(s.value@, t.value@, 0))
                    } else {
                        Outcome::Integer(
                            text::last_index_of(s.value@, t.value@, s.value@.len() as int),
                        )
                    }
                } else {
                    match args[1] {
                        Argument::Expression(Expression::NumericLiteral(n)) => if name
                            == "indexOf"@ {
                            Outcome::Integer(
                                text::index_of(s.value@, t.value@, position(n.value)),
                            )
                        } else {
                            Outcome::Integer(
                                text::last_index_of(
                                    s.value@,
                                    t.value@,
                                    position(n.value) + text::byte_len(t.value@),
                                ),
                            )
                        },
                        _ => Outcome::Keep,
                    }
                },
                _ => Outcome::Keep,
            }
        },
        _ => Outcome::Keep,
    }
}

/// The number that argument `i` is, where there is such an argument, it is not spread, and its
/// value is known.
pub open spec fn argument_number(ce: CallExpression, ctx: TraverseCtx, i: int) -> Option<Number> {
    if i < ce.arguments@.len() && ce.arguments@[i] is Expression {
        ctx.number_value(i)
    } else {
        None
    }
}

/// There is an argument `i`, and which number it is is not known.
pub open spec fn unknown_number(ce: CallExpression, ctx: TraverseCtx, i: int) -> bool {
    i < ce.arguments@.len() && argument_number(ce, ctx, i) is None
}

/// The string that argument `i` is, where there is such an argument, it is not spread, and its
/// value is known.
pub open spec fn argument_string(
    ce: CallExpression,
    ctx: TraverseCtx,
    i: int,
) -> Option<Seq<char>> {
    if i < ce.arguments@.len() && ce.arguments@[i] is Expression {
        ctx.string_value(i)
    } else {
        None
    }
}

/// The bound lies outside a string of `len` bytes.
pub open spec fn out_of_bounds(bound: Option<Number>, len: nat) -> bool {
    bound matches Some(v) && (v.above_integer(len) || v.below_integer(0))
}

/// `substring` and `slice`, where the bounds that are given are known, within the string and in
/// order.
pub open spec fn substring_or_slice(
    ce: CallExpression,
    object: Expression,
    ctx: TraverseCtx,
) -> Outcome {
    match object {
        Expression::StringLiteral(s) => {
            let len = text::byte_len(s.value@);
            let start = argument_number(ce, ctx, 0);
            let end = argument_number(ce, ctx, 1);
            if ce.arguments@.len() > 2 || unknown_number(ce, ctx, 0) || unknown_number(ce, ctx, 1)
                || out_of_bounds(start, len) || out_of_bounds(end, len) || (start is Some && end
                is Some && end->0.below(start->0)) {
                Outcome::Keep
            } else {
                Outcome::Text(
                    text::substring(
                        s.value@,
                        match start {
                            Some(v) => position(v),
                            None => 0,
                        },
                        match end {
                            Some(v) => position(v),
                            None => len as int,
                        },
                    ),
                )
            }
        },
        _ => Outcome::Keep,
    }
}

/// The index that an argument of `charAt` is: a numeric literal, or the negation of one.
pub open spec fn literal_index(argument: Argument) -> Option<Number> {
    match argument {
        Argument::Expression(Expression::NumericLiteral(n)) => Some(n.value),
        Argument::Expression(Expression::UnaryExpression(unary)) => if unary.operator
            == UnaryOperator::UnaryNegation {
            match unary.argument {
                Expression::NumericLiteral(n) => Some(n.value.negation()),
                _ => None,
            }
        } else {
            None
        },
        _ => None,
    }
}

/// The character at an index; none where the index is not a whole number.
pub open spec fn char_at_number(s: Seq<char>, index: Number) -> Option<char> {
    if index.whole() {
        text::char_at(s, index.int_32())
    } else {
        None
    }
}

/// `charAt`: the character, or nothing beyond the string.
pub open spec fn char_at(ce: CallExpression, object: Expression) -> Outcome {
    let args = ce.arguments@;
    match object {
        Expression::StringLiteral(s) => if args.len() > 1 {
            Outcome::Keep
        } else {
            let index = if args.len() == 0 {
                Some(Number { bits: 0 })
            } else {
                literal_index(args[0])
            };
            match index {
                Some(v) => Outcome::Text(
                    match char_at_number(s.value@, v) {
                        Some(c) => seq![c],
                        None => Seq::empty(),
                    },
                ),
                None => Outcome::Keep,
            }
        },
        _ => Outcome::Keep,
    }
}

/// `charCodeAt`, at an index in the string, or at one that no string can have.
pub open spec fn char_code_at(ce: CallExpression, object: Expression, ctx: TraverseCtx) -> Outcome {
    match object {
        Expression::StringLiteral(s) => {
            let index = if ce.arguments@.len() == 0 {
                Some(Number { bits: 0 })
            } else {
                argument_number(ce, ctx, 0)
            };
            match index {
                Some(v) => if v.nan() || v.infinite() {
                    Outcome::Keep
                } else if !v.below_integer(0) && v.below_integer(65536) {
                    match char_at_number(s.value@, v) {
                        Some(c) => Outcome::Integer(c as int),
                        None => Outcome::Keep,
                    }
                } else {
                    Outcome::NotANumber
                },
                None => Outcome::Keep,
            }
        },
        _ => Outcome::Keep,
    }
}

/// `replace` and `replaceAll`, where the replacement holds no `$`, which would have a meaning of
/// its own.
pub open spec fn replace(
    ce: CallExpression,
    name: Seq<char>,
    object: Expression,
    ctx: TraverseCtx,
) -> Outcome {
    match object {
        Expression::StringLiteral(s) => if ce.arguments@.len() != 2 || !(name == "replace"@ || name
            == "replaceAll"@) {
            Outcome::Keep
        } else {
            match (argument_string(ce, ctx, 0), argument_string(ce, ctx, 1)) {
                (Some(search), Some(to)) => if to.contains('$') {
                    Outcome::Keep
                } else if name == "replace"@ {
                    Outcome::Text(text::replace_first(s.value@, search, to))
                } else {
                    Outcome::Text(text::replace_all(s.value@, search, to))
                },
                _ => Outcome::Keep,
            }
        },
        _ => Outcome::Keep,
    }
}

/// The character that a number is the code of, in the lowest 16 bits of its integer part.
pub open spec fn char_of_code(v: Number) -> Option<char> {
    let code = v.int_32() % 0x1_0000;
    if text::is_scalar(code) {
        Some(code as char)
    } else {
        None
    }
}

/// The characters that the first `n` arguments are the codes of.
pub open spec fn chars_of_codes(ce: CallExpression, ctx: TraverseCtx, n: nat) -> Option<Seq<char>>
    decreases n,
{
    if n == 0 {
        Some(Seq::empty())
    } else {
        match (chars_of_codes(ce, ctx, (n - 1) as nat), argument_number(ce, ctx, n - 1)) {
            (Some(front), Some(v)) => match char_of_code(v) {
                Some(c) => Some(front.push(c)),
                None => None,
            },
            _ => None,
        }
    }
}

/// `fromCharCode`.
pub open spec fn from_char_code(
    ce: CallExpression,
    object: Expression,
    ctx: TraverseCtx,
) -> Outcome {
    if object is Identifier && ctx.object_is_global_reference {
        match chars_of_codes(ce, ctx, ce.arguments@.len()) {
            Some(t) => Outcome::Text(t),
            None => Outcome::Keep,
        }
    } else {
        Outcome::Keep
    }
}

/// The radix that `toString` is called with: ten without an argument, else a numeric literal from
/// 2 to 36.
pub open spec fn radix_of(ce: CallExpression) -> Option<int> {
    if ce.arguments@.len() == 0 {
        Some(10)
    } else {
        match ce.arguments@[0] {
            Argument::Expression(Expression::NumericLiteral(n)) => if n.value.whole() && 2
                <= n.value.truncated() <= 36 {
                Some(n.value.truncated())
            } else {
                None
            },
            _ => None,
        }
    }
}

/// The text of a number: in decimal where it is an integer of up to 53 bits, else as the context
/// tells it.
pub open spec fn number_text(value: Number, ctx: TraverseCtx) -> Seq<char> {
    if value.whole() && -0x20_0000_0000_0000 < value.truncated() < 0x20_0000_0000_0000 {
        text::decimal(value.truncated())
    } else {
        ctx.number_text@
    }
}

/// `toString` of a number. In a radix other than ten, only of an unsigned integer of 32 bits.
pub open spec fn number_to_string(ce: CallExpression, value: Number, ctx: TraverseCtx) -> Outcome {
    match radix_of(ce) {
        Some(radix) => if radix == 10 {
            Outcome::Text(number_text(value, ctx))
        } else if value.whole() && 0 <= value.truncated() <= 0xffff_ffff {
            Outcome::Text(text::in_radix(value.truncated() as nat, radix as nat))
        } else {
            Outcome::Keep
        },
        None => Outcome::Keep,
    }
}

/// `toString`.
pub open spec fn to_string(ce: CallExpression, object: Expression, ctx: TraverseCtx) -> Outcome {
    match object {
        Expression::NumericLiteral(lit) => if ce.arguments@.len() <= 1 {
            number_to_string(ce, lit.value, ctx)
        } else {
            Outcome::Keep
        },
        Expression::BooleanLiteral(lit) => if ce.arguments@.len() == 0 {
            Outcome::Text(
                if lit.value {
                    "true"@
                } else {
                    "false"@
                },
            )
        } else {
            Outcome::Keep
        },
        Expression::BigIntLiteral(lit) => if ce.arguments@.len() == 0 && lit.base
            == BigintBase::Decimal {
            Outcome::Text(text::trim_end_char(lit.raw@, 'n'))
        } else {
            Outcome::Keep
        },
        Expression::StringLiteral(lit) => if ce.arguments@.len() == 0 {
            Outcome::Text(lit.value@)
        } else {
            Outcome::Keep
        },
        _ => Outcome::Keep,
    }
}

/// `concat` of an array literal, unless the call is itself the object of a call of `concat`.
pub open spec fn concat_array(
    callee: Expression,
    arguments: Seq<Argument>,
    ctx: TraverseCtx,
) -> Outcome {
    match callee {
        Expression::StaticMemberExpression(member) => if !ctx.in_concat() && concat::merges(
            arguments,
        ) && member.object is ArrayExpression {
            Outcome::Merge
        } else {
            Outcome::Keep
        },
        _ => Outcome::Keep,
    }
}

/// What becomes of a call.
pub open spec fn outcome(ce: CallExpression, ctx: TraverseCtx) -> Outcome {
    match called_method(ce) {
        Some((name, object)) => if name == "toLowerCase"@ || name == "toUpperCase"@ || name
            == "trim"@ {
            casing(ce, name, object)
        } else if name == "substring"@ || name == "slice"@ {
            substring_or_slice(ce, object, ctx)
        } else if name == "indexOf"@ || name == "lastIndexOf"@ {
            index_of(ce, name, object)
        } else if name == "charAt"@ {
            char_at(ce, object)
        } else if name == "charCodeAt"@ {
            char_code_at(ce, object, ctx)
        } else if name == "concat"@ {
            concat_array(ce.callee, ce.arguments@, ctx)
        } else if name == "replace"@ || name == "replaceAll"@ {
            replace(ce, name, object, ctx)
        } else if name == "fromCharCode"@ {
            from_char_code(ce, object, ctx)
        } else if name == "toString"@ {
            to_string(ce, object, ctx)
        } else {
            Outcome::Keep
        },
        None => Outcome::Keep,
    }
}

/// The expression is not a call `object['concat'](..)`, which the pass cannot handle unless the
/// call is itself the object of a call of `concat`.
pub open spec fn supported(node: Expression, ctx: TraverseCtx) -> bool {
    ctx.in_concat() || !(node matches Expression::CallExpression(ce)
        && ce.callee is ComputedMemberExpression && (called_method(*ce) matches Some((name, _))
        && name == "concat"@))
}

/// The expression is a call that a literal or another call takes the place of.
pub open spec fn folds_known(node: Expression, ctx: TraverseCtx) -> bool {
    node matches Expression::CallExpression(ce) && !(outcome(*ce, ctx) is Keep)
}

/// `e` is what takes the place of the call `node`.
pub open spec fn is_folded_known(node: Expression, ctx: TraverseCtx, e: Expression) -> bool {
    node matches Expression::CallExpression(ce) && outcome(*ce, ctx).written(*ce, e)
}

/// The expression is a chain of `concat` calls that becomes one call. The object of a member
/// access does not: it may be part of a longer chain.
pub open spec fn folds_chain(node: Expression, ctx: TraverseCtx) -> bool {
    !ctx.in_static_member() && (concat::chain(node) matches Some(c) && c.calls > 1)
}

/// `e` is the one call that the chain `node` becomes.
pub open spec fn is_folded_chain(node: Expression, e: Expression) -> bool {
    node matches Expression::CallExpression(outer) && concat::chain(node) matches Some(c)
        && concat::is_call(e, outer.span, c.callee, c.arguments)
}

/// The expression does not stay as it is.
pub open spec fn folds(node: Expression, ctx: TraverseCtx) -> bool {
    folds_chain(node, ctx) || folds_known(node, ctx)
}

/// `e` is what takes the place of `node`: of a chain of `concat` calls, the one call, or what
/// that becomes when arguments are merged into an array.
pub open spec fn is_folded(node: Expression, ctx: TraverseCtx, e: Expression) -> bool {
    if folds_chain(node, ctx) {
        &&& node matches Expression::CallExpression(outer)
        &&& concat::chain(node) matches Some(c)
        &&& if concat_array(c.callee, c.arguments, ctx) is Merge {
            &&& c.callee matches Expression::StaticMemberExpression(member)
            &&& member.object matches Expression::ArrayExpression(base)
            &&& concat::is_merged(e, outer.span, *member, base, c.arguments)
        } else {
            is_folded_chain(node, e)
        }
    } else {
        is_folded_known(node, ctx, e)
    }
}

/// The innermost callee of a chain is `concat` of an array or a string literal.
pub proof fn lemma_chain_callee(e: Expression)
    requires
        concat::chain(e) is Some,
    ensures
        concat::chain(e) matches Some(c) && c.callee matches Expression::StaticMemberExpression(
            member,
        ) && concat::concat_callee(c.callee) && concat::concat_root(member.object),
    decreases e,
{
    if let Expression::CallExpression(call) = e {
        if let Expression::StaticMemberExpression(member) = call.callee {
            if !concat::concat_root(member.object) {
                lemma_chain_callee(member.object);
            }
        }
    }
}

/// A call of `object.concat` has the outcome that `concat` has.
pub proof fn lemma_concat_outcome(ce: CallExpression, ctx: TraverseCtx)
    requires
        concat::concat_callee(ce.callee),
    ensures
        outcome(ce, ctx) == concat_array(ce.callee, ce.arguments@, ctx),
{
    reveal_strlit("concat");
    reveal_strlit("toLowerCase");
    reveal_strlit("toUpperCase");
    reveal_strlit("trim");
    reveal_strlit("substring");
    reveal_strlit("slice");
    reveal_strlit("indexOf");
    reveal_strlit("lastIndexOf");
    reveal_strlit("charAt");
    reveal_strlit("charCodeAt");
    assert("concat"@.len() == 6);
    assert("toLowerCase"@.len() == 11 && "toUpperCase"@.len() == 11 && "trim"@.len() == 4);
    assert("substring"@.len() == 9 && "slice"@.len() == 5);
    assert("indexOf"@.len() == 7 && "lastIndexOf"@.len() == 11 && "charCodeAt"@.len() == 10);
    assert("concat"@[1] == 'o' && "charAt"@[1] == 'h');
}

/// A call of a known method has the outcome of that method.
pub proof fn lemma_method_outcome(
    ce: CallExpression,
    ctx: TraverseCtx,
    name: Seq<char>,
    object: Expression,
)
    requires
        called_method(ce) == Some((name, object)),
    ensures
        name == "toLowerCase"@ || name == "toUpperCase"@ || name == "trim"@ ==> outcome(ce, ctx)
            == casing(ce, name, object),
        name == "substring"@ || name == "slice"@ ==> outcome(ce, ctx) == substring_or_slice(
            ce,
            object,
            ctx,
        ),
        name == "indexOf"@ || name == "lastIndexOf"@ ==> outcome(ce, ctx) == index_of(
            ce,
            name,
            object,
        ),
        name == "charAt"@ ==> outcome(ce, ctx) == char_at(ce, object),
        name == "charCodeAt"@ ==> outcome(ce, ctx) == char_code_at(ce, object, ctx),
        name == "concat"@ ==> outcome(ce, ctx) == concat_array(ce.callee, ce.arguments@, ctx),
        name == "replace"@ || name == "replaceAll"@ ==> outcome(ce, ctx) == replace(
            ce,
            name,
            object,
            ctx,
        ),
        name == "fromCharCode"@ ==> outcome(ce, ctx) == from_char_code(ce, object, ctx),
        name == "toString"@ ==> outcome(ce, ctx) == to_string(ce, object, ctx),
{
    lemma_names();
}

/// The names of the known methods are different names.
pub proof fn lemma_names()
    ensures
        "toLowerCase"@.len() == 11 && "toLowerCase"@[2] == 'L',
        "toUpperCase"@.len() == 11 && "toUpperCase"@[2] == 'U',
        "lastIndexOf"@.len() == 11 && "lastIndexOf"@[2] == 's',
        "trim"@.len() == 4,
        "substring"@.len() == 9,
        "slice"@.len() == 5,
        "indexOf"@.len() == 7 && "indexOf"@[0] == 'i',
        "replace"@.len() == 7 && "replace"@[0] == 'r',
        "charAt"@.len() == 6 && "charAt"@[1] == 'h',
        "concat"@.len() == 6 && "concat"@[1] == 'o',
        "charCodeAt"@.len() == 10 && "charCodeAt"@[0] == 'c',
        "replaceAll"@.len() == 10 && "replaceAll"@[0] == 'r',
        "fromCharCode"@.len() == 12,
        "toString"@.len() == 8,
{
    reveal_strlit("toLowerCase");
    reveal_strlit("toUpperCase");
    reveal_strlit("lastIndexOf");
    reveal_strlit("trim");
    reveal_strlit("substring");
    reveal_strlit("slice");
    reveal_strlit("indexOf");
    reveal_strlit("replace");
    reveal_strlit("charAt");
    reveal_strlit("concat");
    reveal_strlit("charCodeAt");
    reveal_strlit("replaceAll");
    reveal_strlit("fromCharCode");
    reveal_strlit("toString");
}

} // verus!
