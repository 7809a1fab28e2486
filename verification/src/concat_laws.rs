//! What becomes of calls of `concat`, said of the call and of what takes its place.
use crate::ast::{
    Argument, ArrayExpression, ArrayExpressionElement, Expression, Span, StaticMemberExpression,
};
use crate::concat;
use crate::context::{Ancestor, TraverseCtx};
use crate::laws;
use crate::outcome;
use vstd::prelude::*;

verus! {

/// `node` is the call `object.concat(arguments)`.
pub open spec fn calls_concat(
    node: Expression,
    object: Expression,
    arguments: Seq<Argument>,
) -> bool {
    node matches Expression::CallExpression(ce) && ce.arguments@ == arguments && (
    ce.callee matches Expression::StaticMemberExpression(member) && !member.optional
        && member.property.name@ == "concat"@ && member.object == object)
}

/// The expression is the object of some member access.
pub open spec fn is_object(ctx: TraverseCtx) -> bool {
    ctx.parent is StaticMemberExpressionObject
}

/// The expression is the object of `object.concat`.
pub open spec fn is_object_of_concat(ctx: TraverseCtx) -> bool {
    ctx.parent matches Ancestor::StaticMemberExpressionObject { property } && property@
        == "concat"@
}

/// The elements that an argument is worth, where its syntax tells: a literal is one, an array
/// literal is its own.
pub open spec fn worth(argument: Argument) -> Option<Seq<ArrayExpressionElement>> {
    match argument {
        Argument::SpreadElement(_) => None,
        Argument::Expression(e) => match e {
            Expression::ArrayExpression(array) => Some(array.elements@),
            Expression::BooleanLiteral(_)
            | Expression::NullLiteral(_)
            | Expression::NumericLiteral(_)
            | Expression::BigIntLiteral(_)
            | Expression::RegExpLiteral(_)
            | Expression::StringLiteral(_) => Some(seq![ArrayExpressionElement::Expression(e)]),
            _ => None,
        },
    }
}

/// The elements that the arguments are worth together, in their order.
pub open spec fn worth_of_all(arguments: Seq<Argument>) -> Seq<ArrayExpressionElement> {
    arguments.map_values(|argument: Argument| worth(argument)->0).flatten()
}

/// The array literal `base`, with other elements.
pub open spec fn array_with(
    e: Expression,
    base: ArrayExpression,
    elements: Seq<ArrayExpressionElement>,
) -> bool {
    e matches Expression::ArrayExpression(array) && array.span == base.span && array.trailing_comma
        == base.trailing_comma && array.elements@ == elements
}

/// `e` is `base.concat(arguments)` with the first `k` arguments moved into the array: the array
/// alone where those are all, else a call at `span` with the others.
pub open spec fn moved_in(
    e: Expression,
    span: Span,
    member: StaticMemberExpression,
    base: ArrayExpression,
    arguments: Seq<Argument>,
    k: int,
) -> bool {
    let elements = base.elements@ + worth_of_all(arguments.take(k));
    if k == arguments.len() {
        array_with(e, base, elements)
    } else {
        &&& e matches Expression::CallExpression(call)
        &&& call.span == span
        &&& call.arguments@ == arguments.skip(k)
        &&& call.type_parameters is None
        &&& !call.optional
        &&& call.callee matches Expression::StaticMemberExpression(m)
        &&& m.span == member.span
        &&& m.property == member.property
        &&& m.optional == member.optional
        &&& array_with(m.object, base, elements)
    }
}

/// The first `k` arguments are all those at the front whose worth is known.
pub open spec fn known_front(arguments: Seq<Argument>, k: int) -> bool {
    &&& 0 <= k <= arguments.len()
    &&& forall|i: int| 0 <= i < k ==> worth(#[trigger] arguments[i]) is Some
    &&& k < arguments.len() ==> worth(arguments[k]) is None
}

proof fn lemma_worth(argument: Argument)
    ensures
        concat::mergeable(argument) == (worth(argument) is Some),
        worth(argument) is Some ==> concat::contributed(argument) == worth(argument)->0,
{
}

proof fn lemma_known_front(arguments: Seq<Argument>)
    ensures
        known_front(arguments, concat::merge_count(arguments) as int),
{
    concat::lemma_front_mergeable(arguments);
    let k = concat::merge_count(arguments) as int;
    assert forall|i: int| 0 <= i < k implies worth(#[trigger] arguments[i]) is Some by {
        lemma_worth(arguments[i]);
    }
    if k < arguments.len() {
        lemma_worth(arguments[k]);
    }
}

proof fn lemma_worth_of_all(arguments: Seq<Argument>)
    requires
        forall|i: int| 0 <= i < arguments.len() ==> worth(#[trigger] arguments[i]) is Some,
    ensures
        concat::all_contributed(arguments) == worth_of_all(arguments),
    decreases arguments.len(),
{
    let each = arguments.map_values(|argument: Argument| worth(argument)->0);
    if arguments.len() > 0 {
        let rest = arguments.drop_first();
        lemma_worth(arguments[0]);
        assert forall|i: int| 0 <= i < rest.len() implies worth(#[trigger] rest[i]) is Some by {
            assert(rest[i] == arguments[i + 1]);
        }
        lemma_worth_of_all(rest);
        assert(each.drop_first() =~= rest.map_values(
            |argument: Argument| worth(argument)->0,
        ));
        assert(each.first() == concat::contributed(arguments[0]));
    }
}

proof fn lemma_moved_in(
    e: Expression,
    span: Span,
    member: StaticMemberExpression,
    base: ArrayExpression,
    arguments: Seq<Argument>,
)
    requires
        concat::is_merged(e, span, member, base, arguments),
    ensures
        known_front(arguments, concat::merge_count(arguments) as int),
        moved_in(e, span, member, base, arguments, concat::merge_count(arguments) as int),
{
    lemma_known_front(arguments);
    let front = arguments.take(concat::merge_count(arguments) as int);
    assert forall|i: int| 0 <= i < front.len() implies worth(#[trigger] front[i]) is Some by {
        assert(front[i] == arguments[i]);
    }
    lemma_worth_of_all(front);
}

/// `[..].concat(..)` stays as it is where it is the object of another call of `concat`, or where
/// its first argument is one whose worth is not known, and in no other case.
pub proof fn law_concat_of_an_array_stays(
    node: Expression,
    ctx: TraverseCtx,
    base: ArrayExpression,
    arguments: Seq<Argument>,
)
    requires
        calls_concat(node, Expression::ArrayExpression(base), arguments),
    ensures
        !outcome::folds(node, ctx) <==> {
            ||| is_object_of_concat(ctx)
            ||| arguments.len() > 0 && worth(arguments[0]) is None
        },
{
    outcome::lemma_concat_outcome(*node->CallExpression_0, ctx);
    lemma_known_front(arguments);
    if arguments.len() > 0 {
        lemma_worth(arguments[0]);
    }
}

/// Where `[..].concat(..)` is folded, every argument at the front whose worth is known moves into
/// the array, each as exactly the elements that it is worth, and the others stay arguments.
pub proof fn law_concat_of_an_array(
    node: Expression,
    ctx: TraverseCtx,
    base: ArrayExpression,
    arguments: Seq<Argument>,
    e: Expression,
) -> (k: int)
    requires
        calls_concat(node, Expression::ArrayExpression(base), arguments),
        outcome::folds(node, ctx),
        outcome::is_folded(node, ctx, e),
    ensures
        known_front(arguments, k),
        moved_in(
            e,
            node->CallExpression_0.span,
            *node->CallExpression_0.callee->StaticMemberExpression_0,
            base,
            arguments,
            k,
        ),
{
    let ce = *node->CallExpression_0;
    outcome::lemma_concat_outcome(ce, ctx);
    lemma_moved_in(e, ce.span, *ce.callee->StaticMemberExpression_0, base, arguments);
    concat::merge_count(arguments) as int
}

/// `object.concat(..)` stays as it is where the object is neither an array literal nor a call.
pub proof fn law_concat_of_others_stays(
    node: Expression,
    ctx: TraverseCtx,
    object: Expression,
    arguments: Seq<Argument>,
)
    requires
        calls_concat(node, object, arguments),
        !(object is ArrayExpression || object is CallExpression),
    ensures
        !outcome::folds(node, ctx),
{
    outcome::lemma_concat_outcome(*node->CallExpression_0, ctx);
    assert(concat::chain(object) is None);
}

/// `object['concat'](..)` stays as it is.
pub proof fn law_concat_in_brackets_stays(node: Expression, ctx: TraverseCtx)
    requires
        node matches Expression::CallExpression(ce) && (
        ce.callee matches Expression::ComputedMemberExpression(member) && (
        member.expression matches Expression::StringLiteral(s) && s.value@ == "concat"@)),
    ensures
        !outcome::folds(node, ctx),
{
    let ce = *node->CallExpression_0;
    let member = ce.callee->ComputedMemberExpression_0;
    if !member.optional {
        outcome::lemma_method_outcome(ce, ctx, "concat"@, member.object);
    }
}

/// The callee of the innermost of calls of one another's results.
pub open spec fn innermost_callee(e: Expression) -> Expression
    decreases e,
{
    match e {
        Expression::CallExpression(call) => match call.callee {
            Expression::StaticMemberExpression(member) => if member.object is CallExpression {
                innermost_callee(member.object)
            } else {
                call.callee
            },
            _ => call.callee,
        },
        _ => e,
    }
}

/// The arguments of calls of one another's results, those of the innermost first.
pub open spec fn all_arguments(e: Expression) -> Seq<Argument>
    decreases e,
{
    match e {
        Expression::CallExpression(call) => match call.callee {
            Expression::StaticMemberExpression(member) => if member.object is CallExpression {
                all_arguments(member.object) + call.arguments@
            } else {
                call.arguments@
            },
            _ => call.arguments@,
        },
        _ => Seq::empty(),
    }
}

proof fn lemma_chain(e: Expression)
    requires
        e is CallExpression,
    ensures
        concat::chain(e) is Some <==> laws::concat_value(e) is Some,
        concat::chain(e) matches Some(c) ==> c.callee == innermost_callee(e) && c.arguments
            == all_arguments(e),
    decreases e,
{
    let call = *e->CallExpression_0;
    if let Expression::StaticMemberExpression(member) = call.callee {
        if member.object is CallExpression {
            lemma_chain(member.object);
        }
    }
}

/// A chain of `concat` calls on an array or a string literal stays as it is where it is the object
/// of a member access; a chain on anything else stays in any case.
pub proof fn law_chain_stays(
    node: Expression,
    ctx: TraverseCtx,
    object: Expression,
    arguments: Seq<Argument>,
)
    requires
        calls_concat(node, object, arguments),
        object is CallExpression,
    ensures
        !outcome::folds(node, ctx) <==> {
            ||| is_object(ctx)
            ||| laws::concat_value(node) is None
        },
{
    outcome::lemma_concat_outcome(*node->CallExpression_0, ctx);
    lemma_chain(node);
    concat::lemma_chain_calls(object);
}

/// A chain of `concat` calls on a string literal becomes one call, at the place of the outermost,
/// of the innermost callee with the arguments of all the calls, those of the innermost first.
pub proof fn law_chain_on_a_string(
    node: Expression,
    ctx: TraverseCtx,
    object: Expression,
    arguments: Seq<Argument>,
    e: Expression,
)
    requires
        calls_concat(node, object, arguments),
        object is CallExpression,
        innermost_callee(node) matches Expression::StaticMemberExpression(member)
            && member.object is StringLiteral,
        outcome::folds(node, ctx),
        outcome::is_folded(node, ctx, e),
    ensures
        e matches Expression::CallExpression(call) && call.span == node->CallExpression_0.span
            && call.callee == innermost_callee(node) && call.arguments@ == all_arguments(node)
            && call.type_parameters is None && !call.optional,
{
    outcome::lemma_concat_outcome(*node->CallExpression_0, ctx);
    lemma_chain(node);
}

/// A chain of `concat` calls on an array literal becomes what one call with the arguments of all
/// the calls would, at the place of the outermost: the arguments at the front whose worth is
/// known move into the array.
pub proof fn law_chain_on_an_array(
    node: Expression,
    ctx: TraverseCtx,
    object: Expression,
    arguments: Seq<Argument>,
    base: ArrayExpression,
    e: Expression,
) -> (k: int)
    requires
        calls_concat(node, object, arguments),
        object is CallExpression,
        innermost_callee(node) matches Expression::StaticMemberExpression(member) && member.object
            == Expression::ArrayExpression(base),
        outcome::folds(node, ctx),
        outcome::is_folded(node, ctx, e),
    ensures
        known_front(all_arguments(node), k),
        moved_in(
            e,
            node->CallExpression_0.span,
            *innermost_callee(node)->StaticMemberExpression_0,
            base,
            all_arguments(node),
            k,
        ),
{
    let ce = *node->CallExpression_0;
    let all = all_arguments(node);
    let member = *innermost_callee(node)->StaticMemberExpression_0;
    outcome::lemma_concat_outcome(ce, ctx);
    lemma_chain(node);
    lemma_known_front(all);
    let k = concat::merge_count(all) as int;
    if concat::merges(all) {
        lemma_moved_in(e, ce.span, member, base, all);
    } else {
        assert(all.take(0) =~= Seq::empty());
        assert(all.skip(0) =~= all);
        lemma_worth_of_all(all.take(0));
        assert(base.elements@ + worth_of_all(all.take(0)) =~= base.elements@);
    }
    k
}

/// The one thing that the pass cannot handle is a call `object['concat'](..)` that is not itself
/// the object of a call of `concat`.
pub proof fn law_supported(node: Expression, ctx: TraverseCtx)
    ensures
        !outcome::supported(node, ctx) <==> {
            &&& !is_object_of_concat(ctx)
            &&& node matches Expression::CallExpression(ce)
            &&& ce.callee matches Expression::ComputedMemberExpression(member)
            &&& !member.optional
            &&& member.expression matches Expression::StringLiteral(s)
            &&& s.value@ == "concat"@
        },
{
}

/// What is left of the callee after a merge is a `null` literal, in place of the object where the
/// worth of every argument is known, else in place of the whole callee.
pub proof fn law_emptied(
    callee: Expression,
    member: StaticMemberExpression,
    arguments: Seq<Argument>,
)
    requires
        concat::is_emptied(callee, member, arguments),
    ensures
        if known_front(arguments, arguments.len() as int) {
            &&& callee matches Expression::StaticMemberExpression(m)
            &&& m.span == member.span
            &&& m.property == member.property
            &&& m.optional == member.optional
            &&& m.object matches Expression::NullLiteral(lit)
            &&& lit.span == (Span { start: 0, end: 0 })
        } else {
            &&& callee matches Expression::NullLiteral(lit)
            &&& lit.span == (Span { start: 0, end: 0 })
        },
{
    lemma_known_front(arguments);
    let k = concat::merge_count(arguments) as int;
    if k < arguments.len() {
        assert(worth(arguments[k]) is None);
    }
}

} // verus!
