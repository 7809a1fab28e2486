//! Calls of `concat` on array and string literals.
use crate::ast::{
    Argument, ArrayExpression, ArrayExpressionElement, CallExpression, Expression, Span,
    StaticMemberExpression,
};
use vstd::prelude::*;

verus! {

/// A chain of `concat` calls, seen as one call.
pub struct Chain {
    /// The callee of the innermost call.
    pub callee: Expression,
    /// The arguments of all the calls, in the order in which they are evaluated.
    pub arguments: Seq<Argument>,
    /// How many calls there are.
    pub calls: nat,
}

/// The expression is an array or a string literal, of which `concat` is known to be the built-in
/// method.
pub open spec fn concat_root(e: Expression) -> bool {
    e is ArrayExpression || e is StringLiteral
}

/// The callee is `object.concat`.
pub open spec fn concat_callee(callee: Expression) -> bool {
    callee matches Expression::StaticMemberExpression(member) && !member.optional
        && member.property.name@ == "concat"@
}

/// The chain that the expression is: `concat` calls, one on the result of the other, on an array
/// or a string literal.
pub open spec fn chain(e: Expression) -> Option<Chain>
    decreases e,
{
    match e {
        Expression::CallExpression(call) => match call.callee {
            Expression::StaticMemberExpression(member) => if concat_callee(call.callee) {
                if concat_root(member.object) {
                    Some(
                        Chain { callee: call.callee, arguments: call.arguments@, calls: 1 },
                    )
                } else {
                    match chain(member.object) {
                        Some(inner) => Some(
                            Chain {
                                callee: inner.callee,
                                arguments: inner.arguments + call.arguments@,
                                calls: inner.calls + 1,
                            },
                        ),
                        None => None,
                    }
                }
            } else {
                None
            },
            _ => None,
        },
        _ => None,
    }
}

/// The expression is the call that a pass writes at `span`.
pub open spec fn is_call(
    e: Expression,
    span: Span,
    callee: Expression,
    arguments: Seq<Argument>,
) -> bool {
    e matches Expression::CallExpression(call) && call.span == span && call.callee == callee
        && call.type_parameters is None && call.arguments@ == arguments && !call.optional
}

/// Argument lists that were gathered from the outermost call inwards, put in the order of
/// evaluation.
pub open spec fn unwound(lists: Seq<Vec<Argument>>) -> Seq<Argument>
    decreases lists.len(),
{
    if lists.len() == 0 {
        Seq::empty()
    } else {
        lists.last()@ + unwound(lists.drop_last())
    }
}

/// Whether an expression is an array or a string literal.
pub fn is_concat_root(e: &Expression) -> (r: bool)
    ensures
        r == concat_root(*e),
{
    match e {
        Expression::ArrayExpression(_) | Expression::StringLiteral(_) => true,
        _ => false,
    }
}

/// Whether a callee is `object.concat`.
pub fn is_concat_callee(callee: &Expression) -> (r: bool)
    ensures
        r == concat_callee(*callee),
{
    match callee {
        Expression::StaticMemberExpression(member) => !member.optional
            && *member.property.name.as_str() == *"concat",
        _ => false,
    }
}

/// Whether an expression is a chain of two or more `concat` calls.
pub fn is_long_chain(node: &Expression) -> (r: bool)
    ensures
        r == (chain(*node) matches Some(c) && c.calls > 1),
{
    let mut current: &Expression = node;
    let mut several: bool = false;
    loop
        invariant
            several ==> (chain(*node) matches Some(c) && c.calls > 1) == (chain(*current) is Some),
            several ==> (chain(*current) matches Some(c) ==> c.calls > 0),
            !several ==> current == node,
        decreases *current,
    {
        match current {
            Expression::CallExpression(call) => match &call.callee {
                Expression::StaticMemberExpression(member) => {
                    if !is_concat_callee(&call.callee) {
                        return false;
                    }
                    if is_concat_root(&member.object) {
                        return several;
                    }
                    proof {
                        lemma_chain_calls(member.object);
                    }
                    several = true;
                    current = &member.object;
                },
                _ => {
                    return false;
                },
            },
            _ => {
                return false;
            },
        }
    }
}

/// A chain has a call.
pub proof fn lemma_chain_calls(e: Expression)
    ensures
        chain(e) matches Some(c) ==> c.calls > 0,
    decreases e,
{
    if let Expression::CallExpression(call) = e {
        if let Expression::StaticMemberExpression(member) = call.callee {
            lemma_chain_calls(member.object);
        }
    }
}

/// Turns a chain of `concat` calls into one call, at the place of the outermost.
pub fn flatten_chain(node: Expression) -> (r: Expression)
    requires
        chain(node) is Some,
    ensures
        chain(node) matches Some(c) && node matches Expression::CallExpression(outer) && is_call(
            r,
            outer.span,
            c.callee,
            c.arguments,
        ),
{
    let ghost whole = chain(node)->0;
    let span: Span = match &node {
        Expression::CallExpression(call) => call.span,
        _ => Span { start: 0, end: 0 },
    };
    let mut current: Expression = node;
    let mut lists: Vec<Vec<Argument>> = Vec::new();
    let root: Expression;
    loop
        invariant_except_break
            chain(current) matches Some(c) && c.callee == whole.callee && c.arguments + unwound(
                lists@,
            ) =~= whole.arguments,
        ensures
            root == whole.callee,
            unwound(lists@) =~= whole.arguments,
        decreases current,
    {
        match current {
            Expression::CallExpression(call) => {
                let CallExpression { callee, arguments, .. } = *call;
                let ghost gathered = lists@;
                lists.push(arguments);
                assert(lists@.drop_last() =~= gathered);
                match callee {
                    Expression::StaticMemberExpression(member) => {
                        if is_concat_root(&member.object) {
                            root = Expression::StaticMemberExpression(member);
                            break;
                        }
                        let StaticMemberExpression { object, .. } = *member;
                        current = object;
                    },
                    other => {
                        assert(false);
                        root = other;
                        break;
                    },
                }
            },
            other => {
                assert(false);
                root = other;
                break;
            },
        }
    }
    let mut arguments: Vec<Argument> = Vec::new();
    while lists.len() > 0
        invariant
            arguments@ + unwound(lists@) =~= whole.arguments,
        decreases lists.len(),
    {
        if let Some(mut list) = lists.pop() {
            arguments.append(&mut list);
        }
    }
    Expression::CallExpression(
        Box::new(
            CallExpression { span, callee: root, type_parameters: None, arguments, optional: false },
        ),
    )
}

/// The argument's contribution to the array is known: it is a literal, or an array literal.
pub open spec fn mergeable(argument: Argument) -> bool {
    argument matches Argument::Expression(e) && (e.literal() || e is ArrayExpression)
}

/// How many arguments at the front can be merged into the array.
pub open spec fn merge_count(arguments: Seq<Argument>) -> nat
    decreases arguments.len(),
{
    if arguments.len() > 0 && mergeable(arguments[0]) {
        1 + merge_count(arguments.drop_first())
    } else {
        0
    }
}

/// The elements that an argument contributes: itself, or the elements of an array.
pub open spec fn contributed(argument: Argument) -> Seq<ArrayExpressionElement> {
    match argument {
        Argument::Expression(Expression::ArrayExpression(array)) => array.elements@,
        Argument::Expression(e) => seq![ArrayExpressionElement::Expression(e)],
        Argument::SpreadElement(spread) => seq![ArrayExpressionElement::SpreadElement(spread)],
    }
}

/// The elements that a list of arguments contributes.
pub open spec fn all_contributed(arguments: Seq<Argument>) -> Seq<ArrayExpressionElement>
    decreases arguments.len(),
{
    if arguments.len() == 0 {
        Seq::empty()
    } else {
        contributed(arguments[0]) + all_contributed(arguments.drop_first())
    }
}

/// The array is `base` with other elements.
pub open spec fn is_array(
    e: Expression,
    base: ArrayExpression,
    elements: Seq<ArrayExpressionElement>,
) -> bool {
    e matches Expression::ArrayExpression(array) && array.span == base.span && array.elements@
        == elements && array.trailing_comma == base.trailing_comma
}

/// What stands for `base.concat(arguments)` at `span` after the arguments at the front have been
/// merged into the array: the array, where no argument is left, else a call with the rest of the
/// arguments.
pub open spec fn is_merged(
    e: Expression,
    span: Span,
    member: StaticMemberExpression,
    base: ArrayExpression,
    arguments: Seq<Argument>,
) -> bool {
    let k = merge_count(arguments) as int;
    let elements = base.elements@ + all_contributed(arguments.take(k));
    if k == arguments.len() {
        is_array(e, base, elements)
    } else {
        &&& e matches Expression::CallExpression(call)
        &&& is_call(e, span, call.callee, arguments.skip(k))
        &&& call.callee matches Expression::StaticMemberExpression(m)
        &&& m.span == member.span
        &&& m.property == member.property
        &&& m.optional == member.optional
        &&& is_array(m.object, base, elements)
    }
}

/// What is left of the callee `member` after the arguments at the front have been merged: where
/// no argument is left, the member without its object, else nothing.
pub open spec fn is_emptied(
    callee: Expression,
    member: StaticMemberExpression,
    arguments: Seq<Argument>,
) -> bool {
    if merge_count(arguments) == arguments.len() {
        &&& callee matches Expression::StaticMemberExpression(m)
        &&& m.span == member.span
        &&& m.object.is_placeholder()
        &&& m.property == member.property
        &&& m.optional == member.optional
    } else {
        callee.is_placeholder()
    }
}

/// Something comes of merging: there is an argument to merge, or none at all.
pub open spec fn merges(arguments: Seq<Argument>) -> bool {
    merge_count(arguments) > 0 || arguments.len() == 0
}

proof fn lemma_merge_count(arguments: Seq<Argument>, k: int)
    requires
        0 <= k <= arguments.len(),
        forall|i: int| 0 <= i < k ==> mergeable(#[trigger] arguments[i]),
        k < arguments.len() ==> !mergeable(arguments[k]),
    ensures
        merge_count(arguments) == k,
    decreases k,
{
    if k > 0 {
        assert(mergeable(arguments[0]));
        let rest = arguments.drop_first();
        assert forall|i: int| 0 <= i < k - 1 implies mergeable(#[trigger] rest[i]) by {
            assert(rest[i] == arguments[i + 1]);
        }
        lemma_merge_count(rest, k - 1);
    }
}

/// What one more argument adds.
pub proof fn lemma_all_contributed_push(arguments: Seq<Argument>, last: Argument)
    ensures
        all_contributed(arguments.push(last)) == all_contributed(arguments) + contributed(last),
    decreases arguments.len(),
{
    if arguments.len() == 0 {
        assert(arguments.push(last).drop_first() =~= Seq::<Argument>::empty());
        assert(all_contributed(arguments.push(last).drop_first()) =~= Seq::empty());
    } else {
        assert(arguments.push(last).drop_first() =~= arguments.drop_first().push(last));
        lemma_all_contributed_push(arguments.drop_first(), last);
    }
}

/// How many arguments at the front of a list can be merged.
pub fn count_mergeable(arguments: &Vec<Argument>) -> (r: usize)
    ensures
        r == merge_count(arguments@),
        r <= arguments@.len(),
{
    let mut k: usize = 0;
    while k < arguments.len()
        invariant
            k <= arguments@.len(),
            forall|i: int| 0 <= i < k ==> mergeable(#[trigger] arguments@[i]),
        decreases arguments@.len() - k,
    {
        let stop: bool = match &arguments[k] {
            Argument::SpreadElement(_) => true,
            Argument::Expression(e) => match e {
                Expression::ArrayExpression(_) => false,
                _ => !e.is_literal(),
            },
        };
        if stop {
            proof {
                lemma_merge_count(arguments@, k as int);
            }
            return k;
        }
        k = k + 1;
    }
    proof {
        lemma_merge_count(arguments@, k as int);
    }
    k
}

/// Appends what each argument contributes to an array.
fn append_all(elements: &mut Vec<ArrayExpressionElement>, arguments: Vec<Argument>)
    requires
        forall|i: int| 0 <= i < arguments@.len() ==> mergeable(#[trigger] arguments@[i]),
    ensures
        final(elements)@ == old(elements)@ + all_contributed(arguments@),
{
    let ghost list = arguments@;
    assert(list.take(0) =~= Seq::empty());
    for argument in it: arguments
        invariant
            it.seq() == list,
            elements@ == old(elements)@ + all_contributed(list.take(it.index() as int)),
    {
        let ghost i = it.index() as int;
        proof {
            assert(list.take(i + 1) =~= list.take(i).push(list[i]));
            lemma_all_contributed_push(list.take(i), list[i]);
        }
        match argument {
            Argument::Expression(Expression::ArrayExpression(mut array)) => {
                elements.append(&mut array.elements);
            },
            Argument::Expression(e) => {
                elements.push(ArrayExpressionElement::Expression(e));
            },
            Argument::SpreadElement(spread) => {
                elements.push(ArrayExpressionElement::SpreadElement(spread));
            },
        }
    }
    assert(list.take(list.len() as int) =~= list);
}

/// Merges arguments into an array.
fn merge_into(object: Expression, arguments: Vec<Argument>) -> (r: Expression)
    requires
        object is ArrayExpression,
        forall|i: int| 0 <= i < arguments@.len() ==> mergeable(#[trigger] arguments@[i]),
    ensures
        object matches Expression::ArrayExpression(base) && is_array(
            r,
            base,
            base.elements@ + all_contributed(arguments@),
        ),
{
    match object {
        Expression::ArrayExpression(array) => {
            let ArrayExpression { span, elements, trailing_comma } = array;
            let mut elements: Vec<ArrayExpressionElement> = elements;
            append_all(&mut elements, arguments);
            Expression::ArrayExpression(ArrayExpression { span, elements, trailing_comma })
        },
        other => other,
    }
}

/// Merges the arguments at the front of a `concat` call into the array it is called on, and takes
/// what becomes of it out of the call.
pub fn merge(ce: &mut CallExpression) -> (r: Expression)
    requires
        old(ce).callee matches Expression::StaticMemberExpression(m)
            && m.object is ArrayExpression,
    ensures
        old(ce).callee matches Expression::StaticMemberExpression(m)
            && m.object matches Expression::ArrayExpression(base) && is_merged(
            r,
            old(ce).span,
            *m,
            base,
            old(ce).arguments@,
        ) && is_emptied(final(ce).callee, *m, old(ce).arguments@),
        final(ce).arguments@.len() == 0,
        final(ce).span == old(ce).span,
        final(ce).type_parameters == old(ce).type_parameters,
        final(ce).optional == old(ce).optional,
{
    let mut front: Vec<Argument> = Vec::new();
    core::mem::swap(&mut front, &mut ce.arguments);
    let ghost arguments = front@;
    let k: usize = count_mergeable(&front);
    let rest: Vec<Argument> = front.split_off(k);
    proof {
        assert(front@ =~= arguments.take(k as int));
        assert(rest@ =~= arguments.skip(k as int));
        lemma_front_mergeable(arguments);
    }
    let mut callee: Expression = Expression::placeholder();
    core::mem::swap(&mut callee, &mut ce.callee);
    match callee {
        Expression::StaticMemberExpression(member) => {
            let StaticMemberExpression { span, object, property, optional } = *member;
            let merged: Expression = merge_into(object, front);
            if rest.len() == 0 {
                let object: Expression = Expression::placeholder();
                ce.callee = Expression::StaticMemberExpression(
                    Box::new(StaticMemberExpression { span, object, property, optional }),
                );
                merged
            } else {
                let callee: Expression = Expression::StaticMemberExpression(
                    Box::new(StaticMemberExpression { span, object: merged, property, optional }),
                );
                Expression::CallExpression(
                    Box::new(
                        CallExpression {
                            span: ce.span,
                            callee,
                            type_parameters: None,
                            arguments: rest,
                            optional: false,
                        },
                    ),
                )
            }
        },
        other => other,
    }
}

/// The arguments that are counted are mergeable, and the next one is not.
pub proof fn lemma_front_mergeable(arguments: Seq<Argument>)
    ensures
        merge_count(arguments) <= arguments.len(),
        forall|i: int| 0 <= i < merge_count(arguments) ==> mergeable(#[trigger] arguments[i]),
        merge_count(arguments) < arguments.len() ==> !mergeable(
            arguments[merge_count(arguments) as int],
        ),
    decreases arguments.len(),
{
    if arguments.len() > 0 && mergeable(arguments[0]) {
        let rest = arguments.drop_first();
        lemma_front_mergeable(rest);
        assert forall|i: int| 0 <= i < merge_count(arguments) implies mergeable(
            #[trigger] arguments[i],
        ) by {
            if i > 0 {
                assert(rest[i - 1] == arguments[i]);
            }
        }
    }
}

} // verus!
