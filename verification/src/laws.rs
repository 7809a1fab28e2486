//! What holds of the pass as a whole.
use crate::ast::{
    Argument, ArrayExpressionElement, CallExpression, Expression, StaticMemberExpression,
    StringLiteral,
};
use crate::concat;
use crate::context::TraverseCtx;
use crate::number;
use crate::number::Number;
use crate::outcome;
use crate::outcome::Outcome;
use crate::text;
use crate::text_laws;
use vstd::prelude::*;

verus! {

/// A part of what a `concat` expression evaluates to.
pub enum Piece {
    /// The string that the others are appended to.
    Root(StringLiteral),
    /// An element of the resulting array.
    Element(ArrayExpressionElement),
    /// What an argument contributes, where that is known only when the program runs.
    Argument(Argument),
}

/// The parts that array elements are.
pub open spec fn element_pieces(elements: Seq<ArrayExpressionElement>) -> Seq<Piece> {
    elements.map_values(|element: ArrayExpressionElement| Piece::Element(element))
}

/// The parts that an argument adds to an array: a literal is one element, an array literal gives
/// its own, and what anything else adds is not known.
pub open spec fn array_pieces(argument: Argument) -> Seq<Piece> {
    match argument {
        Argument::SpreadElement(_) => seq![Piece::Argument(argument)],
        Argument::Expression(e) => match e {
            Expression::ArrayExpression(array) => element_pieces(array.elements@),
            Expression::BooleanLiteral(_)
            | Expression::NullLiteral(_)
            | Expression::NumericLiteral(_)
            | Expression::BigIntLiteral(_)
            | Expression::RegExpLiteral(_)
            | Expression::StringLiteral(_) => seq![
                Piece::Element(ArrayExpressionElement::Expression(e)),
            ],
            _ => seq![Piece::Argument(argument)],
        },
    }
}

/// The parts that arguments add: to a string, themselves.
pub open spec fn argument_pieces(arguments: Seq<Argument>, to_text: bool) -> Seq<Piece>
    decreases arguments.len(),
{
    if arguments.len() == 0 {
        Seq::empty()
    } else if to_text {
        argument_pieces(arguments.drop_last(), to_text).push(Piece::Argument(arguments.last()))
    } else {
        argument_pieces(arguments.drop_last(), to_text) + array_pieces(arguments.last())
    }
}

/// The parts start with a string.
pub open spec fn starts_with_text(pieces: Seq<Piece>) -> bool {
    pieces.len() > 0 && pieces[0] is Root
}

/// What an array literal, a string literal, or a chain of `concat` calls on one is made of, in
/// the order of evaluation.
pub open spec fn concat_value(e: Expression) -> Option<Seq<Piece>>
    decreases e,
{
    match e {
        Expression::ArrayExpression(array) => Some(element_pieces(array.elements@)),
        Expression::StringLiteral(s) => Some(seq![Piece::Root(s)]),
        Expression::CallExpression(call) => match call.callee {
            Expression::StaticMemberExpression(member) => if concat::concat_callee(call.callee) {
                match concat_value(member.object) {
                    Some(pieces) => Some(
                        pieces + argument_pieces(call.arguments@, starts_with_text(pieces)),
                    ),
                    None => None,
                }
            } else {
                None
            },
            _ => None,
        },
        _ => None,
    }
}

proof fn lemma_argument_pieces_add(a: Seq<Argument>, b: Seq<Argument>, to_text: bool)
    ensures
        argument_pieces(a + b, to_text) == argument_pieces(a, to_text) + argument_pieces(
            b,
            to_text,
        ),
    decreases b.len(),
{
    if b.len() == 0 {
        assert(a + b =~= a);
    } else {
        assert((a + b).drop_last() =~= a + b.drop_last());
        lemma_argument_pieces_add(a, b.drop_last(), to_text);
    }
}

proof fn lemma_merged_pieces(arguments: Seq<Argument>)
    requires
        forall|i: int|
            0 <= i < arguments.len() ==> concat::mergeable(#[trigger] arguments[i]),
    ensures
        argument_pieces(arguments, false) == element_pieces(concat::all_contributed(arguments)),
    decreases arguments.len(),
{
    if arguments.len() == 0 {
        assert(argument_pieces(arguments, false) =~= element_pieces(Seq::empty()));
    } else {
        let front = arguments.drop_last();
        let last = arguments.last();
        assert(concat::mergeable(last));
        assert(arguments =~= front.push(last));
        concat::lemma_all_contributed_push(front, last);
        assert forall|i: int| 0 <= i < front.len() implies concat::mergeable(
            #[trigger] front[i],
        ) by {
            assert(front[i] == arguments[i]);
        }
        lemma_merged_pieces(front);
        assert(array_pieces(last) =~= element_pieces(concat::contributed(last)));
        assert(element_pieces(concat::all_contributed(front) + concat::contributed(last))
            =~= element_pieces(concat::all_contributed(front)) + element_pieces(
            concat::contributed(last),
        ));
    }
}

/// The value of a chain is that of the innermost object with all the arguments added.
proof fn lemma_chain_value(e: Expression)
    requires
        concat::chain(e) is Some,
    ensures
        concat::chain(e) matches Some(c) && c.callee matches Expression::StaticMemberExpression(
            member,
        ) && concat_value(member.object) matches Some(pieces) && concat_value(e) == Some(
            pieces + argument_pieces(c.arguments, starts_with_text(pieces)),
        ),
    decreases e,
{
    if let Expression::CallExpression(call) = e {
        if let Expression::StaticMemberExpression(member) = call.callee {
            if !concat::concat_root(member.object) {
                lemma_chain_value(member.object);
                let inner = concat::chain(member.object)->0;
                let root = inner.callee->StaticMemberExpression_0.object;
                let pieces = concat_value(root)->0;
                let to_text = starts_with_text(pieces);
                lemma_argument_pieces_add(inner.arguments, call.arguments@, to_text);
                outcome::lemma_chain_callee(member.object);
                let whole = pieces + argument_pieces(inner.arguments, to_text);
                assert(starts_with_text(whole) == to_text) by {
                    if let Expression::StringLiteral(s) = root {
                        assert(pieces[0] is Root);
                    } else {
                        lemma_no_root(inner.arguments);
                        assert(forall|i: int| 0 <= i < pieces.len() ==> !(pieces[i] is Root));
                        if whole.len() > 0 && pieces.len() == 0 {
                            assert(whole[0] == argument_pieces(inner.arguments, to_text)[0]);
                        }
                    }
                }
                assert(whole + argument_pieces(call.arguments@, to_text) =~= pieces
                    + argument_pieces(inner.arguments + call.arguments@, to_text));
            }
        }
    }
}

proof fn lemma_no_root(arguments: Seq<Argument>)
    ensures
        forall|i: int|
            0 <= i < argument_pieces(arguments, false).len() ==> !(#[trigger] argument_pieces(
                arguments,
                false,
            )[i] is Root),
    decreases arguments.len(),
{
    if arguments.len() > 0 {
        lemma_no_root(arguments.drop_last());
    }
}

proof fn lemma_merge_value(
    e: Expression,
    ce: CallExpression,
    member: StaticMemberExpression,
    arguments: Seq<Argument>,
)
    requires
        member.object is ArrayExpression,
        !member.optional,
        member.property.name@ == "concat"@,
        concat::is_merged(
            e,
            ce.span,
            member,
            member.object->ArrayExpression_0,
            arguments,
        ),
    ensures
        concat_value(e) == Some(
            concat_value(member.object)->0 + argument_pieces(arguments, false),
        ),
{
    let base = member.object->ArrayExpression_0;
    let k = concat::merge_count(arguments) as int;
    concat::lemma_front_mergeable(arguments);
    let front = arguments.take(k);
    let rest = arguments.skip(k);
    assert(arguments =~= front + rest);
    lemma_argument_pieces_add(front, rest, false);
    assert forall|i: int| 0 <= i < front.len() implies concat::mergeable(#[trigger] front[i]) by {
        assert(front[i] == arguments[i]);
    }
    lemma_merged_pieces(front);
    let added = concat::all_contributed(front);
    assert(element_pieces(base.elements@ + added) =~= element_pieces(base.elements@)
        + element_pieces(added));
    if k == arguments.len() {
        assert(rest =~= Seq::empty());
        assert(argument_pieces(arguments, false) =~= element_pieces(added));
    } else {
        let merged = element_pieces(base.elements@ + added);
        assert(!starts_with_text(merged));
        let m = e->CallExpression_0.callee->StaticMemberExpression_0;
        assert(concat_value(m.object) == Some(merged));
        assert(concat_value(member.object) == Some(element_pieces(base.elements@)));
        assert(merged + argument_pieces(rest, false) =~= element_pieces(base.elements@)
            + argument_pieces(arguments, false));
    }
}

/// Folding a `concat` expression keeps what it evaluates to: the same parts in the same order,
/// and the arguments that are not known are evaluated in the order in which they were.
pub proof fn law_concat_value_kept(node: Expression, ctx: TraverseCtx, e: Expression)
    requires
        concat_value(node) is Some,
        outcome::folds(node, ctx),
        outcome::is_folded(node, ctx, e),
    ensures
        concat_value(e) == concat_value(node),
{
    let outer = node->CallExpression_0;
    if outcome::folds_chain(node, ctx) {
        let c = concat::chain(node)->0;
        lemma_chain_value(node);
        outcome::lemma_chain_callee(node);
        let member = *c.callee->StaticMemberExpression_0;
        if outcome::concat_array(c.callee, c.arguments, ctx) is Merge {
            lemma_merge_value(e, *outer, member, c.arguments);
        }
    } else {
        outcome::lemma_concat_outcome(*outer, ctx);
        let member = *outer.callee->StaticMemberExpression_0;
        lemma_merge_value(e, *outer, member, outer.arguments@);
    }
}

/// Whatever an expression is folded to is not folded again in the same place: one visit does all
/// there is to do.
pub proof fn law_folding_is_final(node: Expression, ctx: TraverseCtx, e: Expression)
    requires
        outcome::folds(node, ctx),
        outcome::is_folded(node, ctx, e),
    ensures
        !outcome::folds(e, ctx),
{
    let outer = node->CallExpression_0;
    if outcome::folds_chain(node, ctx) {
        let c = concat::chain(node)->0;
        outcome::lemma_chain_callee(node);
        if let Expression::CallExpression(call) = e {
            concat::lemma_front_mergeable(c.arguments);
            outcome::lemma_concat_outcome(*call, ctx);
        }
    } else if let Outcome::Merge = outcome::outcome(*outer, ctx) {
        concat::lemma_front_mergeable(outer.arguments@);
        if let Expression::CallExpression(call) = e {
            outcome::lemma_concat_outcome(*call, ctx);
        }
    }
}

/// An expression that is folded becomes another one, so the pass says that it has changed
/// something only where it has.
pub proof fn law_folding_changes(node: Expression, ctx: TraverseCtx, e: Expression)
    requires
        outcome::folds(node, ctx),
        outcome::is_folded(node, ctx, e),
    ensures
        e != node,
{
    law_folding_is_final(node, ctx, e);
}

/// The inner calls of a chain of `concat` calls are left alone, so that the outermost finds the
/// chain whole.
pub proof fn law_inner_concat_left_alone(node: Expression, ctx: TraverseCtx)
    requires
        ctx.in_concat(),
        node matches Expression::CallExpression(ce) && concat::concat_callee(ce.callee),
    ensures
        !outcome::folds(node, ctx),
{
    outcome::lemma_concat_outcome(*node->CallExpression_0, ctx);
}

/// A call on anything but a boolean, a number, a big integer, a string, an array, an identifier or
/// another call stays as it is. So calls on template literals, regular expressions and `null` do.
pub proof fn law_unknown_object_left_alone(node: Expression, ctx: TraverseCtx)
    requires
        node matches Expression::CallExpression(ce) && outcome::called_method(*ce) matches Some(
            (_, object),
        ) && !(object is BooleanLiteral || object is NumericLiteral || object is BigIntLiteral
            || object is StringLiteral || object is ArrayExpression || object is Identifier
            || object is CallExpression),
    ensures
        !outcome::folds(node, ctx),
{
    if let Expression::CallExpression(call) = node {
        if let Expression::StaticMemberExpression(member) = call.callee {
            assert(concat::chain(member.object) is None);
        }
    }
}

/// Neither a call on an optional member nor a call of anything but a member is touched.
pub proof fn law_other_callees_left_alone(node: Expression, ctx: TraverseCtx)
    requires
        node matches Expression::CallExpression(ce) ==> outcome::called_method(*ce) is None,
    ensures
        !outcome::folds(node, ctx),
{
}

/// `substring` and `slice` leave negative, out-of-bound and inverted indices alone.
pub proof fn law_bad_bounds_left_alone(
    ce: CallExpression,
    s: StringLiteral,
    ctx: TraverseCtx,
    start: Option<Number>,
    end: Option<Number>,
)
    requires
        start == outcome::argument_number(ce, ctx, 0),
        end == outcome::argument_number(ce, ctx, 1),
        ({
            let len = text::byte_len(s.value@);
            ||| start matches Some(v) && (v.below_integer(0) || v.above_integer(len))
            ||| end matches Some(v) && (v.below_integer(0) || v.above_integer(len))
            ||| start is Some && end is Some && end->0.below(start->0)
        }),
    ensures
        outcome::substring_or_slice(ce, Expression::StringLiteral(s), ctx) is Keep,
{
}

/// `substring` and `slice` leave an index alone whose value is not known, so a spread one too.
pub proof fn law_unknown_bounds_left_alone(ce: CallExpression, object: Expression, ctx: TraverseCtx)
    requires
        outcome::unknown_number(ce, ctx, 0) || outcome::unknown_number(ce, ctx, 1),
    ensures
        outcome::substring_or_slice(ce, object, ctx) is Keep,
{
}

/// `replace` and `replaceAll` are left alone where the replacement holds a `$`, and where either
/// argument is not known to be some string.
pub proof fn law_special_replacement_left_alone(
    ce: CallExpression,
    name: Seq<char>,
    object: Expression,
    ctx: TraverseCtx,
)
    requires
        match outcome::argument_string(ce, ctx, 1) {
            Some(to) => to.contains('$') || outcome::argument_string(ce, ctx, 0) is None,
            None => true,
        },
    ensures
        outcome::replace(ce, name, object, ctx) is Keep,
{
}

/// `indexOf` and `lastIndexOf` are left alone unless both strings are literals.
pub proof fn law_search_needs_literals(
    ce: CallExpression,
    name: Seq<char>,
    object: Expression,
)
    requires
        !(object is StringLiteral) || (ce.arguments@.len() > 0
            && !(ce.arguments@[0] matches Argument::Expression(Expression::StringLiteral(_)))),
    ensures
        outcome::index_of(ce, name, object) is Keep,
{
}

/// Where `charCodeAt` gives a code, `charAt` at the same index gives the character of that code.
pub proof fn law_char_at_agrees(
    ce: CallExpression,
    object: Expression,
    ctx: TraverseCtx,
    code: int,
)
    requires
        ce.arguments@.len() <= 1,
        ce.arguments@.len() == 1 ==> outcome::literal_index(ce.arguments@[0])
            == outcome::argument_number(ce, ctx, 0),
        outcome::char_code_at(ce, object, ctx) == Outcome::Integer(code),
    ensures
        outcome::char_at(ce, object) == Outcome::Text(seq![code as char]),
{
}

/// `fromCharCode` gives back the character that `charCodeAt` gave the code of.
pub proof fn law_char_code_round_trip(s: Seq<char>, index: Number, c: char, code: Number)
    requires
        outcome::char_at_number(s, index) == Some(c),
        code.converts(c as int),
    ensures
        outcome::char_of_code(code) == Some(c),
{
    let n = c as int;
    text::lemma_code_units(s);
    assert(text::utf16(s)[index.int_32()] == n);
    assert(0 <= n < 0x1_0000);
    number::lemma_nearest_exact(n as nat);
    number::lemma_whole_is_integer(code, n);
    assert(code.int_32() == n);
}

/// The argument is a numeric literal for the integer `n`.
pub open spec fn integer_literal(argument: Argument, n: int) -> bool {
    argument matches Argument::Expression(Expression::NumericLiteral(lit)) && lit.value.is_integer(n)
}

/// `'..'.slice(start, end)` with integers within the string and in order gives the characters from
/// the one up to the other; so does `substring`.
pub proof fn law_slice_of_literals(
    ce: CallExpression,
    ctx: TraverseCtx,
    name: Seq<char>,
    s: StringLiteral,
    start: int,
    end: int,
)
    requires
        ctx.agrees(ce),
        outcome::called_method(ce) == Some((name, Expression::StringLiteral(s))),
        name == "slice"@ || name == "substring"@,
        ce.arguments@.len() == 2,
        integer_literal(ce.arguments@[0], start),
        integer_literal(ce.arguments@[1], end),
        0 <= start <= end <= s.value@.len(),
        end < 0x8000_0000,
    ensures
        outcome::outcome(ce, ctx) == Outcome::Text(s.value@.subrange(start, end)),
{
    let object = Expression::StringLiteral(s);
    outcome::lemma_method_outcome(ce, ctx, name, object);
    let a = ce.arguments@[0]->Expression_0->NumericLiteral_0.value;
    let b = ce.arguments@[1]->Expression_0->NumericLiteral_0.value;
    assert(outcome::argument_number(ce, ctx, 0) == Some(a));
    assert(outcome::argument_number(ce, ctx, 1) == Some(b));
    number::lemma_small_integer(a, start);
    number::lemma_small_integer(b, end);
    number::lemma_integer_order(a, start, b, end);
    text_laws::law_byte_len(s.value@);
    text_laws::law_substring(s.value@, start, end);
}

/// `'..'.slice(start)` with an integer within the string gives the characters from there on; so
/// does `substring`.
pub proof fn law_slice_to_the_end(
    ce: CallExpression,
    ctx: TraverseCtx,
    name: Seq<char>,
    s: StringLiteral,
    start: int,
)
    requires
        ctx.agrees(ce),
        outcome::called_method(ce) == Some((name, Expression::StringLiteral(s))),
        name == "slice"@ || name == "substring"@,
        ce.arguments@.len() == 1,
        integer_literal(ce.arguments@[0], start),
        0 <= start <= s.value@.len(),
        start < 0x8000_0000,
    ensures
        outcome::outcome(ce, ctx) == Outcome::Text(s.value@.skip(start)),
{
    let object = Expression::StringLiteral(s);
    outcome::lemma_method_outcome(ce, ctx, name, object);
    let a = ce.arguments@[0]->Expression_0->NumericLiteral_0.value;
    assert(outcome::argument_number(ce, ctx, 0) == Some(a));
    number::lemma_small_integer(a, start);
    text_laws::law_byte_len(s.value@);
    assert(text::substring(s.value@, start, text::byte_len(s.value@) as int) =~= s.value@.skip(
        start,
    ));
}

/// `'..'.charCodeAt(i)` with an integer within the string gives the code of the character there,
/// up to the first character that takes two UTF-16 code units.
pub proof fn law_char_code_of_literals(
    ce: CallExpression,
    ctx: TraverseCtx,
    s: StringLiteral,
    i: int,
)
    requires
        ctx.agrees(ce),
        outcome::called_method(ce) == Some(("charCodeAt"@, Expression::StringLiteral(s))),
        ce.arguments@.len() > 0,
        integer_literal(ce.arguments@[0], i),
        0 <= i < s.value@.len(),
        i < 65536,
        forall|j: int| 0 <= j <= i ==> (#[trigger] s.value@[j] as int) < 0x1_0000,
    ensures
        outcome::outcome(ce, ctx) == Outcome::Integer(s.value@[i] as int),
{
    let object = Expression::StringLiteral(s);
    outcome::lemma_method_outcome(ce, ctx, "charCodeAt"@, object);
    let index = ce.arguments@[0]->Expression_0->NumericLiteral_0.value;
    assert(outcome::argument_number(ce, ctx, 0) == Some(index));
    number::lemma_small_integer(index, i);
    assert(index.below_integer(65536));
    text_laws::law_char_at(s.value@, i);
}

/// `'..'.replace(search, to)` and `'..'.replaceAll(search, to)` with string literals of which the
/// second holds no `$` replace the one by the other.
pub proof fn law_replace_of_literals(
    ce: CallExpression,
    ctx: TraverseCtx,
    name: Seq<char>,
    s: StringLiteral,
    search: StringLiteral,
    to: StringLiteral,
)
    requires
        ctx.agrees(ce),
        outcome::called_method(ce) == Some((name, Expression::StringLiteral(s))),
        ce.arguments@ == seq![
            Argument::Expression(Expression::StringLiteral(search)),
            Argument::Expression(Expression::StringLiteral(to)),
        ],
        !to.value@.contains('$'),
    ensures
        name == "replace"@ ==> outcome::outcome(ce, ctx) == Outcome::Text(
            text::replace_first(s.value@, search.value@, to.value@),
        ),
        name == "replaceAll"@ ==> outcome::outcome(ce, ctx) == Outcome::Text(
            text::replace_all(s.value@, search.value@, to.value@),
        ),
{
    outcome::lemma_method_outcome(ce, ctx, name, Expression::StringLiteral(s));
    reveal_strlit("replace");
    reveal_strlit("replaceAll");
    assert("replace"@.len() == 7 && "replaceAll"@.len() == 10);
    assert(ce.arguments@[0] == Argument::Expression(Expression::StringLiteral(search)));
    assert(ce.arguments@[1] == Argument::Expression(Expression::StringLiteral(to)));
    assert(outcome::argument_string(ce, ctx, 0) == Some(search.value@));
    assert(outcome::argument_string(ce, ctx, 1) == Some(to.value@));
}

proof fn lemma_literal_codes(
    ce: CallExpression,
    ctx: TraverseCtx,
    codes: Seq<int>,
    n: nat,
)
    requires
        ctx.agrees(ce),
        n <= codes.len() == ce.arguments@.len(),
        forall|i: int|
            0 <= i < codes.len() ==> integer_literal(#[trigger] ce.arguments@[i], codes[i]),
        forall|i: int|
            0 <= i < codes.len() ==> 0 <= #[trigger] codes[i] < 0x8000_0000 && text::is_scalar(
                codes[i] % 0x1_0000,
            ),
    ensures
        outcome::chars_of_codes(ce, ctx, n) == Some(Seq::new(n, |i: int| (codes[i] % 0x1_0000) as char)),
    decreases n,
{
    let chars = Seq::new(n, |i: int| (codes[i] % 0x1_0000) as char);
    if n == 0 {
        assert(chars =~= Seq::empty());
    } else {
        let last = n - 1;
        lemma_literal_codes(ce, ctx, codes, last as nat);
        assert(integer_literal(ce.arguments@[last], codes[last]));
        let v = ce.arguments@[last]->Expression_0->NumericLiteral_0.value;
        assert(outcome::argument_number(ce, ctx, last) == Some(v));
        assert(text::is_scalar(codes[last] % 0x1_0000));
        number::lemma_small_integer(v, codes[last]);
        assert(chars =~= Seq::new(last as nat, |i: int| (codes[i] % 0x1_0000) as char).push(
            (codes[last] % 0x1_0000) as char,
        ));
    }
}

/// `String.fromCharCode(..)` with integers of which the lowest 16 bits are codes of characters gives
/// those characters.
pub proof fn law_from_char_code_of_literals(
    ce: CallExpression,
    ctx: TraverseCtx,
    object: Expression,
    codes: Seq<int>,
)
    requires
        ctx.agrees(ce),
        ctx.object_is_global_reference,
        object is Identifier,
        outcome::called_method(ce) == Some(("fromCharCode"@, object)),
        codes.len() == ce.arguments@.len(),
        forall|i: int|
            0 <= i < codes.len() ==> integer_literal(#[trigger] ce.arguments@[i], codes[i]),
        forall|i: int|
            0 <= i < codes.len() ==> 0 <= #[trigger] codes[i] < 0x8000_0000 && text::is_scalar(
                codes[i] % 0x1_0000,
            ),
    ensures
        outcome::outcome(ce, ctx) == Outcome::Text(
            Seq::new(codes.len(), |i: int| (codes[i] % 0x1_0000) as char),
        ),
{
    outcome::lemma_method_outcome(ce, ctx, "fromCharCode"@, object);
    lemma_literal_codes(ce, ctx, codes, codes.len());
}

} // verus!
