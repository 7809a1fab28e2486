//! What becomes of the calls of each known method, said of the call and of what takes its place.
use crate::ast::{
    Argument, BigIntLiteral, BigintBase, BooleanLiteral, Expression, NumberBase, NumericLiteral,
    StringLiteral, UnaryOperator,
};
use crate::concat;
use crate::context::TraverseCtx;
use crate::number::Number;
use crate::outcome;
use crate::outside;
use crate::text;
use crate::text_laws;
use vstd::prelude::*;

verus! {

/// `node` is the call `object.name(arguments)` or `object['name'](arguments)`.
pub open spec fn calls(
    node: Expression,
    object: Expression,
    name: Seq<char>,
    arguments: Seq<Argument>,
) -> bool {
    node matches Expression::CallExpression(ce) && ce.arguments@ == arguments && match ce.callee {
        Expression::StaticMemberExpression(member) => !member.optional && member.property.name@
            == name && member.object == object,
        Expression::ComputedMemberExpression(member) => !member.optional && member.object == object
            && (member.expression matches Expression::StringLiteral(s) && s.value@ == name),
        _ => false,
    }
}

/// A string literal for `value`, with the span of the call, takes the place of `node`.
pub open spec fn gives_text(node: Expression, ctx: TraverseCtx, value: Seq<char>) -> bool {
    &&& outcome::folds(node, ctx)
    &&& forall|e: Expression| #[trigger]
        outcome::is_folded(node, ctx, e) ==> (e matches Expression::StringLiteral(lit) && lit.value@
            == value && lit.span == node->CallExpression_0.span && lit.raw is None)
}

/// A decimal numeric literal, with the span of the call, takes the place of `node`: the number
/// that the integer `n` converts to.
pub open spec fn gives_integer(node: Expression, ctx: TraverseCtx, n: int) -> bool {
    &&& outcome::folds(node, ctx)
    &&& forall|e: Expression| #[trigger]
        outcome::is_folded(node, ctx, e) ==> (e matches Expression::NumericLiteral(lit)
            && lit.value.converts(n) && lit.span == node->CallExpression_0.span && lit.raw is None
            && lit.base == NumberBase::Decimal)
}

/// A numeric literal for not-a-number, with the span of the call, takes the place of `node`.
pub open spec fn gives_nan(node: Expression, ctx: TraverseCtx) -> bool {
    &&& outcome::folds(node, ctx)
    &&& forall|e: Expression| #[trigger]
        outcome::is_folded(node, ctx, e) ==> (e matches Expression::NumericLiteral(lit)
            && lit.value.nan() && lit.value.bits == 0x7ff8_0000_0000_0000 && lit.span == node->CallExpression_0.span && lit.raw is None
            && lit.base == NumberBase::Decimal)
}

/// `node` stays as it is.
pub open spec fn stays(node: Expression, ctx: TraverseCtx) -> bool {
    !outcome::folds(node, ctx)
}

/// What becomes of a call of anything but `concat` is its outcome.
proof fn lemma_call(
    node: Expression,
    ctx: TraverseCtx,
    object: Expression,
    name: Seq<char>,
    arguments: Seq<Argument>,
)
    requires
        calls(node, object, name, arguments),
        name != "concat"@,
    ensures
        outcome::called_method(*node->CallExpression_0) == Some((name, object)),
        outcome::folds(node, ctx) == !(outcome::outcome(*node->CallExpression_0, ctx) is Keep),
        forall|e: Expression| #[trigger]
            outcome::is_folded(node, ctx, e) == outcome::outcome(
                *node->CallExpression_0,
                ctx,
            ).written(*node->CallExpression_0, e),
{
    outcome::lemma_method_outcome(*node->CallExpression_0, ctx, name, object);
    assert(concat::chain(node) is None);
}

/// The known methods.
pub open spec fn known_name(name: Seq<char>) -> bool {
    ||| string_method(name)
    ||| name == "concat"@
    ||| name == "fromCharCode"@
    ||| name == "toString"@
}

/// The known methods of strings alone.
pub open spec fn string_method(name: Seq<char>) -> bool {
    ||| name == "toLowerCase"@
    ||| name == "toUpperCase"@
    ||| name == "trim"@
    ||| name == "substring"@
    ||| name == "slice"@
    ||| name == "indexOf"@
    ||| name == "lastIndexOf"@
    ||| name == "charAt"@
    ||| name == "charCodeAt"@
    ||| name == "replace"@
    ||| name == "replaceAll"@
}

/// A call of a method that is not known stays as it is.
pub proof fn law_other_names_stay(
    node: Expression,
    ctx: TraverseCtx,
    object: Expression,
    name: Seq<char>,
    arguments: Seq<Argument>,
)
    requires
        calls(node, object, name, arguments),
        !known_name(name),
    ensures
        stays(node, ctx),
{
    lemma_call(node, ctx, object, name, arguments);
}

/// A method of strings on anything but a string literal stays as it is.
pub proof fn law_string_methods_need_a_string(
    node: Expression,
    ctx: TraverseCtx,
    object: Expression,
    name: Seq<char>,
    arguments: Seq<Argument>,
)
    requires
        calls(node, object, name, arguments),
        string_method(name),
        !(object is StringLiteral),
    ensures
        stays(node, ctx),
{
    outcome::lemma_names();
    lemma_call(node, ctx, object, name, arguments);
    outcome::lemma_method_outcome(*node->CallExpression_0, ctx, name, object);
}

/// What is no call, or a call of no member, or of an optional one, or of one whose name is
/// computed from anything but a string literal, stays as it is.
pub proof fn law_only_member_calls(node: Expression, ctx: TraverseCtx)
    requires
        forall|object: Expression, name: Seq<char>, arguments: Seq<Argument>|
            !#[trigger] calls(node, object, name, arguments),
    ensures
        stays(node, ctx),
{
    if let Expression::CallExpression(ce) = node {
        if let Expression::StaticMemberExpression(member) = ce.callee {
            assert(!calls(node, member.object, member.property.name@, ce.arguments@));
        }
        if let Expression::ComputedMemberExpression(member) = ce.callee {
            if let Expression::StringLiteral(s) = member.expression {
                assert(!calls(node, member.object, s.value@, ce.arguments@));
            }
        }
    }
}

/// `toLowerCase`, `toUpperCase` and `trim` with an argument stay as they are.
pub proof fn law_casing_takes_no_argument(
    node: Expression,
    ctx: TraverseCtx,
    object: Expression,
    name: Seq<char>,
    arguments: Seq<Argument>,
)
    requires
        calls(node, object, name, arguments),
        name == "toLowerCase"@ || name == "toUpperCase"@ || name == "trim"@,
        arguments.len() > 0,
    ensures
        stays(node, ctx),
{
    outcome::lemma_names();
    lemma_call(node, ctx, object, name, arguments);
    outcome::lemma_method_outcome(*node->CallExpression_0, ctx, name, object);
}

/// `'..'.toLowerCase()` of ASCII characters gives a string of as many characters, in which each
/// letter from A to Z has become the one 32 further on and all else is as it was.
pub proof fn law_to_lower_case(node: Expression, ctx: TraverseCtx, s: StringLiteral) -> (t: Seq<
    char,
>)
    requires
        calls(node, Expression::StringLiteral(s), "toLowerCase"@, Seq::empty()),
        forall|i: int| 0 <= i < s.value@.len() ==> (#[trigger] s.value@[i] as int) < 128,
    ensures
        gives_text(node, ctx, t),
        t.len() == s.value@.len(),
        forall|i: int|
            0 <= i < t.len() ==> #[trigger] t[i] as int == (if 65 <= s.value@[i] as int <= 90 {
                s.value@[i] as int + 32
            } else {
                s.value@[i] as int
            }),
{
    let object = Expression::StringLiteral(s);
    outcome::lemma_names();
    lemma_call(node, ctx, object, "toLowerCase"@, Seq::empty());
    outcome::lemma_method_outcome(*node->CallExpression_0, ctx, "toLowerCase"@, object);
    text::ascii_lowercase(s.value@)
}

/// `'..'.toUpperCase()` of ASCII characters gives a string of as many characters, in which each
/// letter from a to z has become the one 32 further back and all else is as it was.
pub proof fn law_to_upper_case(node: Expression, ctx: TraverseCtx, s: StringLiteral) -> (t: Seq<
    char,
>)
    requires
        calls(node, Expression::StringLiteral(s), "toUpperCase"@, Seq::empty()),
        forall|i: int| 0 <= i < s.value@.len() ==> (#[trigger] s.value@[i] as int) < 128,
    ensures
        gives_text(node, ctx, t),
        t.len() == s.value@.len(),
        forall|i: int|
            0 <= i < t.len() ==> #[trigger] t[i] as int == (if 97 <= s.value@[i] as int <= 122 {
                s.value@[i] as int - 32
            } else {
                s.value@[i] as int
            }),
{
    let object = Expression::StringLiteral(s);
    outcome::lemma_names();
    lemma_call(node, ctx, object, "toUpperCase"@, Seq::empty());
    outcome::lemma_method_outcome(*node->CallExpression_0, ctx, "toUpperCase"@, object);
    text::ascii_uppercase(s.value@)
}

/// `'..'.toLowerCase()` and `'..'.toUpperCase()` of other strings give what the Unicode tables say
/// of the whole string.
pub proof fn law_other_casing(node: Expression, ctx: TraverseCtx, s: StringLiteral, k: int)
    requires
        0 <= k < s.value@.len(),
        s.value@[k] as int >= 128,
    ensures
        calls(node, Expression::StringLiteral(s), "toLowerCase"@, Seq::empty()) ==> gives_text(
            node,
            ctx,
            outside::lowercase(s.value@),
        ),
        calls(node, Expression::StringLiteral(s), "toUpperCase"@, Seq::empty()) ==> gives_text(
            node,
            ctx,
            outside::uppercase(s.value@),
        ),
{
    let object = Expression::StringLiteral(s);
    outcome::lemma_names();
    assert(!text::ascii(s.value@));
    if calls(node, object, "toLowerCase"@, Seq::empty()) {
        lemma_call(node, ctx, object, "toLowerCase"@, Seq::empty());
        outcome::lemma_method_outcome(*node->CallExpression_0, ctx, "toLowerCase"@, object);
    }
    if calls(node, object, "toUpperCase"@, Seq::empty()) {
        lemma_call(node, ctx, object, "toUpperCase"@, Seq::empty());
        outcome::lemma_method_outcome(*node->CallExpression_0, ctx, "toUpperCase"@, object);
    }
}

/// `'..'.trim()` gives a stretch of the string with only white space outside it, which neither
/// starts nor ends with white space.
pub proof fn law_trim_call(node: Expression, ctx: TraverseCtx, s: StringLiteral) -> (r: (int, int))
    requires
        calls(node, Expression::StringLiteral(s), "trim"@, Seq::empty()),
    ensures
        0 <= r.0 <= r.1 <= s.value@.len(),
        gives_text(node, ctx, s.value@.subrange(r.0, r.1)),
        forall|i: int|
            0 <= i < r.0 || r.1 <= i < s.value@.len() ==> text::white_space(#[trigger] s.value@[i]),
        r.0 < r.1 ==> !text::white_space(s.value@[r.0]) && !text::white_space(s.value@[r.1 - 1]),
{
    let object = Expression::StringLiteral(s);
    let v = s.value@;
    outcome::lemma_names();
    lemma_call(node, ctx, object, "trim"@, Seq::empty());
    outcome::lemma_method_outcome(*node->CallExpression_0, ctx, "trim"@, object);
    text_laws::law_trim(v);
    let (a, b) = choose|a: int, b: int|
        #![trigger v.subrange(a, b)]
        0 <= a <= b <= v.len() && text::trim(v) == v.subrange(a, b) && (forall|i: int|
            0 <= i < a || b <= i < v.len() ==> text::white_space(#[trigger] v[i]));
    if a < b {
        assert(v.subrange(a, b)[0] == v[a]);
        assert(v.subrange(a, b).last() == v[b - 1]);
    }
    (a, b)
}

/// `t` stands in `s` at position `k`.
pub open spec fn stands_at(s: Seq<char>, t: Seq<char>, k: int) -> bool {
    &&& 0 <= k
    &&& k + t.len() <= s.len()
    &&& forall|j: int| 0 <= j < t.len() ==> s[k + j] == #[trigger] t[j]
}

proof fn lemma_stands_at(s: Seq<char>, t: Seq<char>)
    ensures
        forall|k: int| #[trigger] stands_at(s, t, k) == text::occurs_at(s, t, k),
{
    assert forall|k: int| #[trigger] stands_at(s, t, k) == text::occurs_at(s, t, k) by {
        if 0 <= k && k + t.len() <= s.len() {
            let sub = s.subrange(k, k + t.len());
            if stands_at(s, t, k) {
                assert(sub =~= t);
            }
            if sub == t {
                assert forall|j: int| 0 <= j < t.len() implies s[k + j] == #[trigger] t[j] by {
                    assert(sub[j] == s[k + j]);
                }
            }
        }
    }
}

/// The position that a call of `indexOf` or `lastIndexOf` starts at: a numeric literal as the
/// second argument, where a negative one counts as zero.
pub open spec fn starts_at(arguments: Seq<Argument>, from: int) -> bool {
    arguments.len() == 2 && (arguments[1] matches Argument::Expression(
        Expression::NumericLiteral(n),
    ) && from == (if n.value.int_32() < 0 {
        0
    } else {
        n.value.int_32()
    }))
}

/// `'..'.indexOf(t)` finds the first place from the start on at which `t` stands, or gives -1
/// where there is none. The place is the second result; the first is what the call gives: the
/// start plus the bytes from there up to the place, which is the place itself where the string is
/// ASCII. An empty `t` is found at the start, wherever that is.
pub proof fn law_index_of_call(
    node: Expression,
    ctx: TraverseCtx,
    s: StringLiteral,
    t: StringLiteral,
    arguments: Seq<Argument>,
    from: int,
) -> (r: (int, int))
    requires
        calls(node, Expression::StringLiteral(s), "indexOf"@, arguments),
        arguments.len() > 0,
        arguments[0] == Argument::Expression(Expression::StringLiteral(t)),
        arguments.len() == 1 && from == 0 || starts_at(arguments, from),
    ensures
        gives_integer(node, ctx, r.0),
        t.value@.len() == 0 ==> r.0 == from,
        t.value@.len() > 0 && r.0 == -1 ==> forall|k: int|
            from <= k ==> !#[trigger] stands_at(s.value@, t.value@, k),
        t.value@.len() > 0 && r.0 != -1 ==> {
            &&& from <= r.1
            &&& stands_at(s.value@, t.value@, r.1)
            &&& forall|k: int| from <= k < r.1 ==> !#[trigger] stands_at(s.value@, t.value@, k)
            &&& r.0 == from + text::byte_len(s.value@.subrange(from, r.1))
            &&& (forall|i: int| 0 <= i < s.value@.len() ==> (#[trigger] s.value@[i] as int) < 128)
                ==> r.0 == r.1
        },
{
    let object = Expression::StringLiteral(s);
    let (v, w) = (s.value@, t.value@);
    outcome::lemma_names();
    lemma_call(node, ctx, object, "indexOf"@, arguments);
    outcome::lemma_method_outcome(*node->CallExpression_0, ctx, "indexOf"@, object);
    lemma_stands_at(v, w);
    if w.len() == 0 {
        let rest = v.skip(text::at_most(from, v.len() as int));
        assert(rest.subrange(0, 0) =~= w);
        assert(text::first_occurrence(rest, w, 0) == Some(0int));
        assert(rest.take(0) =~= Seq::empty());
        text_laws::law_byte_len(rest.take(0));
        (from, from)
    } else {
        text_laws::law_index_of(v, w, from);
        text::lemma_first_occurrence(v, w, from);
        let p = match text::first_occurrence(v, w, from) {
            Some(p) => p,
            None => -1,
        };
        if p >= 0 {
            text_laws::law_byte_len(v.subrange(from, p));
            if forall|i: int| 0 <= i < v.len() ==> (#[trigger] v[i] as int) < 128 {
                let between = v.subrange(from, p);
                assert forall|i: int| 0 <= i < between.len() implies (#[trigger] between[i] as int)
                    < 0x80 by {
                    assert(between[i] == v[from + i]);
                }
            }
        }
        (text::index_of(v, w, from), p)
    }
}

/// `'..'.lastIndexOf(t)` finds the last place up to the start at which `t` stands, or gives -1
/// where there is none; without a start it finds the last place of all. Each byte of `t` beyond
/// one for a character lets the search go one further. The place is the second result; the first
/// is what the call gives: the bytes before the place, which is the place itself where the string
/// is ASCII.
pub proof fn law_last_index_of_call(
    node: Expression,
    ctx: TraverseCtx,
    s: StringLiteral,
    t: StringLiteral,
    arguments: Seq<Argument>,
    from: int,
) -> (r: (int, int))
    requires
        calls(node, Expression::StringLiteral(s), "lastIndexOf"@, arguments),
        arguments.len() > 0,
        arguments[0] == Argument::Expression(Expression::StringLiteral(t)),
        arguments.len() == 1 && from == s.value@.len() || starts_at(arguments, from),
    ensures
        gives_integer(node, ctx, r.0),
        ({
            let last = from + text::byte_len(t.value@) - t.value@.len();
            if r.0 == -1 {
                forall|k: int| k <= last ==> !#[trigger] stands_at(s.value@, t.value@, k)
            } else {
                &&& r.1 <= last
                &&& stands_at(s.value@, t.value@, r.1)
                &&& forall|k: int|
                    r.1 < k <= last ==> !#[trigger] stands_at(s.value@, t.value@, k)
                &&& r.0 == text::byte_len(s.value@.take(r.1))
                &&& (forall|i: int|
                    0 <= i < s.value@.len() ==> (#[trigger] s.value@[i] as int) < 128) ==> r.0
                    == r.1
            }
        }),
        (forall|i: int| 0 <= i < t.value@.len() ==> (#[trigger] t.value@[i] as int) < 128)
            ==> text::byte_len(t.value@) == t.value@.len(),
{
    let object = Expression::StringLiteral(s);
    let (v, w) = (s.value@, t.value@);
    outcome::lemma_names();
    lemma_call(node, ctx, object, "lastIndexOf"@, arguments);
    outcome::lemma_method_outcome(*node->CallExpression_0, ctx, "lastIndexOf"@, object);
    lemma_stands_at(v, w);
    text_laws::law_byte_len(w);
    let last = from + text::byte_len(w) - w.len();
    let found = if arguments.len() == 1 {
        text_laws::law_last_index_of_anywhere(v, w);
        text::lemma_last_occurrence(v, w, v.len() - w.len());
        text::last_occurrence(v, w, v.len() - w.len())
    } else {
        text_laws::law_last_index_of(v, w, from);
        text::lemma_last_occurrence(v, w, last);
        text::last_occurrence(v, w, last)
    };
    let p = match found {
        Some(p) => p,
        None => -1,
    };
    if found is Some {
        let front = v.take(p);
        text_laws::law_byte_len(front);
        if forall|i: int| 0 <= i < v.len() ==> (#[trigger] v[i] as int) < 128 {
            assert forall|i: int| 0 <= i < front.len() implies (#[trigger] front[i] as int)
                < 0x80 by {
                assert(front[i] == v[i]);
            }
        }
        (text::byte_len(front) as int, p)
    } else {
        (-1, -1)
    }
}

/// `indexOf` and `lastIndexOf` without an argument give -1. They stay as they are with three or
/// more arguments, with a first that is no string literal, or with a second that is no numeric
/// literal, and in no other case.
pub proof fn law_index_of_arguments(
    node: Expression,
    ctx: TraverseCtx,
    s: StringLiteral,
    name: Seq<char>,
    arguments: Seq<Argument>,
)
    requires
        calls(node, Expression::StringLiteral(s), name, arguments),
        name == "indexOf"@ || name == "lastIndexOf"@,
    ensures
        arguments.len() == 0 ==> gives_integer(node, ctx, -1),
        stays(node, ctx) <==> {
            ||| arguments.len() >= 3
            ||| arguments.len() >= 1 && !(arguments[0] matches Argument::Expression(
                Expression::StringLiteral(_),
            ))
            ||| arguments.len() >= 2 && !(arguments[1] matches Argument::Expression(
                Expression::NumericLiteral(_),
            ))
        },
{
    let object = Expression::StringLiteral(s);
    outcome::lemma_names();
    lemma_call(node, ctx, object, name, arguments);
    outcome::lemma_method_outcome(*node->CallExpression_0, ctx, name, object);
}

/// The number that argument `i` is, where it is given, is not spread, and is known.
pub open spec fn number_given(arguments: Seq<Argument>, ctx: TraverseCtx, i: int) -> Option<
    Number,
> {
    if 0 <= i < arguments.len() && !(arguments[i] is SpreadElement) && i
        < ctx.number_values@.len() {
        ctx.number_values@[i]
    } else {
        None
    }
}

/// The string that argument `i` is, where it is given, is not spread, and is known.
pub open spec fn string_given(arguments: Seq<Argument>, ctx: TraverseCtx, i: int) -> Option<
    Seq<char>,
> {
    if 0 <= i < arguments.len() && !(arguments[i] is SpreadElement) && i
        < ctx.string_values@.len() && ctx.string_values@[i] is Some {
        Some(ctx.string_values@[i]->0@)
    } else {
        None
    }
}

/// The position in a string of `len` characters that a bound stands for: its integer part in 32
/// bits, kept within the string.
pub open spec fn clipped(bound: Number, len: nat) -> int {
    if bound.int_32() < 0 {
        0
    } else if bound.int_32() > len {
        len as int
    } else {
        bound.int_32()
    }
}

/// `substring` and `slice` stay as they are with three or more arguments, with a bound that is not
/// known, negative or greater than the number of bytes, or with the end before the start, and in
/// no other case.
pub proof fn law_substring_arguments(
    node: Expression,
    ctx: TraverseCtx,
    s: StringLiteral,
    name: Seq<char>,
    arguments: Seq<Argument>,
)
    requires
        calls(node, Expression::StringLiteral(s), name, arguments),
        name == "substring"@ || name == "slice"@,
    ensures
        stays(node, ctx) <==> {
            let (start, end) = (number_given(arguments, ctx, 0), number_given(arguments, ctx, 1));
            let len = text::byte_len(s.value@);
            ||| arguments.len() >= 3
            ||| arguments.len() >= 1 && start is None
            ||| arguments.len() >= 2 && end is None
            ||| start matches Some(v) && (v.below_integer(0) || v.above_integer(len))
            ||| end matches Some(v) && (v.below_integer(0) || v.above_integer(len))
            ||| start matches Some(a) && (end matches Some(b) && b.below(a))
        },
{
    let object = Expression::StringLiteral(s);
    outcome::lemma_names();
    lemma_call(node, ctx, object, name, arguments);
    outcome::lemma_method_outcome(*node->CallExpression_0, ctx, name, object);
    let ce = *node->CallExpression_0;
    assert(outcome::argument_number(ce, ctx, 0) == number_given(arguments, ctx, 0));
    assert(outcome::argument_number(ce, ctx, 1) == number_given(arguments, ctx, 1));
}

/// Where `substring` or `slice` is folded, it gives the characters from the start, or the front of
/// the string, up to the end, or the end of the string.
pub proof fn law_substring_call(
    node: Expression,
    ctx: TraverseCtx,
    s: StringLiteral,
    name: Seq<char>,
    arguments: Seq<Argument>,
) -> (t: Seq<char>)
    requires
        calls(node, Expression::StringLiteral(s), name, arguments),
        name == "substring"@ || name == "slice"@,
        !stays(node, ctx),
    ensures
        gives_text(node, ctx, t),
        ({
            let len = s.value@.len();
            let a = match number_given(arguments, ctx, 0) {
                Some(v) => clipped(v, len),
                None => 0,
            };
            let b = match number_given(arguments, ctx, 1) {
                Some(v) => clipped(v, len),
                None => len as int,
            };
            &&& t.len() == (if a < b {
                b - a
            } else {
                0
            })
            &&& forall|i: int| 0 <= i < t.len() ==> #[trigger] t[i] == s.value@[a + i]
        }),
{
    let object = Expression::StringLiteral(s);
    outcome::lemma_names();
    lemma_call(node, ctx, object, name, arguments);
    outcome::lemma_method_outcome(*node->CallExpression_0, ctx, name, object);
    let ce = *node->CallExpression_0;
    let start = outcome::argument_number(ce, ctx, 0);
    let end = outcome::argument_number(ce, ctx, 1);
    assert(start == number_given(arguments, ctx, 0));
    assert(end == number_given(arguments, ctx, 1));
    text_laws::law_byte_len(s.value@);
    text::substring(
        s.value@,
        match start {
            Some(v) => outcome::position(v),
            None => 0,
        },
        match end {
            Some(v) => outcome::position(v),
            None => text::byte_len(s.value@) as int,
        },
    )
}

/// The index that `charAt` is called with: zero without an argument, else a numeric literal, or
/// the negation of one, which differs from it in the sign bit alone.
pub open spec fn index_given(arguments: Seq<Argument>, index: Number) -> bool {
    if arguments.len() == 0 {
        index.bits == 0
    } else if arguments.len() == 1 {
        match arguments[0] {
            Argument::Expression(Expression::NumericLiteral(n)) => index == n.value,
            Argument::Expression(Expression::UnaryExpression(unary)) => unary.operator
                == UnaryOperator::UnaryNegation && (
            unary.argument matches Expression::NumericLiteral(n) && index.bits != n.value.bits
                && index.bits as int % 0x8000_0000_0000_0000 == n.value.bits as int
                % 0x8000_0000_0000_0000),
            _ => false,
        }
    } else {
        false
    }
}

/// `'..'.charAt(index)` gives the UTF-16 code unit there, where the index is a whole number within
/// the string and the unit is a character by itself, else an empty string.
pub proof fn law_char_at_call(
    node: Expression,
    ctx: TraverseCtx,
    s: StringLiteral,
    arguments: Seq<Argument>,
    index: Number,
) -> (t: Seq<char>)
    requires
        calls(node, Expression::StringLiteral(s), "charAt"@, arguments),
        index_given(arguments, index),
    ensures
        gives_text(node, ctx, t),
        ({
            let units = text::utf16(s.value@);
            let i = index.int_32();
            if index.whole() && 0 <= i < units.len() && !(0xD800 <= units[i] <= 0xDFFF) {
                t.len() == 1 && t[0] as int == units[i]
            } else {
                t.len() == 0
            }
        }),
{
    let object = Expression::StringLiteral(s);
    outcome::lemma_names();
    lemma_call(node, ctx, object, "charAt"@, arguments);
    outcome::lemma_method_outcome(*node->CallExpression_0, ctx, "charAt"@, object);
    text::lemma_code_units(s.value@);
    if arguments.len() == 1 {
        assert(outcome::literal_index(arguments[0]) == Some(index));
    }
    match outcome::char_at_number(s.value@, index) {
        Some(c) => seq![c],
        None => Seq::empty(),
    }
}

/// `charAt` with anything else than at most one numeric literal, or the negation of one, stays as
/// it is.
pub proof fn law_char_at_arguments(
    node: Expression,
    ctx: TraverseCtx,
    object: Expression,
    arguments: Seq<Argument>,
)
    requires
        calls(node, object, "charAt"@, arguments),
        forall|index: Number| !#[trigger] index_given(arguments, index),
    ensures
        stays(node, ctx),
{
    outcome::lemma_names();
    lemma_call(node, ctx, object, "charAt"@, arguments);
    outcome::lemma_method_outcome(*node->CallExpression_0, ctx, "charAt"@, object);
    assert(!index_given(arguments, Number { bits: 0 }));
    if arguments.len() == 1 {
        if let Some(v) = outcome::literal_index(arguments[0]) {
            assert(!index_given(arguments, v));
        }
    }
}

/// `'..'.charCodeAt(index)`, where the index is zero without an argument, else the number that the
/// first argument is. It stays as it is where that is not known, is not finite, or is one from 0
/// up to 65536 at which no UTF-16 code unit stands that is a character by itself. For other
/// numbers below zero or from 65536 on it gives not-a-number, else the code unit.
pub proof fn law_char_code_at_call(
    node: Expression,
    ctx: TraverseCtx,
    s: StringLiteral,
    arguments: Seq<Argument>,
)
    requires
        calls(node, Expression::StringLiteral(s), "charCodeAt"@, arguments),
    ensures
        ({
            let index = if arguments.len() == 0 {
                Some(Number { bits: 0 })
            } else {
                number_given(arguments, ctx, 0)
            };
            let units = text::utf16(s.value@);
            match index {
                None => stays(node, ctx),
                Some(v) => if !v.finite() {
                    stays(node, ctx)
                } else if v.below_integer(0) || !v.below_integer(65536) {
                    gives_nan(node, ctx)
                } else if v.whole() && 0 <= v.int_32() < units.len() && !(0xD800
                    <= units[v.int_32()] <= 0xDFFF) {
                    gives_integer(node, ctx, units[v.int_32()])
                } else {
                    stays(node, ctx)
                },
            }
        }),
{
    let object = Expression::StringLiteral(s);
    outcome::lemma_names();
    lemma_call(node, ctx, object, "charCodeAt"@, arguments);
    outcome::lemma_method_outcome(*node->CallExpression_0, ctx, "charCodeAt"@, object);
    text::lemma_code_units(s.value@);
    let ce = *node->CallExpression_0;
    assert(outcome::argument_number(ce, ctx, 0) == number_given(arguments, ctx, 0));
}

/// `replace` and `replaceAll` stay as they are without exactly two arguments, with one that is not
/// known to be some string, or with a `$` in the second, and in no other case.
pub proof fn law_replace_arguments(
    node: Expression,
    ctx: TraverseCtx,
    s: StringLiteral,
    name: Seq<char>,
    arguments: Seq<Argument>,
)
    requires
        calls(node, Expression::StringLiteral(s), name, arguments),
        name == "replace"@ || name == "replaceAll"@,
    ensures
        stays(node, ctx) <==> {
            ||| arguments.len() != 2
            ||| string_given(arguments, ctx, 0) is None
            ||| string_given(arguments, ctx, 1) is None
            ||| string_given(arguments, ctx, 1)->0.contains('$')
        },
{
    let object = Expression::StringLiteral(s);
    outcome::lemma_names();
    lemma_call(node, ctx, object, name, arguments);
    outcome::lemma_method_outcome(*node->CallExpression_0, ctx, name, object);
    let ce = *node->CallExpression_0;
    assert(outcome::argument_string(ce, ctx, 0) == string_given(arguments, ctx, 0));
    assert(outcome::argument_string(ce, ctx, 1) == string_given(arguments, ctx, 1));
}

/// Where `replace` is folded, it puts the replacement where the search string first stands, and
/// changes nothing where that stands nowhere.
pub proof fn law_replace_call(
    node: Expression,
    ctx: TraverseCtx,
    s: StringLiteral,
    arguments: Seq<Argument>,
) -> (r: (Seq<char>, int))
    requires
        calls(node, Expression::StringLiteral(s), "replace"@, arguments),
        !stays(node, ctx),
    ensures
        gives_text(node, ctx, r.0),
        ({
            let search = string_given(arguments, ctx, 0)->0;
            let to = string_given(arguments, ctx, 1)->0;
            if r.1 < 0 {
                &&& r.0 == s.value@
                &&& forall|k: int| !#[trigger] stands_at(s.value@, search, k)
            } else {
                &&& stands_at(s.value@, search, r.1)
                &&& forall|k: int| k < r.1 ==> !#[trigger] stands_at(s.value@, search, k)
                &&& r.0 == s.value@.take(r.1) + to + s.value@.skip(r.1 + search.len())
            }
        }),
{
    let object = Expression::StringLiteral(s);
    outcome::lemma_names();
    lemma_call(node, ctx, object, "replace"@, arguments);
    outcome::lemma_method_outcome(*node->CallExpression_0, ctx, "replace"@, object);
    let ce = *node->CallExpression_0;
    let search = string_given(arguments, ctx, 0)->0;
    let to = string_given(arguments, ctx, 1)->0;
    assert(outcome::argument_string(ce, ctx, 0) == string_given(arguments, ctx, 0));
    assert(outcome::argument_string(ce, ctx, 1) == string_given(arguments, ctx, 1));
    lemma_stands_at(s.value@, search);
    text::lemma_first_occurrence(s.value@, search, 0);
    let p = match text::first_occurrence(s.value@, search, 0) {
        Some(p) => p,
        None => -1,
    };
    (text::replace_first(s.value@, search, to), p)
}

/// The parts with a separator between each two.
pub open spec fn joined(parts: Seq<Seq<char>>, separator: Seq<char>) -> Seq<char>
    decreases parts.len(),
{
    if parts.len() == 0 {
        Seq::empty()
    } else if parts.len() == 1 {
        parts[0]
    } else {
        parts[0] + separator + joined(parts.drop_first(), separator)
    }
}

/// The parts are what stands between the places of a search string: those that are found from the
/// left, one behind the other. An empty search string stands before each character and at the end.
pub open spec fn split_at(s: Seq<char>, search: Seq<char>, parts: Seq<Seq<char>>) -> bool {
    &&& parts.len() > 0
    &&& joined(parts, search) == s
    &&& if search.len() == 0 {
        &&& parts.len() == s.len() + 2
        &&& parts[0].len() == 0
        &&& parts.last().len() == 0
        &&& forall|i: int| 0 < i < parts.len() - 1 ==> (#[trigger] parts[i]).len() == 1
    } else {
        &&& forall|k: int| !#[trigger] stands_at(parts.last(), search, k)
        &&& forall|i: int, k: int|
            0 <= i < parts.len() - 1 && k < parts[i].len() ==> !#[trigger] stands_at(
                parts[i] + search,
                search,
                k,
            )
    }
}

proof fn lemma_joined(first: Seq<char>, rest: Seq<Seq<char>>, separator: Seq<char>)
    requires
        rest.len() > 0,
    ensures
        joined(seq![first] + rest, separator) == first + separator + joined(rest, separator),
{
    let parts = seq![first] + rest;
    assert(parts.drop_first() =~= rest);
}

/// The parts behind each character of a string with an empty search string.
proof fn lemma_replace_all_empty(s: Seq<char>, to: Seq<char>) -> (parts: Seq<Seq<char>>)
    ensures
        parts.len() == s.len() + 1,
        parts.last().len() == 0,
        forall|i: int| 0 <= i < parts.len() - 1 ==> (#[trigger] parts[i]).len() == 1,
        joined(parts, Seq::empty()) == s,
        text::replace_all(s, Seq::empty(), to) == to + joined(parts, to),
    decreases s.len(),
{
    let none = Seq::<char>::empty();
    if s.len() == 0 {
        let parts = seq![none];
        assert(joined(parts, none) =~= s);
        assert(text::replace_all(s, none, to) =~= to + joined(parts, to));
        parts
    } else {
        let rest = lemma_replace_all_empty(s.drop_first(), to);
        let first = seq![s[0]];
        let parts = seq![first] + rest;
        lemma_joined(first, rest, none);
        lemma_joined(first, rest, to);
        assert(parts.last() == rest.last());
        assert forall|i: int| 0 <= i < parts.len() - 1 implies (#[trigger] parts[i]).len() == 1 by {
            if i > 0 {
                assert(parts[i] == rest[i - 1]);
            }
        }
        assert(joined(parts, none) =~= s);
        assert(text::replace_all(s, none, to) =~= to + joined(parts, to));
        parts
    }
}

proof fn lemma_replace_all(s: Seq<char>, search: Seq<char>, to: Seq<char>) -> (parts: Seq<
    Seq<char>,
>)
    requires
        search.len() > 0,
    ensures
        split_at(s, search, parts),
        text::replace_all(s, search, to) == joined(parts, to),
    decreases s.len(),
{
    text::lemma_first_occurrence(s, search, 0);
    lemma_stands_at(s, search);
    match text::first_occurrence(s, search, 0) {
        None => seq![s],
        Some(p) => {
            let first = s.take(p);
            let behind = s.skip(p + search.len());
            let rest = lemma_replace_all(behind, search, to);
            let parts = seq![first] + rest;
            lemma_joined(first, rest, search);
            lemma_joined(first, rest, to);
            assert(s =~= first + s.subrange(p, p + search.len()) + behind);
            assert(parts.last() == rest.last());
            assert forall|i: int, k: int|
                0 <= i < parts.len() - 1 && k < parts[i].len() implies !#[trigger] stands_at(
                parts[i] + search,
                search,
                k,
            ) by {
                if i == 0 {
                    let head = first + search;
                    assert(head =~= s.take(p + search.len()));
                    if stands_at(head, search, k) {
                        assert forall|j: int| 0 <= j < search.len() implies s[k + j]
                            == #[trigger] search[j] by {
                            assert(head[k + j] == s[k + j]);
                        }
                        assert(stands_at(s, search, k));
                    }
                } else {
                    assert(parts[i] == rest[i - 1]);
                    assert(!stands_at(rest[i - 1] + search, search, k));
                }
            }
            parts
        },
    }
}

/// Where `replaceAll` is folded, it puts the replacement wherever the search string stands: the
/// parts in between are the same before and after.
pub proof fn law_replace_all_call(
    node: Expression,
    ctx: TraverseCtx,
    s: StringLiteral,
    arguments: Seq<Argument>,
) -> (parts: Seq<Seq<char>>)
    requires
        calls(node, Expression::StringLiteral(s), "replaceAll"@, arguments),
        !stays(node, ctx),
    ensures
        split_at(s.value@, string_given(arguments, ctx, 0)->0, parts),
        gives_text(node, ctx, joined(parts, string_given(arguments, ctx, 1)->0)),
{
    let object = Expression::StringLiteral(s);
    outcome::lemma_names();
    lemma_call(node, ctx, object, "replaceAll"@, arguments);
    outcome::lemma_method_outcome(*node->CallExpression_0, ctx, "replaceAll"@, object);
    let ce = *node->CallExpression_0;
    let v = s.value@;
    let search = string_given(arguments, ctx, 0)->0;
    let to = string_given(arguments, ctx, 1)->0;
    assert(outcome::argument_string(ce, ctx, 0) == string_given(arguments, ctx, 0));
    assert(outcome::argument_string(ce, ctx, 1) == string_given(arguments, ctx, 1));
    if search.len() == 0 {
        let none = Seq::<char>::empty();
        assert(search =~= none);
        let rest = lemma_replace_all_empty(v, to);
        let parts = seq![none] + rest;
        lemma_joined(none, rest, none);
        lemma_joined(none, rest, to);
        assert(joined(parts, none) =~= v);
        assert(joined(parts, to) =~= text::replace_all(v, search, to));
        assert(parts.last() == rest.last());
        assert forall|i: int| 0 < i < parts.len() - 1 implies (#[trigger] parts[i]).len() == 1 by {
            assert(parts[i] == rest[i - 1]);
        }
        parts
    } else {
        lemma_replace_all(v, search, to)
    }
}

/// The code of the character that argument `i` of `fromCharCode` is: the lowest 16 bits of its
/// integer part, where it is given, is not spread, and is known.
pub open spec fn code_given(arguments: Seq<Argument>, ctx: TraverseCtx, i: int) -> Option<int> {
    match number_given(arguments, ctx, i) {
        Some(v) => if 0xD800 <= v.int_32() % 0x1_0000 <= 0xDFFF {
            None
        } else {
            Some(v.int_32() % 0x1_0000)
        },
        None => None,
    }
}

proof fn lemma_codes(
    node: Expression,
    ctx: TraverseCtx,
    arguments: Seq<Argument>,
    n: nat,
)
    requires
        node matches Expression::CallExpression(ce) && ce.arguments@ == arguments,
        n <= arguments.len(),
    ensures
        match outcome::chars_of_codes(*node->CallExpression_0, ctx, n) {
            Some(t) => t.len() == n && forall|i: int|
                0 <= i < n ==> Some(#[trigger] t[i] as int) == code_given(arguments, ctx, i),
            None => exists|i: int| 0 <= i < n && #[trigger] code_given(arguments, ctx, i) is None,
        },
    decreases n,
{
    if n > 0 {
        let ce = *node->CallExpression_0;
        lemma_codes(node, ctx, arguments, (n - 1) as nat);
        assert(outcome::argument_number(ce, ctx, n - 1) == number_given(arguments, ctx, n - 1));
        assert(code_given(arguments, ctx, n - 1) is None
            <==> outcome::argument_number(ce, ctx, n - 1) is None || outcome::char_of_code(
            outcome::argument_number(ce, ctx, n - 1)->0,
        ) is None);
    }
}

/// `fromCharCode` on an identifier that no declaration binds is folded where every argument is
/// the code of a character, and then gives those characters, one for each argument and in their
/// order. Wherever one argument is spread, is not known or is the code of no character, the call
/// stays as it is.
pub proof fn law_from_char_code_call(
    node: Expression,
    ctx: TraverseCtx,
    object: Expression,
    arguments: Seq<Argument>,
) -> (t: Seq<char>)
    requires
        calls(node, object, "fromCharCode"@, arguments),
    ensures
        stays(node, ctx) <==> {
            ||| !(object is Identifier)
            ||| !ctx.object_is_global_reference
            ||| exists|i: int|
                0 <= i < arguments.len() && #[trigger] code_given(arguments, ctx, i) is None
        },
        !stays(node, ctx) ==> {
            &&& gives_text(node, ctx, t)
            &&& t.len() == arguments.len()
            &&& forall|i: int|
                0 <= i < t.len() ==> Some(#[trigger] t[i] as int) == code_given(arguments, ctx, i)
        },
{
    outcome::lemma_names();
    lemma_call(node, ctx, object, "fromCharCode"@, arguments);
    outcome::lemma_method_outcome(*node->CallExpression_0, ctx, "fromCharCode"@, object);
    lemma_codes(node, ctx, arguments, arguments.len());
    let found = outcome::chars_of_codes(*node->CallExpression_0, ctx, arguments.len());
    if let Some(t) = found {
        assert forall|i: int| 0 <= i < arguments.len() implies !(#[trigger] code_given(
            arguments,
            ctx,
            i,
        ) is None) by {
            assert(Some(t[i] as int) == code_given(arguments, ctx, i));
        }
    }
    match found {
        Some(t) => t,
        None => Seq::empty(),
    }
}

/// `digits` writes `n` in `radix`: decimal digits, then lower-case letters, each for a value below
/// the radix, without leading zeros, that read as `n`.
pub open spec fn writes(digits: Seq<char>, n: int, radix: int) -> bool {
    &&& digits.len() > 0
    &&& forall|i: int|
        0 <= i < digits.len() ==> {
            let c = #[trigger] digits[i];
            &&& text_laws::digit_or_letter(c)
            &&& text_laws::digit_value(c) < radix
        }
    &&& digits.len() > 1 ==> digits[0] as int != 48
    &&& text_laws::read_digits(digits, radix as nat) == n
}

proof fn lemma_writes(n: nat, radix: nat)
    requires
        2 <= radix <= 36,
    ensures
        writes(text::in_radix(n, radix), n as int, radix as int),
{
    text_laws::law_radix_round_trip(n, radix);
    if n == 0 {
        assert(text::in_radix(n, radix).len() == 1);
    }
}

/// The argument is a numeric literal for the integer `n`.
pub open spec fn integer_argument(argument: Argument, n: int) -> bool {
    argument matches Argument::Expression(Expression::NumericLiteral(lit)) && lit.value.is_integer(n)
}

/// `toString` of a number is called for decimal: without an argument, or with ten.
pub open spec fn asks_for_decimal(arguments: Seq<Argument>) -> bool {
    arguments.len() == 0 || (arguments.len() == 1 && integer_argument(arguments[0], 10))
}

proof fn lemma_radix(node: Expression, arguments: Seq<Argument>, radix: int)
    requires
        node matches Expression::CallExpression(ce) && ce.arguments@ == arguments,
        arguments.len() == 1,
        integer_argument(arguments[0], radix),
    ensures
        outcome::radix_of(*node->CallExpression_0) == (if 2 <= radix <= 36 {
            Some(radix)
        } else {
            None
        }),
{
    let v = arguments[0]->Expression_0->NumericLiteral_0.value;
    crate::number::lemma_whole_is_integer(v, radix);
}

/// `n .toString(radix)` of an unsigned integer of 32 bits writes it in the radix.
pub proof fn law_to_string_in_a_radix(
    node: Expression,
    ctx: TraverseCtx,
    lit: NumericLiteral,
    arguments: Seq<Argument>,
    n: int,
    radix: int,
) -> (t: Seq<char>)
    requires
        calls(node, Expression::NumericLiteral(lit), "toString"@, arguments),
        lit.value.is_integer(n),
        0 <= n <= 0xffff_ffff,
        arguments.len() == 1,
        integer_argument(arguments[0], radix),
        2 <= radix <= 36,
    ensures
        gives_text(node, ctx, t),
        writes(t, n, radix),
{
    let object = Expression::NumericLiteral(lit);
    outcome::lemma_names();
    lemma_call(node, ctx, object, "toString"@, arguments);
    outcome::lemma_method_outcome(*node->CallExpression_0, ctx, "toString"@, object);
    lemma_radix(node, arguments, radix);
    crate::number::lemma_whole_is_integer(lit.value, n);
    lemma_writes(n as nat, radix as nat);
    text::in_radix(n as nat, radix as nat)
}

/// `n .toString()` and `n .toString(10)` of an integer of up to 53 bits write it in decimal, with
/// a minus sign before a negative one.
pub proof fn law_to_string_in_decimal(
    node: Expression,
    ctx: TraverseCtx,
    lit: NumericLiteral,
    arguments: Seq<Argument>,
    n: int,
) -> (t: Seq<char>)
    requires
        calls(node, Expression::NumericLiteral(lit), "toString"@, arguments),
        asks_for_decimal(arguments),
        lit.value.is_integer(n),
        -0x20_0000_0000_0000 < n < 0x20_0000_0000_0000,
    ensures
        gives_text(node, ctx, t),
        n >= 0 ==> writes(t, n, 10),
        n < 0 ==> t.len() > 0 && t[0] == '-' && writes(t.drop_first(), -n, 10),
{
    let object = Expression::NumericLiteral(lit);
    outcome::lemma_names();
    lemma_call(node, ctx, object, "toString"@, arguments);
    outcome::lemma_method_outcome(*node->CallExpression_0, ctx, "toString"@, object);
    if arguments.len() == 1 {
        lemma_radix(node, arguments, 10);
    }
    crate::number::lemma_whole_is_integer(lit.value, n);
    if n < 0 {
        lemma_writes((-n) as nat, 10);
        assert(text::decimal(n).drop_first() =~= text::in_radix((-n) as nat, 10));
    } else {
        lemma_writes(n as nat, 10);
    }
    text::decimal(n)
}

/// In decimal, any number but an integer of up to 53 bits is written as the context tells.
pub proof fn law_to_string_as_told(
    node: Expression,
    ctx: TraverseCtx,
    lit: NumericLiteral,
    arguments: Seq<Argument>,
)
    requires
        calls(node, Expression::NumericLiteral(lit), "toString"@, arguments),
        asks_for_decimal(arguments),
        forall|n: int|
            -0x20_0000_0000_0000 < n < 0x20_0000_0000_0000 ==> !#[trigger] lit.value.is_integer(n),
    ensures
        gives_text(node, ctx, ctx.number_text@),
{
    let object = Expression::NumericLiteral(lit);
    outcome::lemma_names();
    lemma_call(node, ctx, object, "toString"@, arguments);
    outcome::lemma_method_outcome(*node->CallExpression_0, ctx, "toString"@, object);
    if arguments.len() == 1 {
        lemma_radix(node, arguments, 10);
    }
    if lit.value.finite() {
        crate::number::lemma_whole_is_integer(lit.value, lit.value.truncated());
    }
}

/// `toString` of a number stays as it is with more than one argument, with one that is no integer
/// literal from 2 to 36, and, unless that is ten, where the number is no unsigned integer of 32
/// bits.
pub proof fn law_to_string_of_numbers_that_stay(
    node: Expression,
    ctx: TraverseCtx,
    lit: NumericLiteral,
    arguments: Seq<Argument>,
)
    requires
        calls(node, Expression::NumericLiteral(lit), "toString"@, arguments),
        ({
            ||| arguments.len() > 1
            ||| arguments.len() == 1 && forall|radix: int|
                2 <= radix <= 36 ==> !#[trigger] integer_argument(arguments[0], radix)
            ||| !asks_for_decimal(arguments) && forall|n: int|
                0 <= n <= 0xffff_ffff ==> !#[trigger] lit.value.is_integer(n)
        }),
    ensures
        stays(node, ctx),
{
    let object = Expression::NumericLiteral(lit);
    outcome::lemma_names();
    lemma_call(node, ctx, object, "toString"@, arguments);
    outcome::lemma_method_outcome(*node->CallExpression_0, ctx, "toString"@, object);
    if arguments.len() == 1 {
        if let Argument::Expression(Expression::NumericLiteral(n)) = arguments[0] {
            if n.value.finite() {
                crate::number::lemma_whole_is_integer(n.value, n.value.truncated());
                if n.value.whole() {
                    assert(integer_argument(arguments[0], n.value.truncated()));
                }
            }
        }
    }
    if lit.value.finite() {
        crate::number::lemma_whole_is_integer(lit.value, lit.value.truncated());
    }
}

/// `toString()` of a boolean is its name.
pub proof fn law_to_string_of_booleans(node: Expression, ctx: TraverseCtx, lit: BooleanLiteral)
    requires
        calls(node, Expression::BooleanLiteral(lit), "toString"@, Seq::empty()),
    ensures
        lit.value ==> gives_text(node, ctx, seq!['t', 'r', 'u', 'e']),
        !lit.value ==> gives_text(node, ctx, seq!['f', 'a', 'l', 's', 'e']),
{
    let object = Expression::BooleanLiteral(lit);
    outcome::lemma_names();
    lemma_call(node, ctx, object, "toString"@, Seq::empty());
    outcome::lemma_method_outcome(*node->CallExpression_0, ctx, "toString"@, object);
    reveal_strlit("true");
    reveal_strlit("false");
    assert("true"@ =~= seq!['t', 'r', 'u', 'e']);
    assert("false"@ =~= seq!['f', 'a', 'l', 's', 'e']);
}

/// `toString()` of a string is the string.
pub proof fn law_to_string_of_strings(node: Expression, ctx: TraverseCtx, lit: StringLiteral)
    requires
        calls(node, Expression::StringLiteral(lit), "toString"@, Seq::empty()),
    ensures
        gives_text(node, ctx, lit.value@),
{
    let object = Expression::StringLiteral(lit);
    outcome::lemma_names();
    lemma_call(node, ctx, object, "toString"@, Seq::empty());
    outcome::lemma_method_outcome(*node->CallExpression_0, ctx, "toString"@, object);
}

proof fn lemma_trim_end_char(s: Seq<char>, c: char)
    ensures
        text::trim_end_char(s, c).len() <= s.len(),
        text::trim_end_char(s, c) == s.take(text::trim_end_char(s, c).len() as int),
        forall|i: int| text::trim_end_char(s, c).len() <= i < s.len() ==> #[trigger] s[i] == c,
        text::trim_end_char(s, c).len() > 0 ==> text::trim_end_char(s, c).last() != c,
    decreases s.len(),
{
    let t = text::trim_end_char(s, c);
    if s.len() > 0 && s.last() == c {
        let front = s.drop_last();
        lemma_trim_end_char(front, c);
        assert(front.take(t.len() as int) =~= s.take(t.len() as int));
        assert forall|i: int| t.len() <= i < s.len() implies #[trigger] s[i] == c by {
            if i < front.len() {
                assert(front[i] == s[i]);
            }
        }
    } else {
        assert(s.take(s.len() as int) =~= s);
    }
}

/// `toString()` of a decimal big integer is the literal without the `n` at its end; in another
/// base the call stays as it is.
pub proof fn law_to_string_of_big_integers(
    node: Expression,
    ctx: TraverseCtx,
    lit: BigIntLiteral,
) -> (k: int)
    requires
        calls(node, Expression::BigIntLiteral(lit), "toString"@, Seq::empty()),
    ensures
        lit.base != BigintBase::Decimal ==> stays(node, ctx),
        lit.base == BigintBase::Decimal ==> {
            &&& 0 <= k <= lit.raw@.len()
            &&& gives_text(node, ctx, lit.raw@.take(k))
            &&& forall|i: int| k <= i < lit.raw@.len() ==> #[trigger] lit.raw@[i] == 'n'
            &&& k > 0 ==> lit.raw@[k - 1] != 'n'
        },
{
    let object = Expression::BigIntLiteral(lit);
    outcome::lemma_names();
    lemma_call(node, ctx, object, "toString"@, Seq::empty());
    outcome::lemma_method_outcome(*node->CallExpression_0, ctx, "toString"@, object);
    lemma_trim_end_char(lit.raw@, 'n');
    text::trim_end_char(lit.raw@, 'n').len() as int
}

/// `toString` of booleans, strings and big integers stays as it is with an argument, and that of
/// anything else but a number in any case.
pub proof fn law_to_string_that_stays(
    node: Expression,
    ctx: TraverseCtx,
    object: Expression,
    arguments: Seq<Argument>,
)
    requires
        calls(node, object, "toString"@, arguments),
        !(object is NumericLiteral),
        arguments.len() > 0 || !(object is BooleanLiteral || object is StringLiteral
            || object is BigIntLiteral),
    ensures
        stays(node, ctx),
{
    outcome::lemma_names();
    lemma_call(node, ctx, object, "toString"@, arguments);
    outcome::lemma_method_outcome(*node->CallExpression_0, ctx, "toString"@, object);
}

} // verus!
