//! The pass itself.
use crate::ast::{Argument, BigintBase, CallExpression, Expression, UnaryOperator};
use crate::concat;
use crate::context::TraverseCtx;
use crate::number::Number;
use crate::outcome;
use crate::outside;
use crate::text;
use vstd::prelude::*;

verus! {

/// Replaces calls of well-known methods on literals by their results.
#[derive(Debug, PartialEq)]
pub struct PeepholeReplaceKnownMethods {
    /// Some call has been replaced.
    pub changed: bool,
}

/// Whether a string holds a character.
fn contains_char(s: &str, c: char) -> (r: bool)
    ensures
        r == s@.contains(c),
{
    for d in it: s.chars()
        invariant
            it.seq() == s@,
            forall|i: int| 0 <= i < it.index() ==> s@[i] != c,
    {
        if d == c {
            assert(s@[it.index() as int] == c);
            return true;
        }
    }
    false
}

/// A string without the run of `c` at its end.
fn without_trailing(s: &str, c: char) -> (r: String)
    ensures
        r@ == text::trim_end_char(s@, c),
{
    let mut n: usize = s.unicode_len();
    assert(s@.take(n as int) =~= s@);
    while n > 0 && s.get_char(n - 1) == c
        invariant
            n <= s@.len(),
            text::trim_end_char(s@.take(n as int), c) == text::trim_end_char(s@, c),
        decreases n,
    {
        assert(s@.take(n as int).drop_last() =~= s@.take(n - 1));
        n = n - 1;
    }
    assert(s@.subrange(0, n as int) =~= s@.take(n as int));
    s.substring_char(0, n).to_owned()
}

impl PeepholeReplaceKnownMethods {
    /// A pass that has not changed anything yet.
    pub fn new() -> (r: Self)
        ensures
            !r.changed,
    {
        PeepholeReplaceKnownMethods { changed: false }
    }

    /// `x` written in `radix`.
    pub fn format_radix(x: u32, radix: u32) -> (r: String)
        requires
            2 <= radix <= 36,
        ensures
            r@ == text::in_radix(x as nat, radix as nat),
    {
        let ghost start = x as nat;
        let mut x: u32 = x;
        let mut digits: Vec<char> = Vec::new();
        loop
            invariant_except_break
                text::in_radix(start, radix as nat) =~= text::in_radix(x as nat, radix as nat)
                    + digits@.reverse(),
            invariant
                2 <= radix <= 36,
            ensures
                text::in_radix(start, radix as nat) =~= digits@.reverse(),
            decreases x,
        {
            let m: u32 = x % radix;
            let ghost before = digits@;
            let ghost whole = x;
            x = x / radix;
            if let Some(c) = char::from_digit(m, radix) {
                digits.push(c);
            }
            assert(digits@.reverse() =~= seq![text::digit(m as int)] + before.reverse());
            if x == 0 {
                proof {
                    vstd::arithmetic::div_mod::lemma_small_div_converse(whole as int, radix as int);
                    vstd::arithmetic::div_mod::lemma_small_mod(whole as nat, radix as nat);
                }
                break;
            }
            proof {
                if whole < radix {
                    vstd::arithmetic::div_mod::lemma_basic_div(whole as int, radix as int);
                }
            }
        }
        let mut result: String = String::new();
        let mut i: usize = digits.len();
        while i > 0
            invariant
                i <= digits@.len(),
                result@ =~= digits@.reverse().take(digits@.len() - i),
            decreases i,
        {
            i = i - 1;
            result.push(digits[i]);
        }
        assert(digits@.reverse().take(digits@.len() as int) =~= digits@.reverse());
        result
    }

    /// `'AbC'.toLowerCase()` -> `'abc'`, and likewise `toUpperCase` and `trim`.
    pub fn try_fold_string_casing(
        ce: &CallExpression,
        name: &str,
        object: &Expression,
    ) -> (r: Option<Expression>)
        ensures
            outcome::casing(*ce, name@, *object).told(*ce, r),
    {
        if ce.arguments.len() >= 1 {
            return None;
        }
        match object {
            Expression::StringLiteral(s) => {
                let value: String = if *name == *"toLowerCase" {
                    outside::to_lowercase(s.value.as_str())
                } else if *name == *"toUpperCase" {
                    outside::to_uppercase(s.value.as_str())
                } else if *name == *"trim" {
                    s.value.as_str().trim().to_owned()
                } else {
                    return None;
                };
                Some(Expression::string_literal(ce.span, value))
            },
            _ => None,
        }
    }

    /// `'abc'.indexOf('c')` -> `2`, and likewise `lastIndexOf`.
    pub fn try_fold_string_index_of(
        ce: &CallExpression,
        name: &str,
        object: &Expression,
    ) -> (r: Option<Expression>)
        requires
            name@ == "indexOf"@ || name@ == "lastIndexOf"@,
        ensures
            outcome::index_of(*ce, name@, *object).told(*ce, r),
    {
        let args = &ce.arguments;
        if args.len() >= 3 {
            return None;
        }
        let s: &str = match object {
            Expression::StringLiteral(s) => s.value.as_str(),
            _ => {
                return None;
            },
        };
        let search_value: Option<&str> = if args.len() > 0 {
            match &args[0] {
                Argument::Expression(Expression::StringLiteral(t)) => Some(t.value.as_str()),
                _ => {
                    return None;
                },
            }
        } else {
            None
        };
        let search_start_index: Option<i32> = if args.len() > 1 {
            match &args[1] {
                Argument::Expression(Expression::NumericLiteral(n)) => Some(n.value.to_int_32()),
                _ => {
                    return None;
                },
            }
        } else {
            None
        };
        let result: isize = if *name == *"indexOf" {
            outside::index_of(s, search_value, search_start_index)
        } else {
            outside::last_index_of(s, search_value, search_start_index)
        };
        Some(Expression::numeric_literal(ce.span, Number::from_i64(result as i64)))
    }

    /// The number that argument `i` is, where it is known.
    fn argument_number(ce: &CallExpression, ctx: &TraverseCtx, i: usize) -> (r: Option<Number>)
        ensures
            r == outcome::argument_number(*ce, *ctx, i as int),
    {
        if i < ce.arguments.len() {
            match &ce.arguments[i] {
                Argument::SpreadElement(_) => None,
                Argument::Expression(_) => ctx.get_side_free_number_value(i),
            }
        } else {
            None
        }
    }

    /// `'abcde'.substring(1, 2)` -> `'b'`, and likewise `slice`.
    pub fn try_fold_string_substring_or_slice(
        ce: &CallExpression,
        object: &Expression,
        ctx: &TraverseCtx,
    ) -> (r: Option<Expression>)
        ensures
            outcome::substring_or_slice(*ce, *object, *ctx).told(*ce, r),
    {
        if ce.arguments.len() > 2 {
            return None;
        }
        let s: &str = match object {
            Expression::StringLiteral(s) => s.value.as_str(),
            _ => {
                return None;
            },
        };
        let start_idx: Option<Number> = Self::argument_number(ce, ctx, 0);
        let end_idx: Option<Number> = Self::argument_number(ce, ctx, 1);
        if (ce.arguments.len() > 0 && start_idx.is_none()) || (ce.arguments.len() > 1
            && end_idx.is_none()) {
            return None;
        }
        let len: u64 = s.as_bytes().len() as u64;
        if let Some(start) = start_idx {
            if start.is_above_integer(len) || start.is_below_integer(0) {
                return None;
            }
        }
        if let Some(end) = end_idx {
            if end.is_above_integer(len) || end.is_below_integer(0) {
                return None;
            }
        }
        if let (Some(start), Some(end)) = (start_idx, end_idx) {
            if end.is_below(start) {
                return None;
            }
        }
        let start: Option<i32> = match start_idx {
            Some(v) => Some(v.to_int_32()),
            None => None,
        };
        let end: Option<i32> = match end_idx {
            Some(v) => Some(v.to_int_32()),
            None => None,
        };
        Some(Expression::string_literal(ce.span, outside::substring(s, start, end)))
    }

    /// `'abcde'.charAt(1)` -> `'b'`.
    pub fn try_fold_string_char_at(ce: &CallExpression, object: &Expression) -> (r: Option<
        Expression,
    >)
        ensures
            outcome::char_at(*ce, *object).told(*ce, r),
    {
        let args = &ce.arguments;
        if args.len() > 1 {
            return None;
        }
        let s: &str = match object {
            Expression::StringLiteral(s) => s.value.as_str(),
            _ => {
                return None;
            },
        };
        let index: Option<Number> = if args.len() > 0 {
            match &args[0] {
                Argument::Expression(Expression::NumericLiteral(n)) => Some(n.value),
                Argument::Expression(Expression::UnaryExpression(unary)) => {
                    if unary.operator != UnaryOperator::UnaryNegation {
                        return None;
                    }
                    match &unary.argument {
                        Expression::NumericLiteral(n) => Some(n.value.negated()),
                        _ => {
                            return None;
                        },
                    }
                },
                _ => {
                    return None;
                },
            }
        } else {
            None
        };
        let found: Option<char> = match index {
            Some(v) => if v.is_whole() {
                outside::char_at(s, Some(v.to_int_32()))
            } else {
                None
            },
            None => {
                proof {
                    crate::number::lemma_zero();
                }
                outside::char_at(s, None)
            },
        };
        let mut result: String = String::new();
        if let Some(c) = found {
            result.push(c);
        }
        assert(result@ =~= match found {
            Some(c) => seq![c],
            None => Seq::empty(),
        });
        Some(Expression::string_literal(ce.span, result))
    }

    /// `'abcde'.charCodeAt(1)` -> `98`.
    pub fn try_fold_string_char_code_at(
        ce: &CallExpression,
        object: &Expression,
        ctx: &TraverseCtx,
    ) -> (r: Option<Expression>)
        ensures
            outcome::char_code_at(*ce, *object, *ctx).told(*ce, r),
    {
        let s: &str = match object {
            Expression::StringLiteral(s) => s.value.as_str(),
            _ => {
                return None;
            },
        };
        let char_at_index: Number = if ce.arguments.len() == 0 {
            Number { bits: 0 }
        } else {
            match Self::argument_number(ce, ctx, 0) {
                Some(v) => v,
                None => {
                    return None;
                },
            }
        };
        if char_at_index.is_nan() || char_at_index.is_infinite() {
            return None;
        }
        let value: Number = if !char_at_index.is_below_integer(0) && char_at_index.is_below_integer(
            65536,
        ) {
            if !char_at_index.is_whole() {
                return None;
            }
            match outside::char_code_at(s, char_at_index.to_int_32()) {
                Some(code) => Number::from_u64(code as u64),
                None => {
                    return None;
                },
            }
        } else {
            Number::not_a_number()
        };
        Some(Expression::numeric_literal(ce.span, value))
    }

    /// The string that argument `i` is, where it is known.
    fn argument_string<'a>(ce: &CallExpression, ctx: &'a TraverseCtx, i: usize) -> (r: Option<
        &'a str,
    >)
        ensures
            match outcome::argument_string(*ce, *ctx, i as int) {
                Some(t) => r matches Some(s) && s@ == t,
                None => r is None,
            },
    {
        if i < ce.arguments.len() {
            match &ce.arguments[i] {
                Argument::SpreadElement(_) => None,
                Argument::Expression(_) => ctx.get_side_free_string_value(i),
            }
        } else {
            None
        }
    }

    /// `'abcb'.replace('b', 'x')` -> `'axcb'`, and likewise `replaceAll`.
    pub fn try_fold_string_replace(
        ce: &CallExpression,
        name: &str,
        object: &Expression,
        ctx: &TraverseCtx,
    ) -> (r: Option<Expression>)
        requires
            name@ == "replace"@ || name@ == "replaceAll"@,
        ensures
            outcome::replace(*ce, name@, *object, *ctx).told(*ce, r),
    {
        if ce.arguments.len() != 2 {
            return None;
        }
        let s: &str = match object {
            Expression::StringLiteral(s) => s.value.as_str(),
            _ => {
                return None;
            },
        };
        let search_value: &str = match Self::argument_string(ce, ctx, 0) {
            Some(t) => t,
            None => {
                return None;
            },
        };
        let replace_value: &str = match Self::argument_string(ce, ctx, 1) {
            Some(t) => t,
            None => {
                return None;
            },
        };
        if contains_char(replace_value, '$') {
            return None;
        }
        let result: String = if *name == *"replace" {
            outside::replace_first(s, search_value, replace_value)
        } else {
            outside::replace_all(s, search_value, replace_value)
        };
        Some(Expression::string_literal(ce.span, result))
    }

    /// The lowest 16 bits of an integer.
    fn low_16_bits(n: i32) -> (r: u32)
        ensures
            r == n as int % 0x1_0000,
    {
        let n: i64 = n as i64;
        if n < 0 {
            proof {
                vstd::arithmetic::div_mod::lemma_mod_multiples_vanish(
                    0x1_0000,
                    n as int,
                    0x1_0000,
                );
            }
            ((n + 0x1_0000_0000) % 0x1_0000) as u32
        } else {
            (n % 0x1_0000) as u32
        }
    }

    /// The character that a number is the code of.
    fn char_of_code(v: Number) -> (r: Option<char>)
        ensures
            r == outcome::char_of_code(v),
    {
        char::from_u32(Self::low_16_bits(v.to_int_32()))
    }

    /// `String.fromCharCode(120, 121)` -> `'xy'`.
    pub fn try_fold_string_from_char_code(
        ce: &CallExpression,
        object: &Expression,
        ctx: &TraverseCtx,
    ) -> (r: Option<Expression>)
        ensures
            outcome::from_char_code(*ce, *object, *ctx).told(*ce, r),
    {
        match object {
            Expression::Identifier(_) => {},
            _ => {
                return None;
            },
        }
        if !ctx.object_is_global_reference {
            return None;
        }
        let mut s: String = String::new();
        let mut i: usize = 0;
        while i < ce.arguments.len()
            invariant
                i <= ce.arguments@.len(),
                outcome::chars_of_codes(*ce, *ctx, i as nat) == Some(s@),
                *object is Identifier,
                ctx.object_is_global_reference,
            decreases ce.arguments@.len() - i,
        {
            let found: Option<char> = match Self::argument_number(ce, ctx, i) {
                Some(v) => Self::char_of_code(v),
                None => None,
            };
            match found {
                Some(c) => {
                    s.push(c);
                },
                None => {
                    proof {
                        lemma_codes_unknown(*ce, *ctx, (i + 1) as nat, ce.arguments@.len());
                    }
                    return None;
                },
            }
            i = i + 1;
        }
        Some(Expression::string_literal(ce.span, s))
    }

    /// The radix that `toString` is called with, where it is known.
    fn radix_of(ce: &CallExpression) -> (r: Option<u32>)
        ensures
            match outcome::radix_of(*ce) {
                Some(radix) => r matches Some(n) && n == radix && 2 <= n <= 36,
                None => r is None,
            },
    {
        if ce.arguments.len() == 0 {
            return Some(10);
        }
        match &ce.arguments[0] {
            Argument::Expression(Expression::NumericLiteral(n)) => {
                proof {
                    if n.value.finite() {
                        crate::number::lemma_whole_is_integer(n.value, n.value.truncated());
                    }
                }
                match n.value.to_integer() {
                    Some(radix) => {
                        proof {
                            crate::number::lemma_whole_is_integer(n.value, radix as int);
                        }
                        if 2 <= radix && radix <= 36 {
                            Some(radix as u32)
                        } else {
                            None
                        }
                    },
                    None => None,
                }
            },
            _ => None,
        }
    }

    /// The text of a number in decimal.
    fn number_text(value: Number, ctx: &TraverseCtx) -> (r: String)
        ensures
            r@ == outcome::number_text(value, *ctx),
    {
        proof {
            if value.finite() {
                crate::number::lemma_whole_is_integer(value, value.truncated());
            }
        }
        match value.to_integer() {
            Some(n) => {
                proof {
                    crate::number::lemma_whole_is_integer(value, n as int);
                }
                outside::integer_text(n)
            },
            None => ctx.number_text.clone(),
        }
    }

    /// `100 .toString(2)` -> `'1100100'`, and likewise on other literals.
    pub fn try_fold_to_string(
        ce: &CallExpression,
        object: &Expression,
        ctx: &TraverseCtx,
    ) -> (r: Option<Expression>)
        ensures
            outcome::to_string(*ce, *object, *ctx).told(*ce, r),
    {
        match object {
            Expression::NumericLiteral(lit) => {
                if ce.arguments.len() > 1 {
                    return None;
                }
                let radix: u32 = match Self::radix_of(ce) {
                    Some(radix) => radix,
                    None => {
                        return None;
                    },
                };
                if radix == 10 {
                    let s: String = Self::number_text(lit.value, ctx);
                    return Some(Expression::string_literal(ce.span, s));
                }
                proof {
                    if lit.value.finite() {
                        crate::number::lemma_whole_is_integer(lit.value, lit.value.truncated());
                    }
                }
                // Only integers are converted in other radixes.
                match lit.value.to_integer() {
                    Some(n) => {
                        proof {
                            crate::number::lemma_whole_is_integer(lit.value, n as int);
                        }
                        if 0 <= n && n <= 0xffff_ffff {
                            let s: String = Self::format_radix(n as u32, radix);
                            Some(Expression::string_literal(ce.span, s))
                        } else {
                            None
                        }
                    },
                    None => None,
                }
            },
            Expression::BooleanLiteral(lit) => {
                if ce.arguments.len() > 0 {
                    return None;
                }
                let s: &str = if lit.value {
                    "true"
                } else {
                    "false"
                };
                Some(Expression::string_literal(ce.span, s.to_owned()))
            },
            Expression::BigIntLiteral(lit) => {
                if ce.arguments.len() > 0 || lit.base != BigintBase::Decimal {
                    return None;
                }
                Some(Expression::string_literal(ce.span, without_trailing(lit.raw.as_str(), 'n')))
            },
            Expression::StringLiteral(lit) => {
                if ce.arguments.len() > 0 {
                    return None;
                }
                Some(Expression::string_literal(ce.span, lit.value.clone()))
            },
            _ => None,
        }
    }

    /// `[].concat(1, 2)` -> `[1, 2]`
    pub fn try_fold_concat(ce: &mut CallExpression, ctx: &TraverseCtx) -> (r: Option<Expression>)
        requires
            ctx.in_concat() || old(ce).callee is StaticMemberExpression,
        ensures
            outcome::concat_array(old(ce).callee, old(ce).arguments@, *ctx).told(*old(ce), r),
            r is None ==> *final(ce) == *old(ce),
            r is Some ==> final(ce).arguments@.len() == 0 && final(ce).span == old(ce).span
                && final(ce).type_parameters == old(ce).type_parameters && final(ce).optional
                == old(ce).optional,
            r is Some ==> (old(ce).callee matches Expression::StaticMemberExpression(member)
                && concat::is_emptied(final(ce).callee, *member, old(ce).arguments@)),
    {
        // The chain of calls is folded into one first.
        if ctx.parent_is_concat() {
            return None;
        }
        let on_array: bool = match &ce.callee {
            Expression::StaticMemberExpression(member) => match &member.object {
                Expression::ArrayExpression(_) => true,
                _ => false,
            },
            _ => false,
        };
        if !on_array {
            return None;
        }
        let can_merge: usize = concat::count_mergeable(&ce.arguments);
        if can_merge == 0 && ce.arguments.len() > 0 {
            return None;
        }
        Some(concat::merge(ce))
    }

    /// `[].concat(a).concat(b)` -> `[].concat(a, b)`
    ///
    /// `"".concat(a).concat(b)` -> `"".concat(a, b)`
    ///
    /// The arguments may have side effects: they are evaluated in the same order as before. The
    /// only other thing that `concat` can do is to throw an error when the result is too long,
    /// and that error may come later.
    pub fn try_fold_concat_chain(&mut self, node: &mut Expression, ctx: &TraverseCtx)
        ensures
            outcome::folds_chain(*old(node), *ctx) ==> final(self).changed
                && outcome::is_folded_chain(*old(node), *final(node)),
            !outcome::folds_chain(*old(node), *ctx) ==> *final(node) == *old(node)
                && *final(self) == *old(self),
    {
        if ctx.parent_is_static_member() {
            return;
        }
        if !concat::is_long_chain(node) {
            return;
        }
        let mut chain: Expression = Expression::placeholder();
        core::mem::swap(&mut chain, node);
        *node = concat::flatten_chain(chain);
        self.changed = true;
    }

    /// The method that a call calls, and the object it is called on.
    fn called_method(ce: &CallExpression) -> (r: Option<(&str, &Expression)>)
        ensures
            match outcome::called_method(*ce) {
                Some((name, object)) => r matches Some((n, o)) && n@ == name && *o == object,
                None => r is None,
            },
    {
        match &ce.callee {
            Expression::StaticMemberExpression(member) => {
                if member.optional {
                    None
                } else {
                    Some((member.property.name.as_str(), &member.object))
                }
            },
            Expression::ComputedMemberExpression(member) => {
                if member.optional {
                    None
                } else {
                    match &member.expression {
                        Expression::StringLiteral(s) => Some((s.value.as_str(), &member.object)),
                        _ => None,
                    }
                }
            },
            _ => None,
        }
    }

    /// Whether the pass can handle an expression: not `object['concat'](..)`, unless that is itself
    /// the object of a call of `concat`.
    pub fn supports(node: &Expression, ctx: &TraverseCtx) -> (r: bool)
        ensures
            r == outcome::supported(*node, *ctx),
    {
        if ctx.parent_is_concat() {
            return true;
        }
        match node {
            Expression::CallExpression(ce) => match &ce.callee {
                Expression::ComputedMemberExpression(_) => match Self::called_method(ce) {
                    Some((name, _)) => *name != *"concat",
                    None => true,
                },
                _ => true,
            },
            _ => true,
        }
    }

    /// What takes the place of a call, if anything does.
    fn replacement(ce: &mut CallExpression, ctx: &TraverseCtx) -> (r: Option<Expression>)
        requires
            outcome::supported(Expression::CallExpression(Box::new(*old(ce))), *ctx),
        ensures
            outcome::outcome(*old(ce), *ctx).told(*old(ce), r),
            r is None ==> *final(ce) == *old(ce),
    {
        let (name, object): (&str, &Expression) = match Self::called_method(ce) {
            Some(called) => called,
            None => {
                return None;
            },
        };
        if *name == *"toLowerCase" || *name == *"toUpperCase" || *name == *"trim" {
            Self::try_fold_string_casing(ce, name, object)
        } else if *name == *"substring" || *name == *"slice" {
            Self::try_fold_string_substring_or_slice(ce, object, ctx)
        } else if *name == *"indexOf" || *name == *"lastIndexOf" {
            Self::try_fold_string_index_of(ce, name, object)
        } else if *name == *"charAt" {
            Self::try_fold_string_char_at(ce, object)
        } else if *name == *"charCodeAt" {
            Self::try_fold_string_char_code_at(ce, object, ctx)
        } else if *name == *"concat" {
            Self::try_fold_concat(ce, ctx)
        } else if *name == *"replace" || *name == *"replaceAll" {
            Self::try_fold_string_replace(ce, name, object, ctx)
        } else if *name == *"fromCharCode" {
            Self::try_fold_string_from_char_code(ce, object, ctx)
        } else if *name == *"toString" {
            Self::try_fold_to_string(ce, object, ctx)
        } else {
            None
        }
    }

    /// Replaces a call of a known method by its result, where that is known.
    pub fn try_fold_known_string_methods(&mut self, node: &mut Expression, ctx: &TraverseCtx)
        requires
            outcome::supported(*old(node), *ctx),
        ensures
            outcome::folds_known(*old(node), *ctx) ==> final(self).changed
                && outcome::is_folded_known(*old(node), *ctx, *final(node)),
            !outcome::folds_known(*old(node), *ctx) ==> *final(node) == *old(node)
                && *final(self) == *old(self),
    {
        let replacement: Option<Expression> = match node {
            Expression::CallExpression(ce) => Self::replacement(ce, ctx),
            _ => None,
        };
        if let Some(replacement) = replacement {
            self.changed = true;
            *node = replacement;
        }
    }

    /// Folds an expression, once its parts have been visited.
    pub fn exit_expression(&mut self, node: &mut Expression, ctx: &TraverseCtx)
        requires
            outcome::supported(*old(node), *ctx),
        ensures
            outcome::folds(*old(node), *ctx) ==> final(self).changed && outcome::is_folded(
                *old(node),
                *ctx,
                *final(node),
            ),
            !outcome::folds(*old(node), *ctx) ==> *final(node) == *old(node) && *final(self)
                == *old(self),
    {
        self.try_fold_concat_chain(node, ctx);
        let ghost reduced = *node;
        proof {
            if outcome::folds_chain(*old(node), *ctx) {
                outcome::lemma_chain_callee(*old(node));
                outcome::lemma_concat_outcome(*reduced->CallExpression_0, *ctx);
            }
        }
        self.try_fold_known_string_methods(node, ctx);
    }
}

/// Where some of the first arguments are not codes of characters, the arguments as a whole are
/// not.
proof fn lemma_codes_unknown(ce: CallExpression, ctx: TraverseCtx, n: nat, all: nat)
    requires
        n <= all,
        outcome::chars_of_codes(ce, ctx, n) is None,
    ensures
        outcome::chars_of_codes(ce, ctx, all) is None,
    decreases all,
{
    if n < all {
        lemma_codes_unknown(ce, ctx, n, (all - 1) as nat);
    }
}

} // verus!
