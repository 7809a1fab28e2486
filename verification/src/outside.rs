//! The operations that are taken on trust: functions of `cow_utils`, `oxc_ecmascript`,
//! `oxc_syntax` and the standard library, each with the contract that the verified code relies
//! on.
use crate::text;
use cow_utils::CowUtils;
use oxc_ast::ast::NumericLiteral;
use oxc_ecmascript::{
    StringCharAt, StringCharCodeAt, StringIndexOf, StringLastIndexOf, StringSubstring,
};
use oxc_span::Span;
use oxc_syntax::number::{NumberBase, ToJsString};
use vstd::prelude::*;

verus! {

/// `==` on string slices: whether they hold the same characters.
pub assume_specification[ <str as PartialEq<str>>::eq ](a: &str, b: &str) -> (r: bool)
    ensures
        r == (a@ == b@),
;

/// `String::push`: appends one character.
pub assume_specification[ String::push ](s: &mut String, c: char)
    ensures
        final(s)@ == old(s)@.push(c),
;

/// `char::from_digit`: the digit for a value below the radix, with lower-case letters after the
/// decimal digits. It panics on a radix above 36.
pub assume_specification[ char::from_digit ](num: u32, radix: u32) -> (r: Option<char>)
    requires
        radix <= 36,
    ensures
        r == (if num < radix {
            Some(text::digit(num as int))
        } else {
            None
        }),
;

/// `char::from_u32`: the character of that value, where the value is one of a character.
pub assume_specification[ char::from_u32 ](i: u32) -> (r: Option<char>)
    ensures
        r == (if text::is_scalar(i as int) {
            Some(i as char)
        } else {
            None
        }),
;

/// `str::trim`: removes the characters with the Unicode property `White_Space` from both ends.
pub assume_specification[ str::trim ](s: &str) -> (r: &str)
    ensures
        r@ == text::trim(s@),
;

/// What `cow_utils` makes of a string in lower case.
pub uninterp spec fn lowercase(s: Seq<char>) -> Seq<char>;

/// What `cow_utils` makes of a string in upper case.
pub uninterp spec fn uppercase(s: Seq<char>) -> Seq<char>;

/// `CowUtils::cow_to_lowercase`. The result depends on the string alone; which it is follows the
/// Unicode tables, and is not stated but for strings of ASCII characters, of which each letter
/// goes to its lower-case form.
#[verifier::external_body]
pub(crate) fn to_lowercase(s: &str) -> (r: String)
    ensures
        r@ == lowercase(s@),
        text::ascii(s@) ==> r@ == text::ascii_lowercase(s@),
{
    s.cow_to_lowercase().into_owned()
}

/// `CowUtils::cow_to_uppercase`. The result depends on the string alone; which it is follows the
/// Unicode tables, and is not stated but for strings of ASCII characters, of which each letter
/// goes to its upper-case form.
#[verifier::external_body]
pub(crate) fn to_uppercase(s: &str) -> (r: String)
    ensures
        r@ == uppercase(s@),
        text::ascii(s@) ==> r@ == text::ascii_uppercase(s@),
{
    s.cow_to_uppercase().into_owned()
}

/// `CowUtils::cow_replacen` with a count of one: replaces the first occurrence of `pattern`.
#[verifier::external_body]
pub(crate) fn replace_first(s: &str, pattern: &str, to: &str) -> (r: String)
    ensures
        r@ == text::replace_first(s@, pattern@, to@),
{
    s.cow_replacen(pattern, to, 1).into_owned()
}

/// `CowUtils::cow_replace`: replaces every occurrence of `pattern`.
#[verifier::external_body]
pub(crate) fn replace_all(s: &str, pattern: &str, to: &str) -> (r: String)
    ensures
        r@ == text::replace_all(s@, pattern@, to@),
{
    s.cow_replace(pattern, to).into_owned()
}

/// `StringIndexOf::index_of`, with a start that is an integer. A negative start counts as zero,
/// a missing one too; without a search string the result is -1.
#[verifier::external_body]
pub(crate) fn index_of(s: &str, search: Option<&str>, from: Option<i32>) -> (r: isize)
    ensures
        r == (match search {
            Some(t) => text::index_of(
                s@,
                t@,
                match from {
                    Some(i) => text::at_least_zero(i as int),
                    None => 0,
                },
            ),
            None => -1,
        }),
{
    s.index_of(search, from.map(Into::into))
}

/// `StringLastIndexOf::last_index_of`, with a start that is an integer. The search covers the
/// characters before the start plus the bytes of the search string, or all of them without a
/// start; without a search string the result is -1.
#[verifier::external_body]
pub(crate) fn last_index_of(s: &str, search: Option<&str>, from: Option<i32>) -> (r: isize)
    ensures
        r == (match search {
            Some(t) => text::last_index_of(
                s@,
                t@,
                match from {
                    Some(i) => text::at_least_zero(i as int) + text::byte_len(t@),
                    None => s@.len() as int,
                },
            ),
            None => -1,
        }),
{
    s.last_index_of(search, from.map(Into::into))
}

/// `StringSubstring::substring`, with bounds that are integers. A negative bound counts as zero,
/// a missing start too; a missing end is the end of the string.
#[verifier::external_body]
pub(crate) fn substring(s: &str, start: Option<i32>, end: Option<i32>) -> (r: String)
    ensures
        r@ == text::substring(
            s@,
            match start {
                Some(i) => text::at_least_zero(i as int),
                None => 0,
            },
            match end {
                Some(i) => text::at_least_zero(i as int),
                None => text::byte_len(s@) as int,
            },
        ),
{
    s.substring(start.map(Into::into), end.map(Into::into))
}

/// `StringCharAt::char_at`, with an index that is an integer; a missing one is zero.
#[verifier::external_body]
pub(crate) fn char_at(s: &str, index: Option<i32>) -> (r: Option<char>)
    ensures
        r == text::char_at(
            s@,
            match index {
                Some(i) => i as int,
                None => 0,
            },
        ),
{
    s.char_at(index.map(Into::into))
}

/// `StringCharCodeAt::char_code_at`, with an index that is an integer.
#[verifier::external_body]
pub(crate) fn char_code_at(s: &str, index: i32) -> (r: Option<u32>)
    ensures
        r == (match text::char_at(s@, index as int) {
            Some(c) => Some(c as u32),
            None => None,
        }),
{
    s.char_code_at(Some(index.into()))
}

/// `ToJsString::to_js_string` of `oxc_syntax` on the value of a numeric literal, with a value that
/// is an integer of up to 53 bits, and so is held exactly: its decimal digits, after a minus sign
/// where it is negative.
#[verifier::external_body]
pub(crate) fn integer_text(n: i64) -> (r: String)
    requires
        -0x20_0000_0000_0000 < n < 0x20_0000_0000_0000,
    ensures
        r@ == text::decimal(n as int),
{
    let literal = NumericLiteral {
        span: Span::new(0, 0),
        value: n as _,
        raw: None,
        base: NumberBase::Decimal,
    };
    literal.value.to_js_string()
}

} // verus!
