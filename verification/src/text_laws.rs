//! What holds of the operations on strings.
use crate::outcome;
use crate::text;
use vstd::arithmetic::div_mod;
use vstd::arithmetic::mul;
use vstd::prelude::*;

verus! {

proof fn lemma_width(c: char)
    ensures
        vstd::utf8::encode_scalar(c as u32).len() >= 1,
        vstd::utf8::encode_scalar(c as u32).len() == 1 <==> (c as int) < 0x80,
{
    vstd::utf8::char_is_scalar(c);
}

/// A string takes at least as many bytes as it has characters, and as many only where every
/// character is ASCII.
pub proof fn law_byte_len(s: Seq<char>)
    ensures
        text::byte_len(s) >= s.len(),
        text::byte_len(s) == s.len() <==> text::ascii(s),
    decreases s.len(),
{
    if s.len() > 0 {
        let rest = s.drop_first();
        law_byte_len(rest);
        vstd::utf8::char_is_scalar(s[0]);
        lemma_width(s[0]);
        assert(text::byte_len(s) == vstd::utf8::encode_scalar(s[0] as u32).len()
            + text::byte_len(rest));
        if text::ascii(s) {
            assert forall|i: int| 0 <= i < rest.len() implies (#[trigger] rest[i] as int)
                < 0x80 by {
                assert(rest[i] == s[i + 1]);
            }
            assert((s[0] as int) < 0x80);
        }
        if text::byte_len(s) == s.len() {
            assert forall|i: int| 0 <= i < s.len() implies (#[trigger] s[i] as int) < 0x80 by {
                if i > 0 {
                    assert(rest[i - 1] == s[i]);
                }
            }
        }
    }
}

proof fn lemma_occurrence_after_skip(s: Seq<char>, search: Seq<char>, from: int, p: int)
    requires
        0 <= from <= s.len(),
        0 <= p,
    ensures
        match text::first_occurrence(s.skip(from), search, p) {
            Some(q) => text::first_occurrence(s, search, from + p) == Some(from + q),
            None => text::first_occurrence(s, search, from + p) is None,
        },
    decreases s.len() + 1 - from - p,
{
    let rest = s.skip(from);
    if p + search.len() <= rest.len() {
        assert(rest.subrange(p, p + search.len()) =~= s.subrange(
            from + p,
            from + p + search.len(),
        ));
        if !text::occurs_at(rest, search, p) {
            lemma_occurrence_after_skip(s, search, from, p + 1);
        }
    }
}

/// `indexOf` finds the first occurrence from the start position on, and gives the position of it
/// where what lies in between is ASCII; other characters count by their bytes. Only an empty
/// search string from beyond the end is left out, which is found at the start position itself.
pub proof fn law_index_of(s: Seq<char>, search: Seq<char>, from: int)
    requires
        0 <= from,
        from <= s.len() || search.len() > 0,
    ensures
        match text::first_occurrence(s, search, from) {
            Some(p) => {
                &&& from <= p
                &&& text::index_of(s, search, from) == from + text::byte_len(s.subrange(from, p))
                &&& text::index_of(s, search, from) == p <==> text::ascii(s.subrange(from, p))
            },
            None => text::index_of(s, search, from) == -1,
        },
{
    if from <= s.len() {
        lemma_occurrence_after_skip(s, search, from, 0);
        text::lemma_first_occurrence(s, search, from);
        if let Some(p) = text::first_occurrence(s, search, from) {
            assert(s.skip(from).take(p - from) =~= s.subrange(from, p));
            law_byte_len(s.subrange(from, p));
        }
    }
}

/// `lastIndexOf` finds the last occurrence up to the start position, where the search string is
/// ASCII; each byte of it beyond one for a character lets the search go one further. It gives the
/// position of the occurrence where what lies before is ASCII, else the number of bytes before.
pub proof fn law_last_index_of(s: Seq<char>, search: Seq<char>, from: int)
    requires
        0 <= from,
    ensures
        text::ascii(search) ==> text::byte_len(search) - search.len() == 0,
        match text::last_occurrence(
            s,
            search,
            from + text::byte_len(search) - search.len(),
        ) {
            Some(p) => {
                let r = text::last_index_of(s, search, from + text::byte_len(search));
                &&& r == text::byte_len(s.take(p))
                &&& r == p <==> text::ascii(s.take(p))
            },
            None => text::last_index_of(s, search, from + text::byte_len(search)) == -1,
        },
{
    law_byte_len(search);
    lemma_last_index_of(s, search, from + text::byte_len(search));
}

/// Without a start position, `lastIndexOf` finds the last occurrence there is.
pub proof fn law_last_index_of_anywhere(s: Seq<char>, search: Seq<char>)
    ensures
        match text::last_occurrence(s, search, s.len() - search.len()) {
            Some(p) => {
                let r = text::last_index_of(s, search, s.len() as int);
                &&& r == text::byte_len(s.take(p))
                &&& r == p <==> text::ascii(s.take(p))
                &&& forall|i: int| p < i ==> !#[trigger] text::occurs_at(s, search, i)
            },
            None => {
                &&& text::last_index_of(s, search, s.len() as int) == -1
                &&& forall|i: int| !#[trigger] text::occurs_at(s, search, i)
            },
        },
{
    lemma_last_index_of(s, search, s.len() as int);
    text::lemma_last_occurrence(s, search, s.len() - search.len());
}

proof fn lemma_last_index_of(s: Seq<char>, search: Seq<char>, end: int)
    requires
        0 <= end,
    ensures
        match text::last_occurrence(s, search, end - search.len()) {
            Some(p) => {
                let r = text::last_index_of(s, search, end);
                &&& r == text::byte_len(s.take(p))
                &&& r == p <==> text::ascii(s.take(p))
            },
            None => text::last_index_of(s, search, end) == -1,
        },
{
    let n = text::at_most(end, s.len() as int);
    let front = s.take(n);
    assert forall|i: int|
        #[trigger] text::occurs_at(front, search, i) == (text::occurs_at(s, search, i) && i
            + search.len() <= n) by {
        if 0 <= i && i + search.len() <= n {
            assert(front.subrange(i, i + search.len()) =~= s.subrange(i, i + search.len()));
        }
    }
    text::lemma_last_occurrence(front, search, n);
    text::lemma_last_occurrence(s, search, end - search.len());
    let a = text::last_occurrence(front, search, n);
    let b = text::last_occurrence(s, search, end - search.len());
    match b {
        Some(p) => {
            assert(text::occurs_at(front, search, p));
            assert(a is Some);
            let q = a->0;
            assert(text::occurs_at(front, search, q));
            assert(text::occurs_at(s, search, q));
            assert(p == q);
            assert(front.take(p) =~= s.take(p));
            law_byte_len(s.take(p));
        },
        None => {
            if let Some(q) = a {
                assert(text::occurs_at(front, search, q));
                assert(text::occurs_at(s, search, q));
            }
        },
    }
}

/// `substring` within the string, with the bounds in order, gives the characters from the one
/// position up to the other.
pub proof fn law_substring(s: Seq<char>, start: int, end: int)
    requires
        0 <= start <= end <= s.len(),
    ensures
        text::substring(s, start, end) == s.subrange(start, end),
{
    law_byte_len(s);
}

/// In an ASCII string, the `substring` at the position that `indexOf` gives is the search string.
pub proof fn law_found_text(s: Seq<char>, search: Seq<char>, from: int)
    requires
        text::ascii(s),
        0 <= from,
        from <= s.len() || search.len() > 0,
        text::index_of(s, search, from) != -1,
    ensures
        ({
            let p = text::index_of(s, search, from);
            text::substring(s, p, p + search.len()) == search
        }),
{
    law_index_of(s, search, from);
    text::lemma_first_occurrence(s, search, from);
    let p = text::first_occurrence(s, search, from)->0;
    let between = s.subrange(from, p);
    assert forall|i: int| 0 <= i < between.len() implies (#[trigger] between[i] as int)
        < 0x80 by {
        assert(between[i] == s[from + i]);
    }
    law_substring(s, p, p + search.len());
}

/// `charAt` gives the character at a position, up to the first character that takes two UTF-16
/// code units.
pub proof fn law_char_at(s: Seq<char>, i: int)
    requires
        forall|j: int| 0 <= j <= i && j < s.len() ==> (#[trigger] s[j] as int) < 0x1_0000,
    ensures
        text::char_at(s, i) == (if 0 <= i < s.len() {
            Some(s[i])
        } else {
            None
        }),
    decreases s.len(),
{
    if i >= 0 && s.len() > 0 {
        let rest = s.drop_first();
        assert((s[0] as int) < 0x1_0000);
        text::lemma_char(s[0]);
        assert(text::utf16(s) =~= seq![s[0] as int] + text::utf16(rest));
        if i > 0 {
            assert forall|j: int| 0 <= j <= i - 1 && j < rest.len() implies (
            #[trigger] rest[j] as int) < 0x1_0000 by {
                assert(rest[j] == s[j + 1]);
            }
            law_char_at(rest, i - 1);
            if i < text::utf16(s).len() {
                assert(text::utf16(s)[i] == text::utf16(rest)[i - 1]);
            }
        }
    }
}

/// `replace` and `replaceAll` leave a string as it is where the search string does not occur.
pub proof fn law_replace_absent(s: Seq<char>, search: Seq<char>, to: Seq<char>)
    requires
        forall|i: int| !#[trigger] text::occurs_at(s, search, i),
    ensures
        text::replace_first(s, search, to) == s,
        text::replace_all(s, search, to) == s,
{
    text::lemma_first_occurrence(s, search, 0);
    if search.len() == 0 {
        assert(s.subrange(0, 0) =~= search);
        assert(text::occurs_at(s, search, 0));
    }
}

/// A string that replaces itself changes nothing.
pub proof fn law_replace_by_itself(s: Seq<char>, search: Seq<char>)
    ensures
        text::replace_first(s, search, search) == s,
        text::replace_all(s, search, search) == s,
    decreases s.len(),
{
    text::lemma_first_occurrence(s, search, 0);
    if let Some(p) = text::first_occurrence(s, search, 0) {
        assert(s =~= s.take(p) + s.subrange(p, p + search.len()) + s.skip(p + search.len()));
        if search.len() > 0 {
            law_replace_by_itself(s.skip(p + search.len()), search);
        }
    }
    if search.len() == 0 {
        if s.len() == 0 {
            assert(search =~= s);
        } else {
            law_replace_by_itself(s.drop_first(), search);
            assert(s =~= search + seq![s[0]] + s.drop_first());
        }
    }
}

/// `replaceAll` is `replace`, and then `replaceAll` on what stands behind the replacement.
pub proof fn law_replace_all_goes_on(s: Seq<char>, search: Seq<char>, to: Seq<char>, p: int)
    requires
        search.len() > 0,
        text::first_occurrence(s, search, 0) == Some(p),
    ensures
        text::replace_first(s, search, to) == s.take(p) + to + s.skip(p + search.len()),
        text::replace_all(s, search, to) == s.take(p) + to + text::replace_all(
            s.skip(p + search.len()),
            search,
            to,
        ),
{
}

proof fn lemma_trim_start(s: Seq<char>) -> (k: int)
    ensures
        0 <= k <= s.len(),
        text::trim_start(s) == s.skip(k),
        forall|i: int| 0 <= i < k ==> text::white_space(#[trigger] s[i]),
        k < s.len() ==> !text::white_space(s[k]),
    decreases s.len(),
{
    if s.len() > 0 && text::white_space(s[0]) {
        let rest = s.drop_first();
        let k = lemma_trim_start(rest);
        assert(rest.skip(k) =~= s.skip(k + 1));
        assert forall|i: int| 0 <= i < k + 1 implies text::white_space(#[trigger] s[i]) by {
            if i > 0 {
                assert(s[i] == rest[i - 1]);
            }
        }
        k + 1
    } else {
        assert(s.skip(0) =~= s);
        0
    }
}

proof fn lemma_trim_end(s: Seq<char>) -> (k: int)
    ensures
        0 <= k <= s.len(),
        text::trim_end(s) == s.take(k),
        forall|i: int| k <= i < s.len() ==> text::white_space(#[trigger] s[i]),
        k > 0 ==> !text::white_space(s[k - 1]),
    decreases s.len(),
{
    if s.len() > 0 && text::white_space(s.last()) {
        let front = s.drop_last();
        let k = lemma_trim_end(front);
        assert(front.take(k) =~= s.take(k));
        assert forall|i: int| k <= i < s.len() implies text::white_space(#[trigger] s[i]) by {
            if i < s.len() - 1 {
                assert(s[i] == front[i]);
            }
        }
        k
    } else {
        assert(s.take(s.len() as int) =~= s);
        s.len() as int
    }
}

/// `trim` removes white space only, and all of it at either end.
pub proof fn law_trim(s: Seq<char>)
    ensures
        exists|a: int, b: int|
            #![trigger s.subrange(a, b)]
            0 <= a <= b <= s.len() && text::trim(s) == s.subrange(a, b) && (forall|i: int|
                0 <= i < a || b <= i < s.len() ==> text::white_space(#[trigger] s[i])),
        text::trim(s).len() > 0 ==> !text::white_space(text::trim(s)[0]) && !text::white_space(
            text::trim(s).last(),
        ),
{
    let a = lemma_trim_start(s);
    let t = s.skip(a);
    let k = lemma_trim_end(t);
    assert(t.take(k) =~= s.subrange(a, a + k));
    assert forall|i: int| 0 <= i < a || a + k <= i < s.len() implies text::white_space(
        #[trigger] s[i],
    ) by {
        if i >= a {
            assert(s[i] == t[i - a]);
        }
    }
    if k > 0 {
        assert(t[0] == s[a]);
        assert(t.take(k).last() == t[k - 1]);
    }
}

/// Trimming twice is trimming once.
pub proof fn law_trim_twice(s: Seq<char>)
    ensures
        text::trim(text::trim(s)) == text::trim(s),
{
    law_trim(s);
}

/// On ASCII strings, changing the case keeps the length and the ASCII, changing it again to the
/// same changes nothing, and only the last change counts.
pub proof fn law_casing(s: Seq<char>)
    requires
        text::ascii(s),
    ensures
        outcome::lowercased(s).len() == s.len(),
        outcome::uppercased(s).len() == s.len(),
        text::ascii(outcome::lowercased(s)),
        text::ascii(outcome::uppercased(s)),
        outcome::lowercased(outcome::lowercased(s)) == outcome::lowercased(s),
        outcome::uppercased(outcome::uppercased(s)) == outcome::uppercased(s),
        outcome::lowercased(outcome::uppercased(s)) == outcome::lowercased(s),
        outcome::uppercased(outcome::lowercased(s)) == outcome::uppercased(s),
{
    let low = text::ascii_lowercase(s);
    let up = text::ascii_uppercase(s);
    assert forall|i: int| 0 <= i < s.len() implies (#[trigger] low[i] as int) < 0x80 by {
        assert((s[i] as int) < 0x80);
    }
    assert forall|i: int| 0 <= i < s.len() implies (#[trigger] up[i] as int) < 0x80 by {
        assert((s[i] as int) < 0x80);
    }
    assert(text::ascii_lowercase(low) =~= low);
    assert(text::ascii_uppercase(up) =~= up);
    assert(text::ascii_lowercase(up) =~= low);
    assert(text::ascii_uppercase(low) =~= up);
}

/// The value of a digit, of up to 36 of them.
pub open spec fn digit_value(c: char) -> int {
    if c as int <= 57 {
        c as int - 48
    } else {
        c as int - 87
    }
}

/// The number that digits stand for in a radix.
pub open spec fn read_digits(digits: Seq<char>, radix: nat) -> int
    decreases digits.len(),
{
    if digits.len() == 0 {
        0
    } else {
        read_digits(digits.drop_last(), radix) * radix + digit_value(digits.last())
    }
}

/// The character is a decimal digit or a lower-case letter.
pub open spec fn digit_or_letter(c: char) -> bool {
    48 <= c as int <= 57 || 97 <= c as int <= 122
}

/// `toString(radix)` writes digits that are all below the radix, without leading zeros, and that
/// read back as the number.
pub proof fn law_radix_round_trip(n: nat, radix: nat)
    requires
        2 <= radix <= 36,
    ensures
        read_digits(text::in_radix(n, radix), radix) == n,
        text::in_radix(n, radix).len() > 0,
        forall|i: int|
            0 <= i < text::in_radix(n, radix).len() ==> 0 <= digit_value(
                #[trigger] text::in_radix(n, radix)[i],
            ) < radix,
        forall|i: int|
            0 <= i < text::in_radix(n, radix).len() ==> digit_or_letter(
                #[trigger] text::in_radix(n, radix)[i],
            ),
        n > 0 ==> digit_value(text::in_radix(n, radix)[0]) > 0,
    decreases n,
{
    let digits = text::in_radix(n, radix);
    if n < radix {
        assert(digits.drop_last() =~= Seq::<char>::empty());
        assert(digit_value(text::digit(n as int)) == n);
        assert(read_digits(digits.drop_last(), radix) == 0);
        mul::lemma_mul_basics(radix as int);
    } else {
        div_mod::lemma_div_decreases(n as int, radix as int);
        div_mod::lemma_fundamental_div_mod(n as int, radix as int);
        let q = n / radix;
        let r = (n % radix) as int;
        law_radix_round_trip(q, radix);
        assert(q > 0) by {
            if q == 0 {
                div_mod::lemma_small_div_converse(n as int, radix as int);
            }
        }
        assert(0 <= r < radix) by {
            div_mod::lemma_mod_bound(n as int, radix as int);
        }
        let front = text::in_radix(q, radix);
        assert(digits == front.push(text::digit(r)));
        assert(digits.drop_last() =~= front);
        assert(digit_value(text::digit(r)) == r);
        mul::lemma_mul_is_commutative(q as int, radix as int);
        assert forall|i: int| 0 <= i < digits.len() implies 0 <= digit_value(
            #[trigger] digits[i],
        ) < radix by {
            if i < front.len() {
                assert(digits[i] == front[i]);
            }
        }
        assert forall|i: int| 0 <= i < digits.len() implies digit_or_letter(
            #[trigger] digits[i],
        ) by {
            if i < front.len() {
                assert(digits[i] == front[i]);
            }
        }
        assert(digits[0] == front[0]);
    }
}

/// Different numbers are written differently.
pub proof fn law_radix_injective(a: nat, b: nat, radix: nat)
    requires
        2 <= radix <= 36,
        text::in_radix(a, radix) == text::in_radix(b, radix),
    ensures
        a == b,
{
    law_radix_round_trip(a, radix);
    law_radix_round_trip(b, radix);
}

} // verus!
