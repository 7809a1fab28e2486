//! What the string operations compute, on sequences of characters.
use vstd::prelude::*;
use vstd::utf8;

verus! {

/// `pattern` stands in `s` at position `p`.
pub open spec fn occurs_at(s: Seq<char>, pattern: Seq<char>, p: int) -> bool {
    &&& 0 <= p
    &&& p + pattern.len() <= s.len()
    &&& s.subrange(p, p + pattern.len()) == pattern
}

/// The first position from `p` on at which `pattern` stands in `s`.
pub open spec fn first_occurrence(s: Seq<char>, pattern: Seq<char>, p: int) -> Option<int>
    decreases s.len() + 1 - p,
{
    if p + pattern.len() > s.len() {
        None
    } else if occurs_at(s, pattern, p) {
        Some(p)
    } else {
        first_occurrence(s, pattern, p + 1)
    }
}

/// The last position up to `p` at which `pattern` stands in `s`.
pub open spec fn last_occurrence(s: Seq<char>, pattern: Seq<char>, p: int) -> Option<int>
    decreases p + 1,
{
    if p < 0 {
        None
    } else if occurs_at(s, pattern, p) {
        Some(p)
    } else {
        last_occurrence(s, pattern, p - 1)
    }
}

/// The number of bytes that `s` takes in UTF-8.
pub open spec fn byte_len(s: Seq<char>) -> nat {
    utf8::encode_utf8(s).len()
}

/// `i`, or `bound` where `i` goes beyond it.
pub open spec fn at_most(i: int, bound: int) -> int {
    if i < bound {
        i
    } else {
        bound
    }
}

/// `i`, or zero where `i` is negative.
pub open spec fn at_least_zero(i: int) -> int {
    if i < 0 {
        0
    } else {
        i
    }
}

/// Where `search` is found in `s` when the first `from` characters are skipped: `from` plus the
/// number of bytes in between, or -1.
pub open spec fn index_of(s: Seq<char>, search: Seq<char>, from: int) -> int {
    let rest = s.skip(at_most(from, s.len() as int));
    match first_occurrence(rest, search, 0) {
        Some(p) => from + byte_len(rest.take(p)),
        None => -1,
    }
}

/// Where `search` is found last among the first `end` characters of `s`: the number of bytes
/// before it, or -1.
pub open spec fn last_index_of(s: Seq<char>, search: Seq<char>, end: int) -> int {
    let front = s.take(at_most(end, s.len() as int));
    match last_occurrence(front, search, front.len() as int) {
        Some(p) => byte_len(front.take(p)) as int,
        None => -1,
    }
}

/// The characters of `s` from position `start` up to `end`.
pub open spec fn substring(s: Seq<char>, start: int, end: int) -> Seq<char> {
    let a = at_most(start, byte_len(s) as int);
    let b = at_most(end, byte_len(s) as int);
    if a > b {
        Seq::empty()
    } else {
        s.subrange(at_most(a, s.len() as int), at_most(b, s.len() as int))
    }
}

/// The UTF-16 code units of a character.
pub open spec fn code_units(c: char) -> Seq<int> {
    let v = c as int;
    if v < 0x1_0000 {
        seq![v]
    } else {
        seq![0xD800 + (v - 0x1_0000) / 0x400, 0xDC00 + (v - 0x1_0000) % 0x400]
    }
}

/// The UTF-16 code units of `s`.
pub open spec fn utf16(s: Seq<char>) -> Seq<int>
    decreases s.len(),
{
    if s.len() == 0 {
        Seq::empty()
    } else {
        code_units(s[0]) + utf16(s.drop_first())
    }
}

/// `v` is the value of a character.
pub open spec fn is_scalar(v: int) -> bool {
    0 <= v < 0xD800 || 0xE000 <= v <= 0x10_FFFF
}

/// The character that the code unit of `s` at `i` stands for on its own; none beyond the end, nor
/// for half of a surrogate pair.
pub open spec fn char_at(s: Seq<char>, i: int) -> Option<char> {
    if 0 <= i < utf16(s).len() && is_scalar(utf16(s)[i]) {
        Some(utf16(s)[i] as char)
    } else {
        None
    }
}

/// `s` with the first occurrence of `pattern` replaced.
pub open spec fn replace_first(s: Seq<char>, pattern: Seq<char>, to: Seq<char>) -> Seq<char> {
    match first_occurrence(s, pattern, 0) {
        Some(p) => s.take(p) + to + s.skip(p + pattern.len()),
        None => s,
    }
}

/// `s` with each occurrence of `pattern` replaced, from the left and without overlap; an empty
/// pattern occurs before each character and at the end.
pub open spec fn replace_all(s: Seq<char>, pattern: Seq<char>, to: Seq<char>) -> Seq<char>
    decreases s.len(),
{
    if pattern.len() == 0 {
        if s.len() == 0 {
            to
        } else {
            to + seq![s[0]] + replace_all(s.drop_first(), pattern, to)
        }
    } else {
        match first_occurrence(s, pattern, 0) {
            Some(p) => {
                proof {
                    lemma_first_occurrence(s, pattern, 0);
                }
                s.take(p) + to + replace_all(s.skip(p + pattern.len()), pattern, to)
            },
            None => s,
        }
    }
}

/// Every character of `s` is ASCII.
pub open spec fn ascii(s: Seq<char>) -> bool {
    forall|i: int| 0 <= i < s.len() ==> (#[trigger] s[i] as int) < 0x80
}

/// `s` with each ASCII letter in lower case.
pub open spec fn ascii_lowercase(s: Seq<char>) -> Seq<char> {
    s.map_values(
        |c: char|
            if 'A' <= c && c <= 'Z' {
                (c as int + 32) as char
            } else {
                c
            },
    )
}

/// `s` with each ASCII letter in upper case.
pub open spec fn ascii_uppercase(s: Seq<char>) -> Seq<char> {
    s.map_values(
        |c: char|
            if 'a' <= c && c <= 'z' {
                (c as int - 32) as char
            } else {
                c
            },
    )
}

/// The Unicode property `White_Space`.
pub open spec fn white_space(c: char) -> bool {
    let v = c as int;
    ||| 0x09 <= v <= 0x0D
    ||| v == 0x20
    ||| v == 0x85
    ||| v == 0xA0
    ||| v == 0x1680
    ||| 0x2000 <= v <= 0x200A
    ||| v == 0x2028
    ||| v == 0x2029
    ||| v == 0x202F
    ||| v == 0x205F
    ||| v == 0x3000
}

/// `s` without the white space that it starts with.
pub open spec fn trim_start(s: Seq<char>) -> Seq<char>
    decreases s.len(),
{
    if s.len() > 0 && white_space(s[0]) {
        trim_start(s.drop_first())
    } else {
        s
    }
}

/// `s` without the white space that it ends with.
pub open spec fn trim_end(s: Seq<char>) -> Seq<char>
    decreases s.len(),
{
    if s.len() > 0 && white_space(s.last()) {
        trim_end(s.drop_last())
    } else {
        s
    }
}

/// `s` without white space at either end.
pub open spec fn trim(s: Seq<char>) -> Seq<char> {
    trim_end(trim_start(s))
}

/// `s` without the run of `c` that it ends with.
pub open spec fn trim_end_char(s: Seq<char>, c: char) -> Seq<char>
    decreases s.len(),
{
    if s.len() > 0 && s.last() == c {
        trim_end_char(s.drop_last(), c)
    } else {
        s
    }
}

/// The digit that stands for `d` in a radix of up to 36.
pub open spec fn digit(d: int) -> char {
    if d < 10 {
        (d + 48) as char
    } else {
        (d + 87) as char
    }
}

/// `n` written in `radix`, with no leading zeros; zero is a single digit.
pub open spec fn in_radix(n: nat, radix: nat) -> Seq<char>
    decreases n,
{
    if n < radix || radix < 2 {
        seq![digit(n as int)]
    } else {
        proof {
            vstd::arithmetic::div_mod::lemma_div_decreases(n as int, radix as int);
        }
        in_radix(n / radix, radix).push(digit((n % radix) as int))
    }
}

/// An integer in decimal.
pub open spec fn decimal(n: int) -> Seq<char> {
    if n < 0 {
        seq!['-'] + in_radix((-n) as nat, 10)
    } else {
        in_radix(n as nat, 10)
    }
}

/// What the search for the first occurrence finds: an occurrence with none before it from `p` on,
/// or nothing, and then there is none from `p` on.
pub proof fn lemma_first_occurrence(s: Seq<char>, pattern: Seq<char>, p: int)
    requires
        0 <= p,
    ensures
        match first_occurrence(s, pattern, p) {
            Some(q) => {
                &&& p <= q
                &&& occurs_at(s, pattern, q)
                &&& forall|i: int| p <= i < q ==> !#[trigger] occurs_at(s, pattern, i)
            },
            None => forall|i: int| p <= i ==> !#[trigger] occurs_at(s, pattern, i),
        },
    decreases s.len() + 1 - p,
{
    if p + pattern.len() <= s.len() && !occurs_at(s, pattern, p) {
        lemma_first_occurrence(s, pattern, p + 1);
    }
}

/// What the search for the last occurrence finds: an occurrence with none after it up to `p`, or
/// nothing, and then there is none up to `p`.
pub proof fn lemma_last_occurrence(s: Seq<char>, pattern: Seq<char>, p: int)
    ensures
        match last_occurrence(s, pattern, p) {
            Some(q) => {
                &&& q <= p
                &&& occurs_at(s, pattern, q)
                &&& forall|i: int| q < i <= p ==> !#[trigger] occurs_at(s, pattern, i)
            },
            None => forall|i: int| i <= p ==> !#[trigger] occurs_at(s, pattern, i),
        },
    decreases p + 1,
{
    if p >= 0 && !occurs_at(s, pattern, p) {
        lemma_last_occurrence(s, pattern, p - 1);
    }
}

/// The code units of a string have 16 bits each.
pub proof fn lemma_code_units(s: Seq<char>)
    ensures
        forall|i: int| 0 <= i < utf16(s).len() ==> 0 <= #[trigger] utf16(s)[i] < 0x1_0000,
    decreases s.len(),
{
    if s.len() > 0 {
        let (first, rest) = (code_units(s[0]), utf16(s.drop_first()));
        lemma_code_units(s.drop_first());
        lemma_char(s[0]);
        assert forall|i: int| 0 <= i < utf16(s).len() implies 0 <= #[trigger] utf16(s)[i]
            < 0x1_0000 by {
            if i >= first.len() {
                assert(utf16(s)[i] == rest[i - first.len()]);
            }
        }
    }
}

/// A character is a Unicode scalar value, and only one has that value.
pub proof fn lemma_char(c: char)
    ensures
        is_scalar(c as int),
        (c as int) as char == c,
{
}

} // verus!
