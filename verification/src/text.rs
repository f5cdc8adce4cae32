//! Text as a sequence of characters: white space, trimming, splitting at a
//! separator, and decimal numbers.

use vstd::prelude::*;
use vstd::slice::slice_subrange;

verus! {

/// The characters of `s`, in order.
pub fn chars_of(s: &str) -> (chars: Vec<char>)
    ensures
        chars@ == s@,
{
    let mut chars: Vec<char> = Vec::new();
    for c in it: s.chars()
        invariant
            chars@ == it.seq().take(it.index()),
            it.seq() == s@,
    {
        chars.push(c);
    }
    chars
}

/// White space: the characters that Unicode gives the property
/// `White_Space`.
pub open spec fn is_space(c: char) -> bool {
    let code = c as u32;
    ||| 0x09 <= code <= 0x0d
    ||| code == 0x20
    ||| code == 0x85
    ||| code == 0xa0
    ||| code == 0x1680
    ||| 0x2000 <= code <= 0x200a
    ||| code == 0x2028
    ||| code == 0x2029
    ||| code == 0x202f
    ||| code == 0x205f
    ||| code == 0x3000
}

/// Tells whether `c` is white space.
pub fn is_whitespace(c: char) -> (space: bool)
    ensures
        space == is_space(c),
{
    let code = c as u32;
    (0x09 <= code && code <= 0x0d) || code == 0x20 || code == 0x85 || code == 0xa0 || code
        == 0x1680 || (0x2000 <= code && code <= 0x200a) || code == 0x2028 || code == 0x2029
        || code == 0x202f || code == 0x205f || code == 0x3000
}

/// `s` without the white space it begins with.
pub open spec fn trim_start(s: Seq<char>) -> Seq<char>
    decreases s.len(),
{
    if s.len() > 0 && is_space(s.first()) {
        trim_start(s.drop_first())
    } else {
        s
    }
}

/// `s` without the white space it ends with.
pub open spec fn trim_end(s: Seq<char>) -> Seq<char>
    decreases s.len(),
{
    if s.len() > 0 && is_space(s.last()) {
        trim_end(s.drop_last())
    } else {
        s
    }
}

/// `s` without the white space around it.
pub open spec fn trim(s: Seq<char>) -> Seq<char> {
    trim_end(trim_start(s))
}

/// Where trimming at the start cuts: behind the leading white space.
pub proof fn lemma_trim_start(s: Seq<char>) -> (from: int)
    ensures
        0 <= from <= s.len(),
        trim_start(s) == s.skip(from),
        forall|i: int| 0 <= i < from ==> is_space(s[i]),
        from < s.len() ==> !is_space(s[from]),
    decreases s.len(),
{
    if s.len() > 0 && is_space(s.first()) {
        let rest = s.drop_first();
        let from = lemma_trim_start(rest);
        assert(rest.skip(from) =~= s.skip(from + 1));
        assert forall|i: int| 0 <= i < from + 1 implies is_space(s[i]) by {
            if i > 0 {
                assert(s[i] == rest[i - 1]);
            }
        }
        from + 1
    } else {
        assert(s.skip(0) =~= s);
        0
    }
}

/// Where trimming at the end cuts: before the trailing white space.
pub proof fn lemma_trim_end(s: Seq<char>) -> (to: int)
    ensures
        0 <= to <= s.len(),
        trim_end(s) == s.take(to),
        forall|i: int| to <= i < s.len() ==> is_space(s[i]),
        0 < to ==> !is_space(s[to - 1]),
    decreases s.len(),
{
    if s.len() > 0 && is_space(s.last()) {
        let rest = s.drop_last();
        let to = lemma_trim_end(rest);
        assert(rest.take(to) =~= s.take(to));
        assert forall|i: int| to <= i < s.len() implies is_space(s[i]) by {
            if i < rest.len() {
                assert(s[i] == rest[i]);
            }
        }
        to
    } else {
        assert(s.take(s.len() as int) =~= s);
        s.len() as int
    }
}

/// Trimming takes away white space at both ends and nothing else: what is
/// left is the part of the text from `cut.0` to `cut.1`, which neither
/// begins nor ends with white space, and all that is cut off is white
/// space.
pub proof fn lemma_trim(s: Seq<char>) -> (cut: (int, int))
    ensures
        0 <= cut.0 <= cut.1 <= s.len(),
        trim(s) == s.subrange(cut.0, cut.1),
        forall|i: int| 0 <= i < cut.0 || cut.1 <= i < s.len() ==> is_space(s[i]),
        cut.0 < cut.1 ==> !is_space(s[cut.0]) && !is_space(s[cut.1 - 1]),
{
    let from = lemma_trim_start(s);
    let rest = s.skip(from);
    let to = lemma_trim_end(rest);
    if from < s.len() && to == 0 {
        assert(is_space(rest[0]));
    }
    assert(rest.take(to) =~= s.subrange(from, from + to));
    assert forall|i: int| from + to <= i < s.len() implies is_space(s[i]) by {
        assert(s[i] == rest[i - from]);
    }
    if to > 0 {
        assert(rest[to - 1] == s[from + to - 1]);
    }
    (from, from + to)
}

/// The part of `s` that is left when the white space around it is taken
/// away.
pub fn trimmed<'a>(s: &'a [char]) -> (inner: &'a [char])
    ensures
        inner@ == trim(s@),
{
    let mut from: usize = 0;
    assert(s@.skip(0) =~= s@);
    while from < s.len() && is_whitespace(s[from])
        invariant
            from <= s@.len(),
            trim_start(s@.skip(from as int)) == trim_start(s@),
        decreases s@.len() - from,
    {
        assert(s@.skip(from as int).drop_first() =~= s@.skip(from + 1));
        from += 1;
    }
    let mut to: usize = s.len();
    assert(s@.subrange(from as int, to as int) =~= s@.skip(from as int));
    while to > from && is_whitespace(s[to - 1])
        invariant
            from <= to <= s@.len(),
            trim_start(s@) == s@.skip(from as int),
            trim_end(s@.subrange(from as int, to as int)) == trim(s@),
        decreases to,
    {
        assert(s@.subrange(from as int, to as int).drop_last() =~= s@.subrange(
            from as int,
            to - 1,
        ));
        to -= 1;
    }
    slice_subrange(s, from, to)
}

/// How many characters of `s` stand before its first `sep`; the length of
/// `s` if there is none.
pub open spec fn field_len(s: Seq<char>, sep: char) -> int
    decreases s.len(),
{
    if s.len() == 0 || s.first() == sep {
        0
    } else {
        1 + field_len(s.drop_first(), sep)
    }
}

/// What stands before the first `sep` in `s`: all of `s` if there is
/// none.
pub open spec fn first_field(s: Seq<char>, sep: char) -> Seq<char> {
    s.take(field_len(s, sep))
}

/// Whether a `sep` stands in `s`, so that more follows the first field.
pub open spec fn has_more(s: Seq<char>, sep: char) -> bool {
    field_len(s, sep) < s.len()
}

/// What follows the first `sep` in `s`.
pub open spec fn after_first_field(s: Seq<char>, sep: char) -> Seq<char> {
    s.skip(field_len(s, sep) + 1)
}

/// The first field ends at the first separator or at the end of the text,
/// and holds no separator.
pub proof fn lemma_field_len(s: Seq<char>, sep: char)
    ensures
        0 <= field_len(s, sep) <= s.len(),
        has_more(s, sep) ==> s[field_len(s, sep)] == sep,
        forall|i: int| 0 <= i < field_len(s, sep) ==> s[i] != sep,
    decreases s.len(),
{
    if s.len() == 0 || s.first() == sep {
    } else {
        let rest = s.drop_first();
        lemma_field_len(rest, sep);
        assert forall|i: int| 0 <= i < field_len(s, sep) implies s[i] != sep by {
            if i > 0 {
                assert(s[i] == rest[i - 1]);
            }
        }
    }
}

/// The place of the first `sep` in `s`, or the length of `s` if there is
/// none.
pub fn find(s: &[char], sep: char) -> (at: usize)
    ensures
        at == field_len(s@, sep),
        at <= s@.len(),
        at < s@.len() ==> s@[at as int] == sep,
        forall|i: int| 0 <= i < at ==> s@[i] != sep,
{
    proof {
        lemma_field_len(s@, sep);
    }
    let mut at: usize = 0;
    assert(s@.skip(0) =~= s@);
    while at < s.len() && s[at] != sep
        invariant
            at <= s@.len(),
            field_len(s@, sep) == at + field_len(s@.skip(at as int), sep),
        decreases s@.len() - at,
    {
        assert(s@.skip(at as int).drop_first() =~= s@.skip(at + 1));
        at += 1;
    }
    at
}

/// Tells whether `s` spells `word`.
pub fn spells(s: &[char], word: &str) -> (same: bool)
    ensures
        same == (s@ == word@),
{
    let letters = chars_of(word);
    if s.len() != letters.len() {
        return false;
    }
    let mut i: usize = 0;
    while i < s.len()
        invariant
            i <= s@.len(),
            s@.len() == letters@.len(),
            letters@ == word@,
            forall|k: int| 0 <= k < i ==> s@[k] == letters@[k],
        decreases s@.len() - i,
    {
        if s[i] != letters[i] {
            return false;
        }
        i += 1;
    }
    assert(s@ =~= letters@);
    true
}

/// A decimal digit.
pub open spec fn is_digit(c: char) -> bool {
    '0' <= c <= '9'
}

/// The value of a decimal digit, and 0 for any other character.
pub open spec fn digit_value(c: char) -> nat {
    if is_digit(c) {
        (c as u32 - '0' as u32) as nat
    } else {
        0
    }
}

/// `s` is made of decimal digits.
pub open spec fn all_digits(s: Seq<char>) -> bool {
    forall|i: int| 0 <= i < s.len() ==> is_digit(#[trigger] s[i])
}

/// The number that the digits of `s` spell in base ten.
pub open spec fn decimal(s: Seq<char>) -> nat
    decreases s.len(),
{
    if s.len() == 0 {
        0
    } else {
        decimal(s.drop_last()) * 10 + digit_value(s.last())
    }
}

/// A number is no smaller than what any of its leading digits spell.
pub proof fn lemma_decimal_prefix(s: Seq<char>, n: int)
    requires
        0 <= n <= s.len(),
    ensures
        decimal(s.take(n)) <= decimal(s),
    decreases s.len() - n,
{
    if n == s.len() {
        assert(s.take(n) =~= s);
    } else {
        lemma_decimal_prefix(s, n + 1);
        assert(s.take(n + 1).drop_last() =~= s.take(n));
    }
}

/// The value of the digit `c`.
pub fn digit_of(c: char) -> (value: Option<u8>)
    ensures
        value.is_some() == is_digit(c),
        is_digit(c) ==> value == Some(digit_value(c) as u8),
{
    if '0' <= c && c <= '9' {
        Some((c as u32 - '0' as u32) as u8)
    } else {
        None
    }
}

/// A number written as one or more decimal digits that is no larger than
/// `limit`; nothing where `s` is empty, holds anything but digits, or
/// spells a larger number.
pub open spec fn number_up_to(s: Seq<char>, limit: nat) -> Option<nat> {
    if s.len() > 0 && all_digits(s) && decimal(s) <= limit {
        Some(decimal(s))
    } else {
        None
    }
}

/// Reads a number of one or more decimal digits that is no larger than
/// `limit`.
pub fn read_number(s: &[char], limit: u32) -> (number: Option<u32>)
    ensures
        number_up_to(s@, limit as nat) matches Some(n) ==> number == Some(n as u32),
        number_up_to(s@, limit as nat).is_none() ==> number.is_none(),
{
    if s.len() == 0 {
        return None;
    }
    let mut value: u64 = 0;
    let mut i: usize = 0;
    assert(s@.take(0) =~= Seq::<char>::empty());
    while i < s.len()
        invariant
            i <= s@.len(),
            all_digits(s@.take(i as int)),
            value == decimal(s@.take(i as int)),
            value <= limit,
        decreases s@.len() - i,
    {
        let digit = match digit_of(s[i]) {
            Some(d) => d,
            None => {
                assert(!is_digit(s@[i as int]));
                return None;
            },
        };
        proof {
            assert(s@.take(i + 1).drop_last() =~= s@.take(i as int));
            assert(s@.take(i + 1).last() == s@[i as int]);
        }
        value = value * 10 + digit as u64;
        if value > limit as u64 {
            proof {
                lemma_decimal_prefix(s@, i + 1);
            }
            return None;
        }
        i += 1;
    }
    assert(s@.take(s@.len() as int) =~= s@);
    Some(value as u32)
}

/// An unsigned number of 32 bits: decimal digits, with or without a `+`
/// before them.
pub open spec fn unsigned_of(s: Seq<char>) -> Option<u32> {
    let digits = if s.len() > 0 && s.first() == '+' {
        s.drop_first()
    } else {
        s
    };
    match number_up_to(digits, u32::MAX as nat) {
        Some(n) => Some(n as u32),
        None => None,
    }
}

/// A signed number of 32 bits: decimal digits, with or without a `+` or a
/// `-` before them.
pub open spec fn signed_of(s: Seq<char>) -> Option<i32> {
    if s.len() > 0 && s.first() == '-' {
        match number_up_to(s.drop_first(), 0x8000_0000) {
            Some(n) => Some((-n) as i32),
            None => None,
        }
    } else {
        let digits = if s.len() > 0 && s.first() == '+' {
            s.drop_first()
        } else {
            s
        };
        match number_up_to(digits, i32::MAX as nat) {
            Some(n) => Some(n as i32),
            None => None,
        }
    }
}

/// A truth value: the word `true` or the word `false`.
pub open spec fn flag_of(s: Seq<char>) -> Option<bool> {
    if s == "true"@ {
        Some(true)
    } else if s == "false"@ {
        Some(false)
    } else {
        None
    }
}

/// Reads an unsigned number of 32 bits.
pub fn read_unsigned(s: &[char]) -> (number: Option<u32>)
    ensures
        number == unsigned_of(s@),
{
    if s.len() > 0 && s[0] == '+' {
        assert(s@.subrange(1, s@.len() as int) =~= s@.drop_first());
        read_number(slice_subrange(s, 1, s.len()), u32::MAX)
    } else {
        read_number(s, u32::MAX)
    }
}

/// Reads a signed number of 32 bits.
pub fn read_signed(s: &[char]) -> (number: Option<i32>)
    ensures
        number == signed_of(s@),
{
    if s.len() > 0 && s[0] == '-' {
        assert(s@.subrange(1, s@.len() as int) =~= s@.drop_first());
        match read_number(slice_subrange(s, 1, s.len()), 0x8000_0000) {
            Some(n) => Some((-(n as i64)) as i32),
            None => None,
        }
    } else if s.len() > 0 && s[0] == '+' {
        assert(s@.subrange(1, s@.len() as int) =~= s@.drop_first());
        match read_number(slice_subrange(s, 1, s.len()), 0x7fff_ffff) {
            Some(n) => Some(n as i32),
            None => None,
        }
    } else {
        match read_number(s, 0x7fff_ffff) {
            Some(n) => Some(n as i32),
            None => None,
        }
    }
}

/// Reads a truth value.
pub fn read_flag(s: &[char]) -> (flag: Option<bool>)
    ensures
        flag == flag_of(s@),
{
    if spells(s, "true") {
        Some(true)
    } else if spells(s, "false") {
        Some(false)
    } else {
        None
    }
}

} // verus!
