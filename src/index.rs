use vstd::prelude::*;

use crate::error::ErrorKind;

verus! {

/// Whether `c` is an ASCII decimal digit.
pub open spec fn is_digit(c: char) -> bool {
    '0' <= c <= '9'
}

/// The value of the digit character `c`.
pub open spec fn digit_value(c: char) -> nat {
    (c as u32 - '0' as u32) as nat
}

/// Whether `s` is non-empty and made of ASCII digits alone.
pub open spec fn all_digits(s: Seq<char>) -> bool {
    s.len() > 0 && forall|i: int| 0 <= i < s.len() ==> is_digit(#[trigger] s[i])
}

/// The number that the digit string `s` writes in base ten.
pub open spec fn digits_value(s: Seq<char>) -> nat
    decreases s.len(),
{
    if s.len() == 0 {
        0
    } else {
        digits_value(s.drop_last()) * 10 + digit_value(s.last())
    }
}

/// `s` without the one leading `+` that an unsigned literal may carry.
pub open spec fn unsigned_digits(s: Seq<char>) -> Seq<char> {
    if s.len() > 0 && s[0] == '+' {
        s.skip(1)
    } else {
        s
    }
}

/// The index that the text `s` denotes: an optional `+` followed by one or
/// more ASCII digits, whose value fits in `usize`. No other text is an index.
pub open spec fn parsed_index(s: Seq<char>) -> Option<nat> {
    let d = unsigned_digits(s);
    if all_digits(d) && digits_value(d) <= usize::MAX {
        Some(digits_value(d))
    } else {
        None
    }
}

/// The value of a digit string is at least that of each of its prefixes.
proof fn lemma_prefix_value_le(s: Seq<char>, k: int)
    requires
        0 <= k <= s.len(),
    ensures
        digits_value(s.subrange(0, k)) <= digits_value(s),
    decreases s.len(),
{
    if k < s.len() {
        assert(s.drop_last().subrange(0, k) =~= s.subrange(0, k));
        lemma_prefix_value_le(s.drop_last(), k);
    } else {
        assert(s.subrange(0, k) =~= s);
    }
}

/// Reads an index from `raw`: an optional `+`, then ASCII digits only.
pub fn parse_index(raw: &str) -> (r: Result<usize, ErrorKind>)
    ensures
        match parsed_index(raw@) {
            Some(n) => r == Ok::<usize, ErrorKind>(n as usize),
            None => r == Err::<usize, ErrorKind>(ErrorKind::ParseError),
        },
{
    let len = raw.unicode_len();
    let mut start: usize = 0;
    if len > 0 && raw.get_char(0) == '+' {
        start = 1;
    }
    let ghost d = unsigned_digits(raw@);
    assert(d =~= raw@.subrange(start as int, len as int));
    if start == len {
        return Err(ErrorKind::ParseError);
    }
    let mut value: usize = 0;
    let mut i: usize = start;
    while i < len
        invariant
            len == raw@.len(),
            start < len,
            d == unsigned_digits(raw@),
            d == raw@.subrange(start as int, len as int),
            start <= i <= len,
            forall|j: int| start <= j < i ==> is_digit(#[trigger] raw@[j]),
            value == digits_value(raw@.subrange(start as int, i as int)),
        decreases len - i,
    {
        let c = raw.get_char(i);
        if c < '0' || c > '9' {
            assert(d[i - start] == c);
            assert(!is_digit(d[i - start]));
            return Err(ErrorKind::ParseError);
        }
        let digit: usize = (c as u32 - '0' as u32) as usize;
        let ghost prefix = raw@.subrange(start as int, i as int + 1);
        assert(prefix.drop_last() =~= raw@.subrange(start as int, i as int));
        assert(prefix.last() == c);
        assert(digits_value(prefix) == value * 10 + digit);
        if value > (usize::MAX - digit) / 10 {
            proof {
                assert(digits_value(prefix) > usize::MAX) by (nonlinear_arith)
                    requires
                        value > (usize::MAX - digit) / 10,
                        digits_value(prefix) == value * 10 + digit,
                        digit <= 9,
                ;
                assert(d.subrange(0, i - start + 1) =~= prefix);
                lemma_prefix_value_le(d, i - start + 1);
            }
            return Err(ErrorKind::ParseError);
        }
        assert(value * 10 + digit <= usize::MAX) by (nonlinear_arith)
            requires
                value <= (usize::MAX - digit) / 10,
                digit <= 9,
        ;
        value = value * 10 + digit;
        i = i + 1;
    }
    assert(raw@.subrange(start as int, i as int) =~= d);
    assert forall|j: int| 0 <= j < d.len() implies is_digit(#[trigger] d[j]) by {
        assert(d[j] == raw@[start + j]);
    }
    Ok(value)
}

/// Reads an index from `raw` and returns the element of `collection` there:
/// `ParseError` when `raw` is no index, `IndexOutOfRange` when the index is
/// not below the collection's length.
pub fn access<T: Copy>(collection: &[T], raw: &str) -> (r: Result<T, ErrorKind>)
    ensures
        match parsed_index(raw@) {
            None => r == Err::<T, ErrorKind>(ErrorKind::ParseError),
            Some(n) => if n < collection@.len() {
                r == Ok::<T, ErrorKind>(collection@[n as int])
            } else {
                r == Err::<T, ErrorKind>(ErrorKind::IndexOutOfRange)
            },
        },
{
    match parse_index(raw) {
        Err(e) => Err(e),
        Ok(index) => {
            if index < collection.len() {
                Ok(collection[index])
            } else {
                Err(ErrorKind::IndexOutOfRange)
            }
        },
    }
}

} // verus!
