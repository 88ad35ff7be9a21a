//! Unsigned integers written as text.
//!
//! A number is an optional `+` followed by one or more digits of the radix,
//! and must fit in 32 bits. Nothing else is a number: no blanks, no
//! underscores, no minus sign.

use vstd::prelude::*;

verus! {

/// The value of `c` as a digit: `0` to `9` count 0 to 9, and the letters `a`
/// to `z`, small or capital, count 10 to 35.
pub open spec fn digit_number(c: char) -> Option<int> {
    if '0' <= c <= '9' {
        Some(c as int - '0' as int)
    } else if 'a' <= c <= 'z' {
        Some(c as int - 'a' as int + 10)
    } else if 'A' <= c <= 'Z' {
        Some(c as int - 'A' as int + 10)
    } else {
        None
    }
}

/// The value of `c` as a digit of `radix`, if it is one: a digit that counts
/// less than `radix`.
pub open spec fn digit_value(c: char, radix: int) -> Option<int> {
    match digit_number(c) {
        Some(d) if d < radix => Some(d),
        _ => None,
    }
}

/// Whether every character of `s` is a digit of `radix`.
pub open spec fn all_digits(s: Seq<char>, radix: int) -> bool {
    forall|i: int| 0 <= i < s.len() ==> (#[trigger] digit_value(s[i], radix)) is Some
}

/// The number that the digits `s` denote in `radix`, most significant first.
pub open spec fn digits_value(s: Seq<char>, radix: int) -> int
    decreases s.len(),
{
    if s.len() == 0 {
        0
    } else {
        digits_value(s.drop_last(), radix) * radix + digit_value(s.last(), radix).unwrap()
    }
}

/// `s` without its leading `+`, if it has one.
pub open spec fn unsigned_part(s: Seq<char>) -> Seq<char> {
    if s.len() > 0 && s[0] == '+' {
        s.skip(1)
    } else {
        s
    }
}

/// The 32-bit number that `s` denotes in `radix`, or `None` where `s` is not
/// a number or does not fit.
pub open spec fn parse_radix(s: Seq<char>, radix: int) -> Option<u32> {
    let body = unsigned_part(s);
    if body.len() > 0 && all_digits(body, radix) && digits_value(body, radix) <= u32::MAX {
        Some(digits_value(body, radix) as u32)
    } else {
        None
    }
}

/// The decimal number that `s` denotes.
pub open spec fn parse_decimal(s: Seq<char>) -> Option<u32> {
    parse_radix(s, 10)
}

/// The number that `s` denotes as a table field: hexadecimal behind a leading
/// `0x`, decimal otherwise.
pub open spec fn parse_field(s: Seq<char>) -> Option<u32> {
    if s.len() >= 2 && s[0] == '0' && s[1] == 'x' {
        parse_radix(s.skip(2), 16)
    } else {
        parse_radix(s, 10)
    }
}

/// The ten decimal digits, in order.
pub open spec fn decimal_digits() -> Seq<char> {
    seq!['0', '1', '2', '3', '4', '5', '6', '7', '8', '9']
}

/// `n` written in decimal digits, without sign or leading zeros.
pub open spec fn decimal_text(n: nat) -> Seq<char>
    decreases n,
{
    if n < 10 {
        seq![decimal_digits()[n as int]]
    } else {
        decimal_text(n / 10).push(decimal_digits()[(n % 10) as int])
    }
}

/// A number written in decimal digits reads back as itself.
pub proof fn lemma_decimal_text_reads_back(n: u32)
    ensures
        parse_decimal(decimal_text(n as nat)) == Some(n),
{
    let text = decimal_text(n as nat);
    lemma_decimal_text(n as nat);
    assert(digit_value(text[0], 10) is Some);
    assert(unsigned_part(text) == text);
}

/// The decimal text of `n` is one or more digits that denote `n`.
pub proof fn lemma_decimal_text(n: nat)
    ensures
        decimal_text(n).len() > 0,
        all_digits(decimal_text(n), 10),
        digits_value(decimal_text(n), 10) == n,
    decreases n,
{
    let text = decimal_text(n);
    if n < 10 {
        assert(text.drop_last() =~= Seq::<char>::empty());
        assert(digit_value(text[0], 10) == Some(n as int));
        assert(digits_value(text.drop_last(), 10) == 0);
    } else {
        let front = decimal_text(n / 10);
        lemma_decimal_text(n / 10);
        assert(text.drop_last() =~= front);
        assert(digit_value(text.last(), 10) == Some((n % 10) as int));
        assert forall|i: int| 0 <= i < text.len() implies (#[trigger] digit_value(text[i], 10))
            is Some by {
            if i < front.len() {
                assert(text[i] == front[i]);
            }
        }
    }
}

/// A number holds neither `-` nor blank, and ends with a digit.
pub proof fn lemma_number_shape(s: Seq<char>, radix: int)
    requires
        2 <= radix <= 36,
        parse_radix(s, radix) is Some,
    ensures
        s.len() > 0,
        digit_value(s.last(), radix) is Some,
        forall|i: int| 0 <= i < s.len() ==> s[i] != '-' && s[i] != ' ',
{
    let body = unsigned_part(s);
    assert(body.last() == s.last());
    assert forall|i: int| 0 <= i < s.len() implies s[i] != '-' && s[i] != ' ' by {
        if body.len() == s.len() {
            assert(digit_value(body[i], radix) is Some);
        } else if i > 0 {
            assert(body[i - 1] == s[i]);
            assert(digit_value(body[i - 1], radix) is Some);
        }
    }
}

/// Digits only ever add to the value of what stands before them.
pub proof fn lemma_digits_value_grows(s: Seq<char>, k: int, radix: int)
    requires
        radix >= 2,
        0 <= k <= s.len(),
        all_digits(s, radix),
    ensures
        0 <= digits_value(s.take(k), radix) <= digits_value(s, radix),
    decreases s.len() - k,
{
    lemma_digits_value_nonnegative(s.take(k), radix);
    if k == s.len() {
        assert(s.take(k) =~= s);
    } else {
        lemma_digits_value_grows(s, k + 1, radix);
        let longer = s.take(k + 1);
        assert(longer.drop_last() =~= s.take(k));
        assert(longer.last() == s[k]);
        assert(digit_value(s[k], radix) is Some);
        let v = digits_value(s.take(k), radix);
        assert(v * radix >= v) by (nonlinear_arith)
            requires
                v >= 0,
                radix >= 2,
        ;
    }
}

/// A digit string never denotes a negative number.
pub proof fn lemma_digits_value_nonnegative(s: Seq<char>, radix: int)
    requires
        radix >= 2,
        all_digits(s, radix),
    ensures
        digits_value(s, radix) >= 0,
    decreases s.len(),
{
    if s.len() > 0 {
        let front = s.drop_last();
        assert(all_digits(front, radix)) by {
            assert forall|i: int| 0 <= i < front.len() implies (#[trigger] digit_value(
                front[i],
                radix,
            )) is Some by {
                assert(front[i] == s[i]);
            }
        }
        lemma_digits_value_nonnegative(front, radix);
        assert(digit_value(s.last(), radix) is Some);
        let v = digits_value(front, radix);
        assert(v * radix >= 0) by (nonlinear_arith)
            requires
                v >= 0,
                radix >= 2,
        ;
    }
}

/// The value of `c` as a digit of `radix`, if it is one.
pub fn digit_of(c: char, radix: u32) -> (r: Option<u32>)
    requires
        2 <= radix <= 36,
    ensures
        match r {
            Some(d) => digit_value(c, radix as int) == Some(d as int),
            None => digit_value(c, radix as int) is None,
        },
{
    let d: u32 = if '0' <= c && c <= '9' {
        c as u32 - '0' as u32
    } else if 'a' <= c && c <= 'z' {
        c as u32 - 'a' as u32 + 10
    } else if 'A' <= c && c <= 'Z' {
        c as u32 - 'A' as u32 + 10
    } else {
        return None;
    };
    if d < radix {
        Some(d)
    } else {
        None
    }
}

/// Reads the characters `chars[start..end]` as a number in `radix`.
pub fn parse_radix_in(chars: &Vec<char>, start: usize, end: usize, radix: u32) -> (r: Option<u32>)
    requires
        start <= end <= chars.len(),
        2 <= radix <= 36,
    ensures
        r == parse_radix(chars@.subrange(start as int, end as int), radix as int),
{
    let ghost s = chars@.subrange(start as int, end as int);
    let first: usize = if start < end && chars[start] == '+' {
        start + 1
    } else {
        start
    };
    let ghost body = unsigned_part(s);
    assert(body =~= chars@.subrange(first as int, end as int));
    if first == end {
        return None;
    }
    let mut value: u64 = 0;
    let mut i: usize = first;
    while i < end
        invariant
            start <= first <= i <= end <= chars.len(),
            first < end,
            2 <= radix <= 36,
            body == chars@.subrange(first as int, end as int),
            body == unsigned_part(chars@.subrange(start as int, end as int)),
            all_digits(body.take(i - first), radix as int),
            value as int == digits_value(body.take(i - first), radix as int),
            value <= u32::MAX,
        decreases end - i,
    {
        let ghost seen = body.take(i - first);
        let ghost more = body.take(i - first + 1);
        proof {
            assert(more.drop_last() =~= seen);
            assert(more.last() == chars@[i as int]);
        }
        match digit_of(chars[i], radix) {
            None => {
                proof {
                    assert(body[i - first] == chars@[i as int]);
                    assert(!all_digits(body, radix as int));
                }
                return None;
            },
            Some(d) => {
                assert(value * radix <= 0xffff_ffff * 36) by (nonlinear_arith)
                    requires
                        value <= 0xffff_ffff,
                        radix <= 36,
                ;
                let next: u64 = value * (radix as u64) + (d as u64);
                proof {
                    assert(all_digits(more, radix as int)) by {
                        assert forall|j: int| 0 <= j < more.len() implies (#[trigger] digit_value(
                            more[j],
                            radix as int,
                        )) is Some by {
                            if j < seen.len() {
                                assert(more[j] == seen[j]);
                            }
                        }
                    }
                    assert(next as int == digits_value(more, radix as int));
                }
                if next > u32::MAX as u64 {
                    proof {
                        if all_digits(body, radix as int) {
                            lemma_digits_value_grows(body, i - first + 1, radix as int);
                        }
                    }
                    return None;
                }
                value = next;
            },
        }
        i += 1;
    }
    proof {
        assert(body.take(end - first) =~= body);
    }
    Some(value as u32)
}

/// Reads `text` as a decimal number.
pub fn parse_u32(text: &str) -> (r: Option<u32>)
    ensures
        r == parse_decimal(text@),
{
    let chars = crate::text::chars_of(text);
    assert(chars@.subrange(0, chars.len() as int) =~= chars@);
    parse_radix_in(&chars, 0, chars.len(), 10)
}

/// Reads `text` as the number of a table field: hexadecimal behind a leading
/// `0x`, decimal otherwise.
pub fn parse_int_field(text: &str) -> (r: Option<u32>)
    ensures
        r == parse_field(text@),
{
    let chars = crate::text::chars_of(text);
    let len = chars.len();
    if len >= 2 && chars[0] == '0' && chars[1] == 'x' {
        assert(chars@.subrange(2, len as int) =~= chars@.skip(2));
        parse_radix_in(&chars, 2, len, 16)
    } else {
        assert(chars@.subrange(0, len as int) =~= chars@);
        parse_radix_in(&chars, 0, len, 10)
    }
}

} // verus!
