//! Age-group labels and the ages they cover.
//!
//! A label is a span `"<A>-<B>"` or an open end `"<A>+"`, where `<A>` and
//! `<B>` are decimal numbers, optionally followed by `" years"`.

use crate::number::{
    decimal_text, lemma_decimal_text_reads_back, lemma_number_shape, parse_decimal, parse_radix_in,
};
use crate::text::chars_of;
use vstd::prelude::*;

verus! {

/// The suffix that a label may carry after its numbers.
pub open spec fn years_suffix() -> Seq<char> {
    seq![' ', 'y', 'e', 'a', 'r', 's']
}

/// Whether `label` ends with `" years"`.
pub open spec fn has_years_suffix(label: Seq<char>) -> bool {
    label.len() >= 6 && label.skip(label.len() - 6) == years_suffix()
}

/// `label` without one trailing `" years"`, if it has one.
pub open spec fn strip_years(label: Seq<char>) -> Seq<char> {
    if has_years_suffix(label) {
        label.take(label.len() - 6)
    } else {
        label
    }
}

/// Whether the first `-` of `s` stands at `i`.
pub open spec fn is_first_dash(s: Seq<char>, i: int) -> bool {
    &&& 0 <= i < s.len()
    &&& s[i] == '-'
    &&& forall|j: int| 0 <= j < i ==> s[j] != '-'
}

/// The inclusive range of ages that `label` names, or `None` where it is
/// neither a span nor an open end.
///
/// A span gives its two numbers as they stand, whichever is larger; an open
/// end reaches to `u32::MAX`.
pub open spec fn age_range(label: Seq<char>) -> Option<(u32, u32)> {
    let t = strip_years(label);
    if exists|i: int| is_first_dash(t, i) {
        let i = choose|i: int| is_first_dash(t, i);
        match (parse_decimal(t.take(i)), parse_decimal(t.skip(i + 1))) {
            (Some(start), Some(end)) => Some((start, end)),
            _ => None,
        }
    } else if t.len() > 0 && t.last() == '+' {
        match parse_decimal(t.drop_last()) {
            Some(start) => Some((start, u32::MAX)),
            None => None,
        }
    } else {
        None
    }
}

/// Whether `age` lies in the range that `label` names. A label that names no
/// range covers no age.
pub open spec fn covers(label: Seq<char>, age: u32) -> bool {
    match age_range(label) {
        Some((start, end)) => start <= age <= end,
        None => false,
    }
}

/// Two numbers with a `-` between them name the span from the first to the
/// second, with or without `" years"` behind them.
pub proof fn lemma_span(from: Seq<char>, to: Seq<char>)
    requires
        parse_decimal(from) is Some,
        parse_decimal(to) is Some,
    ensures
        age_range(from + seq!['-'] + to) == Some(
            (parse_decimal(from).unwrap(), parse_decimal(to).unwrap()),
        ),
        age_range(from + seq!['-'] + to + years_suffix()) == Some(
            (parse_decimal(from).unwrap(), parse_decimal(to).unwrap()),
        ),
{
    let t = from + seq!['-'] + to;
    let label = t + years_suffix();
    lemma_number_shape(from, 10);
    lemma_number_shape(to, 10);
    assert(t.last() == to.last());
    assert(!has_years_suffix(t)) by {
        if t.len() >= 6 {
            assert(t.skip(t.len() - 6)[5] == t.last());
        }
    }
    assert(has_years_suffix(label)) by {
        assert(label.skip(label.len() - 6) =~= years_suffix());
    }
    assert(strip_years(label) =~= t);
    let i = from.len() as int;
    assert(is_first_dash(t, i)) by {
        assert forall|j: int| 0 <= j < i implies t[j] != '-' by {
            assert(t[j] == from[j]);
        }
    }
    let c = choose|c: int| is_first_dash(t, c);
    assert(c == i);
    assert(t.take(i) =~= from);
    assert(t.skip(i + 1) =~= to);
}

/// A number with a `+` behind it names the ages from that number on, with or
/// without `" years"` behind them.
pub proof fn lemma_open_end(from: Seq<char>)
    requires
        parse_decimal(from) is Some,
    ensures
        age_range(from + seq!['+']) == Some((parse_decimal(from).unwrap(), u32::MAX)),
        age_range(from + seq!['+'] + years_suffix()) == Some(
            (parse_decimal(from).unwrap(), u32::MAX),
        ),
{
    let t = from + seq!['+'];
    let label = t + years_suffix();
    lemma_number_shape(from, 10);
    assert(!has_years_suffix(t)) by {
        if t.len() >= 6 {
            assert(t.skip(t.len() - 6)[5] == t.last());
        }
    }
    assert(has_years_suffix(label)) by {
        assert(label.skip(label.len() - 6) =~= years_suffix());
    }
    assert(strip_years(label) =~= t);
    assert(!exists|i: int| is_first_dash(t, i)) by {
        assert forall|i: int| !is_first_dash(t, i) by {
            if 0 <= i < from.len() {
                assert(t[i] == from[i]);
            }
        }
    }
    assert(t.drop_last() =~= from);
}

/// A label that names a range is a span of two numbers or a number with a
/// `+`, once its `" years"` is taken off; nothing else names a range.
pub proof fn lemma_age_range_forms(label: Seq<char>)
    requires
        age_range(label) is Some,
    ensures
        ({
            let t = strip_years(label);
            let (start, end) = age_range(label).unwrap();
            ||| exists|from: Seq<char>, to: Seq<char>|
                t == from + seq!['-'] + to && #[trigger] parse_decimal(from) == Some(start)
                    && #[trigger] parse_decimal(to) == Some(end)
            ||| exists|from: Seq<char>|
                t == from + seq!['+'] && #[trigger] parse_decimal(from) == Some(start) && end
                    == u32::MAX
        }),
{
    let t = strip_years(label);
    let (start, end) = age_range(label).unwrap();
    if exists|i: int| is_first_dash(t, i) {
        let i = choose|i: int| is_first_dash(t, i);
        let from = t.take(i);
        let to = t.skip(i + 1);
        assert(t =~= from + seq!['-'] + to);
        assert(parse_decimal(from) == Some(start) && parse_decimal(to) == Some(end));
    } else {
        let from = t.drop_last();
        assert(t =~= from + seq!['+']);
        assert(parse_decimal(from) == Some(start));
    }
}

/// A span written from two numbers, and an open end written from one, read
/// back as those numbers.
pub proof fn lemma_labels_read_back(start: u32, end: u32)
    ensures
        age_range(decimal_text(start as nat) + seq!['-'] + decimal_text(end as nat)) == Some(
            (start, end),
        ),
        age_range(
            decimal_text(start as nat) + seq!['-'] + decimal_text(end as nat) + years_suffix(),
        ) == Some((start, end)),
        age_range(decimal_text(start as nat) + seq!['+']) == Some((start, u32::MAX)),
        age_range(decimal_text(start as nat) + seq!['+'] + years_suffix()) == Some(
            (start, u32::MAX),
        ),
{
    lemma_decimal_text_reads_back(start);
    lemma_decimal_text_reads_back(end);
    lemma_span(decimal_text(start as nat), decimal_text(end as nat));
    lemma_open_end(decimal_text(start as nat));
}

/// The length of `chars` without one trailing `" years"`.
fn stripped_len(chars: &Vec<char>) -> (n: usize)
    ensures
        n <= chars.len(),
        chars@.take(n as int) == strip_years(chars@),
{
    let len = chars.len();
    if len >= 6 && chars[len - 6] == ' ' && chars[len - 5] == 'y' && chars[len - 4] == 'e'
        && chars[len - 3] == 'a' && chars[len - 2] == 'r' && chars[len - 1] == 's' {
        assert(chars@.skip(len - 6) =~= years_suffix());
        len - 6
    } else {
        proof {
            if len >= 6 {
                let tail = chars@.skip(len - 6);
                assert(tail[0] == chars@[len - 6]);
                assert(tail[1] == chars@[len - 5]);
                assert(tail[2] == chars@[len - 4]);
                assert(tail[3] == chars@[len - 3]);
                assert(tail[4] == chars@[len - 2]);
                assert(tail[5] == chars@[len - 1]);
            }
            assert(chars@.take(len as int) =~= chars@);
        }
        len
    }
}

/// Reads an age-group label into the inclusive range of ages it names.
pub fn parse_age_group(age_group: &str) -> (r: Option<(u32, u32)>)
    ensures
        r == age_range(age_group@),
{
    let chars = chars_of(age_group);
    let end = stripped_len(&chars);
    let ghost t = strip_years(age_group@);
    let mut dash: usize = 0;
    while dash < end && chars[dash] != '-'
        invariant
            dash <= end <= chars.len(),
            t == chars@.take(end as int),
            forall|j: int| 0 <= j < dash ==> t[j] != '-',
        decreases end - dash,
    {
        dash += 1;
    }
    if dash < end {
        proof {
            assert(is_first_dash(t, dash as int));
            let i = choose|i: int| is_first_dash(t, i);
            assert(i == dash);
            assert(t.take(dash as int) =~= chars@.subrange(0, dash as int));
            assert(t.skip(dash + 1) =~= chars@.subrange(dash + 1, end as int));
        }
        let start_number = parse_radix_in(&chars, 0, dash, 10);
        let end_number = parse_radix_in(&chars, dash + 1, end, 10);
        match (start_number, end_number) {
            (Some(start), Some(end)) => Some((start, end)),
            _ => None,
        }
    } else if end > 0 && chars[end - 1] == '+' {
        proof {
            assert(!exists|i: int| is_first_dash(t, i));
            assert(t.drop_last() =~= chars@.subrange(0, end - 1));
        }
        match parse_radix_in(&chars, 0, end - 1, 10) {
            Some(start) => Some((start, u32::MAX)),
            None => None,
        }
    } else {
        proof {
            assert(!exists|i: int| is_first_dash(t, i));
        }
        None
    }
}

} // verus!
