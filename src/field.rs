use vstd::prelude::*;

verus! {

/// An ASCII decimal digit.
pub open spec fn is_digit(b: u8) -> bool {
    48 <= b <= 57
}

/// Every byte of `s` is a decimal digit.
pub open spec fn all_digits(s: Seq<u8>) -> bool {
    forall|i: int| 0 <= i < s.len() ==> is_digit(#[trigger] s[i])
}

/// The number written by the decimal digits `s`, most significant first.
pub open spec fn digits_value(s: Seq<u8>) -> nat
    decreases s.len(),
{
    if s.len() == 0 {
        0
    } else {
        digits_value(s.drop_last()) * 10 + (s.last() - 48) as nat
    }
}

/// The digits of a field: the field without one leading `+`, if it has one.
pub open spec fn digits_part(s: Seq<u8>) -> Seq<u8> {
    if s.len() > 0 && s[0] == 43 {
        s.drop_first()
    } else {
        s
    }
}

/// A field holds a count when it is an optional `+` followed by one or more
/// decimal digits whose value fits in `usize`.
pub open spec fn is_count(s: Seq<u8>) -> bool {
    let d = digits_part(s);
    d.len() > 0 && all_digits(d) && digits_value(d) <= usize::MAX
}

/// The value a field stands for: its count, or zero when it holds none.
pub open spec fn count_or_zero(s: Seq<u8>) -> nat {
    if is_count(s) {
        digits_value(digits_part(s))
    } else {
        0
    }
}

/// A prefix of a run of digits never stands for more than the whole run.
proof fn lemma_prefix_value_le(s: Seq<u8>, j: int)
    requires
        all_digits(s),
        0 <= j <= s.len(),
    ensures
        digits_value(s.subrange(0, j)) <= digits_value(s),
    decreases s.len(),
{
    if j < s.len() {
        assert(s.drop_last().subrange(0, j) == s.subrange(0, j));
        lemma_prefix_value_le(s.drop_last(), j);
    } else {
        assert(s.subrange(0, j) == s);
    }
}

/// Reads a field as a count: an optional `+` and decimal digits that fit in
/// `usize`. Any other field, empty included, reads as zero.
pub fn parse_count(field: &[u8]) -> (r: usize)
    ensures
        r == count_or_zero(field@),
{
    let start: usize = if field.len() > 0 && field[0] == 43 { 1 } else { 0 };
    let ghost d = digits_part(field@);
    assert(d == field@.subrange(start as int, field@.len() as int));
    if start == field.len() {
        return 0;
    }
    let mut i: usize = start;
    while i < field.len()
        invariant
            start <= i <= field@.len(),
            d == field@.subrange(start as int, field@.len() as int),
            d == digits_part(field@),
            forall|k: int| start <= k < i ==> is_digit(#[trigger] field@[k]),
        decreases field@.len() - i,
    {
        if field[i] < 48 || field[i] > 57 {
            assert(d[i - start] == field@[i as int]);
            assert(!is_digit(d[i - start]));
            return 0;
        }
        i = i + 1;
    }
    assert(all_digits(d)) by {
        assert forall|k: int| 0 <= k < d.len() implies is_digit(#[trigger] d[k]) by {
            assert(d[k] == field@[k + start]);
        }
    }
    let mut v: usize = 0;
    let mut j: usize = start;
    while j < field.len()
        invariant
            start <= j <= field@.len(),
            d == field@.subrange(start as int, field@.len() as int),
            d == digits_part(field@),
            all_digits(d),
            v == digits_value(d.subrange(0, j - start)),
        decreases field@.len() - j,
    {
        let ghost p = d.subrange(0, j + 1 - start);
        assert(p.drop_last() == d.subrange(0, j - start));
        assert(is_digit(d[j - start]));
        assert(p.last() == field@[j as int]);
        let digit: usize = (field[j] - 48) as usize;
        assert(digits_value(p) == v * 10 + digit);
        match v.checked_mul(10) {
            None => {
                proof {
                    lemma_prefix_value_le(d, j + 1 - start);
                }
                return 0;
            },
            Some(t) => match t.checked_add(digit) {
                None => {
                    proof {
                        lemma_prefix_value_le(d, j + 1 - start);
                    }
                    return 0;
                },
                Some(u) => {
                    v = u;
                },
            },
        }
        j = j + 1;
    }
    assert(d.subrange(0, d.len() as int) == d);
    v
}

/// A field holding any byte that is neither a decimal digit nor a leading
/// `+` reads as zero.
pub proof fn lemma_non_numeric_field_reads_zero(field: Seq<u8>, k: int)
    requires
        0 <= k < field.len(),
        !is_digit(field[k]),
        !(k == 0 && field[k] == 43),
    ensures
        count_or_zero(field) == 0,
{
    let d = digits_part(field);
    if field.len() > 0 && field[0] == 43 {
        assert(d[k - 1] == field[k]);
    } else {
        assert(d[k] == field[k]);
    }
}

} // verus!
