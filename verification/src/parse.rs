//! Reading a number from its text: an optional minus sign, digits, an
//! optional fraction and an optional exponent.

use vstd::prelude::*;
use vstd::string::*;
use crate::number::Number;
use crate::text::{digit_value, digits_value};

verus! {

/// The end of the run of digits that starts at `from`.
pub open spec fn digits_end(s: Seq<char>, from: int) -> int
    decreases s.len() - from,
{
    if 0 <= from < s.len() && digit_value(s[from]).is_some() {
        digits_end(s, from + 1)
    } else {
        from
    }
}

/// Whether every character of `s` is a digit.
pub open spec fn all_digits(s: Seq<char>) -> bool {
    forall|i: int| 0 <= i < s.len() ==> digit_value(#[trigger] s[i]).is_some()
}

/// The number that a text spells, where `u64` holds its digits and `i32` the
/// power of ten that places the point.
///
/// The text is an optional `-`, one digit or more, then optionally a `.` with
/// one digit or more, then optionally `e` or `E`, an optional sign and one
/// digit or more. The digits before and behind the point together are the
/// mantissa; the exponent is the one written, less the digits behind the point.
pub open spec fn parse_number(s: Seq<char>) -> Option<Number> {
    let negative = s.len() > 0 && s[0] == '-';
    let int_start: int = if negative {
        1
    } else {
        0
    };
    let int_end = digits_end(s, int_start);
    let has_fraction = int_end < s.len() && s[int_end] == '.';
    let frac_start = if has_fraction {
        int_end + 1
    } else {
        int_end
    };
    let frac_end = digits_end(s, frac_start);
    let has_exponent = frac_end < s.len() && (s[frac_end] == 'e' || s[frac_end] == 'E');
    let sign_at = frac_end + 1;
    let exp_negative = has_exponent && sign_at < s.len() && s[sign_at] == '-';
    let exp_signed = has_exponent && sign_at < s.len() && (s[sign_at] == '-' || s[sign_at] == '+');
    let exp_start = if !has_exponent {
        frac_end
    } else if exp_signed {
        sign_at + 1
    } else {
        sign_at
    };
    let exp_end = digits_end(s, exp_start);
    let well_formed = {
        &&& int_end > int_start
        &&& has_fraction ==> frac_end > frac_start
        &&& has_exponent ==> exp_end > exp_start
        &&& exp_end == s.len()
    };
    let mantissa = digits_value(
        s.subrange(int_start, int_end) + s.subrange(frac_start, frac_end),
    ).unwrap();
    let written = digits_value(s.subrange(exp_start, exp_end)).unwrap();
    let exponent = (if exp_negative {
        -written
    } else {
        written as int
    }) - (frac_end - frac_start);
    if well_formed && mantissa <= u64::MAX && i32::MIN <= exponent <= i32::MAX {
        Some(Number { negative, mantissa: mantissa as u64, exponent: exponent as i32 })
    } else {
        None
    }
}

/// A run of digits ends within the text, and holds digits only.
pub proof fn lemma_digits_end(s: Seq<char>, from: int)
    requires
        0 <= from <= s.len(),
    ensures
        from <= digits_end(s, from) <= s.len(),
        all_digits(s.subrange(from, digits_end(s, from))),
        digits_end(s, from) < s.len() ==> digit_value(s[digits_end(s, from)]).is_none(),
    decreases s.len() - from,
{
    if from < s.len() && digit_value(s[from]).is_some() {
        lemma_digits_end(s, from + 1);
        let end = digits_end(s, from);
        assert forall|i: int| 0 <= i < end - from implies digit_value(
            #[trigger] s.subrange(from, end)[i],
        ).is_some() by {
            if i > 0 {
                assert(s.subrange(from, end)[i] == s.subrange(from + 1, end)[i - 1]);
            }
        }
    }
}

/// A run of digits spells a number, and a longer run no smaller one.
pub proof fn lemma_digits_spell(s: Seq<char>)
    requires
        all_digits(s),
    ensures
        digits_value(s).is_some(),
        s.len() > 0 ==> digits_value(s.drop_last()).is_some() && digits_value(s).unwrap()
            >= digits_value(s.drop_last()).unwrap(),
    decreases s.len(),
{
    if s.len() > 0 {
        assert forall|i: int| 0 <= i < s.drop_last().len() implies digit_value(
            #[trigger] s.drop_last()[i],
        ).is_some() by {
            assert(s.drop_last()[i] == s[i]);
        }
        lemma_digits_spell(s.drop_last());
        assert(digit_value(s.last()).is_some());
    }
}

/// Two runs of digits make one.
pub proof fn lemma_all_digits_join(a: Seq<char>, b: Seq<char>)
    requires
        all_digits(a),
        all_digits(b),
    ensures
        all_digits(a + b),
{
    assert forall|i: int| 0 <= i < (a + b).len() implies digit_value(
        #[trigger] (a + b)[i],
    ).is_some() by {
        if i < a.len() {
            assert((a + b)[i] == a[i]);
        } else {
            assert((a + b)[i] == b[i - a.len()]);
        }
    }
}

/// Digits behind a run of digits make the number that it spells no smaller.
pub proof fn lemma_digits_grow(a: Seq<char>, b: Seq<char>)
    requires
        all_digits(a),
        all_digits(b),
    ensures
        digits_value(a).is_some(),
        digits_value(a + b).is_some(),
        digits_value(a + b).unwrap() >= digits_value(a).unwrap(),
    decreases b.len(),
{
    lemma_all_digits_join(a, b);
    lemma_digits_spell(a);
    lemma_digits_spell(a + b);
    if b.len() == 0 {
        assert(a + b =~= a);
    } else {
        assert forall|i: int| 0 <= i < b.drop_last().len() implies digit_value(
            #[trigger] b.drop_last()[i],
        ).is_some() by {
            assert(b.drop_last()[i] == b[i]);
        }
        lemma_digits_grow(a, b.drop_last());
        assert((a + b).drop_last() =~= a + b.drop_last());
    }
}

/// The digit that a character is, if it is one.
pub fn digit_of(c: char) -> (r: Option<u8>)
    ensures
        match r {
            Some(d) => digit_value(c) == Some(d as nat),
            None => digit_value(c).is_none(),
        },
{
    if c == '0' {
        Some(0)
    } else if c == '1' {
        Some(1)
    } else if c == '2' {
        Some(2)
    } else if c == '3' {
        Some(3)
    } else if c == '4' {
        Some(4)
    } else if c == '5' {
        Some(5)
    } else if c == '6' {
        Some(6)
    } else if c == '7' {
        Some(7)
    } else if c == '8' {
        Some(8)
    } else if c == '9' {
        Some(9)
    } else {
        None
    }
}

/// What a run of digits adds to the digits read before it: where the run
/// ends, and the number that the digits before and the run spell together,
/// or `None` where that number is above `limit`.
fn read_digits(
    text: &str,
    length: usize,
    from: usize,
    before: Ghost<Seq<char>>,
    value: u128,
    limit: u128,
) -> (r: (usize, Option<u128>))
    requires
        length == text@.len(),
        from <= length,
        all_digits(before@),
        digits_value(before@) == Some(value as nat),
        value <= limit,
        limit <= 0xffff_ffff_ffff_ffff_ffff_ffff,
    ensures
        r.0 == digits_end(text@, from as int),
        match r.1 {
            Some(v) => v <= limit && digits_value(before@ + text@.subrange(from as int, r.0 as int))
                == Some(v as nat),
            None => digits_value(before@ + text@.subrange(from as int, r.0 as int)).unwrap()
                > limit,
        },
{
    let mut i: usize = from;
    let mut acc: Option<u128> = Some(value);
    proof {
        assert(before@ + text@.subrange(from as int, from as int) =~= before@);
    }
    loop
        invariant
            length == text@.len(),
            from <= i <= length,
            limit <= 0xffff_ffff_ffff_ffff_ffff_ffff,
            all_digits(before@),
            digits_end(text@, from as int) == digits_end(text@, i as int),
            all_digits(before@ + text@.subrange(from as int, i as int)),
            match acc {
                Some(v) => v <= limit && digits_value(
                    before@ + text@.subrange(from as int, i as int),
                ) == Some(v as nat),
                None => digits_value(before@ + text@.subrange(from as int, i as int)).unwrap()
                    > limit,
            },
        ensures
            i == digits_end(text@, from as int),
            from <= i <= length,
            match acc {
                Some(v) => v <= limit && digits_value(
                    before@ + text@.subrange(from as int, i as int),
                ) == Some(v as nat),
                None => digits_value(before@ + text@.subrange(from as int, i as int)).unwrap()
                    > limit,
            },
        decreases length - i,
    {
        if i >= length {
            break;
        }
        let digit = match digit_of(text.get_char(i)) {
            Some(d) => d,
            None => {
                break;
            },
        };
        proof {
            let shorter = before@ + text@.subrange(from as int, i as int);
            let longer = before@ + text@.subrange(from as int, i + 1);
            assert(longer.drop_last() =~= shorter);
            assert(longer.last() == text@[i as int]);
            assert forall|j: int| 0 <= j < longer.len() implies digit_value(
                #[trigger] longer[j],
            ).is_some() by {
                if j < shorter.len() {
                    assert(longer[j] == shorter[j]);
                }
            }
            lemma_digits_spell(longer);
        }
        acc = match acc {
            Some(v) => {
                let next = v * 10 + digit as u128;
                if next <= limit {
                    Some(next)
                } else {
                    None
                }
            },
            None => None,
        };
        i = i + 1;
    }
    (i, acc)
}

/// Reads a number from its text. `None` where the text is no number, where
/// its digits are more than `u64` holds, or where the power of ten that
/// places the point is outside `i32`.
pub fn read_number(text: &str) -> (r: Option<Number>)
    ensures
        r == parse_number(text@),
{
    let length = text.unicode_len();
    let negative = length > 0 && text.get_char(0) == '-';
    let int_start: usize = if negative {
        1
    } else {
        0
    };
    let ghost s = text@;
    let ghost none = Seq::<char>::empty();
    proof {
        lemma_digits_end(s, int_start as int);
        assert(none + s.subrange(int_start as int, digits_end(s, int_start as int))
            =~= s.subrange(int_start as int, digits_end(s, int_start as int)));
    }
    let (int_end, whole) = read_digits(
        text,
        length,
        int_start,
        Ghost(none),
        0,
        0xffff_ffff_ffff_ffff,
    );
    let has_fraction = int_end < length && text.get_char(int_end) == '.';
    let frac_start: usize = if has_fraction {
        int_end + 1
    } else {
        int_end
    };
    let ghost int_digits = s.subrange(int_start as int, int_end as int);
    proof {
        lemma_digits_end(s, frac_start as int);
        lemma_digits_spell(int_digits);
        lemma_digits_grow(
            int_digits,
            s.subrange(frac_start as int, digits_end(s, frac_start as int)),
        );
    }
    let (frac_end, mantissa) = match whole {
        Some(v) => read_digits(
            text,
            length,
            frac_start,
            Ghost(int_digits),
            v,
            0xffff_ffff_ffff_ffff,
        ),
        None => {
            return None;
        },
    };
    let has_exponent = frac_end < length && (text.get_char(frac_end) == 'e'
        || text.get_char(frac_end) == 'E');
    let sign_at: usize = if has_exponent {
        frac_end + 1
    } else {
        frac_end
    };
    let exp_negative = has_exponent && sign_at < length && text.get_char(sign_at) == '-';
    let exp_signed = has_exponent && sign_at < length && (text.get_char(sign_at) == '-'
        || text.get_char(sign_at) == '+');
    let exp_start: usize = if exp_signed {
        sign_at + 1
    } else {
        sign_at
    };
    proof {
        lemma_digits_end(s, exp_start as int);
        lemma_digits_spell(s.subrange(exp_start as int, digits_end(s, exp_start as int)));
        assert(none + s.subrange(exp_start as int, digits_end(s, exp_start as int))
            =~= s.subrange(exp_start as int, digits_end(s, exp_start as int)));
    }
    let (exp_end, written) = read_digits(
        text,
        length,
        exp_start,
        Ghost(none),
        0,
        0xffff_ffff_ffff_ffff_ffff,
    );
    let well_formed = int_end > int_start && (!has_fraction || frac_end > frac_start)
        && (!has_exponent || exp_end > exp_start) && exp_end == length;
    if !well_formed {
        return None;
    }
    let mantissa = match mantissa {
        Some(v) => v,
        None => {
            return None;
        },
    };
    let written = match written {
        Some(v) => v,
        None => {
            return None;
        },
    };
    let shift: i128 = (frac_end - frac_start) as i128;
    let exponent: i128 = if exp_negative {
        -(written as i128) - shift
    } else {
        written as i128 - shift
    };
    if -0x8000_0000 <= exponent && exponent <= 0x7fff_ffff {
        Some(Number { negative, mantissa: mantissa as u64, exponent: exponent as i32 })
    } else {
        None
    }
}

} // verus!
