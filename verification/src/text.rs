//! Decimal text: how integers and fixed-point values are written out.

use vstd::prelude::*;
use vstd::string::*;
use vstd::arithmetic::div_mod::{
    lemma_breakdown, lemma_fundamental_div_mod, lemma_mod_bound, lemma_small_mod,
};
use crate::number::{lemma_pow10_adds, lemma_pow10_positive, pow10, power_of_ten};

verus! {

/// The character of one decimal digit.
pub open spec fn digit_char(d: int) -> char {
    if d == 0 {
        '0'
    } else if d == 1 {
        '1'
    } else if d == 2 {
        '2'
    } else if d == 3 {
        '3'
    } else if d == 4 {
        '4'
    } else if d == 5 {
        '5'
    } else if d == 6 {
        '6'
    } else if d == 7 {
        '7'
    } else if d == 8 {
        '8'
    } else {
        '9'
    }
}

/// The plain decimal numeral of a natural number, without leading zeros.
pub open spec fn nat_text(n: nat) -> Seq<char>
    decreases n,
{
    if n < 10 {
        seq![digit_char(n as int)]
    } else {
        nat_text(n / 10).push(digit_char((n % 10) as int))
    }
}

/// The plain decimal numeral of an integer: a minus sign for negatives, then the magnitude.
pub open spec fn int_text(k: int) -> Seq<char> {
    if k < 0 {
        seq!['-'] + nat_text((-k) as nat)
    } else {
        nat_text(k as nat)
    }
}

/// The one-character text of a decimal digit.
pub fn digit_str(d: u8) -> (r: &'static str)
    requires
        d < 10,
    ensures
        r@ == seq![digit_char(d as int)],
{
    proof {
        reveal_strlit("0");
        reveal_strlit("1");
        reveal_strlit("2");
        reveal_strlit("3");
        reveal_strlit("4");
        reveal_strlit("5");
        reveal_strlit("6");
        reveal_strlit("7");
        reveal_strlit("8");
        reveal_strlit("9");
    }
    let r = if d == 0 {
        "0"
    } else if d == 1 {
        "1"
    } else if d == 2 {
        "2"
    } else if d == 3 {
        "3"
    } else if d == 4 {
        "4"
    } else if d == 5 {
        "5"
    } else if d == 6 {
        "6"
    } else if d == 7 {
        "7"
    } else if d == 8 {
        "8"
    } else {
        "9"
    };
    assert(r@ =~= seq![digit_char(d as int)]);
    r
}

/// Writes a natural number as a plain decimal numeral.
pub fn render_nat(n: u128) -> (r: String)
    ensures
        r@ == nat_text(n as nat),
    decreases n,
{
    if n < 10 {
        String::from_str(digit_str(n as u8))
    } else {
        let mut s = render_nat(n / 10);
        let d: u8 = (n % 10) as u8;
        s.append(digit_str(d));
        assert(s@ =~= nat_text((n / 10) as nat).push(digit_char((n % 10) as int)));
        s
    }
}

/// Writes an integer as a plain decimal numeral.
pub fn render_int(k: i64) -> (r: String)
    ensures
        r@ == int_text(k as int),
{
    if k < 0 {
        let magnitude: u128 = (-(k as i128)) as u128;
        let digits = render_nat(magnitude);
        let mut s = String::from_str("-");
        proof {
            reveal_strlit("-");
        }
        s.append(digits.as_str());
        assert(s@ =~= seq!['-'] + nat_text((-k) as nat));
        s
    } else {
        render_nat(k as u128)
    }
}

/// The last `width` decimal digits of `n`, with leading zeros where `n` is short.
pub open spec fn padded_text(n: nat, width: nat) -> Seq<char>
    decreases width,
{
    if width == 0 {
        Seq::empty()
    } else {
        padded_text(n / 10, (width - 1) as nat).push(digit_char((n % 10) as int))
    }
}

/// `count` zeros.
pub open spec fn zeros(count: nat) -> Seq<char> {
    Seq::new(count, |i: int| '0')
}

/// The numeral of `k / 10^precision` with `decimals` digits behind the point:
/// the first `precision` of them from `k`, the rest zeros. With no digits
/// behind the point there is no point either.
pub open spec fn fixed_text(k: int, precision: nat, decimals: nat) -> Seq<char> {
    let magnitude = (if k < 0 {
        -k
    } else {
        k
    }) as nat;
    let whole = nat_text(magnitude / pow10(precision));
    let signed = if k < 0 {
        seq!['-'] + whole
    } else {
        whole
    };
    if decimals == 0 {
        signed
    } else {
        signed + seq!['.'] + padded_text(magnitude % pow10(precision), precision) + zeros(
            (decimals - precision) as nat,
        )
    }
}

/// Writes the last `width` decimal digits of `n`, with leading zeros.
pub fn render_padded(n: u128, width: u32) -> (r: String)
    ensures
        r@ == padded_text(n as nat, width as nat),
    decreases width,
{
    if width == 0 {
        let s = String::new();
        assert(s@ =~= padded_text(n as nat, 0));
        s
    } else {
        let mut s = render_padded(n / 10, width - 1);
        let d: u8 = (n % 10) as u8;
        s.append(digit_str(d));
        assert(s@ =~= padded_text((n / 10) as nat, (width - 1) as nat).push(
            digit_char((n % 10) as int),
        ));
        s
    }
}

/// Appends `count` zeros to `s`.
pub fn append_zeros(s: &mut String, count: u64)
    ensures
        final(s)@ == old(s)@ + zeros(count as nat),
{
    let mut i: u64 = 0;
    assert(s@ =~= old(s)@ + zeros(0));
    while i < count
        invariant
            i <= count,
            s@ == old(s)@ + zeros(i as nat),
        decreases count - i,
    {
        proof {
            reveal_strlit("0");
        }
        s.append("0");
        i = i + 1;
        assert(s@ =~= old(s)@ + zeros(i as nat));
    }
}

/// Writes `k / 10^precision` with `decimals` digits behind the point.
pub fn render_fixed(k: i128, precision: u32, decimals: u64) -> (r: String)
    requires
        precision <= 18,
        precision <= decimals,
    ensures
        r@ == fixed_text(k as int, precision as nat, decimals as nat),
{
    let magnitude: u128 = if k == i128::MIN {
        0x8000_0000_0000_0000_0000_0000_0000_0000
    } else if k < 0 {
        (-k) as u128
    } else {
        k as u128
    };
    let unit = power_of_ten(precision);
    proof {
        lemma_pow10_positive(precision as nat);
        reveal_strlit("-");
        reveal_strlit(".");
    }
    let whole = render_nat(magnitude / unit);
    let mut s = if k < 0 {
        String::from_str("-")
    } else {
        String::new()
    };
    s.append(whole.as_str());
    let ghost signed = s@;
    assert(signed =~= if k < 0 {
        seq!['-'] + nat_text((magnitude / unit) as nat)
    } else {
        nat_text((magnitude / unit) as nat)
    });
    if decimals > 0 {
        s.append(".");
        let fraction = render_padded(magnitude % unit, precision);
        s.append(fraction.as_str());
        append_zeros(&mut s, decimals - precision as u64);
        assert(s@ =~= signed + seq!['.'] + padded_text(
            (magnitude % unit) as nat,
            precision as nat,
        ) + zeros((decimals - precision) as nat));
    }
    s
}

/// The digit that a character is, if it is one.
pub open spec fn digit_value(c: char) -> Option<nat> {
    if c == '0' {
        Some(0)
    } else if c == '1' {
        Some(1)
    } else if c == '2' {
        Some(2)
    } else if c == '3' {
        Some(3)
    } else if c == '4' {
        Some(4)
    } else if c == '5' {
        Some(5)
    } else if c == '6' {
        Some(6)
    } else if c == '7' {
        Some(7)
    } else if c == '8' {
        Some(8)
    } else if c == '9' {
        Some(9)
    } else {
        None
    }
}

/// The number that a run of decimal digits spells, leading zeros allowed;
/// the empty run spells zero. `None` where a character is no digit.
pub open spec fn digits_value(s: Seq<char>) -> Option<nat>
    decreases s.len(),
{
    if s.len() == 0 {
        Some(0)
    } else {
        match (digits_value(s.drop_last()), digit_value(s.last())) {
            (Some(v), Some(d)) => Some(v * 10 + d),
            _ => None,
        }
    }
}

/// The number that a numeral spells: one digit at least, and digits only.
pub open spec fn numeral_value(s: Seq<char>) -> Option<nat> {
    if s.len() == 0 {
        None
    } else {
        digits_value(s)
    }
}

/// The number that a numeral with an optional minus sign spells, with
/// `scale` applied to the magnitude and `extra` added to it before the sign.
pub open spec fn signed_value(s: Seq<char>, scale: nat, extra: nat) -> Option<int> {
    if s.len() > 0 && s[0] == '-' {
        match numeral_value(s.skip(1)) {
            Some(v) => Some(-((v * scale + extra) as int)),
            None => None,
        }
    } else {
        match numeral_value(s) {
            Some(v) => Some((v * scale + extra) as int),
            None => None,
        }
    }
}

/// The whole number that a text spells: an optional minus sign, then digits.
pub open spec fn parse_int(s: Seq<char>) -> Option<int> {
    signed_value(s, 1, 0)
}

/// The whole number `k` for which a text spells `k / 10^decimals`: an
/// optional minus sign, digits, a point, and exactly `decimals` digits.
pub open spec fn parse_fixed(s: Seq<char>, decimals: nat) -> Option<int> {
    let point = s.len() - decimals - 1;
    if decimals == 0 || point < 0 || s[point] != '.' {
        None
    } else {
        match digits_value(s.skip(point + 1)) {
            Some(fraction) => signed_value(s.take(point), pow10(decimals), fraction),
            None => None,
        }
    }
}

/// Every digit reads back as itself.
pub proof fn lemma_digit_value(d: int)
    requires
        0 <= d < 10,
    ensures
        digit_value(digit_char(d)) == Some(d as nat),
        digit_char(d) != '-',
        digit_char(d) != '.',
{
}

/// A numeral reads back as the number that it was written for.
pub proof fn lemma_nat_text_value(n: nat)
    ensures
        nat_text(n).len() > 0,
        numeral_value(nat_text(n)) == Some(n),
        nat_text(n)[0] != '-',
    decreases n,
{
    if n < 10 {
        lemma_digit_value(n as int);
        let s = nat_text(n);
        assert(s.drop_last() =~= Seq::<char>::empty());
        assert(digits_value(s.drop_last()) == Some(0nat));
        assert(s.last() == digit_char(n as int));
    } else {
        lemma_nat_text_value(n / 10);
        lemma_digit_value((n % 10) as int);
        let s = nat_text(n);
        assert(s.drop_last() =~= nat_text(n / 10));
        assert(s.last() == digit_char((n % 10) as int));
        assert(s[0] == nat_text(n / 10)[0]);
    }
}

/// A whole number reads back from its text.
pub proof fn lemma_int_text_parses(k: int)
    ensures
        parse_int(int_text(k)) == Some(k),
{
    if k < 0 {
        lemma_nat_text_value((-k) as nat);
        assert(int_text(k).skip(1) =~= nat_text((-k) as nat));
        assert(int_text(k)[0] == '-');
    } else {
        lemma_nat_text_value(k as nat);
    }
}

/// Padded digits read back as the number below `10^width` that they hold.
pub proof fn lemma_padded_text_value(n: nat, width: nat)
    ensures
        padded_text(n, width).len() == width,
        digits_value(padded_text(n, width)) == Some(n % pow10(width)),
    decreases width,
{
    if width == 0 {
        assert(pow10(0) == 1);
    } else {
        let w1 = (width - 1) as nat;
        lemma_padded_text_value(n / 10, w1);
        lemma_digit_value((n % 10) as int);
        let s = padded_text(n, width);
        assert(s.drop_last() =~= padded_text(n / 10, w1));
        assert(s.last() == digit_char((n % 10) as int));
        lemma_pow10_positive(w1);
        lemma_breakdown(n as int, 10, pow10(w1) as int);
        assert(pow10(width) == 10 * pow10(w1));
    }
}

/// Zeros behind a run of digits multiply what it spells by a power of ten.
pub proof fn lemma_zeros_value(s: Seq<char>, count: nat)
    requires
        digits_value(s).is_some(),
    ensures
        digits_value(s + zeros(count)) == Some(digits_value(s).unwrap() * pow10(count)),
    decreases count,
{
    if count == 0 {
        assert(s + zeros(0) =~= s);
        assert(pow10(0) == 1);
        assert(digits_value(s).unwrap() * 1 == digits_value(s).unwrap());
    } else {
        let c1 = (count - 1) as nat;
        lemma_zeros_value(s, c1);
        let t = s + zeros(count);
        assert(t.drop_last() =~= s + zeros(c1));
        assert(t.last() == '0');
        let v = digits_value(s).unwrap();
        assert((v * pow10(c1)) * 10 + 0 == v * (10 * pow10(c1))) by (nonlinear_arith);
    }
}

/// With no digits behind the point, a fixed-point text is the plain numeral.
pub proof fn lemma_fixed_text_whole(k: int)
    ensures
        fixed_text(k, 0, 0) == int_text(k),
{
    assert(pow10(0) == 1);
}

/// A fixed-point text reads back as the whole number that it was written
/// for, scaled to the digits that it shows.
pub proof fn lemma_fixed_text_parses(k: int, precision: nat, decimals: nat)
    requires
        precision <= decimals,
        decimals > 0,
    ensures
        parse_fixed(fixed_text(k, precision, decimals), decimals) == Some(
            k * pow10((decimals - precision) as nat),
        ),
{
    let magnitude = (if k < 0 {
        -k
    } else {
        k
    }) as nat;
    let unit = pow10(precision);
    let rest = (decimals - precision) as nat;
    lemma_pow10_positive(precision);
    let whole = nat_text(magnitude / unit);
    let signed = if k < 0 {
        seq!['-'] + whole
    } else {
        whole
    };
    let padded = padded_text(magnitude % unit, precision);
    let text = fixed_text(k, precision, decimals);
    assert(text == signed + seq!['.'] + padded + zeros(rest));
    lemma_padded_text_value(magnitude % unit, precision);
    lemma_zeros_value(padded, rest);
    lemma_nat_text_value(magnitude / unit);
    let point = text.len() - decimals - 1;
    assert(point == signed.len());
    assert(text[point] == '.');
    assert(text.skip(point + 1) =~= padded + zeros(rest));
    assert(text.take(point) =~= signed);
    lemma_mod_bound(magnitude as int, unit as int);
    lemma_small_mod(magnitude % unit, unit);
    let fraction = (magnitude % unit) * pow10(rest);
    assert(digits_value(text.skip(point + 1)) == Some(fraction));
    if k < 0 {
        assert(signed.skip(1) =~= whole);
        assert(signed[0] == '-');
    }
    lemma_fundamental_div_mod(magnitude as int, unit as int);
    lemma_pow10_adds(precision, rest);
    let q = (magnitude / unit) as int;
    let r = (magnitude % unit) as int;
    let u = unit as int;
    let pr = pow10(rest) as int;
    let pd = pow10(decimals) as int;
    assert(q * pd + r * pr == (u * q + r) * pr) by (nonlinear_arith)
        requires
            pd == u * pr,
    ;
    assert((-(magnitude as int)) * pow10(rest) == -((magnitude * pow10(rest)) as int))
        by (nonlinear_arith);
}

/// The numeral of `k * 10^step` with `decimals` digits behind the point. For
/// a step below one, `k` holds the digits behind the point that the step
/// reaches; for a step above one, the numeral of `k` is followed by as many
/// zeros as the step has, unless `k` is zero.
pub open spec fn stepped_text(k: int, step: int, decimals: nat) -> Seq<char> {
    if step <= 0 {
        fixed_text(k, (-step) as nat, decimals)
    } else {
        let magnitude = (if k < 0 {
            -k
        } else {
            k
        }) as nat;
        let whole = if magnitude == 0 {
            nat_text(0)
        } else {
            nat_text(magnitude) + zeros(step as nat)
        };
        let signed = if k < 0 {
            seq!['-'] + whole
        } else {
            whole
        };
        if decimals == 0 {
            signed
        } else {
            signed + seq!['.'] + zeros(decimals)
        }
    }
}

/// Writes `k * 10^step` with `decimals` digits behind the point.
pub fn render_stepped(k: i128, step: i32, decimals: u64) -> (r: String)
    requires
        -18 <= step,
        -step <= decimals,
    ensures
        r@ == stepped_text(k as int, step as int, decimals as nat),
{
    if step <= 0 {
        return render_fixed(k, (-step) as u32, decimals);
    }
    let magnitude: u128 = if k == i128::MIN {
        0x8000_0000_0000_0000_0000_0000_0000_0000
    } else if k < 0 {
        (-k) as u128
    } else {
        k as u128
    };
    proof {
        reveal_strlit("-");
        reveal_strlit(".");
    }
    let mut s = if k < 0 {
        String::from_str("-")
    } else {
        String::new()
    };
    let digits = render_nat(magnitude);
    s.append(digits.as_str());
    if magnitude != 0 {
        append_zeros(&mut s, step as u64);
    }
    let ghost whole = if magnitude == 0 {
        nat_text(0)
    } else {
        nat_text(magnitude as nat) + zeros(step as nat)
    };
    let ghost signed = s@;
    assert(signed =~= if k < 0 {
        seq!['-'] + whole
    } else {
        whole
    });
    if decimals > 0 {
        s.append(".");
        append_zeros(&mut s, decimals);
        assert(s@ =~= signed + seq!['.'] + zeros(decimals as nat));
    }
    s
}

/// A stepped text reads back as the number that it was written for: with
/// digits behind the point as that number scaled to those digits, without
/// them as the number itself.
pub proof fn lemma_stepped_text_parses(k: int, step: int, decimals: nat)
    requires
        -step <= decimals,
    ensures
        decimals > 0 ==> parse_fixed(stepped_text(k, step, decimals), decimals) == Some(
            k * pow10((decimals + step) as nat),
        ),
        decimals == 0 ==> parse_int(stepped_text(k, step, decimals)) == Some(
            k * pow10(step as nat),
        ),
{
    if step <= 0 {
        if decimals == 0 {
            lemma_fixed_text_whole(k);
            lemma_int_text_parses(k);
            assert(pow10(0) == 1);
            assert(k * 1 == k);
        } else {
            lemma_fixed_text_parses(k, (-step) as nat, decimals);
        }
    } else {
        let magnitude = (if k < 0 {
            -k
        } else {
            k
        }) as nat;
        let shift = step as nat;
        let whole = if magnitude == 0 {
            nat_text(0)
        } else {
            nat_text(magnitude) + zeros(shift)
        };
        let signed = if k < 0 {
            seq!['-'] + whole
        } else {
            whole
        };
        let text = stepped_text(k, step, decimals);
        let value = magnitude * pow10(shift);
        lemma_nat_text_value(magnitude);
        lemma_nat_text_value(0);
        if magnitude == 0 {
            assert(0 * pow10(shift) == 0) by (nonlinear_arith);
        } else {
            lemma_zeros_value(nat_text(magnitude), shift);
            assert(whole[0] == nat_text(magnitude)[0]);
        }
        assert(numeral_value(whole) == Some(value));
        assert(whole[0] != '-');
        if k < 0 {
            assert(signed.skip(1) =~= whole);
            assert(signed[0] == '-');
        }
        assert((-(magnitude as int)) * pow10(shift) == -((magnitude * pow10(shift)) as int))
            by (nonlinear_arith);
        if decimals == 0 {
            assert(value * 1 + 0 == value);
        } else {
            let point = text.len() - decimals - 1;
            assert(text == signed + seq!['.'] + zeros(decimals));
            assert(point == signed.len());
            assert(text[point] == '.');
            assert(text.skip(point + 1) =~= zeros(decimals));
            assert(text.take(point) =~= signed);
            lemma_zeros_value(Seq::<char>::empty(), decimals);
            assert(Seq::<char>::empty() + zeros(decimals) =~= zeros(decimals));
            assert(0 * pow10(decimals) == 0) by (nonlinear_arith);
            lemma_pow10_adds(shift, decimals);
            assert((magnitude * pow10(shift)) * pow10(decimals) == magnitude * (pow10(shift)
                * pow10(decimals))) by (nonlinear_arith);
            assert((-(magnitude as int)) * pow10(shift + decimals) == -((magnitude * pow10(
                shift + decimals,
            )) as int)) by (nonlinear_arith);
        }
    }
}

} // verus!
