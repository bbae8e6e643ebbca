//! The generators: each draws a value under a settled plan and writes it out.

use vstd::prelude::*;
use crate::plan::{FieldPlan, THRESHOLD_SCALE};
use vstd::arithmetic::div_mod::{
    lemma_basic_div, lemma_div_denominator, lemma_fundamental_div_mod,
};
use crate::random::{
    digit_index, fake_first_name, fake_last_name, fake_name, fake_name_with_title, fake_suffix,
    fake_title, hex_char, hyphenated_text, is_hyphen_position, is_suffix, is_title, is_titled,
    is_two_parts, nibble, pow16, random_uuid_bits, uniform_between, uuid_text,
};
use crate::registry::NameKind;
use crate::text::{int_text, render_int, render_stepped, stepped_text};

verus! {

/// The text of a truth value.
pub open spec fn bool_text(value: bool) -> Seq<char> {
    if value {
        "true"@
    } else {
        "false"@
    }
}

/// Whether `c` is a hexadecimal digit in lower case.
pub open spec fn is_lower_hex(c: char) -> bool {
    exists|d: int| 0 <= d < 16 && c == #[trigger] hex_char(d)
}

/// Whether `text` is the canonical form of a random (version 4) identifier:
/// 36 characters, hyphens after the groups of 8, 4, 4 and 4 digits, digits in
/// lower case, the version digit 4 and the variant digit one of 8, 9, a, b.
pub open spec fn is_canonical_v4(text: Seq<char>) -> bool {
    &&& text.len() == 36
    &&& forall|i: int|
        0 <= i < 36 ==> if is_hyphen_position(i) {
            #[trigger] text[i] == '-'
        } else {
            is_lower_hex(text[i])
        }
    &&& text[14] == '4'
    &&& (text[19] == '8' || text[19] == '9' || text[19] == 'a' || text[19] == 'b')
}

/// Whether `text` has the form of a name of `kind`: never empty; a title or
/// a suffix one of the few that exist; a whole name a first and a last name
/// with a space between them, behind a title and a space where it has one.
pub open spec fn name_form(kind: NameKind, text: Seq<char>) -> bool {
    text.len() > 0 && match kind {
        NameKind::Title => is_title(text),
        NameKind::Suffix => is_suffix(text),
        NameKind::Name => is_two_parts(text),
        NameKind::NameWithTitle => is_titled(text),
        NameKind::FirstName | NameKind::LastName => true,
    }
}

/// Whether `text` can come out of a draw under `plan`.
pub open spec fn admits(plan: FieldPlan, text: Seq<char>) -> bool {
    match plan {
        FieldPlan::Name(kind) => name_form(kind, text),
        FieldPlan::Integer { min, max } => exists|k: int|
            min <= k <= max && text == #[trigger] int_text(k),
        FieldPlan::Fixed { low, high, step, decimals } => exists|k: int|
            low <= k <= high && text == #[trigger] stepped_text(k, step as int, decimals as nat),
        FieldPlan::Boolean { threshold } => {
            &&& text == bool_text(true) || text == bool_text(false)
            &&& threshold == THRESHOLD_SCALE ==> text == bool_text(true)
            &&& threshold == 0 ==> text == bool_text(false)
        },
        FieldPlan::Uuid => is_canonical_v4(text),
    }
}

/// An identifier with the version digit 4 and a variant digit from 8 to 11
/// has a canonical hyphenated form.
pub proof fn lemma_v4_text(bits: u128)
    requires
        nibble(bits, 12) == 4,
        8 <= nibble(bits, 16) <= 11,
    ensures
        is_canonical_v4(hyphenated_text(bits)),
{
    let text = hyphenated_text(bits);
    assert forall|i: int| 0 <= i < 36 implies if is_hyphen_position(i) {
        #[trigger] text[i] == '-'
    } else {
        is_lower_hex(text[i])
    } by {
        if !is_hyphen_position(i) {
            let d = nibble(bits, digit_index(i));
            assert(0 <= d < 16);
            assert(text[i] == hex_char(d));
        }
    }
    assert(text[14] == hex_char(nibble(bits, 12)));
    assert(text[19] == hex_char(nibble(bits, 16)));
}

/// The power of sixteen that 128 bits stay below.
pub proof fn lemma_pow16_32()
    ensures
        pow16(32) == 0x1_0000_0000_0000_0000_0000_0000_0000_0000,
{
    reveal_with_fuel(pow16, 9);
    assert(pow16(8) == 0x1_0000_0000);
    assert(pow16(16) == 0x1_0000_0000_0000_0000);
    assert(pow16(24) == 0x1_0000_0000_0000_0000_0000_0000);
    assert(pow16(32) == 0x1_0000_0000_0000_0000_0000_0000_0000_0000);
}

/// Every power of sixteen is positive.
pub proof fn lemma_pow16_positive(e: nat)
    ensures
        pow16(e) > 0,
    decreases e,
{
    if e > 0 {
        lemma_pow16_positive((e - 1) as nat);
    }
}

/// Two values with the same first `count` hexadecimal digits are the same
/// above the digits that follow.
pub proof fn lemma_same_leading_digits(a: u128, b: u128, count: nat)
    requires
        count <= 32,
        forall|i: int| 0 <= i < count ==> nibble(a, i) == nibble(b, i),
    ensures
        a as int / pow16((32 - count) as nat) as int == b as int / pow16(
            (32 - count) as nat,
        ) as int,
    decreases count,
{
    if count == 0 {
        lemma_pow16_32();
        lemma_basic_div(a as int, pow16(32) as int);
        lemma_basic_div(b as int, pow16(32) as int);
    } else {
        lemma_same_leading_digits(a, b, (count - 1) as nat);
        let k = (32 - count) as nat;
        let unit = pow16(k) as int;
        lemma_pow16_positive(k);
        assert(pow16(k + 1) == 16 * pow16(k));
        assert(nibble(a, count - 1) == nibble(b, count - 1));
        assert((31 - (count - 1)) as nat == k);
        lemma_div_denominator(a as int, unit, 16);
        lemma_div_denominator(b as int, unit, 16);
        assert(unit * 16 == pow16(k + 1) as int) by (nonlinear_arith)
            requires
                pow16(k + 1) == 16 * pow16(k),
                unit == pow16(k) as int,
        ;
        lemma_fundamental_div_mod(a as int / unit, 16);
        lemma_fundamental_div_mod(b as int / unit, 16);
    }
}

/// Identifiers that differ in a bit differ in their text: the text of an
/// identifier holds all of its bits and nothing else.
pub proof fn lemma_distinct_bits_distinct_text(a: u128, b: u128)
    requires
        a != b,
    ensures
        hyphenated_text(a) != hyphenated_text(b),
{
    if hyphenated_text(a) == hyphenated_text(b) {
        assert forall|i: int| 0 <= i < 32 implies nibble(a, i) == nibble(b, i) by {
            let position = if i < 8 {
                i
            } else if i < 12 {
                i + 1
            } else if i < 16 {
                i + 2
            } else if i < 20 {
                i + 3
            } else {
                i + 4
            };
            assert(!is_hyphen_position(position));
            assert(digit_index(position) == i);
            assert(hyphenated_text(a)[position] == hex_char(nibble(a, i)));
            assert(hyphenated_text(b)[position] == hex_char(nibble(b, i)));
            assert(0 <= nibble(a, i) < 16);
            assert(0 <= nibble(b, i) < 16);
        }
        lemma_same_leading_digits(a, b, 32);
        assert(pow16(0) == 1);
        assert((32 - 32) as nat == 0);
        assert(a as int / 1 == a as int);
        assert(b as int / 1 == b as int);
        assert(a as int == b as int);
    }
}

/// Writes a 128-bit identifier in its hyphenated form. The text depends on
/// the bits alone.
pub fn render_uuid(bits: u128) -> (r: String)
    ensures
        r@ == hyphenated_text(bits),
{
    uuid_text(bits)
}

/// Writes a truth value as `true` or `false`.
pub fn render_boolean(value: bool) -> (r: String)
    ensures
        r@ == bool_text(value),
{
    if value {
        String::from_str("true")
    } else {
        String::from_str("false")
    }
}

/// The text for a draw out of `10^18` under a threshold: `true` for a draw
/// below the threshold.
pub fn render_boolean_draw(draw: u64, threshold: u64) -> (r: String)
    ensures
        r@ == bool_text(draw < threshold),
{
    render_boolean(draw < threshold)
}

/// Draws a name from the corpus of `kind`.
pub fn generate_name(kind: NameKind) -> (r: String)
    ensures
        name_form(kind, r@),
{
    match kind {
        NameKind::FirstName => fake_first_name(),
        NameKind::LastName => fake_last_name(),
        NameKind::Title => fake_title(),
        NameKind::Suffix => fake_suffix(),
        NameKind::Name => fake_name(),
        NameKind::NameWithTitle => fake_name_with_title(),
    }
}

/// Draws a whole number between `min` and `max`, both included, and writes it
/// as a plain numeral.
pub fn generate_integer(min: i64, max: i64) -> (r: String)
    requires
        min <= max,
    ensures
        exists|k: int| min <= k <= max && r@ == #[trigger] int_text(k),
{
    let k = uniform_between(min as i128, max as i128);
    render_int(k as i64)
}

/// Draws a whole number `k` between `low` and `high`, both included, and
/// writes `k * 10^step` with `decimals` digits behind the point.
pub fn generate_fixed(low: i128, high: i128, step: i32, decimals: u64) -> (r: String)
    requires
        low <= high,
        -18 <= step,
        -step <= decimals,
    ensures
        exists|k: int|
            low <= k <= high && r@ == #[trigger] stepped_text(k, step as int, decimals as nat),
{
    let k = uniform_between(low, high);
    render_stepped(k, step, decimals)
}

/// Draws one of `10^18` equally likely values and writes `true` where it
/// lies below `threshold`, else `false`.
pub fn generate_boolean(threshold: u64) -> (r: String)
    requires
        threshold <= THRESHOLD_SCALE,
    ensures
        r@ == bool_text(true) || r@ == bool_text(false),
        threshold == THRESHOLD_SCALE ==> r@ == bool_text(true),
        threshold == 0 ==> r@ == bool_text(false),
{
    let draw = uniform_between(0, THRESHOLD_SCALE as i128 - 1);
    render_boolean_draw(draw as u64, threshold)
}

/// Draws a random identifier and writes its canonical form.
pub fn generate_uuid() -> (r: String)
    ensures
        is_canonical_v4(r@),
{
    let bits = random_uuid_bits();
    proof {
        lemma_v4_text(bits);
    }
    render_uuid(bits)
}

/// Draws a value under `plan` and writes it out.
pub fn generate(plan: &FieldPlan) -> (r: String)
    requires
        plan.valid(),
    ensures
        admits(*plan, r@),
{
    match plan {
        FieldPlan::Name(kind) => generate_name(*kind),
        FieldPlan::Integer { min, max } => generate_integer(*min, *max),
        FieldPlan::Fixed { low, high, step, decimals } => generate_fixed(
            *low,
            *high,
            *step,
            *decimals,
        ),
        FieldPlan::Boolean { threshold } => generate_boolean(*threshold),
        FieldPlan::Uuid => generate_uuid(),
    }
}

} // verus!
