//! Random draws. Each function here makes one call into `rand`, `uuid` or
//! `fake`; its contract is what the rest of the crate takes on trust.

use vstd::prelude::*;
use fake::Fake;
use rand::Rng;
use crate::text::digit_char;

verus! {

/// Sixteen to the power `e`.
pub open spec fn pow16(e: nat) -> nat
    decreases e,
{
    if e == 0 {
        1
    } else {
        16 * pow16((e - 1) as nat)
    }
}

/// The hexadecimal digit at `index` of a 128-bit value written with 32 digits,
/// the most significant digit at index 0.
pub open spec fn nibble(bits: u128, index: int) -> int {
    (bits as int / pow16((31 - index) as nat) as int) % 16
}

/// The character of one hexadecimal digit, in lower case.
pub open spec fn hex_char(d: int) -> char {
    if d < 10 {
        digit_char(d)
    } else if d == 10 {
        'a'
    } else if d == 11 {
        'b'
    } else if d == 12 {
        'c'
    } else if d == 13 {
        'd'
    } else if d == 14 {
        'e'
    } else {
        'f'
    }
}

/// The digit that stands at `position` of the hyphenated form, for a
/// position that holds no hyphen.
pub open spec fn digit_index(position: int) -> int {
    if position < 8 {
        position
    } else if position < 13 {
        position - 1
    } else if position < 18 {
        position - 2
    } else if position < 23 {
        position - 3
    } else {
        position - 4
    }
}

/// Whether `position` of the hyphenated form holds a hyphen.
pub open spec fn is_hyphen_position(position: int) -> bool {
    position == 8 || position == 13 || position == 18 || position == 23
}

/// The hyphenated form of a 128-bit identifier: its 32 hexadecimal digits in
/// lower case, in groups of 8, 4, 4, 4 and 12 with hyphens between them.
pub open spec fn hyphenated_text(bits: u128) -> Seq<char> {
    Seq::new(
        36,
        |i: int|
            if is_hyphen_position(i) {
                '-'
            } else {
                hex_char(nibble(bits, digit_index(i)))
            },
    )
}

/// Whether `text` is one of the English titles.
pub open spec fn is_title(text: Seq<char>) -> bool {
    text == "Mr."@ || text == "Mrs."@ || text == "Ms."@ || text == "Miss"@ || text == "Dr."@
}

/// Whether `text` is one of the English name suffixes.
pub open spec fn is_suffix(text: Seq<char>) -> bool {
    text == "Jr."@ || text == "Sr."@ || text == "I"@ || text == "II"@ || text == "III"@
        || text == "IV"@ || text == "V"@ || text == "MD"@ || text == "DDS"@ || text == "PhD"@
        || text == "DVM"@
}

/// Whether `text` is two parts with a space between them, neither part empty.
pub open spec fn is_two_parts(text: Seq<char>) -> bool {
    exists|i: int| 0 < i < text.len() - 1 && #[trigger] text[i] == ' '
}

/// Whether `text` is a title, a space, and two parts with a space between them.
pub open spec fn is_titled(text: Seq<char>) -> bool {
    exists|i: int|
        0 < i < text.len() && is_title(#[trigger] text.take(i)) && text[i] == ' ' && is_two_parts(
            text.skip(i + 1),
        )
}

/// `rand::Rng::gen_range` over `low..=high`, on the generator that
/// `rand::thread_rng` hands out. The call panics on an empty range, so the
/// bounds must be in order; what comes back lies between them, both included.
/// Which value it is depends on chance, and nothing more is claimed.
#[verifier::external_body]
pub(crate) fn uniform_between(low: i128, high: i128) -> (r: i128)
    requires
        low <= high,
    ensures
        low <= r <= high,
{
    rand::thread_rng().gen_range(low..=high)
}

/// `uuid::Uuid::new_v4`, read as a 128-bit value. The bits are random but for
/// six: the version digit is 4, and the two highest bits of the variant digit
/// are one and zero, which leaves that digit between 8 and 11.
#[verifier::external_body]
pub(crate) fn random_uuid_bits() -> (r: u128)
    ensures
        nibble(r, 12) == 4,
        8 <= nibble(r, 16) <= 11,
{
    uuid::Uuid::new_v4().as_u128()
}

/// The text that `uuid::Uuid` displays as: the hyphenated form in lower case.
#[verifier::external_body]
pub(crate) fn uuid_text(bits: u128) -> (r: String)
    ensures
        r@ == hyphenated_text(bits),
{
    uuid::Uuid::from_u128(bits).to_string()
}

/// `fake::faker::name::en::FirstName`: an entry of the corpus of English first
/// names, picked at random. No entry of the corpus is empty.
#[verifier::external_body]
pub(crate) fn fake_first_name() -> (r: String)
    ensures
        r@.len() > 0,
{
    fake::faker::name::en::FirstName().fake::<String>()
}

/// `fake::faker::name::en::LastName`: an entry of the corpus of English last
/// names, picked at random. No entry of the corpus is empty.
#[verifier::external_body]
pub(crate) fn fake_last_name() -> (r: String)
    ensures
        r@.len() > 0,
{
    fake::faker::name::en::LastName().fake::<String>()
}

/// `fake::faker::name::en::Title`: one of the five English titles, picked at
/// random.
#[verifier::external_body]
pub(crate) fn fake_title() -> (r: String)
    ensures
        r@.len() > 0,
        is_title(r@),
{
    fake::faker::name::en::Title().fake::<String>()
}

/// `fake::faker::name::en::Suffix`: one of the eleven English name suffixes,
/// picked at random.
#[verifier::external_body]
pub(crate) fn fake_suffix() -> (r: String)
    ensures
        r@.len() > 0,
        is_suffix(r@),
{
    fake::faker::name::en::Suffix().fake::<String>()
}

/// `fake::faker::name::en::Name`: a first name, a space and a last name, each
/// name an entry of its corpus and so not empty.
#[verifier::external_body]
pub(crate) fn fake_name() -> (r: String)
    ensures
        r@.len() > 0,
        is_two_parts(r@),
{
    fake::faker::name::en::Name().fake::<String>()
}

/// `fake::faker::name::en::NameWithTitle`: one of the five titles, a space, a
/// first name, a space and a last name, each name an entry of its corpus and
/// so not empty.
#[verifier::external_body]
pub(crate) fn fake_name_with_title() -> (r: String)
    ensures
        r@.len() > 0,
        is_titled(r@),
{
    fake::faker::name::en::NameWithTitle().fake::<String>()
}

} // verus!
