//! The generators that exist: a closed table from a family and a subtype to
//! the generator that they select.

use vstd::prelude::*;
use crate::json::same_text;

verus! {

/// The name corpora that the `name` family draws from.
#[derive(Clone, Copy, Debug, PartialEq, Eq, Structural)]
pub enum NameKind {
    FirstName,
    LastName,
    Title,
    Suffix,
    Name,
    NameWithTitle,
}

/// A generator of the table.
#[derive(Clone, Copy, Debug, PartialEq, Eq, Structural)]
pub enum Generator {
    Name(NameKind),
    Number,
    Boolean,
    Uuid,
}

/// Why a lookup finds no generator.
#[derive(Clone, Copy, Debug, PartialEq, Eq, Structural)]
pub enum RegistryMiss {
    /// No family of that name exists.
    UnknownFamily,
    /// The family exists and has no such subtype.
    UnknownSubtype,
}

/// The subtype that the `name` family takes where none is given.
pub open spec fn default_name_subtype() -> Seq<char> {
    "name"@
}

/// The corpus that a subtype of the `name` family selects.
pub open spec fn name_kind_of(subtype: Seq<char>) -> Option<NameKind> {
    if subtype == "first_name"@ {
        Some(NameKind::FirstName)
    } else if subtype == "last_name"@ {
        Some(NameKind::LastName)
    } else if subtype == "title"@ {
        Some(NameKind::Title)
    } else if subtype == "suffix"@ {
        Some(NameKind::Suffix)
    } else if subtype == "name"@ {
        Some(NameKind::Name)
    } else if subtype == "name_with_title"@ {
        Some(NameKind::NameWithTitle)
    } else {
        None
    }
}

/// The subtype that a family reads: the one given, or the family's default.
/// Only the `name` family has subtypes.
pub open spec fn effective_subtype(subtype: Option<Seq<char>>) -> Seq<char> {
    match subtype {
        Some(s) => s,
        None => default_name_subtype(),
    }
}

/// The table: the generator that a family and a subtype select. The families
/// `number`, `boolean` and `uuid` have one generator each and read no subtype.
pub open spec fn generator_for(family: Seq<char>, subtype: Option<Seq<char>>) -> Result<
    Generator,
    RegistryMiss,
> {
    if family == "name"@ {
        match name_kind_of(effective_subtype(subtype)) {
            Some(kind) => Ok(Generator::Name(kind)),
            None => Err(RegistryMiss::UnknownSubtype),
        }
    } else if family == "number"@ {
        Ok(Generator::Number)
    } else if family == "boolean"@ {
        Ok(Generator::Boolean)
    } else if family == "uuid"@ {
        Ok(Generator::Uuid)
    } else {
        Err(RegistryMiss::UnknownFamily)
    }
}

/// Looks up the corpus that a subtype of the `name` family selects.
pub fn name_kind(subtype: &str) -> (r: Option<NameKind>)
    ensures
        r == name_kind_of(subtype@),
{
    let s = String::from_str(subtype);
    if same_text(&s, "first_name") {
        Some(NameKind::FirstName)
    } else if same_text(&s, "last_name") {
        Some(NameKind::LastName)
    } else if same_text(&s, "title") {
        Some(NameKind::Title)
    } else if same_text(&s, "suffix") {
        Some(NameKind::Suffix)
    } else if same_text(&s, "name") {
        Some(NameKind::Name)
    } else if same_text(&s, "name_with_title") {
        Some(NameKind::NameWithTitle)
    } else {
        None
    }
}

/// Looks up the generator that a family and a subtype select.
pub fn lookup(family: &str, subtype: Option<&str>) -> (r: Result<Generator, RegistryMiss>)
    ensures
        r == generator_for(
            family@,
            match subtype {
                Some(s) => Some(s@),
                None => None,
            },
        ),
{
    let f = String::from_str(family);
    if same_text(&f, "name") {
        let chosen = match subtype {
            Some(s) => s,
            None => "name",
        };
        match name_kind(chosen) {
            Some(kind) => Ok(Generator::Name(kind)),
            None => Err(RegistryMiss::UnknownSubtype),
        }
    } else if same_text(&f, "number") {
        Ok(Generator::Number)
    } else if same_text(&f, "boolean") {
        Ok(Generator::Boolean)
    } else if same_text(&f, "uuid") {
        Ok(Generator::Uuid)
    } else {
        Err(RegistryMiss::UnknownFamily)
    }
}

} // verus!
