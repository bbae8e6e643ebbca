//! The configuration of one field, read through the document with defaults.

use vstd::prelude::*;
use crate::error::{ErrorModel, GenerationError};
use crate::json::{JsonObject, JsonValue};
use crate::number::Number;

verus! {

/// A schema: for each field's name, the entry that configures the field.
pub type SchemaDocument = JsonObject;

/// The entry that a document holds for a field, where it is an object.
pub open spec fn field_entry(document: Map<Seq<char>, JsonValue>, field: Seq<char>) -> Option<
    Map<Seq<char>, JsonValue>,
> {
    if document.contains_key(field) {
        document[field].object_of()
    } else {
        None
    }
}

/// The generator family that an entry names: its `type`, where that is a string.
pub open spec fn family_of(entry: Map<Seq<char>, JsonValue>) -> Option<Seq<char>> {
    if entry.contains_key("type"@) {
        entry["type"@].text_of()
    } else {
        None
    }
}

/// The `subtype` that an entry gives: present, and a string.
pub open spec fn given_subtype(entry: Map<Seq<char>, JsonValue>) -> Option<Seq<char>> {
    if entry.contains_key("subtype"@) {
        entry["subtype"@].text_of()
    } else {
        None
    }
}

/// The `subtype` of an entry where it gives one, else `default`.
pub open spec fn subtype_of(entry: Map<Seq<char>, JsonValue>, default: Seq<char>) -> Seq<char> {
    match given_subtype(entry) {
        Some(subtype) => subtype,
        None => default,
    }
}

/// The `params` of an entry where they are an object, else no parameters.
pub open spec fn params_of(entry: Map<Seq<char>, JsonValue>) -> Map<Seq<char>, JsonValue> {
    if entry.contains_key("params"@) && entry["params"@].object_of().is_some() {
        entry["params"@].object_of().unwrap()
    } else {
        Map::empty()
    }
}

/// The parameter `name` where it is a truth value, else `default`.
pub open spec fn bool_param(params: Map<Seq<char>, JsonValue>, name: Seq<char>, default: bool)
    -> bool {
    if params.contains_key(name) && params[name].bool_of().is_some() {
        params[name].bool_of().unwrap()
    } else {
        default
    }
}

/// The parameter `name` where it is a number.
pub open spec fn number_param(params: Map<Seq<char>, JsonValue>, name: Seq<char>) -> Option<
    Number,
> {
    if params.contains_key(name) {
        params[name].number_of()
    } else {
        None
    }
}

/// The parameter `name` cut to a whole number, where it is a number and `i64`
/// holds the result; else `default`.
pub open spec fn i64_param(params: Map<Seq<char>, JsonValue>, name: Seq<char>, default: i64)
    -> i64 {
    match number_param(params, name) {
        Some(n) => if i64::MIN <= n.truncated() <= i64::MAX {
            n.truncated() as i64
        } else {
            default
        },
        None => default,
    }
}

/// The parameter `name` where it is a whole number that `u64` holds, else
/// `default`.
pub open spec fn u64_param(params: Map<Seq<char>, JsonValue>, name: Seq<char>, default: u64)
    -> u64 {
    match number_param(params, name) {
        Some(n) => if n.integral() && 0 <= n.truncated() <= u64::MAX {
            n.truncated() as u64
        } else {
            default
        },
        None => default,
    }
}

/// The configuration of one field: the field's name and its entry in the
/// document. It is read, never changed.
#[derive(Clone, Copy, Debug)]
pub struct FieldConfig<'a> {
    field: &'a str,
    entry: &'a JsonObject,
}

impl<'a> View for FieldConfig<'a> {
    type V = Map<Seq<char>, JsonValue>;

    closed spec fn view(&self) -> Map<Seq<char>, JsonValue> {
        self.entry@
    }
}

/// Looks up the configuration of `field`. Fails when the document has no entry
/// for it, or an entry that is not an object.
pub fn get_field<'a>(document: &'a SchemaDocument, field: &'a str) -> (r: Result<
    FieldConfig<'a>,
    GenerationError,
>)
    ensures
        match field_entry(document@, field@) {
            Some(entry) => r.is_ok() && r.unwrap()@ == entry && r.unwrap().field_name() == field@,
            None => r.is_err() && r.unwrap_err()@ == (ErrorModel::MissingFieldConfig {
                field: field@,
            }),
        },
{
    match document.get(field) {
        Some(value) => match value.as_object() {
            Some(entry) => Ok(FieldConfig { field, entry }),
            None => Err(GenerationError::MissingFieldConfig { field: String::from_str(field) }),
        },
        None => Err(GenerationError::MissingFieldConfig { field: String::from_str(field) }),
    }
}

impl<'a> FieldConfig<'a> {
    /// The name of the field that this configuration is for.
    pub closed spec fn field_name(&self) -> Seq<char> {
        self.field@
    }

    /// The field's name.
    pub fn field(&self) -> (r: &'a str)
        ensures
            r@ == self.field_name(),
    {
        self.field
    }

    /// The generator family: the entry's `type`. Fails when the entry has none,
    /// or one that is not a string.
    pub fn get_type(&self) -> (r: Result<&'a String, GenerationError>)
        ensures
            match family_of(self@) {
                Some(family) => r.is_ok() && r.unwrap()@ == family,
                None => r.is_err() && r.unwrap_err()@ == (ErrorModel::MissingType {
                    field: self.field_name(),
                }),
            },
    {
        match self.entry.get("type") {
            Some(value) => match value.as_text() {
                Some(family) => Ok(family),
                None => Err(GenerationError::MissingType { field: String::from_str(self.field) }),
            },
            None => Err(GenerationError::MissingType { field: String::from_str(self.field) }),
        }
    }

    /// The entry's `subtype`, where it has one that is a string.
    pub fn subtype(&self) -> (r: Option<&'a str>)
        ensures
            r.is_some() == given_subtype(self@).is_some(),
            r.is_some() ==> r.unwrap()@ == given_subtype(self@).unwrap(),
    {
        match self.entry.get("subtype") {
            Some(value) => match value.as_text() {
                Some(subtype) => Some(subtype.as_str()),
                None => None,
            },
            None => None,
        }
    }

    /// The entry's `subtype` where it is a string, else `default`.
    pub fn get_subtype(&self, default: &'a str) -> (r: &'a str)
        ensures
            r@ == subtype_of(self@, default@),
    {
        match self.subtype() {
            Some(subtype) => subtype,
            None => default,
        }
    }

    /// The entry's parameters, where it has an object of them.
    pub fn params(&self) -> (r: Option<&'a JsonObject>)
        ensures
            match r {
                Some(object) => object@ == params_of(self@),
                None => params_of(self@) == Map::<Seq<char>, JsonValue>::empty(),
            },
    {
        match self.entry.get("params") {
            Some(value) => value.as_object(),
            None => None,
        }
    }

    /// The parameter `name` where it is a number.
    pub fn get_number(&self, name: &str) -> (r: Option<Number>)
        ensures
            r == number_param(params_of(self@), name@),
    {
        match self.params() {
            Some(object) => match object.get(name) {
                Some(value) => value.as_number(),
                None => None,
            },
            None => None,
        }
    }

    /// The parameter `name` where it is a truth value, else `default`.
    pub fn get_bool(&self, name: &str, default: bool) -> (r: bool)
        ensures
            r == bool_param(params_of(self@), name@, default),
    {
        match self.params() {
            Some(object) => match object.get(name) {
                Some(value) => match value.as_bool() {
                    Some(b) => b,
                    None => default,
                },
                None => default,
            },
            None => default,
        }
    }

    /// The parameter `name` cut to a whole number, where it is a number and
    /// `i64` holds the result; else `default`.
    pub fn get_i64(&self, name: &str, default: i64) -> (r: i64)
        ensures
            r == i64_param(params_of(self@), name@, default),
    {
        match self.get_number(name) {
            Some(n) => match n.to_i64() {
                Some(v) => v,
                None => default,
            },
            None => default,
        }
    }

    /// The parameter `name` where it is a whole number that `u64` holds, else
    /// `default`.
    pub fn get_u64(&self, name: &str, default: u64) -> (r: u64)
        ensures
            r == u64_param(params_of(self@), name@, default),
    {
        match self.get_number(name) {
            Some(n) => match n.to_u64() {
                Some(v) => v,
                None => default,
            },
            None => default,
        }
    }
}

} // verus!
