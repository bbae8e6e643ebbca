//! Why a sampling call fails.

use vstd::prelude::*;
use vstd::string::*;

verus! {

/// The failure of a sampling call. Every variant is final for the call that
/// returns it: nothing is retried, and no partial record comes with it.
#[derive(Debug)]
pub enum GenerationError {
    /// The document has no entry for the field, or the entry is not an object.
    MissingFieldConfig { field: String },
    /// The field's entry has no `type`, or its `type` is not a string.
    MissingType { field: String },
    /// The field's `type` names no generator family.
    UnsupportedType { field: String, family: String },
    /// The field's `subtype` names no generator of its family.
    UnsupportedSubtype { field: String, family: String, subtype: String },
    /// A parameter is present and well-formed, but no value can be drawn under it.
    InvalidParams { field: String, detail: String },
    /// The target is not a record with named fields.
    UnsupportedRecordShape,
}

/// A failure as plain values.
pub enum ErrorModel {
    MissingFieldConfig { field: Seq<char> },
    MissingType { field: Seq<char> },
    UnsupportedType { field: Seq<char>, family: Seq<char> },
    UnsupportedSubtype { field: Seq<char>, family: Seq<char>, subtype: Seq<char> },
    InvalidParams { field: Seq<char>, detail: Seq<char> },
    UnsupportedRecordShape,
}

impl ErrorModel {
    /// The sentence that describes the failure.
    pub open spec fn message(self) -> Seq<char> {
        match self {
            ErrorModel::MissingFieldConfig { field } => {
                "Missing or invalid configuration for field '"@ + field + "'"@
            },
            ErrorModel::MissingType { field } => "Missing type for field '"@ + field + "'"@,
            ErrorModel::UnsupportedType { field, family } => {
                "Unsupported type '"@ + family + "' for field '"@ + field + "'"@
            },
            ErrorModel::UnsupportedSubtype { family, subtype, .. } => {
                "Unsupported "@ + family + " subtype: "@ + subtype
            },
            ErrorModel::InvalidParams { field, detail } => {
                "Invalid parameters for field '"@ + field + "': "@ + detail
            },
            ErrorModel::UnsupportedRecordShape => "Only records with named fields can be sampled"@,
        }
    }

    /// The field that the failure is about, if it is about one.
    pub open spec fn field(self) -> Option<Seq<char>> {
        match self {
            ErrorModel::MissingFieldConfig { field } => Some(field),
            ErrorModel::MissingType { field } => Some(field),
            ErrorModel::UnsupportedType { field, .. } => Some(field),
            ErrorModel::UnsupportedSubtype { field, .. } => Some(field),
            ErrorModel::InvalidParams { field, .. } => Some(field),
            ErrorModel::UnsupportedRecordShape => None,
        }
    }
}

impl View for GenerationError {
    type V = ErrorModel;

    open spec fn view(&self) -> ErrorModel {
        match self {
            GenerationError::MissingFieldConfig { field } => ErrorModel::MissingFieldConfig {
                field: field@,
            },
            GenerationError::MissingType { field } => ErrorModel::MissingType { field: field@ },
            GenerationError::UnsupportedType { field, family } => ErrorModel::UnsupportedType {
                field: field@,
                family: family@,
            },
            GenerationError::UnsupportedSubtype {
                field,
                family,
                subtype,
            } => ErrorModel::UnsupportedSubtype {
                field: field@,
                family: family@,
                subtype: subtype@,
            },
            GenerationError::InvalidParams { field, detail } => ErrorModel::InvalidParams {
                field: field@,
                detail: detail@,
            },
            GenerationError::UnsupportedRecordShape => ErrorModel::UnsupportedRecordShape,
        }
    }
}

impl GenerationError {
    /// The sentence that describes the failure.
    pub fn message(&self) -> (r: String)
        ensures
            r@ == self@.message(),
    {
        match self {
            GenerationError::MissingFieldConfig { field } => {
                let mut s = String::from_str("Missing or invalid configuration for field '");
                s.append(field.as_str());
                s.append("'");
                s
            },
            GenerationError::MissingType { field } => {
                let mut s = String::from_str("Missing type for field '");
                s.append(field.as_str());
                s.append("'");
                s
            },
            GenerationError::UnsupportedType { field, family } => {
                let mut s = String::from_str("Unsupported type '");
                s.append(family.as_str());
                s.append("' for field '");
                s.append(field.as_str());
                s.append("'");
                s
            },
            GenerationError::UnsupportedSubtype { family, subtype, .. } => {
                let mut s = String::from_str("Unsupported ");
                s.append(family.as_str());
                s.append(" subtype: ");
                s.append(subtype.as_str());
                s
            },
            GenerationError::InvalidParams { field, detail } => {
                let mut s = String::from_str("Invalid parameters for field '");
                s.append(field.as_str());
                s.append("': ");
                s.append(detail.as_str());
                s
            },
            GenerationError::UnsupportedRecordShape => {
                String::from_str("Only records with named fields can be sampled")
            },
        }
    }
}

} // verus!
