//! Sampling a whole record: every declared field in turn, all or nothing.

use vstd::prelude::*;
use crate::error::{ErrorModel, GenerationError};
use crate::generate::{admits, generate};
use crate::config::SchemaDocument;
use crate::json::{same_text, JsonValue};
use crate::plan::{field_plan, plan_field, FieldPlan};

verus! {

/// A sampled record: one value for each declared field, in the order in
/// which the fields were declared.
#[derive(Debug)]
pub struct SampledRecord {
    entries: Vec<(String, String)>,
}

impl View for SampledRecord {
    type V = Seq<(Seq<char>, Seq<char>)>;

    closed spec fn view(&self) -> Seq<(Seq<char>, Seq<char>)> {
        Seq::new(self.entries@.len(), |i: int| (self.entries@[i].0@, self.entries@[i].1@))
    }
}

/// The shape of the type that a record is sampled for.
#[derive(Debug)]
pub enum RecordShape {
    /// A record with named fields, in the order of their declaration.
    Named(Vec<String>),
    /// A record whose fields have no names, or one without fields.
    Unnamed,
    /// A type of several variants.
    Variant,
    /// A type whose fields share one place in memory.
    Union,
}

impl RecordShape {
    /// The named fields of the shape, where it is a record with named fields.
    pub open spec fn named_fields(self) -> Option<Seq<String>> {
        match self {
            RecordShape::Named(fields) => Some(fields@),
            RecordShape::Unnamed => None,
            RecordShape::Variant => None,
            RecordShape::Union => None,
        }
    }
}

/// Whether `r` is a right outcome of sampling `field`: where the field has a
/// plan, a value that the plan admits; where it has none, the plan's failure.
pub open spec fn field_outcome(
    document: Map<Seq<char>, JsonValue>,
    field: Seq<char>,
    r: Result<String, GenerationError>,
) -> bool {
    match field_plan(document, field) {
        Ok(plan) => r.is_ok() && admits(plan, r.unwrap()@),
        Err(e) => r.is_err() && r.unwrap_err()@ == e,
    }
}

/// Whether `field` has a plan under `document`, and that plan admits `text`.
pub open spec fn field_admits(
    document: Map<Seq<char>, JsonValue>,
    field: Seq<char>,
    text: Seq<char>,
) -> bool {
    match field_plan(document, field) {
        Ok(plan) => admits(plan, text),
        Err(_) => false,
    }
}

/// Whether `r` is a right outcome of sampling the fields in turn.
///
/// A record comes out exactly if every field has a plan; it then holds the
/// fields in their order, each with a value that its plan admits. Otherwise
/// the failure is that of the first field without a plan.
pub open spec fn record_outcome(
    document: Map<Seq<char>, JsonValue>,
    fields: Seq<String>,
    r: Result<SampledRecord, GenerationError>,
) -> bool {
    match r {
        Ok(record) => {
            &&& record@.len() == fields.len()
            &&& forall|i: int|
                0 <= i < fields.len() ==> {
                    &&& (#[trigger] record@[i]).0 == fields[i]@
                    &&& field_admits(document, fields[i]@, record@[i].1)
                }
        },
        Err(e) => exists|i: int|
            {
                &&& 0 <= i < fields.len()
                &&& #[trigger] field_plan(document, fields[i]@) == Err::<FieldPlan, ErrorModel>(e@)
                &&& forall|j: int|
                    0 <= j < i ==> (#[trigger] field_plan(document, fields[j]@)).is_ok()
            },
    }
}

/// Whether `r` is a right outcome of sampling for a type of shape `shape`:
/// for a record with named fields that of sampling the fields in turn, for
/// any other shape the failure that says so.
pub open spec fn shape_outcome(
    document: Map<Seq<char>, JsonValue>,
    shape: RecordShape,
    r: Result<SampledRecord, GenerationError>,
) -> bool {
    match shape.named_fields() {
        Some(fields) => record_outcome(document, fields, r),
        None => r.is_err() && r.unwrap_err()@ == ErrorModel::UnsupportedRecordShape,
    }
}

/// Samples one field: settles its plan, then draws under it. Nothing is
/// drawn for a field without a plan.
pub fn sample_field(document: &SchemaDocument, field: &str) -> (r: Result<String, GenerationError>)
    ensures
        field_outcome(document@, field@, r),
{
    match plan_field(document, field) {
        Ok(plan) => Ok(generate(&plan)),
        Err(e) => Err(e),
    }
}

/// Samples a record: each declared field in the order of declaration. The
/// first field that fails ends the call with its failure; no later field is
/// sampled, and no part of a record is handed out.
pub fn sample(document: &SchemaDocument, fields: &Vec<String>) -> (r: Result<
    SampledRecord,
    GenerationError,
>)
    ensures
        record_outcome(document@, fields@, r),
{
    let mut entries: Vec<(String, String)> = Vec::new();
    let mut i: usize = 0;
    while i < fields.len()
        invariant
            i <= fields.len(),
            entries@.len() == i,
            forall|j: int|
                0 <= j < i ==> (#[trigger] field_plan(document@, fields@[j]@)).is_ok(),
            forall|j: int|
                0 <= j < i ==> {
                    &&& (#[trigger] entries@[j]).0@ == fields@[j]@
                    &&& field_admits(document@, fields@[j]@, entries@[j].1@)
                },
        decreases fields.len() - i,
    {
        match sample_field(document, fields[i].as_str()) {
            Ok(value) => {
                entries.push((fields[i].clone(), value));
            },
            Err(e) => {
                assert(field_plan(document@, fields@[i as int]@) == Err::<FieldPlan, ErrorModel>(
                    e@,
                ));
                return Err(e);
            },
        }
        i = i + 1;
    }
    Ok(SampledRecord { entries })
}

/// Samples a record for a type of the given shape. Only a record with named
/// fields can be sampled; for any other shape the call fails, whatever the
/// document holds.
pub fn sample_shape(document: &SchemaDocument, shape: &RecordShape) -> (r: Result<
    SampledRecord,
    GenerationError,
>)
    ensures
        shape_outcome(document@, *shape, r),
{
    match shape {
        RecordShape::Named(fields) => sample(document, fields),
        RecordShape::Unnamed => Err(GenerationError::UnsupportedRecordShape),
        RecordShape::Variant => Err(GenerationError::UnsupportedRecordShape),
        RecordShape::Union => Err(GenerationError::UnsupportedRecordShape),
    }
}

impl SampledRecord {
    /// The number of fields.
    pub fn len(&self) -> (r: usize)
        ensures
            r == self@.len(),
    {
        self.entries.len()
    }

    /// The name of the field at `index`.
    pub fn name(&self, index: usize) -> (r: &String)
        requires
            index < self@.len(),
        ensures
            r@ == self@[index as int].0,
    {
        &self.entries[index].0
    }

    /// The value of the field at `index`.
    pub fn value(&self, index: usize) -> (r: &String)
        requires
            index < self@.len(),
        ensures
            r@ == self@[index as int].1,
    {
        &self.entries[index].1
    }

    /// The value of the first field called `name`, if there is one.
    pub fn get(&self, name: &str) -> (r: Option<&String>)
        ensures
            match r {
                Some(value) => exists|i: int|
                    {
                        &&& 0 <= i < self@.len()
                        &&& (#[trigger] self@[i]).0 == name@
                        &&& self@[i].1 == value@
                        &&& forall|j: int| 0 <= j < i ==> (#[trigger] self@[j]).0 != name@
                    },
                None => forall|i: int| 0 <= i < self@.len() ==> (#[trigger] self@[i]).0 != name@,
            },
    {
        let mut i: usize = 0;
        while i < self.entries.len()
            invariant
                i <= self.entries.len(),
                forall|j: int| 0 <= j < i ==> (#[trigger] self@[j]).0 != name@,
            decreases self.entries.len() - i,
        {
            if same_text(&self.entries[i].0, name) {
                assert(self@[i as int].0 == name@);
                return Some(&self.entries[i].1);
            }
            i = i + 1;
        }
        None
    }

    /// The fields with their values, in order.
    pub fn into_entries(self) -> (r: Vec<(String, String)>)
        ensures
            r@.len() == self@.len(),
            forall|i: int|
                0 <= i < r@.len() ==> (#[trigger] r@[i]).0@ == self@[i].0 && r@[i].1@ == self@[i].1,
    {
        self.entries
    }
}

} // verus!
