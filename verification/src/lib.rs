//! Configuration-driven generation of synthetic field values for records.
//!
//! A schema document names, for each field of a record, a generator family,
//! an optional subtype and optional parameters. [`sample`] reads the document
//! for each declared field in turn, draws a value under it, and hands back
//! the whole record or the first failure.

pub mod config;
pub mod error;
pub mod generate;
pub mod json;
pub mod laws;
pub mod number;
pub mod parse;
pub mod plan;
pub mod random;
pub mod registry;
pub mod sampler;
pub mod text;

pub use config::{get_field, FieldConfig, SchemaDocument};
pub use error::GenerationError;
pub use json::{JsonObject, JsonValue};
pub use number::Number;
pub use parse::read_number;
pub use plan::{plan_field, FieldPlan};
pub use registry::{lookup, Generator, NameKind, RegistryMiss};
pub use sampler::{sample, sample_field, sample_shape, RecordShape, SampledRecord};
