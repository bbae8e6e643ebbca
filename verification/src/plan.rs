//! From a field's configuration to what will be drawn for it: the family is
//! resolved, the parameters are read with their defaults and checked, and
//! nothing is drawn yet.

use vstd::prelude::*;
use crate::config::{
    bool_param, family_of, field_entry, get_field, given_subtype, i64_param, number_param,
    params_of, u64_param, FieldConfig, SchemaDocument,
};
use crate::error::{ErrorModel, GenerationError};
use crate::json::JsonValue;
use crate::number::{lemma_digit_count_bound, lemma_pow10_values, pow10, Number};
use crate::registry::{
    effective_subtype, generator_for, lookup, Generator, NameKind, RegistryMiss,
};

verus! {

/// What is drawn for a field, with its parameters settled.
#[derive(Clone, Copy, Debug, PartialEq, Eq, Structural)]
pub enum FieldPlan {
    /// A name of the given corpus.
    Name(NameKind),
    /// A whole number between `min` and `max`, both included.
    Integer { min: i64, max: i64 },
    /// A number with `decimals` digits behind the point: a whole number `k`
    /// between `low` and `high`, both included, stands for `k * 10^step`.
    Fixed { low: i128, high: i128, step: i32, decimals: u64 },
    /// `true` for a draw below `threshold` out of `10^18`, else `false`.
    Boolean { threshold: u64 },
    /// A random identifier.
    Uuid,
}

/// The most digits behind the point that are drawn; further ones are zeros.
pub const PRECISION_CAP: u32 = 18;

/// The number of equally likely draws that a truth value is decided by.
pub const THRESHOLD_SCALE: u64 = 1_000_000_000_000_000_000;

impl FieldPlan {
    /// Whether something can be drawn under the plan.
    pub open spec fn valid(self) -> bool {
        match self {
            FieldPlan::Name(_) => true,
            FieldPlan::Integer { min, max } => min <= max,
            FieldPlan::Fixed { low, high, step, decimals } => {
                low <= high && -(PRECISION_CAP as int) <= step && -step <= decimals
            },
            FieldPlan::Boolean { threshold } => threshold <= THRESHOLD_SCALE,
            FieldPlan::Uuid => true,
        }
    }

    /// Tells whether something can be drawn under the plan.
    pub fn is_valid(&self) -> (r: bool)
        ensures
            r == self.valid(),
    {
        match self {
            FieldPlan::Name(_) => true,
            FieldPlan::Integer { min, max } => *min <= *max,
            FieldPlan::Fixed { low, high, step, decimals } => {
                *low <= *high && *step >= -18 && (*step >= 0 || (-*step) as u64 <= *decimals)
            },
            FieldPlan::Boolean { threshold } => *threshold <= THRESHOLD_SCALE,
            FieldPlan::Uuid => true,
        }
    }
}

/// Zero: the lower bound of a number where none is given.
pub open spec fn default_min() -> Number {
    Number { negative: false, mantissa: 0, exponent: 0 }
}

/// A hundred: the upper bound of a number where none is given.
pub open spec fn default_max() -> Number {
    Number { negative: false, mantissa: 100, exponent: 0 }
}

/// One half: the probability of `true` where none is given.
pub open spec fn default_probability() -> Number {
    Number { negative: false, mantissa: 5, exponent: -1i32 }
}

/// What the failure says where the lower bound is above the upper one.
pub open spec fn range_detail() -> Seq<char> {
    "min is greater than max"@
}

/// A bound of a fractional number: the parameter `name` where it is a number,
/// else `default`.
pub open spec fn bound_param(params: Map<Seq<char>, JsonValue>, name: Seq<char>, default: Number)
    -> Number {
    match number_param(params, name) {
        Some(n) => n,
        None => default,
    }
}

/// The digits behind the point that are drawn for `decimals` digits asked for.
pub open spec fn precision_for(decimals: u64) -> u32 {
    if decimals < PRECISION_CAP {
        decimals as u32
    } else {
        PRECISION_CAP
    }
}

/// The exponent of ten of one step between the bounds: as fine as the
/// digits drawn ask for, unless a bound is so large that it takes a coarser
/// step to hold it in 38 digits.
pub open spec fn step_for(min: Number, max: Number, precision: u32) -> int {
    let finest = -(precision as int);
    let needed = if min.least_step() >= max.least_step() {
        min.least_step()
    } else {
        max.least_step()
    };
    if needed >= finest {
        needed
    } else {
        finest
    }
}

/// The steps that a fractional number is drawn from, for bounds in order:
/// the whole numbers `k` with `k * 10^step` between the bounds, the lower
/// bound rounded up and the upper one down. Where no step lies between the
/// bounds, they are the steps that writing a number between the bounds with
/// that many digits gives: from the step nearest to the lower bound to the
/// step nearest to the upper one.
pub open spec fn fixed_steps(min: Number, max: Number, step: int) -> (int, int) {
    let low = min.scaled_ceil(-step);
    let high = max.scaled_floor(-step);
    if low <= high {
        (low, high)
    } else {
        (min.scaled_nearest(-step), max.scaled_nearest(-step))
    }
}

/// The plan of the `number` family under the given parameters.
///
/// With `float` set, the bounds `min` and `max` are taken as the numbers
/// that they are; without it they are cut to whole numbers. The parameters
/// are invalid exactly where the lower bound is above the upper one.
pub open spec fn number_plan(params: Map<Seq<char>, JsonValue>, field: Seq<char>) -> Result<
    FieldPlan,
    ErrorModel,
> {
    if bool_param(params, "float"@, false) {
        let decimals = u64_param(params, "decimals"@, 2);
        let min = bound_param(params, "min"@, default_min());
        let max = bound_param(params, "max"@, default_max());
        if max.less_than(min) {
            Err(ErrorModel::InvalidParams { field, detail: range_detail() })
        } else {
            let step = step_for(min, max, precision_for(decimals));
            let steps = fixed_steps(min, max, step);
            Ok(
                FieldPlan::Fixed {
                    low: steps.0 as i128,
                    high: steps.1 as i128,
                    step: step as i32,
                    decimals,
                },
            )
        }
    } else {
        let min = i64_param(params, "min"@, 0);
        let max = i64_param(params, "max"@, 100);
        if min <= max {
            Ok(FieldPlan::Integer { min, max })
        } else {
            Err(ErrorModel::InvalidParams { field, detail: range_detail() })
        }
    }
}

/// The step between two bounds is held by the machine word of a plan, is no
/// finer than eighteen digits nor than the digits asked for, and both bounds
/// fit at it.
pub proof fn lemma_step_for(min: Number, max: Number, decimals: u64)
    ensures
        -(PRECISION_CAP as int) <= step_for(min, max, precision_for(decimals)) <= i32::MAX,
        -step_for(min, max, precision_for(decimals)) <= decimals,
        step_for(min, max, precision_for(decimals)) >= min.least_step(),
        step_for(min, max, precision_for(decimals)) >= max.least_step(),
{
    lemma_pow10_values();
    lemma_digit_count_bound(min.mantissa as nat, 20);
    lemma_digit_count_bound(max.mantissa as nat, 20);
}

/// The draws out of `10^18` that give `true` under probability `p`: `p` is
/// held to the range from zero to one and scaled, rounding down.
pub open spec fn threshold_of(p: Number) -> int {
    let scaled = p.scaled_floor(18);
    if scaled < 0 {
        0
    } else if scaled > pow10(18) {
        pow10(18) as int
    } else {
        scaled
    }
}

/// The plan of the `boolean` family under the given parameters.
pub open spec fn boolean_plan(params: Map<Seq<char>, JsonValue>) -> FieldPlan {
    let p = match number_param(params, "true_probability"@) {
        Some(n) => n,
        None => default_probability(),
    };
    FieldPlan::Boolean { threshold: threshold_of(p) as u64 }
}

/// The plan of a field from its entry, or why it has none.
pub open spec fn entry_plan(entry: Map<Seq<char>, JsonValue>, field: Seq<char>) -> Result<
    FieldPlan,
    ErrorModel,
> {
    match family_of(entry) {
        None => Err(ErrorModel::MissingType { field }),
        Some(family) => match generator_for(family, given_subtype(entry)) {
            Err(RegistryMiss::UnknownFamily) => Err(ErrorModel::UnsupportedType { field, family }),
            Err(RegistryMiss::UnknownSubtype) => Err(
                ErrorModel::UnsupportedSubtype {
                    field,
                    family,
                    subtype: effective_subtype(given_subtype(entry)),
                },
            ),
            Ok(Generator::Name(kind)) => Ok(FieldPlan::Name(kind)),
            Ok(Generator::Number) => number_plan(params_of(entry), field),
            Ok(Generator::Boolean) => Ok(boolean_plan(params_of(entry))),
            Ok(Generator::Uuid) => Ok(FieldPlan::Uuid),
        },
    }
}

/// The plan of a field under a document, or why it has none.
pub open spec fn field_plan(document: Map<Seq<char>, JsonValue>, field: Seq<char>) -> Result<
    FieldPlan,
    ErrorModel,
> {
    match field_entry(document, field) {
        None => Err(ErrorModel::MissingFieldConfig { field }),
        Some(entry) => entry_plan(entry, field),
    }
}

/// Whether a computed outcome is the expected one: the same plan, or a
/// failure with the same content.
pub open spec fn outcome_is(
    r: Result<FieldPlan, GenerationError>,
    expected: Result<FieldPlan, ErrorModel>,
) -> bool {
    match expected {
        Ok(plan) => r.is_ok() && r.unwrap() == plan,
        Err(e) => r.is_err() && r.unwrap_err()@ == e,
    }
}

/// Settles the parameters of the `number` family.
pub fn plan_number(config: &FieldConfig) -> (r: Result<FieldPlan, GenerationError>)
    ensures
        outcome_is(r, number_plan(params_of(config@), config.field_name())),
        r.is_ok() ==> r.unwrap().valid(),
{
    if config.get_bool("float", false) {
        let decimals = config.get_u64("decimals", 2);
        let precision: u32 = if decimals < PRECISION_CAP as u64 {
            decimals as u32
        } else {
            PRECISION_CAP
        };
        let min = match config.get_number("min") {
            Some(n) => n,
            None => Number::from_parts(false, 0, 0),
        };
        let max = match config.get_number("max") {
            Some(n) => n,
            None => Number::from_parts(false, 100, 0),
        };
        if max.is_less_than(&min) {
            return Err(
                GenerationError::InvalidParams {
                    field: String::from_str(config.field()),
                    detail: String::from_str("min is greater than max"),
                },
            );
        }
        let finest: i64 = -(precision as i64);
        let need_min = min.step_needed();
        let need_max = max.step_needed();
        let needed = if need_min >= need_max {
            need_min
        } else {
            need_max
        };
        proof {
            lemma_step_for(min, max, decimals);
            min.lemma_fits_from_step(step_for(min, max, precision));
            max.lemma_fits_from_step(step_for(min, max, precision));
        }
        let step: i32 = if needed >= finest {
            needed as i32
        } else {
            finest as i32
        };
        let low = min.ceil_scaled(-step).unwrap();
        let high = max.floor_scaled(-step).unwrap();
        if low <= high {
            Ok(FieldPlan::Fixed { low, high, step, decimals })
        } else {
            proof {
                Number::lemma_nearest_in_order(min, max, -step as int);
            }
            Ok(
                FieldPlan::Fixed {
                    low: min.nearest_scaled(-step).unwrap(),
                    high: max.nearest_scaled(-step).unwrap(),
                    step,
                    decimals,
                },
            )
        }
    } else {
        let min = config.get_i64("min", 0);
        let max = config.get_i64("max", 100);
        if min <= max {
            Ok(FieldPlan::Integer { min, max })
        } else {
            Err(
                GenerationError::InvalidParams {
                    field: String::from_str(config.field()),
                    detail: String::from_str("min is greater than max"),
                },
            )
        }
    }
}

/// Scales a probability to the draws out of `10^18` that give `true`.
pub fn threshold(p: &Number) -> (r: u64)
    ensures
        r == threshold_of(*p),
        r <= THRESHOLD_SCALE,
{
    proof {
        lemma_pow10_values();
    }
    match p.floor_scaled(18) {
        Some(scaled) => {
            if scaled < 0 {
                0
            } else if scaled > THRESHOLD_SCALE as i128 {
                THRESHOLD_SCALE
            } else {
                scaled as u64
            }
        },
        None => {
            proof {
                p.lemma_floor_ceil_by_magnitude(18);
            }
            if p.negative {
                0
            } else {
                THRESHOLD_SCALE
            }
        },
    }
}

/// Settles the parameters of the `boolean` family.
pub fn plan_boolean(config: &FieldConfig) -> (r: FieldPlan)
    ensures
        r == boolean_plan(params_of(config@)),
        r.valid(),
{
    let p = match config.get_number("true_probability") {
        Some(n) => n,
        None => Number::from_parts(false, 5, -1),
    };
    FieldPlan::Boolean { threshold: threshold(&p) }
}

/// Settles what is drawn for a field from its configuration.
pub fn plan_entry(config: &FieldConfig) -> (r: Result<FieldPlan, GenerationError>)
    ensures
        outcome_is(r, entry_plan(config@, config.field_name())),
        r.is_ok() ==> r.unwrap().valid(),
{
    let family = match config.get_type() {
        Ok(family) => family,
        Err(e) => {
            return Err(e);
        },
    };
    let subtype = config.subtype();
    match lookup(family.as_str(), subtype) {
        Ok(Generator::Name(kind)) => Ok(FieldPlan::Name(kind)),
        Ok(Generator::Number) => plan_number(config),
        Ok(Generator::Boolean) => Ok(plan_boolean(config)),
        Ok(Generator::Uuid) => Ok(FieldPlan::Uuid),
        Err(RegistryMiss::UnknownFamily) => Err(
            GenerationError::UnsupportedType {
                field: String::from_str(config.field()),
                family: family.clone(),
            },
        ),
        Err(RegistryMiss::UnknownSubtype) => {
            let chosen = match subtype {
                Some(s) => s,
                None => "name",
            };
            Err(
                GenerationError::UnsupportedSubtype {
                    field: String::from_str(config.field()),
                    family: family.clone(),
                    subtype: String::from_str(chosen),
                },
            )
        },
    }
}

/// Settles what is drawn for `field` under `document`: resolves the field's
/// entry, its family and subtype, and its parameters.
pub fn plan_field(document: &SchemaDocument, field: &str) -> (r: Result<FieldPlan, GenerationError>)
    ensures
        outcome_is(r, field_plan(document@, field@)),
        r.is_ok() ==> r.unwrap().valid(),
{
    match get_field(document, field) {
        Ok(config) => plan_entry(&config),
        Err(e) => Err(e),
    }
}

} // verus!
