//! What holds of sampling as a whole, proved from the contracts of the parts.

use vstd::prelude::*;
use crate::config::{bool_param, family_of, given_subtype, i64_param, number_param, u64_param};
use crate::error::{ErrorModel, GenerationError};
use crate::generate::admits;
use crate::json::JsonValue;
use crate::number::{
    lemma_digit_count_bound, lemma_pow10_adds, lemma_pow10_positive, lemma_pow10_values, pow10,
    Number,
};
use crate::plan::{
    boolean_plan, bound_param, default_max, default_min, entry_plan, field_plan, fixed_steps,
    lemma_step_for, number_plan, precision_for, range_detail, step_for, threshold_of, FieldPlan,
};
use crate::registry::{effective_subtype, name_kind_of};
use crate::sampler::{record_outcome, shape_outcome, RecordShape, SampledRecord};
use crate::text::{
    lemma_int_text_parses, lemma_stepped_text_parses, parse_fixed, parse_int, stepped_text,
};

verus! {

/// Where every declared field has a plan under the document, sampling
/// succeeds, and the record holds exactly the declared fields, in their
/// order, one value each.
pub proof fn lemma_complete_record(
    document: Map<Seq<char>, JsonValue>,
    fields: Seq<String>,
    r: Result<SampledRecord, GenerationError>,
)
    requires
        record_outcome(document, fields, r),
        forall|i: int|
            0 <= i < fields.len() ==> (#[trigger] field_plan(document, fields[i]@)).is_ok(),
    ensures
        r.is_ok(),
        r.unwrap()@.len() == fields.len(),
        forall|i: int| 0 <= i < fields.len() ==> (#[trigger] r.unwrap()@[i]).0 == fields[i]@,
{
}

/// Where a declared field has no entry in the document, sampling fails and
/// hands out no record. Where it is the first field without a plan, the
/// failure is `MissingFieldConfig` and names that field.
pub proof fn lemma_missing_entry_fails(
    document: Map<Seq<char>, JsonValue>,
    fields: Seq<String>,
    r: Result<SampledRecord, GenerationError>,
    i: int,
)
    requires
        record_outcome(document, fields, r),
        0 <= i < fields.len(),
        !document.contains_key(fields[i]@),
    ensures
        r.is_err(),
        (forall|j: int| 0 <= j < i ==> (#[trigger] field_plan(document, fields[j]@)).is_ok())
            ==> r.unwrap_err()@ == (ErrorModel::MissingFieldConfig { field: fields[i]@ }),
{
    let missing = Err::<FieldPlan, ErrorModel>(
        ErrorModel::MissingFieldConfig { field: fields[i]@ },
    );
    assert(field_plan(document, fields[i]@) == missing);
    if r.is_ok() {
        assert(r.unwrap()@[i].0 == fields[i]@);
    } else if forall|j: int| 0 <= j < i ==> (#[trigger] field_plan(document, fields[j]@)).is_ok() {
        let first = choose|first: int|
            {
                &&& 0 <= first < fields.len()
                &&& #[trigger] field_plan(document, fields[first]@) == Err::<FieldPlan, ErrorModel>(
                    r.unwrap_err()@,
                )
                &&& forall|j: int|
                    0 <= j < first ==> (#[trigger] field_plan(document, fields[j]@)).is_ok()
            };
        if first < i {
            assert(field_plan(document, fields[first]@).is_ok());
        } else if i < first {
            assert(field_plan(document, fields[i]@).is_ok());
        }
    }
}

/// A field without a plan fails with a failure that names that field.
pub proof fn lemma_failure_names_field(
    document: Map<Seq<char>, JsonValue>,
    field: Seq<char>,
    e: ErrorModel,
)
    requires
        field_plan(document, field) == Err::<FieldPlan, ErrorModel>(e),
    ensures
        e.field() == Some(field),
{
}

/// A failed sampling call names one of the declared fields: the first one
/// without a plan.
pub proof fn lemma_failure_names_declared_field(
    document: Map<Seq<char>, JsonValue>,
    fields: Seq<String>,
    r: Result<SampledRecord, GenerationError>,
)
    requires
        record_outcome(document, fields, r),
        r.is_err(),
    ensures
        exists|i: int|
            0 <= i < fields.len() && r.unwrap_err()@.field() == Some(#[trigger] fields[i]@),
{
    let first = choose|first: int|
        {
            &&& 0 <= first < fields.len()
            &&& #[trigger] field_plan(document, fields[first]@) == Err::<FieldPlan, ErrorModel>(
                r.unwrap_err()@,
            )
            &&& forall|j: int|
                0 <= j < first ==> (#[trigger] field_plan(document, fields[j]@)).is_ok()
        };
    lemma_failure_names_field(document, fields[first]@, r.unwrap_err()@);
    assert(r.unwrap_err()@.field() == Some(fields[first]@));
}

/// Sampling fails with `UnsupportedRecordShape` exactly for a target that is
/// no record with named fields, whatever the document holds.
pub proof fn lemma_shape_failure(
    document: Map<Seq<char>, JsonValue>,
    shape: RecordShape,
    r: Result<SampledRecord, GenerationError>,
)
    requires
        shape_outcome(document, shape, r),
    ensures
        (r.is_err() && r.unwrap_err()@ == ErrorModel::UnsupportedRecordShape)
            <==> shape.named_fields().is_none(),
{
    if shape.named_fields().is_some() && r.is_err() {
        lemma_failure_names_declared_field(document, shape.named_fields().unwrap(), r);
    }
}

/// A whole number drawn under parameters reads back from its text as a
/// number between the bounds that the parameters give, both included.
pub proof fn lemma_integer_within_bounds(
    params: Map<Seq<char>, JsonValue>,
    field: Seq<char>,
    plan: FieldPlan,
    text: Seq<char>,
)
    requires
        !bool_param(params, "float"@, false),
        number_plan(params, field) == Ok::<FieldPlan, ErrorModel>(plan),
        admits(plan, text),
    ensures
        parse_int(text).is_some(),
        i64_param(params, "min"@, 0) <= parse_int(text).unwrap() <= i64_param(params, "max"@, 100),
{
    let min = i64_param(params, "min"@, 0);
    let max = i64_param(params, "max"@, 100);
    let k = choose|k: int| min <= k <= max && text == #[trigger] crate::text::int_text(k);
    lemma_int_text_parses(k);
}

/// The number that a text with `decimals` digits behind the point reads
/// back as, counted in units of `10^-decimals`: the text is an optional minus
/// sign, digits and, where digits behind the point are asked for, a point
/// and exactly that many digits.
pub open spec fn read_back(text: Seq<char>, decimals: nat) -> Option<int> {
    if decimals == 0 {
        parse_int(text)
    } else {
        parse_fixed(text, decimals)
    }
}

/// Whether `text`, with `decimals` digits behind the point, reads back as
/// `k * 10^step`.
pub open spec fn reads_as_steps(text: Seq<char>, k: int, step: int, decimals: nat) -> bool {
    read_back(text, decimals) == Some(k * pow10((decimals + step) as nat))
}

/// The `number` family has a plan exactly where its bounds are in order: with
/// `float` set as the numbers that they are, without it cut to whole numbers.
/// Where they cross, the failure is `InvalidParams` and names the field.
pub proof fn lemma_number_plan_exists(params: Map<Seq<char>, JsonValue>, field: Seq<char>)
    ensures
        number_plan(params, field).is_ok() <==> if bool_param(params, "float"@, false) {
            !bound_param(params, "max"@, default_max()).less_than(
                bound_param(params, "min"@, default_min()),
            )
        } else {
            i64_param(params, "min"@, 0) <= i64_param(params, "max"@, 100)
        },
        number_plan(params, field).is_err() ==> number_plan(params, field) == Err::<
            FieldPlan,
            ErrorModel,
        >(ErrorModel::InvalidParams { field, detail: range_detail() }),
{
}

/// Fractional bounds in order always leave a step to draw: the steps that
/// they give are in order themselves.
pub proof fn lemma_steps_exist(min: Number, max: Number, step: int)
    requires
        !max.less_than(min),
    ensures
        fixed_steps(min, max, step).0 <= fixed_steps(min, max, step).1,
{
    Number::lemma_nearest_in_order(min, max, -step);
}

/// A fractional number drawn under parameters is a whole number of steps
/// `k` out of those that the bounds give, and its text has the form of an
/// optional minus sign, digits and, where digits behind the point are asked
/// for, a point and exactly that many digits: it reads back as `k` steps.
pub proof fn lemma_fixed_form(
    params: Map<Seq<char>, JsonValue>,
    field: Seq<char>,
    plan: FieldPlan,
    text: Seq<char>,
)
    requires
        bool_param(params, "float"@, false),
        number_plan(params, field) == Ok::<FieldPlan, ErrorModel>(plan),
        admits(plan, text),
    ensures
        read_back(text, u64_param(params, "decimals"@, 2) as nat).is_some(),
        exists|k: int|
            {
                &&& #[trigger] reads_as_steps(
                    text,
                    k,
                    step_of(params),
                    u64_param(params, "decimals"@, 2) as nat,
                )
                &&& fixed_steps(
                    bound_param(params, "min"@, default_min()),
                    bound_param(params, "max"@, default_max()),
                    step_of(params),
                ).0 <= k
                &&& k <= fixed_steps(
                    bound_param(params, "min"@, default_min()),
                    bound_param(params, "max"@, default_max()),
                    step_of(params),
                ).1
            },
{
    let decimals = u64_param(params, "decimals"@, 2);
    let min = bound_param(params, "min"@, default_min());
    let max = bound_param(params, "max"@, default_max());
    let step = step_of(params);
    let steps = fixed_steps(min, max, step);
    lemma_step_for(min, max, decimals);
    min.lemma_fits_from_step(step);
    max.lemma_fits_from_step(step);
    let k = choose|k: int|
        steps.0 <= k <= steps.1 && text == #[trigger] stepped_text(k, step, decimals as nat);
    lemma_stepped_text_parses(k, step, decimals as nat);
    assert(reads_as_steps(text, k, step, decimals as nat));
}

/// The exponent of ten of one step under the given parameters.
pub open spec fn step_of(params: Map<Seq<char>, JsonValue>) -> int {
    step_for(
        bound_param(params, "min"@, default_min()),
        bound_param(params, "max"@, default_max()),
        precision_for(u64_param(params, "decimals"@, 2)),
    )
}

/// Where a step lies between the bounds, a fractional number drawn under the
/// parameters is a whole number of steps `k` with `k * 10^step` between the
/// bounds, both included.
pub proof fn lemma_fixed_value(
    params: Map<Seq<char>, JsonValue>,
    field: Seq<char>,
    plan: FieldPlan,
    text: Seq<char>,
)
    requires
        bool_param(params, "float"@, false),
        number_plan(params, field) == Ok::<FieldPlan, ErrorModel>(plan),
        admits(plan, text),
        bound_param(params, "min"@, default_min()).scaled_ceil(-step_of(params)) <= bound_param(
            params,
            "max"@,
            default_max(),
        ).scaled_floor(-step_of(params)),
    ensures
        exists|k: int|
            {
                &&& #[trigger] reads_as_steps(
                    text,
                    k,
                    step_of(params),
                    u64_param(params, "decimals"@, 2) as nat,
                )
                &&& bound_param(params, "min"@, default_min()).at_most(k, -step_of(params))
                &&& bound_param(params, "max"@, default_max()).at_least(k, -step_of(params))
            },
{
    let decimals = u64_param(params, "decimals"@, 2) as nat;
    let min = bound_param(params, "min"@, default_min());
    let max = bound_param(params, "max"@, default_max());
    let step = step_of(params);
    lemma_fixed_form(params, field, plan, text);
    let k = choose|k: int|
        {
            &&& #[trigger] reads_as_steps(text, k, step, decimals)
            &&& fixed_steps(min, max, step).0 <= k
            &&& k <= fixed_steps(min, max, step).1
        };
    min.lemma_ceil_is_least(-step, k);
    max.lemma_floor_is_greatest(-step, k);
}

/// Where one of the bounds has no more digits behind the point than are
/// drawn, as with bounds of two digits there and two digits asked for, a
/// fractional number drawn under the parameters reads back from its text as
/// a number between the bounds, both included. This holds of bounds of any
/// size.
pub proof fn lemma_fixed_within_bounds(
    params: Map<Seq<char>, JsonValue>,
    field: Seq<char>,
    plan: FieldPlan,
    text: Seq<char>,
)
    requires
        bool_param(params, "float"@, false),
        bound_param(params, "min"@, default_min()).scales_exactly(
            precision_for(u64_param(params, "decimals"@, 2)) as int,
        ) || bound_param(params, "max"@, default_max()).scales_exactly(
            precision_for(u64_param(params, "decimals"@, 2)) as int,
        ),
        number_plan(params, field) == Ok::<FieldPlan, ErrorModel>(plan),
        admits(plan, text),
    ensures
        read_back(text, u64_param(params, "decimals"@, 2) as nat).is_some(),
        bound_param(params, "min"@, default_min()).at_most(
            read_back(text, u64_param(params, "decimals"@, 2) as nat).unwrap(),
            u64_param(params, "decimals"@, 2) as int,
        ),
        bound_param(params, "max"@, default_max()).at_least(
            read_back(text, u64_param(params, "decimals"@, 2) as nat).unwrap(),
            u64_param(params, "decimals"@, 2) as int,
        ),
{
    let decimals = u64_param(params, "decimals"@, 2);
    let min = bound_param(params, "min"@, default_min());
    let max = bound_param(params, "max"@, default_max());
    let step = step_of(params);
    lemma_step_for(min, max, decimals);
    if step > -(precision_for(decimals) as int) {
        // the bound that asks for the coarser step is a whole number of steps
        lemma_pow10_values();
        lemma_digit_count_bound(min.mantissa as nat, 20);
        lemma_digit_count_bound(max.mantissa as nat, 20);
        if step == min.least_step() {
            assert(min.scales_exactly(-step));
        } else {
            assert(max.scales_exactly(-step));
        }
    }
    Number::lemma_steps_in_order(min, max, -step);
    lemma_fixed_value(params, field, plan, text);
    let k = choose|k: int|
        {
            &&& #[trigger] reads_as_steps(text, k, step, decimals as nat)
            &&& min.at_most(k, -step)
            &&& max.at_least(k, -step)
        };
    min.lemma_order_rescaled(k, -step, (decimals + step) as nat);
    max.lemma_order_rescaled(k, -step, (decimals + step) as nat);
}

/// A truth value drawn under a probability of one or more is always `true`;
/// under a probability of zero or less it is always `false`.
pub proof fn lemma_certain_boolean(params: Map<Seq<char>, JsonValue>, text: Seq<char>)
    requires
        number_param(params, "true_probability"@).is_some(),
        admits(boolean_plan(params), text),
    ensures
        number_param(params, "true_probability"@).unwrap().at_least(1, 0) ==> text == "true"@,
        number_param(params, "true_probability"@).unwrap().signed() <= 0 ==> text == "false"@,
{
    let p = number_param(params, "true_probability"@).unwrap();
    lemma_pow10_values();
    if p.at_least(1, 0) {
        lemma_threshold_of_one(p);
    }
    if p.signed() <= 0 {
        lemma_threshold_of_zero(p);
    }
}

/// A probability of one or more gives the whole scale as threshold.
pub proof fn lemma_threshold_of_one(p: Number)
    requires
        p.at_least(1, 0),
    ensures
        threshold_of(p) == pow10(18),
{
    let base = if p.exponent <= -18 {
        p.exponent as int
    } else {
        -18
    };
    p.lemma_order_over_base(1, 0, base);
    p.lemma_order_over_base(pow10(18) as int, 18, base);
    lemma_pow10_adds(18, (-18 - base) as nat);
    assert((0 - base) as nat == 18 + (-18 - base) as nat);
    assert(1 * pow10((0 - base) as nat) == pow10((0 - base) as nat));
    p.lemma_floor_is_greatest(18, pow10(18) as int);
}

/// A probability of zero or less gives the threshold zero.
pub proof fn lemma_threshold_of_zero(p: Number)
    requires
        p.signed() <= 0,
    ensures
        threshold_of(p) == 0,
{
    let s = p.exponent + 18;
    p.lemma_floor_is_greatest(18, 1);
    if s >= 0 {
        lemma_pow10_positive(s as nat);
        assert(p.signed() * pow10(s as nat) <= 0) by (nonlinear_arith)
            requires
                p.signed() <= 0,
                pow10(s as nat) > 0,
        ;
    } else {
        lemma_pow10_positive((-s) as nat);
        assert(1 * pow10((-s) as nat) > 0);
    }
}

/// An entry of the `name` family has a plan exactly if its subtype, or the
/// default `name` where it gives none, is one of the six corpora; a value
/// drawn under that plan is never empty. Any other subtype fails with
/// `UnsupportedSubtype`, which names the field, the family and the subtype.
pub proof fn lemma_name_subtypes(entry: Map<Seq<char>, JsonValue>, field: Seq<char>)
    requires
        family_of(entry) == Some("name"@),
    ensures
        match name_kind_of(effective_subtype(given_subtype(entry))) {
            Some(kind) => entry_plan(entry, field) == Ok::<FieldPlan, ErrorModel>(
                FieldPlan::Name(kind),
            ) && forall|text: Seq<char>| #[trigger]
                admits(FieldPlan::Name(kind), text) ==> text.len() > 0,
            None => entry_plan(entry, field) == Err::<FieldPlan, ErrorModel>(
                ErrorModel::UnsupportedSubtype {
                    field,
                    family: "name"@,
                    subtype: effective_subtype(given_subtype(entry)),
                },
            ),
        },
{
}

/// Whole-number bounds that cross, the lower one above the upper one, make
/// the parameters invalid: no plan, and so no value, comes of them.
pub proof fn lemma_crossed_integer_bounds(params: Map<Seq<char>, JsonValue>, field: Seq<char>)
    requires
        !bool_param(params, "float"@, false),
        i64_param(params, "min"@, 0) > i64_param(params, "max"@, 100),
    ensures
        number_plan(params, field) == Err::<FieldPlan, ErrorModel>(
            ErrorModel::InvalidParams { field, detail: range_detail() },
        ),
{
}

/// Fractional bounds that cross, the lower one above the upper one, make the
/// parameters invalid, whatever number of digits is asked for.
pub proof fn lemma_crossed_fixed_bounds(params: Map<Seq<char>, JsonValue>, field: Seq<char>)
    requires
        bool_param(params, "float"@, false),
        bound_param(params, "max"@, default_max()).less_than(
            bound_param(params, "min"@, default_min()),
        ),
    ensures
        number_plan(params, field) == Err::<FieldPlan, ErrorModel>(
            ErrorModel::InvalidParams { field, detail: range_detail() },
        ),
{
}

} // verus!
