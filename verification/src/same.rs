//! Value equality of wire records, comparing strings and byte strings by content.
use vstd::prelude::*;
use crate::math::{same_value, strings_eq, u32s_eq, value_eq};
use crate::types::{
    digest_eq, BackendKind, Binding, CompiledSchema, DecisionRequest, Diagnostics, Digest, Error,
    EvaluationOutcome,
    OptionDef, Receipt, Schema, SpecialTokens, Stamp,
};
use crate::workflow::{Plan, RequiredSignal, Rule};

verus! {

pub open spec fn option_same(a: OptionDef, b: OptionDef) -> bool {
    a.id@ == b.id@ && a.text@ == b.text@
}

pub open spec fn options_same(a: Seq<OptionDef>, b: Seq<OptionDef>) -> bool {
    a.len() == b.len() && forall|i: int| 0 <= i < a.len() ==> #[trigger] option_same(a[i], b[i])
}

pub open spec fn schema_same(a: Schema, b: Schema) -> bool {
    &&& a.id@ == b.id@ && a.version == b.version && a.primitive == b.primitive
    &&& a.instructions@ == b.instructions@ && options_same(a.options@, b.options@)
}

pub open spec fn special_same(a: SpecialTokens, b: SpecialTokens) -> bool {
    &&& a.cls == b.cls && a.sep == b.sep && a.mask == b.mask && a.pad == b.pad
    &&& a.literals@.len() == b.literals@.len()
    &&& forall|i: int| 0 <= i < a.literals@.len() ==> #[trigger] a.literals@[i]@ == b.literals@[i]@
}

pub open spec fn compiled_same(a: CompiledSchema, b: CompiledSchema) -> bool {
    &&& schema_same(a.schema, b.schema) && a.schema_hash@ == b.schema_hash@
    &&& a.tokenizer_hash@ == b.tokenizer_hash@ && a.prefix@ == b.prefix@ && a.markers@ == b.markers@
    &&& special_same(a.special, b.special) && a.qtype_id == b.qtype_id
}

pub open spec fn rule_same(a: Rule, b: Rule) -> bool {
    match (a, b) {
        (Rule::NoulTrue { minimum_ppm: x }, Rule::NoulTrue { minimum_ppm: y }) => x == y,
        (Rule::ChoiceIs { option_id: i, minimum_ppm: x }, Rule::ChoiceIs { option_id: j, minimum_ppm: y }) =>
            i@ == j@ && x == y,
        (
            Rule::ScoreTailAtMost { first_bad_bin: f, maximum_ppm: x },
            Rule::ScoreTailAtMost { first_bad_bin: g, maximum_ppm: y },
        ) => f == g && x == y,
        _ => false,
    }
}

pub open spec fn signal_same(a: RequiredSignal, b: RequiredSignal) -> bool {
    compiled_same(a.schema, b.schema) && a.calibration@ == b.calibration@ && rule_same(a.rule, b.rule)
}

/// Two plans with the same content.
pub open spec fn plan_same(a: Plan, b: Plan) -> bool {
    &&& a.id@ == b.id@ && a.version == b.version && a.model@ == b.model@
    &&& a.signals@.len() == b.signals@.len()
    &&& forall|i: int| 0 <= i < a.signals@.len() ==> #[trigger] signal_same(a.signals@[i], b.signals@[i])
}

fn options_eq(a: &Vec<OptionDef>, b: &Vec<OptionDef>) -> (r: bool)
    ensures
        r == options_same(a@, b@),
{
    if a.len() != b.len() {
        return false;
    }
    let mut i: usize = 0;
    while i < a.len()
        invariant
            i <= a@.len(),
            a@.len() == b@.len(),
            forall|k: int| 0 <= k < i ==> #[trigger] option_same(a@[k], b@[k]),
        decreases a@.len() - i,
    {
        if !(a[i].id == b[i].id) || !(a[i].text == b[i].text) {
            assert(!option_same(a@[i as int], b@[i as int]));
            return false;
        }
        i = i + 1;
    }
    true
}

fn schema_eq(a: &Schema, b: &Schema) -> (r: bool)
    ensures
        r == schema_same(*a, *b),
{
    a.id == b.id && a.version == b.version && a.primitive.is(b.primitive)
        && a.instructions == b.instructions && options_eq(&a.options, &b.options)
}

fn special_eq(a: &SpecialTokens, b: &SpecialTokens) -> (r: bool)
    ensures
        r == special_same(*a, *b),
{
    a.cls == b.cls && a.sep == b.sep && a.mask == b.mask && a.pad == b.pad && strings_eq(
        &a.literals,
        &b.literals,
    )
}

pub fn compiled_eq(a: &CompiledSchema, b: &CompiledSchema) -> (r: bool)
    ensures
        r == compiled_same(*a, *b),
{
    schema_eq(&a.schema, &b.schema) && digest_eq(&a.schema_hash, &b.schema_hash) && digest_eq(
        &a.tokenizer_hash,
        &b.tokenizer_hash,
    ) && u32s_eq(&a.prefix, &b.prefix) && u32s_eq(&a.markers, &b.markers) && special_eq(
        &a.special,
        &b.special,
    ) && a.qtype_id == b.qtype_id
}

fn rule_eq(a: &Rule, b: &Rule) -> (r: bool)
    ensures
        r == rule_same(*a, *b),
{
    match (a, b) {
        (Rule::NoulTrue { minimum_ppm: x }, Rule::NoulTrue { minimum_ppm: y }) => *x == *y,
        (Rule::ChoiceIs { option_id: i, minimum_ppm: x }, Rule::ChoiceIs { option_id: j, minimum_ppm: y }) =>
            *i == *j && *x == *y,
        (
            Rule::ScoreTailAtMost { first_bad_bin: f, maximum_ppm: x },
            Rule::ScoreTailAtMost { first_bad_bin: g, maximum_ppm: y },
        ) => *f == *g && *x == *y,
        _ => false,
    }
}

/// Content equality of two plans.
pub fn plan_eq(a: &Plan, b: &Plan) -> (r: bool)
    ensures
        r == plan_same(*a, *b),
{
    if !digest_eq(&a.id, &b.id) || a.version != b.version || !digest_eq(&a.model, &b.model)
        || a.signals.len() != b.signals.len() {
        return false;
    }
    let mut i: usize = 0;
    while i < a.signals.len()
        invariant
            i <= a.signals@.len(),
            a.signals@.len() == b.signals@.len(),
            forall|k: int| 0 <= k < i ==> #[trigger] signal_same(a.signals@[k], b.signals@[k]),
        decreases a.signals@.len() - i,
    {
        let x = &a.signals[i];
        let y = &b.signals[i];
        if !compiled_eq(&x.schema, &y.schema) || !digest_eq(&x.calibration, &y.calibration) || !rule_eq(
            &x.rule,
            &y.rule,
        ) {
            assert(!signal_same(a.signals@[i as int], b.signals@[i as int]));
            return false;
        }
        i = i + 1;
    }
    true
}


/// Two errors of the same kind with the same text.
pub open spec fn error_same(a: Error, b: Error) -> bool {
    match (a, b) {
        (Error::Invalid(x), Error::Invalid(y)) => x@ == y@,
        (Error::ModelUnavailable(x), Error::ModelUnavailable(y)) => x@ == y@,
        (Error::Denied(x), Error::Denied(y)) => x@ == y@,
        (Error::Invalid(_), _) | (Error::ModelUnavailable(_), _) | (Error::Denied(_), _) => false,
        (_, Error::Invalid(_)) | (_, Error::ModelUnavailable(_)) | (_, Error::Denied(_)) => false,
        _ => a == b,
    }
}

pub fn error_eq(a: &Error, b: &Error) -> (r: bool)
    ensures
        r == error_same(*a, *b),
{
    match (a, b) {
        (Error::Invalid(x), Error::Invalid(y)) => *x == *y,
        (Error::ModelUnavailable(x), Error::ModelUnavailable(y)) => *x == *y,
        (Error::Denied(x), Error::Denied(y)) => *x == *y,
        (Error::Invalid(_), _) | (Error::ModelUnavailable(_), _) | (Error::Denied(_), _) => false,
        (_, Error::Invalid(_)) | (_, Error::ModelUnavailable(_)) | (_, Error::Denied(_)) => false,
        (Error::Unauthorized, Error::Unauthorized) | (Error::TooLong, Error::TooLong)
        | (Error::NotFound, Error::NotFound) | (Error::BindingMismatch, Error::BindingMismatch)
        | (Error::Expired, Error::Expired) | (Error::IdConflict, Error::IdConflict)
        | (Error::Capacity, Error::Capacity) | (Error::Numeric, Error::Numeric)
        | (Error::Uncalibrated, Error::Uncalibrated) | (Error::Busy, Error::Busy)
        | (Error::Transition, Error::Transition) | (Error::NonceConsumed, Error::NonceConsumed)
        | (Error::NonceGap, Error::NonceGap) | (Error::OperationUsed, Error::OperationUsed)
        | (Error::Budget, Error::Budget) | (Error::Stale, Error::Stale)
        | (Error::ReportOnly, Error::ReportOnly) | (Error::LiveDisabled, Error::LiveDisabled)
        | (Error::OutcomeUnknown, Error::OutcomeUnknown) | (Error::Storage, Error::Storage) => true,
        _ => false,
    }
}

pub open spec fn binding_same(a: Option<Binding>, b: Option<Binding>) -> bool {
    match (a, b) {
        (Some(x), Some(y)) => x.workflow@ == y.workflow@ && x.slot == y.slot && x.attempt == y.attempt
            && x.snapshot@ == y.snapshot@,
        (None, None) => true,
        _ => false,
    }
}

pub fn binding_eq(a: &Option<Binding>, b: &Option<Binding>) -> (r: bool)
    ensures
        r == binding_same(*a, *b),
{
    match (a, b) {
        (Some(x), Some(y)) => digest_eq(&x.workflow, &y.workflow) && x.slot == y.slot && x.attempt
            == y.attempt && digest_eq(&x.snapshot, &y.snapshot),
        (None, None) => true,
        _ => false,
    }
}

pub open spec fn opt_digest_same(a: Option<Digest>, b: Option<Digest>) -> bool {
    match (a, b) {
        (Some(x), Some(y)) => x@ == y@,
        (None, None) => true,
        _ => false,
    }
}

pub fn opt_digest_eq(a: &Option<Digest>, b: &Option<Digest>) -> (r: bool)
    ensures
        r == opt_digest_same(*a, *b),
{
    match (a, b) {
        (Some(x), Some(y)) => digest_eq(x, y),
        (None, None) => true,
        _ => false,
    }
}

pub open spec fn stamp_same(a: Stamp, b: Stamp) -> bool {
    &&& a.evaluation_id@ == b.evaluation_id@ && a.schema_hash@ == b.schema_hash@
    &&& a.tokenizer_hash@ == b.tokenizer_hash@ && a.model@ == b.model@
    &&& opt_digest_same(a.calibration, b.calibration) && binding_same(a.binding, b.binding)
    &&& a.state_hash@ == b.state_hash@ && a.profile@ == b.profile@ && a.backend == b.backend
}

pub fn stamp_eq(a: &Stamp, b: &Stamp) -> (r: bool)
    ensures
        r == stamp_same(*a, *b),
{
    digest_eq(&a.evaluation_id, &b.evaluation_id) && digest_eq(&a.schema_hash, &b.schema_hash)
        && digest_eq(&a.tokenizer_hash, &b.tokenizer_hash) && digest_eq(&a.model, &b.model)
        && opt_digest_eq(&a.calibration, &b.calibration) && binding_eq(&a.binding, &b.binding)
        && digest_eq(&a.state_hash, &b.state_hash) && a.profile == b.profile && match (a.backend, b.backend) {
        (BackendKind::Checkpoint, BackendKind::Checkpoint) => true,
        (BackendKind::SyntheticFixture, BackendKind::SyntheticFixture) => true,
        _ => false,
    }
}

pub open spec fn outcome_same(a: EvaluationOutcome, b: EvaluationOutcome) -> bool {
    match (a, b) {
        (EvaluationOutcome::Assessed(x), EvaluationOutcome::Assessed(y)) => same_value(x, y),
        (EvaluationOutcome::Abstained(x), EvaluationOutcome::Abstained(y)) => x@ == y@,
        (EvaluationOutcome::Error(x), EvaluationOutcome::Error(y)) => error_same(x, y),
        _ => false,
    }
}

/// Two receipts with the same content.
pub open spec fn receipt_same(a: Receipt, b: Receipt) -> bool {
    &&& stamp_same(a.stamp, b.stamp) && outcome_same(a.outcome, b.outcome)
    &&& a.diagnostics == b.diagnostics && a.input_tokens == b.input_tokens
    &&& a.measured_instructions == b.measured_instructions
}

pub fn diagnostics_eq(a: &Option<Diagnostics>, b: &Option<Diagnostics>) -> (r: bool)
    ensures
        r == (*a == *b),
{
    match (a, b) {
        (Some(x), Some(y)) => x.top1_ppm == y.top1_ppm && x.margin_ppm == y.margin_ppm && x.tied == y.tied,
        (None, None) => true,
        _ => false,
    }
}

pub fn receipt_eq(a: &Receipt, b: &Receipt) -> (r: bool)
    ensures
        r == receipt_same(*a, *b),
{
    let o = match (&a.outcome, &b.outcome) {
        (EvaluationOutcome::Assessed(x), EvaluationOutcome::Assessed(y)) => value_eq(x, y),
        (EvaluationOutcome::Abstained(x), EvaluationOutcome::Abstained(y)) => *x == *y,
        (EvaluationOutcome::Error(x), EvaluationOutcome::Error(y)) => error_eq(x, y),
        _ => false,
    };
    stamp_eq(&a.stamp, &b.stamp) && o && diagnostics_eq(&a.diagnostics, &b.diagnostics)
        && a.input_tokens == b.input_tokens && a.measured_instructions == b.measured_instructions
}


/// A copy of an error with the same kind and text.
pub fn copy_error(e: &Error) -> (c: Error)
    ensures
        error_same(c, *e),
{
    match e {
        Error::Invalid(m) => Error::Invalid(m.clone()),
        Error::ModelUnavailable(m) => Error::ModelUnavailable(m.clone()),
        Error::Denied(m) => Error::Denied(m.clone()),
        Error::Unauthorized => Error::Unauthorized,
        Error::TooLong => Error::TooLong,
        Error::NotFound => Error::NotFound,
        Error::BindingMismatch => Error::BindingMismatch,
        Error::Expired => Error::Expired,
        Error::IdConflict => Error::IdConflict,
        Error::Capacity => Error::Capacity,
        Error::Numeric => Error::Numeric,
        Error::Uncalibrated => Error::Uncalibrated,
        Error::Busy => Error::Busy,
        Error::Transition => Error::Transition,
        Error::NonceConsumed => Error::NonceConsumed,
        Error::NonceGap => Error::NonceGap,
        Error::OperationUsed => Error::OperationUsed,
        Error::Budget => Error::Budget,
        Error::Stale => Error::Stale,
        Error::ReportOnly => Error::ReportOnly,
        Error::LiveDisabled => Error::LiveDisabled,
        Error::OutcomeUnknown => Error::OutcomeUnknown,
        Error::Storage => Error::Storage,
    }
}

pub open spec fn request_same(a: DecisionRequest, b: DecisionRequest) -> bool {
    &&& a.evaluation_id@ == b.evaluation_id@ && a.schema_hash@ == b.schema_hash@ && a.model@ == b.model@
    &&& opt_digest_same(a.calibration, b.calibration) && binding_same(a.binding, b.binding)
    &&& a.state@ == b.state@ && a.expires_at_ns == b.expires_at_ns
}

pub fn copy_request(a: &DecisionRequest) -> (c: DecisionRequest)
    ensures
        request_same(c, *a),
{
    DecisionRequest {
        evaluation_id: a.evaluation_id,
        schema_hash: a.schema_hash,
        model: a.model,
        calibration: match &a.calibration {
            Some(x) => Some(*x),
            None => None,
        },
        binding: match &a.binding {
            Some(b) => Some(Binding { workflow: b.workflow, slot: b.slot, attempt: b.attempt, snapshot: b.snapshot }),
            None => None,
        },
        state: a.state.clone(),
        expires_at_ns: a.expires_at_ns,
    }
}


fn copy_options(v: &Vec<OptionDef>) -> (c: Vec<OptionDef>)
    ensures
        options_same(c@, v@),
{
    let mut c: Vec<OptionDef> = Vec::new();
    let mut i: usize = 0;
    while i < v.len()
        invariant
            i <= v@.len(),
            c@.len() == i,
            forall|j: int| 0 <= j < i ==> #[trigger] option_same(c@[j], v@[j]),
        decreases v@.len() - i,
    {
        c.push(OptionDef { id: v[i].id.clone(), text: v[i].text.clone() });
        i = i + 1;
    }
    c
}

fn copy_strings_same(v: &Vec<String>) -> (c: Vec<String>)
    ensures
        c@.len() == v@.len(),
        forall|j: int| 0 <= j < v@.len() ==> #[trigger] c@[j]@ == v@[j]@,
{
    let mut c: Vec<String> = Vec::new();
    let mut i: usize = 0;
    while i < v.len()
        invariant
            i <= v@.len(),
            c@.len() == i,
            forall|j: int| 0 <= j < i ==> #[trigger] c@[j]@ == v@[j]@,
        decreases v@.len() - i,
    {
        c.push(v[i].clone());
        i = i + 1;
    }
    c
}

fn copy_ids(v: &Vec<u32>) -> (c: Vec<u32>)
    ensures
        c@ == v@,
{
    let mut c: Vec<u32> = Vec::new();
    let mut i: usize = 0;
    while i < v.len()
        invariant
            i <= v@.len(),
            c@ == v@.subrange(0, i as int),
        decreases v@.len() - i,
    {
        c.push(v[i]);
        assert(v@.subrange(0, i + 1) =~= v@.subrange(0, i as int).push(v@[i as int]));
        i = i + 1;
    }
    assert(v@.subrange(0, v@.len() as int) =~= v@);
    c
}

/// A copy of a compiled schema with the same content.
/// A copy of a schema with the same content.
pub fn copy_schema(a: &Schema) -> (c: Schema)
    ensures
        schema_same(c, *a),
{
    Schema {
        id: a.id.clone(),
        version: a.version,
        primitive: a.primitive,
        instructions: a.instructions.clone(),
        options: copy_options(&a.options),
    }
}

pub fn copy_compiled(a: &CompiledSchema) -> (c: CompiledSchema)
    ensures
        compiled_same(c, *a),
        c.schema_hash == a.schema_hash && c.tokenizer_hash == a.tokenizer_hash,
{
    CompiledSchema {
        schema: Schema {
            id: a.schema.id.clone(),
            version: a.schema.version,
            primitive: a.schema.primitive,
            instructions: a.schema.instructions.clone(),
            options: copy_options(&a.schema.options),
        },
        schema_hash: a.schema_hash,
        tokenizer_hash: a.tokenizer_hash,
        prefix: copy_ids(&a.prefix),
        markers: copy_ids(&a.markers),
        special: SpecialTokens {
            cls: a.special.cls,
            sep: a.special.sep,
            mask: a.special.mask,
            pad: a.special.pad,
            literals: copy_strings_same(&a.special.literals),
        },
        qtype_id: a.qtype_id,
    }
}


/// A copy of a stamp with the same content.
pub fn copy_stamp(s: &Stamp) -> (c: Stamp)
    ensures
        stamp_same(c, *s),
        c.backend == s.backend,
{
    Stamp {
        evaluation_id: s.evaluation_id,
        schema_hash: s.schema_hash,
        tokenizer_hash: s.tokenizer_hash,
        model: s.model,
        calibration: match &s.calibration {
            Some(x) => Some(*x),
            None => None,
        },
        binding: match &s.binding {
            Some(b) => Some(Binding { workflow: b.workflow, slot: b.slot, attempt: b.attempt, snapshot: b.snapshot }),
            None => None,
        },
        state_hash: s.state_hash,
        profile: s.profile.clone(),
        backend: s.backend,
    }
}

} // verus!
