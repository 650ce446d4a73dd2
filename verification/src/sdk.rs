//! Schema-checked typed views of receipts. A typed decision reads a receipt
//! only after checking it against the compiled schema, the expected stamp and
//! the schema type; no typed decision is an authorization capability.
use vstd::prelude::*;
use std::marker::PhantomData;
use crate::math::{diag_of, Distribution, mass_sum, level_sum, validate_value};
use crate::same::{copy_error, copy_stamp, diagnostics_eq, error_same, stamp_eq, stamp_same};
use crate::text::str_eq;
use crate::types::{
    digest_eq, CompiledSchema, DecisionValue, Error, EvaluationOutcome, Primitive, Receipt, Stamp, PROFILE,
};
use crate::workflow::value_checks;

verus! {

/// A decision schema known at compile time: its id, version, primitive and
/// option ids in order.
pub trait DecisionSchema {
    const ID: &'static str;
    const VERSION: u64;
    const PRIMITIVE: Primitive;
    const OPTIONS: &'static [&'static str];
}

/// A choice schema whose option ids decode to a typed value.
pub trait ChoiceSchema: DecisionSchema {
    type Value;

    spec fn spec_decode(id: Seq<char>) -> Option<Self::Value>;

    fn decode_option(id: &str) -> (r: Option<Self::Value>)
        ensures
            r == Self::spec_decode(id@),
    ;
}

/// The compiled schema is the one the type names, for primitive `kind`.
pub open spec fn schema_matches<T: DecisionSchema>(schema: CompiledSchema, kind: Primitive) -> bool {
    &&& schema.schema.id@ == T::ID@ && schema.schema.version == T::VERSION
    &&& T::PRIMITIVE == kind && schema.schema.primitive == kind
    &&& schema.schema.options@.len() == T::OPTIONS@.len()
    &&& forall|i: int| 0 <= i < T::OPTIONS@.len() ==> #[trigger] schema.schema.options@[i].id@ == T::OPTIONS@[i]@
}

/// The receipt carries the expected stamp, bound to the compiled schema and
/// the current profile.
pub open spec fn stamp_matches<T: DecisionSchema>(schema: CompiledSchema, r: Receipt, expected: Stamp) -> bool {
    &&& stamp_same(r.stamp, expected)
    &&& r.stamp.schema_hash@ == schema.schema_hash@ && r.stamp.tokenizer_hash@ == schema.tokenizer_hash@
    &&& r.stamp.profile@ == PROFILE@
}

/// Everything `try_from_receipt` checks.
pub open spec fn typed_ok<T: DecisionSchema>(schema: CompiledSchema, r: Receipt, expected: Stamp, kind: Primitive) -> bool {
    &&& schema_matches::<T>(schema, kind)
    &&& stamp_matches::<T>(schema, r, expected)
    &&& r.outcome matches EvaluationOutcome::Assessed(v)
    &&& value_checks(schema.schema, r.outcome->Assessed_0)
    &&& r.diagnostics matches Some(dg) && diag_of(r.outcome->Assessed_0.spec_masses(), dg)
}

/// The error a rejected receipt gets.
pub open spec fn typed_error<T: DecisionSchema>(schema: CompiledSchema, r: Receipt, expected: Stamp, kind: Primitive, e: Error) -> bool {
    if !schema_matches::<T>(schema, kind) || !stamp_matches::<T>(schema, r, expected) {
        e == Error::BindingMismatch
    } else {
        match r.outcome {
            EvaluationOutcome::Abstained(_) => e == Error::Uncalibrated,
            EvaluationOutcome::Error(x) => error_same(e, x),
            EvaluationOutcome::Assessed(_) => e == Error::BindingMismatch || e == Error::Numeric,
        }
    }
}

fn options_match<T: DecisionSchema>(schema: &CompiledSchema) -> (r: bool)
    ensures
        r == (schema.schema.options@.len() == T::OPTIONS@.len() && forall|i: int|
            0 <= i < T::OPTIONS@.len() ==> #[trigger] schema.schema.options@[i].id@ == T::OPTIONS@[i]@),
{
    let opts = &schema.schema.options;
    if opts.len() != T::OPTIONS.len() {
        return false;
    }
    let mut i: usize = 0;
    while i < opts.len()
        invariant
            i <= opts@.len(),
            opts@.len() == T::OPTIONS@.len(),
            *opts == schema.schema.options,
            forall|k: int| 0 <= k < i ==> #[trigger] schema.schema.options@[k].id@ == T::OPTIONS@[k]@,
        decreases opts@.len() - i,
    {
        if !str_eq(opts[i].id.as_str(), T::OPTIONS[i]) {
            return false;
        }
        i = i + 1;
    }
    true
}

fn checked<T: DecisionSchema>(schema: &CompiledSchema, r: &Receipt, expected: &Stamp, kind: Primitive) -> (res: Result<Distribution, Error>)
    ensures
        res is Ok <==> typed_ok::<T>(*schema, *r, *expected, kind),
        res matches Ok(d) ==> d@ == r.outcome->Assessed_0.spec_masses(),
        res matches Err(e) ==> typed_error::<T>(*schema, *r, *expected, kind, e),
{
    if !str_eq(schema.schema.id.as_str(), T::ID) || schema.schema.version != T::VERSION || !T::PRIMITIVE.is(kind)
        || !schema.schema.primitive.is(kind) || !options_match::<T>(schema) || !stamp_eq(&r.stamp, expected)
        || !digest_eq(&r.stamp.schema_hash, &schema.schema_hash)
        || !digest_eq(&r.stamp.tokenizer_hash, &schema.tokenizer_hash) || !str_eq(r.stamp.profile.as_str(), PROFILE) {
        return Err(Error::BindingMismatch);
    }
    let v = match &r.outcome {
        EvaluationOutcome::Assessed(v) => v,
        EvaluationOutcome::Abstained(_) => return Err(Error::Uncalibrated),
        EvaluationOutcome::Error(e) => return Err(copy_error(e)),
    };
    let d = validate_value(&schema.schema, v)?;
    let dg = Some(d.diagnostics());
    if !diagnostics_eq(&r.diagnostics, &dg) {
        proof {
            if r.diagnostics is Some && diag_of(v.spec_masses(), r.diagnostics->0) {
                crate::math::lemma_diag_unique(v.spec_masses(), r.diagnostics->0, dg->0);
            }
        }
        return Err(Error::BindingMismatch);
    }
    Ok(d)
}

/// A validated choice decision of schema type `T`.
#[derive(Debug)]
pub struct Choice<T: DecisionSchema> {
    distribution: Distribution,
    stamp: Stamp,
    _type: PhantomData<T>,
}

/// A validated yes/no decision of schema type `T`.
#[derive(Debug)]
pub struct Noul<T: DecisionSchema> {
    distribution: Distribution,
    stamp: Stamp,
    _type: PhantomData<T>,
}

/// A validated ordinal score of schema type `T`.
#[derive(Debug)]
pub struct Score<T: DecisionSchema> {
    distribution: Distribution,
    stamp: Stamp,
    _type: PhantomData<T>,
}

impl<T: DecisionSchema> Choice<T> {
    #[verifier::type_invariant]
    spec fn shape(self) -> bool {
        self.distribution@.len() == T::OPTIONS@.len()
    }

    pub closed spec fn spec_masses(self) -> Seq<u32> {
        self.distribution@
    }

    pub closed spec fn spec_stamp(self) -> Stamp {
        self.stamp
    }

    pub fn try_from_receipt(schema: &CompiledSchema, r: &Receipt, expected: &Stamp) -> (res: Result<Self, Error>)
        ensures
            res is Ok <==> typed_ok::<T>(*schema, *r, *expected, Primitive::Choice),
            res matches Ok(x) ==> x.spec_masses() == r.outcome->Assessed_0.spec_masses() && stamp_same(x.spec_stamp(), r.stamp),
            res matches Err(e) ==> typed_error::<T>(*schema, *r, *expected, Primitive::Choice, e),
    {
        let d = checked::<T>(schema, r, expected, Primitive::Choice)?;
        Ok(Choice { distribution: d, stamp: copy_stamp(&r.stamp), _type: PhantomData })
    }

    /// The typed value of the most probable option (first on a tie).
    pub fn selected(&self) -> (r: Result<<T as ChoiceSchema>::Value, Error>)
        where T: ChoiceSchema,
        ensures
            exists|k: int| crate::math::is_first_max(self.spec_masses(), k) && match T::spec_decode(T::OPTIONS@[k]@) {
                Some(v) => r == Ok::<<T as ChoiceSchema>::Value, Error>(v),
                None => r == Err::<<T as ChoiceSchema>::Value, Error>(Error::BindingMismatch),
            },
    {
        proof {
            use_type_invariant(self);
        }
        let k = self.distribution.argmax();
        let r = match T::decode_option(T::OPTIONS[k]) {
            Some(v) => Ok(v),
            None => Err(Error::BindingMismatch),
        };
        assert(crate::math::is_first_max(self.spec_masses(), k as int) && match T::spec_decode(T::OPTIONS@[k as int]@) {
            Some(v) => r == Ok::<<T as ChoiceSchema>::Value, Error>(v),
            None => r == Err::<<T as ChoiceSchema>::Value, Error>(Error::BindingMismatch),
        });
        r
    }

    pub fn distribution(&self) -> (d: &Distribution)
        ensures
            d@ == self.spec_masses(),
    {
        &self.distribution
    }

    pub fn stamp(&self) -> (s: &Stamp)
        ensures
            *s == self.spec_stamp(),
    {
        &self.stamp
    }
}

impl<T: DecisionSchema> Noul<T> {
    #[verifier::type_invariant]
    spec fn shape(self) -> bool {
        self.distribution@.len() == 2
    }

    pub closed spec fn spec_masses(self) -> Seq<u32> {
        self.distribution@
    }

    pub closed spec fn spec_stamp(self) -> Stamp {
        self.stamp
    }

    pub fn try_from_receipt(schema: &CompiledSchema, r: &Receipt, expected: &Stamp) -> (res: Result<Self, Error>)
        ensures
            res is Ok <==> typed_ok::<T>(*schema, *r, *expected, Primitive::Noul),
            res matches Ok(x) ==> x.spec_masses() == r.outcome->Assessed_0.spec_masses() && stamp_same(x.spec_stamp(), r.stamp),
            res matches Err(e) ==> typed_error::<T>(*schema, *r, *expected, Primitive::Noul, e),
    {
        let d = checked::<T>(schema, r, expected, Primitive::Noul)?;
        Ok(Noul { distribution: d, stamp: copy_stamp(&r.stamp), _type: PhantomData })
    }

    /// The probability of `true`, in parts per million.
    pub fn p_true_ppm(&self) -> (p: u32)
        ensures
            self.spec_masses().len() == 2 && p == self.spec_masses()[1],
    {
        proof {
            use_type_invariant(self);
        }
        self.distribution.as_slice()[1]
    }

    pub fn stamp(&self) -> (s: &Stamp)
        ensures
            *s == self.spec_stamp(),
    {
        &self.stamp
    }
}

impl<T: DecisionSchema> Score<T> {
    pub closed spec fn spec_masses(self) -> Seq<u32> {
        self.distribution@
    }

    pub closed spec fn spec_stamp(self) -> Stamp {
        self.stamp
    }

    pub fn try_from_receipt(schema: &CompiledSchema, r: &Receipt, expected: &Stamp) -> (res: Result<Self, Error>)
        ensures
            res is Ok <==> typed_ok::<T>(*schema, *r, *expected, Primitive::Score),
            res matches Ok(x) ==> x.spec_masses() == r.outcome->Assessed_0.spec_masses() && stamp_same(x.spec_stamp(), r.stamp),
            res matches Err(e) ==> typed_error::<T>(*schema, *r, *expected, Primitive::Score, e),
    {
        let d = checked::<T>(schema, r, expected, Primitive::Score)?;
        Ok(Score { distribution: d, stamp: copy_stamp(&r.stamp), _type: PhantomData })
    }

    /// The mean level scaled to one million across the scale.
    pub fn mean_ppm(&self) -> (p: u32)
        ensures
            p == (level_sum(self.spec_masses()) + (self.spec_masses().len() - 1) / 2) / (self.spec_masses().len() - 1),
    {
        self.distribution.mean_ppm()
    }

    /// The expected level in millionths of a level.
    pub fn expected_level_microunits(&self) -> (p: u64)
        ensures
            p == level_sum(self.spec_masses()),
    {
        self.distribution.expected_level_microunits()
    }

    /// Mass at or above bin `from_bin`; `Invalid` past the last bin.
    pub fn tail_ppm(&self, from_bin: usize) -> (r: Result<u32, Error>)
        ensures
            r is Ok <==> from_bin < self.spec_masses().len(),
            r matches Ok(v) ==> v == mass_sum(self.spec_masses().subrange(from_bin as int, self.spec_masses().len() as int)),
            r matches Err(e) ==> e matches Error::Invalid(m) && m@ == "tail bin"@,
    {
        self.distribution.tail(from_bin)
    }

    /// Mass at or below bin `through_bin`; `Invalid` past the last bin.
    pub fn cdf_ppm(&self, through_bin: usize) -> (r: Result<u32, Error>)
        ensures
            r is Ok <==> through_bin < self.spec_masses().len(),
            r matches Ok(v) ==> v == mass_sum(self.spec_masses().subrange(0, through_bin + 1)),
            r matches Err(e) ==> e matches Error::Invalid(m) && m@ == "cdf bin"@,
    {
        self.distribution.cdf(through_bin)
    }

    pub fn distribution(&self) -> (d: &Distribution)
        ensures
            d@ == self.spec_masses(),
    {
        &self.distribution
    }

    pub fn stamp(&self) -> (s: &Stamp)
        ensures
            *s == self.spec_stamp(),
    {
        &self.stamp
    }
}

} // verus!
