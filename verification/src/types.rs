//! Wire types, errors, principals, digests and length-framed canonical hashing.
use vstd::prelude::*;
use sha2::Digest as _;
use vstd::string::StringSliceAdditionalSpecFns;
use vstd::string::StringExecFns;

verus! {

pub const PPM: u32 = 1_000_000;
pub const MAX_TOKENS: usize = 128;
pub const MAX_PREFIX: usize = 64;
pub const MAX_STATE_BYTES: usize = 16384;
pub const MAX_SLOTS: usize = 3;

/// SHA-256 output.
pub type Digest = [u8; 32];

#[derive(Debug, Clone, PartialEq, Eq)]
pub enum Error {
    Unauthorized,
    Invalid(String),
    TooLong,
    NotFound,
    BindingMismatch,
    Expired,
    IdConflict,
    Capacity,
    ModelUnavailable(String),
    Numeric,
    Uncalibrated,
    Busy,
    Transition,
    NonceConsumed,
    NonceGap,
    OperationUsed,
    Denied(String),
    Budget,
    Stale,
    ReportOnly,
    LiveDisabled,
    OutcomeUnknown,
    Storage,
}

/// The human-readable text of an error.
pub open spec fn error_text(e: Error) -> Seq<char> {
    match e {
        Error::Invalid(m) => "invalid input: "@ + m@,
        Error::ModelUnavailable(m) => "model unavailable: "@ + m@,
        Error::Denied(m) => "hard policy rejected request: "@ + m@,
        Error::Unauthorized => "unauthorized"@,
        Error::TooLong => "input exceeds a registered limit"@,
        Error::NotFound => "unknown schema/model/operation"@,
        Error::BindingMismatch => "version or binding mismatch"@,
        Error::Expired => "expired"@,
        Error::IdConflict => "duplicate ID with different content"@,
        Error::Capacity => "quota or bounded storage exhausted"@,
        Error::Numeric => "invalid numeric output"@,
        Error::Uncalibrated => "uncalibrated or expired calibration"@,
        Error::Busy => "workflow busy"@,
        Error::Transition => "invalid state transition"@,
        Error::NonceConsumed => "nonce already consumed"@,
        Error::NonceGap => "unexpected nonce"@,
        Error::OperationUsed => "trusted business operation already reserved or consumed"@,
        Error::Budget => "budget exhausted or arithmetic overflow"@,
        Error::Stale => "state changed during inference"@,
        Error::ReportOnly => "report-only; no transaction dispatched"@,
        Error::LiveDisabled => "live dispatch is not implemented/enabled in this release"@,
        Error::OutcomeUnknown => "ledger outcome is unknown; reservation retained"@,
        Error::Storage => "storage corruption or incompatible version"@,
    }
}

impl Error {
    /// The error's text, as shown to operators.
    pub fn message(&self) -> (s: String)
        ensures
            s@ == error_text(*self),
    {
        match self {
            Error::Invalid(m) => String::from_str("invalid input: ").concat(m.as_str()),
            Error::ModelUnavailable(m) => String::from_str("model unavailable: ").concat(m.as_str()),
            Error::Denied(m) => String::from_str("hard policy rejected request: ").concat(m.as_str()),
            Error::Unauthorized => String::from_str("unauthorized"),
            Error::TooLong => String::from_str("input exceeds a registered limit"),
            Error::NotFound => String::from_str("unknown schema/model/operation"),
            Error::BindingMismatch => String::from_str("version or binding mismatch"),
            Error::Expired => String::from_str("expired"),
            Error::IdConflict => String::from_str("duplicate ID with different content"),
            Error::Capacity => String::from_str("quota or bounded storage exhausted"),
            Error::Numeric => String::from_str("invalid numeric output"),
            Error::Uncalibrated => String::from_str("uncalibrated or expired calibration"),
            Error::Busy => String::from_str("workflow busy"),
            Error::Transition => String::from_str("invalid state transition"),
            Error::NonceConsumed => String::from_str("nonce already consumed"),
            Error::NonceGap => String::from_str("unexpected nonce"),
            Error::OperationUsed => String::from_str("trusted business operation already reserved or consumed"),
            Error::Budget => String::from_str("budget exhausted or arithmetic overflow"),
            Error::Stale => String::from_str("state changed during inference"),
            Error::ReportOnly => String::from_str("report-only; no transaction dispatched"),
            Error::LiveDisabled => String::from_str("live dispatch is not implemented/enabled in this release"),
            Error::OutcomeUnknown => String::from_str("ledger outcome is unknown; reservation retained"),
            Error::Storage => String::from_str("storage corruption or incompatible version"),
        }
    }
}

/// The result of SHA-256 on a byte string.
pub uninterp spec fn sha256(data: Seq<u8>) -> Seq<u8>;

/// `sha2::Sha256::digest`: the digest of `bytes`. The contract names the result
/// and claims nothing about its value beyond depending on the bytes alone.
#[verifier::external_body]
pub fn hash(bytes: &[u8]) -> (d: Digest)
    ensures
        d@ == sha256(bytes@),
{
    sha2::Sha256::digest(bytes).into()
}

/// Byte-wise equality of two digests.
pub fn digest_eq(a: &Digest, b: &Digest) -> (r: bool)
    ensures
        r == (a@ == b@),
        r == (*a == *b),
{
    let mut i: usize = 0;
    while i < 32
        invariant
            i <= 32,
            forall|j: int| 0 <= j < i ==> a@[j] == b@[j],
        decreases 32 - i,
    {
        if a[i] != b[i] {
            assert(a@[i as int] != b@[i as int]);
            return false;
        }
        i = i + 1;
    }
    assert(a@ =~= b@);
    assert(*a =~= *b);
    true
}

/// True when every byte of the digest is zero.
pub fn digest_is_zero(a: &Digest) -> (r: bool)
    ensures
        r == (forall|j: int| 0 <= j < 32 ==> a@[j] == 0),
{
    let mut i: usize = 0;
    while i < 32
        invariant
            i <= 32,
            forall|j: int| 0 <= j < i ==> a@[j] == 0,
        decreases 32 - i,
    {
        if a[i] != 0 {
            return false;
        }
        i = i + 1;
    }
    true
}

/// The big-endian encoding of a 64-bit value.
pub open spec fn be64(x: u64) -> Seq<u8> {
    seq![
        (x >> 56u64) as u8, (x >> 48u64) as u8, (x >> 40u64) as u8, (x >> 32u64) as u8,
        (x >> 24u64) as u8, (x >> 16u64) as u8, (x >> 8u64) as u8, x as u8,
    ]
}

/// The big-endian encoding of a 128-bit value.
pub open spec fn be128(x: u128) -> Seq<u8> {
    be64((x >> 64u128) as u64) + be64(x as u64)
}

/// A length-framed field: the big-endian 64-bit length, then the bytes.
pub open spec fn frame(x: Seq<u8>) -> Seq<u8> {
    be64(x.len() as u64) + x
}

pub(crate) fn push_be64(buf: &mut Vec<u8>, x: u64)
    ensures
        final(buf)@ == old(buf)@ + be64(x),
{
    buf.push((x >> 56u64) as u8);
    buf.push((x >> 48u64) as u8);
    buf.push((x >> 40u64) as u8);
    buf.push((x >> 32u64) as u8);
    buf.push((x >> 24u64) as u8);
    buf.push((x >> 16u64) as u8);
    buf.push((x >> 8u64) as u8);
    buf.push(x as u8);
    assert(buf@ =~= old(buf)@ + be64(x));
}

pub(crate) fn push_all(buf: &mut Vec<u8>, x: &[u8])
    ensures
        final(buf)@ == old(buf)@ + x@,
{
    let mut i: usize = 0;
    while i < x.len()
        invariant
            i <= x@.len(),
            buf@ == old(buf)@ + x@.subrange(0, i as int),
        decreases x@.len() - i,
    {
        buf.push(x[i]);
        assert(x@.subrange(0, i + 1) =~= x@.subrange(0, i as int).push(x@[i as int]));
        i = i + 1;
    }
    assert(x@.subrange(0, x@.len() as int) =~= x@);
}

/// Length-framed, domain-separated canonical hashing (not JSON serialization).
pub struct Canonical {
    buf: Vec<u8>,
}

impl View for Canonical {
    type V = Seq<u8>;

    closed spec fn view(&self) -> Seq<u8> {
        self.buf@
    }
}

impl Canonical {
    pub fn new(domain: &str) -> (c: Self)
        ensures
            c@ == frame(domain.spec_bytes()),
    {
        let mut c = Canonical { buf: Vec::new() };
        c.bytes(domain.as_bytes());
        assert(c@ =~= frame(domain.spec_bytes()));
        c
    }

    /// Appends a length-framed field; returns the hasher for chaining.
    pub fn bytes(&mut self, x: &[u8]) -> (r: &mut Self)
        ensures
            r@ == old(self)@ + frame(x@),
            *final(self) == *final(r),
    {
        push_be64(&mut self.buf, x.len() as u64);
        push_all(&mut self.buf, x);
        assert(self@ =~= old(self)@ + frame(x@));
        self
    }

    pub fn text(&mut self, x: &str) -> (r: &mut Self)
        ensures
            r@ == old(self)@ + frame(x.spec_bytes()),
            *final(self) == *final(r),
    {
        self.bytes(x.as_bytes())
    }

    pub fn u64(&mut self, x: u64) -> (r: &mut Self)
        ensures
            r@ == old(self)@ + be64(x),
            *final(self) == *final(r),
    {
        push_be64(&mut self.buf, x);
        self
    }

    pub fn u128(&mut self, x: u128) -> (r: &mut Self)
        ensures
            r@ == old(self)@ + be128(x),
            *final(self) == *final(r),
    {
        push_be64(&mut self.buf, (x >> 64u128) as u64);
        push_be64(&mut self.buf, x as u64);
        assert(self@ =~= old(self)@ + be128(x));
        self
    }

    pub fn finish(self) -> (d: Digest)
        ensures
            d@ == sha256(self@),
    {
        hash(self.buf.as_slice())
    }
}


pub const PROFILE: &'static str = "Compact128-v1";

/// The UTF-8 bytes of a string value.
pub open spec fn sbytes(s: String) -> Seq<u8> {
    vstd::utf8::encode_utf8(s@)
}

/// The ASCII characters that stand for the given bytes.
pub open spec fn ascii_chars(b: Seq<u8>) -> Seq<char> {
    Seq::new(b.len(), |i: int| b[i] as char)
}

/// `String::from_utf8` on bytes that are all ASCII: the string whose characters
/// are those bytes. Every ASCII byte sequence is valid UTF-8, so the conversion
/// succeeds and decodes one character per byte.
#[verifier::external_body]
pub(crate) fn ascii_string(bytes: Vec<u8>) -> (s: String)
    requires
        forall|i: int| 0 <= i < bytes@.len() ==> bytes@[i] < 128,
    ensures
        s@ == ascii_chars(bytes@),
{
    String::from_utf8(bytes).unwrap()
}

/// A principal: the bytes of an Internet Computer identity (at most 29).
#[derive(Debug, Clone, PartialEq, Eq, PartialOrd, Ord, Hash)]
pub struct Principal {
    bytes: Vec<u8>,
}

impl View for Principal {
    type V = Seq<u8>;

    closed spec fn view(&self) -> Seq<u8> {
        self.bytes@
    }
}

/// The bytes of the anonymous principal.
pub open spec fn anonymous_bytes() -> Seq<u8> {
    seq![4u8]
}

/// `ic_principal::Principal::anonymous`: the one-byte principal holding the
/// anonymous tag 4.
#[verifier::external_body]
fn candid_anonymous() -> (p: Principal)
    ensures
        p@ == anonymous_bytes(),
{
    Principal { bytes: candid::Principal::anonymous().as_slice().to_vec() }
}

/// `ic_principal::Principal::management_canister`: the empty principal.
#[verifier::external_body]
fn candid_management_canister() -> (p: Principal)
    ensures
        p@ == Seq::<u8>::empty(),
{
    Principal { bytes: candid::Principal::management_canister().as_slice().to_vec() }
}

/// `ic_principal::Principal::from_slice`: the principal with exactly these bytes;
/// it panics beyond 29 bytes, which `requires` leaves out.
#[verifier::external_body]
fn candid_from_slice(slice: &[u8]) -> (p: Principal)
    requires
        slice@.len() <= 29,
    ensures
        p@ == slice@,
{
    Principal { bytes: candid::Principal::from_slice(slice).as_slice().to_vec() }
}

impl Principal {
    pub fn anonymous() -> (p: Principal)
        ensures
            p@ == anonymous_bytes(),
    {
        candid_anonymous()
    }

    pub fn management_canister() -> (p: Principal)
        ensures
            p@ == Seq::<u8>::empty(),
    {
        candid_management_canister()
    }

    pub fn from_slice(slice: &[u8]) -> (p: Principal)
        requires
            slice@.len() <= 29,
        ensures
            p@ == slice@,
    {
        candid_from_slice(slice)
    }

    pub fn as_slice(&self) -> (s: &[u8])
        ensures
            s@ == self@,
    {
        self.bytes.as_slice()
    }

    /// Identity comparison.
    pub fn same(&self, other: &Principal) -> (r: bool)
        ensures
            r == (self@ == other@),
    {
        bytes_eq(self.bytes.as_slice(), other.bytes.as_slice())
    }

    /// The anonymous principal or the management canister: never a party.
    pub fn is_reserved(&self) -> (r: bool)
        ensures
            r == (self@ == anonymous_bytes() || self@ == Seq::<u8>::empty()),
    {
        let a = Principal::anonymous();
        let m = Principal::management_canister();
        self.same(&a) || self.same(&m)
    }

    pub fn clone_principal(&self) -> (p: Principal)
        ensures
            p@ == self@,
    {
        Principal { bytes: self.bytes.clone() }
    }
}

/// Byte-wise equality of two slices.
pub fn bytes_eq(a: &[u8], b: &[u8]) -> (r: bool)
    ensures
        r == (a@ == b@),
{
    if a.len() != b.len() {
        return false;
    }
    let mut i: usize = 0;
    while i < a.len()
        invariant
            i <= a@.len(),
            a@.len() == b@.len(),
            forall|j: int| 0 <= j < i ==> a@[j] == b@[j],
        decreases a@.len() - i,
    {
        if a[i] != b[i] {
            return false;
        }
        i = i + 1;
    }
    assert(a@ =~= b@);
    true
}

/// The lowercase hexadecimal digit of a nibble.
pub open spec fn hex_digit(n: u8) -> u8 {
    if n < 10 { (48 + n) as u8 } else { (87 + n) as u8 }
}

/// Two lowercase hex digits per byte, most significant nibble first.
pub open spec fn hex_bytes(d: Seq<u8>) -> Seq<u8>
    decreases d.len(),
{
    if d.len() == 0 {
        Seq::empty()
    } else {
        hex_bytes(d.drop_last()) + seq![hex_digit(d.last() / 16), hex_digit(d.last() % 16)]
    }
}

/// Lowercase hexadecimal text of a digest.
pub fn hex(d: &Digest) -> (s: String)
    ensures
        s@ == ascii_chars(hex_bytes(d@)),
{
    let mut out: Vec<u8> = Vec::new();
    let mut i: usize = 0;
    while i < 32
        invariant
            i <= 32,
            out@ == hex_bytes(d@.subrange(0, i as int)),
            forall|j: int| 0 <= j < out@.len() ==> out@[j] < 128,
        decreases 32 - i,
    {
        let v = d[i];
        let hi = v / 16;
        let lo = v % 16;
        out.push(if hi < 10 { 48 + hi } else { 87 + hi });
        out.push(if lo < 10 { 48 + lo } else { 87 + lo });
        assert(d@.subrange(0, i + 1).drop_last() =~= d@.subrange(0, i as int));
        i = i + 1;
    }
    assert(d@.subrange(0, 32) =~= d@);
    ascii_string(out)
}

#[derive(Debug, Clone, Copy, PartialEq, Eq)]
pub enum Primitive {
    Choice,
    Noul,
    Score,
}

impl Primitive {
    pub open spec fn spec_tag(self) -> u64 {
        match self {
            Primitive::Choice => 0,
            Primitive::Noul => 1,
            Primitive::Score => 2,
        }
    }

    pub open spec fn spec_count_valid(self, n: int) -> bool {
        match self {
            Primitive::Choice => 2 <= n <= 5,
            Primitive::Noul => n == 2,
            Primitive::Score => 3 <= n <= 7,
        }
    }

    pub fn tag(self) -> (t: u64)
        ensures
            t == self.spec_tag(),
    {
        match self {
            Primitive::Choice => 0,
            Primitive::Noul => 1,
            Primitive::Score => 2,
        }
    }

    pub fn text(self) -> (s: &'static str)
        ensures
            self == Primitive::Choice ==> s@ == "choice"@,
            self == Primitive::Noul ==> s@ == "noul"@,
            self == Primitive::Score ==> s@ == "score"@,
    {
        match self {
            Primitive::Choice => "choice",
            Primitive::Noul => "noul",
            Primitive::Score => "score",
        }
    }

    pub fn count_valid(self, n: usize) -> (r: bool)
        ensures
            r == self.spec_count_valid(n as int),
    {
        match self {
            Primitive::Choice => 2 <= n && n <= 5,
            Primitive::Noul => n == 2,
            Primitive::Score => 3 <= n && n <= 7,
        }
    }

    pub fn is(self, other: Primitive) -> (r: bool)
        ensures
            r == (self == other),
    {
        self.tag() == other.tag()
    }
}


#[derive(Debug, Clone, PartialEq, Eq)]
pub struct OptionDef {
    pub id: String,
    pub text: String,
}

#[derive(Debug, Clone, PartialEq, Eq)]
pub struct Schema {
    pub id: String,
    pub version: u64,
    pub primitive: Primitive,
    /// Full instruction including the direction/meaning of an ordinal scale.
    pub instructions: String,
    pub options: Vec<OptionDef>,
}

/// The framed id and text of each option, in order.
pub open spec fn options_frames(opts: Seq<OptionDef>) -> Seq<u8>
    decreases opts.len(),
{
    if opts.len() == 0 {
        Seq::empty()
    } else {
        options_frames(opts.drop_last()) + frame(sbytes(opts.last().id)) + frame(
            sbytes(opts.last().text),
        )
    }
}

/// What `Schema::digest` hashes.
pub open spec fn schema_preimage(s: Schema, tokenizer: Seq<u8>) -> Seq<u8> {
    frame("ic-laya/schema/v1".spec_bytes()) + frame(sbytes(s.id)) + be64(s.version) + be64(
        s.primitive.spec_tag(),
    ) + frame(sbytes(s.instructions)) + be64(s.options@.len() as u64) + options_frames(s.options@)
        + frame(tokenizer) + frame(PROFILE.spec_bytes())
}

impl Schema {
    pub fn digest(&self, tokenizer: &Digest) -> (d: Digest)
        ensures
            d@ == sha256(schema_preimage(*self, tokenizer@)),
    {
        let mut h = Canonical::new("ic-laya/schema/v1");
        h.text(self.id.as_str());
        h.u64(self.version);
        h.u64(self.primitive.tag());
        h.text(self.instructions.as_str());
        h.u64(self.options.len() as u64);
        let ghost start = h@;
        let mut i: usize = 0;
        while i < self.options.len()
            invariant
                i <= self.options@.len(),
                h@ == start + options_frames(self.options@.subrange(0, i as int)),
            decreases self.options@.len() - i,
        {
            h.text(self.options[i].id.as_str());
            h.text(self.options[i].text.as_str());
            assert(self.options@.subrange(0, i + 1).drop_last() =~= self.options@.subrange(
                0,
                i as int,
            ));
            i = i + 1;
        }
        assert(self.options@.subrange(0, self.options@.len() as int) =~= self.options@);
        h.bytes(tokenizer);
        h.text(PROFILE);
        assert(h@ =~= schema_preimage(*self, tokenizer@));
        h.finish()
    }
}

#[derive(Debug, Clone, PartialEq, Eq)]
pub struct SpecialTokens {
    pub cls: u32,
    pub sep: u32,
    pub mask: u32,
    pub pad: u32,
    pub literals: Vec<String>,
}

#[derive(Debug, Clone, PartialEq, Eq)]
pub struct CompiledSchema {
    pub schema: Schema,
    pub schema_hash: Digest,
    pub tokenizer_hash: Digest,
    pub prefix: Vec<u32>,
    pub markers: Vec<u32>,
    pub special: SpecialTokens,
    /// Explicit export mapping. Never infer the original qtype order from enum order.
    pub qtype_id: u32,
}

#[derive(Debug, Clone, PartialEq, Eq)]
pub struct TokenInput {
    pub input_ids: Vec<u32>,
    pub markers: Vec<u32>,
    pub qtype_id: u32,
}

#[derive(Debug, Clone, Copy, PartialEq, Eq)]
pub enum BackendKind {
    Checkpoint,
    SyntheticFixture,
}

#[derive(Debug, Clone, PartialEq, Eq)]
pub struct Binding {
    pub workflow: Digest,
    pub slot: u8,
    pub attempt: u32,
    pub snapshot: Digest,
}

#[derive(Debug, Clone, PartialEq, Eq)]
pub struct DecisionRequest {
    pub evaluation_id: Digest,
    pub schema_hash: Digest,
    pub model: Digest,
    pub calibration: Option<Digest>,
    pub binding: Option<Binding>,
    pub state: String,
    pub expires_at_ns: u64,
}

/// What `DecisionRequest::digest` hashes.
pub open spec fn request_preimage(r: DecisionRequest) -> Seq<u8> {
    frame("ic-laya/evaluation/v1".spec_bytes()) + frame(r.evaluation_id@) + frame(r.schema_hash@)
        + frame(r.model@) + match r.calibration {
        Some(x) => be64(1) + frame(x@),
        None => be64(0),
    } + match r.binding {
        Some(b) => be64(1) + frame(b.workflow@) + be64(b.slot as u64) + be64(b.attempt as u64)
            + frame(b.snapshot@),
        None => be64(0),
    } + frame(sbytes(r.state)) + be64(r.expires_at_ns)
}

impl DecisionRequest {
    pub fn digest(&self) -> (d: Digest)
        ensures
            d@ == sha256(request_preimage(*self)),
    {
        let mut h = Canonical::new("ic-laya/evaluation/v1");
        h.bytes(&self.evaluation_id);
        h.bytes(&self.schema_hash);
        h.bytes(&self.model);
        match &self.calibration {
            Some(x) => {
                h.u64(1);
                h.bytes(x);
            },
            None => {
                h.u64(0);
            },
        }
        match &self.binding {
            Some(b) => {
                h.u64(1);
                h.bytes(&b.workflow);
                h.u64(b.slot as u64);
                h.u64(b.attempt as u64);
                h.bytes(&b.snapshot);
            },
            None => {
                h.u64(0);
            },
        }
        h.text(self.state.as_str());
        h.u64(self.expires_at_ns);
        assert(h@ =~= request_preimage(*self));
        h.finish()
    }
}

#[derive(Debug, Clone, PartialEq, Eq)]
pub struct Stamp {
    pub evaluation_id: Digest,
    pub schema_hash: Digest,
    pub tokenizer_hash: Digest,
    pub model: Digest,
    pub calibration: Option<Digest>,
    pub binding: Option<Binding>,
    pub state_hash: Digest,
    pub profile: String,
    pub backend: BackendKind,
}

#[derive(Debug, Clone, PartialEq, Eq)]
pub enum DecisionValue {
    Choice { option_ids: Vec<String>, mass_ppm: Vec<u32>, selected_id: String },
    Noul { false_ppm: u32, true_ppm: u32 },
    Score {
        bin_ids: Vec<String>,
        mass_ppm: Vec<u32>,
        expected_level_microunits: u64,
        mean_ppm: u32,
    },
}

impl DecisionValue {
    pub open spec fn spec_masses(self) -> Seq<u32> {
        match self {
            DecisionValue::Choice { mass_ppm, .. } => mass_ppm@,
            DecisionValue::Score { mass_ppm, .. } => mass_ppm@,
            DecisionValue::Noul { false_ppm, true_ppm } => seq![false_ppm, true_ppm],
        }
    }

    pub fn primitive(&self) -> (p: Primitive)
        ensures
            p == Primitive::Choice <==> self is Choice,
            p == Primitive::Noul <==> self is Noul,
            p == Primitive::Score <==> self is Score,
    {
        match self {
            DecisionValue::Choice { .. } => Primitive::Choice,
            DecisionValue::Noul { .. } => Primitive::Noul,
            DecisionValue::Score { .. } => Primitive::Score,
        }
    }

    pub fn masses(&self) -> (m: Vec<u32>)
        ensures
            m@ == self.spec_masses(),
    {
        match self {
            DecisionValue::Choice { mass_ppm, .. } => mass_ppm.clone(),
            DecisionValue::Score { mass_ppm, .. } => mass_ppm.clone(),
            DecisionValue::Noul { false_ppm, true_ppm } => {
                let mut v = Vec::new();
                v.push(*false_ppm);
                v.push(*true_ppm);
                assert(v@ =~= seq![*false_ppm, *true_ppm]);
                v
            },
        }
    }
}

#[derive(Debug, Clone, Copy, PartialEq, Eq)]
pub struct Diagnostics {
    pub top1_ppm: u32,
    pub margin_ppm: u32,
    pub tied: bool,
}

#[derive(Debug, Clone, PartialEq, Eq)]
pub enum EvaluationOutcome {
    Assessed(DecisionValue),
    Abstained(String),
    Error(Error),
}

#[derive(Debug, Clone, PartialEq, Eq)]
pub struct Receipt {
    pub stamp: Stamp,
    pub outcome: EvaluationOutcome,
    pub diagnostics: Option<Diagnostics>,
    pub input_tokens: u32,
    pub measured_instructions: u64,
}


/// A ledger account: an owner principal and a 32-byte subaccount.
#[derive(Debug, Clone, PartialEq, Eq, PartialOrd, Ord)]
pub struct Account {
    pub owner: Principal,
    pub subaccount: Digest,
}

/// The principal is a party that may receive funds.
pub open spec fn party(p: Principal) -> bool {
    p@ != anonymous_bytes() && p@ != Seq::<u8>::empty()
}

/// What `Account::write` appends.
pub open spec fn account_frames(a: Account) -> Seq<u8> {
    frame(a.owner@) + frame(a.subaccount@)
}

impl Account {
    pub fn write(&self, h: &mut Canonical)
        ensures
            final(h)@ == old(h)@ + account_frames(*self),
    {
        h.bytes(self.owner.as_slice());
        h.bytes(&self.subaccount);
        assert(h@ =~= old(h)@ + account_frames(*self));
    }

    /// The anonymous principal and the management canister cannot receive funds.
    pub fn validate(&self) -> (r: Result<(), Error>)
        ensures
            r is Ok <==> party(self.owner),
            r matches Err(e) ==> e matches Error::Invalid(m) && m@ == "recipient principal"@,
    {
        if self.owner.is_reserved() {
            Err(Error::Invalid(String::from_str("recipient principal")))
        } else {
            Ok(())
        }
    }

    pub fn clone_account(&self) -> (a: Account)
        ensures
            a@ == self@,
    {
        Account { owner: self.owner.clone_principal(), subaccount: self.subaccount }
    }
}

impl View for Account {
    type V = (Seq<u8>, Seq<u8>);

    open spec fn view(&self) -> (Seq<u8>, Seq<u8>) {
        (self.owner@, self.subaccount@)
    }
}

/// A transfer a trusted operation proposes: from a subaccount of the executor on
/// `ledger` to `to`, of `amount` plus `fee`.
#[derive(Debug, Clone, PartialEq, Eq)]
pub struct TransferProposal {
    pub ledger: Principal,
    pub from_subaccount: Digest,
    pub to: Account,
    pub amount: u128,
    pub fee: u128,
}

/// What `TransferProposal::digest` hashes.
pub open spec fn proposal_preimage(p: TransferProposal) -> Seq<u8> {
    frame("ic-laya/proposal/v1".spec_bytes()) + frame(p.ledger@) + frame(p.from_subaccount@)
        + account_frames(p.to) + be128(p.amount) + be128(p.fee)
}

/// A proposal the executor may act on.
pub open spec fn proposal_valid(p: TransferProposal) -> bool {
    party(p.to.owner) && p.amount != 0 && party(p.ledger) && p.amount + p.fee <= u128::MAX
}

/// The error `TransferProposal::validate` gives on an invalid proposal.
pub open spec fn proposal_error(p: TransferProposal, e: Error) -> bool {
    if !party(p.to.owner) {
        e matches Error::Invalid(m) && m@ == "recipient principal"@
    } else if p.amount == 0 || !party(p.ledger) {
        e matches Error::Invalid(m) && m@ == "transfer proposal"@
    } else {
        e == Error::Budget
    }
}

impl View for TransferProposal {
    type V = (Seq<u8>, Seq<u8>, (Seq<u8>, Seq<u8>), u128, u128);

    open spec fn view(&self) -> (Seq<u8>, Seq<u8>, (Seq<u8>, Seq<u8>), u128, u128) {
        (self.ledger@, self.from_subaccount@, self.to@, self.amount, self.fee)
    }
}

impl TransferProposal {
    pub fn digest(&self) -> (d: Digest)
        ensures
            d@ == sha256(proposal_preimage(*self)),
    {
        let mut h = Canonical::new("ic-laya/proposal/v1");
        h.bytes(self.ledger.as_slice());
        h.bytes(&self.from_subaccount);
        self.to.write(&mut h);
        h.u128(self.amount);
        h.u128(self.fee);
        assert(h@ =~= proposal_preimage(*self));
        h.finish()
    }

    /// What the transfer costs the grant: amount plus fee; `Budget` on overflow.
    pub fn charge(&self) -> (r: Result<u128, Error>)
        ensures
            r is Ok <==> self.amount + self.fee <= u128::MAX,
            r matches Ok(c) ==> c == self.amount + self.fee,
            r matches Err(e) ==> e == Error::Budget,
    {
        match self.amount.checked_add(self.fee) {
            Some(c) => Ok(c),
            None => Err(Error::Budget),
        }
    }

    /// A valid recipient, a nonzero amount, a real ledger and a charge that fits.
    pub fn validate(&self) -> (r: Result<(), Error>)
        ensures
            r is Ok <==> proposal_valid(*self),
            r matches Err(e) ==> proposal_error(*self, e),
    {
        self.to.validate()?;
        if self.amount == 0 || self.ledger.is_reserved() {
            return Err(Error::Invalid(String::from_str("transfer proposal")));
        }
        self.charge()?;
        Ok(())
    }

    pub fn clone_proposal(&self) -> (p: TransferProposal)
        ensures
            p@ == self@,
    {
        TransferProposal {
            ledger: self.ledger.clone_principal(),
            from_subaccount: self.from_subaccount,
            to: self.to.clone_account(),
            amount: self.amount,
            fee: self.fee,
        }
    }
}

} // verus!
