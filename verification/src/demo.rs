//! Deterministic test fixtures: a whitespace tokenizer keyed by SHA-256, and the
//! three demonstration schemas. No language understanding, no model weights.
use vstd::prelude::*;
use vstd::string::{StrSliceExecFns, StringExecFns, StringSliceAdditionalSpecFns};
use crate::schema::{
    compile, compile_ok, compiled_consistent, compiled_prefix, controls, has_control, has_reserved, law_compiled_schemas_validate,
    literal_views, option_fails, option_runs, option_valid, options_valid, question_chars, schema_valid, TextTokenizer,
};
use crate::text::contains_sub;
use crate::config::lemma_ascii_encoding;
use vstd::utf8::encode_utf8;
use crate::engine::{caller_known, schema_at, schema_known, Calibration, EngineState, UNIT_TEMPERATURE_BITS};
use crate::same::{compiled_same, copy_compiled, copy_schema, option_same, schema_same};
use crate::workflow::{
    plan_exists, plan_valid, recipients_ok, rule_fits, signal_valid, ExecutorState, Grant, Mode, Operation, OperationStatus, Plan, RequiredSignal, Rule,
    Usage,
};
use crate::text::{chars_of, is_white_space, spec_white_space};
use crate::types::{
    anonymous_bytes, be64, frame, hash, options_frames, sbytes, schema_preimage, sha256, Account, CompiledSchema, Digest, Error, OptionDef,
    Primitive, Principal, Schema, SpecialTokens, TransferProposal, PROFILE,
};

verus! {

pub const NOW: u64 = 1_000_000_000_000;

/// A fixture actor: the two-byte principal `[1, n]`.
pub fn actor(n: u8) -> (p: Principal)
    ensures
        p@ == seq![1u8, n],
{
    let b: [u8; 2] = [1, n];
    let p = Principal::from_slice(b.as_slice());
    assert(b@ =~= seq![1u8, n]);
    p
}

/// The bundle id of the synthetic fixture backend.
pub fn fixture_bundle() -> (d: Digest)
    ensures
        d@ == sha256("TEST-ONLY-STATE-INDEPENDENT-FIXTURE-v1".spec_bytes()),
{
    hash("TEST-ONLY-STATE-INDEPENDENT-FIXTURE-v1".as_bytes())
}

/// The maximal runs of non-white-space characters, in order (what
/// `str::split_whitespace` yields).
pub open spec fn words(c: Seq<char>) -> Seq<Seq<char>>
    decreases c.len(),
{
    if c.len() == 0 {
        Seq::empty()
    } else {
        let w = words(c.drop_last());
        if spec_white_space(c.last()) {
            w
        } else if c.len() >= 2 && !spec_white_space(c[c.len() - 2]) {
            w.update(w.len() - 1, w.last().push(c.last()))
        } else {
            w.push(seq![c.last()])
        }
    }
}

/// The fixture id of a word: 10 plus the first two digest bytes, big-endian.
pub open spec fn word_token(w: Seq<char>) -> u32 {
    let d = sha256(vstd::utf8::encode_utf8(w));
    (10 + d[0] as u32 * 256 + d[1] as u32) as u32
}

pub open spec fn fixture_encode(text: Seq<char>) -> Seq<u32> {
    Seq::new(words(text).len(), |i: int| word_token(words(text)[i]))
}

fn word_id(w: &str) -> (id: u32)
    ensures
        id == word_token(w@),
{
    let d = hash(w.as_bytes());
    10 + (d[0] as u32) * 256 + d[1] as u32
}

/// Whitespace tokenizer: one id per word. TEST ONLY.
pub struct FixtureTokenizer;

impl TextTokenizer for FixtureTokenizer {
    open spec fn spec_encode(&self, text: Seq<char>) -> Option<Seq<u32>> {
        Some(fixture_encode(text))
    }

    open spec fn spec_fingerprint(&self) -> Seq<u8> {
        sha256("TEST-ONLY-WHITESPACE-TOKENIZER-v1".spec_bytes())
    }

    open spec fn spec_controls(&self) -> (u32, u32, u32, u32) {
        (1, 2, 3, 0)
    }

    open spec fn spec_literals(&self) -> Seq<Seq<char>> {
        seq!["[CLS]"@, "[SEP]"@, "[MASK]"@, "[PAD]"@]
    }

    fn encode_piece(&self, text: &str) -> (r: Result<Vec<u32>, Error>) {
        let cs = chars_of(text);
        let n = cs.len();
        let mut out: Vec<u32> = Vec::new();
        let mut start: usize = 0;
        let mut in_word = false;
        let mut i: usize = 0;
        let ghost mut done: Seq<Seq<char>> = Seq::empty();
        while i < n
            invariant
                cs@ == text@,
                n == cs@.len(),
                i <= n,
                in_word ==> start < i,
                in_word ==> !spec_white_space(cs@[i - 1]),
                in_word ==> forall|k: int| start <= k < i ==> !spec_white_space(cs@[k]),
                !in_word ==> (i == 0 || spec_white_space(cs@[i - 1])),
                words(cs@.take(i as int)) == if in_word {
                    done.push(cs@.subrange(start as int, i as int))
                } else {
                    done
                },
                out@ == Seq::new(done.len(), |j: int| word_token(done[j])),
            decreases n - i,
        {
            let c = cs[i];
            let ghost pre = cs@.take(i as int);
            assert(cs@.take(i + 1).drop_last() =~= pre);
            assert(cs@.take(i + 1).last() == c);
            if is_white_space(c) {
                if in_word {
                    let w = text.substring_char(start, i);
                    let id = word_id(w);
                    proof {
                        done = done.push(cs@.subrange(start as int, i as int));
                    }
                    out.push(id);
                    assert(out@ =~= Seq::new(done.len(), |j: int| word_token(done[j])));
                    in_word = false;
                }
            } else {
                if !in_word {
                    start = i;
                    in_word = true;
                    assert(cs@.subrange(i as int, i + 1) =~= seq![c]);
                    if i > 0 {
                        assert(cs@.take(i + 1)[i - 1] == cs@[i - 1]);
                    }
                    assert(words(cs@.take(i + 1)) =~= done.push(cs@.subrange(start as int, i + 1)));
                } else {
                    assert(cs@.subrange(start as int, i as int).push(c) =~= cs@.subrange(
                        start as int,
                        i + 1,
                    ));
                }
            }
            i = i + 1;
        }
        if in_word {
            let w = text.substring_char(start, n);
            let id = word_id(w);
            proof {
                done = done.push(cs@.subrange(start as int, n as int));
            }
            out.push(id);
        }
        assert(cs@.take(n as int) =~= text@);
        assert(out@ =~= fixture_encode(text@));
        Ok(out)
    }

    fn fingerprint(&self) -> (d: Digest) {
        hash("TEST-ONLY-WHITESPACE-TOKENIZER-v1".as_bytes())
    }

    fn special_tokens(&self) -> (t: SpecialTokens) {
        let mut literals: Vec<String> = Vec::new();
        literals.push(String::from_str("[CLS]"));
        literals.push(String::from_str("[SEP]"));
        literals.push(String::from_str("[MASK]"));
        literals.push(String::from_str("[PAD]"));
        let t = SpecialTokens { cls: 1, sep: 2, mask: 3, pad: 0, literals };
        assert(literal_views(t) =~= seq!["[CLS]"@, "[SEP]"@, "[MASK]"@, "[PAD]"@]);
        t
    }
}


fn option(id: &str, text: &str) -> (o: OptionDef)
    ensures
        o.id@ == id@,
        o.text@ == text@,
{
    OptionDef { id: String::from_str(id), text: String::from_str(text) }
}

/// The option ids of a schema, as character sequences.
pub open spec fn option_id_views(s: Schema) -> Seq<Seq<char>> {
    Seq::new(s.options@.len(), |i: int| s.options@[i].id@)
}

/// The option texts of a schema, as character sequences.
pub open spec fn option_text_views(s: Schema) -> Seq<Seq<char>> {
    Seq::new(s.options@.len(), |i: int| s.options@[i].text@)
}

/// The three demonstration schemas: a refund Noul, a payment-action Choice and a
/// five-bin payment-risk Score.
pub fn schemas() -> (v: Vec<Schema>)
    ensures
        v@.len() == 3,
        forall|k: int| 0 <= k < 3 ==> is_demo_schema(#[trigger] v@[k], k),
        v@[0].id@ == "RefundRequested"@ && v@[0].version == 1 && v@[0].primitive
            == Primitive::Noul && v@[0].instructions@ == "Does the customer ask for a refund?"@
            && option_id_views(v@[0]) == seq!["false"@, "true"@] && option_text_views(v@[0])
            == seq!["false"@, "true"@],
        v@[1].id@ == "PaymentAction"@ && v@[1].version == 1 && v@[1].primitive
            == Primitive::Choice && v@[1].instructions@
            == "Choose the handling action for this request."@ && option_id_views(v@[1])
            == seq!["execute"@, "reject"@, "review"@] && option_text_views(v@[1])
            == seq!["process refund"@, "reject request"@, "human review"@],
        v@[2].id@ == "PaymentRisk"@ && v@[2].version == 1 && v@[2].primitive
            == Primitive::Score && v@[2].instructions@
            == "Rate request risk from minimal to severe."@ && option_id_views(v@[2])
            == seq!["minimal"@, "low"@, "medium"@, "high"@, "severe"@] && option_text_views(v@[2])
            == seq!["minimal risk"@, "low risk"@, "moderate risk"@, "high risk"@, "severe risk"@],
{
    let mut noul_opts: Vec<OptionDef> = Vec::new();
    noul_opts.push(option("false", "false"));
    noul_opts.push(option("true", "true"));
    let noul = Schema {
        id: String::from_str("RefundRequested"),
        version: 1,
        primitive: Primitive::Noul,
        instructions: String::from_str("Does the customer ask for a refund?"),
        options: noul_opts,
    };
    assert(option_id_views(noul) =~= seq!["false"@, "true"@]);
    assert(option_text_views(noul) =~= seq!["false"@, "true"@]);
    let mut choice_opts: Vec<OptionDef> = Vec::new();
    choice_opts.push(option("execute", "process refund"));
    choice_opts.push(option("reject", "reject request"));
    choice_opts.push(option("review", "human review"));
    let choice = Schema {
        id: String::from_str("PaymentAction"),
        version: 1,
        primitive: Primitive::Choice,
        instructions: String::from_str("Choose the handling action for this request."),
        options: choice_opts,
    };
    assert(option_id_views(choice) =~= seq!["execute"@, "reject"@, "review"@]);
    assert(option_text_views(choice) =~= seq!["process refund"@, "reject request"@, "human review"@]);
    let mut score_opts: Vec<OptionDef> = Vec::new();
    score_opts.push(option("minimal", "minimal risk"));
    score_opts.push(option("low", "low risk"));
    score_opts.push(option("medium", "moderate risk"));
    score_opts.push(option("high", "high risk"));
    score_opts.push(option("severe", "severe risk"));
    let score = Schema {
        id: String::from_str("PaymentRisk"),
        version: 1,
        primitive: Primitive::Score,
        instructions: String::from_str("Rate request risk from minimal to severe."),
        options: score_opts,
    };
    assert(option_id_views(score) =~= seq!["minimal"@, "low"@, "medium"@, "high"@, "severe"@]);
    assert(option_text_views(score) =~= seq![
        "minimal risk"@,
        "low risk"@,
        "moderate risk"@,
        "high risk"@,
        "severe risk"@,
    ]);
    let mut v: Vec<Schema> = Vec::new();
    v.push(noul);
    v.push(choice);
    v.push(score);
    v
}


/// Frames of the option ids and texts, in order, as `Schema::digest` writes them.
pub open spec fn pair_frames(ids: Seq<Seq<char>>, texts: Seq<Seq<char>>) -> Seq<u8>
    decreases ids.len(),
{
    if ids.len() == 0 {
        Seq::empty()
    } else {
        pair_frames(ids.drop_last(), texts.drop_last()) + frame(encode_utf8(ids.last())) + frame(
            encode_utf8(texts.last()),
        )
    }
}

/// The schema hash of demonstration schema `k` compiled with the fixture tokenizer.
pub open spec fn demo_schema_hash(k: int) -> Seq<u8> {
    sha256(
        frame("ic-laya/schema/v1".spec_bytes()) + frame(encode_utf8(demo_id(k))) + be64(1) + be64(
            demo_primitive(k).spec_tag(),
        ) + frame(encode_utf8(demo_instructions(k))) + be64(demo_option_ids(k).len() as u64) + pair_frames(
            demo_option_ids(k),
            demo_option_texts(k),
        ) + frame(FixtureTokenizer.spec_fingerprint()) + frame(PROFILE.spec_bytes()),
    )
}

/// The id of the test-only calibration of demonstration schema `k`.
pub open spec fn demo_calibration_id(k: int) -> Seq<u8> {
    sha256(encode_utf8("TEST-ONLY-calibration-"@ + demo_id(k)))
}

pub open spec fn zero_bytes(b: Seq<u8>) -> bool {
    forall|j: int| 0 <= j < 32 ==> b[j] == 0
}

/// What the fixture needs of SHA-256: the digests it uses as ids are not all
/// zeros, and the three schema hashes, like the three calibration ids, differ.
pub open spec fn fixture_digests_ok() -> bool {
    &&& forall|k: int| 0 <= k < 3 ==> !zero_bytes(#[trigger] demo_calibration_id(k))
    &&& forall|a: int, b: int| 0 <= a < b < 3 ==> #[trigger] demo_calibration_id(a) != #[trigger] demo_calibration_id(b)
    &&& forall|a: int, b: int| 0 <= a < b < 3 ==> #[trigger] demo_schema_hash(a) != #[trigger] demo_schema_hash(b)
    &&& !zero_bytes(sha256("TEST-ONLY-refund-plan-v1".spec_bytes()))
    &&& !zero_bytes(sha256("trusted-demo-invoice-1".spec_bytes()))
    &&& !zero_bytes(sha256("TEST-ONLY-grant-1".spec_bytes()))
    &&& !zero_bytes(sha256("TEST-ONLY-STATE-INDEPENDENT-FIXTURE-v1".spec_bytes()))
    &&& !zero_bytes(sha256("SYNTHETIC-NOT-REAL-HOLDOUT".spec_bytes()))
}

/// Slot `k` of the engine: demonstration schema `k` compiled with the fixture
/// tokenizer, and its test-only calibration under the active model.
pub open spec fn holds_demo_signal(n: EngineState, k: int) -> bool {
    &&& is_demo_schema(n.schemas@[k].schema, k) && n.schemas@[k].schema_hash@ == demo_schema_hash(k)
    &&& n.schemas@[k].tokenizer_hash@ == FixtureTokenizer.spec_fingerprint()
    &&& n.calibrations@[k].id@ == demo_calibration_id(k) && n.calibrations@[k].schema == n.schemas@[k].schema_hash
    &&& n.calibrations@[k].model == n.active_model && n.calibrations@[k].test_only
}

/// The fixture engine: the fixture model, caller `actor(5)` allowed, and the
/// three demonstration schemas with their calibrations, in order.
pub open spec fn demo_engine(n: EngineState) -> bool {
    &&& n.wf() && n.active_model@ == sha256("TEST-ONLY-STATE-INDEPENDENT-FIXTURE-v1".spec_bytes())
    &&& caller_known(n.callers@, seq![1u8, 5u8])
    &&& n.schemas@.len() == 3 && n.calibrations@.len() == 3
    &&& forall|k: int| 0 <= k < 3 ==> #[trigger] holds_demo_signal(n, k)
}

/// The fixture executor: owner `actor(1)`, instance `actor(5)`, report-only and
/// running; the refund plan over the engine's three signals; operation `o`
/// (Available, 100 plus fee 10 from ledger `actor(3)` to `actor(6)`); grant `g`
/// for delegate `actor(2)` under the plan; and mock ledger `actor(3)`.
pub open spec fn demo_executor(e: ExecutorState, n: EngineState, o: Digest, g: Digest) -> bool {
    &&& e.inv() && e.owner@ == seq![1u8, 1u8] && e.instance@ == seq![1u8, 5u8]
    &&& e.mode == Mode::ReportOnly && !e.paused
    &&& e.plans@.len() == 1 && e.plans@[0].id@ == sha256("TEST-ONLY-refund-plan-v1".spec_bytes())
    &&& e.plans@[0].model == n.active_model && e.plans@[0].signals@.len() == 3
    &&& forall|k: int| 0 <= k < 3 ==> (#[trigger] e.plans@[0].signals@[k]).schema.schema_hash == n.schemas@[k].schema_hash
        && e.plans@[0].signals@[k].calibration == n.calibrations@[k].id
    &&& e.operations@.len() == 1 && e.operations@[0].id == o && o@ == sha256("trusted-demo-invoice-1".spec_bytes())
    &&& e.operations@[0].status == OperationStatus::Available
    &&& e.operations@[0].proposal.amount == 100 && e.operations@[0].proposal.fee == 10
    &&& e.operations@[0].proposal.ledger@ == seq![1u8, 3u8] && e.operations@[0].proposal.to.owner@ == seq![1u8, 6u8]
    &&& e.grants@.len() == 1 && e.grants@[0].id == g && g@ == sha256("TEST-ONLY-grant-1".spec_bytes())
    &&& e.grants@[0].delegate@ == seq![1u8, 2u8] && e.grants@[0].plan == e.plans@[0].id
    &&& e.mock_ledgers@.len() == 1 && e.mock_ledgers@[0]@ == seq![1u8, 3u8]
}

/// The slots installed so far, in order.
spec fn slots_ok(n: EngineState, req: Seq<RequiredSignal>, k: int) -> bool {
    &&& n.schemas@.len() == k && n.calibrations@.len() == k && req.len() == k
    &&& forall|j: int| 0 <= j < k ==> #[trigger] holds_demo_signal(n, j)
    &&& forall|j: int| 0 <= j < k ==> signal_valid(#[trigger] req[j]) && req[j].schema.schema_hash == n.schemas@[j].schema_hash
        && req[j].calibration == n.calibrations@[j].id
}

proof fn lemma_options_frames(opts: Seq<OptionDef>)
    ensures
        options_frames(opts) == pair_frames(
            Seq::new(opts.len(), |i: int| opts[i].id@),
            Seq::new(opts.len(), |i: int| opts[i].text@),
        ),
    decreases opts.len(),
{
    if opts.len() > 0 {
        lemma_options_frames(opts.drop_last());
        assert(Seq::new(opts.len(), |i: int| opts[i].id@).drop_last() =~= Seq::new(
            opts.drop_last().len(),
            |i: int| opts.drop_last()[i].id@,
        ));
        assert(Seq::new(opts.len(), |i: int| opts[i].text@).drop_last() =~= Seq::new(
            opts.drop_last().len(),
            |i: int| opts.drop_last()[i].text@,
        ));
    }
}

proof fn lemma_demo_hash(s: Schema, k: int)
    requires
        is_demo_schema(s, k),
    ensures
        sha256(schema_preimage(s, FixtureTokenizer.spec_fingerprint())) == demo_schema_hash(k),
{
    lemma_options_frames(s.options@);
    assert(Seq::new(s.options@.len(), |i: int| s.options@[i].id@) == option_id_views(s));
    assert(Seq::new(s.options@.len(), |i: int| s.options@[i].text@) == option_text_views(s));
    assert(s.options@.len() == option_id_views(s).len());
}

proof fn lemma_same_demo(a: Schema, b: Schema, k: int)
    requires
        schema_same(a, b),
        is_demo_schema(b, k),
    ensures
        is_demo_schema(a, k),
{
    assert(option_id_views(a) =~= option_id_views(b)) by {
        assert forall|i: int| 0 <= i < a.options@.len() implies a.options@[i].id@ == b.options@[i].id@ by {
            assert(option_same(a.options@[i], b.options@[i]));
        }
    }
    assert(option_text_views(a) =~= option_text_views(b)) by {
        assert forall|i: int| 0 <= i < a.options@.len() implies a.options@[i].text@ == b.options@[i].text@ by {
            assert(option_same(a.options@[i], b.options@[i]));
        }
    }
}

proof fn lemma_demo_compiles(s: Schema, k: int)
    requires
        0 <= k < 3,
        is_demo_schema(s, k),
    ensures
        compile_ok(FixtureTokenizer, s, demo_primitive(k).spec_tag() as u32),
        schema_valid(s),
{
    if k == 0 {
        lemma_compiles_0(s);
    } else if k == 1 {
        lemma_compiles_1(s);
    } else {
        lemma_compiles_2(s);
    }
}

/// A copy of compiled demonstration schema `k` is as consistent as the original.
proof fn lemma_copy_consistent(a: CompiledSchema, b: CompiledSchema, k: int)
    requires
        0 <= k < 3,
        compiled_same(a, b),
        compiled_consistent(b),
        is_demo_schema(b.schema, k),
        b.tokenizer_hash@ == FixtureTokenizer.spec_fingerprint(),
    ensures
        is_demo_schema(a.schema, k),
        schema_valid(a.schema),
        compiled_consistent(a),
{
    lemma_same_demo(a.schema, b.schema, k);
    lemma_demo_compiles(a.schema, k);
    lemma_demo_hash(a.schema, k);
    lemma_demo_hash(b.schema, k);
    assert(a.special.cls == b.special.cls && a.special.sep == b.special.sep && a.special.mask == b.special.mask);
}

/// Compiles demonstration schema `k`, registers it and its test-only
/// calibration with the engine, and adds its required signal.
#[verifier::rlimit(100)]
fn install_signal(
    engine: &mut EngineState,
    required: &mut Vec<RequiredSignal>,
    schema: &Schema,
    k: usize,
    bundle: Digest,
    holdout: Digest,
) -> (r: Result<(), Error>)
    requires
        k < 3,
        is_demo_schema(*schema, k as int),
        old(engine).wf(),
        old(engine).active_model == bundle,
        holdout@ == sha256("SYNTHETIC-NOT-REAL-HOLDOUT".spec_bytes()),
        fixture_digests_ok() ==> slots_ok(*old(engine), old(required)@, k as int),
    ensures
        final(engine).wf(),
        final(engine).active_model == bundle,
        final(engine).callers == old(engine).callers,
        fixture_digests_ok() ==> r is Ok && slots_ok(*final(engine), final(required)@, k + 1),
{
    let s = copy_schema(schema);
    proof {
        lemma_same_demo(s, *schema, k as int);
        lemma_demo_compiles(s, k as int);
        lemma_demo_hash(s, k as int);
    }
    let tag = s.primitive;
    let compiled = compile(s, &FixtureTokenizer, tag.tag() as u32)?;
    proof {
        law_compiled_schemas_validate(FixtureTokenizer, compiled.schema, tag.spec_tag() as u32, compiled);
    }
    let label = String::from_str("TEST-ONLY-calibration-").concat(compiled.schema.id.as_str());
    let calibration = hash(label.as_str().as_bytes());
    assert(calibration@ == demo_calibration_id(k as int));
    let schema_hash = compiled.schema_hash;
    let tokenizer_hash = compiled.tokenizer_hash;
    let registered = copy_compiled(&compiled);
    proof {
        lemma_copy_consistent(registered, compiled, k as int);
    }
    let ghost before = *engine;
    proof {
        if fixture_digests_ok() {
            assert(schema_hash@ == demo_schema_hash(k as int));
            assert forall|j: int| 0 <= j < before.schemas@.len() implies before.schemas@[j].schema_hash != schema_hash by {
                assert(holds_demo_signal(before, j));
                assert(demo_schema_hash(j) != demo_schema_hash(k as int));
            }
            assert(!schema_known(before.schemas@, registered.schema_hash));
        }
    }
    engine.register(registered)?;
    let cal = Calibration {
        id: calibration,
        model: bundle,
        schema: schema_hash,
        tokenizer: tokenizer_hash,
        temperature_bits: UNIT_TEMPERATURE_BITS,
        expires_at_ns: NOW + 600_000_000_000,
        holdout_hash: holdout,
        sample_count: 1,
        test_only: true,
    };
    let ghost mid = *engine;
    proof {
        if fixture_digests_ok() {
            assert(engine.schemas@ == before.schemas@.push(registered));
            let w = schema_at(engine.schemas@, schema_hash);
            assert(engine.schemas@[k as int].schema_hash == schema_hash);
            if w < k {
                assert(engine.schemas@[w].schema_hash != engine.schemas@[k as int].schema_hash);
            } else if w > k {
                assert(engine.schemas@[k as int].schema_hash != engine.schemas@[w].schema_hash);
            }
            assert forall|j: int| 0 <= j < mid.calibrations@.len() implies mid.calibrations@[j].id != calibration by {
                assert(holds_demo_signal(before, j));
                assert(demo_calibration_id(j) != demo_calibration_id(k as int));
            }
            assert(!zero_bytes(demo_calibration_id(k as int)));
        }
    }
    engine.register_calibration(cal, NOW)?;
    let rule = match tag {
        Primitive::Noul => Rule::NoulTrue { minimum_ppm: 900_000 },
        Primitive::Choice => Rule::ChoiceIs { option_id: String::from_str("execute"), minimum_ppm: 900_000 },
        Primitive::Score => Rule::ScoreTailAtMost { first_bad_bin: 3, maximum_ppm: 50_000 },
    };
    let sig = RequiredSignal { schema: compiled, calibration, rule };
    proof {
        if k == 1 {
            lemma_views_1(sig.schema.schema);
        } else if k == 2 {
            lemma_views_2(sig.schema.schema);
        }
        if fixture_digests_ok() {
            assert(rule_fits(sig));
            assert(signal_valid(sig));
        }
    }
    required.push(sig);
    proof {
        if fixture_digests_ok() {
            assert forall|j: int| 0 <= j <= k implies #[trigger] holds_demo_signal(*engine, j) by {
                if j < k {
                    assert(holds_demo_signal(before, j));
                }
            }
        }
    }
    proof {
        if fixture_digests_ok() {
            assert forall|j: int| 0 <= j < k + 1 implies signal_valid(#[trigger] required@[j]) && required@[j].schema.schema_hash == engine.schemas@[j].schema_hash
                && required@[j].calibration == engine.calibrations@[j].id by {
                if j < k {
                    assert(required@[j] == old(required)@[j]);
                }
            }
        }
    }
    Ok(())
}

/// The fixture deployment: an engine with the three demonstration schemas and
/// their test-only calibrations, and an executor with the refund plan, one
/// trusted operation, one grant for delegate `actor(2)`, and ledger `actor(3)`
/// registered as a mock ledger. Returns the executor, the engine, the operation
/// id and the grant id. Every step succeeds when the fixture's digests are
/// usable ids (`fixture_digests_ok`).
pub fn setup() -> (r: Result<(ExecutorState, EngineState, Digest, Digest), Error>)
    ensures
        r matches Ok((e, n, o, g)) ==> e.inv() && n.wf() && e.owner@ == seq![1u8, 1u8]
            && e.instance@ == seq![1u8, 5u8] && e.mode == Mode::ReportOnly && !e.paused,
        fixture_digests_ok() ==> (r matches Ok((e, n, o, g)) && demo_engine(n) && demo_executor(e, n, o, g)),
{
    let owner = actor(1);
    let delegate = actor(2);
    let ledger = actor(3);
    let engine_id = actor(4);
    let executor_id = actor(5);
    let bundle = fixture_bundle();
    let mut engine = EngineState::new(bundle);
    assert(executor_id@.len() == 2 && anonymous_bytes().len() == 1);
    engine.allow_caller(&executor_id, 30)?;
    let holdout = hash("SYNTHETIC-NOT-REAL-HOLDOUT".as_bytes());
    let mut required: Vec<RequiredSignal> = Vec::new();
    let all = schemas();
    let mut k: usize = 0;
    while k < all.len()
        invariant
            all@.len() == 3,
            forall|j: int| 0 <= j < 3 ==> is_demo_schema(#[trigger] all@[j], j),
            k <= 3,
            engine.wf(),
            engine.active_model == bundle,
            bundle@ == sha256("TEST-ONLY-STATE-INDEPENDENT-FIXTURE-v1".spec_bytes()),
            holdout@ == sha256("SYNTHETIC-NOT-REAL-HOLDOUT".spec_bytes()),
            caller_known(engine.callers@, seq![1u8, 5u8]),
            fixture_digests_ok() ==> slots_ok(engine, required@, k as int),
        decreases 3 - k,
    {
        install_signal(&mut engine, &mut required, &all[k], k, bundle, holdout)?;
        k = k + 1;
    }
    let mut executor = ExecutorState::new(executor_id, owner.clone_principal(), engine_id);
    let plan_id = hash("TEST-ONLY-refund-plan-v1".as_bytes());
    let plan = Plan { id: plan_id, version: 1, model: bundle, signals: required };
    proof {
        if fixture_digests_ok() {
            assert(plan_valid(plan));
        }
    }
    executor.install_plan(&owner, plan)?;
    let op_id = hash("trusted-demo-invoice-1".as_bytes());
    let grant_id = hash("TEST-ONLY-grant-1".as_bytes());
    let account = Account { owner: actor(6), subaccount: [0u8; 32] };
    let evidence = String::from_str("The customer reports a duplicate payment and requests a refund.");
    proof {
        reveal_strlit("The customer reports a duplicate payment and requests a refund.");
        lemma_ascii_encoding(evidence@);
    }
    executor.install_operation(
        &owner,
        Operation {
            id: op_id,
            revision: 1,
            evidence,
            proposal: TransferProposal {
                ledger: ledger.clone_principal(),
                from_subaccount: [0u8; 32],
                to: account.clone_account(),
                amount: 100,
                fee: 10,
            },
            status: OperationStatus::Available,
        },
    )?;
    let mut recipients: Vec<Account> = Vec::new();
    recipients.push(account);
    proof {
        if fixture_digests_ok() {
            assert(executor.plans@[0].id == plan_id);
            assert(plan_exists(executor.plans@, plan_id));
            assert(recipients@[0].owner@ == seq![1u8, 6u8]);
            assert(recipients_ok(recipients@));
            assert(delegate@.len() == 2);
        }
    }
    executor.install_grant(
        &owner,
        Grant {
            id: grant_id,
            revision: 1,
            delegate,
            plan: plan_id,
            ledger: ledger.clone_principal(),
            from_subaccount: [0u8; 32],
            recipients,
            max_amount: 1000,
            max_fee: 10,
            total_cap: 1000,
            window_cap: 500,
            window_ns: 60_000_000_000,
            expires_at_ns: NOW + 600_000_000_000,
            revoked: false,
            total: Usage { spent: 0, reserved: 0 },
            windows: Vec::new(),
        },
    )?;
    executor.mock_ledgers.push(ledger);
    Ok((executor, engine, op_id, grant_id))
}



/// How many words start in `c`: characters that are not white space and
/// follow white space or the start.
spec fn word_count(c: Seq<char>) -> nat
    decreases c.len(),
{
    if c.len() == 0 {
        0
    } else {
        word_count(c.drop_last()) + if !spec_white_space(c.last()) && (c.len() == 1 || spec_white_space(c[c.len() - 2])) {
            1nat
        } else {
            0nat
        }
    }
}

proof fn lemma_words_count(c: Seq<char>)
    ensures
        words(c).len() == word_count(c),
        c.len() > 0 && !spec_white_space(c.last()) ==> words(c).len() > 0,
    decreases c.len(),
{
    if c.len() > 0 {
        lemma_words_count(c.drop_last());
        if c.len() >= 2 {
            assert(c.drop_last().last() == c[c.len() - 2]);
        }
    }
}

/// Joining at white space neither splits nor merges words.
proof fn lemma_count_concat(a: Seq<char>, b: Seq<char>)
    requires
        a.len() == 0 || b.len() == 0 || spec_white_space(a.last()) || spec_white_space(b[0]),
    ensures
        word_count(a + b) == word_count(a) + word_count(b),
    decreases b.len(),
{
    if b.len() == 0 {
        assert(a + b =~= a);
    } else {
        assert((a + b).drop_last() =~= a + b.drop_last());
        assert((a + b).last() == b.last());
        if b.len() >= 2 {
            assert(b.drop_last()[0] == b[0]);
            lemma_count_concat(a, b.drop_last());
            assert((a + b)[(a + b).len() - 2] == b[b.len() - 2]);
        } else {
            assert(a + b.drop_last() =~= a);
            assert(b.drop_last() =~= Seq::<char>::empty());
            if a.len() > 0 {
                assert((a + b)[(a + b).len() - 2] == a.last());
            }
        }
    }
}

/// The fixture encodes one id of at least 10 per word.
proof fn lemma_fixture_ids(text: Seq<char>)
    ensures
        fixture_encode(text).len() == word_count(text),
        !has_control(fixture_encode(text), FixtureTokenizer.spec_controls()),
{
    lemma_words_count(text);
    let ids = fixture_encode(text);
    assert forall|i: int| 0 <= i < ids.len() implies ids[i] >= 10 by {
        let d = sha256(encode_utf8(words(text)[i]));
        assert(ids[i] == word_token(words(text)[i]));
    }
}

/// The summed length of the mask-led option runs.
spec fn runs_len(texts: Seq<Seq<char>>) -> int
    decreases texts.len(),
{
    if texts.len() == 0 {
        0
    } else {
        runs_len(texts.drop_last()) + 1 + word_count(texts.last())
    }
}

spec fn text_views(opts: Seq<OptionDef>) -> Seq<Seq<char>> {
    Seq::new(opts.len(), |i: int| opts[i].text@)
}

proof fn lemma_runs_len(opts: Seq<OptionDef>)
    ensures
        option_runs(FixtureTokenizer, 3, opts).len() == runs_len(text_views(opts)),
    decreases opts.len(),
{
    if opts.len() > 0 {
        lemma_runs_len(opts.drop_last());
        assert(text_views(opts).drop_last() =~= text_views(opts.drop_last()));
        lemma_fixture_ids(opts.last().text@);
    }
}

proof fn lemma_no_bracket(b: Seq<u8>)
    requires
        forall|i: int| 0 <= i < b.len() ==> b[i] != 91u8,
    ensures
        !has_reserved(b, FixtureTokenizer.spec_literals()),
{
    reveal_strlit("[CLS]");
    reveal_strlit("[SEP]");
    reveal_strlit("[MASK]");
    reveal_strlit("[PAD]");
    let lits = FixtureTokenizer.spec_literals();
    assert forall|k: int| 0 <= k < lits.len() && lits[k].len() > 0 implies !contains_sub(b, encode_utf8(#[trigger] lits[k])) by {
        lemma_ascii_encoding(lits[k]);
        let p = encode_utf8(lits[k]);
        assert(p[0] == 91u8);
        if contains_sub(b, p) {
            let i = choose|i: int| 0 <= i && i + p.len() <= b.len() && #[trigger] b.subrange(i, i + p.len()) == p;
            assert(b.subrange(i, i + p.len())[0] == b[i]);
        }
    }
}

/// The identifier of demonstration schema `k`.
pub open spec fn demo_id(k: int) -> Seq<char> {
    if k == 0 { "RefundRequested"@ } else if k == 1 { "PaymentAction"@ } else { "PaymentRisk"@ }
}

pub open spec fn demo_primitive(k: int) -> Primitive {
    if k == 0 { Primitive::Noul } else if k == 1 { Primitive::Choice } else { Primitive::Score }
}

pub open spec fn demo_instructions(k: int) -> Seq<char> {
    if k == 0 {
        "Does the customer ask for a refund?"@
    } else if k == 1 {
        "Choose the handling action for this request."@
    } else {
        "Rate request risk from minimal to severe."@
    }
}

pub open spec fn demo_option_ids(k: int) -> Seq<Seq<char>> {
    if k == 0 {
        seq!["false"@, "true"@]
    } else if k == 1 {
        seq!["execute"@, "reject"@, "review"@]
    } else {
        seq!["minimal"@, "low"@, "medium"@, "high"@, "severe"@]
    }
}

pub open spec fn demo_option_texts(k: int) -> Seq<Seq<char>> {
    if k == 0 {
        seq!["false"@, "true"@]
    } else if k == 1 {
        seq!["process refund"@, "reject request"@, "human review"@]
    } else {
        seq!["minimal risk"@, "low risk"@, "moderate risk"@, "high risk"@, "severe risk"@]
    }
}

/// `s` holds demonstration schema `k` (0: refund Noul, 1: payment-action
/// Choice, 2: payment-risk Score).
pub open spec fn is_demo_schema(s: Schema, k: int) -> bool {
    &&& s.id@ == demo_id(k) && s.version == 1 && s.primitive == demo_primitive(k)
    &&& s.instructions@ == demo_instructions(k)
    &&& option_id_views(s) == demo_option_ids(k) && option_text_views(s) == demo_option_texts(k)
}

proof fn lemma_views_0(s: Schema)
    requires
        is_demo_schema(s, 0),
    ensures
        s.options@.len() == 2,
        s.options@[0].id@ == "false"@ && s.options@[0].text@ == "false"@,
        s.options@[1].id@ == "true"@ && s.options@[1].text@ == "true"@,
{
    assert(option_id_views(s).len() == s.options@.len());
    assert(demo_option_ids(0).len() == 2);
    assert(option_id_views(s)[0] == s.options@[0].id@ && option_text_views(s)[0] == s.options@[0].text@);
    assert(option_id_views(s)[1] == s.options@[1].id@ && option_text_views(s)[1] == s.options@[1].text@);
}

proof fn lemma_valid_0(s: Schema)
    requires
        is_demo_schema(s, 0),
    ensures
        schema_valid(s),
        !has_reserved(sbytes(s.instructions), FixtureTokenizer.spec_literals()),
        forall|i: int| 0 <= i < s.options@.len() ==> !has_reserved(sbytes(#[trigger] s.options@[i].text), FixtureTokenizer.spec_literals()),
{
    lemma_views_0(s);
    reveal_strlit("RefundRequested");
    reveal_strlit("Does the customer ask for a refund?");
    reveal_strlit("false");
    reveal_strlit("true");
    let o = s.options@;
    lemma_ascii_encoding(s.id@);
    lemma_ascii_encoding(s.instructions@);
    assert(!spec_white_space(s.instructions@[0]));
    lemma_ascii_encoding(o[0].id@);
    lemma_ascii_encoding(o[0].text@);
    assert(!spec_white_space(o[0].text@[0]));
    assert(option_valid(o[0]));
    lemma_ascii_encoding(o[1].id@);
    lemma_ascii_encoding(o[1].text@);
    assert(!spec_white_space(o[1].text@[0]));
    assert(option_valid(o[1]));
    assert(o[0].id@.len() != o[1].id@.len());
    assert(options_valid(o));
    lemma_no_bracket(sbytes(s.instructions));
    lemma_no_bracket(sbytes(o[0].text));
    lemma_no_bracket(sbytes(o[1].text));
}

proof fn lemma_count_instr_0()
    ensures
        word_count("Does the customer ask for a refund?"@) == 7,
{
    reveal_strlit("Does the customer ask for a refund?");
    reveal_strlit("Does ");
    reveal_strlit("the ");
    reveal_strlit("customer ");
    reveal_strlit("ask ");
    reveal_strlit("for ");
    reveal_strlit("a ");
    reveal_strlit("refund?");
    reveal_with_fuel(word_count, 16);
    assert(word_count("Does "@) == 1);
    assert(word_count("the "@) == 1);
    assert(word_count("customer "@) == 1);
    assert(word_count("ask "@) == 1);
    assert(word_count("for "@) == 1);
    assert(word_count("a "@) == 1);
    assert(word_count("refund?"@) == 1);
    assert("Does the customer ask for a refund?"@ =~= "Does "@ + "the "@ + "customer "@ + "ask "@ + "for "@ + "a "@ + "refund?"@);
    lemma_count_concat("Does "@, "the "@);
    lemma_count_concat("Does "@ + "the "@, "customer "@);
    lemma_count_concat("Does "@ + "the "@ + "customer "@, "ask "@);
    lemma_count_concat("Does "@ + "the "@ + "customer "@ + "ask "@, "for "@);
    lemma_count_concat("Does "@ + "the "@ + "customer "@ + "ask "@ + "for "@, "a "@);
    lemma_count_concat("Does "@ + "the "@ + "customer "@ + "ask "@ + "for "@ + "a "@, "refund?"@);
}

proof fn lemma_count_false()
    ensures
        word_count("false"@) == 1,
{
    reveal_strlit("false");
    reveal_with_fuel(word_count, 16);
    assert(word_count("false"@) == 1);
}

proof fn lemma_count_true()
    ensures
        word_count("true"@) == 1,
{
    reveal_strlit("true");
    reveal_with_fuel(word_count, 16);
    assert(word_count("true"@) == 1);
}

proof fn lemma_question_0(s: Schema)
    requires
        is_demo_schema(s, 0),
    ensures
        word_count(question_chars(s)) == 9,
{
    lemma_count_instr_0();
    reveal_strlit("noul");
    reveal_strlit(" question: ");
    reveal_with_fuel(word_count, 16);
    assert(word_count("noul"@) == 1);
    assert(word_count(" question: "@) == 1);
    lemma_count_concat("noul"@, " question: "@);
    lemma_count_concat("noul"@ + " question: "@, s.instructions@);
    assert(question_chars(s) == "noul"@ + " question: "@ + s.instructions@);
}

proof fn lemma_runs_0(s: Schema)
    requires
        is_demo_schema(s, 0),
    ensures
        option_runs(FixtureTokenizer, 3, s.options@).len() == 4,
{
    lemma_views_0(s);
    lemma_count_false();
    lemma_count_true();
    reveal_with_fuel(runs_len, 3);
    lemma_runs_len(s.options@);
    assert(text_views(s.options@) =~= demo_option_texts(0));
}

proof fn lemma_compiles_0(s: Schema)
    requires
        is_demo_schema(s, 0),
    ensures
        compile_ok(FixtureTokenizer, s, 1),
{
    lemma_views_0(s);
    lemma_valid_0(s);
    lemma_question_0(s);
    lemma_runs_0(s);
    lemma_fixture_ids(question_chars(s));
    let t = FixtureTokenizer;
    let o = s.options@;
    lemma_count_false();
    lemma_fixture_ids(o[0].text@);
    assert(!option_fails(t, o[0].text@));
    lemma_count_true();
    lemma_fixture_ids(o[1].text@);
    assert(!option_fails(t, o[1].text@));
    assert(compiled_prefix(t, s).len() <= 64);
}

proof fn lemma_views_1(s: Schema)
    requires
        is_demo_schema(s, 1),
    ensures
        s.options@.len() == 3,
        s.options@[0].id@ == "execute"@ && s.options@[0].text@ == "process refund"@,
        s.options@[1].id@ == "reject"@ && s.options@[1].text@ == "reject request"@,
        s.options@[2].id@ == "review"@ && s.options@[2].text@ == "human review"@,
{
    assert(option_id_views(s).len() == s.options@.len());
    assert(demo_option_ids(1).len() == 3);
    assert(option_id_views(s)[0] == s.options@[0].id@ && option_text_views(s)[0] == s.options@[0].text@);
    assert(option_id_views(s)[1] == s.options@[1].id@ && option_text_views(s)[1] == s.options@[1].text@);
    assert(option_id_views(s)[2] == s.options@[2].id@ && option_text_views(s)[2] == s.options@[2].text@);
}

proof fn lemma_valid_1(s: Schema)
    requires
        is_demo_schema(s, 1),
    ensures
        schema_valid(s),
        !has_reserved(sbytes(s.instructions), FixtureTokenizer.spec_literals()),
        forall|i: int| 0 <= i < s.options@.len() ==> !has_reserved(sbytes(#[trigger] s.options@[i].text), FixtureTokenizer.spec_literals()),
{
    lemma_views_1(s);
    reveal_strlit("PaymentAction");
    reveal_strlit("Choose the handling action for this request.");
    reveal_strlit("execute");
    reveal_strlit("reject");
    reveal_strlit("review");
    reveal_strlit("process refund");
    reveal_strlit("reject request");
    reveal_strlit("human review");
    let o = s.options@;
    lemma_ascii_encoding(s.id@);
    lemma_ascii_encoding(s.instructions@);
    assert(!spec_white_space(s.instructions@[0]));
    lemma_ascii_encoding(o[0].id@);
    lemma_ascii_encoding(o[0].text@);
    assert(!spec_white_space(o[0].text@[0]));
    assert(option_valid(o[0]));
    lemma_ascii_encoding(o[1].id@);
    lemma_ascii_encoding(o[1].text@);
    assert(!spec_white_space(o[1].text@[0]));
    assert(option_valid(o[1]));
    lemma_ascii_encoding(o[2].id@);
    lemma_ascii_encoding(o[2].text@);
    assert(!spec_white_space(o[2].text@[0]));
    assert(option_valid(o[2]));
    assert(o[0].id@.len() != o[1].id@.len());
    assert(o[0].id@.len() != o[2].id@.len());
    assert(o[1].id@[2] != o[2].id@[2]);
    assert(options_valid(o));
    lemma_no_bracket(sbytes(s.instructions));
    lemma_no_bracket(sbytes(o[0].text));
    lemma_no_bracket(sbytes(o[1].text));
    lemma_no_bracket(sbytes(o[2].text));
}

proof fn lemma_count_instr_1()
    ensures
        word_count("Choose the handling action for this request."@) == 7,
{
    reveal_strlit("Choose the handling action for this request.");
    reveal_strlit("Choose ");
    reveal_strlit("the ");
    reveal_strlit("handling ");
    reveal_strlit("action ");
    reveal_strlit("for ");
    reveal_strlit("this ");
    reveal_strlit("request.");
    reveal_with_fuel(word_count, 16);
    assert(word_count("Choose "@) == 1);
    assert(word_count("the "@) == 1);
    assert(word_count("handling "@) == 1);
    assert(word_count("action "@) == 1);
    assert(word_count("for "@) == 1);
    assert(word_count("this "@) == 1);
    assert(word_count("request."@) == 1);
    assert("Choose the handling action for this request."@ =~= "Choose "@ + "the "@ + "handling "@ + "action "@ + "for "@ + "this "@ + "request."@);
    lemma_count_concat("Choose "@, "the "@);
    lemma_count_concat("Choose "@ + "the "@, "handling "@);
    lemma_count_concat("Choose "@ + "the "@ + "handling "@, "action "@);
    lemma_count_concat("Choose "@ + "the "@ + "handling "@ + "action "@, "for "@);
    lemma_count_concat("Choose "@ + "the "@ + "handling "@ + "action "@ + "for "@, "this "@);
    lemma_count_concat("Choose "@ + "the "@ + "handling "@ + "action "@ + "for "@ + "this "@, "request."@);
}

proof fn lemma_count_process_refund()
    ensures
        word_count("process refund"@) == 2,
{
    reveal_strlit("process refund");
    reveal_strlit("process ");
    reveal_strlit("refund");
    reveal_with_fuel(word_count, 16);
    assert(word_count("process "@) == 1);
    assert(word_count("refund"@) == 1);
    assert("process refund"@ =~= "process "@ + "refund"@);
    lemma_count_concat("process "@, "refund"@);
}

proof fn lemma_count_reject_request()
    ensures
        word_count("reject request"@) == 2,
{
    reveal_strlit("reject request");
    reveal_strlit("reject ");
    reveal_strlit("request");
    reveal_with_fuel(word_count, 16);
    assert(word_count("reject "@) == 1);
    assert(word_count("request"@) == 1);
    assert("reject request"@ =~= "reject "@ + "request"@);
    lemma_count_concat("reject "@, "request"@);
}

proof fn lemma_count_human_review()
    ensures
        word_count("human review"@) == 2,
{
    reveal_strlit("human review");
    reveal_strlit("human ");
    reveal_strlit("review");
    reveal_with_fuel(word_count, 16);
    assert(word_count("human "@) == 1);
    assert(word_count("review"@) == 1);
    assert("human review"@ =~= "human "@ + "review"@);
    lemma_count_concat("human "@, "review"@);
}

proof fn lemma_question_1(s: Schema)
    requires
        is_demo_schema(s, 1),
    ensures
        word_count(question_chars(s)) == 9,
{
    lemma_count_instr_1();
    reveal_strlit("choice");
    reveal_strlit(" question: ");
    reveal_with_fuel(word_count, 16);
    assert(word_count("choice"@) == 1);
    assert(word_count(" question: "@) == 1);
    lemma_count_concat("choice"@, " question: "@);
    lemma_count_concat("choice"@ + " question: "@, s.instructions@);
    assert(question_chars(s) == "choice"@ + " question: "@ + s.instructions@);
}

proof fn lemma_runs_1(s: Schema)
    requires
        is_demo_schema(s, 1),
    ensures
        option_runs(FixtureTokenizer, 3, s.options@).len() == 9,
{
    lemma_views_1(s);
    lemma_count_process_refund();
    lemma_count_reject_request();
    lemma_count_human_review();
    reveal_with_fuel(runs_len, 4);
    lemma_runs_len(s.options@);
    assert(text_views(s.options@) =~= demo_option_texts(1));
}

proof fn lemma_compiles_1(s: Schema)
    requires
        is_demo_schema(s, 1),
    ensures
        compile_ok(FixtureTokenizer, s, 0),
{
    lemma_views_1(s);
    lemma_valid_1(s);
    lemma_question_1(s);
    lemma_runs_1(s);
    lemma_fixture_ids(question_chars(s));
    let t = FixtureTokenizer;
    let o = s.options@;
    lemma_count_process_refund();
    lemma_fixture_ids(o[0].text@);
    assert(!option_fails(t, o[0].text@));
    lemma_count_reject_request();
    lemma_fixture_ids(o[1].text@);
    assert(!option_fails(t, o[1].text@));
    lemma_count_human_review();
    lemma_fixture_ids(o[2].text@);
    assert(!option_fails(t, o[2].text@));
    assert(compiled_prefix(t, s).len() <= 64);
}

proof fn lemma_views_2(s: Schema)
    requires
        is_demo_schema(s, 2),
    ensures
        s.options@.len() == 5,
        s.options@[0].id@ == "minimal"@ && s.options@[0].text@ == "minimal risk"@,
        s.options@[1].id@ == "low"@ && s.options@[1].text@ == "low risk"@,
        s.options@[2].id@ == "medium"@ && s.options@[2].text@ == "moderate risk"@,
        s.options@[3].id@ == "high"@ && s.options@[3].text@ == "high risk"@,
        s.options@[4].id@ == "severe"@ && s.options@[4].text@ == "severe risk"@,
{
    assert(option_id_views(s).len() == s.options@.len());
    assert(demo_option_ids(2).len() == 5);
    assert(option_id_views(s)[0] == s.options@[0].id@ && option_text_views(s)[0] == s.options@[0].text@);
    assert(option_id_views(s)[1] == s.options@[1].id@ && option_text_views(s)[1] == s.options@[1].text@);
    assert(option_id_views(s)[2] == s.options@[2].id@ && option_text_views(s)[2] == s.options@[2].text@);
    assert(option_id_views(s)[3] == s.options@[3].id@ && option_text_views(s)[3] == s.options@[3].text@);
    assert(option_id_views(s)[4] == s.options@[4].id@ && option_text_views(s)[4] == s.options@[4].text@);
}

proof fn lemma_valid_2(s: Schema)
    requires
        is_demo_schema(s, 2),
    ensures
        schema_valid(s),
        !has_reserved(sbytes(s.instructions), FixtureTokenizer.spec_literals()),
        forall|i: int| 0 <= i < s.options@.len() ==> !has_reserved(sbytes(#[trigger] s.options@[i].text), FixtureTokenizer.spec_literals()),
{
    lemma_views_2(s);
    reveal_strlit("PaymentRisk");
    reveal_strlit("Rate request risk from minimal to severe.");
    reveal_strlit("minimal");
    reveal_strlit("low");
    reveal_strlit("medium");
    reveal_strlit("high");
    reveal_strlit("severe");
    reveal_strlit("minimal risk");
    reveal_strlit("low risk");
    reveal_strlit("moderate risk");
    reveal_strlit("high risk");
    reveal_strlit("severe risk");
    let o = s.options@;
    lemma_ascii_encoding(s.id@);
    lemma_ascii_encoding(s.instructions@);
    assert(!spec_white_space(s.instructions@[0]));
    lemma_ascii_encoding(o[0].id@);
    lemma_ascii_encoding(o[0].text@);
    assert(!spec_white_space(o[0].text@[0]));
    assert(option_valid(o[0]));
    lemma_ascii_encoding(o[1].id@);
    lemma_ascii_encoding(o[1].text@);
    assert(!spec_white_space(o[1].text@[0]));
    assert(option_valid(o[1]));
    lemma_ascii_encoding(o[2].id@);
    lemma_ascii_encoding(o[2].text@);
    assert(!spec_white_space(o[2].text@[0]));
    assert(option_valid(o[2]));
    lemma_ascii_encoding(o[3].id@);
    lemma_ascii_encoding(o[3].text@);
    assert(!spec_white_space(o[3].text@[0]));
    assert(option_valid(o[3]));
    lemma_ascii_encoding(o[4].id@);
    lemma_ascii_encoding(o[4].text@);
    assert(!spec_white_space(o[4].text@[0]));
    assert(option_valid(o[4]));
    assert(o[0].id@.len() != o[1].id@.len());
    assert(o[0].id@.len() != o[2].id@.len());
    assert(o[0].id@.len() != o[3].id@.len());
    assert(o[0].id@.len() != o[4].id@.len());
    assert(o[1].id@.len() != o[2].id@.len());
    assert(o[1].id@.len() != o[3].id@.len());
    assert(o[1].id@.len() != o[4].id@.len());
    assert(o[2].id@.len() != o[3].id@.len());
    assert(o[2].id@[0] != o[4].id@[0]);
    assert(o[3].id@.len() != o[4].id@.len());
    assert(options_valid(o));
    lemma_no_bracket(sbytes(s.instructions));
    lemma_no_bracket(sbytes(o[0].text));
    lemma_no_bracket(sbytes(o[1].text));
    lemma_no_bracket(sbytes(o[2].text));
    lemma_no_bracket(sbytes(o[3].text));
    lemma_no_bracket(sbytes(o[4].text));
}

proof fn lemma_count_instr_2()
    ensures
        word_count("Rate request risk from minimal to severe."@) == 7,
{
    reveal_strlit("Rate request risk from minimal to severe.");
    reveal_strlit("Rate ");
    reveal_strlit("request ");
    reveal_strlit("risk ");
    reveal_strlit("from ");
    reveal_strlit("minimal ");
    reveal_strlit("to ");
    reveal_strlit("severe.");
    reveal_with_fuel(word_count, 16);
    assert(word_count("Rate "@) == 1);
    assert(word_count("request "@) == 1);
    assert(word_count("risk "@) == 1);
    assert(word_count("from "@) == 1);
    assert(word_count("minimal "@) == 1);
    assert(word_count("to "@) == 1);
    assert(word_count("severe."@) == 1);
    assert("Rate request risk from minimal to severe."@ =~= "Rate "@ + "request "@ + "risk "@ + "from "@ + "minimal "@ + "to "@ + "severe."@);
    lemma_count_concat("Rate "@, "request "@);
    lemma_count_concat("Rate "@ + "request "@, "risk "@);
    lemma_count_concat("Rate "@ + "request "@ + "risk "@, "from "@);
    lemma_count_concat("Rate "@ + "request "@ + "risk "@ + "from "@, "minimal "@);
    lemma_count_concat("Rate "@ + "request "@ + "risk "@ + "from "@ + "minimal "@, "to "@);
    lemma_count_concat("Rate "@ + "request "@ + "risk "@ + "from "@ + "minimal "@ + "to "@, "severe."@);
}

proof fn lemma_count_minimal_risk()
    ensures
        word_count("minimal risk"@) == 2,
{
    reveal_strlit("minimal risk");
    reveal_strlit("minimal ");
    reveal_strlit("risk");
    reveal_with_fuel(word_count, 16);
    assert(word_count("minimal "@) == 1);
    assert(word_count("risk"@) == 1);
    assert("minimal risk"@ =~= "minimal "@ + "risk"@);
    lemma_count_concat("minimal "@, "risk"@);
}

proof fn lemma_count_low_risk()
    ensures
        word_count("low risk"@) == 2,
{
    reveal_strlit("low risk");
    reveal_strlit("low ");
    reveal_strlit("risk");
    reveal_with_fuel(word_count, 16);
    assert(word_count("low "@) == 1);
    assert(word_count("risk"@) == 1);
    assert("low risk"@ =~= "low "@ + "risk"@);
    lemma_count_concat("low "@, "risk"@);
}

proof fn lemma_count_moderate_risk()
    ensures
        word_count("moderate risk"@) == 2,
{
    reveal_strlit("moderate risk");
    reveal_strlit("moderate ");
    reveal_strlit("risk");
    reveal_with_fuel(word_count, 16);
    assert(word_count("moderate "@) == 1);
    assert(word_count("risk"@) == 1);
    assert("moderate risk"@ =~= "moderate "@ + "risk"@);
    lemma_count_concat("moderate "@, "risk"@);
}

proof fn lemma_count_high_risk()
    ensures
        word_count("high risk"@) == 2,
{
    reveal_strlit("high risk");
    reveal_strlit("high ");
    reveal_strlit("risk");
    reveal_with_fuel(word_count, 16);
    assert(word_count("high "@) == 1);
    assert(word_count("risk"@) == 1);
    assert("high risk"@ =~= "high "@ + "risk"@);
    lemma_count_concat("high "@, "risk"@);
}

proof fn lemma_count_severe_risk()
    ensures
        word_count("severe risk"@) == 2,
{
    reveal_strlit("severe risk");
    reveal_strlit("severe ");
    reveal_strlit("risk");
    reveal_with_fuel(word_count, 16);
    assert(word_count("severe "@) == 1);
    assert(word_count("risk"@) == 1);
    assert("severe risk"@ =~= "severe "@ + "risk"@);
    lemma_count_concat("severe "@, "risk"@);
}

proof fn lemma_question_2(s: Schema)
    requires
        is_demo_schema(s, 2),
    ensures
        word_count(question_chars(s)) == 9,
{
    lemma_count_instr_2();
    reveal_strlit("score");
    reveal_strlit(" question: ");
    reveal_with_fuel(word_count, 16);
    assert(word_count("score"@) == 1);
    assert(word_count(" question: "@) == 1);
    lemma_count_concat("score"@, " question: "@);
    lemma_count_concat("score"@ + " question: "@, s.instructions@);
    assert(question_chars(s) == "score"@ + " question: "@ + s.instructions@);
}

proof fn lemma_runs_2(s: Schema)
    requires
        is_demo_schema(s, 2),
    ensures
        option_runs(FixtureTokenizer, 3, s.options@).len() == 15,
{
    lemma_views_2(s);
    lemma_count_minimal_risk();
    lemma_count_low_risk();
    lemma_count_moderate_risk();
    lemma_count_high_risk();
    lemma_count_severe_risk();
    reveal_with_fuel(runs_len, 6);
    lemma_runs_len(s.options@);
    assert(text_views(s.options@) =~= demo_option_texts(2));
}

proof fn lemma_compiles_2(s: Schema)
    requires
        is_demo_schema(s, 2),
    ensures
        compile_ok(FixtureTokenizer, s, 2),
{
    lemma_views_2(s);
    lemma_valid_2(s);
    lemma_question_2(s);
    lemma_runs_2(s);
    lemma_fixture_ids(question_chars(s));
    let t = FixtureTokenizer;
    let o = s.options@;
    lemma_count_minimal_risk();
    lemma_fixture_ids(o[0].text@);
    assert(!option_fails(t, o[0].text@));
    lemma_count_low_risk();
    lemma_fixture_ids(o[1].text@);
    assert(!option_fails(t, o[1].text@));
    lemma_count_moderate_risk();
    lemma_fixture_ids(o[2].text@);
    assert(!option_fails(t, o[2].text@));
    lemma_count_high_risk();
    lemma_fixture_ids(o[3].text@);
    assert(!option_fails(t, o[3].text@));
    lemma_count_severe_risk();
    lemma_fixture_ids(o[4].text@);
    assert(!option_fails(t, o[4].text@));
    assert(compiled_prefix(t, s).len() <= 64);
}

} // verus!
