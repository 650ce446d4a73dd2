//! Schema validation, compilation to a fixed token prefix, and prompt rendering.
use vstd::prelude::*;
use vstd::string::{StringExecFns, StringSliceAdditionalSpecFns};
use crate::text::{all_white, bytes_contain, contains_sub, identifier, is_blank, is_identifier};
use crate::types::{
    digest_eq, sbytes, schema_preimage, sha256, CompiledSchema, Digest, Error, OptionDef,
    Primitive, Schema, SpecialTokens, TokenInput, MAX_PREFIX, MAX_STATE_BYTES, MAX_TOKENS,
};

verus! {

/// The characters of each reserved literal.
pub open spec fn literal_views(t: SpecialTokens) -> Seq<Seq<char>> {
    Seq::new(t.literals@.len(), |i: int| t.literals@[i]@)
}

/// The four control ids of a special-token configuration.
pub open spec fn controls(t: SpecialTokens) -> (u32, u32, u32, u32) {
    (t.cls, t.sep, t.mask, t.pad)
}

/// A tokenizer that encodes individual pieces without automatic special tokens
/// or truncation. Encoding is a function of the text.
pub trait TextTokenizer {
    /// The ids of a piece, or `None` when the tokenizer refuses it.
    spec fn spec_encode(&self, text: Seq<char>) -> Option<Seq<u32>>;

    spec fn spec_fingerprint(&self) -> Seq<u8>;

    spec fn spec_controls(&self) -> (u32, u32, u32, u32);

    spec fn spec_literals(&self) -> Seq<Seq<char>>;

    fn encode_piece(&self, text: &str) -> (r: Result<Vec<u32>, Error>)
        ensures
            r is Ok <==> self.spec_encode(text@) is Some,
            r matches Ok(v) ==> v@ == self.spec_encode(text@)->0,
    ;

    fn fingerprint(&self) -> (d: Digest)
        ensures
            d@ == self.spec_fingerprint(),
    ;

    fn special_tokens(&self) -> (t: SpecialTokens)
        ensures
            controls(t) == self.spec_controls(),
            literal_views(t) == self.spec_literals(),
    ;
}

/// Some non-empty reserved literal occurs in the bytes.
pub open spec fn has_reserved(b: Seq<u8>, lits: Seq<Seq<char>>) -> bool {
    exists|i: int|
        0 <= i < lits.len() && lits[i].len() > 0 && contains_sub(
            b,
            vstd::utf8::encode_utf8(#[trigger] lits[i]),
        )
}

pub open spec fn is_control(x: u32, c: (u32, u32, u32, u32)) -> bool {
    x == c.0 || x == c.1 || x == c.2 || x == c.3
}

/// Some id is one of the four control ids.
pub open spec fn has_control(ids: Seq<u32>, c: (u32, u32, u32, u32)) -> bool {
    exists|i: int| 0 <= i < ids.len() && is_control(#[trigger] ids[i], c)
}

pub fn contains_reserved(s: &str, t: &SpecialTokens) -> (r: bool)
    ensures
        r == has_reserved(s.spec_bytes(), literal_views(*t)),
{
    let b = s.as_bytes();
    let mut i: usize = 0;
    while i < t.literals.len()
        invariant
            b@ == s.spec_bytes(),
            i <= t.literals@.len(),
            forall|j: int|
                0 <= j < i ==> !(literal_views(*t)[j].len() > 0 && contains_sub(
                    b@,
                    vstd::utf8::encode_utf8(#[trigger] literal_views(*t)[j]),
                )),
        decreases t.literals@.len() - i,
    {
        let lit = t.literals[i].as_str();
        if !lit.is_empty() && bytes_contain(b, lit.as_bytes()) {
            assert(literal_views(*t)[i as int] == lit@);
            return true;
        }
        assert(literal_views(*t)[i as int] == lit@);
        i = i + 1;
    }
    false
}

pub fn control(ids: &[u32], s: &SpecialTokens) -> (r: bool)
    ensures
        r == has_control(ids@, controls(*s)),
{
    let mut i: usize = 0;
    while i < ids.len()
        invariant
            i <= ids@.len(),
            forall|j: int| 0 <= j < i ==> !is_control(#[trigger] ids@[j], controls(*s)),
        decreases ids@.len() - i,
    {
        let x = ids[i];
        if x == s.cls || x == s.sep || x == s.mask || x == s.pad {
            assert(is_control(ids@[i as int], controls(*s)));
            return true;
        }
        i = i + 1;
    }
    false
}

/// One option of a schema: identifier id, non-blank text of at most 1024 bytes.
pub open spec fn option_valid(o: OptionDef) -> bool {
    &&& is_identifier(sbytes(o.id))
    &&& !all_white(o.text@)
    &&& sbytes(o.text).len() <= 1024
}

/// Valid options with pairwise distinct ids.
pub open spec fn options_valid(opts: Seq<OptionDef>) -> bool {
    &&& forall|i: int| 0 <= i < opts.len() ==> option_valid(#[trigger] opts[i])
    &&& forall|i: int, j: int| 0 <= i < j < opts.len() ==> opts[i].id@ != opts[j].id@
}

/// What `validate_schema` accepts.
pub open spec fn schema_valid(s: Schema) -> bool {
    &&& is_identifier(sbytes(s.id))
    &&& s.version != 0
    &&& !all_white(s.instructions@)
    &&& sbytes(s.instructions).len() <= 2048
    &&& s.primitive.spec_count_valid(s.options@.len() as int)
    &&& options_valid(s.options@)
    &&& s.primitive == Primitive::Noul ==> sbytes(s.options@[0].id) == "false".spec_bytes()
        && sbytes(s.options@[1].id) == "true".spec_bytes()
}

fn bytes_equal(a: &[u8], b: &[u8]) -> (r: bool)
    ensures
        r == (a@ == b@),
{
    crate::types::bytes_eq(a, b)
}

/// Every schema rule; any violation is `Invalid`.
pub fn validate_schema(s: &Schema) -> (r: Result<(), Error>)
    ensures
        r is Ok <==> schema_valid(*s),
        r matches Err(e) ==> e is Invalid,
{
    if !identifier(s.id.as_str()) || s.version == 0 || is_blank(s.instructions.as_str())
        || s.instructions.as_str().as_bytes().len() > 2048 || !s.primitive.count_valid(s.options.len()) {
        return Err(Error::Invalid(String::from_str("schema header")));
    }
    let mut i: usize = 0;
    while i < s.options.len()
        invariant
            is_identifier(sbytes(s.id)),
            s.version != 0,
            !all_white(s.instructions@),
            sbytes(s.instructions).len() <= 2048,
            s.primitive.spec_count_valid(s.options@.len() as int),
            i <= s.options@.len(),
            forall|k: int| 0 <= k < i ==> option_valid(#[trigger] s.options@[k]),
            forall|k: int, j: int| 0 <= k < j < i ==> s.options@[k].id@ != s.options@[j].id@,
        decreases s.options@.len() - i,
    {
        let o = &s.options[i];
        if !identifier(o.id.as_str()) || is_blank(o.text.as_str()) || o.text.as_str().as_bytes().len() > 1024 {
            assert(!option_valid(s.options@[i as int]));
            return Err(Error::Invalid(String::from_str("option id/text")));
        }
        let mut j: usize = 0;
        while j < i
            invariant
                j <= i < s.options@.len(),
                o == s.options@[i as int],
                option_valid(*o),
                forall|k: int| 0 <= k < j ==> s.options@[k].id@ != o.id@,
            decreases i - j,
        {
            if s.options[j].id == o.id {
                return Err(Error::Invalid(String::from_str("option id/text")));
            }
            j = j + 1;
        }
        i = i + 1;
    }
    match s.primitive {
        Primitive::Noul => {
            if !bytes_equal(s.options[0].id.as_str().as_bytes(), "false".as_bytes())
                || !bytes_equal(s.options[1].id.as_str().as_bytes(), "true".as_bytes()) {
                return Err(Error::Invalid(String::from_str("Noul order must be false,true")));
            }
        },
        _ => {},
    }
    Ok(())
}


pub open spec fn prim_chars(p: Primitive) -> Seq<char> {
    match p {
        Primitive::Choice => "choice"@,
        Primitive::Noul => "noul"@,
        Primitive::Score => "score"@,
    }
}

/// The instruction piece: `"{primitive} question: {instructions}"`.
pub open spec fn question_chars(s: Schema) -> Seq<char> {
    prim_chars(s.primitive) + " question: "@ + s.instructions@
}

/// The four control ids are pairwise distinct and some literal is reserved.
pub open spec fn special_ok(c: (u32, u32, u32, u32), lits: Seq<Seq<char>>) -> bool {
    &&& c.0 != c.1 && c.0 != c.2 && c.0 != c.3 && c.1 != c.2 && c.1 != c.3 && c.2 != c.3
    &&& lits.len() > 0
}

/// The option text cannot be compiled: the tokenizer refuses it, it encodes to
/// nothing or to more than 48 ids, or it encodes to a control id.
pub open spec fn option_fails<T: TextTokenizer>(t: T, text: Seq<char>) -> bool {
    match t.spec_encode(text) {
        None => true,
        Some(ids) => ids.len() == 0 || ids.len() > 48 || has_control(ids, t.spec_controls()),
    }
}

/// The error a failing option text yields (the tokenizer's own when it refuses).
pub open spec fn option_error<T: TextTokenizer>(t: T, text: Seq<char>, e: Error) -> bool {
    match t.spec_encode(text) {
        None => true,
        Some(ids) => if ids.len() == 0 || ids.len() > 48 {
            e == Error::TooLong
        } else {
            e is Invalid
        },
    }
}

/// The mask-led id run of each option, concatenated in order.
pub open spec fn option_runs<T: TextTokenizer>(t: T, mask: u32, opts: Seq<OptionDef>) -> Seq<u32>
    decreases opts.len(),
{
    if opts.len() == 0 {
        Seq::empty()
    } else {
        option_runs(t, mask, opts.drop_last()) + seq![mask] + t.spec_encode(opts.last().text@)->0
    }
}

/// The position of each option's mask when the runs start at `base`.
pub open spec fn option_markers<T: TextTokenizer>(
    t: T,
    mask: u32,
    base: int,
    opts: Seq<OptionDef>,
) -> Seq<u32>
    decreases opts.len(),
{
    if opts.len() == 0 {
        Seq::empty()
    } else {
        option_markers(t, mask, base, opts.drop_last()).push(
            (base + option_runs(t, mask, opts.drop_last()).len()) as u32,
        )
    }
}

/// The instruction ids (meaningful when the tokenizer accepts the question).
pub open spec fn instruction_ids<T: TextTokenizer>(t: T, s: Schema) -> Seq<u32> {
    t.spec_encode(question_chars(s))->0
}

/// `[CLS] instruction [SEP] ([MASK] option)* [SEP]`.
pub open spec fn compiled_prefix<T: TextTokenizer>(t: T, s: Schema) -> Seq<u32> {
    let c = t.spec_controls();
    seq![c.0] + instruction_ids(t, s) + seq![c.1] + option_runs(t, c.2, s.options@) + seq![c.1]
}

/// Every check before the option loop passes.
pub open spec fn compile_front_ok<T: TextTokenizer>(t: T, s: Schema, qtype_id: u32) -> bool {
    let lits = t.spec_literals();
    &&& schema_valid(s)
    &&& qtype_id < 3
    &&& special_ok(t.spec_controls(), lits)
    &&& !has_reserved(sbytes(s.instructions), lits)
    &&& forall|i: int|
        0 <= i < s.options@.len() ==> !has_reserved(sbytes(#[trigger] s.options@[i].text), lits)
    &&& t.spec_encode(question_chars(s)) is Some
    &&& instruction_ids(t, s).len() > 0
    &&& !has_control(instruction_ids(t, s), t.spec_controls())
}

/// What `compile` accepts.
pub open spec fn compile_ok<T: TextTokenizer>(t: T, s: Schema, qtype_id: u32) -> bool {
    &&& compile_front_ok(t, s, qtype_id)
    &&& forall|i: int| 0 <= i < s.options@.len() ==> !option_fails(t, #[trigger] s.options@[i].text@)
    &&& compiled_prefix(t, s).len() <= MAX_PREFIX
}

/// The error `compile` reports, by the first check that fails.
pub open spec fn compile_failure<T: TextTokenizer>(t: T, s: Schema, qtype_id: u32, e: Error) -> bool {
    let lits = t.spec_literals();
    if !schema_valid(s) || qtype_id >= 3 || !special_ok(t.spec_controls(), lits) || has_reserved(
        sbytes(s.instructions),
        lits,
    ) || (exists|i: int|
        0 <= i < s.options@.len() && has_reserved(sbytes(#[trigger] s.options@[i].text), lits)) {
        e is Invalid
    } else if t.spec_encode(question_chars(s)) is None {
        true
    } else if instruction_ids(t, s).len() == 0 || has_control(
        instruction_ids(t, s),
        t.spec_controls(),
    ) {
        e is Invalid
    } else if exists|i: int|
        0 <= i < s.options@.len() && option_fails(t, #[trigger] s.options@[i].text@) {
        exists|k: int|
            0 <= k < s.options@.len() && option_fails(t, s.options@[k].text@) && (forall|j: int|
                0 <= j < k ==> !option_fails(t, #[trigger] s.options@[j].text@)) && option_error(
                t,
                s.options@[k].text@,
                e,
            )
    } else {
        e == Error::TooLong
    }
}

/// `c` is the compiled form of `s` under tokenizer `t`.
pub open spec fn compiled_from<T: TextTokenizer>(
    c: CompiledSchema,
    t: T,
    s: Schema,
    qtype_id: u32,
) -> bool {
    &&& c.schema == s
    &&& c.tokenizer_hash@ == t.spec_fingerprint()
    &&& c.schema_hash@ == sha256(schema_preimage(s, t.spec_fingerprint()))
    &&& c.prefix@ == compiled_prefix(t, s)
    &&& c.markers@ == option_markers(
        t,
        t.spec_controls().2,
        instruction_ids(t, s).len() + 2int,
        s.options@,
    )
    &&& controls(c.special) == t.spec_controls()
    &&& literal_views(c.special) == t.spec_literals()
    &&& c.qtype_id == qtype_id
}

fn question_text(s: &Schema) -> (q: String)
    ensures
        q@ == question_chars(*s),
{
    let mut q = String::from_str(s.primitive.text());
    q.append(" question: ");
    q.append(s.instructions.as_str());
    q
}

/// Compiles a schema into its token prefix and mask markers.
pub fn compile<T: TextTokenizer>(s: Schema, t: &T, qtype_id: u32) -> (r: Result<
    CompiledSchema,
    Error,
>)
    ensures
        r is Ok <==> compile_ok(*t, s, qtype_id),
        r matches Ok(c) ==> compiled_from(c, *t, s, qtype_id),
        r matches Err(e) ==> compile_failure(*t, s, qtype_id, e),
{
    validate_schema(&s)?;
    if qtype_id >= 3 {
        return Err(Error::Invalid(String::from_str("qtype mapping")));
    }
    let special = t.special_tokens();
    let (cls, sep, mask, pad) = (special.cls, special.sep, special.mask, special.pad);
    if cls == sep || cls == mask || cls == pad || sep == mask || sep == pad || mask == pad
        || special.literals.len() == 0 {
        return Err(Error::Invalid(String::from_str("special token config")));
    }
    if contains_reserved(s.instructions.as_str(), &special) {
        return Err(Error::Invalid(String::from_str("reserved token literal")));
    }
    let mut i: usize = 0;
    while i < s.options.len()
        invariant
            i <= s.options@.len(),
            literal_views(special) == t.spec_literals(),
            forall|j: int|
                0 <= j < i ==> !has_reserved(
                    sbytes(#[trigger] s.options@[j].text),
                    t.spec_literals(),
                ),
        decreases s.options@.len() - i,
    {
        if contains_reserved(s.options[i].text.as_str(), &special) {
            return Err(Error::Invalid(String::from_str("reserved token literal")));
        }
        i = i + 1;
    }
    let question = question_text(&s);
    let instr_ids = t.encode_piece(question.as_str())?;
    if instr_ids.len() == 0 || control(instr_ids.as_slice(), &special) {
        return Err(Error::Invalid(String::from_str("instruction tokens")));
    }
    let mut prefix: Vec<u32> = Vec::new();
    prefix.push(cls);
    let mut instr = instr_ids;
    prefix.append(&mut instr);
    prefix.push(sep);
    let ghost head = prefix@;
    assert(head =~= seq![cls] + instruction_ids(*t, s) + seq![sep]);
    let mut markers: Vec<u32> = Vec::new();
    let mut k: usize = 0;
    while k < s.options.len()
        invariant
            k <= s.options@.len(),
            compile_front_ok(*t, s, qtype_id),
            controls(special) == t.spec_controls(),
            literal_views(special) == t.spec_literals(),
            cls == t.spec_controls().0,
            sep == t.spec_controls().1,
            mask == t.spec_controls().2,
            head == seq![cls] + instruction_ids(*t, s) + seq![sep],
            prefix@ == head + option_runs(*t, mask, s.options@.subrange(0, k as int)),
            markers@ == option_markers(
                *t,
                mask,
                head.len() as int,
                s.options@.subrange(0, k as int),
            ),
            forall|j: int| 0 <= j < k ==> !option_fails(*t, #[trigger] s.options@[j].text@),
        decreases s.options@.len() - k,
    {
        let ghost done = s.options@.subrange(0, k as int);
        assert(s.options@.subrange(0, k + 1).drop_last() =~= done);
        let ghost text = s.options@[k as int].text@;
        let encoded = t.encode_piece(s.options[k].text.as_str());
        let mut ids = match encoded {
            Ok(v) => v,
            Err(e) => {
                assert(option_fails(*t, text) && option_error(*t, text, e));
                return Err(e);
            },
        };
        if ids.len() == 0 || ids.len() > 48 {
            assert(option_fails(*t, text) && option_error(*t, text, Error::TooLong));
            return Err(Error::TooLong);
        }
        if control(ids.as_slice(), &special) {
            let err = Error::Invalid(String::from_str("option control token"));
            assert(option_fails(*t, text) && option_error(*t, text, err));
            return Err(err);
        }
        markers.push(prefix.len() as u32);
        prefix.push(mask);
        prefix.append(&mut ids);
        proof {
            let nd = s.options@.subrange(0, k + 1);
            assert(nd.drop_last() =~= done);
            assert(nd.last() == s.options@[k as int]);
            assert(prefix@ =~= head + option_runs(*t, mask, nd));
        }
        k = k + 1;
    }
    assert(s.options@.subrange(0, s.options@.len() as int) =~= s.options@);
    prefix.push(sep);
    assert(prefix@ =~= compiled_prefix(*t, s));
    if prefix.len() > MAX_PREFIX {
        return Err(Error::TooLong);
    }
    let tokenizer_hash = t.fingerprint();
    let schema_hash = s.digest(&tokenizer_hash);
    Ok(CompiledSchema { schema: s, schema_hash, tokenizer_hash, prefix, markers, special, qtype_id })
}


/// How many ids equal `x`.
pub open spec fn count_of(ids: Seq<u32>, x: u32) -> nat
    decreases ids.len(),
{
    if ids.len() == 0 {
        0
    } else {
        count_of(ids.drop_last(), x) + if ids.last() == x {
            1nat
        } else {
            0nat
        }
    }
}

/// Everything but the schema rules that `validate_compiled` checks.
pub open spec fn compiled_consistent(c: CompiledSchema) -> bool {
    let p = c.prefix@;
    let m = c.markers@;
    &&& c.schema_hash@ == sha256(schema_preimage(c.schema, c.tokenizer_hash@))
    &&& 5 <= p.len() <= MAX_PREFIX
    &&& p[0] == c.special.cls
    &&& p.last() == c.special.sep
    &&& m.len() == c.schema.options@.len()
    &&& c.qtype_id < 3
    &&& forall|i: int| 0 <= i < m.len() ==> m[i] < p.len() && p[m[i] as int] == c.special.mask
    &&& forall|i: int, j: int| 0 <= i < j < m.len() ==> m[i] < m[j]
    &&& count_of(p, c.special.mask) == m.len()
}

/// Checks a compiled schema received from elsewhere: `Invalid` when its schema
/// breaks a rule, `BindingMismatch` when anything derived from it disagrees.
pub fn validate_compiled(s: &CompiledSchema) -> (r: Result<(), Error>)
    ensures
        r is Ok <==> schema_valid(s.schema) && compiled_consistent(*s),
        r matches Err(e) ==> if schema_valid(s.schema) {
            e == Error::BindingMismatch
        } else {
            e is Invalid
        },
{
    validate_schema(&s.schema)?;
    let h = s.schema.digest(&s.tokenizer_hash);
    let n = s.prefix.len();
    if !digest_eq(&s.schema_hash, &h) || n > MAX_PREFIX || n < 5 || s.prefix[0] != s.special.cls
        || s.prefix[n - 1] != s.special.sep || s.markers.len() != s.schema.options.len()
        || s.qtype_id >= 3 {
        return Err(Error::BindingMismatch);
    }
    let mut i: usize = 0;
    while i < s.markers.len()
        invariant
            schema_valid(s.schema),
            n == s.prefix@.len(),
            i <= s.markers@.len(),
            forall|k: int|
                0 <= k < i ==> s.markers@[k] < n && s.prefix@[s.markers@[k] as int]
                    == s.special.mask,
            forall|a: int, b: int| 0 <= a < b < i ==> s.markers@[a] < s.markers@[b],
        decreases s.markers@.len() - i,
    {
        let p = s.markers[i];
        if p as usize >= n || s.prefix[p as usize] != s.special.mask {
            return Err(Error::BindingMismatch);
        }
        if i > 0 && p <= s.markers[i - 1] {
            return Err(Error::BindingMismatch);
        }
        i = i + 1;
    }
    let mut count: usize = 0;
    let mut j: usize = 0;
    while j < n
        invariant
            schema_valid(s.schema),
            n == s.prefix@.len(),
            j <= n,
            count == count_of(s.prefix@.subrange(0, j as int), s.special.mask),
            count <= j,
        decreases n - j,
    {
        assert(s.prefix@.subrange(0, j + 1).drop_last() =~= s.prefix@.subrange(0, j as int));
        if s.prefix[j] == s.special.mask {
            count = count + 1;
        }
        j = j + 1;
    }
    assert(s.prefix@.subrange(0, n as int) =~= s.prefix@);
    if count != s.markers.len() {
        return Err(Error::BindingMismatch);
    }
    Ok(())
}

fn literals_eq(a: &Vec<String>, b: &Vec<String>) -> (r: bool)
    ensures
        r == (Seq::new(a@.len(), |i: int| a@[i]@) == Seq::new(b@.len(), |i: int| b@[i]@)),
{
    let ghost va = Seq::new(a@.len(), |i: int| a@[i]@);
    let ghost vb = Seq::new(b@.len(), |i: int| b@[i]@);
    if a.len() != b.len() {
        assert(va.len() != vb.len());
        return false;
    }
    let mut i: usize = 0;
    while i < a.len()
        invariant
            i <= a@.len(),
            a@.len() == b@.len(),
            va == Seq::new(a@.len(), |i: int| a@[i]@),
            vb == Seq::new(b@.len(), |i: int| b@[i]@),
            forall|j: int| 0 <= j < i ==> a@[j]@ == b@[j]@,
        decreases a@.len() - i,
    {
        if a[i] != b[i] {
            assert(va[i as int] != vb[i as int]);
            return false;
        }
        i = i + 1;
    }
    assert(va =~= vb);
    true
}

/// The error `render` reports after the compiled schema itself passed.
pub open spec fn render_failure<T: TextTokenizer>(
    c: CompiledSchema,
    t: T,
    state: Seq<char>,
    e: Error,
) -> bool {
    let lits = literal_views(c.special);
    if t.spec_fingerprint() != c.tokenizer_hash@ || t.spec_controls() != controls(c.special)
        || t.spec_literals() != lits {
        e == Error::BindingMismatch
    } else if state.len() == 0 || vstd::utf8::encode_utf8(state).len() > MAX_STATE_BYTES {
        e == Error::TooLong
    } else if has_reserved(vstd::utf8::encode_utf8(state), lits) {
        e matches Error::Invalid(m) && m@ == "reserved token literal"@
    } else if t.spec_encode(state) is None {
        true
    } else if t.spec_encode(state)->0.len() == 0 || has_control(
        t.spec_encode(state)->0,
        controls(c.special),
    ) {
        e matches Error::Invalid(m) && m@ == "state tokens"@
    } else {
        e == Error::TooLong
    }
}

/// What `render` accepts once the compiled schema is consistent.
pub open spec fn render_ok<T: TextTokenizer>(c: CompiledSchema, t: T, state: Seq<char>) -> bool {
    let lits = literal_views(c.special);
    &&& t.spec_fingerprint() == c.tokenizer_hash@
    &&& t.spec_controls() == controls(c.special)
    &&& t.spec_literals() == lits
    &&& state.len() > 0
    &&& vstd::utf8::encode_utf8(state).len() <= MAX_STATE_BYTES
    &&& !has_reserved(vstd::utf8::encode_utf8(state), lits)
    &&& t.spec_encode(state) is Some
    &&& t.spec_encode(state)->0.len() > 0
    &&& !has_control(t.spec_encode(state)->0, controls(c.special))
    &&& c.prefix@.len() + t.spec_encode(state)->0.len() + 1 <= MAX_TOKENS
}

/// The model input for `state`: `prefix ++ state ids ++ [SEP]`.
pub fn render<T: TextTokenizer>(s: &CompiledSchema, t: &T, state: &str) -> (r: Result<
    TokenInput,
    Error,
>)
    ensures
        r is Ok <==> schema_valid(s.schema) && compiled_consistent(*s) && render_ok(*s, *t, state@),
        r matches Ok(x) ==> x.input_ids@ == s.prefix@ + t.spec_encode(state@)->0 + seq![
            s.special.sep,
        ] && x.markers@ == s.markers@ && x.qtype_id == s.qtype_id,
        r matches Err(e) ==> if !schema_valid(s.schema) {
            e is Invalid
        } else if !compiled_consistent(*s) {
            e == Error::BindingMismatch
        } else {
            render_failure(*s, *t, state@, e)
        },
{
    validate_compiled(s)?;
    let fp = t.fingerprint();
    let sp = t.special_tokens();
    if !digest_eq(&fp, &s.tokenizer_hash) || sp.cls != s.special.cls || sp.sep != s.special.sep
        || sp.mask != s.special.mask || sp.pad != s.special.pad || !literals_eq(
        &sp.literals,
        &s.special.literals,
    ) {
        return Err(Error::BindingMismatch);
    }
    if state.is_empty() || state.as_bytes().len() > MAX_STATE_BYTES {
        return Err(Error::TooLong);
    }
    if contains_reserved(state, &s.special) {
        return Err(Error::Invalid(String::from_str("reserved token literal")));
    }
    let mut ids = t.encode_piece(state)?;
    if ids.len() == 0 || control(ids.as_slice(), &s.special) {
        return Err(Error::Invalid(String::from_str("state tokens")));
    }
    if ids.len() > MAX_TOKENS - 1 - s.prefix.len() {
        return Err(Error::TooLong);
    }
    let mut input = s.prefix.clone();
    input.append(&mut ids);
    input.push(s.special.sep);
    Ok(TokenInput { input_ids: input, markers: s.markers.clone(), qtype_id: s.qtype_id })
}


proof fn lemma_count_concat(a: Seq<u32>, b: Seq<u32>, x: u32)
    ensures
        count_of(a + b, x) == count_of(a, x) + count_of(b, x),
    decreases b.len(),
{
    if b.len() == 0 {
        assert(a + b =~= a);
    } else {
        assert((a + b).drop_last() =~= a + b.drop_last());
        lemma_count_concat(a, b.drop_last(), x);
    }
}

proof fn lemma_count_absent(a: Seq<u32>, x: u32)
    requires
        forall|i: int| 0 <= i < a.len() ==> a[i] != x,
    ensures
        count_of(a, x) == 0,
    decreases a.len(),
{
    if a.len() > 0 {
        lemma_count_absent(a.drop_last(), x);
    }
}

/// The runs and markers of options that all compile: one mask per option, each
/// marker at its mask, in increasing order.
proof fn lemma_runs_and_markers<T: TextTokenizer>(t: T, base: int, opts: Seq<OptionDef>)
    requires
        0 <= base,
        base + option_runs(t, t.spec_controls().2, opts).len() <= MAX_PREFIX,
        forall|i: int| 0 <= i < opts.len() ==> !option_fails(t, #[trigger] opts[i].text@),
    ensures
        ({
            let mask = t.spec_controls().2;
            let r = option_runs(t, mask, opts);
            let m = option_markers(t, mask, base, opts);
            &&& r.len() >= 2 * opts.len()
            &&& count_of(r, mask) == opts.len()
            &&& m.len() == opts.len()
            &&& forall|i: int| 0 <= i < m.len() ==> base <= #[trigger] m[i] < base + r.len() && r[m[i] - base] == mask
            &&& forall|i: int, j: int| 0 <= i < j < m.len() ==> m[i] < m[j]
        }),
    decreases opts.len(),
{
    let mask = t.spec_controls().2;
    if opts.len() > 0 {
        let d = opts.drop_last();
        let o = opts.last();
        let ids = t.spec_encode(o.text@)->0;
        assert(!option_fails(t, opts[opts.len() - 1].text@));
        let rd = option_runs(t, mask, d);
        let r = option_runs(t, mask, opts);
        assert(r == rd + seq![mask] + ids);
        assert forall|i: int| 0 <= i < d.len() implies !option_fails(t, #[trigger] d[i].text@) by {
            assert(d[i] == opts[i]);
        }
        lemma_runs_and_markers(t, base, d);
        let md = option_markers(t, mask, base, d);
        let m = option_markers(t, mask, base, opts);
        assert(m == md.push((base + rd.len()) as u32));
        assert forall|k: int| 0 <= k < ids.len() implies ids[k] != mask by {
            if ids[k] == mask {
                assert(is_control(ids[k], t.spec_controls()));
            }
        }
        lemma_count_absent(ids, mask);
        lemma_count_concat(rd + seq![mask], ids, mask);
        lemma_count_concat(rd, seq![mask], mask);
        assert(count_of(seq![mask], mask) == 1) by {
            assert(seq![mask].drop_last() =~= Seq::<u32>::empty());
        assert(count_of(seq![mask].drop_last(), mask) == 0);
        }
        assert forall|i: int| 0 <= i < m.len() implies base <= #[trigger] m[i] < base + r.len() && r[m[i] - base] == mask by {
            if i < md.len() {
                assert(m[i] == md[i]);
                assert(r[md[i] - base] == rd[md[i] - base]);
            } else {
                assert(m[i] == base + rd.len());
            }
        }
        assert forall|i: int, j: int| 0 <= i < j < m.len() implies m[i] < m[j] by {
            if j < md.len() {
                assert(m[i] == md[i] && m[j] == md[j]);
            } else {
                assert(m[i] == md[i]);
            }
        }
    } else {
        assert(option_runs(t, mask, opts) =~= Seq::<u32>::empty());
    }
}

/// What `compile` produces passes `validate_compiled`: the schema keeps its
/// rules and the prefix, markers, hash and query type agree with it.
pub proof fn law_compiled_schemas_validate<T: TextTokenizer>(t: T, s: Schema, qtype_id: u32, c: CompiledSchema)
    requires
        compile_ok(t, s, qtype_id),
        compiled_from(c, t, s, qtype_id),
    ensures
        schema_valid(c.schema),
        compiled_consistent(c),
{
    let ctl = t.spec_controls();
    let mask = ctl.2;
    let instr = instruction_ids(t, s);
    let r = option_runs(t, mask, s.options@);
    let p = c.prefix@;
    let base: int = instr.len() as int + 2;
    assert(p == seq![ctl.0] + instr + seq![ctl.1] + r + seq![ctl.1]);
    assert(p.len() == base + r.len() + 1);
    assert forall|i: int| 0 <= i < s.options@.len() implies !option_fails(t, #[trigger] s.options@[i].text@) by {}
    lemma_runs_and_markers(t, base, s.options@);
    assert(s.primitive.spec_count_valid(s.options@.len() as int));
    assert(c.special.cls == ctl.0 && c.special.sep == ctl.1 && c.special.mask == ctl.2);
    assert forall|k: int| 0 <= k < instr.len() implies instr[k] != mask by {
        if instr[k] == mask {
            assert(is_control(instr[k], ctl));
        }
    }
    lemma_count_absent(instr, mask);
    lemma_count_concat(seq![ctl.0], instr, mask);
    lemma_count_concat(seq![ctl.0] + instr, seq![ctl.1], mask);
    lemma_count_concat(seq![ctl.0] + instr + seq![ctl.1], r, mask);
    lemma_count_concat(seq![ctl.0] + instr + seq![ctl.1] + r, seq![ctl.1], mask);
    assert(count_of(seq![ctl.0], mask) == 0) by {
        assert(seq![ctl.0].drop_last() =~= Seq::<u32>::empty());
        assert(count_of(seq![ctl.0].drop_last(), mask) == 0);
    }
    assert(count_of(seq![ctl.1], mask) == 0) by {
        assert(seq![ctl.1].drop_last() =~= Seq::<u32>::empty());
        assert(count_of(seq![ctl.1].drop_last(), mask) == 0);
    }
    assert(ctl.0 != mask && ctl.1 != mask);
    let m = c.markers@;
    assert forall|i: int| 0 <= i < m.len() implies m[i] < p.len() && p[m[i] as int] == c.special.mask by {
        assert(base <= m[i] < base + r.len());
        assert(p[m[i] as int] == r[m[i] - base]);
    }
}

} // verus!
