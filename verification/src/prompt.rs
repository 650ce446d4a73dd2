//! The checkpoint's prompt contract and tensor naming, for the GLiClass backend.
use vstd::prelude::*;
use vstd::string::{StrSliceExecFns, StringExecFns, StringSliceAdditionalSpecFns};
use crate::schema::{has_reserved, literal_views, TextTokenizer};
use crate::text::{bytes_contain, contains_sub};
use crate::types::{bytes_eq, Error, SpecialTokens};

verus! {

pub const LABEL_MARKER: &'static str = "<<LABEL>>";
pub const SEP_MARKER: &'static str = "<<SEP>>";
/// `[CLS]` is added by the template, so the text side of the head is position 0.
pub const CLS_POSITION: usize = 0;
/// Hard architectural bound for one forward pass.
pub const MAX_SEQUENCE: usize = 1024;
/// Logit slots of the shipped checkpoint: 24 options and one abstention slot.
pub const MAX_CLASSES: usize = 25;

pub open spec fn starts_with(b: Seq<u8>, p: Seq<u8>) -> bool {
    p.len() <= b.len() && b.subrange(0, p.len() as int) == p
}

pub open spec fn ends_with(b: Seq<u8>, p: Seq<u8>) -> bool {
    p.len() <= b.len() && b.subrange(b.len() - p.len(), b.len() as int) == p
}

fn has_prefix(b: &[u8], p: &str) -> (r: bool)
    ensures
        r == starts_with(b@, p.spec_bytes()),
{
    let pb = p.as_bytes();
    if pb.len() > b.len() {
        return false;
    }
    let mut i: usize = 0;
    while i < pb.len()
        invariant
            pb@ == p.spec_bytes(),
            pb@.len() <= b@.len(),
            i <= pb@.len(),
            forall|j: int| 0 <= j < i ==> b@[j] == pb@[j],
        decreases pb@.len() - i,
    {
        if b[i] != pb[i] {
            assert(b@.subrange(0, pb@.len() as int)[i as int] != pb@[i as int]);
            return false;
        }
        i = i + 1;
    }
    assert(b@.subrange(0, pb@.len() as int) =~= pb@);
    true
}

fn has_suffix(b: &[u8], p: &str) -> (r: bool)
    ensures
        r == ends_with(b@, p.spec_bytes()),
{
    let pb = p.as_bytes();
    if pb.len() > b.len() {
        return false;
    }
    let off = b.len() - pb.len();
    let mut i: usize = 0;
    while i < pb.len()
        invariant
            pb@ == p.spec_bytes(),
            off + pb@.len() == b@.len(),
            i <= pb@.len(),
            forall|j: int| 0 <= j < i ==> b@[off + j] == pb@[j],
        decreases pb@.len() - i,
    {
        assert(off + i < b.len());
        if b[off + i] != pb[i] {
            assert(b@.subrange(off as int, b@.len() as int)[i as int] != pb@[i as int]);
            return false;
        }
        i = i + 1;
    }
    assert(b@.subrange(off as int, b@.len() as int) =~= pb@);
    true
}

fn is(b: &[u8], p: &str) -> (r: bool)
    ensures
        r == (b@ == p.spec_bytes()),
{
    bytes_eq(b, p.as_bytes())
}

/// The weight matrices that reach a `Linear`: the four encoder projections of
/// each layer and the four head-projector matrices.
pub open spec fn spec_dense_weight(b: Seq<u8>) -> bool {
    &&& ends_with(b, ".weight".spec_bytes())
    &&& ((starts_with(b, "encoder.".spec_bytes()) && (ends_with(b, ".qkv.weight".spec_bytes())
        || ends_with(b, ".out.weight".spec_bytes()) || ends_with(b, ".wi.weight".spec_bytes())
        || ends_with(b, ".wo.weight".spec_bytes()))) || b == "text_projector.linear_1.weight".spec_bytes()
        || b == "text_projector.linear_2.weight".spec_bytes() || b
        == "classes_projector.linear_1.weight".spec_bytes() || b
        == "classes_projector.linear_2.weight".spec_bytes())
}

pub fn is_dense_weight(name: &str) -> (r: bool)
    ensures
        r == spec_dense_weight(name.spec_bytes()),
{
    let b = name.as_bytes();
    if !has_suffix(b, ".weight") {
        return false;
    }
    if has_prefix(b, "encoder.") && (has_suffix(b, ".qkv.weight") || has_suffix(b, ".out.weight")
        || has_suffix(b, ".wi.weight") || has_suffix(b, ".wo.weight")) {
        return true;
    }
    is(b, "text_projector.linear_1.weight") || is(b, "text_projector.linear_2.weight") || is(
        b,
        "classes_projector.linear_1.weight",
    ) || is(b, "classes_projector.linear_2.weight")
}

/// Every two-dimensional parameter: the dense weights and the embedding table.
pub open spec fn spec_matrix_weight(b: Seq<u8>) -> bool {
    b == "embeddings.weight".spec_bytes() || spec_dense_weight(b)
}

pub fn is_matrix_weight(name: &str) -> (r: bool)
    ensures
        r == spec_matrix_weight(name.spec_bytes()),
{
    is(name.as_bytes(), "embeddings.weight") || is_dense_weight(name)
}

/// The labels' texts carry no reserved literal.
pub open spec fn labels_clean(labels: Seq<String>, lits: Seq<Seq<char>>) -> bool {
    forall|i: int|
        0 <= i < labels.len() ==> !has_reserved(
            vstd::utf8::encode_utf8(#[trigger] labels[i]@),
            lits,
        )
}

/// What `format!("{:?}", s)` gives for a string: `<str as Debug>::fmt`, the
/// text in double quotes with quotes, backslashes and characters that are not
/// printable escaped.
pub uninterp spec fn debug_quoted(s: Seq<char>) -> Seq<char>;

/// `format!("{:?}", s)`, std's `Debug` form of a string. Its result is named
/// by `debug_quoted`; nothing more is claimed of std's escaping.
#[verifier::external_body]
fn quoted(s: &str) -> (r: String)
    ensures
        r@ == debug_quoted(s@),
{
    format!("{:?}", s)
}

/// Literal `k` is non-empty and occurs in the bytes.
pub open spec fn hit_at(b: Seq<u8>, lits: Seq<Seq<char>>, k: int) -> bool {
    0 <= k < lits.len() && lits[k].len() > 0 && contains_sub(b, vstd::utf8::encode_utf8(lits[k]))
}

/// The first reserved literal, in the tokenizer's order, that occurs in the bytes.
pub open spec fn first_hit(b: Seq<u8>, lits: Seq<Seq<char>>) -> int {
    choose|k: int| hit_at(b, lits, k) && forall|j: int| 0 <= j < k ==> !hit_at(b, lits, j)
}

/// The first label that holds a reserved literal.
pub open spec fn first_dirty_label(labels: Seq<String>, lits: Seq<Seq<char>>) -> int {
    choose|j: int|
        0 <= j < labels.len() && has_reserved(vstd::utf8::encode_utf8(labels[j]@), lits) && forall|i: int|
            0 <= i < j ==> !has_reserved(vstd::utf8::encode_utf8(#[trigger] labels[i]@), lits)
}

/// `"{field} contains the reserved token {hit:?}"` for the first literal that
/// occurs in the field's bytes.
pub open spec fn reserved_message(field: Seq<char>, b: Seq<u8>, lits: Seq<Seq<char>>) -> Seq<char> {
    field + " contains the reserved token "@ + debug_quoted(lits[first_hit(b, lits)])
}

/// The index of the first reserved literal that occurs in `s`, if any.
fn first_reserved(s: &str, t: &SpecialTokens) -> (r: Option<usize>)
    ensures
        r is None <==> !has_reserved(s.spec_bytes(), literal_views(*t)),
        r matches Some(k) ==> k < t.literals@.len() && k == first_hit(s.spec_bytes(), literal_views(*t)),
{
    let b = s.as_bytes();
    let ghost lits = literal_views(*t);
    let mut i: usize = 0;
    while i < t.literals.len()
        invariant
            b@ == s.spec_bytes(),
            lits == literal_views(*t),
            i <= t.literals@.len(),
            forall|j: int| 0 <= j < i ==> !hit_at(b@, lits, j),
        decreases t.literals@.len() - i,
    {
        let lit = t.literals[i].as_str();
        assert(lits[i as int] == lit@);
        if !lit.is_empty() && bytes_contain(b, lit.as_bytes()) {
            proof {
                assert(hit_at(b@, lits, i as int));
                let k = first_hit(b@, lits);
                assert(hit_at(b@, lits, k) && forall|j: int| 0 <= j < k ==> !hit_at(b@, lits, j));
                if k < i {
                    assert(!hit_at(b@, lits, k));
                } else if k > i {
                    assert(!hit_at(b@, lits, i as int));
                }
                assert(has_reserved(b@, lits));
            }
            return Some(i);
        }
        i = i + 1;
    }
    proof {
        if has_reserved(b@, lits) {
            let k = choose|k: int| 0 <= k < lits.len() && lits[k].len() > 0 && contains_sub(b@, vstd::utf8::encode_utf8(#[trigger] lits[k]));
            assert(hit_at(b@, lits, k));
        }
    }
    None
}

fn reserved_error(field: &str, lit: &str) -> (e: Error)
    ensures
        e matches Error::Invalid(m) && m@ == field@ + " contains the reserved token "@ + debug_quoted(lit@),
{
    let q = quoted(lit);
    Error::Invalid(String::from_str(field).concat(" contains the reserved token ").concat(q.as_str()))
}

/// Refuses (`Invalid`) a question, state or label containing one of the
/// tokenizer's reserved literals; the message names the first such field
/// (question, then state, then the labels in order) and the first literal, in
/// the tokenizer's order, found in it.
pub fn validate_prompt_inputs(
    question: &str,
    context: &str,
    labels: &[String],
    special: &SpecialTokens,
) -> (r: Result<(), Error>)
    ensures
        r is Ok <==> !has_reserved(question.spec_bytes(), literal_views(*special)) && !has_reserved(
            context.spec_bytes(),
            literal_views(*special),
        ) && labels_clean(labels@, literal_views(*special)),
        r matches Err(e) ==> e matches Error::Invalid(m) && m@ == (if has_reserved(question.spec_bytes(), literal_views(*special)) {
            reserved_message("question"@, question.spec_bytes(), literal_views(*special))
        } else if has_reserved(context.spec_bytes(), literal_views(*special)) {
            reserved_message("state"@, context.spec_bytes(), literal_views(*special))
        } else {
            reserved_message(
                "label"@,
                vstd::utf8::encode_utf8(labels@[first_dirty_label(labels@, literal_views(*special))]@),
                literal_views(*special),
            )
        }),
{
    let ghost lits = literal_views(*special);
    match first_reserved(question, special) {
        Some(k) => {
            assert(lits[k as int] == special.literals@[k as int]@);
            return Err(reserved_error("question", special.literals[k].as_str()));
        },
        None => {},
    }
    match first_reserved(context, special) {
        Some(k) => {
            assert(lits[k as int] == special.literals@[k as int]@);
            return Err(reserved_error("state", special.literals[k].as_str()));
        },
        None => {},
    }
    let mut i: usize = 0;
    while i < labels.len()
        invariant
            lits == literal_views(*special),
            i <= labels@.len(),
            !has_reserved(question.spec_bytes(), lits),
            !has_reserved(context.spec_bytes(), lits),
            forall|j: int| 0 <= j < i ==> !has_reserved(vstd::utf8::encode_utf8(#[trigger] labels@[j]@), lits),
        decreases labels@.len() - i,
    {
        match first_reserved(labels[i].as_str(), special) {
            Some(k) => {
                proof {
                    assert(lits[k as int] == special.literals@[k as int]@);
                    let w = first_dirty_label(labels@, lits);
                    assert(has_reserved(vstd::utf8::encode_utf8(labels@[i as int]@), lits));
                    assert(0 <= w < labels@.len() && has_reserved(vstd::utf8::encode_utf8(labels@[w]@), lits)
                        && forall|x: int| 0 <= x < w ==> !has_reserved(vstd::utf8::encode_utf8(#[trigger] labels@[x]@), lits));
                    if w < i {
                        assert(!has_reserved(vstd::utf8::encode_utf8(labels@[w]@), lits));
                    } else if w > i {
                        assert(!has_reserved(vstd::utf8::encode_utf8(labels@[i as int]@), lits));
                    }
                }
                return Err(reserved_error("label", special.literals[k].as_str()));
            },
            None => {},
        }
        i = i + 1;
    }
    Ok(())
}

/// `<<LABEL>>l` for each label, concatenated in order.
pub open spec fn label_prefix(labels: Seq<String>) -> Seq<char>
    decreases labels.len(),
{
    if labels.len() == 0 {
        Seq::empty()
    } else {
        label_prefix(labels.drop_last()) + "<<LABEL>>"@ + labels.last()@
    }
}

/// `<<LABEL>>l1<<LABEL>>l2…<<SEP>>Question: q\n\nContext:\nstate`, or the bare
/// state when the question is empty.
pub open spec fn spec_prompt(question: Seq<char>, context: Seq<char>, labels: Seq<String>) -> Seq<
    char,
> {
    label_prefix(labels) + "<<SEP>>"@ + if question.len() == 0 {
        context
    } else {
        "Question: "@ + question + "\n\nContext:\n"@ + context
    }
}

/// The checkpoint's prompt. A pure formatter: it does not look for reserved
/// literals (use `render_prompt_checked`).
pub fn render_prompt(question: &str, context: &str, labels: &[String]) -> (s: String)
    ensures
        s@ == spec_prompt(question@, context@, labels@),
{
    let mut out = String::new();
    let mut i: usize = 0;
    while i < labels.len()
        invariant
            i <= labels@.len(),
            out@ == label_prefix(labels@.subrange(0, i as int)),
        decreases labels@.len() - i,
    {
        out.append(LABEL_MARKER);
        out.append(labels[i].as_str());
        assert(labels@.subrange(0, i + 1).drop_last() =~= labels@.subrange(0, i as int));
        i = i + 1;
    }
    assert(labels@.subrange(0, labels@.len() as int) =~= labels@);
    out.append(SEP_MARKER);
    if question.is_empty() {
        out.append(context);
    } else {
        out.append("Question: ");
        out.append(question);
        out.append("\n\nContext:\n");
        out.append(context);
    }
    assert(out@ =~= spec_prompt(question@, context@, labels@));
    out
}

/// `render_prompt` after the reserved-literal check. Adapters use this one.
pub fn render_prompt_checked(
    question: &str,
    context: &str,
    labels: &[String],
    special: &SpecialTokens,
) -> (r: Result<String, Error>)
    ensures
        r is Ok <==> !has_reserved(question.spec_bytes(), literal_views(*special)) && !has_reserved(
            context.spec_bytes(),
            literal_views(*special),
        ) && labels_clean(labels@, literal_views(*special)),
        r matches Ok(s) ==> s@ == spec_prompt(question@, context@, labels@),
        r matches Err(e) ==> e is Invalid,
{
    validate_prompt_inputs(question, context, labels, special)?;
    Ok(render_prompt(question, context, labels))
}


/// `filler` repeated and cut to `n` ids.
pub open spec fn cycled(filler: Seq<u32>, n: int) -> Seq<u32> {
    Seq::new(n as nat, |k: int| filler[k % filler.len() as int])
}

/// Pads a token sequence to `want` ids by repeating `filler` just before its
/// last id (the trailing separator stays last). Nothing changes when the
/// sequence is long enough or there is no filler.
pub fn pad_to(ids: &mut Vec<u32>, want: usize, filler: &[u32])
    requires
        old(ids)@.len() < want && filler@.len() > 0 ==> old(ids)@.len() > 0,
    ensures
        old(ids)@.len() >= want || filler@.len() == 0 ==> final(ids)@ == old(ids)@,
        old(ids)@.len() < want && filler@.len() > 0 ==> final(ids)@ == old(ids)@.drop_last() + cycled(
            filler@,
            want - old(ids)@.len(),
        ) + seq![old(ids)@.last()],
{
    if ids.len() >= want || filler.len() == 0 {
        return;
    }
    let insert = want - ids.len();
    let last = ids.pop().unwrap();
    let ghost head = ids@;
    let mut k: usize = 0;
    while k < insert
        invariant
            k <= insert,
            filler@.len() > 0,
            ids@ == head + cycled(filler@, k as int),
        decreases insert - k,
    {
        ids.push(filler[k % filler.len()]);
        assert(ids@ =~= head + cycled(filler@, k + 1));
        k = k + 1;
    }
    ids.push(last);
}

/// The model input of a rendered prompt: `[CLS]`, the prompt's ids, `[SEP]`.
/// The tokenizer's own error when it refuses the prompt; `TooLong` past the
/// input limit or the model's sequence bound.
pub fn model_input<T: TextTokenizer>(t: &T, prompt: &str, cls: u32, sep: u32, max_input_tokens: u32) -> (r: Result<
    Vec<u32>,
    Error,
>)
    ensures
        match t.spec_encode(prompt@) {
            None => r is Err,
            Some(ids) => if ids.len() + 2 > max_input_tokens || ids.len() + 2 > MAX_SEQUENCE {
                r == Err::<Vec<u32>, Error>(Error::TooLong)
            } else {
                r matches Ok(v) && v@ == seq![cls] + ids + seq![sep]
            },
        },
{
    let mut ids = t.encode_piece(prompt)?;
    if ids.len() > MAX_SEQUENCE || ids.len() + 2 > MAX_SEQUENCE || ids.len() + 2 > max_input_tokens as usize {
        return Err(Error::TooLong);
    }
    let mut input: Vec<u32> = Vec::new();
    input.push(cls);
    input.append(&mut ids);
    input.push(sep);
    Ok(input)
}

/// The model must score exactly one logit per class id; `BindingMismatch` otherwise.
pub fn check_logit_count(logits: usize, ids: usize) -> (r: Result<(), Error>)
    ensures
        r is Ok <==> logits == ids,
        r matches Err(e) ==> e == Error::BindingMismatch,
{
    if logits != ids {
        Err(Error::BindingMismatch)
    } else {
        Ok(())
    }
}


proof fn lemma_label_front(labels: Seq<String>)
    requires
        labels.len() > 0,
    ensures
        label_prefix(labels) == "<<LABEL>>"@ + labels[0]@ + label_prefix(labels.drop_first()),
    decreases labels.len(),
{
    if labels.len() == 1 {
        assert(labels.drop_first() =~= Seq::<String>::empty());
        assert(labels.drop_last() =~= Seq::<String>::empty());
        assert(label_prefix(labels.drop_last()) == Seq::<char>::empty());
        assert(label_prefix(labels) =~= "<<LABEL>>"@ + labels[0]@);
        assert("<<LABEL>>"@ + labels[0]@ + Seq::<char>::empty() =~= "<<LABEL>>"@ + labels[0]@);
    } else {
        lemma_label_front(labels.drop_last());
        assert(labels.drop_last()[0] == labels[0]);
        assert(labels.drop_last().drop_first() =~= labels.drop_first().drop_last());
        assert(labels.drop_first().last() == labels.last());
        assert(label_prefix(labels) =~= "<<LABEL>>"@ + labels[0]@ + label_prefix(labels.drop_first()));
    }
}

/// The checkpoint's prompt layout. A non-empty question is rendered as the
/// state text `"Question: {question}\n\nContext:\n{state}"` without a question;
/// without a question the prompt is the labels' part followed by the bare
/// state; the labels' part is `"<<LABEL>>"` and the label for each label in
/// order, then `"<<SEP>>"`.
pub proof fn law_prompt_layout(question: Seq<char>, context: Seq<char>, labels: Seq<String>)
    ensures
        question.len() > 0 ==> spec_prompt(question, context, labels) == spec_prompt(
            Seq::empty(),
            "Question: "@ + question + "\n\nContext:\n"@ + context,
            labels,
        ),
        spec_prompt(Seq::empty(), context, labels) == spec_prompt(Seq::empty(), Seq::empty(), labels) + context,
        spec_prompt(Seq::empty(), Seq::empty(), Seq::empty()) == "<<SEP>>"@,
        labels.len() > 0 ==> spec_prompt(Seq::empty(), Seq::empty(), labels) == "<<LABEL>>"@ + labels[0]@ + spec_prompt(
            Seq::empty(),
            Seq::empty(),
            labels.drop_first(),
        ),
{
    let e = Seq::<char>::empty();
    assert(spec_prompt(e, e, labels) =~= label_prefix(labels) + "<<SEP>>"@);
    assert(spec_prompt(e, context, labels) =~= label_prefix(labels) + "<<SEP>>"@ + context);
    assert(label_prefix(Seq::<String>::empty()) == e);
    assert(spec_prompt(e, e, Seq::empty()) =~= "<<SEP>>"@);
    if question.len() > 0 {
        assert(spec_prompt(question, context, labels) =~= label_prefix(labels) + "<<SEP>>"@ + ("Question: "@ + question
            + "\n\nContext:\n"@ + context));
        assert(spec_prompt(e, "Question: "@ + question + "\n\nContext:\n"@ + context, labels) =~= label_prefix(labels)
            + "<<SEP>>"@ + ("Question: "@ + question + "\n\nContext:\n"@ + context));
    }
    if labels.len() > 0 {
        lemma_label_front(labels);
        assert(spec_prompt(e, e, labels.drop_first()) =~= label_prefix(labels.drop_first()) + "<<SEP>>"@);
        assert(spec_prompt(e, e, labels) =~= "<<LABEL>>"@ + labels[0]@ + spec_prompt(e, e, labels.drop_first()));
    }
}

} // verus!
