//! The integer architecture of a verdict checkpoint: the bounds a supported
//! configuration keeps, the class slots it scores, and the tensors (names and
//! shapes) its pack must hold. The norm epsilon and rope thetas are floats and
//! are checked by the host after these checks.
use vstd::prelude::*;
use vstd::string::{StringExecFns, StringSliceAdditionalSpecFns};
use vstd::utf8::{encode_utf8, encode_utf8_decode_utf8, is_ascii_chars, is_ascii_chars_encode_utf8};
use crate::pack::ExpectedTensor;
use crate::prompt::{ends_with, spec_dense_weight, spec_matrix_weight, starts_with};
use crate::text::{decimal, decimal_bytes, lemma_decimal_ascii};
use crate::types::{ascii_chars, ascii_string, Error};

verus! {

/// The projector's activation.
#[derive(Debug, Clone, Copy, PartialEq, Eq, Structural)]
pub enum Activation {
    Relu,
    Gelu,
}

/// The integer fields of a verdict configuration.
#[derive(Debug, Clone, Copy, PartialEq, Eq)]
pub struct VerdictShape {
    pub vocab_size: usize,
    pub hidden_size: usize,
    pub layers: usize,
    pub attention_heads: usize,
    pub intermediate_size: usize,
    pub global_every: usize,
    pub local_attention: usize,
    pub first_layer_attention_norm: bool,
    pub cls_token_id: u32,
    pub sep_token_id: u32,
    pub class_token_id: u32,
    pub max_classes: usize,
    pub projector_activation: Activation,
}

/// A supported architecture: bounded sizes, heads that divide the width into
/// even head sizes, token ids inside the vocabulary, and a class token
/// distinct from `[CLS]` and `[SEP]`.
pub open spec fn shape_ok(c: VerdictShape) -> bool {
    let h = c.hidden_size;
    &&& 0 < h <= 2048 && 5 <= c.vocab_size <= 300_000 && 0 < c.layers <= 64
    &&& c.attention_heads != 0 && h % c.attention_heads == 0 && (h / c.attention_heads) % 2 == 0
    &&& 0 < c.intermediate_size <= 16384
    &&& c.global_every != 0 && c.local_attention != 0
    &&& 0 < c.max_classes <= 64
    &&& c.cls_token_id < c.vocab_size && c.class_token_id < c.vocab_size && c.sep_token_id < c.vocab_size
    &&& c.cls_token_id != c.class_token_id && c.sep_token_id != c.class_token_id
}

pub open spec fn layer_prefix(i: nat) -> Seq<char> {
    "encoder."@ + ascii_chars(decimal(i)) + "."@
}

/// The tensors of encoder layer `i`.
pub open spec fn layer_list(c: VerdictShape, i: nat) -> Seq<(Seq<char>, Seq<usize>)> {
    let p = layer_prefix(i);
    let h = c.hidden_size;
    (if i > 0 || c.first_layer_attention_norm { seq![(p + "attn_norm.weight"@, seq![h])] } else { Seq::empty() }) + seq![
        (p + "qkv.weight"@, seq![(3 * h) as usize, h]),
        (p + "out.weight"@, seq![h, h]),
        (p + "mlp_norm.weight"@, seq![h]),
        (p + "wi.weight"@, seq![(2 * c.intermediate_size) as usize, h]),
        (p + "wo.weight"@, seq![h, c.intermediate_size]),
    ]
}

pub open spec fn layers_list(c: VerdictShape, n: nat) -> Seq<(Seq<char>, Seq<usize>)>
    decreases n,
{
    if n == 0 {
        Seq::empty()
    } else {
        layers_list(c, (n - 1) as nat) + layer_list(c, (n - 1) as nat)
    }
}

pub open spec fn projector_list(c: VerdictShape) -> Seq<(Seq<char>, Seq<usize>)> {
    let h = c.hidden_size;
    seq![
        ("text_projector.linear_1.weight"@, seq![h, h]),
        ("text_projector.linear_1.bias"@, seq![h]),
        ("text_projector.linear_2.weight"@, seq![h, h]),
        ("text_projector.linear_2.bias"@, seq![h]),
        ("classes_projector.linear_1.weight"@, seq![h, h]),
        ("classes_projector.linear_1.bias"@, seq![h]),
        ("classes_projector.linear_2.weight"@, seq![h, h]),
        ("classes_projector.linear_2.bias"@, seq![h]),
    ]
}

/// Every tensor the architecture has, by canonical name and shape.
pub open spec fn tensor_list(c: VerdictShape) -> Seq<(Seq<char>, Seq<usize>)> {
    let h = c.hidden_size;
    seq![("embeddings.weight"@, seq![c.vocab_size, h]), ("embeddings.norm.weight"@, seq![h]), ("final_norm.weight"@, seq![h])]
        + layers_list(c, c.layers as nat) + projector_list(c)
}

pub open spec fn tensor_views(v: Seq<ExpectedTensor>) -> Seq<(Seq<char>, Seq<usize>)> {
    v.map_values(|t: ExpectedTensor| (t.name@, t.shape@))
}

fn push_tensor(out: &mut Vec<ExpectedTensor>, name: String, shape: Vec<usize>)
    ensures
        tensor_views(final(out)@) == tensor_views(old(out)@).push((name@, shape@)),
{
    let ghost before = out@;
    let ghost n = name@;
    let ghost s = shape@;
    out.push(ExpectedTensor { name, shape });
    assert(tensor_views(out@) =~= tensor_views(before).push((n, s)));
}

fn one(a: usize) -> (v: Vec<usize>)
    ensures
        v@ == seq![a],
{
    let mut v: Vec<usize> = Vec::new();
    v.push(a);
    assert(v@ =~= seq![a]);
    v
}

fn two(a: usize, b: usize) -> (v: Vec<usize>)
    ensures
        v@ == seq![a, b],
{
    let mut v: Vec<usize> = Vec::new();
    v.push(a);
    v.push(b);
    assert(v@ =~= seq![a, b]);
    v
}

impl VerdictShape {
    /// `Invalid("unsupported verdict config")` outside the supported architecture.
    pub fn validate(&self) -> (r: Result<(), Error>)
        ensures
            r is Ok <==> shape_ok(*self),
            r matches Err(e) ==> e matches Error::Invalid(m) && m@ == "unsupported verdict config"@,
    {
        let h = self.hidden_size;
        if h == 0 || h > 2048 || self.vocab_size < 5 || self.vocab_size > 300_000 || self.layers == 0 || self.layers > 64
            || self.attention_heads == 0 || h % self.attention_heads != 0 || (h / self.attention_heads) % 2 != 0
            || self.intermediate_size == 0 || self.intermediate_size > 16384 || self.global_every == 0
            || self.local_attention == 0 || self.max_classes == 0 || self.max_classes > 64
            || self.cls_token_id as usize >= self.vocab_size || self.class_token_id as usize >= self.vocab_size
            || self.sep_token_id as usize >= self.vocab_size || self.cls_token_id == self.class_token_id
            || self.sep_token_id == self.class_token_id {
            return Err(Error::Invalid(String::from_str("unsupported verdict config")));
        }
        Ok(())
    }

    /// A request's class tokens: at least one, at most the checkpoint's slots.
    pub fn check_class_count(&self, count: usize) -> (r: Result<(), Error>)
        ensures
            count == 0 ==> (r matches Err(e) && e matches Error::Invalid(m) && m@ == "no class tokens"@),
            count > 0 && count > self.max_classes ==> r == Err::<(), Error>(Error::TooLong),
            r is Ok <==> 0 < count <= self.max_classes,
    {
        if count == 0 {
            return Err(Error::Invalid(String::from_str("no class tokens")));
        }
        if count > self.max_classes {
            return Err(Error::TooLong);
        }
        Ok(())
    }

    /// The tensors a pack of this architecture holds, in canonical order; the
    /// architecture's own error when it is unsupported.
    pub fn expected_tensors(&self) -> (r: Result<Vec<ExpectedTensor>, Error>)
        ensures
            r is Ok <==> shape_ok(*self),
            r matches Ok(v) ==> tensor_views(v@) == tensor_list(*self),
            r matches Ok(v) ==> forall|i: int| 0 <= i < v@.len() ==> {
                let b = vstd::utf8::encode_utf8((#[trigger] v@[i]).name@);
                &&& spec_matrix_weight(b) <==> v@[i].shape@.len() == 2
                &&& spec_dense_weight(b) <==> v@[i].shape@.len() == 2 && v@[i].name@ != "embeddings.weight"@
            },
            r matches Err(e) ==> e matches Error::Invalid(m) && m@ == "unsupported verdict config"@,
    {
        self.validate()?;
        let h = self.hidden_size;
        let mut out: Vec<ExpectedTensor> = Vec::new();
        push_tensor(&mut out, String::from_str("embeddings.weight"), two(self.vocab_size, h));
        push_tensor(&mut out, String::from_str("embeddings.norm.weight"), one(h));
        push_tensor(&mut out, String::from_str("final_norm.weight"), one(h));
        let ghost head = tensor_views(out@);
        let mut i: usize = 0;
        while i < self.layers
            invariant
                i <= self.layers,
                shape_ok(*self),
                h == self.hidden_size,
                tensor_views(out@) == head + layers_list(*self, i as nat),
            decreases self.layers - i,
        {
            let ghost before = tensor_views(out@);
            proof {
                lemma_decimal_ascii(i as nat);
            }
            let digits = ascii_string(decimal_bytes(i as u64));
            let p = String::from_str("encoder.").concat(digits.as_str()).concat(".");
            let ghost pv = p@;
            assert(pv == layer_prefix(i as nat));
            if i > 0 || self.first_layer_attention_norm {
                push_tensor(&mut out, p.clone().concat("attn_norm.weight"), one(h));
            }
            push_tensor(&mut out, p.clone().concat("qkv.weight"), two(3 * h, h));
            push_tensor(&mut out, p.clone().concat("out.weight"), two(h, h));
            push_tensor(&mut out, p.clone().concat("mlp_norm.weight"), one(h));
            push_tensor(&mut out, p.clone().concat("wi.weight"), two(2 * self.intermediate_size, h));
            push_tensor(&mut out, p.concat("wo.weight"), two(h, self.intermediate_size));
            proof {
                assert(tensor_views(out@) =~= before + layer_list(*self, i as nat));
                assert(layers_list(*self, (i + 1) as nat) == layers_list(*self, i as nat) + layer_list(*self, i as nat));
            }
            i = i + 1;
        }
        let ghost mid = tensor_views(out@);
        push_tensor(&mut out, String::from_str("text_projector.linear_1.weight"), two(h, h));
        push_tensor(&mut out, String::from_str("text_projector.linear_1.bias"), one(h));
        push_tensor(&mut out, String::from_str("text_projector.linear_2.weight"), two(h, h));
        push_tensor(&mut out, String::from_str("text_projector.linear_2.bias"), one(h));
        push_tensor(&mut out, String::from_str("classes_projector.linear_1.weight"), two(h, h));
        push_tensor(&mut out, String::from_str("classes_projector.linear_1.bias"), one(h));
        push_tensor(&mut out, String::from_str("classes_projector.linear_2.weight"), two(h, h));
        push_tensor(&mut out, String::from_str("classes_projector.linear_2.bias"), one(h));
        proof {
            assert(tensor_views(out@) =~= mid + projector_list(*self));
            assert(head =~= seq![("embeddings.weight"@, seq![self.vocab_size, h]), ("embeddings.norm.weight"@, seq![h]), ("final_norm.weight"@, seq![h])]);
            assert(tensor_views(out@) =~= tensor_list(*self));
            assert forall|i: int| 0 <= i < out@.len() implies {
                let b = vstd::utf8::encode_utf8((#[trigger] out@[i]).name@);
                &&& spec_matrix_weight(b) <==> out@[i].shape@.len() == 2
                &&& spec_dense_weight(b) <==> out@[i].shape@.len() == 2 && out@[i].name@ != "embeddings.weight"@
            } by {
                assert(tensor_views(out@)[i] == (out@[i].name@, out@[i].shape@));
                law_matrix_weights_are_two_dimensional(*self, i);
            }
        }
        Ok(out)
    }
}


/// A tensor is stored as an int8 matrix exactly when it has two dimensions.
spec fn matrix_agrees(e: (Seq<char>, Seq<usize>)) -> bool {
    spec_matrix_weight(encode_utf8(e.0)) <==> e.1.len() == 2
}

/// The bytes of ASCII characters, one per character.
pub(crate) open spec fn ascii_bytes(s: Seq<char>) -> Seq<u8> {
    Seq::new(s.len(), |i: int| s[i] as u8)
}

pub(crate) proof fn lemma_ascii_encoding(s: Seq<char>)
    requires
        is_ascii_chars(s),
    ensures
        encode_utf8(s) == ascii_bytes(s),
{
    is_ascii_chars_encode_utf8(s);
    assert(encode_utf8(s) =~= ascii_bytes(s));
}

pub(crate) proof fn lemma_encoding_concat(a: Seq<char>, b: Seq<char>)
    ensures
        encode_utf8(a + b) == encode_utf8(a) + encode_utf8(b),
    decreases a.len(),
{
    if a.len() == 0 {
        assert(a + b =~= b);
        assert(encode_utf8(a) =~= Seq::<u8>::empty());
        assert(encode_utf8(a) + encode_utf8(b) =~= encode_utf8(b));
    } else {
        assert((a + b).drop_first() =~= a.drop_first() + b);
        assert((a + b)[0] == a[0]);
        lemma_encoding_concat(a.drop_first(), b);
        assert(encode_utf8(a + b) =~= encode_utf8(a) + encode_utf8(b));
    }
}

proof fn lemma_not_ends(b: Seq<u8>, p: Seq<u8>, j: int)
    requires
        0 <= j < p.len(),
        p.len() > b.len() || b[b.len() - p.len() + j] != p[j],
    ensures
        !ends_with(b, p),
{
    if ends_with(b, p) {
        assert(b.subrange(b.len() - p.len(), b.len() as int)[j] == p[j]);
    }
}

proof fn lemma_not_starts(b: Seq<u8>, p: Seq<u8>, j: int)
    requires
        0 <= j < p.len(),
        p.len() > b.len() || b[j] != p[j],
    ensures
        !starts_with(b, p),
{
    if starts_with(b, p) {
        assert(b.subrange(0, p.len() as int)[j] == p[j]);
    }
}

proof fn lemma_layer_attn_norm(k: nat)
    ensures
        !spec_matrix_weight(encode_utf8(layer_prefix(k) + "attn_norm.weight"@)),
{
    reveal_strlit("encoder.");
    reveal_strlit(".");
    reveal_strlit("attn_norm.weight");
    reveal_strlit(".attn_norm.weight");
    reveal_strlit("embeddings.weight");
    reveal_strlit("text_projector.linear_1.weight");
    reveal_strlit("text_projector.linear_2.weight");
    reveal_strlit("classes_projector.linear_1.weight");
    reveal_strlit("classes_projector.linear_2.weight");
    reveal_strlit(".qkv.weight");
    reveal_strlit(".out.weight");
    reveal_strlit(".wi.weight");
    reveal_strlit(".wo.weight");
    lemma_ascii_encoding("encoder."@);
    lemma_ascii_encoding(".attn_norm.weight"@);
    lemma_ascii_encoding("embeddings.weight"@);
    lemma_ascii_encoding("text_projector.linear_1.weight"@);
    lemma_ascii_encoding("text_projector.linear_2.weight"@);
    lemma_ascii_encoding("classes_projector.linear_1.weight"@);
    lemma_ascii_encoding("classes_projector.linear_2.weight"@);
    lemma_ascii_encoding(".qkv.weight"@);
    lemma_ascii_encoding(".out.weight"@);
    lemma_ascii_encoding(".wi.weight"@);
    lemma_ascii_encoding(".wo.weight"@);
    let d = ascii_chars(decimal(k));
    let t = "."@ + "attn_norm.weight"@;
    assert(t =~= ".attn_norm.weight"@);
    assert(layer_prefix(k) + "attn_norm.weight"@ =~= "encoder."@ + (d + t));
    lemma_encoding_concat("encoder."@, d + t);
    lemma_encoding_concat(d, t);
    let b = encode_utf8(layer_prefix(k) + "attn_norm.weight"@);
    assert(b == "encoder.".spec_bytes() + (encode_utf8(d) + ".attn_norm.weight".spec_bytes()));
    assert(b[1] != "embeddings.weight".spec_bytes()[1]);
    assert(b[0] != "text_projector.linear_1.weight".spec_bytes()[0]);
    assert(b[0] != "text_projector.linear_2.weight".spec_bytes()[0]);
    assert(b[0] != "classes_projector.linear_1.weight".spec_bytes()[0]);
    assert(b[0] != "classes_projector.linear_2.weight".spec_bytes()[0]);
    lemma_not_ends(b, ".qkv.weight".spec_bytes(), 0);
    lemma_not_ends(b, ".out.weight".spec_bytes(), 0);
    lemma_not_ends(b, ".wi.weight".spec_bytes(), 0);
    lemma_not_ends(b, ".wo.weight".spec_bytes(), 0);
}

proof fn lemma_layer_qkv(k: nat)
    ensures
        spec_matrix_weight(encode_utf8(layer_prefix(k) + "qkv.weight"@)),
{
    reveal_strlit("encoder.");
    reveal_strlit(".");
    reveal_strlit("qkv.weight");
    reveal_strlit(".qkv.weight");
    reveal_strlit(".weight");
    lemma_ascii_encoding("encoder."@);
    lemma_ascii_encoding(".qkv.weight"@);
    lemma_ascii_encoding(".weight"@);
    let d = ascii_chars(decimal(k));
    let t = "."@ + "qkv.weight"@;
    assert(t =~= ".qkv.weight"@);
    assert(layer_prefix(k) + "qkv.weight"@ =~= "encoder."@ + (d + t));
    lemma_encoding_concat("encoder."@, d + t);
    lemma_encoding_concat(d, t);
    let b = encode_utf8(layer_prefix(k) + "qkv.weight"@);
    assert(b == "encoder.".spec_bytes() + (encode_utf8(d) + ".qkv.weight".spec_bytes()));
    assert(b.subrange(b.len() - 11, b.len() as int) =~= ".qkv.weight".spec_bytes());
    assert(b.subrange(b.len() - 7, b.len() as int) =~= ".weight".spec_bytes());
    assert(b.subrange(0, 8) =~= "encoder.".spec_bytes());
}

proof fn lemma_layer_out(k: nat)
    ensures
        spec_matrix_weight(encode_utf8(layer_prefix(k) + "out.weight"@)),
{
    reveal_strlit("encoder.");
    reveal_strlit(".");
    reveal_strlit("out.weight");
    reveal_strlit(".out.weight");
    reveal_strlit(".weight");
    lemma_ascii_encoding("encoder."@);
    lemma_ascii_encoding(".out.weight"@);
    lemma_ascii_encoding(".weight"@);
    let d = ascii_chars(decimal(k));
    let t = "."@ + "out.weight"@;
    assert(t =~= ".out.weight"@);
    assert(layer_prefix(k) + "out.weight"@ =~= "encoder."@ + (d + t));
    lemma_encoding_concat("encoder."@, d + t);
    lemma_encoding_concat(d, t);
    let b = encode_utf8(layer_prefix(k) + "out.weight"@);
    assert(b == "encoder.".spec_bytes() + (encode_utf8(d) + ".out.weight".spec_bytes()));
    assert(b.subrange(b.len() - 11, b.len() as int) =~= ".out.weight".spec_bytes());
    assert(b.subrange(b.len() - 7, b.len() as int) =~= ".weight".spec_bytes());
    assert(b.subrange(0, 8) =~= "encoder.".spec_bytes());
}

proof fn lemma_layer_mlp_norm(k: nat)
    ensures
        !spec_matrix_weight(encode_utf8(layer_prefix(k) + "mlp_norm.weight"@)),
{
    reveal_strlit("encoder.");
    reveal_strlit(".");
    reveal_strlit("mlp_norm.weight");
    reveal_strlit(".mlp_norm.weight");
    reveal_strlit("embeddings.weight");
    reveal_strlit("text_projector.linear_1.weight");
    reveal_strlit("text_projector.linear_2.weight");
    reveal_strlit("classes_projector.linear_1.weight");
    reveal_strlit("classes_projector.linear_2.weight");
    reveal_strlit(".qkv.weight");
    reveal_strlit(".out.weight");
    reveal_strlit(".wi.weight");
    reveal_strlit(".wo.weight");
    lemma_ascii_encoding("encoder."@);
    lemma_ascii_encoding(".mlp_norm.weight"@);
    lemma_ascii_encoding("embeddings.weight"@);
    lemma_ascii_encoding("text_projector.linear_1.weight"@);
    lemma_ascii_encoding("text_projector.linear_2.weight"@);
    lemma_ascii_encoding("classes_projector.linear_1.weight"@);
    lemma_ascii_encoding("classes_projector.linear_2.weight"@);
    lemma_ascii_encoding(".qkv.weight"@);
    lemma_ascii_encoding(".out.weight"@);
    lemma_ascii_encoding(".wi.weight"@);
    lemma_ascii_encoding(".wo.weight"@);
    let d = ascii_chars(decimal(k));
    let t = "."@ + "mlp_norm.weight"@;
    assert(t =~= ".mlp_norm.weight"@);
    assert(layer_prefix(k) + "mlp_norm.weight"@ =~= "encoder."@ + (d + t));
    lemma_encoding_concat("encoder."@, d + t);
    lemma_encoding_concat(d, t);
    let b = encode_utf8(layer_prefix(k) + "mlp_norm.weight"@);
    assert(b == "encoder.".spec_bytes() + (encode_utf8(d) + ".mlp_norm.weight".spec_bytes()));
    assert(b[1] != "embeddings.weight".spec_bytes()[1]);
    assert(b[0] != "text_projector.linear_1.weight".spec_bytes()[0]);
    assert(b[0] != "text_projector.linear_2.weight".spec_bytes()[0]);
    assert(b[0] != "classes_projector.linear_1.weight".spec_bytes()[0]);
    assert(b[0] != "classes_projector.linear_2.weight".spec_bytes()[0]);
    lemma_not_ends(b, ".qkv.weight".spec_bytes(), 0);
    lemma_not_ends(b, ".out.weight".spec_bytes(), 0);
    lemma_not_ends(b, ".wi.weight".spec_bytes(), 0);
    lemma_not_ends(b, ".wo.weight".spec_bytes(), 0);
}

proof fn lemma_layer_wi(k: nat)
    ensures
        spec_matrix_weight(encode_utf8(layer_prefix(k) + "wi.weight"@)),
{
    reveal_strlit("encoder.");
    reveal_strlit(".");
    reveal_strlit("wi.weight");
    reveal_strlit(".wi.weight");
    reveal_strlit(".weight");
    lemma_ascii_encoding("encoder."@);
    lemma_ascii_encoding(".wi.weight"@);
    lemma_ascii_encoding(".weight"@);
    let d = ascii_chars(decimal(k));
    let t = "."@ + "wi.weight"@;
    assert(t =~= ".wi.weight"@);
    assert(layer_prefix(k) + "wi.weight"@ =~= "encoder."@ + (d + t));
    lemma_encoding_concat("encoder."@, d + t);
    lemma_encoding_concat(d, t);
    let b = encode_utf8(layer_prefix(k) + "wi.weight"@);
    assert(b == "encoder.".spec_bytes() + (encode_utf8(d) + ".wi.weight".spec_bytes()));
    assert(b.subrange(b.len() - 10, b.len() as int) =~= ".wi.weight".spec_bytes());
    assert(b.subrange(b.len() - 7, b.len() as int) =~= ".weight".spec_bytes());
    assert(b.subrange(0, 8) =~= "encoder.".spec_bytes());
}

proof fn lemma_layer_wo(k: nat)
    ensures
        spec_matrix_weight(encode_utf8(layer_prefix(k) + "wo.weight"@)),
{
    reveal_strlit("encoder.");
    reveal_strlit(".");
    reveal_strlit("wo.weight");
    reveal_strlit(".wo.weight");
    reveal_strlit(".weight");
    lemma_ascii_encoding("encoder."@);
    lemma_ascii_encoding(".wo.weight"@);
    lemma_ascii_encoding(".weight"@);
    let d = ascii_chars(decimal(k));
    let t = "."@ + "wo.weight"@;
    assert(t =~= ".wo.weight"@);
    assert(layer_prefix(k) + "wo.weight"@ =~= "encoder."@ + (d + t));
    lemma_encoding_concat("encoder."@, d + t);
    lemma_encoding_concat(d, t);
    let b = encode_utf8(layer_prefix(k) + "wo.weight"@);
    assert(b == "encoder.".spec_bytes() + (encode_utf8(d) + ".wo.weight".spec_bytes()));
    assert(b.subrange(b.len() - 10, b.len() as int) =~= ".wo.weight".spec_bytes());
    assert(b.subrange(b.len() - 7, b.len() as int) =~= ".weight".spec_bytes());
    assert(b.subrange(0, 8) =~= "encoder.".spec_bytes());
}

proof fn lemma_embedding_table()
    ensures
        spec_matrix_weight(encode_utf8("embeddings.weight"@)),
        !spec_dense_weight(encode_utf8("embeddings.weight"@)),
{
    reveal_strlit("embeddings.weight");
    reveal_strlit("encoder.");
    reveal_strlit(".weight");
    reveal_strlit("text_projector.linear_1.weight");
    reveal_strlit("text_projector.linear_2.weight");
    reveal_strlit("classes_projector.linear_1.weight");
    reveal_strlit("classes_projector.linear_2.weight");
    lemma_ascii_encoding("embeddings.weight"@);
    lemma_ascii_encoding("encoder."@);
    lemma_ascii_encoding(".weight"@);
    lemma_ascii_encoding("text_projector.linear_1.weight"@);
    lemma_ascii_encoding("text_projector.linear_2.weight"@);
    lemma_ascii_encoding("classes_projector.linear_1.weight"@);
    lemma_ascii_encoding("classes_projector.linear_2.weight"@);
    let b = encode_utf8("embeddings.weight"@);
    lemma_not_starts(b, "encoder.".spec_bytes(), 1);
    assert(b[0] != "text_projector.linear_1.weight".spec_bytes()[0]);
    assert(b[0] != "text_projector.linear_2.weight".spec_bytes()[0]);
    assert(b[0] != "classes_projector.linear_1.weight".spec_bytes()[0]);
    assert(b[0] != "classes_projector.linear_2.weight".spec_bytes()[0]);
}

proof fn lemma_embedding_norm()
    ensures
        !spec_matrix_weight(encode_utf8("embeddings.norm.weight"@)),
{
    reveal_strlit("embeddings.norm.weight");
    reveal_strlit("encoder.");
    reveal_strlit(".weight");
    reveal_strlit("embeddings.weight");
    reveal_strlit("text_projector.linear_1.weight");
    reveal_strlit("text_projector.linear_2.weight");
    reveal_strlit("classes_projector.linear_1.weight");
    reveal_strlit("classes_projector.linear_2.weight");
    lemma_ascii_encoding("embeddings.norm.weight"@);
    lemma_ascii_encoding("encoder."@);
    lemma_ascii_encoding(".weight"@);
    lemma_ascii_encoding("embeddings.weight"@);
    lemma_ascii_encoding("text_projector.linear_1.weight"@);
    lemma_ascii_encoding("text_projector.linear_2.weight"@);
    lemma_ascii_encoding("classes_projector.linear_1.weight"@);
    lemma_ascii_encoding("classes_projector.linear_2.weight"@);
    let b = encode_utf8("embeddings.norm.weight"@);
    assert(b.len() != "embeddings.weight".spec_bytes().len() || b[11] != "embeddings.weight".spec_bytes()[11]);
    lemma_not_starts(b, "encoder.".spec_bytes(), 1);
    assert(b[0] != "text_projector.linear_1.weight".spec_bytes()[0]);
    assert(b[0] != "text_projector.linear_2.weight".spec_bytes()[0]);
    assert(b[0] != "classes_projector.linear_1.weight".spec_bytes()[0]);
    assert(b[0] != "classes_projector.linear_2.weight".spec_bytes()[0]);
}

proof fn lemma_final_norm()
    ensures
        !spec_matrix_weight(encode_utf8("final_norm.weight"@)),
{
    reveal_strlit("final_norm.weight");
    reveal_strlit("encoder.");
    reveal_strlit(".weight");
    reveal_strlit("embeddings.weight");
    reveal_strlit("text_projector.linear_1.weight");
    reveal_strlit("text_projector.linear_2.weight");
    reveal_strlit("classes_projector.linear_1.weight");
    reveal_strlit("classes_projector.linear_2.weight");
    lemma_ascii_encoding("final_norm.weight"@);
    lemma_ascii_encoding("encoder."@);
    lemma_ascii_encoding(".weight"@);
    lemma_ascii_encoding("embeddings.weight"@);
    lemma_ascii_encoding("text_projector.linear_1.weight"@);
    lemma_ascii_encoding("text_projector.linear_2.weight"@);
    lemma_ascii_encoding("classes_projector.linear_1.weight"@);
    lemma_ascii_encoding("classes_projector.linear_2.weight"@);
    let b = encode_utf8("final_norm.weight"@);
    assert(b.len() != "embeddings.weight".spec_bytes().len() || b[0] != "embeddings.weight".spec_bytes()[0]);
    lemma_not_starts(b, "encoder.".spec_bytes(), 0);
    assert(b[0] != "text_projector.linear_1.weight".spec_bytes()[0]);
    assert(b[0] != "text_projector.linear_2.weight".spec_bytes()[0]);
    assert(b[0] != "classes_projector.linear_1.weight".spec_bytes()[0]);
    assert(b[0] != "classes_projector.linear_2.weight".spec_bytes()[0]);
}

proof fn lemma_text_linear_1_weight()
    ensures
        spec_matrix_weight(encode_utf8("text_projector.linear_1.weight"@)),
{
    reveal_strlit("text_projector.linear_1.weight");
    reveal_strlit("encoder.");
    reveal_strlit(".weight");
    reveal_strlit("embeddings.weight");
    reveal_strlit("text_projector.linear_2.weight");
    reveal_strlit("classes_projector.linear_1.weight");
    reveal_strlit("classes_projector.linear_2.weight");
    lemma_ascii_encoding("text_projector.linear_1.weight"@);
    lemma_ascii_encoding("encoder."@);
    lemma_ascii_encoding(".weight"@);
    lemma_ascii_encoding("embeddings.weight"@);
    lemma_ascii_encoding("text_projector.linear_2.weight"@);
    lemma_ascii_encoding("classes_projector.linear_1.weight"@);
    lemma_ascii_encoding("classes_projector.linear_2.weight"@);
    let b = encode_utf8("text_projector.linear_1.weight"@);
    assert(b.subrange(b.len() - 7, b.len() as int) =~= ".weight".spec_bytes());
}

proof fn lemma_text_linear_2_weight()
    ensures
        spec_matrix_weight(encode_utf8("text_projector.linear_2.weight"@)),
{
    reveal_strlit("text_projector.linear_2.weight");
    reveal_strlit("encoder.");
    reveal_strlit(".weight");
    reveal_strlit("embeddings.weight");
    reveal_strlit("text_projector.linear_1.weight");
    reveal_strlit("classes_projector.linear_1.weight");
    reveal_strlit("classes_projector.linear_2.weight");
    lemma_ascii_encoding("text_projector.linear_2.weight"@);
    lemma_ascii_encoding("encoder."@);
    lemma_ascii_encoding(".weight"@);
    lemma_ascii_encoding("embeddings.weight"@);
    lemma_ascii_encoding("text_projector.linear_1.weight"@);
    lemma_ascii_encoding("classes_projector.linear_1.weight"@);
    lemma_ascii_encoding("classes_projector.linear_2.weight"@);
    let b = encode_utf8("text_projector.linear_2.weight"@);
    assert(b.subrange(b.len() - 7, b.len() as int) =~= ".weight".spec_bytes());
}

proof fn lemma_classes_linear_1_weight()
    ensures
        spec_matrix_weight(encode_utf8("classes_projector.linear_1.weight"@)),
{
    reveal_strlit("classes_projector.linear_1.weight");
    reveal_strlit("encoder.");
    reveal_strlit(".weight");
    reveal_strlit("embeddings.weight");
    reveal_strlit("text_projector.linear_1.weight");
    reveal_strlit("text_projector.linear_2.weight");
    reveal_strlit("classes_projector.linear_2.weight");
    lemma_ascii_encoding("classes_projector.linear_1.weight"@);
    lemma_ascii_encoding("encoder."@);
    lemma_ascii_encoding(".weight"@);
    lemma_ascii_encoding("embeddings.weight"@);
    lemma_ascii_encoding("text_projector.linear_1.weight"@);
    lemma_ascii_encoding("text_projector.linear_2.weight"@);
    lemma_ascii_encoding("classes_projector.linear_2.weight"@);
    let b = encode_utf8("classes_projector.linear_1.weight"@);
    assert(b.subrange(b.len() - 7, b.len() as int) =~= ".weight".spec_bytes());
}

proof fn lemma_classes_linear_2_weight()
    ensures
        spec_matrix_weight(encode_utf8("classes_projector.linear_2.weight"@)),
{
    reveal_strlit("classes_projector.linear_2.weight");
    reveal_strlit("encoder.");
    reveal_strlit(".weight");
    reveal_strlit("embeddings.weight");
    reveal_strlit("text_projector.linear_1.weight");
    reveal_strlit("text_projector.linear_2.weight");
    reveal_strlit("classes_projector.linear_1.weight");
    lemma_ascii_encoding("classes_projector.linear_2.weight"@);
    lemma_ascii_encoding("encoder."@);
    lemma_ascii_encoding(".weight"@);
    lemma_ascii_encoding("embeddings.weight"@);
    lemma_ascii_encoding("text_projector.linear_1.weight"@);
    lemma_ascii_encoding("text_projector.linear_2.weight"@);
    lemma_ascii_encoding("classes_projector.linear_1.weight"@);
    let b = encode_utf8("classes_projector.linear_2.weight"@);
    assert(b.subrange(b.len() - 7, b.len() as int) =~= ".weight".spec_bytes());
}

proof fn lemma_text_linear_1_bias()
    ensures
        !spec_matrix_weight(encode_utf8("text_projector.linear_1.bias"@)),
{
    reveal_strlit("text_projector.linear_1.bias");
    reveal_strlit("encoder.");
    reveal_strlit(".weight");
    reveal_strlit("embeddings.weight");
    reveal_strlit("text_projector.linear_1.weight");
    reveal_strlit("text_projector.linear_2.weight");
    reveal_strlit("classes_projector.linear_1.weight");
    reveal_strlit("classes_projector.linear_2.weight");
    lemma_ascii_encoding("text_projector.linear_1.bias"@);
    lemma_ascii_encoding("encoder."@);
    lemma_ascii_encoding(".weight"@);
    lemma_ascii_encoding("embeddings.weight"@);
    lemma_ascii_encoding("text_projector.linear_1.weight"@);
    lemma_ascii_encoding("text_projector.linear_2.weight"@);
    lemma_ascii_encoding("classes_projector.linear_1.weight"@);
    lemma_ascii_encoding("classes_projector.linear_2.weight"@);
    let b = encode_utf8("text_projector.linear_1.bias"@);
    assert(b.len() != "embeddings.weight".spec_bytes().len() || b[0] != "embeddings.weight".spec_bytes()[0]);
    lemma_not_ends(b, ".weight".spec_bytes(), 6);
}

proof fn lemma_text_linear_2_bias()
    ensures
        !spec_matrix_weight(encode_utf8("text_projector.linear_2.bias"@)),
{
    reveal_strlit("text_projector.linear_2.bias");
    reveal_strlit("encoder.");
    reveal_strlit(".weight");
    reveal_strlit("embeddings.weight");
    reveal_strlit("text_projector.linear_1.weight");
    reveal_strlit("text_projector.linear_2.weight");
    reveal_strlit("classes_projector.linear_1.weight");
    reveal_strlit("classes_projector.linear_2.weight");
    lemma_ascii_encoding("text_projector.linear_2.bias"@);
    lemma_ascii_encoding("encoder."@);
    lemma_ascii_encoding(".weight"@);
    lemma_ascii_encoding("embeddings.weight"@);
    lemma_ascii_encoding("text_projector.linear_1.weight"@);
    lemma_ascii_encoding("text_projector.linear_2.weight"@);
    lemma_ascii_encoding("classes_projector.linear_1.weight"@);
    lemma_ascii_encoding("classes_projector.linear_2.weight"@);
    let b = encode_utf8("text_projector.linear_2.bias"@);
    assert(b.len() != "embeddings.weight".spec_bytes().len() || b[0] != "embeddings.weight".spec_bytes()[0]);
    lemma_not_ends(b, ".weight".spec_bytes(), 6);
}

proof fn lemma_classes_linear_1_bias()
    ensures
        !spec_matrix_weight(encode_utf8("classes_projector.linear_1.bias"@)),
{
    reveal_strlit("classes_projector.linear_1.bias");
    reveal_strlit("encoder.");
    reveal_strlit(".weight");
    reveal_strlit("embeddings.weight");
    reveal_strlit("text_projector.linear_1.weight");
    reveal_strlit("text_projector.linear_2.weight");
    reveal_strlit("classes_projector.linear_1.weight");
    reveal_strlit("classes_projector.linear_2.weight");
    lemma_ascii_encoding("classes_projector.linear_1.bias"@);
    lemma_ascii_encoding("encoder."@);
    lemma_ascii_encoding(".weight"@);
    lemma_ascii_encoding("embeddings.weight"@);
    lemma_ascii_encoding("text_projector.linear_1.weight"@);
    lemma_ascii_encoding("text_projector.linear_2.weight"@);
    lemma_ascii_encoding("classes_projector.linear_1.weight"@);
    lemma_ascii_encoding("classes_projector.linear_2.weight"@);
    let b = encode_utf8("classes_projector.linear_1.bias"@);
    assert(b.len() != "embeddings.weight".spec_bytes().len() || b[0] != "embeddings.weight".spec_bytes()[0]);
    lemma_not_ends(b, ".weight".spec_bytes(), 6);
}

proof fn lemma_classes_linear_2_bias()
    ensures
        !spec_matrix_weight(encode_utf8("classes_projector.linear_2.bias"@)),
{
    reveal_strlit("classes_projector.linear_2.bias");
    reveal_strlit("encoder.");
    reveal_strlit(".weight");
    reveal_strlit("embeddings.weight");
    reveal_strlit("text_projector.linear_1.weight");
    reveal_strlit("text_projector.linear_2.weight");
    reveal_strlit("classes_projector.linear_1.weight");
    reveal_strlit("classes_projector.linear_2.weight");
    lemma_ascii_encoding("classes_projector.linear_2.bias"@);
    lemma_ascii_encoding("encoder."@);
    lemma_ascii_encoding(".weight"@);
    lemma_ascii_encoding("embeddings.weight"@);
    lemma_ascii_encoding("text_projector.linear_1.weight"@);
    lemma_ascii_encoding("text_projector.linear_2.weight"@);
    lemma_ascii_encoding("classes_projector.linear_1.weight"@);
    lemma_ascii_encoding("classes_projector.linear_2.weight"@);
    let b = encode_utf8("classes_projector.linear_2.bias"@);
    assert(b.len() != "embeddings.weight".spec_bytes().len() || b[0] != "embeddings.weight".spec_bytes()[0]);
    lemma_not_ends(b, ".weight".spec_bytes(), 6);
}

proof fn lemma_layer_agrees(c: VerdictShape, k: nat)
    ensures
        forall|j: int| 0 <= j < layer_list(c, k).len() ==> matrix_agrees(#[trigger] layer_list(c, k)[j]),
{
    lemma_layer_attn_norm(k);
    lemma_layer_qkv(k);
    lemma_layer_out(k);
    lemma_layer_mlp_norm(k);
    lemma_layer_wi(k);
    lemma_layer_wo(k);
}

proof fn lemma_layers_agree(c: VerdictShape, n: nat)
    ensures
        forall|j: int| 0 <= j < layers_list(c, n).len() ==> matrix_agrees(#[trigger] layers_list(c, n)[j]),
    decreases n,
{
    if n > 0 {
        lemma_layers_agree(c, (n - 1) as nat);
        lemma_layer_agrees(c, (n - 1) as nat);
        let a = layers_list(c, (n - 1) as nat);
        let l = layer_list(c, (n - 1) as nat);
        assert(layers_list(c, n) == a + l);
        assert forall|j: int| 0 <= j < (a + l).len() implies matrix_agrees(#[trigger] (a + l)[j]) by {
            if j < a.len() {
                assert((a + l)[j] == a[j]);
            } else {
                assert((a + l)[j] == l[j - a.len()]);
            }
        }
    }
}

/// Of every tensor the architecture has, the ones stored as int8 matrices
/// (`is_matrix_weight`) are exactly the two-dimensional ones.
pub proof fn law_matrix_weights_are_two_dimensional(c: VerdictShape, i: int)
    requires
        0 <= i < tensor_list(c).len(),
    ensures
        spec_matrix_weight(encode_utf8(tensor_list(c)[i].0)) <==> tensor_list(c)[i].1.len() == 2,
        spec_dense_weight(encode_utf8(tensor_list(c)[i].0)) <==> tensor_list(c)[i].1.len() == 2
            && tensor_list(c)[i].0 != "embeddings.weight"@,
{
    lemma_matrix_entry(c, i);
    let name = tensor_list(c)[i].0;
    if name != "embeddings.weight"@ {
        encode_utf8_decode_utf8(name);
        encode_utf8_decode_utf8("embeddings.weight"@);
        assert(encode_utf8(name) != "embeddings.weight".spec_bytes());
    }
}

proof fn lemma_matrix_entry(c: VerdictShape, i: int)
    requires
        0 <= i < tensor_list(c).len(),
    ensures
        spec_matrix_weight(encode_utf8(tensor_list(c)[i].0)) <==> tensor_list(c)[i].1.len() == 2,
        !spec_dense_weight(encode_utf8("embeddings.weight"@)),
{
    lemma_embedding_table();
    lemma_embedding_norm();
    lemma_final_norm();
    lemma_text_linear_1_weight();
    lemma_text_linear_2_weight();
    lemma_classes_linear_1_weight();
    lemma_classes_linear_2_weight();
    lemma_text_linear_1_bias();
    lemma_text_linear_2_bias();
    lemma_classes_linear_1_bias();
    lemma_classes_linear_2_bias();
    let n = c.layers as nat;
    lemma_layers_agree(c, n);
    let m = layers_list(c, n);
    let p = projector_list(c);
    let hd = seq![("embeddings.weight"@, seq![c.vocab_size, c.hidden_size]), ("embeddings.norm.weight"@, seq![c.hidden_size]), ("final_norm.weight"@, seq![c.hidden_size])];
    assert(tensor_list(c) == hd + m + p);
    if i < 3 {
        assert(tensor_list(c)[i] == hd[i]);
    } else if i < 3 + m.len() {
        assert(tensor_list(c)[i] == m[i - 3]);
        assert(matrix_agrees(m[i - 3]));
    } else {
        assert(tensor_list(c)[i] == p[i - 3 - m.len()]);
    }
}

} // verus!
