//! The Hugging Face tokenizer adapter: a `tokenizer.json` loaded with
//! truncation and padding off, its four control ids checked against the
//! reserved literals, and every added special token reserved as well.
use vstd::prelude::*;
use vstd::string::StringExecFns;
use crate::ordered::{sorted_unique, strictly_sorted, views};
use crate::schema::{controls, literal_views, TextTokenizer};
use crate::text::str_eq;
use crate::types::{hash, sha256, Digest, Error, SpecialTokens};
use crate::upload_cli::opt_view;

verus! {

#[verifier::external_type_specification]
#[verifier::external_body]
pub struct ExTokenizer(tokenizers::Tokenizer);

/// The largest tokenizer configuration accepted.
pub const MAX_TOKENIZER_BYTES: usize = 33554432;

/// What `tokenizers::Tokenizer::from_bytes` makes of a configuration:
/// success, or the error's text.
pub uninterp spec fn hf_parse(config: Seq<u8>) -> Result<(), Seq<char>>;

/// `Tokenizer::id_to_token` on the tokenizer read from `config`.
pub uninterp spec fn hf_token(config: Seq<u8>, id: u32) -> Option<Seq<char>>;

/// `Tokenizer::encode(text, false)` on the tokenizer read from `config` with
/// truncation and padding off, for a configuration without BPE dropout (so
/// that encoding draws no random numbers): the ids, or the error's text.
pub uninterp spec fn hf_encode(config: Seq<u8>, text: Seq<char>) -> Result<Seq<u32>, Seq<char>>;

/// `serde_json::from_slice` of `config` as a JSON value, read at its
/// `added_tokens` array (absent where it is not an array): for each entry its
/// `special` flag and its `content` text, where they have those types; or the
/// parse error's text.
pub uninterp spec fn json_added_tokens(config: Seq<u8>) -> Result<Option<Seq<(Option<bool>, Option<Seq<char>>)>>, Seq<char>>;

pub open spec fn added_views(v: Seq<(Option<bool>, Option<String>)>) -> Seq<(Option<bool>, Option<Seq<char>>)> {
    v.map_values(|e: (Option<bool>, Option<String>)| (e.0, opt_view(e.1)))
}

/// `tokenizers::utils::parallelism::set_parallelism(false)`: encoding runs on
/// the calling thread. Nothing is claimed.
#[verifier::external_body]
fn serial_encoding() {
    tokenizers::utils::parallelism::set_parallelism(false);
}

/// `Tokenizer::from_bytes`: the tokenizer, or the error's text; which of the
/// two comes, and the text, depend on the bytes alone (the call deserializes them).
#[verifier::external_body]
fn parse_tokenizer(bytes: &[u8]) -> (r: Result<tokenizers::Tokenizer, String>)
    ensures
        match hf_parse(bytes@) {
            Ok(()) => r is Ok,
            Err(e) => r matches Err(m) && m@ == e,
        },
{
    tokenizers::Tokenizer::from_bytes(bytes).map_err(|e| e.to_string())
}

/// A tokenizer just read from `config`, while its limits are being cleared:
/// `truncation_off` and `padding_off` record that `with_truncation(None)` and
/// `with_padding(None)` have been applied to it.
struct Loading {
    inner: tokenizers::Tokenizer,
    config: Ghost<Seq<u8>>,
    truncation_off: Ghost<bool>,
    padding_off: Ghost<bool>,
}

/// `Tokenizer::with_truncation(None)` on the loading tokenizer: the source
/// returns `Ok` whenever the parameters are `None`, and the tokenizer then
/// truncates nothing.
#[verifier::external_body]
fn without_truncation(l: &mut Loading) -> (r: Result<(), String>)
    ensures
        r is Ok,
        final(l).truncation_off@,
        final(l).padding_off == old(l).padding_off,
        final(l).config == old(l).config,
{
    l.inner.with_truncation(None).map(|_| ()).map_err(|e| e.to_string())
}

/// `Tokenizer::with_padding(None)` on the loading tokenizer: it pads nothing afterwards.
#[verifier::external_body]
fn without_padding(l: &mut Loading)
    ensures
        final(l).padding_off@,
        final(l).truncation_off == old(l).truncation_off,
        final(l).config == old(l).config,
{
    l.inner.with_padding(None);
}

/// The model of the tokenizer read from `config` is BPE with a merge dropout
/// set, which makes encoding draw random numbers.
pub uninterp spec fn hf_dropout(config: Seq<u8>) -> bool;

/// `Tokenizer::get_model`, read at the BPE model's `dropout` field: `Some`
/// exactly when a dropout is set (any other model has none).
#[verifier::external_body]
fn dropout_of(l: &Loading) -> (r: Option<()>)
    ensures
        r is Some <==> hf_dropout(l.config@),
{
    match l.inner.get_model() {
        tokenizers::ModelWrapper::BPE(b) => b.dropout.map(|_| ()),
        _ => None,
    }
}

/// `serde_json::from_slice::<Value>` followed by reading its `added_tokens`
/// entries one for one (see `json_added_tokens`).
#[verifier::external_body]
fn added_token_fields(bytes: &[u8]) -> (r: Result<Option<Vec<(Option<bool>, Option<String>)>>, String>)
    ensures
        match json_added_tokens(bytes@) {
            Ok(None) => r == Ok::<Option<Vec<(Option<bool>, Option<String>)>>, String>(None),
            Ok(Some(ts)) => r matches Ok(Some(v)) && added_views(v@) == ts,
            Err(e) => r matches Err(m) && m@ == e,
        },
{
    let v: serde_json::Value = serde_json::from_slice(bytes).map_err(|e| e.to_string())?;
    Ok(v.get("added_tokens").and_then(|x| x.as_array()).map(|a| {
        a.iter().map(|t| (
            t.get("special").and_then(|x| x.as_bool()),
            t.get("content").and_then(|x| x.as_str()).map(|s| s.to_string()),
        )).collect()
    }))
}

/// A loaded tokenizer: the inner tokenizer was read from `config` (the only
/// way one is made is `from_bytes`), with truncation and padding off and no
/// dropout.
pub struct HfTokenizer {
    inner: tokenizers::Tokenizer,
    config: Ghost<Seq<u8>>,
    truncation_off: Ghost<bool>,
    padding_off: Ghost<bool>,
    fingerprint: Digest,
    special: SpecialTokens,
}

/// `Tokenizer::id_to_token` on the inner tokenizer.
#[verifier::external_body]
fn token_of(t: &HfTokenizer, id: u32) -> (r: Option<String>)
    ensures
        opt_view(r) == hf_token(t.config(), id),
{
    t.inner.id_to_token(id)
}

/// `Tokenizer::encode(text, false)` on the inner tokenizer, its ids taken
/// out; the tokenizer neither truncates nor pads and has no dropout.
#[verifier::external_body]
fn encode_ids(t: &HfTokenizer, text: &str) -> (r: Result<Vec<u32>, String>)
    requires
        t.limits_off(),
        !hf_dropout(t.config()),
    ensures
        match hf_encode(t.config(), text@) {
            Ok(ids) => r matches Ok(v) && v@ == ids,
            Err(e) => r matches Err(m) && m@ == e,
        },
{
    t.inner.encode(text, false).map(|x| x.get_ids().to_vec()).map_err(|e| e.to_string())
}

/// Why a configuration is refused.
pub enum LoadFailure {
    TooLong,
    Invalid(Seq<char>),
}

pub open spec fn fails_as(e: Error, f: LoadFailure) -> bool {
    match f {
        LoadFailure::TooLong => e == Error::TooLong,
        LoadFailure::Invalid(m) => e matches Error::Invalid(x) && x@ == m,
    }
}

/// The check of one control id: its token must exist and be reserved.
pub open spec fn id_failure(config: Seq<u8>, literals: Seq<Seq<char>>, id: u32) -> Option<LoadFailure> {
    match hf_token(config, id) {
        None => Some(LoadFailure::Invalid("special token id"@)),
        Some(tok) => if literals.contains(tok) { None } else { Some(LoadFailure::Invalid("special literal list"@)) },
    }
}

/// An added token marked special whose content is not text.
pub open spec fn bad_added(ts: Seq<(Option<bool>, Option<Seq<char>>)>) -> bool {
    exists|i: int| 0 <= i < ts.len() && (#[trigger] ts[i]).0 == Some(true) && ts[i].1 is None
}

/// `s` is the content of one of the first `n` added tokens that are marked special.
pub open spec fn added_in(ts: Seq<(Option<bool>, Option<Seq<char>>)>, n: int, s: Seq<char>) -> bool {
    exists|i: int| 0 <= i < n && (#[trigger] ts[i]).0 == Some(true) && ts[i].1 == Some(s)
}

/// The reserved literals: the configured ones and the content of every added special token.
pub open spec fn reserved(literals: Seq<Seq<char>>, added: Option<Seq<(Option<bool>, Option<Seq<char>>)>>, s: Seq<char>) -> bool {
    ||| literals.contains(s)
    ||| (added matches Some(ts) && added_in(ts, ts.len() as int, s))
}

proof fn lemma_added_step(before: Seq<Seq<char>>, lits: Seq<Seq<char>>, ts: Seq<(Option<bool>, Option<Seq<char>>)>, j: int, after: Seq<Seq<char>>)
    requires
        0 <= j < ts.len(),
        forall|s: Seq<char>| before.contains(s) <==> (lits.contains(s) || added_in(ts, j, s)),
        ts[j].0 == Some(true) ==> ts[j].1 is Some && after == before.push(ts[j].1->0),
        ts[j].0 != Some(true) ==> after == before,
    ensures
        forall|s: Seq<char>| after.contains(s) <==> (lits.contains(s) || added_in(ts, j + 1, s)),
{
    assert forall|s: Seq<char>| after.contains(s) <==> (lits.contains(s) || added_in(ts, j + 1, s)) by {
        if added_in(ts, j + 1, s) && !added_in(ts, j, s) {
            let k = choose|k: int| 0 <= k < j + 1 && (#[trigger] ts[k]).0 == Some(true) && ts[k].1 == Some(s);
            assert(k == j);
            assert(after[before.len() as int] == s);
        }
        if added_in(ts, j, s) {
            let k = choose|k: int| 0 <= k < j && (#[trigger] ts[k]).0 == Some(true) && ts[k].1 == Some(s);
            assert(ts[k].0 == Some(true) && ts[k].1 == Some(s));
        }
        if before.contains(s) && ts[j].0 == Some(true) {
            let q = choose|q: int| 0 <= q < before.len() && before[q] == s;
            assert(after[q] == s);
        }
        if after.contains(s) && ts[j].0 == Some(true) {
            let q = choose|q: int| 0 <= q < after.len() && after[q] == s;
            if q < before.len() {
                assert(before[q] == s);
            } else {
                assert(ts[j].1 == Some(s));
            }
        }
    }
}

/// The configured literals joined by the content of the added special tokens;
/// `None` where one of those has no text.
fn merge_added(literals: Vec<String>, ts: &Vec<(Option<bool>, Option<String>)>) -> (r: Option<Vec<String>>)
    ensures
        r is None <==> bad_added(added_views(ts@)),
        r matches Some(v) ==> forall|s: Seq<char>| views(v@).contains(s)
            <==> (views(literals@).contains(s) || added_in(added_views(ts@), ts@.len() as int, s)),
{
    let ghost tsv = added_views(ts@);
    let ghost lits0 = views(literals@);
    let mut out = literals;
    let mut j: usize = 0;
    assert forall|s: Seq<char>| views(out@).contains(s) <==> (lits0.contains(s) || added_in(tsv, 0, s)) by {}
    while j < ts.len()
        invariant
            j <= ts@.len(),
            tsv == added_views(ts@),
            tsv.len() == ts@.len(),
            forall|k: int| 0 <= k < j ==> !((#[trigger] tsv[k]).0 == Some(true) && tsv[k].1 is None),
            forall|s: Seq<char>| views(out@).contains(s) <==> (lits0.contains(s) || added_in(tsv, j as int, s)),
        decreases ts@.len() - j,
    {
        let ghost before = views(out@);
        let entry = &ts[j];
        assert(tsv[j as int] == (entry.0, opt_view(entry.1)));
        if entry.0 == Some(true) {
            match &entry.1 {
                None => {
                    assert(tsv[j as int].0 == Some(true) && tsv[j as int].1 is None);
                    return None;
                },
                Some(text) => {
                    out.push(text.clone());
                    assert(views(out@) =~= before.push(text@));
                },
            }
        }
        proof {
            lemma_added_step(before, lits0, tsv, j as int, views(out@));
        }
        j = j + 1;
    }
    Some(out)
}

/// Loading a configuration: refused, or the added-token list it reserves.
pub open spec fn load(config: Seq<u8>, special: SpecialTokens) -> Result<Option<Seq<(Option<bool>, Option<Seq<char>>)>>, LoadFailure> {
    let lits = literal_views(special);
    if config.len() == 0 || config.len() > MAX_TOKENIZER_BYTES {
        Err(LoadFailure::TooLong)
    } else if hf_parse(config) is Err {
        Err(LoadFailure::Invalid(hf_parse(config)->Err_0))
    } else if hf_dropout(config) {
        Err(LoadFailure::Invalid("tokenizer dropout"@))
    } else if id_failure(config, lits, special.cls) is Some {
        Err(id_failure(config, lits, special.cls)->0)
    } else if id_failure(config, lits, special.sep) is Some {
        Err(id_failure(config, lits, special.sep)->0)
    } else if id_failure(config, lits, special.mask) is Some {
        Err(id_failure(config, lits, special.mask)->0)
    } else if id_failure(config, lits, special.pad) is Some {
        Err(id_failure(config, lits, special.pad)->0)
    } else {
        match json_added_tokens(config) {
            Err(e) => Err(LoadFailure::Invalid(e)),
            Ok(None) => Ok(None),
            Ok(Some(ts)) => if bad_added(ts) { Err(LoadFailure::Invalid("added token"@)) } else { Ok(Some(ts)) },
        }
    }
}

impl HfTokenizer {
    /// The configuration the tokenizer was read from.
    pub closed spec fn config(&self) -> Seq<u8> {
        self.config@
    }

    /// The tokenizer neither truncates nor pads.
    pub closed spec fn limits_off(&self) -> bool {
        self.truncation_off@ && self.padding_off@
    }

    #[verifier::type_invariant]
    spec fn loaded(&self) -> bool {
        self.limits_off() && !hf_dropout(self.config@)
    }

    fn check_id(&self, id: u32) -> (r: Result<(), Error>)
        ensures
            match id_failure(self.config(), literal_views(self.special), id) {
                None => r is Ok,
                Some(f) => r matches Err(e) && fails_as(e, f),
            },
    {
        match token_of(self, id) {
            None => Err(Error::Invalid(String::from_str("special token id"))),
            Some(tok) => {
                let lits = &self.special.literals;
                let mut i: usize = 0;
                while i < lits.len()
                    invariant
                        i <= lits@.len(),
                        lits@ == self.special.literals@,
                        hf_token(self.config(), id) == Some(tok@),
                        forall|k: int| 0 <= k < i ==> #[trigger] literal_views(self.special)[k] != tok@,
                    decreases lits@.len() - i,
                {
                    if str_eq(lits[i].as_str(), tok.as_str()) {
                        assert(literal_views(self.special)[i as int] == tok@);
                        assert(literal_views(self.special).contains(tok@));
                        return Ok(());
                    }
                    i = i + 1;
                }
                Err(Error::Invalid(String::from_str("special literal list")))
            },
        }
    }

    /// Loads a `tokenizer.json`: at most 32 MiB and not empty, read by the
    /// tokenizers crate with truncation and padding off; each control id must
    /// name a token that is one of the reserved literals; every added token
    /// marked special must have text content and joins the literals, which
    /// end ascending and each once.
    pub fn from_bytes(bytes: &[u8], special: SpecialTokens) -> (r: Result<HfTokenizer, Error>)
        ensures
            match load(bytes@, special) {
                Err(f) => r matches Err(e) && fails_as(e, f),
                Ok(added) => r matches Ok(t) && t.config() == bytes@ && t.limits_off() && !hf_dropout(t.config())
                    && t.spec_fingerprint() == sha256(bytes@)
                    && t.spec_controls() == controls(special)
                    && strictly_sorted(t.spec_literals())
                    && forall|s: Seq<char>| t.spec_literals().contains(s) <==> reserved(literal_views(special), added, s),
            },
    {
        if bytes.len() == 0 || bytes.len() > MAX_TOKENIZER_BYTES {
            return Err(Error::TooLong);
        }
        serial_encoding();
        let inner = match parse_tokenizer(bytes) {
            Ok(t) => t,
            Err(e) => {
                return Err(Error::Invalid(e));
            },
        };
        let mut loading = Loading { inner, config: Ghost(bytes@), truncation_off: Ghost(false), padding_off: Ghost(false) };
        match without_truncation(&mut loading) {
            Ok(()) => {},
            Err(e) => {
                return Err(Error::Invalid(e));
            },
        }
        without_padding(&mut loading);
        if dropout_of(&loading).is_some() {
            return Err(Error::Invalid(String::from_str("tokenizer dropout")));
        }
        let fingerprint = hash(bytes);
        let cls = special.cls;
        let sep = special.sep;
        let mask = special.mask;
        let pad = special.pad;
        let ghost lits0 = literal_views(special);
        let Loading { inner, config, truncation_off, padding_off } = loading;
        let mut t = HfTokenizer { inner, config, truncation_off, padding_off, fingerprint, special };
        t.check_id(cls)?;
        t.check_id(sep)?;
        t.check_id(mask)?;
        t.check_id(pad)?;
        let added = match added_token_fields(bytes) {
            Ok(a) => a,
            Err(e) => {
                return Err(Error::Invalid(e));
            },
        };
        let mut literals: Vec<String> = Vec::new();
        let mut i: usize = 0;
        while i < t.special.literals.len()
            invariant
                i <= t.special.literals@.len(),
                lits0 == literal_views(t.special),
                literals@.len() == i,
                forall|k: int| 0 <= k < i ==> #[trigger] literals@[k]@ == lits0[k],
            decreases t.special.literals@.len() - i,
        {
            literals.push(t.special.literals[i].clone());
            i = i + 1;
        }
        assert(views(literals@) =~= lits0);
        let merged = match added {
            None => literals,
            Some(ts) => match merge_added(literals, &ts) {
                Some(v) => v,
                None => {
                    return Err(Error::Invalid(String::from_str("added token")));
                },
            },
        };
        let sorted = sorted_unique(&merged);
        t.special = SpecialTokens { cls, sep, mask, pad, literals: sorted };
        assert(literal_views(t.special) =~= views(t.special.literals@));
        Ok(t)
    }
}

impl TextTokenizer for HfTokenizer {
    closed spec fn spec_encode(&self, text: Seq<char>) -> Option<Seq<u32>> {
        match hf_encode(self.config@, text) {
            Ok(ids) => Some(ids),
            Err(_) => None,
        }
    }

    closed spec fn spec_fingerprint(&self) -> Seq<u8> {
        self.fingerprint@
    }

    closed spec fn spec_controls(&self) -> (u32, u32, u32, u32) {
        controls(self.special)
    }

    closed spec fn spec_literals(&self) -> Seq<Seq<char>> {
        literal_views(self.special)
    }

    fn encode_piece(&self, text: &str) -> (r: Result<Vec<u32>, Error>) {
        proof {
            use_type_invariant(self);
        }
        match encode_ids(self, text) {
            Ok(v) => Ok(v),
            Err(e) => Err(Error::Invalid(e)),
        }
    }

    fn fingerprint(&self) -> (d: Digest) {
        self.fingerprint
    }

    fn special_tokens(&self) -> (t: SpecialTokens) {
        let mut literals: Vec<String> = Vec::new();
        let mut i: usize = 0;
        while i < self.special.literals.len()
            invariant
                i <= self.special.literals@.len(),
                literals@.len() == i,
                forall|k: int| 0 <= k < i ==> #[trigger] literals@[k]@ == self.special.literals@[k]@,
            decreases self.special.literals@.len() - i,
        {
            literals.push(self.special.literals[i].clone());
            i = i + 1;
        }
        let t = SpecialTokens {
            cls: self.special.cls,
            sep: self.special.sep,
            mask: self.special.mask,
            pad: self.special.pad,
            literals,
        };
        assert(literal_views(t) =~= literal_views(self.special));
        t
    }
}

} // verus!
