//! Command-line options of the pack builder: `--test` and `--random` stand
//! alone, every other flag takes the next argument (the last one given wins),
//! four paths are required, and a real pack names a 40-hex source revision.
use vstd::prelude::*;
use vstd::string::{StrSliceExecFns, StringExecFns};
use crate::text::str_eq;
use crate::config::Activation;
use crate::upload_cli::opt_view;

verus! {

/// The builder's options.
#[derive(Debug, Clone, PartialEq, Eq)]
pub struct PackArgs {
    pub source: String,
    pub config: String,
    pub tokenizer: String,
    pub out: String,
    pub repo: String,
    pub revision: String,
    pub test: bool,
    pub random: bool,
}

/// The flags read so far: the `(flag, value)` pairs in order, and the two switches.
pub struct ScanView {
    pub pairs: Seq<(Seq<char>, Seq<char>)>,
    pub test: bool,
    pub random: bool,
}

pub open spec fn pair_views(v: Seq<(String, String)>) -> Seq<(Seq<char>, Seq<char>)> {
    v.map_values(|p: (String, String)| (p.0@, p.1@))
}

/// Reading the arguments from position `i`.
pub open spec fn scan(args: Seq<Seq<char>>, i: int, st: ScanView) -> Result<ScanView, Seq<char>>
    decreases args.len() - i,
{
    if i < 0 || i >= args.len() {
        Ok(st)
    } else if args[i] == "--test"@ {
        scan(args, i + 1, ScanView { test: true, ..st })
    } else if args[i] == "--random"@ {
        scan(args, i + 1, ScanView { random: true, ..st })
    } else if i + 1 >= args.len() {
        Err("missing argument value"@)
    } else {
        scan(args, i + 2, ScanView { pairs: st.pairs.push((args[i], args[i + 1])), ..st })
    }
}

/// The value last given for `key` among the first `n` pairs.
pub open spec fn last_value(p: Seq<(Seq<char>, Seq<char>)>, n: int, key: Seq<char>) -> Option<Seq<char>>
    decreases n,
{
    if n <= 0 {
        None
    } else if p[n - 1].0 == key {
        Some(p[n - 1].1)
    } else {
        last_value(p, n - 1, key)
    }
}

pub open spec fn lookup(p: Seq<(Seq<char>, Seq<char>)>, key: Seq<char>) -> Option<Seq<char>> {
    last_value(p, p.len() as int, key)
}

/// The source repository when none is named.
pub open spec fn default_repo() -> Seq<char> {
    "heman10x/rlcd-modernbert-151m"@
}

/// The options built from what was read: the first required flag that is
/// missing, or the options.
pub open spec fn pack_args_from(st: ScanView) -> Result<(Seq<char>, Seq<char>, Seq<char>, Seq<char>, Seq<char>, Seq<char>), Seq<char>> {
    let p = st.pairs;
    if lookup(p, "--safetensors"@) is None {
        Err("--safetensors is required"@)
    } else if lookup(p, "--config"@) is None {
        Err("--config is required"@)
    } else if lookup(p, "--tokenizer"@) is None {
        Err("--tokenizer is required"@)
    } else if lookup(p, "--out"@) is None {
        Err("--out is required"@)
    } else {
        Ok((
            lookup(p, "--safetensors"@)->Some_0,
            lookup(p, "--config"@)->Some_0,
            lookup(p, "--tokenizer"@)->Some_0,
            lookup(p, "--out"@)->Some_0,
            match lookup(p, "--source-repo"@) { Some(r) => r, None => default_repo() },
            match lookup(p, "--source-revision"@) { Some(r) => r, None => Seq::<char>::empty() },
        ))
    }
}

pub open spec fn arg_views(args: Seq<String>) -> Seq<Seq<char>> {
    args.map_values(|s: String| s@)
}

fn copy(s: &String) -> (c: String)
    ensures
        c@ == s@,
{
    s.clone()
}

/// The value last given for `key`.
fn find(pairs: &Vec<(String, String)>, key: &str) -> (r: Option<String>)
    ensures
        opt_view(r) == lookup(pair_views(pairs@), key@),
{
    let ghost p = pair_views(pairs@);
    let mut i = pairs.len();
    while i > 0
        invariant
            i <= pairs@.len(),
            p == pair_views(pairs@),
            last_value(p, i as int, key@) == lookup(p, key@),
        decreases i,
    {
        assert(p[i - 1] == (pairs@[i - 1].0@, pairs@[i - 1].1@));
        if str_eq(pairs[i - 1].0.as_str(), key) {
            return Some(copy(&pairs[i - 1].1));
        }
        i = i - 1;
    }
    None
}

/// Reads the builder's flags (the program name already removed).
pub fn parse_pack_args(args: &Vec<String>) -> (r: Result<PackArgs, String>)
    ensures
        match scan(arg_views(args@), 0, ScanView { pairs: Seq::empty(), test: false, random: false }) {
            Err(e) => r matches Err(m) && m@ == e,
            Ok(st) => match pack_args_from(st) {
                Err(e) => r matches Err(m) && m@ == e,
                Ok(v) => r matches Ok(a) && a.source@ == v.0 && a.config@ == v.1 && a.tokenizer@ == v.2
                    && a.out@ == v.3 && a.repo@ == v.4 && a.revision@ == v.5 && a.test == st.test
                    && a.random == st.random,
            },
        },
{
    let ghost av = arg_views(args@);
    let ghost start = ScanView { pairs: Seq::empty(), test: false, random: false };
    let mut pairs: Vec<(String, String)> = Vec::new();
    let mut test = false;
    let mut random = false;
    let count = args.len();
    let mut i: usize = 0;
    assert(pair_views(pairs@) =~= Seq::<(Seq<char>, Seq<char>)>::empty());
    while i < count
        invariant
            count == args@.len(),
            i <= count,
            av == arg_views(args@),
            av.len() == count,
            start == (ScanView { pairs: Seq::empty(), test: false, random: false }),
            scan(av, i as int, ScanView { pairs: pair_views(pairs@), test, random }) == scan(av, 0, start),
        decreases count - i,
    {
        let k = &args[i];
        assert(k@ == av[i as int]);
        if str_eq(k.as_str(), "--test") {
            test = true;
            i = i + 1;
        } else if str_eq(k.as_str(), "--random") {
            random = true;
            i = i + 1;
        } else if i + 1 >= count {
            return Err(String::from_str("missing argument value"));
        } else {
            let v = &args[i + 1];
            assert(v@ == av[i + 1]);
            let ghost before = pair_views(pairs@);
            pairs.push((copy(k), copy(v)));
            assert(pair_views(pairs@) =~= before.push((k@, v@)));
            i = i + 2;
        }
    }
    let source = match find(&pairs, "--safetensors") {
        Some(s) => s,
        None => {
            return Err(String::from_str("--safetensors is required"));
        },
    };
    let config = match find(&pairs, "--config") {
        Some(s) => s,
        None => {
            return Err(String::from_str("--config is required"));
        },
    };
    let tokenizer = match find(&pairs, "--tokenizer") {
        Some(s) => s,
        None => {
            return Err(String::from_str("--tokenizer is required"));
        },
    };
    let out = match find(&pairs, "--out") {
        Some(s) => s,
        None => {
            return Err(String::from_str("--out is required"));
        },
    };
    let repo = match find(&pairs, "--source-repo") {
        Some(s) => s,
        None => String::from_str("heman10x/rlcd-modernbert-151m"),
    };
    let revision = match find(&pairs, "--source-revision") {
        Some(s) => s,
        None => String::new(),
    };
    Ok(PackArgs { source, config, tokenizer, out, repo, revision, test, random })
}

/// Random weights are for test packs only.
pub fn check_random(a: &PackArgs) -> (r: Result<(), String>)
    ensures
        a.random && !a.test <==> r is Err,
        r matches Err(m) ==> m@ == "--random requires --test"@,
{
    if a.random && !a.test {
        Err(String::from_str("--random requires --test"))
    } else {
        Ok(())
    }
}

pub open spec fn hex_char(c: char) -> bool {
    ('0' <= c <= '9') || ('a' <= c <= 'f') || ('A' <= c <= 'F')
}

/// Forty hexadecimal digits.
pub open spec fn is_commit(s: Seq<char>) -> bool {
    s.len() == 40 && forall|i: int| 0 <= i < s.len() ==> hex_char(#[trigger] s[i])
}

/// The revision a pack records: forty zeros for a test pack that names none;
/// a real pack must name a 40-hex commit.
pub open spec fn revision_of(revision: Seq<char>, test: bool) -> Result<Seq<char>, Seq<char>> {
    let r = if revision.len() == 0 && test { Seq::new(40, |i: int| '0') } else { revision };
    if !test && !is_commit(r) {
        Err("real pack requires a 40-hex source revision"@)
    } else {
        Ok(r)
    }
}

fn all_hex(s: &str) -> (b: bool)
    ensures
        b == is_commit(s@),
{
    let n = s.unicode_len();
    if n != 40 {
        return false;
    }
    let mut i: usize = 0;
    while i < n
        invariant
            n == s@.len(),
            i <= n,
            forall|j: int| 0 <= j < i ==> hex_char(#[trigger] s@[j]),
        decreases n - i,
    {
        let c = s.get_char(i);
        if !(('0' <= c && c <= '9') || ('a' <= c && c <= 'f') || ('A' <= c && c <= 'F')) {
            assert(!hex_char(s@[i as int]));
            return false;
        }
        i = i + 1;
    }
    true
}

/// The source revision the pack records, or why a real pack cannot be built.
pub fn source_revision(revision: &String, test: bool) -> (r: Result<String, String>)
    ensures
        match revision_of(revision@, test) {
            Ok(v) => r matches Ok(s) && s@ == v,
            Err(e) => r matches Err(m) && m@ == e,
        },
{
    let r = if revision.unicode_len() == 0 && test {
        let mut z = String::new();
        let mut k: usize = 0;
        while k < 40
            invariant
                k <= 40,
                z@ == Seq::new(k as nat, |i: int| '0'),
            decreases 40 - k,
        {
            let ghost before = z@;
            z.append("0");
            proof {
                reveal_strlit("0");
            }
            assert(z@ =~= Seq::new((k + 1) as nat, |i: int| '0'));
            k = k + 1;
        }
        z
    } else {
        copy(revision)
    };
    if !test && !all_hex(r.as_str()) {
        return Err(String::from_str("real pack requires a 40-hex source revision"));
    }
    Ok(r)
}

/// The projector activation a checkpoint names (`gelu` when it names none).
pub open spec fn activation_of(name: Option<Seq<char>>) -> Result<Activation, Seq<char>> {
    let n = match name { Some(n) => n, None => "gelu"@ };
    if n == "gelu"@ {
        Ok(Activation::Gelu)
    } else if n == "relu"@ {
        Ok(Activation::Relu)
    } else {
        Err("unsupported projector_hidden_act "@ + n)
    }
}

/// Reads the checkpoint's projector activation.
pub fn projector_activation(name: Option<&str>) -> (r: Result<Activation, String>)
    ensures
        match activation_of(match name { Some(n) => Some(n@), None => None }) {
            Ok(a) => r == Ok::<Activation, String>(a),
            Err(e) => r matches Err(m) && m@ == e,
        },
{
    let n = match name {
        Some(n) => n,
        None => "gelu",
    };
    if str_eq(n, "gelu") {
        Ok(Activation::Gelu)
    } else if str_eq(n, "relu") {
        Ok(Activation::Relu)
    } else {
        Err(String::from_str("unsupported projector_hidden_act ").concat(n))
    }
}

/// The attention kind layer `i` must declare: full attention on every
/// `global_every`-th layer, sliding attention elsewhere.
pub open spec fn layer_kind(i: int, global_every: int) -> Seq<char> {
    if i % global_every == 0 { "full_attention"@ } else { "sliding_attention"@ }
}

/// Each declared layer type (absent where it is not a string) agrees with the global period.
pub open spec fn layer_types_agree(types: Seq<Option<Seq<char>>>, global_every: int) -> bool {
    forall|i: int| 0 <= i < types.len() ==> #[trigger] types[i] == Some(layer_kind(i, global_every))
}

pub open spec fn type_views(types: Seq<Option<String>>) -> Seq<Option<Seq<char>>> {
    types.map_values(|t: Option<String>| opt_view(t))
}

/// Checks the checkpoint's declared layer types against its global-attention period.
pub fn check_layer_types(types: &Vec<Option<String>>, global_every: usize) -> (r: Result<(), String>)
    requires
        types@.len() == 0 || global_every > 0,
    ensures
        r is Ok <==> layer_types_agree(type_views(types@), global_every as int),
        r matches Err(m) ==> m@ == "layer_types disagrees with global_attn_every_n_layers"@,
{
    let ghost tv = type_views(types@);
    let mut i: usize = 0;
    while i < types.len()
        invariant
            i <= types@.len(),
            types@.len() == 0 || global_every > 0,
            tv == type_views(types@),
            forall|j: int| 0 <= j < i ==> #[trigger] tv[j] == Some(layer_kind(j, global_every as int)),
        decreases types@.len() - i,
    {
        let want = if i % global_every == 0 { "full_attention" } else { "sliding_attention" };
        let ok = match &types[i] {
            Some(t) => str_eq(t.as_str(), want),
            None => false,
        };
        assert(tv[i as int] == opt_view(types@[i as int]));
        if !ok {
            return Err(String::from_str("layer_types disagrees with global_attn_every_n_layers"));
        }
        i = i + 1;
    }
    Ok(())
}

} // verus!
