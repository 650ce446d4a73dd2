//! Command-line options of the pack upload tool: each flag in order, a value
//! after the flags that take one, the identity file required, and the chunk
//! size kept between 1 KiB and 1 MiB.
use vstd::prelude::*;
use vstd::string::StringExecFns;
use crate::text::{parse_unsigned, str_eq};

verus! {

/// The smallest and largest upload chunk.
pub const MIN_CHUNK: usize = 1024;
pub const MAX_CHUNK: usize = 1048576;

/// The text `str::parse::<u32>` gives for a failed parse; it depends on the text alone.
pub uninterp spec fn u32_error_text(s: Seq<char>) -> Seq<char>;

/// The text `str::parse::<usize>` gives for a failed parse; it depends on the text alone.
pub uninterp spec fn usize_error_text(s: Seq<char>) -> Seq<char>;

/// `str::parse::<u32>`: its documentation accepts an optional `+` followed by
/// digits only, with a value that fits; the error's display text is named, not
/// stated.
#[verifier::external_body]
pub(crate) fn parse_u32_text(s: &str) -> (r: Result<u32, String>)
    ensures
        match parse_unsigned(s@, u32::MAX as int) {
            Some(v) => r == Ok::<u32, String>(v as u32),
            None => r matches Err(m) && m@ == u32_error_text(s@),
        },
{
    s.parse::<u32>().map_err(|e| e.to_string())
}

/// `str::parse::<usize>`, as `parse_u32_text` for `usize`.
#[verifier::external_body]
fn parse_usize_text(s: &str) -> (r: Result<usize, String>)
    ensures
        match parse_unsigned(s@, usize::MAX as int) {
            Some(v) => r == Ok::<usize, String>(v as usize),
            None => r matches Err(m) && m@ == usize_error_text(s@),
        },
{
    s.parse::<usize>().map_err(|e| e.to_string())
}

/// `str::parse::<u64>`, its error dropped (the callers fall back to 0).
#[verifier::external_body]
pub(crate) fn parse_u64_text(s: &str) -> (r: Option<u64>)
    ensures
        match parse_unsigned(s@, u64::MAX as int) {
            Some(v) => r == Some(v as u64),
            None => r is None,
        },
{
    s.parse::<u64>().ok()
}

/// The parsed options.
#[derive(Debug, Clone, PartialEq, Eq)]
pub struct Args {
    pub url: String,
    pub canister: String,
    pub pem: String,
    pub pack: Option<String>,
    pub tokenizer: Option<String>,
    pub cls: u32,
    pub sep: u32,
    pub mask: u32,
    pub pad: u32,
    pub chunk: usize,
    pub print_principal: bool,
    pub no_upload: bool,
    pub warm_only: bool,
    pub allow_caller: Option<String>,
    pub infer: Option<String>,
    pub profile: Option<String>,
    pub profile_detailed: bool,
    pub decide: bool,
    pub bench: Option<String>,
    pub quant: Option<String>,
    pub int8: Option<String>,
    pub half: Option<String>,
    pub decide_batch: bool,
    pub decide_many: u32,
}

/// The options while the flags are read (canister and identity still optional,
/// the chunk not yet clamped).
pub struct Options {
    pub url: String,
    pub canister: Option<String>,
    pub pem: Option<String>,
    pub pack: Option<String>,
    pub tokenizer: Option<String>,
    pub cls: u32,
    pub sep: u32,
    pub mask: u32,
    pub pad: u32,
    pub chunk: usize,
    pub print_principal: bool,
    pub no_upload: bool,
    pub warm_only: bool,
    pub allow_caller: Option<String>,
    pub infer: Option<String>,
    pub profile: Option<String>,
    pub profile_detailed: bool,
    pub decide: bool,
    pub bench: Option<String>,
    pub quant: Option<String>,
    pub int8: Option<String>,
    pub half: Option<String>,
    pub decide_batch: bool,
    pub decide_many: u32,
}

/// The options as text.
pub struct OptionsView {
    pub url: Seq<char>,
    pub canister: Option<Seq<char>>,
    pub pem: Option<Seq<char>>,
    pub pack: Option<Seq<char>>,
    pub tokenizer: Option<Seq<char>>,
    pub cls: u32,
    pub sep: u32,
    pub mask: u32,
    pub pad: u32,
    pub chunk: usize,
    pub print_principal: bool,
    pub no_upload: bool,
    pub warm_only: bool,
    pub allow_caller: Option<Seq<char>>,
    pub infer: Option<Seq<char>>,
    pub profile: Option<Seq<char>>,
    pub profile_detailed: bool,
    pub decide: bool,
    pub bench: Option<Seq<char>>,
    pub quant: Option<Seq<char>>,
    pub int8: Option<Seq<char>>,
    pub half: Option<Seq<char>>,
    pub decide_batch: bool,
    pub decide_many: u32,
}

pub open spec fn opt_view(o: Option<String>) -> Option<Seq<char>> {
    match o {
        Some(s) => Some(s@),
        None => None,
    }
}

impl View for Options {
    type V = OptionsView;

    open spec fn view(&self) -> OptionsView {
        OptionsView {
            url: self.url@,
            canister: opt_view(self.canister),
            pem: opt_view(self.pem),
            pack: opt_view(self.pack),
            tokenizer: opt_view(self.tokenizer),
            cls: self.cls,
            sep: self.sep,
            mask: self.mask,
            pad: self.pad,
            chunk: self.chunk,
            print_principal: self.print_principal,
            no_upload: self.no_upload,
            warm_only: self.warm_only,
            allow_caller: opt_view(self.allow_caller),
            infer: opt_view(self.infer),
            profile: opt_view(self.profile),
            profile_detailed: self.profile_detailed,
            decide: self.decide,
            bench: opt_view(self.bench),
            quant: opt_view(self.quant),
            int8: opt_view(self.int8),
            half: opt_view(self.half),
            decide_batch: self.decide_batch,
            decide_many: self.decide_many,
        }
    }
}

/// The flag of the half-precision benchmark.
pub open spec fn half_flag() -> Seq<char> {
    "--f"@ + "16"@
}

pub(crate) fn half_flag_text() -> (s: String)
    ensures
        s@ == half_flag(),
{
    String::from_str("--f").concat("16")
}

/// The options before any flag: the local replica, the ModernBERT special ids and 1 MiB chunks.
pub open spec fn defaults() -> OptionsView {
    OptionsView {
        url: "http://127.0.0.1:8000"@,
        canister: None,
        pem: None,
        pack: None,
        tokenizer: None,
        cls: 50281,
        sep: 50282,
        mask: 50284,
        pad: 50283,
        chunk: 1048576,
        print_principal: false,
        no_upload: false,
        warm_only: false,
        allow_caller: None,
        infer: None,
        profile: None,
        profile_detailed: false,
        decide: false,
        bench: None,
        quant: None,
        int8: None,
        half: None,
        decide_batch: false,
        decide_many: 0,
    }
}

/// A flag that sets a number: the value or the flag's parse error.
pub open spec fn number(flag: Seq<char>, v: Seq<char>) -> Result<u32, Seq<char>> {
    match parse_unsigned(v, u32::MAX as int) {
        Some(n) => Ok(n as u32),
        None => Err(flag + ": "@ + u32_error_text(v)),
    }
}

/// A flag that takes no value.
pub open spec fn switch_flag(flag: Seq<char>) -> bool {
    flag == "--print-principal"@ || flag == "--no-upload"@ || flag == "--warm-only"@ || flag == "--decide"@
        || flag == "--decide-batch"@ || flag == "--profile-detailed"@
}

/// The options after a flag that takes no value.
pub open spec fn switch_step(o: OptionsView, flag: Seq<char>) -> OptionsView {
    if flag == "--print-principal"@ {
        OptionsView { print_principal: true, ..o }
    } else if flag == "--no-upload"@ {
        OptionsView { no_upload: true, ..o }
    } else if flag == "--warm-only"@ {
        OptionsView { warm_only: true, ..o }
    } else if flag == "--decide"@ {
        OptionsView { decide: true, ..o }
    } else if flag == "--decide-batch"@ {
        OptionsView { decide_batch: true, ..o }
    } else {
        OptionsView { profile_detailed: true, ..o }
    }
}

/// A flag that takes the next argument as its value.
pub open spec fn value_flag(flag: Seq<char>) -> bool {
    flag == "--url"@ || flag == "--canister"@ || flag == "--pem"@ || flag == "--pack"@ || flag == "--tokenizer"@
        || flag == "--cls"@ || flag == "--sep"@ || flag == "--mask"@ || flag == "--pad"@ || flag == "--chunk"@
        || flag == "--allow-caller"@ || flag == "--infer"@ || flag == "--bench"@ || flag == "--quant"@ || flag == "--int8"@
        || flag == half_flag() || flag == "--decide-many"@ || flag == "--profile"@
}

/// A flag whose value is kept as text.
pub open spec fn text_flag(flag: Seq<char>) -> bool {
    flag == "--url"@ || flag == "--canister"@ || flag == "--pem"@ || flag == "--pack"@ || flag == "--tokenizer"@
        || flag == "--allow-caller"@ || flag == "--infer"@ || flag == "--bench"@ || flag == "--quant"@ || flag == "--int8"@
        || flag == half_flag() || flag == "--profile"@
}

/// The options after a flag whose value is kept as text.
pub open spec fn text_step(o: OptionsView, flag: Seq<char>, v: Seq<char>) -> OptionsView {
    if flag == "--url"@ {
        OptionsView { url: v, ..o }
    } else if flag == "--canister"@ {
        OptionsView { canister: Some(v), ..o }
    } else if flag == "--pem"@ {
        OptionsView { pem: Some(v), ..o }
    } else if flag == "--pack"@ {
        OptionsView { pack: Some(v), ..o }
    } else if flag == "--tokenizer"@ {
        OptionsView { tokenizer: Some(v), ..o }
    } else if flag == "--allow-caller"@ {
        OptionsView { allow_caller: Some(v), ..o }
    } else if flag == "--infer"@ {
        OptionsView { infer: Some(v), ..o }
    } else if flag == "--bench"@ {
        OptionsView { bench: Some(v), ..o }
    } else if flag == "--quant"@ {
        OptionsView { quant: Some(v), ..o }
    } else if flag == "--int8"@ {
        OptionsView { int8: Some(v), ..o }
    } else if flag == half_flag() {
        OptionsView { half: Some(v), ..o }
    } else {
        OptionsView { profile: Some(v), ..o }
    }
}

/// The options after a flag whose value is a number, or the error.
pub open spec fn number_step(o: OptionsView, flag: Seq<char>, v: Seq<char>) -> Result<OptionsView, Seq<char>> {
    if flag == "--decide-many"@ {
        let n = match parse_unsigned(v, u32::MAX as int) {
            Some(n) => n as u32,
            None => 0u32,
        };
        Ok(OptionsView { decide_many: n, ..o })
    } else if flag == "--chunk"@ {
        match parse_unsigned(v, usize::MAX as int) {
            Some(n) => Ok(OptionsView { chunk: n as usize, ..o }),
            None => Err("--chunk: "@ + usize_error_text(v)),
        }
    } else {
        match number(flag, v) {
            Err(e) => Err(e),
            Ok(n) => if flag == "--cls"@ {
                Ok(OptionsView { cls: n, ..o })
            } else if flag == "--sep"@ {
                Ok(OptionsView { sep: n, ..o })
            } else if flag == "--mask"@ {
                Ok(OptionsView { mask: n, ..o })
            } else {
                Ok(OptionsView { pad: n, ..o })
            },
        }
    }
}

/// The effect of the flag at position `i`: the options after it and where the
/// next flag is, or the error.
pub open spec fn step(o: OptionsView, args: Seq<Seq<char>>, i: int) -> Result<(OptionsView, int), Seq<char>> {
    let flag = args[i];
    if switch_flag(flag) {
        Ok((switch_step(o, flag), i + 1))
    } else if !value_flag(flag) {
        Err("unknown argument "@ + flag)
    } else if i + 1 >= args.len() {
        Err(flag + " needs a value"@)
    } else if text_flag(flag) {
        Ok((text_step(o, flag, args[i + 1]), i + 2))
    } else {
        match number_step(o, flag, args[i + 1]) {
            Ok(p) => Ok((p, i + 2)),
            Err(e) => Err(e),
        }
    }
}

/// Reading the flags from position `i` with options `o`.
pub open spec fn parse_from(args: Seq<Seq<char>>, i: int, o: OptionsView) -> Result<OptionsView, Seq<char>>
    decreases args.len() - i,
{
    if i < 0 || i >= args.len() {
        Ok(o)
    } else {
        match step(o, args, i) {
            Err(e) => Err(e),
            Ok((p, j)) => if j <= i { Ok(p) } else { parse_from(args, j, p) },
        }
    }
}

pub open spec fn arg_views(args: Seq<String>) -> Seq<Seq<char>> {
    args.map_values(|s: String| s@)
}

pub open spec fn clamp_chunk(n: usize) -> usize {
    if n < MIN_CHUNK { MIN_CHUNK } else if n > MAX_CHUNK { MAX_CHUNK } else { n }
}

/// The parsed options match the options read from the flags.
pub open spec fn args_from(a: Args, o: OptionsView) -> bool {
    &&& a.url@ == o.url && a.pem@ == o.pem->Some_0
    &&& a.canister@ == (match o.canister { Some(c) => c, None => Seq::<char>::empty() })
    &&& opt_view(a.pack) == o.pack && opt_view(a.tokenizer) == o.tokenizer
    &&& a.cls == o.cls && a.sep == o.sep && a.mask == o.mask && a.pad == o.pad
    &&& a.chunk == clamp_chunk(o.chunk)
    &&& a.print_principal == o.print_principal && a.no_upload == o.no_upload && a.warm_only == o.warm_only
    &&& opt_view(a.allow_caller) == o.allow_caller && opt_view(a.infer) == o.infer && opt_view(a.profile) == o.profile
    &&& a.profile_detailed == o.profile_detailed && a.decide == o.decide
    &&& opt_view(a.bench) == o.bench && opt_view(a.quant) == o.quant && opt_view(a.int8) == o.int8 && opt_view(a.half) == o.half
    &&& a.decide_batch == o.decide_batch && a.decide_many == o.decide_many
}

impl Options {
    fn new() -> (o: Options)
        ensures
            o@ == defaults(),
    {
        Options {
            url: String::from_str("http://127.0.0.1:8000"),
            canister: None,
            pem: None,
            pack: None,
            tokenizer: None,
            cls: 50281,
            sep: 50282,
            mask: 50284,
            pad: 50283,
            chunk: 1048576,
            print_principal: false,
            no_upload: false,
            warm_only: false,
            allow_caller: None,
            infer: None,
            profile: None,
            profile_detailed: false,
            decide: false,
            bench: None,
            quant: None,
            int8: None,
            half: None,
            decide_batch: false,
            decide_many: 0,
        }
    }
}

fn copy(s: &String) -> (c: String)
    ensures
        c@ == s@,
{
    s.clone()
}

/// Applies a flag that takes no value; false where the flag takes one or is unknown.
fn apply_switch(o: &mut Options, flag: &str) -> (done: bool)
    ensures
        done == switch_flag(flag@),
        done ==> final(o)@ == switch_step(old(o)@, flag@),
        !done ==> final(o)@ == old(o)@,
{
    if str_eq(flag, "--print-principal") {
        o.print_principal = true;
    } else if str_eq(flag, "--no-upload") {
        o.no_upload = true;
    } else if str_eq(flag, "--warm-only") {
        o.warm_only = true;
    } else if str_eq(flag, "--decide") {
        o.decide = true;
    } else if str_eq(flag, "--decide-batch") {
        o.decide_batch = true;
    } else if str_eq(flag, "--profile-detailed") {
        o.profile_detailed = true;
    } else {
        return false;
    }
    true
}

fn is_text_flag(flag: &str, half: &str) -> (b: bool)
    requires
        half@ == half_flag(),
    ensures
        b == text_flag(flag@),
{
    str_eq(flag, "--url") || str_eq(flag, "--canister") || str_eq(flag, "--pem") || str_eq(flag, "--pack")
        || str_eq(flag, "--tokenizer") || str_eq(flag, "--allow-caller") || str_eq(flag, "--infer")
        || str_eq(flag, "--bench") || str_eq(flag, "--quant") || str_eq(flag, "--int8") || str_eq(flag, half)
        || str_eq(flag, "--profile")
}

fn is_value_flag(flag: &str, half: &str) -> (b: bool)
    requires
        half@ == half_flag(),
    ensures
        b == value_flag(flag@),
{
    is_text_flag(flag, half) || str_eq(flag, "--cls") || str_eq(flag, "--sep") || str_eq(flag, "--mask")
        || str_eq(flag, "--pad") || str_eq(flag, "--chunk") || str_eq(flag, "--decide-many")
}

/// Applies a flag whose value is kept as text.
fn apply_text(o: &mut Options, flag: &str, half: &str, v: &String)
    requires
        half@ == half_flag(),
        text_flag(flag@),
    ensures
        final(o)@ == text_step(old(o)@, flag@, v@),
{
    if str_eq(flag, "--url") {
        o.url = copy(v);
    } else if str_eq(flag, "--canister") {
        o.canister = Some(copy(v));
    } else if str_eq(flag, "--pem") {
        o.pem = Some(copy(v));
    } else if str_eq(flag, "--pack") {
        o.pack = Some(copy(v));
    } else if str_eq(flag, "--tokenizer") {
        o.tokenizer = Some(copy(v));
    } else if str_eq(flag, "--allow-caller") {
        o.allow_caller = Some(copy(v));
    } else if str_eq(flag, "--infer") {
        o.infer = Some(copy(v));
    } else if str_eq(flag, "--bench") {
        o.bench = Some(copy(v));
    } else if str_eq(flag, "--quant") {
        o.quant = Some(copy(v));
    } else if str_eq(flag, "--int8") {
        o.int8 = Some(copy(v));
    } else if str_eq(flag, half) {
        o.half = Some(copy(v));
    } else {
        o.profile = Some(copy(v));
    }
}

/// Applies a flag whose value is a number.
fn apply_number(o: &mut Options, flag: &str, v: &String) -> (r: Result<(), String>)
    ensures
        match number_step(old(o)@, flag@, v@) {
            Ok(p) => r is Ok && final(o)@ == p,
            Err(e) => r matches Err(m) && m@ == e,
        },
{
    if str_eq(flag, "--decide-many") {
        o.decide_many = match parse_u32_text(v.as_str()) {
            Ok(n) => n,
            Err(_) => 0,
        };
        Ok(())
    } else if str_eq(flag, "--chunk") {
        match parse_usize_text(v.as_str()) {
            Ok(n) => {
                o.chunk = n;
                Ok(())
            },
            Err(e) => Err(String::from_str("--chunk: ").concat(e.as_str())),
        }
    } else {
        let n = match parse_u32_text(v.as_str()) {
            Ok(n) => n,
            Err(e) => {
                return Err(String::from_str(flag).concat(": ").concat(e.as_str()));
            },
        };
        if str_eq(flag, "--cls") {
            o.cls = n;
        } else if str_eq(flag, "--sep") {
            o.sep = n;
        } else if str_eq(flag, "--mask") {
            o.mask = n;
        } else {
            o.pad = n;
        }
        Ok(())
    }
}

/// Applies the flag at position `i`.
fn apply(o: &mut Options, args: &Vec<String>, i: usize) -> (r: Result<usize, String>)
    requires
        i < args@.len(),
    ensures
        match step(old(o)@, arg_views(args@), i as int) {
            Ok((p, j)) => r == Ok::<usize, String>(j as usize) && final(o)@ == p,
            Err(e) => r matches Err(m) && m@ == e,
        },
{
    let ghost av = arg_views(args@);
    let count = args.len();
    let flag = args[i].as_str();
    assert(flag@ == av[i as int]);
    if apply_switch(o, flag) {
        return Ok(i + 1);
    }
    let half = half_flag_text();
    if !is_value_flag(flag, half.as_str()) {
        return Err(String::from_str("unknown argument ").concat(flag));
    }
    if i + 1 >= count {
        return Err(String::from_str(flag).concat(" needs a value"));
    }
    let v = &args[i + 1];
    assert(v@ == av[i + 1]);
    if is_text_flag(flag, half.as_str()) {
        apply_text(o, flag, half.as_str(), v);
    } else {
        match apply_number(o, flag, v) {
            Ok(()) => {},
            Err(e) => {
                return Err(e);
            },
        }
    }
    Ok(i + 2)
}

/// Reads the tool's flags (the program name already removed): each flag in
/// order, later ones overriding earlier ones; an unknown flag or a missing or
/// malformed value is refused; `--pem` is required; the chunk is clamped to
/// 1 KiB to 1 MiB; an unparsable `--decide-many` counts as 0.
pub fn parse_args(args: &Vec<String>) -> (r: Result<Args, String>)
    ensures
        match parse_from(arg_views(args@), 0, defaults()) {
            Err(e) => r matches Err(m) && m@ == e,
            Ok(o) => if o.pem is None {
                r matches Err(m) && m@ == "--pem is required"@
            } else {
                r matches Ok(a) && args_from(a, o)
            },
        },
{
    let ghost av = arg_views(args@);
    let mut o = Options::new();
    let mut i: usize = 0;
    while i < args.len()
        invariant
            i <= args@.len(),
            av == arg_views(args@),
            parse_from(av, i as int, o@) == parse_from(av, 0, defaults()),
        decreases args@.len() - i,
    {
        let ghost before = o@;
        match apply(&mut o, args, i) {
            Ok(j) => {
                proof {
                    assert(parse_from(av, i as int, before) == parse_from(av, j as int, o@));
                }
                i = j;
            },
            Err(e) => {
                return Err(e);
            },
        }
    }
    let pem = match o.pem {
        Some(p) => p,
        None => {
            return Err(String::from_str("--pem is required"));
        },
    };
    let canister = match o.canister {
        Some(c) => c,
        None => String::new(),
    };
    let chunk = if o.chunk < MIN_CHUNK { MIN_CHUNK } else if o.chunk > MAX_CHUNK { MAX_CHUNK } else { o.chunk };
    Ok(Args {
        url: o.url,
        canister,
        pem,
        pack: o.pack,
        tokenizer: o.tokenizer,
        cls: o.cls,
        sep: o.sep,
        mask: o.mask,
        pad: o.pad,
        chunk,
        print_principal: o.print_principal,
        no_upload: o.no_upload,
        warm_only: o.warm_only,
        allow_caller: o.allow_caller,
        infer: o.infer,
        profile: o.profile,
        profile_detailed: o.profile_detailed,
        decide: o.decide,
        bench: o.bench,
        quant: o.quant,
        int8: o.int8,
        half: o.half,
        decide_batch: o.decide_batch,
        decide_many: o.decide_many,
    })
}

} // verus!
