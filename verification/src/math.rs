//! Validated integer probability mass (parts per million) and the typed values
//! derived from it.
use vstd::prelude::*;
use vstd::string::StringExecFns;
use crate::types::{DecisionValue, Diagnostics, Error, OptionDef, Primitive, Schema, PPM};

verus! {

/// Sum of a sequence of masses.
pub open spec fn mass_sum(m: Seq<u32>) -> int
    decreases m.len(),
{
    if m.len() == 0 {
        0
    } else {
        mass_sum(m.drop_last()) + m.last()
    }
}

/// `Σ i·m[i]`, the expected level scaled by one million.
pub open spec fn level_sum(m: Seq<u32>) -> int
    decreases m.len(),
{
    if m.len() == 0 {
        0
    } else {
        level_sum(m.drop_last()) + (m.len() - 1) * m.last()
    }
}

/// A well-formed distribution: 2..=7 masses, each at most one million, summing
/// to exactly one million.
pub open spec fn valid_mass(m: Seq<u32>) -> bool {
    &&& 2 <= m.len() <= 7
    &&& forall|i: int| 0 <= i < m.len() ==> m[i] <= PPM
    &&& mass_sum(m) == PPM as int
}

/// `k` is the first index holding the largest mass.
pub open spec fn is_first_max(m: Seq<u32>, k: int) -> bool {
    &&& 0 <= k < m.len()
    &&& forall|j: int| 0 <= j < m.len() ==> m[j] <= m[k]
    &&& forall|j: int| 0 <= j < k ==> m[j] < m[k]
}

/// `s` is the largest mass once the entry at `k` is set aside (the second
/// entry of the masses sorted in descending order when `k` is a maximum).
pub open spec fn is_runner_up(m: Seq<u32>, k: int, s: u32) -> bool {
    &&& exists|j: int| 0 <= j < m.len() && j != k && m[j] == s
    &&& forall|j: int| 0 <= j < m.len() && j != k ==> m[j] <= s
}

/// The diagnostics of masses `m`: the first maximum, its margin over the
/// runner-up, and whether the two tie.
pub open spec fn diag_of(m: Seq<u32>, d: Diagnostics) -> bool {
    exists|k: int|
        is_first_max(m, k) && d.top1_ppm == m[k] && d.margin_ppm <= d.top1_ppm && is_runner_up(
            m,
            k,
            (d.top1_ppm - d.margin_ppm) as u32,
        ) && d.tied == (d.margin_ppm == 0)
}

/// The diagnostics of a distribution are unique.
pub proof fn lemma_diag_unique(m: Seq<u32>, a: Diagnostics, b: Diagnostics)
    requires
        diag_of(m, a),
        diag_of(m, b),
    ensures
        a == b,
{
    let ka = choose|k: int|
        is_first_max(m, k) && a.top1_ppm == m[k] && a.margin_ppm <= a.top1_ppm && is_runner_up(
            m,
            k,
            (a.top1_ppm - a.margin_ppm) as u32,
        ) && a.tied == (a.margin_ppm == 0);
    let kb = choose|k: int|
        is_first_max(m, k) && b.top1_ppm == m[k] && b.margin_ppm <= b.top1_ppm && is_runner_up(
            m,
            k,
            (b.top1_ppm - b.margin_ppm) as u32,
        ) && b.tied == (b.margin_ppm == 0);
    if ka < kb {
        assert(m[ka] < m[kb]);
    } else if kb < ka {
        assert(m[kb] < m[ka]);
    }
    let sa = (a.top1_ppm - a.margin_ppm) as u32;
    let sb = (b.top1_ppm - b.margin_ppm) as u32;
    let ja = choose|j: int| 0 <= j < m.len() && j != ka && m[j] == sa;
    let jb = choose|j: int| 0 <= j < m.len() && j != kb && m[j] == sb;
    assert(m[ja] <= sb);
    assert(m[jb] <= sa);
}

pub proof fn lemma_mass_sum_bound(m: Seq<u32>)
    requires
        forall|i: int| 0 <= i < m.len() ==> m[i] <= PPM,
    ensures
        0 <= mass_sum(m) <= m.len() * PPM,
    decreases m.len(),
{
    if m.len() > 0 {
        lemma_mass_sum_bound(m.drop_last());
    }
}

pub proof fn lemma_level_sum_bound(m: Seq<u32>)
    requires
        forall|i: int| 0 <= i < m.len() ==> m[i] <= PPM,
        m.len() <= 7,
    ensures
        0 <= level_sum(m) <= 6 * mass_sum(m),
    decreases m.len(),
{
    if m.len() > 0 {
        lemma_level_sum_bound(m.drop_last());
        assert((m.len() - 1) * m.last() <= 6 * m.last()) by (nonlinear_arith)
            requires
                m.len() <= 7,
                m.len() >= 1,
                m.last() >= 0,
        ;
    }
}

fn sum_range(m: &Vec<u32>, lo: usize, hi: usize) -> (s: u32)
    requires
        lo <= hi <= m@.len() <= 7,
        forall|i: int| 0 <= i < m@.len() ==> m@[i] <= PPM,
    ensures
        s == mass_sum(m@.subrange(lo as int, hi as int)),
{
    let mut s: u32 = 0;
    let mut i = lo;
    while i < hi
        invariant
            lo <= i <= hi <= m@.len() <= 7,
            forall|k: int| 0 <= k < m@.len() ==> m@[k] <= PPM,
            s == mass_sum(m@.subrange(lo as int, i as int)),
            s <= (i - lo) * PPM,
        decreases hi - i,
    {
        assert(m@.subrange(lo as int, i + 1).drop_last() =~= m@.subrange(lo as int, i as int));
        s = s + m[i];
        i = i + 1;
    }
    s
}

/// Validated probability mass. It has no constructor but `new`.
#[derive(Debug, PartialEq, Eq)]
pub struct Distribution {
    mass: Vec<u32>,
}

impl View for Distribution {
    type V = Seq<u32>;

    closed spec fn view(&self) -> Seq<u32> {
        self.mass@
    }
}

impl Clone for Distribution {
    fn clone(&self) -> (d: Self)
        ensures
            d@ == self@,
    {
        proof {
            use_type_invariant(self);
        }
        Distribution { mass: self.mass.clone() }
    }
}

impl Distribution {
    #[verifier::type_invariant]
    closed spec fn wf(self) -> bool {
        valid_mass(self.mass@)
    }

    /// Accepts exactly the well-formed masses; everything else is `Numeric`.
    pub fn new(mass: Vec<u32>) -> (r: Result<Distribution, Error>)
        ensures
            r is Ok <==> valid_mass(mass@),
            r matches Ok(d) ==> d@ == mass@,
            r matches Err(e) ==> e == Error::Numeric,
    {
        let n = mass.len();
        if n < 2 || n > 7 {
            return Err(Error::Numeric);
        }
        let mut i: usize = 0;
        let mut total: u64 = 0;
        while i < n
            invariant
                n == mass@.len() <= 7,
                i <= n,
                forall|k: int| 0 <= k < i ==> mass@[k] <= PPM,
                total == mass_sum(mass@.subrange(0, i as int)),
                total <= i * PPM,
            decreases n - i,
        {
            if mass[i] > PPM {
                return Err(Error::Numeric);
            }
            assert(mass@.subrange(0, i + 1).drop_last() =~= mass@.subrange(0, i as int));
            total = total + mass[i] as u64;
            i = i + 1;
        }
        assert(mass@.subrange(0, n as int) =~= mass@);
        if total != PPM as u64 {
            return Err(Error::Numeric);
        }
        Ok(Distribution { mass })
    }

    pub fn as_slice(&self) -> (s: &[u32])
        ensures
            s@ == self@,
            valid_mass(s@),
    {
        proof {
            use_type_invariant(self);
        }
        self.mass.as_slice()
    }

    pub fn into_vec(self) -> (v: Vec<u32>)
        ensures
            v@ == self@,
            valid_mass(v@),
    {
        proof {
            use_type_invariant(&self);
        }
        self.mass
    }

    /// The first index of the largest mass (stable first-index tie break).
    pub fn argmax(&self) -> (k: usize)
        ensures
            is_first_max(self@, k as int),
    {
        proof {
            use_type_invariant(self);
        }
        let mut best: usize = 0;
        let mut i: usize = 1;
        while i < self.mass.len()
            invariant
                1 <= i <= self.mass@.len(),
                is_first_max(self.mass@.subrange(0, i as int), best as int),
            decreases self.mass@.len() - i,
        {
            if self.mass[i] > self.mass[best] {
                best = i;
            }
            i = i + 1;
        }
        assert(self.mass@.subrange(0, i as int) =~= self.mass@);
        best
    }

    /// Largest mass, its distance to the runner-up, and whether they tie.
    pub fn diagnostics(&self) -> (d: Diagnostics)
        ensures
            exists|k: int|
                is_first_max(self@, k) && d.top1_ppm == self@[k] && is_runner_up(
                    self@,
                    k,
                    (d.top1_ppm - d.margin_ppm) as u32,
                ),
            d.margin_ppm <= d.top1_ppm,
            d.tied == (d.margin_ppm == 0),
            diag_of(self@, d),
    {
        proof {
            use_type_invariant(self);
        }
        let k = self.argmax();
        let mut second: usize = if k == 0 { 1 } else { 0 };
        let mut i: usize = 0;
        while i < self.mass.len()
            invariant
                0 <= i <= self.mass@.len(),
                is_first_max(self.mass@, k as int),
                second < self.mass@.len(),
                second != k,
                forall|j: int| 0 <= j < i && j != k ==> self.mass@[j] <= self.mass@[second as int],
            decreases self.mass@.len() - i,
        {
            if i != k && self.mass[i] > self.mass[second] {
                second = i;
            }
            i = i + 1;
        }
        let top = self.mass[k];
        let s = self.mass[second];
        Diagnostics { top1_ppm: top, margin_ppm: top - s, tied: top == s }
    }

    pub fn expected_level_microunits(&self) -> (r: u64)
        ensures
            r == level_sum(self@),
    {
        proof {
            use_type_invariant(self);
        }
        let mut r: u64 = 0;
        let mut i: usize = 0;
        while i < self.mass.len()
            invariant
                i <= self.mass@.len() <= 7,
                forall|k: int| 0 <= k < self.mass@.len() ==> self.mass@[k] <= PPM,
                r == level_sum(self.mass@.subrange(0, i as int)),
            decreases self.mass@.len() - i,
        {
            proof {
                let p = self.mass@.subrange(0, i as int);
                lemma_level_sum_bound(p);
                lemma_mass_sum_bound(p);
                assert(self.mass@.subrange(0, i + 1).drop_last() =~= p);
            }
            assert(i as u64 * self.mass[i as int] as u64 <= 6 * PPM) by (nonlinear_arith)
                requires
                    i < 7,
                    self.mass[i as int] <= PPM,
            ;
            r = r + i as u64 * self.mass[i] as u64;
            i = i + 1;
        }
        assert(self.mass@.subrange(0, i as int) =~= self.mass@);
        r
    }

    /// The expected level over `len - 1`, rounded half up, in parts per million.
    pub fn mean_ppm(&self) -> (r: u32)
        ensures
            r == (level_sum(self@) + (self@.len() - 1) / 2) / (self@.len() - 1),
    {
        proof {
            use_type_invariant(self);
            lemma_level_sum_bound(self@);
        }
        let n = self.expected_level_microunits();
        let d = (self.mass.len() - 1) as u64;
        let q = (n + d / 2) / d;
        assert(q <= n + d / 2) by (nonlinear_arith)
            requires
                d >= 1,
                q as int == (n as int + d as int / 2) / d as int,
                n >= 0,
        ;
        q as u32
    }

    /// Mass at or above bin `from`; `Invalid` past the last bin.
    pub fn tail(&self, from: usize) -> (r: Result<u32, Error>)
        ensures
            r is Ok <==> from < self@.len(),
            r matches Ok(v) ==> v == mass_sum(self@.subrange(from as int, self@.len() as int)),
            r matches Err(e) ==> e matches Error::Invalid(m) && m@ == "tail bin"@,
    {
        proof {
            use_type_invariant(self);
        }
        if from >= self.mass.len() {
            return Err(Error::Invalid(String::from_str("tail bin")));
        }
        Ok(sum_range(&self.mass, from, self.mass.len()))
    }

    /// Mass at or below bin `through`; `Invalid` past the last bin.
    pub fn cdf(&self, through: usize) -> (r: Result<u32, Error>)
        ensures
            r is Ok <==> through < self@.len(),
            r matches Ok(v) ==> v == mass_sum(self@.subrange(0, through + 1)),
            r matches Err(e) ==> e matches Error::Invalid(m) && m@ == "cdf bin"@,
    {
        proof {
            use_type_invariant(self);
        }
        if through >= self.mass.len() {
            return Err(Error::Invalid(String::from_str("cdf bin")));
        }
        Ok(sum_range(&self.mass, 0, through + 1))
    }
}


/// `ids` are the option ids of `opts`, in order.
pub open spec fn ids_match(ids: Seq<String>, opts: Seq<OptionDef>) -> bool {
    &&& ids.len() == opts.len()
    &&& forall|i: int| 0 <= i < ids.len() ==> ids[i]@ == opts[i].id@
}

/// `v` is the typed value of mass `m` under `schema`: every redundant field is
/// the one the mass determines.
pub open spec fn is_value_of(schema: Schema, m: Seq<u32>, v: DecisionValue) -> bool {
    match schema.primitive {
        Primitive::Choice => match v {
            DecisionValue::Choice { option_ids, mass_ppm, selected_id } => {
                &&& ids_match(option_ids@, schema.options@)
                &&& mass_ppm@ == m
                &&& exists|k: int| is_first_max(m, k) && selected_id@ == schema.options@[k].id@
            },
            _ => false,
        },
        Primitive::Noul => match v {
            DecisionValue::Noul { false_ppm, true_ppm } => m.len() == 2 && false_ppm == m[0]
                && true_ppm == m[1],
            _ => false,
        },
        Primitive::Score => match v {
            DecisionValue::Score { bin_ids, mass_ppm, expected_level_microunits, mean_ppm } => {
                &&& ids_match(bin_ids@, schema.options@)
                &&& mass_ppm@ == m
                &&& expected_level_microunits == level_sum(m)
                &&& mean_ppm == (level_sum(m) + (m.len() - 1) / 2) / (m.len() - 1)
            },
            _ => false,
        },
    }
}

/// The shape check `value` applies before deriving anything.
pub open spec fn value_shape_ok(schema: Schema, n: int) -> bool {
    schema.primitive.spec_count_valid(n) && schema.options@.len() == n
}

fn option_ids(opts: &Vec<OptionDef>) -> (ids: Vec<String>)
    ensures
        ids_match(ids@, opts@),
{
    let mut ids: Vec<String> = Vec::new();
    let mut i: usize = 0;
    while i < opts.len()
        invariant
            i <= opts@.len(),
            ids@.len() == i,
            forall|j: int| 0 <= j < i ==> ids@[j]@ == opts@[j].id@,
        decreases opts@.len() - i,
    {
        ids.push(opts[i].id.clone());
        i = i + 1;
    }
    ids
}

/// The typed value of a distribution under a schema whose primitive accepts
/// its number of bins and whose options match it one to one.
pub fn value(schema: &Schema, d: &Distribution) -> (r: Result<DecisionValue, Error>)
    ensures
        r is Ok <==> value_shape_ok(*schema, d@.len() as int),
        r matches Ok(v) ==> is_value_of(*schema, d@, v),
        r matches Err(e) ==> e == Error::BindingMismatch,
{
    let m = d.as_slice();
    if !schema.primitive.count_valid(m.len()) || schema.options.len() != m.len() {
        return Err(Error::BindingMismatch);
    }
    let ids = option_ids(&schema.options);
    match schema.primitive {
        Primitive::Choice => {
            let k = d.argmax();
            let selected_id = schema.options[k].id.clone();
            Ok(DecisionValue::Choice { option_ids: ids, mass_ppm: vstd::slice::slice_to_vec(m), selected_id })
        },
        Primitive::Noul => Ok(DecisionValue::Noul { false_ppm: m[0], true_ppm: m[1] }),
        Primitive::Score => Ok(
            DecisionValue::Score {
                bin_ids: ids,
                mass_ppm: vstd::slice::slice_to_vec(m),
                expected_level_microunits: d.expected_level_microunits(),
                mean_ppm: d.mean_ppm(),
            },
        ),
    }
}

/// The two values carry the same content.
pub open spec fn same_value(a: DecisionValue, b: DecisionValue) -> bool {
    match (a, b) {
        (
            DecisionValue::Choice { option_ids: i1, mass_ppm: m1, selected_id: s1 },
            DecisionValue::Choice { option_ids: i2, mass_ppm: m2, selected_id: s2 },
        ) => i1@.len() == i2@.len() && (forall|j: int| 0 <= j < i1@.len() ==> i1@[j]@ == i2@[j]@)
            && m1@ == m2@ && s1@ == s2@,
        (
            DecisionValue::Noul { false_ppm: f1, true_ppm: t1 },
            DecisionValue::Noul { false_ppm: f2, true_ppm: t2 },
        ) => f1 == f2 && t1 == t2,
        (
            DecisionValue::Score {
                bin_ids: i1,
                mass_ppm: m1,
                expected_level_microunits: e1,
                mean_ppm: p1,
            },
            DecisionValue::Score {
                bin_ids: i2,
                mass_ppm: m2,
                expected_level_microunits: e2,
                mean_ppm: p2,
            },
        ) => i1@.len() == i2@.len() && (forall|j: int| 0 <= j < i1@.len() ==> i1@[j]@ == i2@[j]@)
            && m1@ == m2@ && e1 == e2 && p1 == p2,
        _ => false,
    }
}

fn copy_strings(v: &Vec<String>) -> (c: Vec<String>)
    ensures
        c@.len() == v@.len(),
        forall|j: int| 0 <= j < v@.len() ==> #[trigger] c@[j]@ == v@[j]@,
{
    let mut c: Vec<String> = Vec::new();
    let mut i: usize = 0;
    while i < v.len()
        invariant
            i <= v@.len(),
            c@.len() == i,
            forall|j: int| 0 <= j < i ==> #[trigger] c@[j]@ == v@[j]@,
        decreases v@.len() - i,
    {
        c.push(v[i].clone());
        i = i + 1;
    }
    c
}

fn copy_u32s(v: &Vec<u32>) -> (c: Vec<u32>)
    ensures
        c@ == v@,
{
    let mut c: Vec<u32> = Vec::new();
    let mut i: usize = 0;
    while i < v.len()
        invariant
            i <= v@.len(),
            c@ == v@.subrange(0, i as int),
        decreases v@.len() - i,
    {
        c.push(v[i]);
        assert(v@.subrange(0, i + 1) =~= v@.subrange(0, i as int).push(v@[i as int]));
        i = i + 1;
    }
    assert(v@.subrange(0, v@.len() as int) =~= v@);
    c
}

/// A copy of a value with the same content.
pub fn copy_value(v: &DecisionValue) -> (c: DecisionValue)
    ensures
        same_value(c, *v),
{
    match v {
        DecisionValue::Choice { option_ids, mass_ppm, selected_id } => DecisionValue::Choice {
            option_ids: copy_strings(option_ids),
            mass_ppm: copy_u32s(mass_ppm),
            selected_id: selected_id.clone(),
        },
        DecisionValue::Noul { false_ppm, true_ppm } => DecisionValue::Noul { false_ppm: *false_ppm, true_ppm: *true_ppm },
        DecisionValue::Score { bin_ids, mass_ppm, expected_level_microunits, mean_ppm } => DecisionValue::Score {
            bin_ids: copy_strings(bin_ids),
            mass_ppm: copy_u32s(mass_ppm),
            expected_level_microunits: *expected_level_microunits,
            mean_ppm: *mean_ppm,
        },
    }
}

pub(crate) fn strings_eq(a: &Vec<String>, b: &Vec<String>) -> (r: bool)
    ensures
        r == (a@.len() == b@.len() && forall|j: int| 0 <= j < a@.len() ==> a@[j]@ == b@[j]@),
{
    if a.len() != b.len() {
        return false;
    }
    let mut i: usize = 0;
    while i < a.len()
        invariant
            i <= a@.len(),
            a@.len() == b@.len(),
            forall|j: int| 0 <= j < i ==> a@[j]@ == b@[j]@,
        decreases a@.len() - i,
    {
        if a[i] != b[i] {
            return false;
        }
        i = i + 1;
    }
    true
}

pub(crate) fn u32s_eq(a: &Vec<u32>, b: &Vec<u32>) -> (r: bool)
    ensures
        r == (a@ == b@),
{
    if a.len() != b.len() {
        return false;
    }
    let mut i: usize = 0;
    while i < a.len()
        invariant
            i <= a@.len(),
            a@.len() == b@.len(),
            forall|j: int| 0 <= j < i ==> a@[j] == b@[j],
        decreases a@.len() - i,
    {
        if a[i] != b[i] {
            return false;
        }
        i = i + 1;
    }
    assert(a@ =~= b@);
    true
}

/// Content comparison of two typed values.
pub fn value_eq(a: &DecisionValue, b: &DecisionValue) -> (r: bool)
    ensures
        r == same_value(*a, *b),
{
    match (a, b) {
        (
            DecisionValue::Choice { option_ids: i1, mass_ppm: m1, selected_id: s1 },
            DecisionValue::Choice { option_ids: i2, mass_ppm: m2, selected_id: s2 },
        ) => strings_eq(i1, i2) && u32s_eq(m1, m2) && *s1 == *s2,
        (
            DecisionValue::Noul { false_ppm: f1, true_ppm: t1 },
            DecisionValue::Noul { false_ppm: f2, true_ppm: t2 },
        ) => *f1 == *f2 && *t1 == *t2,
        (
            DecisionValue::Score {
                bin_ids: i1,
                mass_ppm: m1,
                expected_level_microunits: e1,
                mean_ppm: p1,
            },
            DecisionValue::Score {
                bin_ids: i2,
                mass_ppm: m2,
                expected_level_microunits: e2,
                mean_ppm: p2,
            },
        ) => strings_eq(i1, i2) && u32s_eq(m1, m2) && *e1 == *e2 && *p1 == *p2,
        _ => false,
    }
}

pub proof fn lemma_first_max_unique(m: Seq<u32>, a: int, b: int)
    requires
        is_first_max(m, a),
        is_first_max(m, b),
    ensures
        a == b,
{
    if a < b {
        assert(m[a] < m[b]);
    } else if b < a {
        assert(m[b] < m[a]);
    }
}

/// Two values of the same mass under the same schema carry the same content,
/// and a value is one of them exactly when it carries that content.
pub proof fn lemma_value_determined(schema: Schema, m: Seq<u32>, c: DecisionValue, v: DecisionValue)
    requires
        is_value_of(schema, m, c),
    ensures
        is_value_of(schema, m, v) <==> same_value(c, v),
{
    match schema.primitive {
        Primitive::Choice => {
            if is_value_of(schema, m, v) {
                let kc = choose|k: int| is_first_max(m, k) && c->selected_id@ == schema.options@[k].id@;
                let kv = choose|k: int| is_first_max(m, k) && v->selected_id@ == schema.options@[k].id@;
                lemma_first_max_unique(m, kc, kv);
            }
            if same_value(c, v) {
                let kc = choose|k: int| is_first_max(m, k) && c->selected_id@ == schema.options@[k].id@;
                assert(is_first_max(m, kc) && v->selected_id@ == schema.options@[kc].id@);
            }
        },
        _ => {},
    }
}

/// Recomputes every redundant field of an untrusted value: `Numeric` when its
/// mass is not a distribution, `BindingMismatch` when any derived field or the
/// shape disagrees with the schema.
pub fn validate_value(schema: &Schema, v: &DecisionValue) -> (r: Result<Distribution, Error>)
    ensures
        r is Ok <==> (valid_mass(v.spec_masses()) && value_shape_ok(
            *schema,
            v.spec_masses().len() as int,
        ) && is_value_of(*schema, v.spec_masses(), *v)),
        r matches Ok(d) ==> d@ == v.spec_masses(),
        r matches Err(e) ==> (if valid_mass(v.spec_masses()) {
            e == Error::BindingMismatch
        } else {
            e == Error::Numeric
        }),
{
    let d = Distribution::new(v.masses())?;
    let c = value(schema, &d)?;
    proof {
        lemma_value_determined(*schema, d@, c, *v);
    }
    if !value_eq(&c, v) {
        return Err(Error::BindingMismatch);
    }
    Ok(d)
}

/// A value read from a distribution validates back to that distribution: its
/// masses are the distribution's, so `validate_value` accepts it and returns them.
pub proof fn law_value_round_trip(schema: Schema, m: Seq<u32>, v: DecisionValue)
    requires
        valid_mass(m),
        value_shape_ok(schema, m.len() as int),
        is_value_of(schema, m, v),
    ensures
        v.spec_masses() == m,
        valid_mass(v.spec_masses()) && value_shape_ok(schema, v.spec_masses().len() as int)
            && is_value_of(schema, v.spec_masses(), v),
{
    match v {
        DecisionValue::Noul { false_ppm, true_ppm } => {
            assert(v.spec_masses() =~= m);
        },
        _ => {},
    }
}

} // verus!
