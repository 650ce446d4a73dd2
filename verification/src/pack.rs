//! Size rules of the INT8 model pack: each matrix is stored as int8 with one
//! f32 scale per row, every other tensor as little-endian f32.
use vstd::prelude::*;
use vstd::string::{StrSliceExecFns, StringExecFns, StringSliceAdditionalSpecFns};
use crate::config::{shape_ok, tensor_list, tensor_views, VerdictShape};
use crate::prompt::{is_matrix_weight, spec_matrix_weight};
use crate::text::str_eq;
use crate::types::{digest_eq, hash, sha256, Digest, Error};

verus! {

pub const FORMAT: &'static str = "ic-verdict-int8-pack-v1";

#[derive(Debug, Clone, Copy, PartialEq, Eq, Structural)]
pub enum Encoding {
    I8RowSymmetric,
    F32Le,
}

/// One tensor of a pack manifest.
#[derive(Debug, Clone, PartialEq, Eq)]
pub struct TensorEntry {
    pub name: String,
    pub shape: Vec<usize>,
    pub encoding: Encoding,
    pub offset: u64,
    pub length: u64,
    pub sha256: Digest,
}

/// The product of the dimensions.
pub open spec fn product(shape: Seq<usize>) -> int
    decreases shape.len(),
{
    if shape.len() == 0 {
        1
    } else {
        product(shape.drop_last()) * shape.last()
    }
}

/// Every running product fits in 64 bits (the element count is computed left to
/// right and stops at the first overflow).
pub open spec fn product_fits(shape: Seq<usize>) -> bool {
    forall|k: int| 0 <= k <= shape.len() ==> #[trigger] product(shape.take(k)) <= u64::MAX
}

/// Element count; `TooLong` when a running product overflows.
pub fn numel(shape: &[usize]) -> (r: Result<u64, Error>)
    ensures
        r is Ok <==> product_fits(shape@),
        r matches Ok(n) ==> n == product(shape@),
        r matches Err(e) ==> e == Error::TooLong,
{
    let mut acc: u64 = 1;
    let mut i: usize = 0;
    assert(shape@.take(0) =~= Seq::<usize>::empty());
    while i < shape.len()
        invariant
            i <= shape@.len(),
            acc == product(shape@.take(i as int)),
            forall|k: int| 0 <= k <= i ==> #[trigger] product(shape@.take(k)) <= u64::MAX,
        decreases shape@.len() - i,
    {
        assert(shape@.take(i + 1).drop_last() =~= shape@.take(i as int));
        match acc.checked_mul(shape[i] as u64) {
            Some(v) => {
                acc = v;
            },
            None => {
                assert(product(shape@.take(i + 1)) > u64::MAX);
                return Err(Error::TooLong);
            },
        }
        i = i + 1;
    }
    assert(shape@.take(shape@.len() as int) =~= shape@);
    Ok(acc)
}

pub fn expected_encoding(name: &str) -> (e: Encoding)
    ensures
        e == if spec_matrix_weight(name.spec_bytes()) {
            Encoding::I8RowSymmetric
        } else {
            Encoding::F32Le
        },
{
    if is_matrix_weight(name) {
        Encoding::I8RowSymmetric
    } else {
        Encoding::F32Le
    }
}

/// The stored length of a tensor: `rows·cols + 4·rows` for an int8 matrix,
/// `4·n` for an f32 tensor; `Invalid` for a matrix that is not two-dimensional,
/// `TooLong` on overflow.
pub fn expected_length(name: &str, shape: &[usize]) -> (r: Result<u64, Error>)
    ensures
        r matches Ok(v) ==> product_fits(shape@) && if spec_matrix_weight(name.spec_bytes()) {
            shape@.len() == 2 && v == product(shape@) + 4 * shape@[0]
        } else {
            v == 4 * product(shape@)
        },
        r is Ok <==> product_fits(shape@) && if spec_matrix_weight(name.spec_bytes()) {
            shape@.len() == 2 && product(shape@) + 4 * shape@[0] <= u64::MAX
        } else {
            4 * product(shape@) <= u64::MAX
        },
        r matches Err(e) ==> if !product_fits(shape@) {
            e == Error::TooLong
        } else if spec_matrix_weight(name.spec_bytes()) && shape@.len() != 2 {
            e matches Error::Invalid(m) && m@ == "matrix shape"@
        } else {
            e == Error::TooLong
        },
{
    let n = numel(shape)?;
    match expected_encoding(name) {
        Encoding::I8RowSymmetric => {
            if shape.len() != 2 {
                return Err(Error::Invalid(String::from_str("matrix shape")));
            }
            let rows = shape[0] as u64;
            match rows.checked_mul(4) {
                Some(extra) => match n.checked_add(extra) {
                    Some(v) => Ok(v),
                    None => Err(Error::TooLong),
                },
                None => Err(Error::TooLong),
            }
        },
        Encoding::F32Le => match n.checked_mul(4) {
            Some(v) => Ok(v),
            None => Err(Error::TooLong),
        },
    }
}


/// Largest manifest accepted.
pub const MAX_MANIFEST_BYTES: usize = 2097152;
/// Largest pack accepted.
pub const MAX_PACK_BYTES: u64 = 2147483648;
/// Largest single tensor accepted.
pub const MAX_TENSOR_BYTES: u64 = 268435456;

/// A tensor the model configuration calls for.
#[derive(Debug, Clone, PartialEq, Eq)]
pub struct ExpectedTensor {
    pub name: String,
    pub shape: Vec<usize>,
}

/// A pack manifest: provenance, total size and the tensors in pack order.
#[derive(Debug, Clone, PartialEq, Eq)]
pub struct Manifest {
    pub format: String,
    pub source_repo: String,
    pub source_revision: String,
    pub test_only: bool,
    pub tokenizer_sha256: Digest,
    pub total_bytes: u64,
    pub tensors: Vec<TensorEntry>,
}

pub open spec fn str_bytes(s: String) -> Seq<u8> {
    vstd::utf8::encode_utf8(s@)
}

/// The stored length of a tensor by its name and shape.
pub open spec fn length_of(name: Seq<u8>, shape: Seq<usize>) -> int {
    if spec_matrix_weight(name) { product(shape) + 4 * shape[0] } else { 4 * product(shape) }
}

/// `expected_length` succeeds.
pub open spec fn length_ok(name: Seq<u8>, shape: Seq<usize>) -> bool {
    &&& product_fits(shape)
    &&& spec_matrix_weight(name) ==> shape.len() == 2
    &&& length_of(name, shape) <= u64::MAX
}

/// The error `expected_length` gives.
pub open spec fn length_error(name: Seq<u8>, shape: Seq<usize>, e: Error) -> bool {
    if !product_fits(shape) {
        e == Error::TooLong
    } else if spec_matrix_weight(name) && shape.len() != 2 {
        e matches Error::Invalid(m) && m@ == "matrix shape"@
    } else {
        e == Error::TooLong
    }
}

/// The shape the configuration gives a tensor name, if any.
pub open spec fn expected_shape(exp: Seq<ExpectedTensor>, name: Seq<u8>) -> Option<Seq<usize>>
    decreases exp.len(),
{
    if exp.len() == 0 {
        None
    } else if str_bytes(exp.last().name) == name {
        Some(exp.last().shape@)
    } else {
        expected_shape(exp.drop_last(), name)
    }
}

pub open spec fn encoding_of(name: Seq<u8>) -> Encoding {
    if spec_matrix_weight(name) { Encoding::I8RowSymmetric } else { Encoding::F32Le }
}

/// Entry `i` is a new name with the configured shape at offset `pos`, in its
/// encoding, with its exact length, within the tensor limit, and the running
/// offset does not overflow.
pub open spec fn entry_ok(ts: Seq<TensorEntry>, exp: Seq<ExpectedTensor>, i: int, pos: int) -> bool {
    let e = ts[i];
    let name = str_bytes(e.name);
    &&& forall|j: int| 0 <= j < i ==> str_bytes(#[trigger] ts[j].name) != name
    &&& expected_shape(exp, name) == Some(e.shape@)
    &&& e.offset == pos
    &&& e.encoding == encoding_of(name)
    &&& length_ok(name, e.shape@)
    &&& e.length == length_of(name, e.shape@) && length_of(name, e.shape@) <= MAX_TENSOR_BYTES
    &&& pos + length_of(name, e.shape@) <= u64::MAX
}

/// The error of entry `i`, in the order it is checked.
pub open spec fn entry_error(ts: Seq<TensorEntry>, exp: Seq<ExpectedTensor>, i: int, pos: int, e: Error) -> bool {
    let t = ts[i];
    let name = str_bytes(t.name);
    if (exists|j: int| 0 <= j < i && str_bytes(#[trigger] ts[j].name) == name) || expected_shape(exp, name) != Some(t.shape@)
        || t.offset != pos {
        e matches Error::Invalid(m) && m@ == "tensor name/shape/offset"@
    } else if t.encoding != encoding_of(name) {
        e matches Error::Invalid(m) && m@ == "wrong encoding: "@ + t.name@
    } else if !length_ok(name, t.shape@) {
        length_error(name, t.shape@, e)
    } else {
        e == Error::TooLong
    }
}

/// The offset after the first `k` entries, when all of them pass.
pub open spec fn scan_pos(ts: Seq<TensorEntry>, exp: Seq<ExpectedTensor>, k: nat) -> Option<int>
    decreases k,
{
    if k == 0 {
        Some(0)
    } else {
        match scan_pos(ts, exp, (k - 1) as nat) {
            None => None,
            Some(pos) => if entry_ok(ts, exp, k - 1, pos) {
                Some(pos + length_of(str_bytes(ts[k - 1].name), ts[k - 1].shape@))
            } else {
                None
            },
        }
    }
}

pub open spec fn is_hex(b: u8) -> bool {
    (48 <= b <= 57) || (65 <= b <= 70) || (97 <= b <= 102)
}

/// The format, a named source, and a total size within the pack limit.
pub open spec fn meta_ok(m: Manifest) -> bool {
    &&& m.format@ == FORMAT@
    &&& str_bytes(m.source_repo).len() > 0 && str_bytes(m.source_revision).len() > 0
    &&& 0 < m.total_bytes <= MAX_PACK_BYTES
}

/// A real pack names an immutable commit: 40 hexadecimal digits.
pub open spec fn revision_ok(m: Manifest) -> bool {
    m.test_only || (str_bytes(m.source_revision).len() == 40 && forall|i: int|
        0 <= i < 40 ==> is_hex(#[trigger] str_bytes(m.source_revision)[i]))
}

pub open spec fn manifest_ok(m: Manifest, exp: Seq<ExpectedTensor>) -> bool {
    &&& meta_ok(m) && revision_ok(m)
    &&& exp.len() == m.tensors@.len()
    &&& scan_pos(m.tensors@, exp, m.tensors@.len()) == Some(m.total_bytes as int)
}

/// The first failing check decides the error.
pub open spec fn manifest_error(m: Manifest, exp: Seq<ExpectedTensor>, e: Error) -> bool {
    let ts = m.tensors@;
    if !meta_ok(m) {
        e matches Error::Invalid(s) && s@ == "pack metadata"@
    } else if !revision_ok(m) {
        e matches Error::Invalid(s) && s@ == "a real pack requires an immutable source commit"@
    } else if exp.len() != ts.len() {
        e matches Error::Invalid(s) && s@ == "tensor count"@
    } else if scan_pos(ts, exp, ts.len()) is None {
        forall|i: int| #![trigger scan_pos(ts, exp, i as nat)] 0 <= i < ts.len() && scan_pos(ts, exp, i as nat) is Some
            && scan_pos(ts, exp, (i + 1) as nat) is None ==> entry_error(ts, exp, i, scan_pos(ts, exp, i as nat)->Some_0, e)
    } else {
        e matches Error::Invalid(s) && s@ == "pack length"@
    }
}

proof fn lemma_scan_none_stays(ts: Seq<TensorEntry>, exp: Seq<ExpectedTensor>, i: nat, k: nat)
    requires
        i <= k,
        scan_pos(ts, exp, i) is None,
    ensures
        scan_pos(ts, exp, k) is None,
    decreases k - i,
{
    if i < k {
        lemma_scan_none_stays(ts, exp, i, (k - 1) as nat);
    }
}

fn shapes_eq(a: &Vec<usize>, b: &Vec<usize>) -> (r: bool)
    ensures
        r == (a@ == b@),
{
    if a.len() != b.len() {
        return false;
    }
    let mut i: usize = 0;
    while i < a.len()
        invariant
            i <= a@.len(),
            a@.len() == b@.len(),
            forall|j: int| 0 <= j < i ==> a@[j] == b@[j],
        decreases a@.len() - i,
    {
        if a[i] != b[i] {
            return false;
        }
        i = i + 1;
    }
    assert(a@ =~= b@);
    true
}

fn lookup_shape(exp: &[ExpectedTensor], name: &str) -> (r: Option<usize>)
    ensures
        r matches Some(j) ==> j < exp@.len() && expected_shape(exp@, name.spec_bytes()) == Some(exp@[j as int].shape@),
        r is None ==> expected_shape(exp@, name.spec_bytes()) is None,
{
    let mut k: usize = exp.len();
    assert(exp@.take(exp@.len() as int) =~= exp@);
    while k > 0
        invariant
            k <= exp@.len(),
            expected_shape(exp@, name.spec_bytes()) == expected_shape(exp@.take(k as int), name.spec_bytes()),
        decreases k,
    {
        proof {
            let t = exp@.take(k as int);
            assert(t.drop_last() =~= exp@.take(k - 1));
            assert(t.last() == exp@[k - 1]);
        }
        if crate::types::bytes_eq(exp[k - 1].name.as_str().as_bytes(), name.as_bytes()) {
            return Some(k - 1);
        }
        k = k - 1;
    }
    None
}

fn is_hex_byte(b: u8) -> (r: bool)
    ensures
        r == is_hex(b),
{
    (48 <= b && b <= 57) || (65 <= b && b <= 70) || (97 <= b && b <= 102)
}

/// Checks entry `i` at offset `pos`; its length when it passes.
fn check_entry(ts: &Vec<TensorEntry>, expected: &[ExpectedTensor], i: usize, pos: u64) -> (r: Result<u64, Error>)
    requires
        i < ts@.len(),
    ensures
        r is Ok <==> entry_ok(ts@, expected@, i as int, pos as int),
        r matches Ok(len) ==> len == length_of(str_bytes(ts@[i as int].name), ts@[i as int].shape@),
        r matches Err(e) ==> entry_error(ts@, expected@, i as int, pos as int, e),
{
    let e = &ts[i];
    let name = e.name.as_str();
    let ghost nb = str_bytes(e.name);
    assert(name.spec_bytes() == nb);
    let mut dup = false;
    let mut j: usize = 0;
    while j < i
        invariant
            i < ts@.len(),
            j <= i,
            nb == str_bytes(ts@[i as int].name),
            name.spec_bytes() == nb,
            dup == exists|q: int| 0 <= q < j && str_bytes(#[trigger] ts@[q].name) == nb,
        decreases i - j,
    {
        let other = ts[j].name.as_str().as_bytes();
        let same = crate::types::bytes_eq(other, name.as_bytes());
        proof {
            assert(other@ == str_bytes(ts@[j as int].name));
            if same {
                assert(str_bytes(ts@[j as int].name) == nb);
            } else {
                assert(str_bytes(ts@[j as int].name) != nb);
                assert forall|q: int| 0 <= q < j + 1 && str_bytes(#[trigger] ts@[q].name) == nb implies q < j by {}
            }
        }
        if same {
            dup = true;
        }
        j = j + 1;
    }
    let shape_ok = match lookup_shape(expected, name) {
        Some(k) => shapes_eq(&expected[k].shape, &e.shape),
        None => false,
    };
    assert(shape_ok == (expected_shape(expected@, nb) == Some(e.shape@)));
    if dup || !shape_ok || e.offset != pos {
        return Err(Error::Invalid(String::from_str("tensor name/shape/offset")));
    }
    let want = expected_encoding(name);
    if e.encoding != want {
        return Err(Error::Invalid(String::from_str("wrong encoding: ").concat(name)));
    }
    let len = expected_length(name, e.shape.as_slice())?;
    if e.length != len || len > MAX_TENSOR_BYTES || pos > u64::MAX - len {
        return Err(Error::TooLong);
    }
    Ok(len)
}

impl Manifest {
    /// Provenance: the format, a named source, a total size within the pack
    /// limit, and a commit id for a real pack.
    fn check_header(&self) -> (r: Result<(), Error>)
        ensures
            r is Ok <==> meta_ok(*self) && revision_ok(*self),
            r matches Err(e) ==> manifest_error(*self, Seq::empty(), e),
    {
        let repo = self.source_repo.as_str().as_bytes();
        let rev = self.source_revision.as_str().as_bytes();
        assert(rev@ == str_bytes(self.source_revision));
        assert(repo@ == str_bytes(self.source_repo));
        if !str_eq(self.format.as_str(), FORMAT) || repo.len() == 0 || rev.len() == 0 || self.total_bytes == 0
            || self.total_bytes > MAX_PACK_BYTES {
            return Err(Error::Invalid(String::from_str("pack metadata")));
        }
        if !self.test_only {
            let mut ok = rev.len() == 40;
            let mut i: usize = 0;
            while ok && i < rev.len()
                invariant
                    i <= rev@.len(),
                    !self.test_only,
                    rev@ == str_bytes(self.source_revision),
                    ok ==> rev@.len() == 40 && forall|j: int| 0 <= j < i ==> is_hex(#[trigger] rev@[j]),
                    !ok ==> !revision_ok(*self),
                decreases rev@.len() - i,
            {
                if !is_hex_byte(rev[i]) {
                    assert(!is_hex(str_bytes(self.source_revision)[i as int]));
                    ok = false;
                }
                i = i + 1;
            }
            if !ok {
                return Err(Error::Invalid(String::from_str("a real pack requires an immutable source commit")));
            }
        }
        Ok(())
    }

    /// Checks the manifest against the tensors the given architecture calls
    /// for: provenance first, then the architecture (its own error when it is
    /// unsupported), then the tensors as `validate` checks them against
    /// `expected_tensors`.
    pub fn validate_for(&self, shape: &VerdictShape) -> (r: Result<(), Error>)
        ensures
            !(meta_ok(*self) && revision_ok(*self)) ==> (r matches Err(e) && manifest_error(*self, Seq::empty(), e)),
            meta_ok(*self) && revision_ok(*self) && !shape_ok(*shape) ==> (r matches Err(e) && e matches Error::Invalid(m)
                && m@ == "unsupported verdict config"@),
            meta_ok(*self) && revision_ok(*self) && shape_ok(*shape) ==> exists|exp: Seq<ExpectedTensor>|
                tensor_views(exp) == tensor_list(*shape) && (r is Ok <==> manifest_ok(*self, exp)) && (r matches Err(e)
                    ==> manifest_error(*self, exp, e)),
    {
        self.check_header()?;
        let expected = shape.expected_tensors()?;
        let r = self.validate(expected.as_slice());
        assert(tensor_views(expected@) == tensor_list(*shape));
        r
    }

    /// Checks the manifest against the tensors the configuration calls for:
    /// provenance, a commit id for a real pack, the tensor set and order, each
    /// tensor's encoding and exact length, and the total size.
    pub fn validate(&self, expected: &[ExpectedTensor]) -> (r: Result<(), Error>)
        ensures
            r is Ok <==> manifest_ok(*self, expected@),
            r matches Err(e) ==> manifest_error(*self, expected@, e),
    {
        self.check_header()?;
        if expected.len() != self.tensors.len() {
            return Err(Error::Invalid(String::from_str("tensor count")));
        }
        let ts = &self.tensors;
        let ghost exp = expected@;
        let mut pos: u64 = 0;
        let mut i: usize = 0;
        while i < ts.len()
            invariant
                i <= ts@.len(),
                ts@ == self.tensors@,
                exp == expected@,
                meta_ok(*self) && revision_ok(*self) && exp.len() == ts@.len(),
                scan_pos(ts@, exp, i as nat) == Some(pos as int),
            decreases ts@.len() - i,
        {
            match check_entry(ts, expected, i, pos) {
                Ok(len) => {
                    pos = pos + len;
                },
                Err(err) => {
                    proof {
                        assert(scan_pos(ts@, exp, (i + 1) as nat) is None);
                        lemma_scan_none_stays(ts@, exp, (i + 1) as nat, ts@.len() as nat);
                        lemma_first_failure(ts@, exp, i as nat);
                    }
                    return Err(err);
                },
            }
            i = i + 1;
        }
        if pos != self.total_bytes {
            return Err(Error::Invalid(String::from_str("pack length")));
        }
        Ok(())
    }
}

/// Where the scan first fails is the only index with a passing prefix and a failing next step.
proof fn lemma_first_failure(ts: Seq<TensorEntry>, exp: Seq<ExpectedTensor>, i: nat)
    requires
        i < ts.len(),
        scan_pos(ts, exp, i) is Some,
        scan_pos(ts, exp, i + 1) is None,
    ensures
        forall|k: int| #![trigger scan_pos(ts, exp, k as nat)] 0 <= k < ts.len() && scan_pos(ts, exp, k as nat) is Some
            && scan_pos(ts, exp, (k + 1) as nat) is None ==> k == i,
{
    assert forall|k: int| #![trigger scan_pos(ts, exp, k as nat)] 0 <= k < ts.len() && scan_pos(ts, exp, k as nat) is Some
        && scan_pos(ts, exp, (k + 1) as nat) is None implies k == i by {
        if k < i {
            lemma_scan_none_stays(ts, exp, (k + 1) as nat, i);
        } else if k > i {
            lemma_scan_none_stays(ts, exp, i + 1, k as nat);
        }
    }
}


/// The int8 payload of a row-quantised matrix: its data holds no `i8::MIN`
/// (byte 0x80), which the symmetric scheme never produces.
pub open spec fn no_min_byte(b: Seq<u8>, n: int) -> bool {
    forall|k: int| 0 <= k < n ==> #[trigger] b[k] != 128
}

/// The checks a tensor's bytes pass before they are decoded, in order: the
/// declared length and digest, then for an int8 matrix a two-dimensional
/// shape, a data size that fits, and no `i8::MIN` in the data. The entry comes
/// from a validated manifest, so its length covers the int8 data. The f32
/// scales and values are checked by the decoder.
pub fn check_tensor_bytes(e: &TensorEntry, bytes: &[u8]) -> (r: Result<(), Error>)
    requires
        e.encoding is I8RowSymmetric && e.shape@.len() == 2 ==> e.shape@[0] * e.shape@[1] <= e.length,
    ensures
        bytes@.len() != e.length || sha256(bytes@) != e.sha256@ ==> (r matches Err(x) && x matches Error::Invalid(m)
            && m@ == "tensor integrity"@),
        bytes@.len() == e.length && sha256(bytes@) == e.sha256@ ==> match e.encoding {
            Encoding::F32Le => r is Ok,
            Encoding::I8RowSymmetric => if e.shape@.len() != 2 {
                r matches Err(x) && x matches Error::Invalid(m) && m@ == "quantised weight shape"@
            } else if e.shape@[0] * e.shape@[1] > usize::MAX {
                r == Err::<(), Error>(Error::TooLong)
            } else if !no_min_byte(bytes@, e.shape@[0] * e.shape@[1]) {
                r == Err::<(), Error>(Error::Numeric)
            } else {
                r is Ok
            },
        },
{
    if bytes.len() as u64 != e.length {
        return Err(Error::Invalid(String::from_str("tensor integrity")));
    }
    let d = hash(bytes);
    if !digest_eq(&d, &e.sha256) {
        return Err(Error::Invalid(String::from_str("tensor integrity")));
    }
    match e.encoding {
        Encoding::F32Le => Ok(()),
        Encoding::I8RowSymmetric => {
            if e.shape.len() != 2 {
                return Err(Error::Invalid(String::from_str("quantised weight shape")));
            }
            let rows = e.shape[0];
            let cols = e.shape[1];
            let n = match rows.checked_mul(cols) {
                Some(n) => n,
                None => {
                    return Err(Error::TooLong);
                },
            };
            let mut k: usize = 0;
            while k < n
                invariant
                    k <= n <= bytes@.len(),
                    bytes@.len() == e.length && sha256(bytes@) == e.sha256@,
                    e.encoding is I8RowSymmetric && e.shape@.len() == 2 && n == e.shape@[0] * e.shape@[1],
                    forall|q: int| 0 <= q < k ==> #[trigger] bytes@[q] != 128,
                decreases n - k,
            {
                if bytes[k] == 128 {
                    assert(!no_min_byte(bytes@, e.shape@[0] * e.shape@[1]));
                    return Err(Error::Numeric);
                }
                k = k + 1;
            }
            Ok(())
        },
    }
}


/// `s` with the prefix `p` removed, when it starts with `p`.
pub open spec fn strip(s: Seq<char>, p: Seq<char>) -> Option<Seq<char>> {
    if p.len() <= s.len() && s.subrange(0, p.len() as int) == p {
        Some(s.subrange(p.len() as int, s.len() as int))
    } else {
        None
    }
}

/// The position of the first `.`, or -1.
pub open spec fn first_dot(s: Seq<char>) -> int
    decreases s.len(),
{
    if s.len() == 0 {
        -1
    } else if s[0] == '.' {
        0
    } else {
        let d = first_dot(s.drop_first());
        if d < 0 { -1 } else { d + 1 }
    }
}

/// The canonical name of an encoder layer's parameter.
pub open spec fn layer_tail(t: Seq<char>) -> Option<Seq<char>> {
    if t == "attn.Wqkv.weight"@ {
        Some("qkv.weight"@)
    } else if t == "attn.Wo.weight"@ {
        Some("out.weight"@)
    } else if t == "attn_norm.weight"@ {
        Some("attn_norm.weight"@)
    } else if t == "mlp.Wi.weight"@ {
        Some("wi.weight"@)
    } else if t == "mlp.Wo.weight"@ {
        Some("wo.weight"@)
    } else if t == "mlp_norm.weight"@ {
        Some("mlp_norm.weight"@)
    } else {
        None
    }
}

/// `layers.{i}.{tail}` (split at its first two dots) as `encoder.{i}.{mapped tail}`.
pub open spec fn layer_name(rest: Seq<char>) -> Option<Seq<char>> {
    let d1 = first_dot(rest);
    if d1 < 0 || rest.subrange(0, d1) != "layers"@ {
        None
    } else {
        let after = rest.subrange(d1 + 1, rest.len() as int);
        let d2 = first_dot(after);
        if d2 < 0 {
            None
        } else {
            match layer_tail(after.subrange(d2 + 1, after.len() as int)) {
                Some(m) => Some("encoder."@ + after.subrange(0, d2) + "."@ + m),
                None => None,
            }
        }
    }
}

/// The pack name of a checkpoint tensor, or `None` for a tensor the pack does
/// not carry.
pub open spec fn canonical_name(name: Seq<char>) -> Option<Seq<char>> {
    if name == "model.logit_scale"@ {
        None
    } else if strip(name, "model.encoder_model."@) is Some {
        let rest = strip(name, "model.encoder_model."@)->Some_0;
        if rest == "embeddings.tok_embeddings.weight"@ {
            Some("embeddings.weight"@)
        } else if rest == "embeddings.norm.weight"@ || rest == "final_norm.weight"@ {
            Some(rest)
        } else {
            layer_name(rest)
        }
    } else if strip(name, "model."@) is Some && (strip(strip(name, "model."@)->Some_0, "text_projector."@) is Some || strip(
        strip(name, "model."@)->Some_0,
        "classes_projector."@,
    ) is Some) {
        Some(strip(name, "model."@)->Some_0)
    } else {
        None
    }
}

fn starts_with(s: &str, p: &str) -> (r: bool)
    ensures
        r == (strip(s@, p@) is Some),
{
    let sl = s.unicode_len();
    let pl = p.unicode_len();
    if pl > sl {
        return false;
    }
    let head = s.substring_char(0, pl);
    str_eq(head, p)
}

fn dot_at(s: &str) -> (r: Option<usize>)
    ensures
        r matches Some(k) ==> k == first_dot(s@) && k < s@.len(),
        r is None ==> first_dot(s@) < 0,
{
    let cs = crate::text::chars_of(s);
    let mut k: usize = 0;
    while k < cs.len()
        invariant
            cs@ == s@,
            k <= cs@.len(),
            forall|q: int| 0 <= q < k ==> cs@[q] != '.',
        decreases cs@.len() - k,
    {
        if cs[k] == '.' {
            proof {
                lemma_first_dot(s@, k as int);
            }
            return Some(k);
        }
        k = k + 1;
    }
    proof {
        lemma_no_dot(s@);
    }
    None
}

proof fn lemma_first_dot(s: Seq<char>, k: int)
    requires
        0 <= k < s.len(),
        s[k] == '.',
        forall|q: int| 0 <= q < k ==> s[q] != '.',
    ensures
        first_dot(s) == k,
    decreases s.len(),
{
    if k > 0 {
        assert forall|q: int| 0 <= q < k - 1 implies s.drop_first()[q] != '.' by {
            assert(s.drop_first()[q] == s[q + 1]);
        }
        lemma_first_dot(s.drop_first(), k - 1);
    }
}

proof fn lemma_no_dot(s: Seq<char>)
    requires
        forall|q: int| 0 <= q < s.len() ==> s[q] != '.',
    ensures
        first_dot(s) < 0,
    decreases s.len(),
{
    if s.len() > 0 {
        assert forall|q: int| 0 <= q < s.len() - 1 implies s.drop_first()[q] != '.' by {
            assert(s.drop_first()[q] == s[q + 1]);
        }
        lemma_no_dot(s.drop_first());
    }
}

fn layer_tail_of(t: &str) -> (r: Option<&'static str>)
    ensures
        r matches Some(m) ==> layer_tail(t@) == Some(m@),
        r is None ==> layer_tail(t@) is None,
{
    if str_eq(t, "attn.Wqkv.weight") {
        Some("qkv.weight")
    } else if str_eq(t, "attn.Wo.weight") {
        Some("out.weight")
    } else if str_eq(t, "attn_norm.weight") {
        Some("attn_norm.weight")
    } else if str_eq(t, "mlp.Wi.weight") {
        Some("wi.weight")
    } else if str_eq(t, "mlp.Wo.weight") {
        Some("wo.weight")
    } else if str_eq(t, "mlp_norm.weight") {
        Some("mlp_norm.weight")
    } else {
        None
    }
}

/// The pack name a checkpoint tensor is stored under: the encoder's tensors
/// lose their `model.encoder_model.` prefix (the token embedding becomes
/// `embeddings.weight`, layer `i`'s parameters `encoder.{i}.…`), the two
/// projectors lose `model.`, and the logit scale and anything else is dropped.
pub fn canonical(name: &str) -> (r: Option<String>)
    ensures
        match canonical_name(name@) {
            Some(c) => r matches Some(x) && x@ == c,
            None => r is None,
        },
{
    if str_eq(name, "model.logit_scale") {
        return None;
    }
    let len = name.unicode_len();
    if starts_with(name, "model.encoder_model.") {
        let pl = "model.encoder_model.".unicode_len();
        let rest = name.substring_char(pl, len);
        if str_eq(rest, "embeddings.tok_embeddings.weight") {
            return Some(String::from_str("embeddings.weight"));
        }
        if str_eq(rest, "embeddings.norm.weight") || str_eq(rest, "final_norm.weight") {
            return Some(String::from_str(rest));
        }
        let rl = rest.unicode_len();
        let d1 = match dot_at(rest) {
            Some(k) => k,
            None => {
                return None;
            },
        };
        if !str_eq(rest.substring_char(0, d1), "layers") {
            return None;
        }
        let after = rest.substring_char(d1 + 1, rl);
        let al = after.unicode_len();
        let d2 = match dot_at(after) {
            Some(k) => k,
            None => {
                return None;
            },
        };
        let index = after.substring_char(0, d2);
        let tail = after.substring_char(d2 + 1, al);
        return match layer_tail_of(tail) {
            Some(m) => Some(String::from_str("encoder.").concat(index).concat(".").concat(m)),
            None => None,
        };
    }
    if starts_with(name, "model.") {
        let pl = "model.".unicode_len();
        let rest = name.substring_char(pl, len);
        if starts_with(rest, "text_projector.") || starts_with(rest, "classes_projector.") {
            return Some(String::from_str(rest));
        }
    }
    None
}

} // verus!
