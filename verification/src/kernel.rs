//! The integer core of the int8 matrix product: each output cell is the dot
//! product of an i16 activation row and an i8 weight row, accumulated in i32
//! with two's-complement wrap-around (the order of the additions does not
//! change a wrapped sum). The host scales each cell by the row's and the
//! column's float scales.
use vstd::prelude::*;
use vstd::string::StringExecFns;
use vstd::arithmetic::div_mod::lemma_add_mod_noop_right;

verus! {

/// The exact dot product of `n` activations from `a[ai..]` and weights from `w[wi..]`.
pub open spec fn dot(a: Seq<i16>, ai: int, w: Seq<i8>, wi: int, n: int) -> int
    decreases n,
{
    if n <= 0 {
        0
    } else {
        dot(a, ai, w, wi, n - 1) + a[ai + n - 1] * w[wi + n - 1]
    }
}

/// `x` reduced to the 32-bit two's-complement range.
pub open spec fn wrap32(x: int) -> int {
    (x + 0x8000_0000) % 0x1_0000_0000 - 0x8000_0000
}

proof fn lemma_wrap_add(s: int, p: int)
    ensures
        wrap32(wrap32(s) + p) == wrap32(s + p),
{
    lemma_add_mod_noop_right(p, s + 0x8000_0000, 0x1_0000_0000);
    assert(wrap32(s) + p + 0x8000_0000 == p + (s + 0x8000_0000) % 0x1_0000_0000);
    assert(s + p + 0x8000_0000 == p + (s + 0x8000_0000));
}

proof fn lemma_wrap_small(x: int)
    requires
        i32::MIN <= x <= i32::MAX,
    ensures
        wrap32(x) == x,
{
}

/// The wrapped dot product of row `i` of `a` and row `j` of `w`, both `k` wide.
fn dot_row(a: &[i16], w: &[i8], ai: usize, wi: usize, k: usize) -> (r: i32)
    requires
        ai + k <= a@.len(),
        wi + k <= w@.len(),
    ensures
        r == wrap32(dot(a@, ai as int, w@, wi as int, k as int)),
{
    let la = a.len();
    let lw = w.len();
    let mut acc: i32 = 0;
    let mut p: usize = 0;
    while p < k
        invariant
            p <= k,
            la == a@.len(),
            lw == w@.len(),
            ai + k <= a@.len(),
            wi + k <= w@.len(),
            acc == wrap32(dot(a@, ai as int, w@, wi as int, p as int)),
        decreases k - p,
    {
        let x = a[ai + p] as i32;
        let y = w[wi + p] as i32;
        assert(-32768 * 128 <= x * y <= 32768 * 128) by (nonlinear_arith)
            requires
                -32768 <= x <= 32767,
                -128 <= y <= 127,
        ;
        let prod = x * y;
        proof {
            lemma_wrap_add(dot(a@, ai as int, w@, wi as int, p as int), prod as int);
            let t = acc + prod;
            if t > i32::MAX {
                lemma_wrap_small(t - 0x1_0000_0000);
                lemma_add_mod_noop_right(t + 0x8000_0000, -0x1_0000_0000, 0x1_0000_0000);
            } else if t < i32::MIN {
                lemma_wrap_small(t + 0x1_0000_0000);
                lemma_add_mod_noop_right(t + 0x8000_0000, 0x1_0000_0000, 0x1_0000_0000);
            } else {
                lemma_wrap_small(t);
            }
        }
        acc = acc.wrapping_add(prod);
        p = p + 1;
    }
    acc
}

/// What a call computes: `m * n` cells, cell `(i, j)` at `i * n + j`.
pub open spec fn product_cells(a: Seq<i16>, w: Seq<i8>, m: int, k: int, n: int, out: Seq<i32>) -> bool {
    &&& out.len() == m * n
    &&& forall|i: int, j: int| 0 <= i < m && 0 <= j < n ==>
        #[trigger] out[i * n + j] == wrap32(dot(a, i * k, w, j * k, k))
}

proof fn lemma_row_bounds(i: int, m: int, k: int)
    requires
        0 <= i < m,
        0 <= k,
    ensures
        i * k + k <= m * k,
        0 <= i * k,
{
    assert(i * k + k <= m * k && 0 <= i * k) by (nonlinear_arith)
        requires
            0 <= i < m,
            0 <= k,
    ;
}

proof fn lemma_cell_index(i: int, j: int, m: int, n: int)
    requires
        0 <= i < m,
        0 <= j < n,
    ensures
        0 <= i * n + j < m * n,
        i * n + j < (i + 1) * n,
        i * n <= i * n + j,
{
    assert(0 <= i * n + j < m * n && (i + 1) * n == i * n + n) by (nonlinear_arith)
        requires
            0 <= i < m,
            0 <= j < n,
    ;
}

/// The i32 accumulators of `a` (`m` rows of `k` activations) times the
/// transpose of `w` (`n` rows of `k` weights).
pub fn matmul_i8_acc(a: &[i16], w: &[i8], m: usize, k: usize, n: usize) -> (out: Vec<i32>)
    requires
        m * k <= usize::MAX,
        n * k <= usize::MAX,
        m * n <= usize::MAX,
        a@.len() >= m * k,
        w@.len() >= n * k,
    ensures
        product_cells(a@, w@, m as int, k as int, n as int, out@),
{
    let mut out: Vec<i32> = Vec::new();
    let mut i: usize = 0;
    while i < m
        invariant
            i <= m,
            m * k <= usize::MAX,
            n * k <= usize::MAX,
            m * n <= usize::MAX,
            a@.len() >= m * k,
            w@.len() >= n * k,
            out@.len() == i * n,
            forall|r: int, c: int| 0 <= r < i && 0 <= c < n ==>
                #[trigger] out@[r * n + c] == wrap32(dot(a@, r * k, w@, c * k, k as int)),
        decreases m - i,
    {
        proof {
            lemma_row_bounds(i as int, m as int, k as int);
        }
        let ai = i * k;
        let mut j: usize = 0;
        while j < n
            invariant
                i < m,
                j <= n,
                ai == i * k,
                ai + k <= a@.len(),
                m * k <= usize::MAX,
                n * k <= usize::MAX,
                m * n <= usize::MAX,
                a@.len() >= m * k,
                w@.len() >= n * k,
                out@.len() == i * n + j,
                forall|r: int, c: int| 0 <= r < i && 0 <= c < n ==>
                    #[trigger] out@[r * n + c] == wrap32(dot(a@, r * k, w@, c * k, k as int)),
                forall|c: int| 0 <= c < j ==>
                    #[trigger] out@[i * n + c] == wrap32(dot(a@, i * k, w@, c * k, k as int)),
            decreases n - j,
        {
            proof {
                lemma_row_bounds(j as int, n as int, k as int);
            }
            let wi = j * k;
            let cell = dot_row(a, w, ai, wi, k);
            let ghost before = out@;
            out.push(cell);
            proof {
                assert forall|r: int, c: int| 0 <= r < i && 0 <= c < n implies
                    #[trigger] out@[r * n + c] == wrap32(dot(a@, r * k, w@, c * k, k as int)) by {
                    lemma_cell_index(r, c, i as int, n as int);
                    assert(out@[r * n + c] == before[r * n + c]);
                }
                assert forall|c: int| 0 <= c < j + 1 implies
                    #[trigger] out@[i * n + c] == wrap32(dot(a@, i * k, w@, c * k, k as int)) by {
                    lemma_cell_index(i as int, c, m as int, n as int);
                    if c < j {
                        assert(out@[i * n + c] == before[i * n + c]);
                    }
                }
            }
            j = j + 1;
        }
        proof {
            assert((i + 1) * n == i * n + n) by (nonlinear_arith);
            assert forall|r: int, c: int| 0 <= r < i + 1 && 0 <= c < n implies
                #[trigger] out@[r * n + c] == wrap32(dot(a@, r * k, w@, c * k, k as int)) by {
                if r == i {
                    assert(out@[i * n + c] == wrap32(dot(a@, i * k, w@, c * k, k as int)));
                }
            }
        }
        i = i + 1;
    }
    out
}

proof fn lemma_dot_bound(a: Seq<i16>, ai: int, w: Seq<i8>, wi: int, n: int, bound: int)
    requires
        0 <= n,
        0 <= bound,
        forall|p: int| 0 <= p < n ==> -bound <= #[trigger] a[ai + p] <= bound,
        forall|p: int| 0 <= p < n ==> -127 <= #[trigger] w[wi + p] <= 127,
    ensures
        -(n * bound * 127) <= dot(a, ai, w, wi, n) <= n * bound * 127,
    decreases n,
{
    if n > 0 {
        lemma_dot_bound(a, ai, w, wi, n - 1, bound);
        let x = a[ai + (n - 1)] as int;
        let y = w[wi + (n - 1)] as int;
        assert(-(bound * 127) <= x * y <= bound * 127) by (nonlinear_arith)
            requires
                -bound <= x <= bound,
                -127 <= y <= 127,
                0 <= bound,
        ;
        assert(n * bound * 127 == (n - 1) * bound * 127 + bound * 127) by (nonlinear_arith);
        assert(ai + n - 1 == ai + (n - 1) && wi + n - 1 == wi + (n - 1));
    }
}

/// With activations within `bound`, weights within `-127..=127` (what the
/// row quantiser produces) and `k * bound * 127` inside the i32 range, the
/// accumulator never wraps: a cell is the exact dot product.
pub proof fn law_accumulator_is_exact(a: Seq<i16>, ai: int, w: Seq<i8>, wi: int, k: int, bound: int)
    requires
        0 <= k,
        0 <= bound,
        k * bound * 127 <= i32::MAX,
        forall|p: int| 0 <= p < k ==> -bound <= #[trigger] a[ai + p] <= bound,
        forall|p: int| 0 <= p < k ==> -127 <= #[trigger] w[wi + p] <= 127,
    ensures
        wrap32(dot(a, ai, w, wi, k)) == dot(a, ai, w, wi, k),
{
    lemma_dot_bound(a, ai, w, wi, k, bound);
}

/// The shapes the int8 kernel benchmark accepts: `m` in 1..=512, `n` and `k`
/// in 1..=4096 with `k` a multiple of 8, and 1..=64 iterations;
/// `Invalid("bench shape")` otherwise.
pub fn int8_bench_shape(m: u32, n: u32, k: u32, iterations: u32) -> (r: Result<(), crate::types::Error>)
    ensures
        r is Ok <==> (0 < m <= 512 && 0 < n <= 4096 && 0 < k <= 4096 && k % 8 == 0 && 0 < iterations <= 64),
        r matches Err(e) ==> e matches crate::types::Error::Invalid(msg) && msg@ == "bench shape"@,
{
    if m == 0 || n == 0 || k == 0 || m > 512 || n > 4096 || k > 4096 || iterations == 0 || iterations > 64 || k % 8 != 0 {
        return Err(crate::types::Error::Invalid(String::from_str("bench shape")));
    }
    Ok(())
}

} // verus!
