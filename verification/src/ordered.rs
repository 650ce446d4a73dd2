//! Sets of strings kept as strictly ascending vectors, in the order of
//! `String`'s `Ord`: lexicographic on the UTF-8 bytes.
use vstd::prelude::*;
use vstd::utf8::encode_utf8;
use crate::text::str_eq;

verus! {

/// Lexicographic "less than" on byte strings (a proper prefix is smaller).
pub open spec fn byte_lt(a: Seq<u8>, b: Seq<u8>) -> bool
    decreases a.len(),
{
    if a.len() == 0 {
        b.len() > 0
    } else if b.len() == 0 {
        false
    } else if a[0] != b[0] {
        a[0] < b[0]
    } else {
        byte_lt(a.drop_first(), b.drop_first())
    }
}

/// `String` order on the characters of two strings.
pub open spec fn text_lt(a: Seq<char>, b: Seq<char>) -> bool {
    byte_lt(encode_utf8(a), encode_utf8(b))
}

/// Strictly ascending, hence free of repeats.
pub open spec fn strictly_sorted(v: Seq<Seq<char>>) -> bool {
    forall|i: int, j: int| 0 <= i < j < v.len() ==> text_lt(#[trigger] v[i], #[trigger] v[j])
}

pub open spec fn views(v: Seq<String>) -> Seq<Seq<char>> {
    v.map_values(|s: String| s@)
}

proof fn lemma_byte_lt_irreflexive(a: Seq<u8>)
    ensures
        !byte_lt(a, a),
    decreases a.len(),
{
    if a.len() > 0 {
        lemma_byte_lt_irreflexive(a.drop_first());
    }
}

proof fn lemma_byte_lt_total(a: Seq<u8>, b: Seq<u8>)
    requires
        a != b,
    ensures
        byte_lt(a, b) || byte_lt(b, a),
    decreases a.len(),
{
    if a.len() > 0 && b.len() > 0 && a[0] == b[0] {
        if a.drop_first() == b.drop_first() {
            assert(a =~= seq![a[0]] + a.drop_first());
            assert(b =~= seq![b[0]] + b.drop_first());
        }
        lemma_byte_lt_total(a.drop_first(), b.drop_first());
    } else if a.len() == 0 && b.len() == 0 {
        assert(a =~= b);
    }
}

proof fn lemma_byte_lt_transitive(a: Seq<u8>, b: Seq<u8>, c: Seq<u8>)
    requires
        byte_lt(a, b),
        byte_lt(b, c),
    ensures
        byte_lt(a, c),
    decreases a.len(),
{
    if a.len() > 0 && b.len() > 0 && c.len() > 0 && a[0] == b[0] && b[0] == c[0] {
        lemma_byte_lt_transitive(a.drop_first(), b.drop_first(), c.drop_first());
    }
}

proof fn lemma_byte_lt_asymmetric(a: Seq<u8>, b: Seq<u8>)
    requires
        byte_lt(a, b),
    ensures
        !byte_lt(b, a),
{
    if byte_lt(b, a) {
        lemma_byte_lt_transitive(a, b, a);
        lemma_byte_lt_irreflexive(a);
    }
}

proof fn lemma_text_lt_total(a: Seq<char>, b: Seq<char>)
    requires
        a != b,
    ensures
        text_lt(a, b) || text_lt(b, a),
{
    vstd::utf8::encode_utf8_decode_utf8(a);
    vstd::utf8::encode_utf8_decode_utf8(b);
    lemma_byte_lt_total(encode_utf8(a), encode_utf8(b));
}

/// Byte-wise lexicographic comparison.
fn bytes_lt(a: &[u8], b: &[u8]) -> (r: bool)
    ensures
        r == byte_lt(a@, b@),
{
    let mut i: usize = 0;
    assert(a@.subrange(0, a@.len() as int) =~= a@);
    assert(b@.subrange(0, b@.len() as int) =~= b@);
    assert(a@.subrange(0, 0) =~= b@.subrange(0, 0));
    while i < a.len() && i < b.len()
        invariant
            i <= a@.len(),
            i <= b@.len(),
            a@.subrange(0, i as int) == b@.subrange(0, i as int),
            byte_lt(a@, b@) == byte_lt(a@.subrange(i as int, a@.len() as int), b@.subrange(i as int, b@.len() as int)),
        decreases a@.len() - i,
    {
        let x = a[i];
        let y = b[i];
        let ghost sa = a@.subrange(i as int, a@.len() as int);
        let ghost sb = b@.subrange(i as int, b@.len() as int);
        assert(sa[0] == x && sb[0] == y);
        if x != y {
            return x < y;
        }
        assert(sa.drop_first() =~= a@.subrange(i + 1, a@.len() as int));
        assert(sb.drop_first() =~= b@.subrange(i + 1, b@.len() as int));
        assert(a@.subrange(0, i + 1) =~= a@.subrange(0, i as int).push(x));
        assert(b@.subrange(0, i + 1) =~= b@.subrange(0, i as int).push(y));
        i = i + 1;
    }
    i < b.len()
}

fn text_less(a: &String, b: &String) -> (r: bool)
    ensures
        r == text_lt(a@, b@),
{
    bytes_lt(a.as_str().as_bytes(), b.as_str().as_bytes())
}

/// Adds `x` to an ascending vector, in its place; a text already present is not added again.
fn insert_sorted(v: &mut Vec<String>, x: String)
    requires
        strictly_sorted(views(old(v)@)),
    ensures
        strictly_sorted(views(final(v)@)),
        forall|s: Seq<char>| views(final(v)@).contains(s) <==> (views(old(v)@).contains(s) || s == x@),
{
    let ghost ov = views(v@);
    let mut p: usize = 0;
    while p < v.len() && text_less(&v[p], &x)
        invariant
            p <= v@.len(),
            ov == views(v@),
            ov.len() == v@.len(),
            strictly_sorted(ov),
            forall|k: int| 0 <= k < p ==> text_lt(#[trigger] ov[k], x@),
            forall|k: int| 0 <= k < v@.len() ==> #[trigger] ov[k] == v@[k]@,
        decreases v@.len() - p,
    {
        p = p + 1;
    }
    if p < v.len() && str_eq(v[p].as_str(), x.as_str()) {
        assert(ov[p as int] == x@);
        assert(forall|s: Seq<char>| views(v@).contains(s) <==> (ov.contains(s) || s == x@)) by {
            assert(ov.contains(x@)) by {
                assert(ov[p as int] == x@);
            }
        }
        return;
    }
    proof {
        if p < ov.len() {
            assert(ov[p as int] == v@[p as int]@);
            lemma_text_lt_total(ov[p as int], x@);
        }
    }
    v.insert(p, x);
    let ghost nv = views(v@);
    assert(nv =~= ov.insert(p as int, x@)) by {
        assert forall|k: int| 0 <= k < nv.len() implies nv[k] == ov.insert(p as int, x@)[k] by {
            assert(nv[k] == v@[k]@);
        }
    }
    proof {
        assert forall|i: int, j: int| 0 <= i < j < nv.len() implies text_lt(#[trigger] nv[i], #[trigger] nv[j]) by {
            if j < p {
                assert(nv[i] == ov[i] && nv[j] == ov[j]);
            } else if j == p {
                assert(nv[i] == ov[i] && nv[j] == x@);
            } else if i == p {
                assert(nv[j] == ov[j - 1]);
                if j - 1 > p {
                    assert(text_lt(ov[p as int], ov[j - 1]));
                    lemma_byte_lt_transitive(encode_utf8(x@), encode_utf8(ov[p as int]), encode_utf8(ov[j - 1]));
                }
            } else if i < p {
                assert(nv[i] == ov[i] && nv[j] == ov[j - 1]);
            } else {
                assert(nv[i] == ov[i - 1] && nv[j] == ov[j - 1]);
            }
        }
        assert forall|s: Seq<char>| nv.contains(s) <==> (ov.contains(s) || s == x@) by {
            if nv.contains(s) {
                let k = choose|k: int| 0 <= k < nv.len() && nv[k] == s;
                if k < p {
                    assert(ov[k] == s);
                } else if k > p {
                    assert(ov[k - 1] == s);
                }
            }
            if ov.contains(s) {
                let k = choose|k: int| 0 <= k < ov.len() && ov[k] == s;
                if k < p {
                    assert(nv[k] == s);
                } else {
                    assert(nv[k + 1] == s);
                }
            }
            if s == x@ {
                assert(nv[p as int] == s);
            }
        }
    }
}

/// The texts of `v`, ascending and each once (a `sort` followed by a `dedup`).
pub fn sorted_unique(v: &Vec<String>) -> (r: Vec<String>)
    ensures
        strictly_sorted(views(r@)),
        forall|s: Seq<char>| views(r@).contains(s) <==> views(v@).contains(s),
{
    let mut r: Vec<String> = Vec::new();
    let mut i: usize = 0;
    assert(views(r@) =~= Seq::<Seq<char>>::empty());
    while i < v.len()
        invariant
            i <= v@.len(),
            strictly_sorted(views(r@)),
            forall|s: Seq<char>| views(r@).contains(s) <==> views(v@).subrange(0, i as int).contains(s),
        decreases v@.len() - i,
    {
        let ghost before = views(r@);
        insert_sorted(&mut r, v[i].clone());
        proof {
            let vv = views(v@);
            assert(vv[i as int] == v@[i as int]@);
            assert(vv.subrange(0, i + 1) =~= vv.subrange(0, i as int).push(vv[i as int]));
            assert forall|s: Seq<char>| views(r@).contains(s) <==> vv.subrange(0, i + 1).contains(s) by {
                let old_part = vv.subrange(0, i as int);
                if old_part.contains(s) {
                    let k = choose|k: int| 0 <= k < old_part.len() && old_part[k] == s;
                    assert(vv.subrange(0, i + 1)[k] == s);
                }
                let new_part = vv.subrange(0, i + 1);
                if s == vv[i as int] {
                    assert(new_part[i as int] == s);
                }
                if new_part.contains(s) {
                    let k = choose|k: int| 0 <= k < new_part.len() && new_part[k] == s;
                    if k < i {
                        assert(old_part[k] == s);
                    }
                }
            }
        }
        i = i + 1;
    }
    assert(views(v@).subrange(0, v@.len() as int) =~= views(v@));
    r
}

} // verus!
