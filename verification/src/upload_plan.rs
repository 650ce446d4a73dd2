//! What the upload tool decides between its calls to the canister: which
//! inputs a run needs, the next chunk of the payload, the token lists and
//! benchmark shapes read from its flags, and the per-phase totals of a profile.
use vstd::prelude::*;
use vstd::string::{StrSliceExecFns, StringExecFns};
use crate::text::{str_eq, all_digits, all_white, chars_of, is_white_space, lemma_digits_nonneg, parse_unsigned, spec_white_space, unsigned_part};
use crate::profile::{phase_views, total, PhaseCostDto};
use crate::upload_cli::{half_flag, half_flag_text, parse_u32_text, parse_u64_text, u32_error_text, Args};

verus! {

/// `s` without its leading white space.
pub open spec fn trim_start(s: Seq<char>) -> Seq<char>
    decreases s.len(),
{
    if s.len() > 0 && spec_white_space(s[0]) { trim_start(s.drop_first()) } else { s }
}

/// `s` without its trailing white space.
pub open spec fn trim_end(s: Seq<char>) -> Seq<char>
    decreases s.len(),
{
    if s.len() > 0 && spec_white_space(s.last()) { trim_end(s.drop_last()) } else { s }
}

/// `str::trim`: white space removed at both ends.
pub open spec fn trim(s: Seq<char>) -> Seq<char> {
    trim_end(trim_start(s))
}

/// `str::split(',')`: the pieces between commas, in order (one empty piece for
/// empty text).
pub open spec fn split_commas(s: Seq<char>) -> Seq<Seq<char>>
    decreases s.len(),
{
    if s.len() == 0 {
        seq![Seq::<char>::empty()]
    } else {
        let r = split_commas(s.drop_last());
        if s.last() == ',' {
            r.push(Seq::<char>::empty())
        } else {
            r.update(r.len() - 1, r.last().push(s.last()))
        }
    }
}

proof fn lemma_split_nonempty(s: Seq<char>)
    ensures
        split_commas(s).len() >= 1,
    decreases s.len(),
{
    if s.len() > 0 {
        lemma_split_nonempty(s.drop_last());
    }
}

/// The bounds of `cs[start..end]` trimmed.
fn trim_bounds(cs: &Vec<char>, start: usize, end: usize) -> (r: (usize, usize))
    requires
        start <= end <= cs@.len(),
    ensures
        start <= r.0 <= r.1 <= end,
        cs@.subrange(r.0 as int, r.1 as int) == trim(cs@.subrange(start as int, end as int)),
{
    let mut a = start;
    while a < end && is_white_space(cs[a])
        invariant
            start <= a <= end <= cs@.len(),
            trim_start(cs@.subrange(start as int, end as int)) == trim_start(cs@.subrange(a as int, end as int)),
        decreases end - a,
    {
        assert(cs@.subrange(a as int, end as int).drop_first() =~= cs@.subrange(a + 1, end as int));
        a = a + 1;
    }
    assert(trim_start(cs@.subrange(a as int, end as int)) == cs@.subrange(a as int, end as int));
    let mut b = end;
    while b > a && is_white_space(cs[b - 1])
        invariant
            start <= a <= b <= end <= cs@.len(),
            trim_end(cs@.subrange(a as int, end as int)) == trim_end(cs@.subrange(a as int, b as int)),
        decreases b - a,
    {
        assert(cs@.subrange(a as int, b as int).drop_last() =~= cs@.subrange(a as int, b - 1));
        b = b - 1;
    }
    assert(trim_end(cs@.subrange(a as int, b as int)) == cs@.subrange(a as int, b as int));
    (a, b)
}

/// What one piece of a token list gives: nothing for a blank piece, else its
/// id or the parse error.
pub open spec fn piece_id(p: Seq<char>) -> Result<Option<u32>, Seq<char>> {
    if all_white(p) {
        Ok(None)
    } else {
        match parse_unsigned(trim(p), u32::MAX as int) {
            Some(n) => Ok(Some(n as u32)),
            None => Err("id "@ + p + ": "@ + u32_error_text(trim(p))),
        }
    }
}

/// The ids of the pieces, in order, or the error of the first bad piece.
pub open spec fn ids_from(pieces: Seq<Seq<char>>) -> Result<Seq<u32>, Seq<char>>
    decreases pieces.len(),
{
    if pieces.len() == 0 {
        Ok(Seq::empty())
    } else {
        match ids_from(pieces.drop_last()) {
            Err(e) => Err(e),
            Ok(v) => match piece_id(pieces.last()) {
                Err(e) => Err(e),
                Ok(None) => Ok(v),
                Ok(Some(n)) => Ok(v.push(n)),
            },
        }
    }
}

fn one_piece(text: &str, cs: &Vec<char>, start: usize, end: usize) -> (r: Result<Option<u32>, String>)
    requires
        cs@ == text@,
        start <= end <= cs@.len(),
    ensures
        match piece_id(cs@.subrange(start as int, end as int)) {
            Ok(o) => r == Ok::<Option<u32>, String>(o),
            Err(e) => r matches Err(m) && m@ == e,
        },
{
    let ghost p = cs@.subrange(start as int, end as int);
    let (a, b) = trim_bounds(cs, start, end);
    if a == b {
        assert forall|i: int| 0 <= i < p.len() implies spec_white_space(p[i]) by {
            lemma_blank_when_trim_empty(p, i);
        }
        return Ok(None);
    }
    proof {
        lemma_not_blank_when_trim_nonempty(p);
    }
    let t = text.substring_char(a, b);
    match parse_u32_text(t) {
        Ok(n) => Ok(Some(n)),
        Err(e) => {
            let piece = text.substring_char(start, end);
            Err(String::from_str("id ").concat(piece).concat(": ").concat(e.as_str()))
        },
    }
}

proof fn lemma_trim_start_all_white(s: Seq<char>, i: int)
    requires
        trim_start(s).len() == 0,
        0 <= i < s.len(),
    ensures
        spec_white_space(s[i]),
    decreases s.len(),
{
    if i > 0 {
        assert(spec_white_space(s[0]));
        lemma_trim_start_all_white(s.drop_first(), i - 1);
    }
}

proof fn lemma_trim_end_empty(s: Seq<char>)
    requires
        trim_end(s).len() == 0,
    ensures
        all_white(s),
    decreases s.len(),
{
    if s.len() > 0 {
        lemma_trim_end_empty(s.drop_last());
        assert forall|i: int| 0 <= i < s.len() implies spec_white_space(s[i]) by {
            if i < s.len() - 1 {
                assert(s.drop_last()[i] == s[i]);
            }
        }
    }
}

proof fn lemma_trim_start_suffix(s: Seq<char>)
    ensures
        exists|k: int| 0 <= k <= s.len() && trim_start(s) == #[trigger] s.subrange(k, s.len() as int)
            && forall|i: int| 0 <= i < k ==> spec_white_space(s[i]),
    decreases s.len(),
{
    if s.len() > 0 && spec_white_space(s[0]) {
        lemma_trim_start_suffix(s.drop_first());
        let k = choose|k: int| 0 <= k <= s.drop_first().len() && trim_start(s.drop_first())
            == #[trigger] s.drop_first().subrange(k, s.drop_first().len() as int)
            && forall|i: int| 0 <= i < k ==> spec_white_space(s.drop_first()[i]);
        assert(s.drop_first().subrange(k, s.drop_first().len() as int) =~= s.subrange(k + 1, s.len() as int));
        assert forall|i: int| 0 <= i < k + 1 implies spec_white_space(s[i]) by {
            if i > 0 {
                assert(s.drop_first()[i - 1] == s[i]);
            }
        }
    } else {
        assert(s.subrange(0, s.len() as int) =~= s);
    }
}

proof fn lemma_blank_when_trim_empty(p: Seq<char>, i: int)
    requires
        trim(p).len() == 0,
        0 <= i < p.len(),
    ensures
        spec_white_space(p[i]),
{
    lemma_trim_end_empty(trim_start(p));
    lemma_trim_start_suffix(p);
    let k = choose|k: int| 0 <= k <= p.len() && trim_start(p) == #[trigger] p.subrange(k, p.len() as int)
        && forall|j: int| 0 <= j < k ==> spec_white_space(p[j]);
    if i >= k {
        assert(trim_start(p)[i - k] == p[i]);
    }
}

proof fn lemma_trim_end_keeps_solid(s: Seq<char>, i: int)
    requires
        0 <= i < s.len(),
        !spec_white_space(s[i]),
    ensures
        trim_end(s).len() > i,
    decreases s.len(),
{
    if s.len() > 0 && spec_white_space(s.last()) {
        assert(i < s.len() - 1);
        assert(s.drop_last()[i] == s[i]);
        lemma_trim_end_keeps_solid(s.drop_last(), i);
    }
}

proof fn lemma_not_blank_when_trim_nonempty(p: Seq<char>)
    requires
        trim(p).len() > 0,
    ensures
        !all_white(p),
{
    if all_white(p) {
        lemma_trim_start_suffix(p);
        let k = choose|k: int| 0 <= k <= p.len() && trim_start(p) == #[trigger] p.subrange(k, p.len() as int)
            && forall|j: int| 0 <= j < k ==> spec_white_space(p[j]);
        let t = trim_start(p);
        if t.len() > 0 {
            assert(t[0] == p[k]);
            assert(spec_white_space(p[k]));
            assert(t.subrange(1, t.len() as int) =~= t.drop_first());
        }
        lemma_trim_end_of_white(t);
    }
}

proof fn lemma_trim_end_of_white(t: Seq<char>)
    requires
        all_white(t),
    ensures
        trim_end(t).len() == 0,
    decreases t.len(),
{
    if t.len() > 0 {
        assert(spec_white_space(t.last()));
        assert forall|i: int| 0 <= i < t.drop_last().len() implies spec_white_space(t.drop_last()[i]) by {
            assert(t.drop_last()[i] == t[i]);
        }
        lemma_trim_end_of_white(t.drop_last());
    }
}

/// The token ids of a comma-separated list such as `"1, 2,,3"`: blank pieces
/// are skipped, the others are read as `u32` after trimming; the first piece
/// that is not a number is reported with its text.
pub fn parse_ids(text: &str) -> (r: Result<Vec<u32>, String>)
    ensures
        match ids_from(split_commas(text@)) {
            Ok(v) => r matches Ok(x) && x@ == v,
            Err(e) => r matches Err(m) && m@ == e,
        },
{
    let cs = chars_of(text);
    let n = cs.len();
    let mut out: Vec<u32> = Vec::new();
    let mut start: usize = 0;
    let mut i: usize = 0;
    let ghost mut done: Seq<Seq<char>> = Seq::empty();
    assert(cs@.take(0) =~= Seq::<char>::empty());
    assert(cs@.subrange(0, 0) =~= Seq::<char>::empty());
    assert(done.push(cs@.subrange(0, 0)) =~= seq![Seq::<char>::empty()]);
    while i < n
        invariant
            cs@ == text@,
            n == cs@.len(),
            start <= i <= n,
            split_commas(cs@.take(i as int)) == done.push(cs@.subrange(start as int, i as int)),
            ids_from(done) == Ok::<Seq<u32>, Seq<char>>(out@),
        decreases n - i,
    {
        let c = cs[i];
        let ghost pre = cs@.take(i as int);
        assert(cs@.take(i + 1).drop_last() =~= pre);
        assert(cs@.take(i + 1).last() == c);
        if c == ',' {
            let piece = one_piece(text, &cs, start, i);
            proof {
                assert(done.push(cs@.subrange(start as int, i as int)).drop_last() =~= done);
            }
            match piece {
                Err(e) => {
                    proof {
                        lemma_ids_prefix_error(text@, cs@, done, cs@.subrange(start as int, i as int), i as int);
                    }
                    return Err(e);
                },
                Ok(o) => {
                    proof {
                        done = done.push(cs@.subrange(start as int, i as int));
                    }
                    match o {
                        Some(v) => {
                            out.push(v);
                        },
                        None => {},
                    }
                    assert(split_commas(cs@.take(i + 1)) =~= done.push(Seq::<char>::empty()));
                    assert(cs@.subrange(i + 1, i + 1) =~= Seq::<char>::empty());
                    start = i + 1;
                },
            }
        } else {
            proof {
                lemma_split_nonempty(pre);
                assert(cs@.subrange(start as int, i + 1) =~= cs@.subrange(start as int, i as int).push(c));
                assert(split_commas(cs@.take(i + 1)) =~= done.push(cs@.subrange(start as int, i + 1)));
            }
        }
        i = i + 1;
    }
    assert(cs@.take(n as int) =~= text@);
    let last = one_piece(text, &cs, start, n);
    let ghost all = done.push(cs@.subrange(start as int, n as int));
    assert(all.drop_last() =~= done);
    match last {
        Err(e) => Err(e),
        Ok(Some(v)) => {
            out.push(v);
            Ok(out)
        },
        Ok(None) => Ok(out),
    }
}

/// A bad piece ends the list with its error, whatever follows it.
proof fn lemma_ids_prefix_error(text: Seq<char>, cs: Seq<char>, done: Seq<Seq<char>>, p: Seq<char>, i: int)
    requires
        cs == text,
        0 <= i < cs.len(),
        cs[i] == ',',
        split_commas(cs.take(i)) == done.push(p),
        ids_from(done) is Ok,
        piece_id(p) is Err,
    ensures
        ids_from(split_commas(text)) == Err::<Seq<u32>, Seq<char>>(piece_id(p)->Err_0),
{
    let upto = done.push(p);
    assert(upto.drop_last() =~= done);
    assert(cs.take(i + 1).drop_last() =~= cs.take(i));
    let r = split_commas(cs.take(i + 1));
    assert(r == upto.push(Seq::<char>::empty()));
    assert(r.subrange(0, upto.len() as int) =~= upto);
    lemma_prefix_pieces(cs, i + 1, upto);
    lemma_ids_error_prefix(split_commas(cs), upto);
}

/// Every later prefix's pieces begin with `upto`.
proof fn lemma_prefix_pieces(cs: Seq<char>, k: int, upto: Seq<Seq<char>>)
    requires
        0 < k <= cs.len(),
        split_commas(cs.take(k)).len() > upto.len(),
        split_commas(cs.take(k)).subrange(0, upto.len() as int) == upto,
    ensures
        split_commas(cs).len() > upto.len(),
        split_commas(cs).subrange(0, upto.len() as int) == upto,
    decreases cs.len() - k,
{
    if k < cs.len() {
        let t = cs.take(k + 1);
        assert(t.drop_last() =~= cs.take(k));
        let r = split_commas(cs.take(k));
        let r2 = split_commas(t);
        assert(r2.subrange(0, upto.len() as int) =~= upto) by {
            assert forall|j: int| 0 <= j < upto.len() implies r2[j] == upto[j] by {
                assert(r[j] == r.subrange(0, upto.len() as int)[j]);
            }
        }
        lemma_prefix_pieces(cs, k + 1, upto);
    } else {
        assert(cs.take(k) =~= cs);
    }
}

/// A sequence of pieces that begins with a failing prefix fails the same way.
proof fn lemma_ids_error_prefix(all: Seq<Seq<char>>, upto: Seq<Seq<char>>)
    requires
        all.len() >= upto.len(),
        all.subrange(0, upto.len() as int) == upto,
        ids_from(upto) is Err,
    ensures
        ids_from(all) == ids_from(upto),
    decreases all.len(),
{
    if all.len() > upto.len() {
        assert(all.drop_last().subrange(0, upto.len() as int) =~= upto);
        lemma_ids_error_prefix(all.drop_last(), upto);
    } else {
        assert(all =~= upto);
    }
}

/// The trimmed pieces of a comma-separated text.
pub open spec fn trimmed_pieces(s: Seq<char>) -> Seq<Seq<char>> {
    split_commas(s).map_values(|p: Seq<char>| trim(p))
}

pub open spec fn string_views(v: Seq<String>) -> Seq<Seq<char>> {
    v.map_values(|s: String| s@)
}

fn split_trimmed(text: &str) -> (r: Vec<String>)
    ensures
        string_views(r@) == trimmed_pieces(text@),
{
    let cs = chars_of(text);
    let n = cs.len();
    let mut out: Vec<String> = Vec::new();
    let mut start: usize = 0;
    let mut i: usize = 0;
    let ghost mut done: Seq<Seq<char>> = Seq::empty();
    assert(cs@.take(0) =~= Seq::<char>::empty());
    assert(cs@.subrange(0, 0) =~= Seq::<char>::empty());
    assert(done.push(cs@.subrange(0, 0)) =~= seq![Seq::<char>::empty()]);
    assert(string_views(out@) =~= done.map_values(|p: Seq<char>| trim(p)));
    while i < n
        invariant
            cs@ == text@,
            n == cs@.len(),
            start <= i <= n,
            split_commas(cs@.take(i as int)) == done.push(cs@.subrange(start as int, i as int)),
            string_views(out@) == done.map_values(|p: Seq<char>| trim(p)),
        decreases n - i,
    {
        let c = cs[i];
        let ghost pre = cs@.take(i as int);
        assert(cs@.take(i + 1).drop_last() =~= pre);
        assert(cs@.take(i + 1).last() == c);
        if c == ',' {
            let (a, b) = trim_bounds(&cs, start, i);
            let piece = String::from_str(text.substring_char(a, b));
            let ghost old_views = string_views(out@);
            proof {
                done = done.push(cs@.subrange(start as int, i as int));
            }
            out.push(piece);
            assert(string_views(out@) =~= done.map_values(|p: Seq<char>| trim(p))) by {
                assert(string_views(out@) =~= old_views.push(piece@));
            }
            assert(split_commas(cs@.take(i + 1)) =~= done.push(Seq::<char>::empty()));
            assert(cs@.subrange(i + 1, i + 1) =~= Seq::<char>::empty());
            start = i + 1;
        } else {
            proof {
                lemma_split_nonempty(pre);
                assert(cs@.subrange(start as int, i + 1) =~= cs@.subrange(start as int, i as int).push(c));
                assert(split_commas(cs@.take(i + 1)) =~= done.push(cs@.subrange(start as int, i + 1)));
            }
        }
        i = i + 1;
    }
    assert(cs@.take(n as int) =~= text@);
    let (a, b) = trim_bounds(&cs, start, n);
    let ghost old_views = string_views(out@);
    out.push(String::from_str(text.substring_char(a, b)));
    proof {
        let all = done.push(cs@.subrange(start as int, n as int));
        assert(string_views(out@) =~= all.map_values(|p: Seq<char>| trim(p))) by {
            assert(string_views(out@) =~= old_views.push(trim(cs@.subrange(start as int, n as int))));
        }
    }
    out
}

/// A number in a benchmark shape: the parsed value, or 0 where the text is not one.
pub open spec fn number_or_zero(p: Seq<char>, max: int) -> int {
    match parse_unsigned(p, max) {
        Some(n) => n,
        None => 0,
    }
}

fn u32_or_zero(p: &String) -> (n: u32)
    ensures
        n == number_or_zero(p@, u32::MAX as int),
{
    proof {
        let d = unsigned_part(p@);
        if d.len() > 0 && all_digits(d) {
            lemma_digits_nonneg(d);
        }
    }
    match parse_u32_text(p.as_str()) {
        Ok(n) => n,
        Err(_) => 0,
    }
}

fn u64_or_zero(p: &String) -> (n: u64)
    ensures
        n == number_or_zero(p@, u64::MAX as int),
{
    proof {
        let d = unsigned_part(p@);
        if d.len() > 0 && all_digits(d) {
            lemma_digits_nonneg(d);
        }
    }
    match parse_u64_text(p.as_str()) {
        Some(n) => n,
        None => 0,
    }
}

/// `--bench m,n,k,iterations`: four numbers read as `u64` (0 where a piece is
/// not one) and passed on truncated to `u32`.
pub fn bench_shape(spec: &str) -> (r: Result<(u32, u32, u32, u32), String>)
    ensures
        ({
            let ps = trimmed_pieces(spec@);
            if ps.len() != 4 {
                r matches Err(m) && m@ == "--bench wants m,n,k,iterations"@
            } else {
                r == Ok::<(u32, u32, u32, u32), String>((
                    (number_or_zero(ps[0], u64::MAX as int) as u64) as u32,
                    (number_or_zero(ps[1], u64::MAX as int) as u64) as u32,
                    (number_or_zero(ps[2], u64::MAX as int) as u64) as u32,
                    (number_or_zero(ps[3], u64::MAX as int) as u64) as u32,
                ))
            }
        }),
{
    let ps = split_trimmed(spec);
    if ps.len() != 4 {
        return Err(String::from_str("--bench wants m,n,k,iterations"));
    }
    proof {
        assert(ps@[0]@ == trimmed_pieces(spec@)[0]);
        assert(ps@[1]@ == trimmed_pieces(spec@)[1]);
        assert(ps@[2]@ == trimmed_pieces(spec@)[2]);
        assert(ps@[3]@ == trimmed_pieces(spec@)[3]);
    }
    Ok((u64_or_zero(&ps[0]) as u32, u64_or_zero(&ps[1]) as u32, u64_or_zero(&ps[2]) as u32, u64_or_zero(&ps[3]) as u32))
}

/// The four `u32` numbers of a kernel benchmark shape, or the flag's usage error.
pub open spec fn shape_of(ps: Seq<Seq<char>>) -> (u32, u32, u32, u32) {
    (
        number_or_zero(ps[0], u32::MAX as int) as u32,
        number_or_zero(ps[1], u32::MAX as int) as u32,
        number_or_zero(ps[2], u32::MAX as int) as u32,
        number_or_zero(ps[3], u32::MAX as int) as u32,
    )
}

fn four_u32(ps: &Vec<String>) -> (r: (u32, u32, u32, u32))
    requires
        ps@.len() >= 4,
    ensures
        r == shape_of(string_views(ps@)),
{
    proof {
        assert(string_views(ps@)[0] == ps@[0]@);
        assert(string_views(ps@)[1] == ps@[1]@);
        assert(string_views(ps@)[2] == ps@[2]@);
        assert(string_views(ps@)[3] == ps@[3]@);
    }
    (u32_or_zero(&ps[0]), u32_or_zero(&ps[1]), u32_or_zero(&ps[2]), u32_or_zero(&ps[3]))
}

/// `--int8 m,n,k,iterations`.
pub fn int8_shape(spec: &str) -> (r: Result<(u32, u32, u32, u32), String>)
    ensures
        trimmed_pieces(spec@).len() != 4 ==> (r matches Err(m) && m@ == "--int8 wants m,n,k,iterations"@),
        trimmed_pieces(spec@).len() == 4 ==> r == Ok::<(u32, u32, u32, u32), String>(shape_of(trimmed_pieces(spec@))),
{
    let ps = split_trimmed(spec);
    if ps.len() != 4 {
        return Err(String::from_str("--int8 wants m,n,k,iterations"));
    }
    Ok(four_u32(&ps))
}

/// The half-precision benchmark's `m,n,k,iterations`.
pub fn half_shape(spec: &str) -> (r: Result<(u32, u32, u32, u32), String>)
    ensures
        trimmed_pieces(spec@).len() != 4 ==> (r matches Err(m) && m@ == half_flag() + " wants m,n,k,iterations"@),
        trimmed_pieces(spec@).len() == 4 ==> r == Ok::<(u32, u32, u32, u32), String>(shape_of(trimmed_pieces(spec@))),
{
    let ps = split_trimmed(spec);
    if ps.len() != 4 {
        return Err(half_flag_text().concat(" wants m,n,k,iterations"));
    }
    Ok(four_u32(&ps))
}

/// `--quant m,n,k,iterations,dtype`: four `u32` numbers and the element type's name.
pub fn quant_shape(spec: &str) -> (r: Result<((u32, u32, u32, u32), String), String>)
    ensures
        trimmed_pieces(spec@).len() != 5 ==> (r matches Err(m) && m@ == "--quant wants m,n,k,iterations,dtype"@),
        trimmed_pieces(spec@).len() == 5 ==> (r matches Ok((shape, dtype)) && shape == shape_of(trimmed_pieces(spec@))
            && dtype@ == trimmed_pieces(spec@)[4]),
{
    let ps = split_trimmed(spec);
    if ps.len() != 5 {
        return Err(String::from_str("--quant wants m,n,k,iterations,dtype"));
    }
    let shape = four_u32(&ps);
    assert(string_views(ps@)[4] == ps@[4]@);
    Ok((shape, ps[4].clone()))
}

/// Which inputs a run needs: the pack and the tokenizer come together, a run
/// that uploads nothing takes neither, and an upload needs them.
pub open spec fn inputs_error(pack: bool, tokenizer: bool, no_upload: bool) -> Option<Seq<char>> {
    if (pack || tokenizer) && !(pack && tokenizer) {
        Some("--pack and --tokenizer must be given together"@)
    } else if no_upload && (pack || tokenizer) {
        Some("--no-upload does not take --pack/--tokenizer"@)
    } else if !no_upload && !pack {
        Some("--pack is required"@)
    } else {
        None
    }
}

/// Checks the run's inputs (after the identity is read and before anything is uploaded).
pub fn check_inputs(a: &Args) -> (r: Result<(), String>)
    ensures
        match inputs_error(a.pack is Some, a.tokenizer is Some, a.no_upload) {
            None => r is Ok,
            Some(e) => r matches Err(m) && m@ == e,
        },
{
    let pack = a.pack.is_some();
    let tokenizer = a.tokenizer.is_some();
    if (pack || tokenizer) && !(pack && tokenizer) {
        return Err(String::from_str("--pack and --tokenizer must be given together"));
    }
    if a.no_upload && (pack || tokenizer) {
        return Err(String::from_str("--no-upload does not take --pack/--tokenizer"));
    }
    if !a.no_upload && !pack {
        return Err(String::from_str("--pack is required"));
    }
    Ok(())
}

/// The next chunk of a payload of `len` bytes once `offset` is confirmed:
/// `None` when everything is uploaded, else the byte range to send.
pub fn next_chunk(offset: usize, len: usize, chunk: usize) -> (r: Option<(usize, usize)>)
    requires
        offset + chunk <= usize::MAX,
    ensures
        offset >= len ==> r is None,
        offset < len ==> r == Some((offset, if offset + chunk < len { (offset + chunk) as usize } else { len })),
{
    if offset >= len {
        None
    } else {
        let end = offset + chunk;
        Some((offset, if end < len { end } else { len }))
    }
}

/// The position of `name` among the entries (the last one holding it), or -1.
pub open spec fn find_name(r: Seq<(Seq<char>, int, int)>, name: Seq<char>) -> int
    decreases r.len(),
{
    if r.len() == 0 {
        -1
    } else if r.last().0 == name {
        r.len() - 1
    } else {
        find_name(r.drop_last(), name)
    }
}

/// Phases summed by name, in the order each name first appears: the name, the
/// total of its instructions and how many phases carried it.
pub open spec fn aggregate(ph: Seq<(Seq<char>, u64)>) -> Seq<(Seq<char>, int, int)>
    decreases ph.len(),
{
    if ph.len() == 0 {
        Seq::empty()
    } else {
        let r = aggregate(ph.drop_last());
        let x = ph.last();
        let k = find_name(r, x.0);
        if k >= 0 {
            r.update(k, (x.0, r[k].1 + x.1, r[k].2 + 1))
        } else {
            r.push((x.0, x.1 as int, 1int))
        }
    }
}

pub open spec fn distinct_names(r: Seq<(Seq<char>, int, int)>) -> bool {
    forall|i: int, j: int| 0 <= i < j < r.len() ==> (#[trigger] r[i]).0 != (#[trigger] r[j]).0
}

proof fn lemma_find_name(r: Seq<(Seq<char>, int, int)>, name: Seq<char>)
    requires
        distinct_names(r),
    ensures
        -1 <= find_name(r, name) < r.len(),
        find_name(r, name) >= 0 ==> r[find_name(r, name)].0 == name,
        find_name(r, name) < 0 ==> forall|k: int| 0 <= k < r.len() ==> (#[trigger] r[k]).0 != name,
        forall|k: int| 0 <= k < r.len() && (#[trigger] r[k]).0 == name ==> find_name(r, name) == k,
    decreases r.len(),
{
    if r.len() > 0 {
        let d = r.drop_last();
        assert(distinct_names(d)) by {
            assert forall|i: int, j: int| 0 <= i < j < d.len() implies (#[trigger] d[i]).0 != (#[trigger] d[j]).0 by {
                assert(d[i] == r[i] && d[j] == r[j]);
            }
        }
        lemma_find_name(d, name);
        assert forall|k: int| 0 <= k < r.len() && (#[trigger] r[k]).0 == name implies find_name(r, name) == k by {
            if k < r.len() - 1 {
                assert(d[k] == r[k]);
                if r.last().0 == name {
                    assert(r[k].0 != r[r.len() - 1].0);
                }
            }
        }
        if find_name(r, name) < 0 {
            assert forall|k: int| 0 <= k < r.len() implies (#[trigger] r[k]).0 != name by {
                if k < r.len() - 1 {
                    assert(d[k] == r[k]);
                }
            }
        }
        if find_name(r, name) >= 0 && r.last().0 != name {
            assert(d[find_name(d, name)] == r[find_name(d, name)]);
        }
    }
}

pub open spec fn entry_views(v: Seq<(String, u64, usize)>) -> Seq<(Seq<char>, int, int)> {
    v.map_values(|e: (String, u64, usize)| (e.0@, e.1 as int, e.2 as int))
}

/// Sums a profile's phases by name, in the order each name first appears.
pub fn aggregate_phases(phases: &Vec<PhaseCostDto>) -> (r: Vec<(String, u64, usize)>)
    requires
        total(phase_views(phases@)) <= u64::MAX,
    ensures
        entry_views(r@) == aggregate(phase_views(phases@)),
{
    let ghost pv = phase_views(phases@);
    let mut out: Vec<(String, u64, usize)> = Vec::new();
    let mut i: usize = 0;
    proof {
        assert(pv.take(0) =~= Seq::<(Seq<char>, u64)>::empty());
        assert(entry_views(out@) =~= Seq::<(Seq<char>, int, int)>::empty());
        lemma_total_prefix(pv, 0);
    }
    while i < phases.len()
        invariant
            i <= phases@.len(),
            pv == phase_views(phases@),
            pv.len() == phases@.len(),
            total(pv) <= u64::MAX,
            entry_views(out@) == aggregate(pv.take(i as int)),
            distinct_names(aggregate(pv.take(i as int))),
            forall|k: int| 0 <= k < out@.len() ==> (#[trigger] entry_views(out@)[k]).1 <= total(pv.take(i as int))
                && entry_views(out@)[k].2 <= i,
            total(pv.take(i as int)) <= total(pv),
        decreases phases@.len() - i,
    {
        let ghost ev = entry_views(out@);
        let name = &phases[i].name;
        let x = phases[i].instructions;
        assert(pv[i as int] == (name@, x));
        let ghost t = pv.take(i + 1);
        assert(t.drop_last() =~= pv.take(i as int));
        assert(t.last() == (name@, x));
        proof {
            lemma_total_prefix(pv, i + 1);
            lemma_total_prefix(pv, i as int);
            lemma_find_name(ev, name@);
            assert(total(t) == total(pv.take(i as int)) + x);
        }
        let mut k: usize = 0;
        while k < out.len() && !str_eq(out[k].0.as_str(), name.as_str())
            invariant
                k <= out@.len(),
                ev == entry_views(out@),
                ev.len() == out@.len(),
                forall|q: int| 0 <= q < out@.len() ==> (#[trigger] ev[q]).0 == out@[q].0@,
                forall|q: int| 0 <= q < k ==> (#[trigger] ev[q]).0 != name@,
            decreases out@.len() - k,
        {
            k = k + 1;
        }
        if k < out.len() {
            assert(ev[k as int].0 == name@);
            assert(ev[k as int] == (out@[k as int].0@, out@[k as int].1 as int, out@[k as int].2 as int));
            assert(find_name(ev, name@) == k);
            let entry = (out[k].0.clone(), out[k].1 + x, out[k].2 + 1);
            out.set(k, entry);
            proof {
                assert(entry_views(out@) =~= ev.update(k as int, (name@, ev[k as int].1 + x, ev[k as int].2 + 1)));
            }
        } else {
            assert(find_name(ev, name@) < 0);
            out.push((name.clone(), x, 1));
            proof {
                assert(entry_views(out@) =~= ev.push((name@, x as int, 1int)));
            }
        }
        proof {
            let agg = aggregate(t);
            assert(agg == entry_views(out@));
            assert(distinct_names(agg)) by {
                assert forall|p: int, q: int| 0 <= p < q < agg.len() implies (#[trigger] agg[p]).0 != (#[trigger] agg[q]).0 by {
                    if q == ev.len() {
                        assert(agg[p] == ev[p]);
                    } else {
                        assert(agg[p].0 == ev[p].0 && agg[q].0 == ev[q].0);
                    }
                }
            }
            assert forall|j: int| 0 <= j < out@.len() implies (#[trigger] entry_views(out@)[j]).1 <= total(t)
                && entry_views(out@)[j].2 <= i + 1 by {
                if j < ev.len() {
                    assert(ev[j].1 <= total(pv.take(i as int)) && ev[j].2 <= i);
                }
            }
        }
        i = i + 1;
    }
    assert(pv.take(phases@.len() as int) =~= pv);
    out
}

proof fn lemma_total_prefix(pv: Seq<(Seq<char>, u64)>, k: int)
    requires
        0 <= k <= pv.len(),
    ensures
        0 <= total(pv.take(k)) <= total(pv),
    decreases pv.len() - k,
{
    if k < pv.len() {
        lemma_total_prefix(pv, k + 1);
        assert(pv.take(k + 1).drop_last() =~= pv.take(k));
    } else {
        assert(pv.take(k) =~= pv);
    }
    lemma_total_nonneg(pv.take(k));
}

proof fn lemma_total_nonneg(pv: Seq<(Seq<char>, u64)>)
    ensures
        0 <= total(pv),
    decreases pv.len(),
{
    if pv.len() > 0 {
        lemma_total_nonneg(pv.drop_last());
    }
}

/// The sum of the entries' totals.
pub open spec fn entries_total(r: Seq<(Seq<char>, int, int)>) -> int
    decreases r.len(),
{
    if r.len() == 0 { 0 } else { entries_total(r.drop_last()) + r.last().1 }
}

proof fn lemma_entries_total_update(r: Seq<(Seq<char>, int, int)>, k: int, e: (Seq<char>, int, int))
    requires
        0 <= k < r.len(),
    ensures
        entries_total(r.update(k, e)) == entries_total(r) - r[k].1 + e.1,
    decreases r.len(),
{
    let u = r.update(k, e);
    if k < r.len() - 1 {
        assert(u.drop_last() =~= r.drop_last().update(k, e));
        lemma_entries_total_update(r.drop_last(), k, e);
    } else {
        assert(u.drop_last() =~= r.drop_last());
    }
}

/// Summing by name loses no instruction: the totals of the aggregated
/// entries add up to the total of all phases.
pub proof fn law_aggregate_keeps_total(ph: Seq<(Seq<char>, u64)>)
    ensures
        entries_total(aggregate(ph)) == total(ph),
    decreases ph.len(),
{
    if ph.len() > 0 {
        let d = ph.drop_last();
        law_aggregate_keeps_total(d);
        let r = aggregate(d);
        let x = ph.last();
        let k = find_name(r, x.0);
        lemma_find_name_range(r, x.0);
        if k >= 0 {
            lemma_entries_total_update(r, k, (x.0, r[k].1 + x.1, r[k].2 + 1));
        } else {
            assert(r.push((x.0, x.1 as int, 1int)).drop_last() =~= r);
        }
    }
}

proof fn lemma_find_name_range(r: Seq<(Seq<char>, int, int)>, name: Seq<char>)
    ensures
        -1 <= find_name(r, name) < r.len(),
    decreases r.len(),
{
    if r.len() > 0 {
        lemma_find_name_range(r.drop_last(), name);
    }
}

} // verus!
