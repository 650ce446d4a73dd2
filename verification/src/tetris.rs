//! Tetris placement queries: the seven pieces, legal resting placements reached
//! by rotating and moving a piece from its spawn pose, the board after a piece
//! lands, and a small diverse set of candidates to ask the engine about.
use vstd::prelude::*;
use vstd::set_lib::{lemma_int_range, lemma_len_subset, set_int_range};
use vstd::string::StringExecFns;
use crate::batch::OptionSpec;
use crate::text::{
    all_digits, chars_of, decimal, decimal_bytes, digits_value, is_digit, lemma_decimal_ascii, lemma_digits_grow,
    parse_usize, unsigned_part,
};
use crate::types::{ascii_chars, ascii_string};

verus! {

/// The cells of a piece's spawn orientation.
pub open spec fn base_cells(piece: u8) -> Seq<(int, int)> {
    if piece == 0 {
        seq![(0, 0), (1, 0), (2, 0), (3, 0)]
    } else if piece == 1 {
        seq![(0, 0), (1, 0), (0, 1), (1, 1)]
    } else if piece == 2 {
        seq![(0, 0), (1, 0), (2, 0), (1, 1)]
    } else if piece == 3 {
        seq![(1, 0), (2, 0), (0, 1), (1, 1)]
    } else if piece == 4 {
        seq![(0, 0), (1, 0), (1, 1), (2, 1)]
    } else if piece == 5 {
        seq![(0, 0), (0, 1), (1, 1), (2, 1)]
    } else {
        seq![(2, 0), (0, 1), (1, 1), (2, 1)]
    }
}

/// A quarter turn clockwise in screen coordinates: `(x, y) -> (-y, x)`.
pub open spec fn rotate(s: Seq<(int, int)>) -> Seq<(int, int)> {
    s.map_values(|c: (int, int)| (-c.1, c.0))
}

pub open spec fn min_x(s: Seq<(int, int)>) -> int
    decreases s.len(),
{
    if s.len() == 0 {
        0
    } else if s.len() == 1 {
        s[0].0
    } else {
        let m = min_x(s.drop_last());
        if s.last().0 < m { s.last().0 } else { m }
    }
}

pub open spec fn min_y(s: Seq<(int, int)>) -> int
    decreases s.len(),
{
    if s.len() == 0 {
        0
    } else if s.len() == 1 {
        s[0].1
    } else {
        let m = min_y(s.drop_last());
        if s.last().1 < m { s.last().1 } else { m }
    }
}

/// `a` comes before `b`: by x, then by y.
pub open spec fn cell_lt(a: (int, int), b: (int, int)) -> bool {
    a.0 < b.0 || (a.0 == b.0 && a.1 < b.1)
}

pub open spec fn insert_sorted(s: Seq<(int, int)>, c: (int, int)) -> Seq<(int, int)>
    decreases s.len(),
{
    if s.len() == 0 {
        seq![c]
    } else if cell_lt(s.last(), c) || s.last() == c {
        s.push(c)
    } else {
        insert_sorted(s.drop_last(), c).push(s.last())
    }
}

pub open spec fn sorted_cells(s: Seq<(int, int)>) -> Seq<(int, int)>
    decreases s.len(),
{
    if s.len() == 0 {
        s
    } else {
        insert_sorted(sorted_cells(s.drop_last()), s.last())
    }
}

/// The normal form of a set of cells: moved to the origin and sorted.
pub open spec fn normal(s: Seq<(int, int)>) -> Seq<(int, int)> {
    sorted_cells(s.map_values(|c: (int, int)| (c.0 - min_x(s), c.1 - min_y(s))))
}

/// The normal forms of the piece after 0, 1, 2 and 3 quarter turns.
pub open spec fn rotations(piece: u8) -> Seq<Seq<(int, int)>> {
    let n0 = normal(base_cells(piece));
    let n1 = normal(rotate(n0));
    let n2 = normal(rotate(n1));
    let n3 = normal(rotate(n2));
    seq![n0, n1, n2, n3]
}

/// The sequence without repeats, keeping first occurrences.
pub open spec fn first_occurrences(s: Seq<Seq<(int, int)>>) -> Seq<Seq<(int, int)>>
    decreases s.len(),
{
    if s.len() == 0 {
        s
    } else {
        let rest = first_occurrences(s.drop_last());
        if rest.contains(s.last()) { rest } else { rest.push(s.last()) }
    }
}


pub open spec fn cells_view(v: Seq<(i8, i8)>) -> Seq<(int, int)> {
    v.map_values(|c: (i8, i8)| (c.0 as int, c.1 as int))
}

/// Every cell lies in the box `[lx, lx + 3] × [ly, ly + 3]`.
pub open spec fn in_box(s: Seq<(int, int)>, lx: int, ly: int) -> bool {
    forall|i: int| 0 <= i < s.len() ==> lx <= #[trigger] s[i].0 <= lx + 3 && ly <= s[i].1 <= ly + 3
}

proof fn lemma_min_x_bounds(s: Seq<(int, int)>, lx: int)
    requires
        s.len() > 0,
        forall|i: int| 0 <= i < s.len() ==> lx <= #[trigger] s[i].0,
    ensures
        lx <= min_x(s),
        forall|i: int| 0 <= i < s.len() ==> min_x(s) <= #[trigger] s[i].0,
    decreases s.len(),
{
    if s.len() > 1 {
        lemma_min_x_bounds(s.drop_last(), lx);
        assert forall|i: int| 0 <= i < s.len() implies min_x(s) <= #[trigger] s[i].0 by {
            if i < s.len() - 1 {
                assert(s.drop_last()[i] == s[i]);
            }
        }
    }
}

proof fn lemma_min_y_bounds(s: Seq<(int, int)>, ly: int)
    requires
        s.len() > 0,
        forall|i: int| 0 <= i < s.len() ==> ly <= #[trigger] s[i].1,
    ensures
        ly <= min_y(s),
        forall|i: int| 0 <= i < s.len() ==> min_y(s) <= #[trigger] s[i].1,
    decreases s.len(),
{
    if s.len() > 1 {
        lemma_min_y_bounds(s.drop_last(), ly);
        assert forall|i: int| 0 <= i < s.len() implies min_y(s) <= #[trigger] s[i].1 by {
            if i < s.len() - 1 {
                assert(s.drop_last()[i] == s[i]);
            }
        }
    }
}

proof fn lemma_insert_len(s: Seq<(int, int)>, c: (int, int))
    ensures
        insert_sorted(s, c).len() == s.len() + 1,
        forall|i: int| 0 <= i < insert_sorted(s, c).len() ==> (#[trigger] insert_sorted(s, c)[i] == c || s.contains(insert_sorted(s, c)[i])),
    decreases s.len(),
{
    if s.len() > 0 && !(cell_lt(s.last(), c) || s.last() == c) {
        lemma_insert_len(s.drop_last(), c);
        let r = insert_sorted(s, c);
        assert forall|i: int| 0 <= i < r.len() implies (#[trigger] r[i] == c || s.contains(r[i])) by {
            if i < r.len() - 1 {
                let x = insert_sorted(s.drop_last(), c)[i];
                if x != c {
                    let k = choose|k: int| 0 <= k < s.drop_last().len() && s.drop_last()[k] == x;
                    assert(s[k] == x);
                }
            } else {
                assert(s[s.len() - 1] == s.last());
            }
        }
    } else if s.len() > 0 {
        let r = insert_sorted(s, c);
        assert forall|i: int| 0 <= i < r.len() implies (#[trigger] r[i] == c || s.contains(r[i])) by {
            if i < s.len() {
                assert(s[i] == r[i]);
            }
        }
    }
}

proof fn lemma_sorted_len(s: Seq<(int, int)>)
    ensures
        sorted_cells(s).len() == s.len(),
        forall|i: int| 0 <= i < s.len() ==> s.contains(#[trigger] sorted_cells(s)[i]),
    decreases s.len(),
{
    if s.len() > 0 {
        lemma_sorted_len(s.drop_last());
        lemma_insert_len(sorted_cells(s.drop_last()), s.last());
        let r = sorted_cells(s);
        assert forall|i: int| 0 <= i < s.len() implies s.contains(#[trigger] r[i]) by {
            if r[i] == s.last() {
                assert(s[s.len() - 1] == s.last());
            } else {
                let x = r[i];
                let k = choose|k: int| 0 <= k < sorted_cells(s.drop_last()).len() && sorted_cells(s.drop_last())[k] == x;
                assert(s.drop_last().contains(x));
                let k2 = choose|k2: int| 0 <= k2 < s.drop_last().len() && s.drop_last()[k2] == x;
                assert(s[k2] == x);
            }
        }
    }
}

/// Inserts `c` into `out` as `insert_sorted` does, scanning from the end.
fn insert_cell(out: &mut Vec<(i8, i8)>, c: (i8, i8))
    ensures
        cells_view(final(out)@) == insert_sorted(cells_view(old(out)@), (c.0 as int, c.1 as int)),
{
    let ghost cc = (c.0 as int, c.1 as int);
    let ghost target = insert_sorted(cells_view(out@), cc);
    let mut tail: Vec<(i8, i8)> = Vec::new();
    let mut done = false;
    while !done
        invariant
            target == insert_sorted(cells_view(out@), cc) + cells_view(tail@).reverse(),
            cc == (c.0 as int, c.1 as int),
            done ==> (out@.len() == 0 || cell_lt(cells_view(out@).last(), cc) || cells_view(out@).last() == cc),
        decreases out@.len() + if done { 0int } else { 1int },
    {
        if out.len() == 0 {
            done = true;
        } else {
            let last = out[out.len() - 1];
            let ghost before_out = cells_view(out@);
            proof {
                assert(before_out.last() == (last.0 as int, last.1 as int));
            }
            if last.0 < c.0 || (last.0 == c.0 && last.1 < c.1) || (last.0 == c.0 && last.1 == c.1) {
                done = true;
            } else {
                let ghost before_tail = cells_view(tail@);
                let x = out.pop().unwrap();
                tail.push(x);
                proof {
                    assert(cells_view(out@) =~= before_out.drop_last());
                    assert(cells_view(tail@) =~= before_tail.push(before_out.last()));
                    assert(cells_view(tail@).reverse() =~= seq![before_out.last()] + before_tail.reverse());
                    assert(!cell_lt(before_out.last(), cc) && before_out.last() != cc);
                    assert(insert_sorted(before_out, cc) == insert_sorted(before_out.drop_last(), cc).push(before_out.last()));
                    assert(insert_sorted(before_out.drop_last(), cc).push(before_out.last()) + before_tail.reverse()
                        =~= insert_sorted(before_out.drop_last(), cc) + (seq![before_out.last()] + before_tail.reverse()));
                }
            }
        }
    }
    let ghost mid = cells_view(out@);
    out.push(c);
    proof {
        assert(cells_view(out@) =~= mid.push(cc));
        assert(insert_sorted(mid, cc) == mid.push(cc));
    }
    let mut k: usize = tail.len();
    while k > 0
        invariant
            k <= tail@.len(),
            target == cells_view(out@) + cells_view(tail@.subrange(0, k as int)).reverse(),
        decreases k,
    {
        let ghost before = cells_view(out@);
        out.push(tail[k - 1]);
        proof {
            let t = cells_view(tail@.subrange(0, k as int));
            assert(cells_view(tail@.subrange(0, k - 1)) =~= t.drop_last());
            assert(t.reverse() =~= seq![t.last()] + t.drop_last().reverse());
            assert(cells_view(out@) =~= before.push(t.last()));
            assert(before + t.reverse() =~= before.push(t.last()) + t.drop_last().reverse());
        }
        k = k - 1;
    }
    proof {
        assert(cells_view(tail@.subrange(0, 0)).reverse() =~= Seq::<(int, int)>::empty());
        assert(cells_view(out@) + Seq::<(int, int)>::empty() =~= cells_view(out@));
    }
}

/// The normal form of `s`: moved to the origin and sorted.
fn normalize(s: &Vec<(i8, i8)>, Ghost(lx): Ghost<int>, Ghost(ly): Ghost<int>) -> (n: Vec<(i8, i8)>)
    requires
        s@.len() == 4,
        in_box(cells_view(s@), lx, ly),
        -3 <= lx <= 3 && -3 <= ly <= 3,
    ensures
        cells_view(n@) == normal(cells_view(s@)),
        n@.len() == 4,
        in_box(cells_view(n@), 0, 0),
{
    let ghost v = cells_view(s@);
    let mut mx = s[0].0;
    let mut my = s[0].1;
    let mut i: usize = 1;
    while i < s.len()
        invariant
            1 <= i <= s@.len(),
            s@.len() == 4,
            v == cells_view(s@),
            mx as int == min_x(v.take(i as int)),
            my as int == min_y(v.take(i as int)),
        decreases s@.len() - i,
    {
        proof {
            assert(v.take(i + 1).drop_last() =~= v.take(i as int));
            assert(v.take(i + 1).last() == v[i as int]);
        }
        if s[i].0 < mx {
            mx = s[i].0;
        }
        if s[i].1 < my {
            my = s[i].1;
        }
        i = i + 1;
    }
    proof {
        assert(v.take(4) =~= v);
        lemma_min_x_bounds(v, lx);
        lemma_min_y_bounds(v, ly);
    }
    let ghost shifted = v.map_values(|c: (int, int)| (c.0 - min_x(v), c.1 - min_y(v)));
    let mut out: Vec<(i8, i8)> = Vec::new();
    let mut k: usize = 0;
    while k < s.len()
        invariant
            k <= s@.len(),
            s@.len() == 4,
            v == cells_view(s@),
            in_box(v, lx, ly),
            mx as int == min_x(v) && my as int == min_y(v),
            forall|q: int| 0 <= q < v.len() ==> min_x(v) <= #[trigger] v[q].0 && min_y(v) <= v[q].1,
            lx <= min_x(v) && ly <= min_y(v),
            shifted == v.map_values(|c: (int, int)| (c.0 - min_x(v), c.1 - min_y(v))),
            cells_view(out@) == sorted_cells(shifted.take(k as int)),
        decreases s@.len() - k,
    {
        proof {
            assert(v[k as int] == (s@[k as int].0 as int, s@[k as int].1 as int));
            assert(lx <= v[k as int].0 <= lx + 3);
        }
        let c = ((s[k].0 - mx) as i8, (s[k].1 - my) as i8);
        proof {
            assert(shifted.take(k + 1).drop_last() =~= shifted.take(k as int));
            assert(shifted.take(k + 1).last() == shifted[k as int]);
            assert(shifted[k as int] == (c.0 as int, c.1 as int));
        }
        insert_cell(&mut out, c);
        k = k + 1;
    }
    proof {
        assert(shifted.take(4) =~= shifted);
        lemma_sorted_len(shifted);
        assert forall|q: int| 0 <= q < 4 implies 0 <= #[trigger] cells_view(out@)[q].0 <= 3 && 0 <= cells_view(out@)[q].1 <= 3 by {
            let x = sorted_cells(shifted)[q];
            assert(shifted.contains(x));
            let w = choose|w: int| 0 <= w < shifted.len() && shifted[w] == x;
            assert(v[w].0 <= lx + 3);
        }
    }
    out
}

fn base_vec(piece: u8) -> (v: Vec<(i8, i8)>)
    ensures
        cells_view(v@) == base_cells(piece),
        v@.len() == 4,
        in_box(cells_view(v@), 0, 0),
{
    let v = if piece == 0 {
        vec![(0i8, 0i8), (1, 0), (2, 0), (3, 0)]
    } else if piece == 1 {
        vec![(0i8, 0i8), (1, 0), (0, 1), (1, 1)]
    } else if piece == 2 {
        vec![(0i8, 0i8), (1, 0), (2, 0), (1, 1)]
    } else if piece == 3 {
        vec![(1i8, 0i8), (2, 0), (0, 1), (1, 1)]
    } else if piece == 4 {
        vec![(0i8, 0i8), (1, 0), (1, 1), (2, 1)]
    } else if piece == 5 {
        vec![(0i8, 0i8), (0, 1), (1, 1), (2, 1)]
    } else {
        vec![(2i8, 0i8), (0, 1), (1, 1), (2, 1)]
    };
    assert(cells_view(v@) =~= base_cells(piece));
    v
}

fn rotate_vec(s: &Vec<(i8, i8)>) -> (r: Vec<(i8, i8)>)
    requires
        s@.len() == 4,
        in_box(cells_view(s@), 0, 0),
    ensures
        cells_view(r@) == rotate(cells_view(s@)),
        r@.len() == 4,
        in_box(cells_view(r@), -3, 0),
{
    let mut r: Vec<(i8, i8)> = Vec::new();
    let mut i: usize = 0;
    while i < s.len()
        invariant
            i <= s@.len(),
            s@.len() == 4,
            in_box(cells_view(s@), 0, 0),
            cells_view(r@) == rotate(cells_view(s@)).take(i as int),
        decreases s@.len() - i,
    {
        let c = s[i];
        proof {
            assert(cells_view(s@)[i as int] == (c.0 as int, c.1 as int));
            assert(0 <= cells_view(s@)[i as int].1 <= 3);
        }
        let ghost before = cells_view(r@);
        r.push((-c.1, c.0));
        proof {
            assert(rotate(cells_view(s@))[i as int] == (-(c.1 as int), c.0 as int));
            assert(cells_view(r@) =~= before.push((-(c.1 as int), c.0 as int)));
            assert(rotate(cells_view(s@)).take(i + 1) =~= rotate(cells_view(s@)).take(i as int).push(rotate(cells_view(s@))[i as int]));
        }
        i = i + 1;
    }
    assert(rotate(cells_view(s@)).take(4) =~= rotate(cells_view(s@)));
    r
}

fn same_cells(a: &Vec<(i8, i8)>, b: &Vec<(i8, i8)>) -> (r: bool)
    ensures
        r == (cells_view(a@) == cells_view(b@)),
{
    if a.len() != b.len() {
        proof {
            assert(cells_view(a@).len() != cells_view(b@).len());
        }
        return false;
    }
    let mut i: usize = 0;
    while i < a.len()
        invariant
            i <= a@.len(),
            a@.len() == b@.len(),
            forall|k: int| 0 <= k < i ==> #[trigger] cells_view(a@)[k] == cells_view(b@)[k],
        decreases a@.len() - i,
    {
        if a[i].0 != b[i].0 || a[i].1 != b[i].1 {
            assert(cells_view(a@)[i as int] != cells_view(b@)[i as int]);
            return false;
        }
        i = i + 1;
    }
    assert(cells_view(a@) =~= cells_view(b@));
    true
}

fn copy_cells(s: &Vec<(i8, i8)>) -> (c: Vec<(i8, i8)>)
    ensures
        c@ == s@,
{
    let mut c: Vec<(i8, i8)> = Vec::new();
    let mut i: usize = 0;
    while i < s.len()
        invariant
            i <= s@.len(),
            c@ == s@.take(i as int),
        decreases s@.len() - i,
    {
        c.push(s[i]);
        assert(s@.take(i + 1) =~= s@.take(i as int).push(s@[i as int]));
        i = i + 1;
    }
    assert(s@.take(s@.len() as int) =~= s@);
    c
}

pub open spec fn shapes_view(v: Seq<Vec<(i8, i8)>>) -> Seq<Seq<(int, int)>> {
    v.map_values(|s: Vec<(i8, i8)>| cells_view(s@))
}

/// The distinct orientations of a piece, each moved to the origin and sorted,
/// in the order quarter turns first reach them.
pub fn shapes(piece: u8) -> (r: Vec<Vec<(i8, i8)>>)
    ensures
        shapes_view(r@) == first_occurrences(rotations(piece)),
        1 <= r@.len() <= 4,
        forall|k: int| 0 <= k < r@.len() ==> (#[trigger] r@[k])@.len() == 4 && in_box(cells_view(r@[k]@), 0, 0),
{
    let base = base_vec(piece);
    let mut s = normalize(&base, Ghost(0), Ghost(0));
    let ghost rots = rotations(piece);
    let mut result: Vec<Vec<(i8, i8)>> = Vec::new();
    let mut turn: usize = 0;
    while turn < 4
        invariant
            turn <= 4,
            rots == rotations(piece),
            turn < 4 ==> cells_view(s@) == rots[turn as int],
            s@.len() == 4,
            in_box(cells_view(s@), 0, 0),
            shapes_view(result@) == first_occurrences(rots.take(turn as int)),
            result@.len() <= turn,
            turn > 0 ==> result@.len() >= 1,
            forall|k: int| 0 <= k < result@.len() ==> (#[trigger] result@[k])@.len() == 4 && in_box(cells_view(result@[k]@), 0, 0),
        decreases 4 - turn,
    {
        let mut seen = false;
        let mut k: usize = 0;
        while k < result.len()
            invariant
                k <= result@.len(),
                seen == exists|q: int| 0 <= q < k && #[trigger] cells_view(result@[q]@) == cells_view(s@),
            decreases result@.len() - k,
        {
            if same_cells(&result[k], &s) {
                seen = true;
            }
            k = k + 1;
        }
        proof {
            let sv = shapes_view(result@);
            assert(rots.take(turn + 1).drop_last() =~= rots.take(turn as int));
            assert(rots.take(turn + 1).last() == rots[turn as int]);
            if seen {
                let q = choose|q: int| 0 <= q < result@.len() && #[trigger] cells_view(result@[q]@) == cells_view(s@);
                assert(sv[q] == cells_view(s@));
                assert(sv.contains(rots[turn as int]));
            } else {
                assert forall|q: int| 0 <= q < sv.len() implies sv[q] != rots[turn as int] by {
                    assert(sv[q] == cells_view(result@[q]@));
                }
            }
        }
        if !seen {
            let ghost before = result@;
            result.push(copy_cells(&s));
            proof {
                assert(shapes_view(result@) =~= shapes_view(before).push(cells_view(s@)));
            }
        }
        let rotated = rotate_vec(&s);
        s = normalize(&rotated, Ghost(-3), Ghost(0));
        turn = turn + 1;
    }
    proof {
        assert(rotations(piece).take(4) =~= rotations(piece));
    }
    result
}


pub const BOARD_WIDTH: usize = 10;
pub const BOARD_HEIGHT: usize = 20;
pub const BOARD_CELLS: usize = 200;

/// A piece's pose: its orientation index and the offset of its cells.
#[derive(Clone, Copy, Debug, PartialEq, Eq, Structural, PartialOrd, Ord)]
pub struct Pose {
    pub r: u8,
    pub x: i8,
    pub y: i8,
}

/// A resting placement with its landing features and the moves reaching it.
#[derive(Clone, Debug)]
pub struct Candidate {
    pub pose: Pose,
    pub cells: Vec<(i8, i8)>,
    pub holes: u16,
    pub height: u8,
    pub lines: u8,
    pub evaluation: i32,
    pub path: Vec<Pose>,
}

/// The cells of orientation `p.r` moved by `(p.x, p.y)`.
pub open spec fn placed(sv: Seq<Seq<(int, int)>>, p: Pose) -> Seq<(int, int)> {
    sv[p.r as int].map_values(|c: (int, int)| (c.0 + p.x, c.1 + p.y))
}

pub open spec fn on_board(c: (int, int)) -> bool {
    0 <= c.0 < 10 && 0 <= c.1 < 20
}

/// Every cell is on the board and empty.
pub open spec fn fits_cells(board: Seq<u8>, cs: Seq<(int, int)>) -> bool {
    forall|i: int| 0 <= i < cs.len() ==> on_board(#[trigger] cs[i]) && board[cs[i].1 * 10 + cs[i].0] == 0
}

pub open spec fn shapes_ok(sv: Seq<Seq<(int, int)>>) -> bool {
    &&& 1 <= sv.len() <= 4
    &&& forall|k: int| 0 <= k < sv.len() ==> (#[trigger] sv[k]).len() == 4 && in_box(sv[k], 0, 0)
}

/// The cells of a pose.
pub fn cells(s: &Vec<Vec<(i8, i8)>>, p: &Pose) -> (r: Vec<(i8, i8)>)
    requires
        shapes_ok(shapes_view(s@)),
        (p.r as int) < s@.len(),
        -100 <= p.x <= 100 && -100 <= p.y <= 100,
    ensures
        cells_view(r@) == placed(shapes_view(s@), *p),
        r@.len() == 4,
{
    let shape = &s[p.r as usize];
    let ghost sv = shapes_view(s@);
    proof {
        assert(sv[p.r as int] == cells_view(shape@));
    }
    let mut r: Vec<(i8, i8)> = Vec::new();
    let mut i: usize = 0;
    while i < shape.len()
        invariant
            i <= shape@.len(),
            shape@.len() == 4,
            in_box(cells_view(shape@), 0, 0),
            -100 <= p.x <= 100 && -100 <= p.y <= 100,
            cells_view(r@) == cells_view(shape@).map_values(|c: (int, int)| (c.0 + p.x, c.1 + p.y)).take(i as int),
        decreases shape@.len() - i,
    {
        let c = shape[i];
        proof {
            assert(cells_view(shape@)[i as int] == (c.0 as int, c.1 as int));
        }
        let ghost before = cells_view(r@);
        r.push((c.0 + p.x, c.1 + p.y));
        proof {
            let m = cells_view(shape@).map_values(|c: (int, int)| (c.0 + p.x, c.1 + p.y));
            assert(cells_view(r@) =~= before.push(m[i as int]));
            assert(m.take(i + 1) =~= m.take(i as int).push(m[i as int]));
        }
        i = i + 1;
    }
    proof {
        let m = cells_view(shape@).map_values(|c: (int, int)| (c.0 + p.x, c.1 + p.y));
        assert(m.take(4) =~= m);
    }
    r
}

/// Whether the pose's cells are all on the board and empty.
pub fn fits(board: &[u8], s: &Vec<Vec<(i8, i8)>>, p: &Pose) -> (r: bool)
    requires
        board@.len() == BOARD_CELLS,
        shapes_ok(shapes_view(s@)),
        (p.r as int) < s@.len(),
        -100 <= p.x <= 100 && -100 <= p.y <= 100,
    ensures
        r == fits_cells(board@, placed(shapes_view(s@), *p)),
{
    let cs = cells(s, p);
    let ghost pc = placed(shapes_view(s@), *p);
    let mut i: usize = 0;
    while i < cs.len()
        invariant
            i <= cs@.len(),
            board@.len() == BOARD_CELLS,
            cells_view(cs@) == pc,
            pc == placed(shapes_view(s@), *p),
            forall|k: int| 0 <= k < i ==> on_board(#[trigger] pc[k]) && board@[pc[k].1 * 10 + pc[k].0] == 0,
        decreases cs@.len() - i,
    {
        let (x, y) = cs[i];
        proof {
            assert(pc[i as int] == (x as int, y as int));
        }
        if x < 0 || x >= 10 || y < 0 || y >= 20 {
            assert(!on_board(pc[i as int]));
            return false;
        }
        if board[(y as usize) * 10 + (x as usize)] != 0 {
            assert(board@[pc[i as int].1 * 10 + pc[i as int].0] != 0);
            return false;
        }
        i = i + 1;
    }
    true
}

/// The board with the cells marked by piece number `piece + 1`.
pub open spec fn marked(board: Seq<u8>, piece: u8, cs: Seq<(int, int)>) -> Seq<u8>
    decreases cs.len(),
{
    if cs.len() == 0 {
        board
    } else {
        marked(board, piece, cs.drop_last()).update(cs.last().1 * 10 + cs.last().0, (piece + 1) as u8)
    }
}

pub open spec fn row(b: Seq<u8>, y: int) -> Seq<u8> {
    b.subrange(y * 10, y * 10 + 10)
}

/// The rows among the first `n` that still have an empty cell, in order.
pub open spec fn kept_rows(b: Seq<u8>, n: int) -> Seq<u8>
    decreases n,
{
    if n <= 0 {
        Seq::empty()
    } else if row(b, n - 1).contains(0u8) {
        kept_rows(b, n - 1) + row(b, n - 1)
    } else {
        kept_rows(b, n - 1)
    }
}

/// The board after the piece lands: full rows removed and empty rows added on top.
pub open spec fn landed_board(board: Seq<u8>, piece: u8, cs: Seq<(int, int)>) -> Seq<u8> {
    let kept = kept_rows(marked(board, piece, cs), 20);
    Seq::new((200 - kept.len()) as nat, |i: int| 0u8) + kept
}

/// The number of rows the piece completes.
pub open spec fn landed_lines(board: Seq<u8>, piece: u8, cs: Seq<(int, int)>) -> int {
    (200 - kept_rows(marked(board, piece, cs), 20).len()) / 10
}

proof fn lemma_kept_len(b: Seq<u8>, n: int)
    requires
        0 <= n <= 20,
        b.len() == 200,
    ensures
        kept_rows(b, n).len() <= n * 10,
        kept_rows(b, n).len() % 10 == 0,
    decreases n,
{
    if n > 0 {
        lemma_kept_len(b, n - 1);
    }
}

/// The board after `piece` lands on `cs`, and the number of rows it cleared.
pub fn landed(board: &[u8], piece: u8, cs: &[(i8, i8)]) -> (r: (Vec<u8>, u8))
    requires
        board@.len() == BOARD_CELLS,
        piece < 255,
        forall|i: int| 0 <= i < cs@.len() ==> on_board(#[trigger] cells_view(cs@)[i]),
    ensures
        r.0@ == landed_board(board@, piece, cells_view(cs@)),
        r.1 == landed_lines(board@, piece, cells_view(cs@)),
        r.0@.len() == BOARD_CELLS,
{
    let ghost cv = cells_view(cs@);
    let mut b: Vec<u8> = Vec::new();
    let mut i: usize = 0;
    while i < board.len()
        invariant
            i <= board@.len(),
            b@ == board@.take(i as int),
        decreases board@.len() - i,
    {
        b.push(board[i]);
        assert(board@.take(i + 1) =~= board@.take(i as int).push(board@[i as int]));
        i = i + 1;
    }
    assert(board@.take(200) =~= board@);
    let mut k: usize = 0;
    while k < cs.len()
        invariant
            k <= cs@.len(),
            b@.len() == 200,
            cv == cells_view(cs@),
            piece < 255,
            forall|i: int| 0 <= i < cs@.len() ==> on_board(#[trigger] cv[i]),
            b@ == marked(board@, piece, cv.take(k as int)),
        decreases cs@.len() - k,
    {
        let (x, y) = cs[k];
        proof {
            assert(cv[k as int] == (x as int, y as int));
            assert(on_board(cv[k as int]));
            assert(cv.take(k + 1).drop_last() =~= cv.take(k as int));
            assert(cv.take(k + 1).last() == cv[k as int]);
        }
        b.set((y as usize) * 10 + (x as usize), piece + 1);
        k = k + 1;
    }
    assert(cv.take(cs@.len() as int) =~= cv);
    let ghost mb = b@;
    let mut kept: Vec<u8> = Vec::new();
    let mut y: usize = 0;
    while y < 20
        invariant
            y <= 20,
            b@ == mb,
            mb.len() == 200,
            kept@ == kept_rows(mb, y as int),
        decreases 20 - y,
    {
        let mut has_empty = false;
        let mut x: usize = 0;
        while x < 10
            invariant
                x <= 10,
                y < 20,
                b@ == mb,
                mb.len() == 200,
                has_empty == row(mb, y as int).take(x as int).contains(0u8),
            decreases 10 - x,
        {
            let ghost rw = row(mb, y as int);
            proof {
                assert(rw[x as int] == mb[y * 10 + x]);
                assert(rw.take(x + 1) =~= rw.take(x as int).push(rw[x as int]));
            }
            if b[y * 10 + x] == 0 {
                has_empty = true;
                proof {
                    assert(rw.take(x + 1)[x as int] == 0u8);
                }
            } else {
                proof {
                    if has_empty {
                        let k = choose|k: int| 0 <= k < rw.take(x as int).len() && rw.take(x as int)[k] == 0u8;
                        assert(rw.take(x + 1)[k] == 0u8);
                    } else {
                        let t = rw.take(x + 1);
                        assert forall|k: int| 0 <= k < t.len() implies #[trigger] t[k] != 0u8 by {
                            if k < x {
                                assert(t[k] == rw.take(x as int)[k]);
                            }
                        }
                    }
                }
            }
            x = x + 1;
        }
        proof {
            assert(row(mb, y as int).take(10) =~= row(mb, y as int));
        }
        if has_empty {
            let mut x: usize = 0;
            let ghost start = kept@;
            while x < 10
                invariant
                    x <= 10,
                    y < 20,
                    b@ == mb,
                    mb.len() == 200,
                    kept@ == start + row(mb, y as int).take(x as int),
                decreases 10 - x,
            {
                kept.push(b[y * 10 + x]);
                proof {
                    assert(row(mb, y as int)[x as int] == mb[y * 10 + x]);
                    assert(row(mb, y as int).take(x + 1) =~= row(mb, y as int).take(x as int).push(row(mb, y as int)[x as int]));
                }
                x = x + 1;
            }
            proof {
                assert(row(mb, y as int).take(10) =~= row(mb, y as int));
            }
        }
        y = y + 1;
    }
    proof {
        lemma_kept_len(mb, 20);
    }
    let cleared = 200 - kept.len();
    let mut after: Vec<u8> = Vec::new();
    let mut z: usize = 0;
    while z < cleared
        invariant
            z <= cleared,
            after@ == Seq::new(z as nat, |i: int| 0u8),
        decreases cleared - z,
    {
        after.push(0);
        assert(after@ =~= Seq::new((z + 1) as nat, |i: int| 0u8));
        z = z + 1;
    }
    let ghost zeros = after@;
    let mut q: usize = 0;
    while q < kept.len()
        invariant
            q <= kept@.len(),
            after@ == zeros + kept@.take(q as int),
        decreases kept@.len() - q,
    {
        after.push(kept[q]);
        assert(kept@.take(q + 1) =~= kept@.take(q as int).push(kept@[q as int]));
        q = q + 1;
    }
    assert(kept@.take(kept@.len() as int) =~= kept@);
    let lines = (cleared / 10) as u8;
    (after, lines)
}

/// Empty cells in column `x` among the first `n` rows that lie below a filled cell.
pub open spec fn col_holes(b: Seq<u8>, x: int, n: int) -> int
    decreases n,
{
    if n <= 0 {
        0
    } else {
        col_holes(b, x, n - 1) + if b[(n - 1) * 10 + x] == 0 && covered(b, x, n - 1) { 1int } else { 0int }
    }
}

/// Some cell above row `y` in column `x` is filled.
pub open spec fn covered(b: Seq<u8>, x: int, y: int) -> bool {
    exists|k: int| 0 <= k < y && #[trigger] filled(b, x, k)
}

pub open spec fn filled(b: Seq<u8>, x: int, y: int) -> bool {
    b[y * 10 + x] != 0
}

/// The column heights: 20 minus the topmost filled row of column `x` (0 when empty),
/// taken over the first `n` rows.
pub open spec fn col_height(b: Seq<u8>, x: int, n: int) -> int
    decreases n,
{
    if n <= 0 {
        0
    } else {
        let h = col_height(b, x, n - 1);
        if b[(n - 1) * 10 + x] != 0 && 20 - (n - 1) > h { 20 - (n - 1) } else { h }
    }
}

pub open spec fn holes_upto(b: Seq<u8>, cols: int) -> int
    decreases cols,
{
    if cols <= 0 { 0 } else { holes_upto(b, cols - 1) + col_holes(b, cols - 1, 20) }
}

pub open spec fn height_upto(b: Seq<u8>, cols: int) -> int
    decreases cols,
{
    if cols <= 0 {
        0
    } else {
        let h = height_upto(b, cols - 1);
        if col_height(b, cols - 1, 20) > h { col_height(b, cols - 1, 20) } else { h }
    }
}

proof fn lemma_col_bounds(b: Seq<u8>, x: int, n: int)
    requires
        0 <= n <= 20,
    ensures
        0 <= col_holes(b, x, n) <= n,
        0 <= col_height(b, x, n) <= 20,
    decreases n,
{
    if n > 0 {
        lemma_col_bounds(b, x, n - 1);
    }
}

proof fn lemma_upto_bounds(b: Seq<u8>, cols: int)
    requires
        0 <= cols <= 10,
    ensures
        0 <= holes_upto(b, cols) <= cols * 20,
        0 <= height_upto(b, cols) <= 20,
    decreases cols,
{
    if cols > 0 {
        lemma_upto_bounds(b, cols - 1);
        lemma_col_bounds(b, cols - 1, 20);
    }
}

/// The number of covered empty cells and the height of the stack.
pub fn features(b: &[u8]) -> (r: (u16, u8))
    requires
        b@.len() == BOARD_CELLS,
    ensures
        r.0 == holes_upto(b@, 10),
        r.1 == height_upto(b@, 10),
{
    let mut holes: u16 = 0;
    let mut height: u8 = 0;
    let mut x: usize = 0;
    while x < 10
        invariant
            x <= 10,
            b@.len() == BOARD_CELLS,
            holes == holes_upto(b@, x as int),
            height == height_upto(b@, x as int),
        decreases 10 - x,
    {
        proof {
            lemma_upto_bounds(b@, x as int);
        }
        let mut covered_now = false;
        let mut ch: u16 = 0;
        let mut hh: u8 = 0;
        let mut y: usize = 0;
        while y < 20
            invariant
                y <= 20,
                x < 10,
                b@.len() == BOARD_CELLS,
                covered_now == covered(b@, x as int, y as int),
                ch == col_holes(b@, x as int, y as int),
                hh == col_height(b@, x as int, y as int),
            decreases 20 - y,
        {
            proof {
                lemma_col_bounds(b@, x as int, y as int);
            }
            if b[y * 10 + x] != 0 {
                if 20 - (y as u8) > hh {
                    hh = 20 - (y as u8);
                }
                covered_now = true;
            } else if covered_now {
                ch = ch + 1;
            }
            proof {
                if b@[y * 10 + x] != 0 {
                    assert(filled(b@, x as int, y as int));
                    assert(covered(b@, x as int, y + 1));
                } else if covered(b@, x as int, y as int) {
                    let k = choose|k: int| 0 <= k < y && #[trigger] filled(b@, x as int, k);
                    assert(covered(b@, x as int, y + 1));
                } else {
                    assert forall|k: int| 0 <= k < y + 1 implies !#[trigger] filled(b@, x as int, k) by {
                        if k < y {
                            assert(!(0 <= k < y && filled(b@, x as int, k)));
                        }
                    }
                }
            }
            y = y + 1;
        }
        proof {
            lemma_col_bounds(b@, x as int, 20);
        }
        holes = holes + ch;
        if hh > height {
            height = hh;
        }
        x = x + 1;
    }
    (holes, height)
}


/// The number of slots a pose index can take: 4 orientations × 23 rows × 13 columns.
pub const POSE_SLOTS: usize = 1196;

/// A pose whose cells could lie on the board: every orientation's cells lie
/// in `[0, 3]²`, so x and y are at least -3.
pub open spec fn pose_in_grid(p: Pose) -> bool {
    p.r < 4 && -3 <= p.x < 10 && -3 <= p.y < 20
}

pub open spec fn pose_slot(p: Pose) -> int {
    p.r * 299 + (p.y + 3) * 13 + (p.x + 3)
}

pub open spec fn down(p: Pose) -> Pose {
    Pose { y: (p.y + 1) as i8, ..p }
}

/// `b` is one move from `a`: a quarter turn, a step left or right, or a drop.
pub open spec fn step(a: Pose, b: Pose, n: int) -> bool {
    ||| b == Pose { r: ((a.r + 1) % n) as u8, ..a }
    ||| b == Pose { x: (a.x - 1) as i8, ..a }
    ||| b == Pose { x: (a.x + 1) as i8, ..a }
    ||| b == down(a)
}

pub open spec fn max_x(s: Seq<(int, int)>) -> int
    decreases s.len(),
{
    if s.len() == 0 {
        0
    } else if s.len() == 1 {
        s[0].0
    } else {
        let m = max_x(s.drop_last());
        if s.last().0 > m { s.last().0 } else { m }
    }
}

/// The spawn pose: first orientation, centred, at the top.
pub open spec fn spawn(sv: Seq<Seq<(int, int)>>) -> Pose {
    Pose { r: 0, x: ((10 - (max_x(sv[0]) + 1)) / 2) as i8, y: 0 }
}

/// A sequence of fitting poses from `start` to `end`, one move apart.
pub open spec fn path_ok(board: Seq<u8>, sv: Seq<Seq<(int, int)>>, path: Seq<Pose>, start: Pose, end: Pose) -> bool {
    &&& path.len() >= 1 && path[0] == start && path.last() == end
    &&& forall|k: int| 0 <= k < path.len() ==> (#[trigger] path[k]).r < sv.len() && fits_cells(board, placed(sv, path[k]))
    &&& forall|k: int| 0 <= k < path.len() - 1 ==> step(#[trigger] path[k], path[k + 1], sv.len() as int)
}

/// A resting placement reachable from the spawn pose, with its landing result.
#[verifier::opaque]
pub open spec fn candidate_ok(board: Seq<u8>, piece: u8, sv: Seq<Seq<(int, int)>>, c: Candidate) -> bool {
    let cs = placed(sv, c.pose);
    let after = landed_board(board, piece, cs);
    &&& (c.pose.r as int) < sv.len() && pose_in_grid(c.pose)
    &&& fits_cells(board, cs) && !fits_cells(board, placed(sv, down(c.pose)))
    &&& cells_view(c.cells@) == cs
    &&& c.lines == landed_lines(board, piece, cs)
    &&& c.holes == holes_upto(after, 10) && c.height == height_upto(after, 10)
    &&& c.evaluation == 10 * c.lines - 8 * c.holes - c.height
    &&& path_ok(board, sv, c.path@, spawn(sv), c.pose)
}

/// Poses ordered by orientation, then x, then y.
pub open spec fn pose_lt(a: Pose, b: Pose) -> bool {
    a.r < b.r || (a.r == b.r && (a.x < b.x || (a.x == b.x && a.y < b.y)))
}

pub open spec fn count_true(s: Seq<bool>) -> nat
    decreases s.len(),
{
    if s.len() == 0 {
        0
    } else {
        count_true(s.drop_last()) + if s.last() { 1nat } else { 0nat }
    }
}

proof fn lemma_count_le(s: Seq<bool>)
    ensures
        count_true(s) <= s.len(),
    decreases s.len(),
{
    if s.len() > 0 {
        lemma_count_le(s.drop_last());
    }
}

proof fn lemma_count_set(s: Seq<bool>, k: int)
    requires
        0 <= k < s.len(),
        !s[k],
    ensures
        count_true(s.update(k, true)) == count_true(s) + 1,
    decreases s.len(),
{
    let n = s.update(k, true);
    if k == s.len() - 1 {
        assert(n.drop_last() =~= s.drop_last());
    } else {
        assert(n.drop_last() =~= s.drop_last().update(k, true));
        lemma_count_set(s.drop_last(), k);
    }
}

/// A fitting pose lies in the grid of pose slots.
proof fn lemma_fit_in_grid(board: Seq<u8>, sv: Seq<Seq<(int, int)>>, p: Pose)
    requires
        shapes_ok(sv),
        (p.r as int) < sv.len(),
        fits_cells(board, placed(sv, p)),
    ensures
        pose_in_grid(p),
{
    let c = sv[p.r as int][0];
    assert(placed(sv, p)[0] == (c.0 + p.x, c.1 + p.y));
    assert(on_board(placed(sv, p)[0]));
    assert(0 <= c.0 <= 3 && 0 <= c.1 <= 3);
}

fn slot(p: &Pose) -> (k: usize)
    requires
        pose_in_grid(*p),
    ensures
        k == pose_slot(*p),
        k < POSE_SLOTS,
{
    (p.r as usize) * 299 + ((p.y + 3) as usize) * 13 + ((p.x + 3) as usize)
}

proof fn lemma_slot_injective(a: Pose, b: Pose)
    requires
        pose_in_grid(a),
        pose_in_grid(b),
        pose_slot(a) == pose_slot(b),
    ensures
        a == b,
{
}

fn path_to(poses: &Vec<Pose>, parents: &Vec<usize>, i: usize, Ghost(board): Ghost<Seq<u8>>, Ghost(sv): Ghost<Seq<Seq<(int, int)>>>) -> (path: Vec<Pose>)
    requires
        poses@.len() == parents@.len(),
        i < poses@.len(),
        forall|j: int| 0 <= j < poses@.len() ==> (#[trigger] poses@[j]).r < sv.len() && fits_cells(board, placed(sv, poses@[j])),
        forall|j: int| 1 <= j < poses@.len() ==> (#[trigger] parents@[j]) < j && step(poses@[parents@[j] as int], poses@[j], sv.len() as int),
    ensures
        path_ok(board, sv, path@, poses@[0], poses@[i as int]),
{
    let mut rev: Vec<Pose> = Vec::new();
    rev.push(poses[i]);
    let mut cur = i;
    while cur != 0
        invariant
            poses@.len() == parents@.len(),
            cur < poses@.len(),
            forall|j: int| 0 <= j < poses@.len() ==> (#[trigger] poses@[j]).r < sv.len() && fits_cells(board, placed(sv, poses@[j])),
            forall|j: int| 1 <= j < poses@.len() ==> (#[trigger] parents@[j]) < j && step(poses@[parents@[j] as int], poses@[j], sv.len() as int),
            rev@.len() >= 1,
            rev@[0] == poses@[i as int],
            rev@.last() == poses@[cur as int],
            forall|k: int| 0 <= k < rev@.len() ==> (#[trigger] rev@[k]).r < sv.len() && fits_cells(board, placed(sv, rev@[k])),
            forall|k: int| 0 <= k < rev@.len() - 1 ==> step(rev@[k + 1], #[trigger] rev@[k], sv.len() as int),
        decreases cur,
    {
        let q = parents[cur];
        let ghost before = rev@;
        proof {
            assert(q < cur && step(poses@[q as int], poses@[cur as int], sv.len() as int));
        }
        rev.push(poses[q]);
        proof {
            assert forall|k: int| 0 <= k < rev@.len() - 1 implies step(rev@[k + 1], #[trigger] rev@[k], sv.len() as int) by {
                if k < before.len() - 1 {
                    assert(rev@[k] == before[k] && rev@[k + 1] == before[k + 1]);
                } else {
                    assert(rev@[k] == before.last());
                }
            }
            assert forall|k: int| 0 <= k < rev@.len() implies (#[trigger] rev@[k]).r < sv.len() && fits_cells(board, placed(sv, rev@[k])) by {
                if k < before.len() {
                    assert(rev@[k] == before[k]);
                } else {
                    assert(rev@[k] == poses@[q as int]);
                }
            }
        }
        cur = q;
    }
    let mut path: Vec<Pose> = Vec::new();
    let n = rev.len();
    let mut k: usize = 0;
    while k < n
        invariant
            k <= n,
            n == rev@.len(),
            path@.len() == k,
            forall|t: int| 0 <= t < k ==> #[trigger] path@[t] == rev@[n - 1 - t],
        decreases n - k,
    {
        path.push(rev[n - 1 - k]);
        k = k + 1;
    }
    proof {
        assert forall|t: int| 0 <= t < path@.len() implies (#[trigger] path@[t]).r < sv.len() && fits_cells(board, placed(sv, path@[t])) by {
            assert(path@[t] == rev@[n - 1 - t]);
        }
        assert forall|t: int| 0 <= t < path@.len() - 1 implies step(#[trigger] path@[t], path@[t + 1], sv.len() as int) by {
            assert(path@[t] == rev@[n - 1 - t]);
            assert(path@[t + 1] == rev@[n - 2 - t]);
            assert(step(rev@[(n - 2 - t) + 1], rev@[n - 2 - t], sv.len() as int));
        }
        assert(path@[0] == rev@.last());
        assert(path@.last() == rev@[0]);
    }
    path
}

/// Some listed pose has slot `k`.
pub open spec fn listed(poses: Seq<Pose>, k: int) -> bool {
    exists|j: int| 0 <= j < poses.len() && pose_slot(#[trigger] poses[j]) == k
}

/// The search so far: distinct fitting poses in the grid, the spawn pose first,
/// each later pose one move from an earlier one, and `seen` marking exactly their slots.
#[verifier::opaque]
pub open spec fn bfs_ok(board: Seq<u8>, sv: Seq<Seq<(int, int)>>, poses: Seq<Pose>, parents: Seq<usize>, seen: Seq<bool>) -> bool {
    &&& seen.len() == POSE_SLOTS
    &&& poses.len() == parents.len() && poses.len() == count_true(seen) && poses.len() >= 1
    &&& poses[0] == spawn(sv)
    &&& forall|j: int| 0 <= j < poses.len() ==> (#[trigger] poses[j]).r < sv.len() && pose_in_grid(poses[j])
        && fits_cells(board, placed(sv, poses[j])) && seen[pose_slot(poses[j])]
    &&& forall|k: int| 0 <= k < seen.len() && #[trigger] seen[k] ==> listed(poses, k)
    &&& forall|a: int, b: int| 0 <= a < b < poses.len() ==> (#[trigger] poses[a]) != (#[trigger] poses[b])
    &&& forall|j: int| 1 <= j < poses.len() ==> (#[trigger] parents[j]) < j && step(poses[parents[j] as int], poses[j], sv.len() as int)
}

proof fn lemma_bfs_facts(board: Seq<u8>, sv: Seq<Seq<(int, int)>>, poses: Seq<Pose>, parents: Seq<usize>, seen: Seq<bool>, j: int)
    requires
        bfs_ok(board, sv, poses, parents, seen),
        0 <= j < poses.len(),
    ensures
        poses.len() <= POSE_SLOTS,
        pose_in_grid(poses[j]),
        poses[j].r < sv.len(),
{
    reveal(bfs_ok);
    lemma_count_le(seen);
}

/// If `m` fits, its slot is marked.
pub open spec fn seen_if_fits(board: Seq<u8>, sv: Seq<Seq<(int, int)>>, seen: Seq<bool>, m: Pose) -> bool {
    fits_cells(board, placed(sv, m)) ==> pose_in_grid(m) && seen[pose_slot(m)]
}

/// Every fitting move from `p` has been marked.
pub open spec fn explored(board: Seq<u8>, sv: Seq<Seq<(int, int)>>, seen: Seq<bool>, p: Pose) -> bool {
    let n = sv.len() as int;
    &&& seen_if_fits(board, sv, seen, Pose { r: ((p.r + 1) % n) as u8, ..p })
    &&& seen_if_fits(board, sv, seen, Pose { x: (p.x - 1) as i8, ..p })
    &&& seen_if_fits(board, sv, seen, Pose { x: (p.x + 1) as i8, ..p })
    &&& seen_if_fits(board, sv, seen, down(p))
}

/// Marks and appends `m` if it fits and is new.
fn visit(
    board: &[u8],
    s: &Vec<Vec<(i8, i8)>>,
    m: Pose,
    from: usize,
    poses: &mut Vec<Pose>,
    parents: &mut Vec<usize>,
    seen: &mut Vec<bool>,
)
    requires
        board@.len() == BOARD_CELLS,
        shapes_ok(shapes_view(s@)),
        bfs_ok(board@, shapes_view(s@), old(poses)@, old(parents)@, old(seen)@),
        from < old(poses)@.len(),
        step(old(poses)@[from as int], m, s@.len() as int),
        (m.r as int) < s@.len(),
        -100 <= m.x <= 100 && -100 <= m.y <= 100,
    ensures
        bfs_ok(board@, shapes_view(s@), final(poses)@, final(parents)@, final(seen)@),
        final(poses)@.len() >= old(poses)@.len(),
        forall|j: int| 0 <= j < old(poses)@.len() ==> #[trigger] final(poses)@[j] == old(poses)@[j],
        forall|k: int| 0 <= k < POSE_SLOTS && #[trigger] old(seen)@[k] ==> final(seen)@[k],
        seen_if_fits(board@, shapes_view(s@), final(seen)@, m),
{
    reveal(bfs_ok);
    let ghost sv = shapes_view(s@);
    if !fits(board, s, &m) {
        return;
    }
    proof {
        lemma_fit_in_grid(board@, sv, m);
    }
    let k = slot(&m);
    if seen[k] {
        return;
    }
    let ghost old_poses = poses@;
    let ghost old_seen = seen@;
    proof {
        lemma_count_set(old_seen, k as int);
        lemma_count_le(old_seen.update(k as int, true));
        assert forall|j: int| 0 <= j < old_poses.len() implies #[trigger] old_poses[j] != m by {
            assert(old_seen[pose_slot(old_poses[j])]);
        }
    }
    seen.set(k, true);
    poses.push(m);
    parents.push(from);
    proof {
        let np = poses@;
        assert(np[np.len() - 1] == m);
        assert forall|q: int| 0 <= q < seen@.len() && #[trigger] seen@[q] implies listed(np, q) by {
            if q == k as int {
                assert(pose_slot(np[np.len() - 1]) == q);
            } else {
                assert(old_seen[q]);
                let j = choose|j: int| 0 <= j < old_poses.len() && pose_slot(#[trigger] old_poses[j]) == q;
                assert(np[j] == old_poses[j]);
            }
        }
        assert forall|j: int| 0 <= j < np.len() implies (#[trigger] np[j]).r < sv.len() && pose_in_grid(np[j])
            && fits_cells(board@, placed(sv, np[j])) && seen@[pose_slot(np[j])] by {
            if j < old_poses.len() {
                assert(np[j] == old_poses[j]);
            }
        }
        assert forall|a: int, b: int| 0 <= a < b < np.len() implies (#[trigger] np[a]) != (#[trigger] np[b]) by {
            if b < old_poses.len() {
                assert(np[a] == old_poses[a] && np[b] == old_poses[b]);
            } else {
                assert(np[a] == old_poses[a]);
            }
        }
        assert forall|j: int| 1 <= j < np.len() implies (#[trigger] parents@[j]) < j && step(np[parents@[j] as int], np[j], sv.len() as int) by {
            if j < old_poses.len() {
                assert(np[j] == old_poses[j]);
                assert(np[parents@[j] as int] == old_poses[parents@[j] as int]);
            } else {
                assert(np[from as int] == old_poses[from as int]);
            }
        }
    }
}

fn spawn_pose(s: &Vec<Vec<(i8, i8)>>) -> (p: Pose)
    requires
        shapes_ok(shapes_view(s@)),
    ensures
        p == spawn(shapes_view(s@)),
        pose_in_grid(p),
        p.r == 0,
{
    let first = &s[0];
    let ghost cv = cells_view(first@);
    proof {
        assert(shapes_view(s@)[0] == cv);
        assert(cv.take(1).len() == 1);
        assert(cv[0] == (first@[0].0 as int, first@[0].1 as int));
    }
    let mut m: i8 = first[0].0;
    let mut i: usize = 1;
    while i < first.len()
        invariant
            1 <= i <= first@.len(),
            first@.len() == 4,
            cv == cells_view(first@),
            in_box(cv, 0, 0),
            m as int == max_x(cv.take(i as int)),
            0 <= m <= 3,
        decreases first@.len() - i,
    {
        let c = first[i];
        proof {
            assert(cv[i as int] == (c.0 as int, c.1 as int));
            assert(cv.take(i + 1).drop_last() =~= cv.take(i as int));
            assert(cv.take(i + 1).last() == cv[i as int]);
        }
        if c.0 > m {
            m = c.0;
        }
        i = i + 1;
    }
    proof {
        assert(cv.take(4) =~= cv);
    }
    Pose { r: 0, x: (10 - (m + 1)) / 2, y: 0 }
}

/// Each pose of the path is listed, given that every listed pose is explored.
proof fn lemma_path_listed(board: Seq<u8>, sv: Seq<Seq<(int, int)>>, poses: Seq<Pose>, parents: Seq<usize>, seen: Seq<bool>, path: Seq<Pose>, p: Pose, t: int)
    requires
        shapes_ok(sv),
        bfs_ok(board, sv, poses, parents, seen),
        forall|j: int| 0 <= j < poses.len() ==> explored(board, sv, seen, #[trigger] poses[j]),
        path_ok(board, sv, path, spawn(sv), p),
        0 <= t < path.len(),
    ensures
        exists|j: int| 0 <= j < poses.len() && #[trigger] poses[j] == path[t],
    decreases t,
{
    reveal(bfs_ok);
    if t == 0 {
        assert(poses[0] == path[0]);
    } else {
        lemma_path_listed(board, sv, poses, parents, seen, path, p, t - 1);
        let j = choose|j: int| 0 <= j < poses.len() && #[trigger] poses[j] == path[t - 1];
        let a = poses[j];
        let b = path[t];
        assert(step(path[t - 1], path[t], sv.len() as int));
        assert(explored(board, sv, seen, a));
        assert(b.r < sv.len() && fits_cells(board, placed(sv, b)));
        assert(seen_if_fits(board, sv, seen, b));
        assert(seen[pose_slot(b)]);
        let q = choose|q: int| 0 <= q < poses.len() && pose_slot(#[trigger] poses[q]) == pose_slot(b);
        lemma_slot_injective(poses[q], b);
    }
}

/// From any fitting pose, dropping reaches a resting pose.
proof fn lemma_drop(board: Seq<u8>, sv: Seq<Seq<(int, int)>>, path: Seq<Pose>, start: Pose, p: Pose) -> (r: (Seq<Pose>, Pose))
    requires
        shapes_ok(sv),
        path_ok(board, sv, path, start, p),
    ensures
        path_ok(board, sv, r.0, start, r.1),
        !fits_cells(board, placed(sv, down(r.1))),
    decreases 20 - p.y,
{
    lemma_fit_in_grid(board, sv, p);
    let d = down(p);
    if !fits_cells(board, placed(sv, d)) {
        (path, p)
    } else {
        lemma_fit_in_grid(board, sv, d);
        let np = path.push(d);
        assert(np.last() == d);
        assert forall|k: int| 0 <= k < np.len() implies (#[trigger] np[k]).r < sv.len() && fits_cells(board, placed(sv, np[k])) by {
            if k < path.len() {
                assert(np[k] == path[k]);
            }
        }
        assert forall|k: int| 0 <= k < np.len() - 1 implies step(#[trigger] np[k], np[k + 1], sv.len() as int) by {
            if k < path.len() - 1 {
                assert(np[k] == path[k] && np[k + 1] == path[k + 1]);
            } else {
                assert(np[k] == p);
            }
        }
        lemma_drop(board, sv, np, start, d)
    }
}

/// The listed index `j` has a recorded candidate.
pub open spec fn recorded(rix: Seq<int>, j: int) -> bool {
    exists|k: int| 0 <= k < rix.len() && #[trigger] rix[k] == j
}

/// `c` has the content of some element of `out`.
pub open spec fn in_output(out: Seq<Candidate>, c: Candidate) -> bool {
    exists|k: int| 0 <= k < out.len() && cand_same(#[trigger] out[k], c)
}

/// Some candidate rests at pose `p`.
pub open spec fn has_pose(r: Seq<Candidate>, p: Pose) -> bool {
    exists|k: int| 0 <= k < r.len() && (#[trigger] r[k]).pose == p
}

/// A resting pose reachable from the spawn pose by quarter turns, side steps and drops.
pub open spec fn reachable_rest(board: Seq<u8>, sv: Seq<Seq<(int, int)>>, p: Pose) -> bool {
    &&& exists|path: Seq<Pose>| #[trigger] path_ok(board, sv, path, spawn(sv), p)
    &&& !fits_cells(board, placed(sv, down(p)))
}

/// The candidate resting at listed pose `i`.
fn make_candidate(board: &[u8], s: &Vec<Vec<(i8, i8)>>, piece: u8, poses: &Vec<Pose>, parents: &Vec<usize>, i: usize, Ghost(seen): Ghost<Seq<bool>>) -> (c: Candidate)
    requires
        board@.len() == BOARD_CELLS,
        piece < 255,
        shapes_ok(shapes_view(s@)),
        bfs_ok(board@, shapes_view(s@), poses@, parents@, seen),
        i < poses@.len(),
        !fits_cells(board@, placed(shapes_view(s@), down(poses@[i as int]))),
    ensures
        c.pose == poses@[i as int],
        candidate_ok(board@, piece, shapes_view(s@), c),
{
    reveal(bfs_ok);
    let ghost sv = shapes_view(s@);
    let p = poses[i];
    assert(pose_in_grid(p) && fits_cells(board@, placed(sv, p)));
    let cs = cells(s, &p);
    assert forall|k: int| 0 <= k < cs@.len() implies on_board(#[trigger] cells_view(cs@)[k]) by {
        assert(cells_view(cs@)[k] == placed(sv, p)[k]);
    }
    let (after, lines) = landed(board, piece, cs.as_slice());
    let (holes, height) = features(after.as_slice());
    let path = path_to(poses, parents, i, Ghost(board@), Ghost(sv));
    proof {
        reveal(candidate_ok);
    }
    Candidate {
        pose: p,
        cells: cs,
        holes,
        height,
        lines,
        evaluation: 10 * (lines as i32) - 8 * (holes as i32) - (height as i32),
        path,
    }
}

/// Visits the four moves from listed pose `i`.
fn expand(board: &[u8], s: &Vec<Vec<(i8, i8)>>, i: usize, poses: &mut Vec<Pose>, parents: &mut Vec<usize>, seen: &mut Vec<bool>)
    requires
        board@.len() == BOARD_CELLS,
        shapes_ok(shapes_view(s@)),
        bfs_ok(board@, shapes_view(s@), old(poses)@, old(parents)@, old(seen)@),
        i < old(poses)@.len(),
    ensures
        bfs_ok(board@, shapes_view(s@), final(poses)@, final(parents)@, final(seen)@),
        final(poses)@.len() >= old(poses)@.len(),
        forall|j: int| 0 <= j < old(poses)@.len() ==> #[trigger] final(poses)@[j] == old(poses)@[j],
        forall|k: int| 0 <= k < POSE_SLOTS && #[trigger] old(seen)@[k] ==> final(seen)@[k],
        explored(board@, shapes_view(s@), final(seen)@, old(poses)@[i as int]),
{
    reveal(bfs_ok);
    let ghost sv = shapes_view(s@);
    let ghost p0 = poses@;
    let ghost s0 = seen@;
    let p = poses[i];
    assert(pose_in_grid(p) && (p.r as int) < sv.len());
    let n = s.len();
    let rot = Pose { r: ((p.r as usize + 1) % n) as u8, x: p.x, y: p.y };
    visit(board, s, rot, i, poses, parents, seen);
    let ghost s1 = seen@;
    assert(poses@[i as int] == p);
    let left = Pose { r: p.r, x: p.x - 1, y: p.y };
    visit(board, s, left, i, poses, parents, seen);
    let ghost s2 = seen@;
    assert(poses@[i as int] == p);
    let right = Pose { r: p.r, x: p.x + 1, y: p.y };
    visit(board, s, right, i, poses, parents, seen);
    let ghost s3 = seen@;
    assert(poses@[i as int] == p);
    let d = Pose { r: p.r, x: p.x, y: p.y + 1 };
    visit(board, s, d, i, poses, parents, seen);
    proof {
        assert(seen_if_fits(board@, sv, s1, rot));
        assert(seen_if_fits(board@, sv, s2, rot));
        assert(seen_if_fits(board@, sv, s3, rot));
        assert(seen_if_fits(board@, sv, seen@, rot));
        assert(seen_if_fits(board@, sv, s3, left));
        assert(seen_if_fits(board@, sv, seen@, left));
        assert(seen_if_fits(board@, sv, seen@, right));
        assert(d == down(p));
    }
}

/// Every reachable resting pose has a recorded candidate.
proof fn lemma_complete(
    board: Seq<u8>,
    sv: Seq<Seq<(int, int)>>,
    poses: Seq<Pose>,
    parents: Seq<usize>,
    seen: Seq<bool>,
    rix: Seq<int>,
    unsorted: Seq<Candidate>,
    out: Seq<Candidate>,
)
    requires
        shapes_ok(sv),
        bfs_ok(board, sv, poses, parents, seen),
        forall|j: int| 0 <= j < poses.len() ==> explored(board, sv, seen, #[trigger] poses[j]),
        rix.len() == unsorted.len(),
        forall|k: int| 0 <= k < unsorted.len() ==> 0 <= #[trigger] rix[k] < poses.len() && unsorted[k].pose == poses[rix[k]],
        forall|j: int| 0 <= j < poses.len() && !fits_cells(board, placed(sv, down(#[trigger] poses[j]))) ==> recorded(rix, j),
        forall|j: int| 0 <= j < unsorted.len() ==> in_output(out, #[trigger] unsorted[j]),
    ensures
        forall|p: Pose| reachable_rest(board, sv, p) ==> #[trigger] has_pose(out, p),
        fits_cells(board, placed(sv, spawn(sv))) ==> out.len() > 0,
{
    reveal(bfs_ok);
    assert forall|p: Pose| reachable_rest(board, sv, p) implies #[trigger] has_pose(out, p) by {
        let path = choose|path: Seq<Pose>| #[trigger] path_ok(board, sv, path, spawn(sv), p);
        lemma_path_listed(board, sv, poses, parents, seen, path, p, path.len() - 1);
        let j = choose|j: int| 0 <= j < poses.len() && #[trigger] poses[j] == path[path.len() - 1];
        assert(recorded(rix, j));
        let k = choose|k: int| 0 <= k < rix.len() && #[trigger] rix[k] == j;
        assert(in_output(out, unsorted[k]));
        let q = choose|q: int| 0 <= q < out.len() && cand_same(#[trigger] out[q], unsorted[k]);
        assert(out[q].pose == p);
    }
    if fits_cells(board, placed(sv, spawn(sv))) {
        let spath = seq![spawn(sv)];
        assert(spath[0] == spawn(sv));
        assert(path_ok(board, sv, spath, spawn(sv), spawn(sv)));
        let (dp, dpose) = lemma_drop(board, sv, spath, spawn(sv), spawn(sv));
        assert(reachable_rest(board, sv, dpose));
        assert(has_pose(out, dpose));
    }
}

/// The orientations of a piece, as `shapes` gives them.
pub open spec fn piece_shapes(piece: u8) -> Seq<Seq<(int, int)>> {
    first_occurrences(rotations(piece))
}

/// `r` lists every resting placement reachable from the spawn pose, and only
/// those, sorted by pose; it is empty exactly when the spawn pose is blocked.
pub open spec fn placements_ok(board: Seq<u8>, piece: u8, r: Seq<Candidate>) -> bool {
    let sv = piece_shapes(piece);
    &&& r.len() > 0 <==> fits_cells(board, placed(sv, spawn(sv)))
    &&& forall|k: int| 0 <= k < r.len() ==> candidate_ok(board, piece, sv, #[trigger] r[k])
    &&& forall|a: int, b: int| 0 <= a < b < r.len() ==> pose_lt((#[trigger] r[a]).pose, (#[trigger] r[b]).pose)
    &&& forall|p: Pose| reachable_rest(board, sv, p) ==> #[trigger] has_pose(r, p)
}

/// Every resting placement of `piece` reachable from its spawn pose on `board`,
/// sorted by pose, with its cells, cleared lines, holes, height, evaluation and path.
#[verifier::spinoff_prover]
#[verifier::rlimit(80)]
pub fn placements(board: &[u8], piece: u8) -> (r: Vec<Candidate>)
    requires
        board@.len() == BOARD_CELLS,
        piece < 255,
    ensures
        placements_ok(board@, piece, r@),
{
    let s = shapes(piece);
    let ghost sv = shapes_view(s@);
    proof {
        assert forall|k: int| 0 <= k < sv.len() implies (#[trigger] sv[k]).len() == 4 && in_box(sv[k], 0, 0) by {
            assert(sv[k] == cells_view(s@[k]@));
        }
    }
    let start = spawn_pose(&s);
    if !fits(board, &s, &start) {
        proof {
            assert forall|p: Pose| reachable_rest(board@, sv, p) implies #[trigger] has_pose(Seq::<Candidate>::empty(), p) by {
                let path = choose|path: Seq<Pose>| #[trigger] path_ok(board@, sv, path, spawn(sv), p);
                assert(path[0] == spawn(sv));
            }
        }
        return Vec::new();
    }
    let mut seen: Vec<bool> = Vec::new();
    let mut z: usize = 0;
    while z < POSE_SLOTS
        invariant
            z <= POSE_SLOTS,
            seen@.len() == z,
            forall|q: int| 0 <= q < z ==> !(#[trigger] seen@[q]),
            count_true(seen@) == 0,
        decreases POSE_SLOTS - z,
    {
        let ghost before = seen@;
        seen.push(false);
        assert(seen@.drop_last() =~= before);
        z = z + 1;
    }
    let k0 = slot(&start);
    proof {
        lemma_count_set(seen@, k0 as int);
    }
    seen.set(k0, true);
    let mut poses: Vec<Pose> = Vec::new();
    poses.push(start);
    let mut parents: Vec<usize> = Vec::new();
    parents.push(0);
    proof {
        reveal(bfs_ok);
        assert forall|q: int| 0 <= q < seen@.len() && #[trigger] seen@[q] implies listed(poses@, q) by {
            assert(q == k0 as int);
            assert(pose_slot(poses@[0]) == q);
        }
    }
    let mut result: Vec<Candidate> = Vec::new();
    let ghost mut rix: Seq<int> = Seq::empty();
    let mut head: usize = 0;
    while head < poses.len()
        invariant
            board@.len() == BOARD_CELLS,
            piece < 255,
            sv == shapes_view(s@),
            sv == first_occurrences(rotations(piece)),
            shapes_ok(sv),
            bfs_ok(board@, sv, poses@, parents@, seen@),
            head <= poses@.len(),
            forall|j: int| 0 <= j < head ==> explored(board@, sv, seen@, #[trigger] poses@[j]),
            rix.len() == result@.len(),
            forall|k: int| 0 <= k < result@.len() ==> 0 <= #[trigger] rix[k] < head && result@[k].pose == poses@[rix[k]],
            forall|k: int| 0 <= k < result@.len() ==> candidate_ok(board@, piece, sv, #[trigger] result@[k]),
            forall|a: int, b: int| 0 <= a < b < rix.len() ==> #[trigger] rix[a] < #[trigger] rix[b],
            forall|j: int| 0 <= j < head && !fits_cells(board@, placed(sv, down(#[trigger] poses@[j]))) ==> recorded(rix, j),
        decreases POSE_SLOTS - head,
    {
        proof {
            lemma_bfs_facts(board@, sv, poses@, parents@, seen@, head as int);
        }
        let p = poses[head];
        let d = Pose { r: p.r, x: p.x, y: p.y + 1 };
        assert(pose_in_grid(p) && (p.r as int) < sv.len());
        if !fits(board, &s, &d) {
            let c = make_candidate(board, &s, piece, &poses, &parents, head, Ghost(seen@));
            let ghost before = result@;
            result.push(c);
            proof {
                let old_rix = rix;
                rix = rix.push(head as int);
                assert forall|j: int| 0 <= j < head && !fits_cells(board@, placed(sv, down(#[trigger] poses@[j]))) implies recorded(rix, j) by {
                    assert(recorded(old_rix, j));
                    let k = choose|k: int| 0 <= k < old_rix.len() && #[trigger] old_rix[k] == j;
                    assert(rix[k] == old_rix[k]);
                }
                assert forall|k: int| 0 <= k < result@.len() implies 0 <= #[trigger] rix[k] < head + 1 && result@[k].pose == poses@[rix[k]] by {
                    if k < before.len() {
                        assert(result@[k] == before[k]);
                    }
                }
                assert forall|k: int| 0 <= k < result@.len() implies candidate_ok(board@, piece, sv, #[trigger] result@[k]) by {
                    if k < before.len() {
                        assert(result@[k] == before[k]);
                    }
                }
                assert(rix[rix.len() - 1] == head as int);
            }
        }
        proof {
            assert(d == down(poses@[head as int]));
            assert forall|j: int| 0 <= j <= head && !fits_cells(board@, placed(sv, down(#[trigger] poses@[j]))) implies recorded(rix, j) by {
                if j == head as int {
                    assert(rix[rix.len() - 1] == j);
                }
            }
        }
        let ghost p0 = poses@;
        expand(board, &s, head, &mut poses, &mut parents, &mut seen);
        proof {
            assert forall|j: int| 0 <= j < head + 1 implies explored(board@, sv, seen@, #[trigger] poses@[j]) by {
                assert(poses@[j] == p0[j]);
            }
            assert forall|k: int| 0 <= k < result@.len() implies 0 <= #[trigger] rix[k] < head + 1 && result@[k].pose == poses@[rix[k]] by {
                assert(poses@[rix[k]] == p0[rix[k]]);
            }
            assert forall|j: int| 0 <= j < head + 1 && !fits_cells(board@, placed(sv, down(#[trigger] poses@[j]))) implies recorded(rix, j) by {
                assert(poses@[j] == p0[j]);
            }
        }
        head = head + 1;
    }
    proof {
        assert forall|a: int, b: int| 0 <= a < b < result@.len() implies (#[trigger] result@[a]).pose != (#[trigger] result@[b]).pose by {
            assert(rix[a] < rix[b]);
        }
    }
    let ghost unsorted = result@;
    let out = sort_by_pose(result);
    proof {
        lemma_complete(board@, sv, poses@, parents@, seen@, rix, unsorted, out@);
        assert forall|k: int| 0 <= k < out@.len() implies candidate_ok(board@, piece, sv, #[trigger] out@[k]) by {
            let j = choose|j: int| 0 <= j < unsorted.len() && cand_same(out@[k], #[trigger] unsorted[j]);
            assert(candidate_ok(board@, piece, sv, unsorted[j]));
            reveal(candidate_ok);
        }
        if out@.len() > 0 {
            assert(candidate_ok(board@, piece, sv, out@[0]));
            reveal(candidate_ok);
            assert(out@[0].path@[0] == spawn(sv));
        }
    }
    out
}

fn pose_before(a: &Pose, b: &Pose) -> (r: bool)
    ensures
        r == pose_lt(*a, *b),
{
    a.r < b.r || (a.r == b.r && (a.x < b.x || (a.x == b.x && a.y < b.y)))
}

/// `c` has the content of one of the first `n` candidates of `v`.
pub open spec fn from_input(c: Candidate, v: Seq<Candidate>, n: int) -> bool {
    exists|j: int| 0 <= j < n && cand_same(c, #[trigger] v[j])
}

/// Two candidates with the same content.
pub open spec fn cand_same(a: Candidate, b: Candidate) -> bool {
    &&& a.pose == b.pose && a.cells@ == b.cells@ && a.holes == b.holes && a.height == b.height
    &&& a.lines == b.lines && a.evaluation == b.evaluation && a.path@ == b.path@
}

/// Sorts candidates with distinct poses by pose.
#[verifier::spinoff_prover]
#[verifier::rlimit(40)]
fn sort_by_pose(v: Vec<Candidate>) -> (out: Vec<Candidate>)
    requires
        forall|a: int, b: int| 0 <= a < b < v@.len() ==> (#[trigger] v@[a]).pose != (#[trigger] v@[b]).pose,
    ensures
        out@.len() == v@.len(),
        forall|k: int| 0 <= k < out@.len() ==> from_input(#[trigger] out@[k], v@, v@.len() as int),
        forall|a: int, b: int| 0 <= a < b < out@.len() ==> pose_lt((#[trigger] out@[a]).pose, (#[trigger] out@[b]).pose),
        forall|j: int| 0 <= j < v@.len() ==> in_output(out@, #[trigger] v@[j]),
{
    let mut out: Vec<Candidate> = Vec::new();
    let src = &v;
    let mut i: usize = 0;
    while i < src.len()
        invariant
            i <= src@.len(),
            src@ == v@,
            forall|a: int, b: int| 0 <= a < b < v@.len() ==> (#[trigger] v@[a]).pose != (#[trigger] v@[b]).pose,
            out@.len() == i,
            forall|k: int| 0 <= k < out@.len() ==> from_input(#[trigger] out@[k], v@, i as int),
            forall|a: int, b: int| 0 <= a < b < out@.len() ==> pose_lt((#[trigger] out@[a]).pose, (#[trigger] out@[b]).pose),
            forall|j: int| 0 <= j < i ==> in_output(out@, #[trigger] v@[j]),
        decreases src@.len() - i,
    {
        let c = src[i].clone_candidate();
        let mut pos: usize = 0;
        while pos < out.len() && pose_before(&out[pos].pose, &c.pose)
            invariant
                pos <= out@.len(),
                forall|k: int| 0 <= k < pos ==> pose_lt((#[trigger] out@[k]).pose, c.pose),
            decreases out@.len() - pos,
        {
            pos = pos + 1;
        }
        proof {
            assert forall|k: int| 0 <= k < out@.len() implies (#[trigger] out@[k]).pose != c.pose by {
                let j = choose|j: int| 0 <= j < i && cand_same(out@[k], #[trigger] v@[j]);
                assert(v@[j].pose != v@[i as int].pose);
            }
            if pos < out@.len() {
                assert(!pose_lt(out@[pos as int].pose, c.pose));
                assert(out@[pos as int].pose != c.pose);
                assert forall|k: int| pos <= k < out@.len() implies pose_lt(c.pose, (#[trigger] out@[k]).pose) by {
                    if k > pos {
                        assert(pose_lt(out@[pos as int].pose, out@[k].pose));
                    }
                }
            }
        }
        let ghost before = out@;
        out.insert(pos, c);
        proof {
            assert forall|a: int, b: int| 0 <= a < b < out@.len() implies pose_lt((#[trigger] out@[a]).pose, (#[trigger] out@[b]).pose) by {
                if b < pos {
                    assert(out@[a] == before[a] && out@[b] == before[b]);
                } else if b == pos {
                    assert(out@[a] == before[a]);
                } else if a < pos {
                    assert(out@[a] == before[a] && out@[b] == before[b - 1]);
                } else if a == pos {
                    assert(out@[b] == before[b - 1]);
                } else {
                    assert(out@[a] == before[a - 1] && out@[b] == before[b - 1]);
                }
            }
            assert forall|k: int| 0 <= k < out@.len() implies from_input(#[trigger] out@[k], v@, i + 1) by {
                if k < pos {
                    assert(out@[k] == before[k]);
                    let j = choose|j: int| 0 <= j < i && cand_same(before[k], #[trigger] v@[j]);
                    assert(cand_same(out@[k], v@[j]));
                } else if k == pos {
                    assert(cand_same(out@[k], v@[i as int]));
                } else {
                    assert(out@[k] == before[k - 1]);
                    let j = choose|j: int| 0 <= j < i && cand_same(before[k - 1], #[trigger] v@[j]);
                    assert(cand_same(out@[k], v@[j]));
                }
            }
            assert forall|j: int| 0 <= j < i + 1 implies in_output(out@, #[trigger] v@[j]) by {
                if j == i as int {
                    assert(cand_same(out@[pos as int], v@[j]));
                } else {
                    let q = choose|q: int| 0 <= q < before.len() && cand_same(#[trigger] before[q], v@[j]);
                    if q < pos {
                        assert(out@[q] == before[q]);
                    } else {
                        assert(out@[q + 1] == before[q]);
                    }
                }
            }
        }
        i = i + 1;
    }
    out
}

impl Candidate {
    /// A copy with the same pose, cells, features and path.
    pub fn clone_candidate(&self) -> (c: Candidate)
        ensures
            cand_same(c, *self),
    {
        Candidate {
            pose: self.pose,
            cells: copy_cells(&self.cells),
            holes: self.holes,
            height: self.height,
            lines: self.lines,
            evaluation: self.evaluation,
            path: copy_poses(&self.path),
        }
    }
}

fn copy_poses(s: &Vec<Pose>) -> (c: Vec<Pose>)
    ensures
        c@ == s@,
{
    let mut c: Vec<Pose> = Vec::new();
    let mut i: usize = 0;
    while i < s.len()
        invariant
            i <= s@.len(),
            c@ == s@.take(i as int),
        decreases s@.len() - i,
    {
        c.push(s[i]);
        assert(s@.take(i + 1) =~= s@.take(i as int).push(s@[i as int]));
        i = i + 1;
    }
    assert(s@.take(s@.len() as int) =~= s@);
    c
}


/// The first option with the highest evaluation (0 for no options).
pub fn recommend(options: &Vec<Candidate>) -> (r: usize)
    ensures
        options@.len() == 0 ==> r == 0,
        options@.len() > 0 ==> {
            &&& r < options@.len()
            &&& forall|j: int| 0 <= j < options@.len() ==> (#[trigger] options@[j]).evaluation <= options@[r as int].evaluation
            &&& forall|j: int| 0 <= j < r ==> (#[trigger] options@[j]).evaluation < options@[r as int].evaluation
        },
{
    let mut best: usize = 0;
    let mut i: usize = 0;
    while i < options.len()
        invariant
            i <= options@.len(),
            i == 0 ==> best == 0,
            i > 0 ==> best < i,
            forall|j: int| 0 <= j < i ==> (#[trigger] options@[j]).evaluation <= options@[best as int].evaluation,
            forall|j: int| 0 <= j < best ==> (#[trigger] options@[j]).evaluation < options@[best as int].evaluation,
        decreases options@.len() - i,
    {
        if options[i].evaluation > options[best].evaluation {
            best = i;
        }
        i = i + 1;
    }
    best
}

/// One xorshift32 step: shifts of 13 left, 17 right and 5 left.
pub open spec fn xorshift(s: u32) -> u32 {
    let a = s ^ (s << 13u32);
    let b = a ^ (a >> 17u32);
    b ^ (b << 5u32)
}

fn xorshift_step(s: u32) -> (r: u32)
    ensures
        r == xorshift(s),
{
    let mut state = s;
    state ^= state << 13;
    state ^= state >> 17;
    state ^= state << 5;
    state
}

/// A fresh bag: the seven pieces in order.
pub open spec fn fresh_bag() -> Seq<u8> {
    seq![0u8, 1u8, 2u8, 3u8, 4u8, 5u8, 6u8]
}

/// The slot drawn for position `i` from state `t`: `t * (i + 1) / 2^32`.
pub open spec fn draw(t: u32, i: int) -> int {
    (t * (i + 1)) / 0x1_0000_0000
}

/// Fisher-Yates from position `i` down to 1, one xorshift step per swap.
pub open spec fn shuffle(s: u32, bag: Seq<u8>, i: int) -> (u32, Seq<u8>)
    decreases i,
{
    if i < 1 {
        (s, bag)
    } else {
        let t = xorshift(s);
        let j = draw(t, i);
        shuffle(t, bag.update(i, bag[j]).update(j, bag[i]), i - 1)
    }
}

/// The generator state a seed starts from (zero is replaced by a fixed odd constant).
pub open spec fn seed_state(seed: u32) -> u32 {
    if seed == 0 { 0x9e3779b9u32 } else { seed }
}

/// The state before bag `b` is shuffled.
pub open spec fn state_before(s0: u32, b: nat) -> u32
    decreases b, 0nat,
{
    if b == 0 { s0 } else { bag_after(s0, (b - 1) as nat).0 }
}

/// The state after shuffling bag `b`, and that bag.
pub open spec fn bag_after(s0: u32, b: nat) -> (u32, Seq<u8>)
    decreases b, 1nat,
{
    shuffle(state_before(s0, b), fresh_bag(), 6)
}

/// The piece at position `index` of the 7-bag sequence for `seed`.
pub open spec fn piece_of(seed: u32, index: u32) -> u8 {
    bag_after(seed_state(seed), (index / 7) as nat).1[(index % 7) as int]
}

proof fn lemma_draw_bound(t: u32, i: int)
    requires
        1 <= i <= 6,
    ensures
        0 <= draw(t, i) <= i,
{
    assert(0 <= t * (i + 1) < 0x1_0000_0000 * (i + 1)) by (nonlinear_arith)
        requires
            0 <= t < 0x1_0000_0000,
            1 <= i <= 6,
    ;
    assert(draw(t, i) < i + 1) by (nonlinear_arith)
        requires
            0 <= t * (i + 1) < 0x1_0000_0000 * (i + 1),
            draw(t, i) == (t * (i + 1)) / 0x1_0000_0000,
    ;
}

/// A permutation of the seven pieces.
pub open spec fn is_bag(bag: Seq<u8>) -> bool {
    &&& bag.len() == 7
    &&& forall|k: int| 0 <= k < 7 ==> #[trigger] bag[k] < 7
    &&& forall|a: int, b: int| 0 <= a < b < 7 ==> #[trigger] bag[a] != #[trigger] bag[b]
}

proof fn lemma_shuffle_bag(s: u32, bag: Seq<u8>, i: int)
    requires
        is_bag(bag),
        i <= 6,
    ensures
        is_bag(shuffle(s, bag, i).1),
    decreases i,
{
    if i >= 1 {
        let t = xorshift(s);
        let j = draw(t, i);
        lemma_draw_bound(t, i);
        let nb = bag.update(i, bag[j]).update(j, bag[i]);
        assert forall|a: int, b: int| 0 <= a < b < 7 implies #[trigger] nb[a] != #[trigger] nb[b] by {
            let fa = if a == j { i } else if a == i { j } else { a };
            let fb = if b == j { i } else if b == i { j } else { b };
            assert(nb[a] == bag[fa] && nb[b] == bag[fb]);
            if fa < fb {
                assert(bag[fa] != bag[fb]);
            } else {
                assert(bag[fb] != bag[fa]);
            }
        }
        assert forall|k: int| 0 <= k < 7 implies #[trigger] nb[k] < 7 by {
            let fk = if k == j { i } else if k == i { j } else { k };
            assert(nb[k] == bag[fk]);
        }
        lemma_shuffle_bag(t, nb, i - 1);
    }
}

/// Each aligned run of seven pieces is a permutation of the seven pieces: every
/// piece number is below seven, and two positions of the same bag hold different pieces.
pub proof fn law_seven_bag(seed: u32, a: u32, b: u32)
    requires
        a / 7 == b / 7,
        a != b,
    ensures
        piece_of(seed, a) < 7,
        piece_of(seed, a) != piece_of(seed, b),
{
    let bag = bag_after(seed_state(seed), (a / 7) as nat).1;
    assert(is_bag(fresh_bag()));
    lemma_shuffle_bag(state_before(seed_state(seed), (a / 7) as nat), fresh_bag(), 6);
    let ka = (a % 7) as int;
    let kb = (b % 7) as int;
    assert(ka != kb);
    assert(bag[ka] < 7);
    if ka < kb {
        assert(bag[ka] != bag[kb]);
    } else {
        assert(bag[kb] != bag[ka]);
    }
}

/// The piece at position `index` of the 7-bag sequence for `seed`: bag number
/// `index / 7` is shuffled with xorshift32 from the state the previous bags left.
pub fn piece_at(seed: u32, index: u32) -> (r: u8)
    ensures
        r == piece_of(seed, index),
{
    let mut state: u32 = if seed == 0 { 0x9e3779b9 } else { seed };
    let ghost s0 = state;
    let last = index / 7;
    let mut bag: Vec<u8> = vec![0u8, 1, 2, 3, 4, 5, 6];
    let mut b: u32 = 0;
    loop
        invariant_except_break
            state == state_before(s0, b as nat),
        invariant
            b <= last,
            last == index / 7,
            s0 == seed_state(seed),
        ensures
            bag@ == bag_after(s0, last as nat).1,
        decreases last - b,
    {
        bag = vec![0u8, 1, 2, 3, 4, 5, 6];
        proof {
            assert(bag@ =~= fresh_bag());
        }
        let ghost target = bag_after(s0, b as nat);
        let mut i: usize = 6;
        while i >= 1
            invariant
                i <= 6,
                bag@.len() == 7,
                shuffle(state, bag@, i as int) == target,
            decreases i,
        {
            state = xorshift_step(state);
            assert((state as u64) * ((i + 1) as u64) <= 0xffff_ffffu64 * 7) by (nonlinear_arith)
                requires
                    i <= 6,
            ;
            let prod: u64 = (state as u64) * ((i + 1) as u64);
            let j64: u64 = prod >> 32;
            proof {
                assert(prod >> 32 == prod / 0x1_0000_0000) by (bit_vector);
                lemma_draw_bound(state, i as int);
            }
            let j = j64 as usize;
            let ghost before = bag@;
            let t = bag[i];
            let u = bag[j];
            bag.set(i, u);
            bag.set(j, t);
            proof {
                assert(bag@ =~= before.update(i as int, before[j as int]).update(j as int, before[i as int]));
            }
            i = i - 1;
        }
        if b == last {
            break;
        }
        b = b + 1;
    }
    proof {
        assert(index % 7 < 7);
        lemma_shuffle_bag(state_before(s0, last as nat), fresh_bag(), 6);
        assert(is_bag(fresh_bag()));
    }
    bag[(index % 7) as usize]
}


/// Two candidates with the same cleared lines, holes and height.
pub open spec fn same_key(a: Candidate, b: Candidate) -> bool {
    a.lines == b.lines && a.holes == b.holes && a.height == b.height
}

pub open spec fn has_key(s: Seq<Candidate>, c: Candidate) -> bool {
    exists|k: int| 0 <= k < s.len() && same_key(#[trigger] s[k], c)
}

/// The first candidate of each (lines, holes, height), in order.
pub open spec fn first_keys(all: Seq<Candidate>) -> Seq<Candidate>
    decreases all.len(),
{
    if all.len() == 0 {
        Seq::empty()
    } else {
        let u = first_keys(all.drop_last());
        if has_key(u, all.last()) { u } else { u.push(all.last()) }
    }
}

pub open spec fn gap(a: int, b: int) -> int {
    if a >= b { a - b } else { b - a }
}

/// The L1 distance of two candidates' (lines, holes, height).
pub open spec fn dist(a: Candidate, b: Candidate) -> int {
    gap(a.lines as int, b.lines as int) + gap(a.holes as int, b.holes as int) + gap(a.height as int, b.height as int)
}

/// The distance from `c` to the nearest selected candidate.
pub open spec fn min_dist(u: Seq<Candidate>, sel: Seq<usize>, c: Candidate) -> int
    decreases sel.len(),
{
    if sel.len() <= 1 {
        dist(c, u[sel[0] as int])
    } else {
        let m = min_dist(u, sel.drop_last(), c);
        let d = dist(c, u[sel.last() as int]);
        if d < m { d } else { m }
    }
}

/// `i` is the last unselected index whose distance to the selection is largest.
pub open spec fn best_pick(u: Seq<Candidate>, sel: Seq<usize>, i: usize) -> bool {
    &&& (i as int) < u.len() && !sel.contains(i)
    &&& forall|j: usize| (j as int) < u.len() && !sel.contains(j) ==> min_dist(u, sel, #[trigger] u[j as int]) <= min_dist(u, sel, u[i as int])
    &&& forall|j: usize| i < j && (j as int) < u.len() && !sel.contains(j) ==> min_dist(u, sel, #[trigger] u[j as int]) < min_dist(u, sel, u[i as int])
}

/// The first `n` indices of the greedy spread: index 0, then repeatedly the best pick.
pub open spec fn greedy(u: Seq<Candidate>, n: nat) -> Seq<usize>
    decreases n,
{
    if n <= 1 {
        seq![0usize]
    } else {
        let g = greedy(u, (n - 1) as nat);
        g.push(choose|i: usize| best_pick(u, g, i))
    }
}

/// How many candidates the spread keeps: `limit` capped by the distinct ones, at least one.
pub open spec fn spread_count(unique: int, limit: int) -> nat {
    let m = if limit < unique { limit } else { unique };
    if m < 1 { 1 } else { m as nat }
}

/// Up to `limit` candidates with distinct (lines, holes, height), spread greedily
/// by max-min L1 distance from the first.
pub open spec fn sampled(all: Seq<Candidate>, limit: int) -> Seq<Candidate> {
    let u = first_keys(all);
    if u.len() == 0 {
        Seq::empty()
    } else {
        greedy(u, spread_count(u.len() as int, limit)).map_values(|i: usize| u[i as int])
    }
}

proof fn lemma_min_dist_key(u: Seq<Candidate>, sel: Seq<usize>, a: Candidate, b: Candidate)
    requires
        same_key(a, b),
    ensures
        min_dist(u, sel, a) == min_dist(u, sel, b),
    decreases sel.len(),
{
    if sel.len() > 1 {
        lemma_min_dist_key(u, sel.drop_last(), a, b);
    }
}

proof fn lemma_best_unique(u: Seq<Candidate>, sel: Seq<usize>, a: usize, b: usize)
    requires
        best_pick(u, sel, a),
        best_pick(u, sel, b),
    ensures
        a == b,
{
    if a < b {
        assert(min_dist(u, sel, u[b as int]) < min_dist(u, sel, u[a as int]));
        assert(min_dist(u, sel, u[a as int]) <= min_dist(u, sel, u[b as int]));
    } else if b < a {
        assert(min_dist(u, sel, u[a as int]) < min_dist(u, sel, u[b as int]));
        assert(min_dist(u, sel, u[b as int]) <= min_dist(u, sel, u[a as int]));
    }
}

/// A selection shorter than `n` misses some index below `n`.
proof fn lemma_missing(sel: Seq<usize>, n: usize)
    requires
        sel.len() < n,
    ensures
        exists|i: usize| i < n && !sel.contains(i),
{
    if forall|i: usize| i < n ==> sel.contains(i) {
        let ints = sel.map_values(|v: usize| v as int);
        assert forall|i: int| set_int_range(0, n as int).contains(i) implies ints.to_set().contains(i) by {
            let iu = i as usize;
            assert(sel.contains(iu));
            let k = choose|k: int| 0 <= k < sel.len() && sel[k] == iu;
            assert(ints[k] == i);
        }
        lemma_int_range(0, n as int);
        lemma_len_subset(set_int_range(0, n as int), ints.to_set());
        ints.lemma_cardinality_of_set();
    }
}

fn gap_u16(a: u16, b: u16) -> (r: u32)
    ensures
        r == gap(a as int, b as int),
{
    if a >= b { (a - b) as u32 } else { (b - a) as u32 }
}

fn distance(a: &Candidate, b: &Candidate) -> (r: u32)
    ensures
        r == dist(*a, *b),
{
    gap_u16(a.lines as u16, b.lines as u16) + gap_u16(a.holes, b.holes) + gap_u16(a.height as u16, b.height as u16)
}

fn nearest(unique: &Vec<Candidate>, selected: &Vec<usize>, c: &Candidate, Ghost(u): Ghost<Seq<Candidate>>) -> (r: u32)
    requires
        selected@.len() >= 1,
        unique@.len() == u.len(),
        forall|k: int| 0 <= k < u.len() ==> cand_same(#[trigger] unique@[k], u[k]),
        forall|k: int| 0 <= k < selected@.len() ==> (#[trigger] selected@[k] as int) < u.len(),
    ensures
        r == min_dist(u, selected@, *c),
{
    let mut m = distance(c, &unique[selected[0]]);
    proof {
        assert(selected@.take(1).len() == 1);
        assert(cand_same(unique@[selected@[0] as int], u[selected@[0] as int]));
    }
    let mut k: usize = 1;
    while k < selected.len()
        invariant
            1 <= k <= selected@.len(),
            unique@.len() == u.len(),
            forall|q: int| 0 <= q < u.len() ==> cand_same(#[trigger] unique@[q], u[q]),
            forall|q: int| 0 <= q < selected@.len() ==> (#[trigger] selected@[q] as int) < u.len(),
            m == min_dist(u, selected@.take(k as int), *c),
        decreases selected@.len() - k,
    {
        let d = distance(c, &unique[selected[k]]);
        proof {
            let t = selected@.take(k + 1);
            assert(t.drop_last() =~= selected@.take(k as int));
            assert(t.last() == selected@[k as int]);
            assert(cand_same(unique@[selected@[k as int] as int], u[selected@[k as int] as int]));
        }
        if d < m {
            m = d;
        }
        k = k + 1;
    }
    proof {
        assert(selected@.take(selected@.len() as int) =~= selected@);
    }
    m
}

fn contains_index(v: &Vec<usize>, i: usize) -> (r: bool)
    ensures
        r == v@.contains(i),
{
    let mut k: usize = 0;
    while k < v.len()
        invariant
            k <= v@.len(),
            forall|q: int| 0 <= q < k ==> v@[q] != i,
        decreases v@.len() - k,
    {
        if v[k] == i {
            return true;
        }
        k = k + 1;
    }
    false
}

/// The best pick for the current selection.
fn pick(unique: &Vec<Candidate>, selected: &Vec<usize>, Ghost(u): Ghost<Seq<Candidate>>) -> (r: usize)
    requires
        1 <= selected@.len() < u.len(),
        unique@.len() == u.len(),
        forall|k: int| 0 <= k < u.len() ==> cand_same(#[trigger] unique@[k], u[k]),
        forall|k: int| 0 <= k < selected@.len() ==> (#[trigger] selected@[k] as int) < u.len(),
    ensures
        best_pick(u, selected@, r),
{
    let ghost sel = selected@;
    let mut best: Option<usize> = None;
    let mut best_distance: u32 = 0;
    let mut i: usize = 0;
    while i < unique.len()
        invariant
            i <= u.len(),
            sel == selected@,
            1 <= sel.len() < u.len(),
            unique@.len() == u.len(),
            forall|k: int| 0 <= k < u.len() ==> cand_same(#[trigger] unique@[k], u[k]),
            forall|k: int| 0 <= k < sel.len() ==> (#[trigger] sel[k] as int) < u.len(),
            best is None ==> forall|j: usize| j < i ==> sel.contains(j),
            best matches Some(b) ==> {
                &&& b < i && !sel.contains(b) && best_distance == min_dist(u, sel, u[b as int])
                &&& forall|j: usize| j < i && !sel.contains(j) ==> min_dist(u, sel, #[trigger] u[j as int]) <= min_dist(u, sel, u[b as int])
                &&& forall|j: usize| b < j < i && !sel.contains(j) ==> min_dist(u, sel, #[trigger] u[j as int]) < min_dist(u, sel, u[b as int])
            },
        decreases u.len() - i,
    {
        if !contains_index(selected, i) {
            let d = nearest(unique, selected, &unique[i], Ghost(u));
            proof {
                assert(cand_same(unique@[i as int], u[i as int]));
                lemma_min_dist_key(u, sel, unique@[i as int], u[i as int]);
            }
            let take = match best {
                None => true,
                Some(_) => d >= best_distance,
            };
            if take {
                best = Some(i);
                best_distance = d;
            }
        }
        i = i + 1;
    }
    proof {
        lemma_missing(sel, u.len() as usize);
    }
    match best {
        Some(b) => b,
        None => {
            proof {
                let j = choose|j: usize| j < u.len() && !sel.contains(j);
                assert(sel.contains(j));
            }
            0
        },
    }
}

/// At most `limit` candidates (at least one when any exists) with distinct lines,
/// holes and height: the first, then repeatedly the one farthest from those chosen.
pub fn sample_candidates(all: &Vec<Candidate>, limit: usize) -> (r: Vec<Candidate>)
    ensures
        r@.len() == sampled(all@, limit as int).len(),
        forall|k: int| 0 <= k < r@.len() ==> cand_same(#[trigger] r@[k], sampled(all@, limit as int)[k]),
{
    let mut unique: Vec<Candidate> = Vec::new();
    let mut i: usize = 0;
    while i < all.len()
        invariant
            i <= all@.len(),
            unique@.len() == first_keys(all@.take(i as int)).len(),
            forall|k: int| 0 <= k < unique@.len() ==> cand_same(#[trigger] unique@[k], first_keys(all@.take(i as int))[k]),
        decreases all@.len() - i,
    {
        let ghost u = first_keys(all@.take(i as int));
        let c = &all[i];
        let mut dup = false;
        let mut k: usize = 0;
        while k < unique.len()
            invariant
                k <= unique@.len(),
                unique@.len() == u.len(),
                forall|q: int| 0 <= q < unique@.len() ==> cand_same(#[trigger] unique@[q], u[q]),
                dup == exists|q: int| 0 <= q < k && same_key(#[trigger] u[q], *c),
            decreases unique@.len() - k,
        {
            let e = &unique[k];
            proof {
                assert(cand_same(unique@[k as int], u[k as int]));
            }
            if e.lines == c.lines && e.holes == c.holes && e.height == c.height {
                dup = true;
            }
            k = k + 1;
        }
        proof {
            let t = all@.take(i + 1);
            assert(t.drop_last() =~= all@.take(i as int));
            assert(t.last() == all@[i as int]);
            assert(dup == has_key(u, all@[i as int]));
        }
        if !dup {
            let ghost before = unique@;
            unique.push(c.clone_candidate());
            proof {
                let nu = first_keys(all@.take(i + 1));
                assert(nu == u.push(all@[i as int]));
                assert forall|q: int| 0 <= q < unique@.len() implies cand_same(#[trigger] unique@[q], nu[q]) by {
                    if q < before.len() {
                        assert(unique@[q] == before[q]);
                    }
                }
            }
        }
        i = i + 1;
    }
    let ghost u = first_keys(all@);
    proof {
        assert(all@.take(all@.len() as int) =~= all@);
    }
    if unique.len() == 0 {
        return Vec::new();
    }
    let target = if limit < unique.len() { limit } else { unique.len() };
    let ghost n = spread_count(u.len() as int, limit as int);
    let mut selected: Vec<usize> = Vec::new();
    selected.push(0);
    proof {
        assert(selected@ =~= greedy(u, 1));
    }
    while selected.len() < target
        invariant
            unique@.len() == u.len(),
            u.len() >= 1,
            forall|k: int| 0 <= k < u.len() ==> cand_same(#[trigger] unique@[k], u[k]),
            target <= u.len(),
            n == spread_count(u.len() as int, limit as int),
            target == (if limit < u.len() { limit as int } else { u.len() as int }),
            1 <= selected@.len() <= n,
            selected@ == greedy(u, selected@.len()),
            forall|k: int| 0 <= k < selected@.len() ==> (#[trigger] selected@[k] as int) < u.len(),
        decreases target - selected@.len(),
    {
        let b = pick(&unique, &selected, Ghost(u));
        let ghost g = selected@;
        proof {
            let c = choose|i: usize| best_pick(u, g, i);
            lemma_best_unique(u, g, b, c);
            assert(greedy(u, (g.len() + 1) as nat) == g.push(c));
        }
        selected.push(b);
    }
    proof {
        assert(selected@.len() == n);
    }
    let mut out: Vec<Candidate> = Vec::new();
    let mut k: usize = 0;
    while k < selected.len()
        invariant
            k <= selected@.len(),
            unique@.len() == u.len(),
            forall|q: int| 0 <= q < u.len() ==> cand_same(#[trigger] unique@[q], u[q]),
            forall|q: int| 0 <= q < selected@.len() ==> (#[trigger] selected@[q] as int) < u.len(),
            out@.len() == k,
            forall|q: int| 0 <= q < k ==> cand_same(#[trigger] out@[q], u[selected@[q] as int]),
        decreases selected@.len() - k,
    {
        let c = unique[selected[k]].clone_candidate();
        proof {
            assert(cand_same(unique@[selected@[k as int] as int], u[selected@[k as int] as int]));
        }
        let ghost before = out@;
        out.push(c);
        proof {
            assert forall|q: int| 0 <= q < k + 1 implies cand_same(#[trigger] out@[q], u[selected@[q] as int]) by {
                if q < k {
                    assert(out@[q] == before[q]);
                }
            }
        }
        k = k + 1;
    }
    out
}


/// Where a value stands among others.
#[derive(Clone, Copy, Debug, PartialEq, Eq, Structural)]
pub enum Rank {
    Equal,
    Min,
    Max,
    Mid,
}

pub open spec fn seq_min(v: Seq<u16>) -> int
    decreases v.len(),
{
    if v.len() <= 1 {
        v[0] as int
    } else {
        let m = seq_min(v.drop_last());
        if (v.last() as int) < m { v.last() as int } else { m }
    }
}

pub open spec fn seq_max(v: Seq<u16>) -> int
    decreases v.len(),
{
    if v.len() <= 1 {
        v[0] as int
    } else {
        let m = seq_max(v.drop_last());
        if (v.last() as int) > m { v.last() as int } else { m }
    }
}

/// "equal" when all values agree, else "min", "max" or "mid" for `value`.
pub open spec fn rank_of(value: u16, values: Seq<u16>) -> Rank {
    let lo = seq_min(values);
    let hi = seq_max(values);
    if lo == hi {
        Rank::Equal
    } else if value == lo {
        Rank::Min
    } else if value == hi {
        Rank::Max
    } else {
        Rank::Mid
    }
}

fn rank(value: u16, values: &Vec<u16>) -> (r: Rank)
    requires
        values@.len() >= 1,
    ensures
        r == rank_of(value, values@),
{
    let mut lo: u16 = values[0];
    let mut hi: u16 = values[0];
    proof {
        assert(values@.take(1).len() == 1);
    }
    let mut i: usize = 1;
    while i < values.len()
        invariant
            1 <= i <= values@.len(),
            lo as int == seq_min(values@.take(i as int)),
            hi as int == seq_max(values@.take(i as int)),
        decreases values@.len() - i,
    {
        proof {
            let t = values@.take(i + 1);
            assert(t.drop_last() =~= values@.take(i as int));
            assert(t.last() == values@[i as int]);
        }
        if values[i] < lo {
            lo = values[i];
        }
        if values[i] > hi {
            hi = values[i];
        }
        i = i + 1;
    }
    proof {
        assert(values@.take(values@.len() as int) =~= values@);
    }
    if lo == hi {
        Rank::Equal
    } else if value == lo {
        Rank::Min
    } else if value == hi {
        Rank::Max
    } else {
        Rank::Mid
    }
}

/// The rank's word in ASCII.
pub open spec fn rank_word(r: Rank) -> Seq<u8> {
    match r {
        Rank::Equal => seq![101u8, 113u8, 117u8, 97u8, 108u8],
        Rank::Min => seq![109u8, 105u8, 110u8],
        Rank::Max => seq![109u8, 97u8, 120u8],
        Rank::Mid => seq![109u8, 105u8, 100u8],
    }
}

fn push_bytes(out: &mut Vec<u8>, b: &[u8])
    ensures
        final(out)@ == old(out)@ + b@,
{
    let mut i: usize = 0;
    while i < b.len()
        invariant
            i <= b@.len(),
            out@ == old(out)@ + b@.take(i as int),
        decreases b@.len() - i,
    {
        out.push(b[i]);
        assert(b@.take(i + 1) =~= b@.take(i as int).push(b@[i as int]));
        i = i + 1;
    }
    assert(b@.take(b@.len() as int) =~= b@);
}

fn push_rank(out: &mut Vec<u8>, r: Rank)
    ensures
        final(out)@ == old(out)@ + rank_word(r),
{
    let ghost start = out@;
    match r {
        Rank::Equal => {
            out.push(101u8); out.push(113u8); out.push(117u8); out.push(97u8); out.push(108u8);
        },
        Rank::Min => {
            out.push(109u8); out.push(105u8); out.push(110u8);
        },
        Rank::Max => {
            out.push(109u8); out.push(97u8); out.push(120u8);
        },
        Rank::Mid => {
            out.push(109u8); out.push(105u8); out.push(100u8);
        },
    }
    assert(out@ =~= start + rank_word(r));
}

pub open spec fn holes_of(opts: Seq<Candidate>) -> Seq<u16> {
    opts.map_values(|c: Candidate| c.holes)
}

pub open spec fn heights_of(opts: Seq<Candidate>) -> Seq<u16> {
    opts.map_values(|c: Candidate| c.height as u16)
}

pub open spec fn max_lines(opts: Seq<Candidate>) -> int
    decreases opts.len(),
{
    if opts.len() <= 1 {
        opts[0].lines as int
    } else {
        let m = max_lines(opts.drop_last());
        if (opts.last().lines as int) > m { opts.last().lines as int } else { m }
    }
}

/// Lines each option clears fewer than the best option.
pub open spec fn missed_of(opts: Seq<Candidate>) -> Seq<u16> {
    opts.map_values(|c: Candidate| (max_lines(opts) - c.lines) as u16)
}

/// "{holes rank} holes,{height rank} height,{missed rank} missed" for option `i`.
pub open spec fn option_text(opts: Seq<Candidate>, i: int) -> Seq<u8> {
    rank_word(rank_of(opts[i].holes, holes_of(opts))) + seq![32u8, 104u8, 111u8, 108u8, 101u8, 115u8, 44u8]
        + rank_word(rank_of(opts[i].height as u16, heights_of(opts))) + seq![32u8, 104u8, 101u8, 105u8, 103u8, 104u8, 116u8, 44u8]
        + rank_word(rank_of((max_lines(opts) - opts[i].lines) as u16, missed_of(opts))) + seq![32u8, 109u8, 105u8, 115u8, 115u8, 101u8, 100u8]
}

/// The state text of a placement request.
pub const QUERY_STATE: &'static str = "Min holes";

/// A request to rank placement options; the caller fixes the temperature at 1.
pub struct PlacementRequest {
    pub state: String,
    pub question: String,
    pub options: Vec<OptionSpec>,
    pub abstention: bool,
}

fn ascii_text(bytes: Vec<u8>) -> (s: String)
    requires
        forall|i: int| 0 <= i < bytes@.len() ==> bytes@[i] < 128,
    ensures
        s@ == ascii_chars(bytes@),
{
    ascii_string(bytes)
}

/// The request that asks the engine to choose among `options`: state "Min holes",
/// no question, no abstention, option `i` with id `i` in decimal and its ranks.
pub fn request(options: &Vec<Candidate>) -> (r: PlacementRequest)
    requires
        options@.len() >= 1,
    ensures
        r.state@ == QUERY_STATE@,
        r.question@ == Seq::<char>::empty(),
        !r.abstention,
        r.options@.len() == options@.len(),
        forall|i: int| 0 <= i < r.options@.len() ==> (#[trigger] r.options@[i]).id@ == ascii_chars(decimal(i as nat))
            && r.options@[i].text@ == ascii_chars(option_text(options@, i)),
{
    let ghost opts = options@;
    let mut holes: Vec<u16> = Vec::new();
    let mut heights: Vec<u16> = Vec::new();
    let mut most: u8 = options[0].lines;
    let mut i: usize = 0;
    proof {
        assert(opts.take(1).len() == 1);
    }
    while i < options.len()
        invariant
            i <= opts.len(),
            opts == options@,
            opts.len() >= 1,
            holes@ == holes_of(opts).take(i as int),
            heights@ == heights_of(opts).take(i as int),
            i >= 1 ==> most as int == max_lines(opts.take(i as int)),
            i == 0 ==> most == opts[0].lines,
            forall|k: int| 0 <= k < i ==> (#[trigger] opts[k]).lines <= most,
        decreases opts.len() - i,
    {
        holes.push(options[i].holes);
        heights.push(options[i].height as u16);
        proof {
            assert(holes_of(opts).take(i + 1) =~= holes_of(opts).take(i as int).push(opts[i as int].holes));
            assert(heights_of(opts).take(i + 1) =~= heights_of(opts).take(i as int).push(opts[i as int].height as u16));
            let t = opts.take(i + 1);
            assert(t.drop_last() =~= opts.take(i as int));
            assert(t.last() == opts[i as int]);
        }
        if options[i].lines > most {
            most = options[i].lines;
        }
        i = i + 1;
    }
    proof {
        assert(holes_of(opts).take(opts.len() as int) =~= holes_of(opts));
        assert(heights_of(opts).take(opts.len() as int) =~= heights_of(opts));
        assert(opts.take(opts.len() as int) =~= opts);
    }
    let mut missed: Vec<u16> = Vec::new();
    let mut i: usize = 0;
    while i < options.len()
        invariant
            i <= opts.len(),
            opts == options@,
            most as int == max_lines(opts),
            forall|k: int| 0 <= k < opts.len() ==> (#[trigger] opts[k]).lines <= most,
            missed@ == missed_of(opts).take(i as int),
        decreases opts.len() - i,
    {
        missed.push((most - options[i].lines) as u16);
        proof {
            assert(missed_of(opts).take(i + 1) =~= missed_of(opts).take(i as int).push((max_lines(opts) - opts[i as int].lines) as u16));
        }
        i = i + 1;
    }
    proof {
        assert(missed_of(opts).take(opts.len() as int) =~= missed_of(opts));
    }
    let mut out: Vec<OptionSpec> = Vec::new();
    let mut i: usize = 0;
    while i < options.len()
        invariant
            i <= opts.len(),
            opts == options@,
            opts.len() >= 1,
            holes@ == holes_of(opts),
            heights@ == heights_of(opts),
            missed@ == missed_of(opts),
            most as int == max_lines(opts),
            forall|k: int| 0 <= k < opts.len() ==> (#[trigger] opts[k]).lines <= most,
            out@.len() == i,
            forall|k: int| 0 <= k < i ==> (#[trigger] out@[k]).id@ == ascii_chars(decimal(k as nat))
                && out@[k].text@ == ascii_chars(option_text(opts, k)),
        decreases opts.len() - i,
    {
        let c = &options[i];
        let mut text: Vec<u8> = Vec::new();
        push_rank(&mut text, rank(c.holes, &holes));
        push_bytes(&mut text, vec![32u8, 104u8, 111u8, 108u8, 101u8, 115u8, 44u8].as_slice());
        push_rank(&mut text, rank(c.height as u16, &heights));
        push_bytes(&mut text, vec![32u8, 104u8, 101u8, 105u8, 103u8, 104u8, 116u8, 44u8].as_slice());
        push_rank(&mut text, rank((most - c.lines) as u16, &missed));
        push_bytes(&mut text, vec![32u8, 109u8, 105u8, 115u8, 115u8, 101u8, 100u8].as_slice());
        proof {
            assert(text@ =~= option_text(opts, i as int));
            assert forall|q: int| 0 <= q < text@.len() implies text@[q] < 128 by {}
        }
        let id = decimal_bytes(i as u64);
        proof {
            lemma_decimal_ascii(i as nat);
        }
        let ghost before = out@;
        out.push(OptionSpec { id: ascii_text(id), text: ascii_text(text) });
        proof {
            assert forall|k: int| 0 <= k < i + 1 implies (#[trigger] out@[k]).id@ == ascii_chars(decimal(k as nat))
                && out@[k].text@ == ascii_chars(option_text(opts, k)) by {
                if k < i {
                    assert(out@[k] == before[k]);
                }
            }
        }
        i = i + 1;
    }
    PlacementRequest {
        state: String::from_str(QUERY_STATE),
        question: String::new(),
        options: out,
        abstention: false,
    }
}


/// The rule set these queries implement.
pub const RULES: &'static str = "placement-v1-normalized-cw-no-kicks-7bag-query-feature-cost-v1";

/// The last turn a query may ask about is one below this.
pub const MAX_TURNS: u32 = 128;

/// A stateless query: the browser's board, the game's seed, the turn number, the
/// lines cleared so far, and whether to ask the engine (0) or take the recommendation (1).
pub struct TetrisQueryInput {
    pub board: Vec<u8>,
    pub seed: u32,
    pub turn: u32,
    pub lines: u32,
    pub mode: u8,
}

/// A well-formed query: a full board of cells 0 to 7, a turn below the limit,
/// at most four lines per past turn, and mode 0 or 1.
pub open spec fn query_valid(input: TetrisQueryInput) -> bool {
    &&& input.board@.len() == BOARD_CELLS
    &&& forall|i: int| 0 <= i < input.board@.len() ==> #[trigger] input.board@[i] <= 7
    &&& input.turn < MAX_TURNS
    &&& input.lines <= input.turn * 4
    &&& input.mode <= 1
}

/// The number of legal placements for the turn's piece and the sampled options,
/// or "Invalid query board or turn" for a malformed query and "No legal
/// placements" when the piece cannot spawn.
pub fn query_options(input: &TetrisQueryInput) -> (r: Result<(usize, Vec<Candidate>), String>)
    ensures
        !query_valid(*input) ==> (match r {
            Err(m) => m@ == "Invalid query board or turn"@,
            Ok(_) => false,
        }),
        query_valid(*input) ==> {
            let piece = piece_of(input.seed, input.turn);
            let sv = piece_shapes(piece);
            &&& !fits_cells(input.board@, placed(sv, spawn(sv))) ==> (match r {
                Err(m) => m@ == "No legal placements"@,
                Ok(_) => false,
            })
            &&& fits_cells(input.board@, placed(sv, spawn(sv))) ==> (match r {
                Ok((n, opts)) => exists|all: Seq<Candidate>|
                    #[trigger] placements_ok(input.board@, piece, all) && n == all.len() && opts@.len() == sampled(all, 4).len()
                    && forall|k: int| 0 <= k < opts@.len() ==> cand_same(#[trigger] opts@[k], sampled(all, 4)[k]),
                Err(_) => false,
            })
        },
{
    let mut ok = input.board.len() == BOARD_CELLS;
    let mut i: usize = 0;
    while ok && i < input.board.len()
        invariant
            i <= input.board@.len(),
            ok ==> input.board@.len() == BOARD_CELLS,
            ok ==> forall|k: int| 0 <= k < i ==> #[trigger] input.board@[k] <= 7,
            !ok ==> !query_valid(*input),
        decreases input.board@.len() - i,
    {
        if input.board[i] > 7 {
            ok = false;
        }
        i = i + 1;
    }
    if !ok || input.turn >= MAX_TURNS || input.lines > input.turn * 4 || input.mode > 1 {
        return Err(String::from_str("Invalid query board or turn"));
    }
    let piece = piece_at(input.seed, input.turn);
    proof {
        lemma_piece_range(input.seed, input.turn);
    }
    let all = placements(input.board.as_slice(), piece);
    let options = sample_candidates(&all, 4);
    if options.len() == 0 {
        proof {
            if all@.len() > 0 {
                let u = first_keys(all@);
                lemma_first_keys_nonempty(all@);
            }
        }
        return Err(String::from_str("No legal placements"));
    }
    proof {
        assert(placements_ok(input.board@, piece, all@));
    }
    Ok((all.len(), options))
}

proof fn lemma_first_keys_nonempty(all: Seq<Candidate>)
    requires
        all.len() > 0,
    ensures
        first_keys(all).len() > 0,
    decreases all.len(),
{
    if all.len() > 1 {
        lemma_first_keys_nonempty(all.drop_last());
    }
}

proof fn lemma_piece_range(seed: u32, index: u32)
    ensures
        piece_of(seed, index) < 7,
{
    assert(is_bag(fresh_bag()));
    lemma_shuffle_bag(state_before(seed_state(seed), (index / 7) as nat), fresh_bag(), 6);
}

/// The option the engine's reply selected: "Invalid selected ID" unless it parses
/// as a `usize`, "Invalid model selection" unless it is below `count`.
pub fn model_selection(selected: &str, count: usize) -> (r: Result<usize, String>)
    ensures
        (match parse_usize(selected@) {
            None => (match r {
                Err(m) => m@ == "Invalid selected ID"@,
                Ok(_) => false,
            }),
            Some(v) => if v < count {
                r == Ok::<usize, String>(v as usize)
            } else {
                (match r {
                    Err(m) => m@ == "Invalid model selection"@,
                    Ok(_) => false,
                })
            },
        }),
{
    let cs = chars_of(selected);
    let ghost sv = selected@;
    let start: usize = if cs.len() > 0 && cs[0] == '+' { 1 } else { 0 };
    let ghost d = unsigned_part(sv);
    proof {
        assert(d =~= sv.subrange(start as int, sv.len() as int));
    }
    if cs.len() == start {
        return Err(String::from_str("Invalid selected ID"));
    }
    let mut value: usize = 0;
    let mut i: usize = start;
    while i < cs.len()
        invariant
            start <= i <= cs@.len(),
            cs@ == sv,
            sv == selected@,
            d == unsigned_part(sv),
            d =~= sv.subrange(start as int, sv.len() as int),
            forall|k: int| 0 <= k < i - start ==> is_digit(#[trigger] d[k]),
            value as int == digits_value(d.take(i - start)),
        decreases cs@.len() - i,
    {
        let c = cs[i];
        if c < '0' || c > '9' {
            proof {
                assert(!is_digit(d[i - start]));
                assert(!all_digits(d));
            }
            return Err(String::from_str("Invalid selected ID"));
        }
        let digit = (c as u32 - 48) as usize;
        proof {
            let t = d.take(i - start + 1);
            assert(t.drop_last() =~= d.take(i - start));
            assert(t.last() == c);
        }
        let ghost next = digits_value(d.take(i - start + 1));
        proof {
            assert(next == value * 10 + digit);
            if all_digits(d) {
                lemma_digits_grow(d, i - start + 1);
            }
        }
        if value > (usize::MAX - digit) / 10 {
            proof {
                assert(value * 10 + digit > usize::MAX) by (nonlinear_arith)
                    requires
                        value > (usize::MAX - digit) / 10,
                        0 <= digit <= 9,
                ;
            }
            return Err(String::from_str("Invalid selected ID"));
        }
        proof {
            assert(value * 10 + digit <= usize::MAX) by (nonlinear_arith)
                requires
                    value <= (usize::MAX - digit) / 10,
                    0 <= digit <= 9,
            ;
        }
        value = value * 10 + digit;
        i = i + 1;
    }
    proof {
        assert(d.take(d.len() as int) =~= d);
        assert(all_digits(d));
    }
    if value >= count {
        return Err(String::from_str("Invalid model selection"));
    }
    Ok(value)
}


/// What one placement does to the game: the piece placed, the piece after it,
/// the board after landing, the lines it cleared, the running total, and
/// whether the game is over.
pub struct TurnOutcome {
    pub piece: u8,
    pub next: u8,
    pub after: Vec<u8>,
    pub lines: u8,
    pub total_lines: u32,
    pub over: bool,
}

/// Lands the turn's piece on `cells`. The game is over at the turn limit or when
/// the next piece cannot spawn on the new board.
pub fn advance(input: &TetrisQueryInput, cells: &[(i8, i8)]) -> (t: TurnOutcome)
    requires
        query_valid(*input),
        forall|i: int| 0 <= i < cells@.len() ==> on_board(#[trigger] cells_view(cells@)[i]),
    ensures
        t.piece == piece_of(input.seed, input.turn),
        t.next == piece_of(input.seed, (input.turn + 1) as u32),
        t.after@ == landed_board(input.board@, t.piece, cells_view(cells@)),
        t.lines == landed_lines(input.board@, t.piece, cells_view(cells@)),
        t.total_lines == input.lines + t.lines,
        t.over == (input.turn + 1 >= MAX_TURNS || !fits_cells(t.after@, placed(piece_shapes(t.next), spawn(piece_shapes(t.next))))),
{
    let piece = piece_at(input.seed, input.turn);
    let next = piece_at(input.seed, input.turn + 1);
    proof {
        lemma_piece_range(input.seed, input.turn);
        lemma_piece_range(input.seed, (input.turn + 1) as u32);
    }
    let (after, lines) = landed(input.board.as_slice(), piece, cells);
    let over = if input.turn + 1 >= MAX_TURNS {
        true
    } else {
        placements(after.as_slice(), next).len() == 0
    };
    TurnOutcome { piece, next, after, lines, total_lines: input.lines + lines as u32, over }
}

} // verus!
