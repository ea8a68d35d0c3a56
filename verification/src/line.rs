//! Walking a straight line of grid cells, one cell at a time.
use vstd::prelude::*;
use vstd::arithmetic::div_mod::{
    lemma_div_is_ordered, lemma_div_plus_one, lemma_fundamental_div_mod_converse_div,
};

verus! {

/// The absolute value of an integer.
pub open spec fn abs_int(a: int) -> int {
    if a < 0 { -a } else { a }
}

/// The number of steps of the line from the origin by `(dx, dy)`: the larger
/// of the two absolute values.
pub open spec fn line_len(dx: int, dy: int) -> int {
    if abs_int(dx) >= abs_int(dy) { abs_int(dx) } else { abs_int(dy) }
}

/// The smaller of the two absolute values.
pub open spec fn line_short(dx: int, dy: int) -> int {
    if abs_int(dx) >= abs_int(dy) { abs_int(dy) } else { abs_int(dx) }
}

/// How far the line has moved along its shorter axis after `i` steps:
/// `i * short / len` rounded to the nearest integer, halves rounded up.
pub open spec fn line_short_progress(dx: int, dy: int, i: int) -> int {
    (2 * i * line_short(dx, dy) + line_len(dx, dy)) / (2 * line_len(dx, dy))
}

/// The cell reached after `i` steps of the walk for the offset `(dx, dy)`.
/// The walk heads in the direction of `(-dx, -dy)`: the major axis advances by
/// one each step and the minor axis follows the rounded slope.
pub open spec fn line_point(dx: int, dy: int, i: int) -> (int, int) {
    let s = line_short_progress(dx, dy, i);
    let (xi, yi) = if abs_int(dx) > abs_int(dy) { (i, s) } else { (s, i) };
    (if dx < 0 { xi } else { -xi }, if dy < 0 { yi } else { -yi })
}

/// The points visited by the walk for `(dx, dy)`: `(0, 0)` alone when the
/// offset is zero, and otherwise the points after steps `1..=len`.
pub open spec fn line_points(dx: int, dy: int) -> Seq<(int, int)> {
    if dx == 0 && dy == 0 {
        seq![(0int, 0int)]
    } else {
        Seq::new(line_len(dx, dy) as nat, |i: int| line_point(dx, dy, i + 1))
    }
}

/// The step taken to reach point `i` of `line_points`, from the previous
/// point (from the origin for the first).
pub open spec fn line_delta(dx: int, dy: int, i: int) -> (int, int) {
    let p = line_points(dx, dy)[i];
    if i == 0 {
        p
    } else {
        let q = line_points(dx, dy)[i - 1];
        (p.0 - q.0, p.1 - q.1)
    }
}

proof fn lemma_progress_step(dx: int, dy: int, i: int)
    requires
        line_len(dx, dy) > 0,
        1 <= i,
    ensures
        line_short_progress(dx, dy, i - 1) <= line_short_progress(dx, dy, i)
            <= line_short_progress(dx, dy, i - 1) + 1,
{
    let l = line_len(dx, dy);
    let s = line_short(dx, dy);
    let d = 2 * l;
    let a = 2 * (i - 1) * s + l;
    let b = 2 * i * s + l;
    assert(2 * i * s + l == 2 * (i - 1) * s + l + 2 * s) by (nonlinear_arith);
    assert(0 <= s <= l);
    lemma_div_is_ordered(a, b, d);
    lemma_div_is_ordered(b, a + d, d);
    lemma_div_plus_one(a, d);
    assert(d + a == a + d);
}

proof fn lemma_progress_bounds(dx: int, dy: int, i: int)
    requires
        line_len(dx, dy) > 0,
        0 <= i <= line_len(dx, dy),
    ensures
        0 <= line_short_progress(dx, dy, i) <= line_short(dx, dy),
        i == line_len(dx, dy) ==> line_short_progress(dx, dy, i) == line_short(dx, dy),
{
    let l = line_len(dx, dy);
    let s = line_short(dx, dy);
    assert(0 <= s <= l);
    lemma_progress_end(dx, dy);
    if i == l {
    } else {
        lemma_progress_monotone(dx, dy, i, l);
        assert(2 * i * s >= 0) by (nonlinear_arith)
            requires
                i >= 0,
                s >= 0,
        ;
        lemma_div_is_ordered(0, 2 * i * s + l, 2 * l);
    }
}

proof fn lemma_progress_end(dx: int, dy: int)
    requires
        line_len(dx, dy) > 0,
    ensures
        line_short_progress(dx, dy, line_len(dx, dy)) == line_short(dx, dy),
{
    let l = line_len(dx, dy);
    let s = line_short(dx, dy);
    assert(2 * l * s + l == s * (2 * l) + l) by (nonlinear_arith);
    lemma_fundamental_div_mod_converse_div(2 * l * s + l, 2 * l, s, l);
}

proof fn lemma_progress_zero(dx: int, dy: int)
    requires
        line_len(dx, dy) > 0,
    ensures
        line_short_progress(dx, dy, 0) == 0,
{
    let l = line_len(dx, dy);
    assert(2 * 0 * line_short(dx, dy) + l == 0 * (2 * l) + l) by (nonlinear_arith);
    lemma_fundamental_div_mod_converse_div(l, 2 * l, 0, l);
}

proof fn lemma_progress_monotone(dx: int, dy: int, i: int, j: int)
    requires
        line_len(dx, dy) > 0,
        0 <= i <= j,
    ensures
        line_short_progress(dx, dy, i) <= line_short_progress(dx, dy, j),
{
    let l = line_len(dx, dy);
    let s = line_short(dx, dy);
    assert(2 * i * s + l <= 2 * j * s + l) by (nonlinear_arith)
        requires
            0 <= i <= j,
            s >= 0,
    ;
    lemma_div_is_ordered(2 * i * s + l, 2 * j * s + l, 2 * l);
}

/// The walk for a non-zero offset ends exactly at `(-dx, -dy)`.
/// The first step of a straight walk longer than one cell: sideways it is
/// one cell against the direction of `dx`, downwards one cell up.
pub proof fn lemma_first_line_step(dx: int, dy: int)
    requires
        (dy == 0 && (dx > 1 || dx < -1)) || (dx == 0 && dy > 1),
    ensures
        line_points(dx, dy).len() > 0,
        line_delta(dx, dy, 0) == (if dy == 0 { if dx > 0 { -1int } else { 1int } } else { 0int }, if dy == 0 {
            0int
        } else {
            -1int
        }),
{
    let l = line_len(dx, dy);
    lemma_fundamental_div_mod_converse_div(l, 2 * l, 0, l);
    assert(line_short_progress(dx, dy, 1) == 0);
}

pub proof fn lemma_line_reaches_end(dx: int, dy: int)
    requires
        dx != 0 || dy != 0,
    ensures
        line_points(dx, dy).len() == line_len(dx, dy),
        line_points(dx, dy).last() == (-dx, -dy),
{
    lemma_progress_end(dx, dy);
}

/// Every step of the walk moves to one of the eight neighbouring cells (or,
/// for the zero offset, stays put): each coordinate changes by at most one,
/// and the coordinate of the longer axis changes by exactly one.
pub proof fn lemma_line_steps_are_adjacent(dx: int, dy: int, i: int)
    requires
        0 <= i < line_points(dx, dy).len(),
    ensures
        -1 <= line_delta(dx, dy, i).0 <= 1,
        -1 <= line_delta(dx, dy, i).1 <= 1,
        (dx != 0 || dy != 0) && abs_int(dx) > abs_int(dy) ==> abs_int(line_delta(dx, dy, i).0) == 1,
        (dx != 0 || dy != 0) && abs_int(dx) <= abs_int(dy) ==> abs_int(line_delta(dx, dy, i).1) == 1,
{
    if dx == 0 && dy == 0 {
    } else {
        lemma_progress_step(dx, dy, i + 1);
        if i == 0 {
            lemma_progress_zero(dx, dy);
        }
    }
}

/// Every point of the walk lies in the box spanned by the origin and
/// `(-dx, -dy)`.
pub proof fn lemma_line_points_in_box(dx: int, dy: int, i: int)
    requires
        0 <= i < line_points(dx, dy).len(),
    ensures
        min3(0, -dx) <= line_points(dx, dy)[i].0 <= max3(0, -dx),
        min3(0, -dy) <= line_points(dx, dy)[i].1 <= max3(0, -dy),
{
    if dx == 0 && dy == 0 {
    } else {
        lemma_progress_bounds(dx, dy, i + 1);
    }
}

/// The smaller of two integers.
pub open spec fn min3(a: int, b: int) -> int {
    if a <= b { a } else { b }
}

/// The larger of two integers.
pub open spec fn max3(a: int, b: int) -> int {
    if a >= b { a } else { b }
}

/// The offsets of the cells visited when walking from the origin in the
/// direction of `(-dx, -dy)`, as `line_points` describes them.
pub fn iterate_over_line_common(dx: isize, dy: isize) -> (v: Vec<(isize, isize)>)
    requires
        dx != isize::MIN,
        dy != isize::MIN,
    ensures
        v@.len() == line_points(dx as int, dy as int).len(),
        forall|i: int|
            0 <= i < v@.len() ==> (#[trigger] v@[i]).0 == line_points(dx as int, dy as int)[i].0
                && v@[i].1 == line_points(dx as int, dy as int)[i].1,
{
    let mut v: Vec<(isize, isize)> = Vec::new();
    if dx == 0 && dy == 0 {
        v.push((0, 0));
        assert(v@.len() == 1);
        return v;
    }
    let ax: isize = if dx < 0 { -dx } else { dx };
    let ay: isize = if dy < 0 { -dy } else { dy };
    let dx_is_larger = ax > ay;
    let x_modifier: isize = if dx < 0 { 1 } else { -1 };
    let y_modifier: isize = if dy < 0 { 1 } else { -1 };
    let longer: isize = if ax >= ay { ax } else { ay };
    let shorter: isize = if ax >= ay { ay } else { ax };
    let ghost gl = line_len(dx as int, dy as int);
    assert(longer == gl);
    assert(shorter == line_short(dx as int, dy as int));
    for k in 0..longer
        invariant
            longer == gl,
            gl == line_len(dx as int, dy as int),
            gl > 0,
            shorter == line_short(dx as int, dy as int),
            dx_is_larger == (abs_int(dx as int) > abs_int(dy as int)),
            x_modifier == (if dx < 0 { 1int } else { -1int }),
            y_modifier == (if dy < 0 { 1int } else { -1int }),
            v@.len() == k,
            forall|j: int|
                0 <= j < v@.len() ==> (#[trigger] v@[j]).0 == line_point(dx as int, dy as int, j + 1).0
                    && v@[j].1 == line_point(dx as int, dy as int, j + 1).1,
    {
        let i: isize = k + 1;
        proof {
            lemma_progress_bounds(dx as int, dy as int, i as int);
        }
        assert(0 <= 2 * (i as int) * (shorter as int) <= 2 * (isize::MAX as int) * (isize::MAX as int))
            by (nonlinear_arith)
            requires
                1 <= i <= longer,
                0 <= shorter <= longer,
                longer <= isize::MAX,
        ;
        let num: i128 = 2 * (i as i128) * (shorter as i128) + (longer as i128);
        let den: i128 = 2 * (longer as i128);
        let sh: isize = (num / den) as isize;
        assert(sh == line_short_progress(dx as int, dy as int, i as int));
        let (xi, yi): (isize, isize) = if dx_is_larger { (i, sh) } else { (sh, i) };
        let cx: isize = if x_modifier == 1 { xi } else { -xi };
        let cy: isize = if y_modifier == 1 { yi } else { -yi };
        v.push((cx, cy));
    }
    v
}

/// The cells visited on the way from `xy1` to `xy2`: `xy1` itself when the
/// two are equal, and otherwise every cell after `xy1`, ending with `xy2`.
pub fn iterate_over_line(xy1: (usize, usize), xy2: (usize, usize)) -> (v: Vec<(usize, usize)>)
    requires
        xy1.0 <= isize::MAX,
        xy1.1 <= isize::MAX,
        xy2.0 <= isize::MAX,
        xy2.1 <= isize::MAX,
    ensures
        v@.len() == line_points(xy1.0 - xy2.0, xy1.1 - xy2.1).len(),
        forall|i: int|
            0 <= i < v@.len() ==> (#[trigger] v@[i]).0 == xy1.0 + line_points(xy1.0 - xy2.0, xy1.1 - xy2.1)[i].0
                && v@[i].1 == xy1.1 + line_points(xy1.0 - xy2.0, xy1.1 - xy2.1)[i].1,
{
    let dx: isize = xy1.0 as isize - xy2.0 as isize;
    let dy: isize = xy1.1 as isize - xy2.1 as isize;
    let offsets = iterate_over_line_common(dx, dy);
    let ghost pts = line_points(dx as int, dy as int);
    let mut v: Vec<(usize, usize)> = Vec::new();
    let n = offsets.len();
    for k in 0..n
        invariant
            n == offsets@.len(),
            n == pts.len(),
            pts == line_points(dx as int, dy as int),
            dx == xy1.0 - xy2.0,
            dy == xy1.1 - xy2.1,
            xy1.0 <= isize::MAX,
            xy1.1 <= isize::MAX,
            xy2.0 <= isize::MAX,
            xy2.1 <= isize::MAX,
            forall|i: int|
                0 <= i < offsets@.len() ==> (#[trigger] offsets@[i]).0 == pts[i].0 && offsets@[i].1 == pts[i].1,
            v@.len() == k,
            forall|i: int|
                0 <= i < k ==> (#[trigger] v@[i]).0 == xy1.0 + pts[i].0 && v@[i].1 == xy1.1 + pts[i].1,
    {
        proof {
            lemma_line_points_in_box(dx as int, dy as int, k as int);
        }
        let (ox, oy) = offsets[k];
        assert(ox == pts[k as int].0 && oy == pts[k as int].1);
        let cx: usize = (xy1.0 as isize + ox) as usize;
        let cy: usize = (xy1.1 as isize + oy) as usize;
        v.push((cx, cy));
    }
    v
}

/// The single steps of the walk for the offset `dxdy`, in order: each is the
/// difference between a visited cell and the one before it.
pub fn iterate_over_line_delta(dxdy: (isize, isize)) -> (v: Vec<(isize, isize)>)
    requires
        dxdy.0 != isize::MIN,
        dxdy.1 != isize::MIN,
    ensures
        v@.len() == line_points(dxdy.0 as int, dxdy.1 as int).len(),
        forall|i: int|
            0 <= i < v@.len() ==> (#[trigger] v@[i]).0 == line_delta(dxdy.0 as int, dxdy.1 as int, i).0
                && v@[i].1 == line_delta(dxdy.0 as int, dxdy.1 as int, i).1,
{
    let offsets = iterate_over_line_common(dxdy.0, dxdy.1);
    let ghost dx = dxdy.0 as int;
    let ghost dy = dxdy.1 as int;
    let mut v: Vec<(isize, isize)> = Vec::new();
    let mut prev_x: isize = 0;
    let mut prev_y: isize = 0;
    let n = offsets.len();
    for k in 0..n
        invariant
            n == offsets@.len(),
            n == line_points(dx, dy).len(),
            dx == dxdy.0,
            dy == dxdy.1,
            dxdy.0 != isize::MIN,
            dxdy.1 != isize::MIN,
            forall|i: int|
                0 <= i < offsets@.len() ==> (#[trigger] offsets@[i]).0 == line_points(dx, dy)[i].0
                    && offsets@[i].1 == line_points(dx, dy)[i].1,
            k == 0 ==> prev_x == 0 && prev_y == 0,
            k > 0 ==> prev_x == line_points(dx, dy)[k - 1].0 && prev_y == line_points(dx, dy)[k - 1].1,
            v@.len() == k,
            forall|i: int|
                0 <= i < k ==> (#[trigger] v@[i]).0 == line_delta(dx, dy, i).0 && v@[i].1 == line_delta(dx, dy, i).1,
    {
        proof {
            lemma_line_steps_are_adjacent(dx, dy, k as int);
        }
        let (cx, cy) = offsets[k];
        v.push((cx - prev_x, cy - prev_y));
        prev_x = cx;
        prev_y = cy;
    }
    v
}

} // verus!
