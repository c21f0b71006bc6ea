use vstd::prelude::*;
use vstd::arithmetic::div_mod::{lemma_fundamental_div_mod, lemma_fundamental_div_mod_converse};
use vstd::arithmetic::mul::lemma_mul_is_commutative;
use crate::rect::Rect;
use crate::vec2::{in_i32, Vec2i};

verus! {

/// The cells `(x, y)` for `x_lo <= x < x_hi`, left to right.
pub open spec fn row_cells(y: int, x_lo: int, x_hi: int) -> Seq<Vec2i> {
    Seq::new(
        if x_hi > x_lo { (x_hi - x_lo) as nat } else { 0 },
        |i: int| Vec2i { x: (x_lo + i) as i32, y: y as i32 },
    )
}

/// The cells `(x, y)` for `y_lo <= y < y_hi`, top to bottom.
pub open spec fn column_cells(x: int, y_lo: int, y_hi: int) -> Seq<Vec2i> {
    Seq::new(
        if y_hi > y_lo { (y_hi - y_lo) as nat } else { 0 },
        |i: int| Vec2i { x: x as i32, y: (y_lo + i) as i32 },
    )
}

/// The cells of the rectangle `[x_lo, x_hi) x [y_lo, y_hi)`, row by row.
pub open spec fn rect_cells(x_lo: int, x_hi: int, y_lo: int, y_hi: int) -> Seq<Vec2i>
    decreases y_hi - y_lo,
{
    if y_hi <= y_lo {
        Seq::empty()
    } else {
        rect_cells(x_lo, x_hi, y_lo, y_hi - 1) + row_cells(y_hi - 1, x_lo, x_hi)
    }
}

/// The cells of the rectangle from corner `min` up to, not including, `max`, row by row.
pub open spec fn rect_between(min: Vec2i, max: Vec2i) -> Seq<Vec2i> {
    rect_cells(min.x as int, max.x as int, min.y as int, max.y as int)
}

/// How far `visit_range` reaches sideways on row `y` beyond the square of side `size` at `p`.
pub open spec fn range_shift(p: Vec2i, size: int, range: int, y: int) -> int {
    let bottom = p.y + size;
    if y < p.y {
        range - (p.y - y)
    } else if y >= bottom {
        range - (y - (bottom - 1))
    } else {
        range
    }
}

pub open spec fn max_int(a: int, b: int) -> int {
    if a >= b {
        a
    } else {
        b
    }
}

pub open spec fn min_int(a: int, b: int) -> int {
    if a <= b {
        a
    } else {
        b
    }
}

pub open spec fn range_row_lo(p: Vec2i, size: int, range: int, bounds: Rect, y: int) -> int {
    max_int(p.x - range_shift(p, size, range, y), bounds.min.x as int)
}

pub open spec fn range_row_hi(p: Vec2i, size: int, range: int, bounds: Rect, y: int) -> int {
    min_int(p.x + size + range_shift(p, size, range, y), bounds.max.x as int)
}

/// The rows `y_lo <= y < y_hi` of the cells that `visit_range` visits, row by row.
pub open spec fn range_cells(p: Vec2i, size: int, range: int, bounds: Rect, y_lo: int, y_hi: int) -> Seq<Vec2i>
    decreases y_hi - y_lo,
{
    if y_hi <= y_lo {
        Seq::empty()
    } else {
        range_cells(p, size, range, bounds, y_lo, y_hi - 1) + row_cells(
            y_hi - 1,
            range_row_lo(p, size, range, bounds, y_hi - 1),
            range_row_hi(p, size, range, bounds, y_hi - 1),
        )
    }
}

/// The cells that `visit_range` visits, in the order it visits them.
pub open spec fn visit_range_cells(p: Vec2i, size: int, range: int, bounds: Rect) -> Seq<Vec2i> {
    range_cells(
        p,
        size,
        range,
        bounds,
        max_int(p.y - range, bounds.min.y as int),
        min_int(p.y + size + range, bounds.max.y as int),
    )
}

/// The cells on the border of the rectangle from `min` to `max` in the order
/// `find_on_rect_border` tries them: down the left side, along the bottom, up the right side
/// (from its second cell), along the top (from its second cell).
pub open spec fn rect_border_cells(min: Vec2i, max: Vec2i) -> Seq<Vec2i> {
    column_cells(min.x as int, min.y as int, max.y - 1) + row_cells(max.y - 1, min.x as int, max.x - 1)
        + column_cells(max.x - 1, min.y + 1, max.y as int) + row_cells(min.y as int, min.x + 1, max.x as int)
}

/// The cells just outside the square of side `size` at `p` in the order `find_neighbour` tries
/// them: left side, bottom side, right side, top side.
pub open spec fn neighbour_cells(p: Vec2i, size: int) -> Seq<Vec2i> {
    column_cells(p.x - 1, p.y as int, p.y + size) + row_cells(p.y + size, p.x as int, p.x + size)
        + column_cells(p.x + size, p.y as int, p.y + size) + row_cells(p.y - 1, p.x as int, p.x + size)
}

/// `r` is what a search over `cands` in order, stopping at the first cell on which `f`
/// answers `true`, may return: the first such cell, or `None` when `f` answered `false` on all.
pub open spec fn is_first_match<F: Fn(Vec2i) -> bool>(cands: Seq<Vec2i>, f: F, r: Option<Vec2i>) -> bool {
    match r {
        Some(p) => exists|k: int|
            0 <= k < cands.len() && cands[k] == p && f.ensures((p,), true) && forall|j: int|
                0 <= j < k ==> f.ensures((#[trigger] cands[j],), false),
        None => forall|j: int| 0 <= j < cands.len() ==> f.ensures((#[trigger] cands[j],), false),
    }
}


/// The cells of a rectangle are exactly its points (for coordinates that fit in `i32`).
pub proof fn lemma_rect_cells_members(x_lo: int, x_hi: int, y_lo: int, y_hi: int, q: Vec2i)
    requires
        in_i32(x_lo),
        in_i32(x_hi),
        in_i32(y_lo),
        in_i32(y_hi),
    ensures
        rect_cells(x_lo, x_hi, y_lo, y_hi).contains(q) <==> (x_lo <= q.x < x_hi && y_lo <= q.y < y_hi),
    decreases y_hi - y_lo,
{
    if y_hi > y_lo {
        lemma_rect_cells_members(x_lo, x_hi, y_lo, y_hi - 1, q);
        let a = rect_cells(x_lo, x_hi, y_lo, y_hi - 1);
        let r = row_cells(y_hi - 1, x_lo, x_hi);
        assert(rect_cells(x_lo, x_hi, y_lo, y_hi) == a + r);
        if x_lo <= q.x < x_hi && q.y == y_hi - 1 {
            assert(r[q.x - x_lo] == q);
            assert((a + r)[a.len() + q.x - x_lo] == q);
        }
        if a.contains(q) {
            let k = choose|k: int| 0 <= k < a.len() && a[k] == q;
            assert((a + r)[k] == q);
        }
        if (a + r).contains(q) {
            let k = choose|k: int| 0 <= k < (a + r).len() && (a + r)[k] == q;
            if k >= a.len() {
                let i = k - a.len();
                assert(r[i] == q);
                assert(q.x == x_lo + i);
                assert(q.y == y_hi - 1);
            } else {
                assert(a[k] == q);
                assert(a.contains(q));
            }
        }
    } else {
        assert(rect_cells(x_lo, x_hi, y_lo, y_hi) =~= Seq::<Vec2i>::empty());
    }
}

/// `visit_range` visits exactly the cells of `bounds` within distance `range` of the square of
/// side `size` at `p`, as `Rect::distance_to_position` measures distance (for a non-negative
/// size and range, and coordinates that fit in `i32`).
pub proof fn lemma_visit_range_members(p: Vec2i, size: int, range: int, bounds: Rect, q: Vec2i)
    requires
        size >= 0,
        range >= 0,
        in_i32(p.x - range),
        in_i32(p.x + size + range),
        in_i32(p.y - range),
        in_i32(p.y + size + range),
    ensures
        visit_range_cells(p, size, range, bounds).contains(q) <==> (bounds.spec_contains(q)
            && (Rect { min: p, max: Vec2i { x: (p.x + size) as i32, y: (p.y + size) as i32 } }).spec_distance_to_position(q) <= range),
{
    let y_lo = max_int(p.y - range, bounds.min.y as int);
    let y_hi = min_int(p.y + size + range, bounds.max.y as int);
    lemma_range_cells_members(p, size, range, bounds, y_lo, y_hi, q);
}

/// `visit_range` visits each cell at most once.
pub proof fn lemma_visit_range_once(p: Vec2i, size: int, range: int, bounds: Rect)
    requires
        size >= 0,
        range >= 0,
        in_i32(p.x - range),
        in_i32(p.x + size + range),
        in_i32(p.y - range),
        in_i32(p.y + size + range),
    ensures
        visit_range_cells(p, size, range, bounds).no_duplicates(),
{
    let y_lo = max_int(p.y - range, bounds.min.y as int);
    let y_hi = min_int(p.y + size + range, bounds.max.y as int);
    lemma_range_cells_distinct(p, size, range, bounds, y_lo, y_hi);
}

proof fn lemma_range_cells_distinct(p: Vec2i, size: int, range: int, bounds: Rect, y_lo: int, y_hi: int)
    requires
        size >= 0,
        range >= 0,
        in_i32(p.x - range),
        in_i32(p.x + size + range),
        in_i32(p.y - range),
        in_i32(p.y + size + range),
        y_lo == max_int(p.y - range, bounds.min.y as int),
        y_hi <= min_int(p.y + size + range, bounds.max.y as int),
    ensures
        range_cells(p, size, range, bounds, y_lo, y_hi).no_duplicates(),
    decreases y_hi - y_lo,
{
    if y_hi > y_lo {
        lemma_range_cells_distinct(p, size, range, bounds, y_lo, y_hi - 1);
        let y = y_hi - 1;
        let a = range_cells(p, size, range, bounds, y_lo, y_hi - 1);
        let lo = range_row_lo(p, size, range, bounds, y);
        let hi = range_row_hi(p, size, range, bounds, y);
        let r = row_cells(y, lo, hi);
        let s = range_cells(p, size, range, bounds, y_lo, y_hi);
        assert(s == a + r);
        assert(0 <= range_shift(p, size, range, y) <= range);
        assert forall|i: int, j: int| 0 <= i < s.len() && 0 <= j < s.len() && i != j implies s[i] != s[j] by {
            if i >= a.len() && j >= a.len() {
                assert(s[i] == r[i - a.len()]);
                assert(s[j] == r[j - a.len()]);
            } else if i < a.len() && j < a.len() {
                assert(s[i] == a[i]);
                assert(s[j] == a[j]);
            } else if i < a.len() {
                assert(a.contains(a[i]));
                lemma_range_cells_members(p, size, range, bounds, y_lo, y_hi - 1, a[i]);
                assert(s[j] == r[j - a.len()]);
            } else {
                assert(a.contains(a[j]));
                lemma_range_cells_members(p, size, range, bounds, y_lo, y_hi - 1, a[j]);
                assert(s[i] == r[i - a.len()]);
            }
        }
    } else {
        assert(range_cells(p, size, range, bounds, y_lo, y_hi) =~= Seq::<Vec2i>::empty());
    }
}

/// Every cell that `visit_range` visits lies inside its bounds, whatever the range.
pub proof fn lemma_visit_range_within(p: Vec2i, size: int, range: int, bounds: Rect, q: Vec2i)
    requires
        visit_range_cells(p, size, range, bounds).contains(q),
    ensures
        bounds.spec_contains(q),
{
    lemma_range_cells_within(
        p,
        size,
        range,
        bounds,
        max_int(p.y - range, bounds.min.y as int),
        min_int(p.y + size + range, bounds.max.y as int),
        q,
    );
}

proof fn lemma_range_cells_within(p: Vec2i, size: int, range: int, bounds: Rect, y_lo: int, y_hi: int, q: Vec2i)
    requires
        bounds.min.y <= y_lo,
        y_hi <= bounds.max.y,
        range_cells(p, size, range, bounds, y_lo, y_hi).contains(q),
    ensures
        bounds.spec_contains(q),
    decreases y_hi - y_lo,
{
    if y_hi > y_lo {
        let y = y_hi - 1;
        let a = range_cells(p, size, range, bounds, y_lo, y_hi - 1);
        let lo = range_row_lo(p, size, range, bounds, y);
        let hi = range_row_hi(p, size, range, bounds, y);
        let r = row_cells(y, lo, hi);
        assert(range_cells(p, size, range, bounds, y_lo, y_hi) == a + r);
        let k = choose|k: int| 0 <= k < (a + r).len() && (a + r)[k] == q;
        if k >= a.len() {
            assert(r[k - a.len()] == q);
        } else {
            assert(a[k] == q);
            lemma_range_cells_within(p, size, range, bounds, y_lo, y_hi - 1, q);
        }
    } else {
        assert(range_cells(p, size, range, bounds, y_lo, y_hi) =~= Seq::<Vec2i>::empty());
    }
}

/// Each cell on the border of the rectangle from `min` to `max` lies inside the rectangle.
pub proof fn lemma_rect_border_cells_within(min: Vec2i, max: Vec2i, c: Vec2i)
    requires
        rect_border_cells(min, max).contains(c),
        min.x <= max.x - 1,
        min.y <= max.y - 1,
    ensures
        min.x <= c.x <= max.x - 1,
        min.y <= c.y <= max.y - 1,
{
    let a = column_cells(min.x as int, min.y as int, max.y - 1);
    let b = row_cells(max.y - 1, min.x as int, max.x - 1);
    let d = column_cells(max.x - 1, min.y + 1, max.y as int);
    let e = row_cells(min.y as int, min.x + 1, max.x as int);
    let all = a + b + d + e;
    assert(rect_border_cells(min, max) == all);
    let k = choose|k: int| 0 <= k < all.len() && all[k] == c;
    if k < a.len() {
        assert(all[k] == a[k]);
    } else if k < a.len() + b.len() {
        assert(all[k] == b[k - a.len()]);
    } else if k < a.len() + b.len() + d.len() {
        assert(all[k] == d[k - a.len() - b.len()]);
    } else {
        assert(all[k] == e[k - a.len() - b.len() - d.len()]);
    }
}

proof fn lemma_range_cells_members(p: Vec2i, size: int, range: int, bounds: Rect, y_lo: int, y_hi: int, q: Vec2i)
    requires
        size >= 0,
        range >= 0,
        in_i32(p.x - range),
        in_i32(p.x + size + range),
        in_i32(p.y - range),
        in_i32(p.y + size + range),
        y_lo == max_int(p.y - range, bounds.min.y as int),
        y_hi <= min_int(p.y + size + range, bounds.max.y as int),
    ensures
        range_cells(p, size, range, bounds, y_lo, y_hi).contains(q) <==> (y_lo <= q.y < y_hi
            && range_row_lo(p, size, range, bounds, q.y as int) <= q.x < range_row_hi(p, size, range, bounds, q.y as int)),
    decreases y_hi - y_lo,
{
    if y_hi > y_lo {
        lemma_range_cells_members(p, size, range, bounds, y_lo, y_hi - 1, q);
        let y = y_hi - 1;
        let a = range_cells(p, size, range, bounds, y_lo, y_hi - 1);
        let lo = range_row_lo(p, size, range, bounds, y);
        let hi = range_row_hi(p, size, range, bounds, y);
        let r = row_cells(y, lo, hi);
        assert(range_cells(p, size, range, bounds, y_lo, y_hi) == a + r);
        if lo <= q.x < hi && q.y == y {
            assert(r[q.x - lo] == q);
            assert((a + r)[a.len() + q.x - lo] == q);
        }
        if a.contains(q) {
            let k = choose|k: int| 0 <= k < a.len() && a[k] == q;
            assert((a + r)[k] == q);
        }
        if (a + r).contains(q) {
            let k = choose|k: int| 0 <= k < (a + r).len() && (a + r)[k] == q;
            if k >= a.len() {
                let i = k - a.len();
                assert(r[i] == q);
                assert(q.x == lo + i);
                assert(q.y == y);
            } else {
                assert(a[k] == q);
                assert(a.contains(q));
            }
        }
    } else {
        assert(range_cells(p, size, range, bounds, y_lo, y_hi) =~= Seq::<Vec2i>::empty());
    }
}

/// Index of `position` in a row-major array of `size` columns.
pub fn position_to_index(position: Vec2i, size: usize) -> (r: usize)
    requires
        0 <= position.x,
        0 <= position.y,
        position.x + position.y * size <= usize::MAX,
    ensures
        r == position.x + position.y * size,
{
    assert(0 <= position.y * size) by (nonlinear_arith)
        requires
            0 <= position.y,
            0 <= size,
    ;
    position.x as usize + position.y as usize * size
}

/// Position of the element at `index` of a row-major array of `size` columns.
pub fn index_to_position(index: usize, size: usize) -> (r: Vec2i)
    requires
        0 < size,
        size - 1 <= i32::MAX,
        index / size <= i32::MAX,
    ensures
        r.x == index % size,
        r.y == index / size,
{
    Vec2i::new((index % size) as i32, (index / size) as i32)
}

/// Walking from an index to its position and back gives the index again.
pub proof fn lemma_index_position_roundtrip(index: int, size: int)
    requires
        0 <= index,
        0 < size,
    ensures
        (index % size) + (index / size) * size == index,
        0 <= index % size < size,
{
    lemma_fundamental_div_mod(index, size);
    lemma_mul_is_commutative(size, index / size);
}

/// Walking from a position of a `size`-column array to its index and back gives the position
/// again.
pub proof fn lemma_position_index_roundtrip(x: int, y: int, size: int)
    requires
        0 <= x < size,
        0 <= y,
    ensures
        (x + y * size) % size == x,
        (x + y * size) / size == y,
{
    lemma_fundamental_div_mod_converse(x + y * size, size, y, x);
}

/// Whether `p` is a cell of a `size` by `size` map.
pub open spec fn in_map(size: int, p: Vec2i) -> bool {
    0 <= p.x < size && 0 <= p.y < size
}

/// The row-major index of a cell of a `size` by `size` map lies inside the map's array.
pub proof fn lemma_cell_index_in_range(size: int, p: Vec2i)
    requires
        in_map(size, p),
    ensures
        0 <= p.x + p.y * size < size * size,
{
    assert(p.y * size <= (size - 1) * size) by (nonlinear_arith)
        requires
            0 <= p.y < size,
    ;
    assert((size - 1) * size == size * size - size) by (nonlinear_arith);
    assert(0 <= p.y * size) by (nonlinear_arith)
        requires
            0 <= p.y,
            0 <= size,
    ;
}

/// Distinct cells of a map have distinct row-major indices.
pub proof fn lemma_cell_index_injective(size: int, p: Vec2i, q: Vec2i)
    requires
        in_map(size, p),
        in_map(size, q),
        p.x + p.y * size == q.x + q.y * size,
    ensures
        p == q,
{
    lemma_position_index_roundtrip(p.x as int, p.y as int, size);
    lemma_position_index_roundtrip(q.x as int, q.y as int, size);
}

/// The cells of the row `y` from `x_lo` up to `x_hi`.
fn row_vec(result: &mut Vec<Vec2i>, y: i32, x_lo: i32, x_hi: i32)
    ensures
        final(result)@ == old(result)@ + row_cells(y as int, x_lo as int, x_hi as int),
{
    let ghost start = result@;
    let mut x = x_lo;
    while x < x_hi
        invariant
            x_lo <= x || x_hi <= x_lo,
            x_hi <= x_lo ==> x == x_lo,
            x_lo < x_hi ==> x <= x_hi,
            result@ == start + row_cells(y as int, x_lo as int, x as int),
        decreases x_hi - x,
    {
        result.push(Vec2i::new(x, y));
        assert(row_cells(y as int, x_lo as int, x + 1) =~= row_cells(y as int, x_lo as int, x as int).push(Vec2i { x: x, y: y }));
        x = x + 1;
    }
    assert(row_cells(y as int, x_lo as int, x as int) =~= row_cells(y as int, x_lo as int, x_hi as int));
}

/// The cells of the column `x` from `y_lo` up to `y_hi`.
fn column_vec(result: &mut Vec<Vec2i>, x: i32, y_lo: i32, y_hi: i32)
    ensures
        final(result)@ == old(result)@ + column_cells(x as int, y_lo as int, y_hi as int),
{
    let ghost start = result@;
    let mut y = y_lo;
    while y < y_hi
        invariant
            y_hi <= y_lo ==> y == y_lo,
            y_lo < y_hi ==> y_lo <= y <= y_hi,
            result@ == start + column_cells(x as int, y_lo as int, y as int),
        decreases y_hi - y,
    {
        result.push(Vec2i::new(x, y));
        assert(column_cells(x as int, y_lo as int, y + 1) =~= column_cells(x as int, y_lo as int, y as int).push(Vec2i { x: x, y: y }));
        y = y + 1;
    }
    assert(column_cells(x as int, y_lo as int, y as int) =~= column_cells(x as int, y_lo as int, y_hi as int));
}

/// The cells of the rectangle from `min` up to `max`, row by row.
pub(crate) fn rect_vec(min: Vec2i, max: Vec2i) -> (r: Vec<Vec2i>)
    ensures
        r@ == rect_between(min, max),
{
    let mut result = Vec::new();
    let mut y = min.y;
    while y < max.y
        invariant
            max.y <= min.y ==> y == min.y,
            min.y < max.y ==> min.y <= y <= max.y,
            result@ == rect_cells(min.x as int, max.x as int, min.y as int, y as int),
        decreases max.y - y,
    {
        row_vec(&mut result, y, min.x, max.x);
        y = y + 1;
    }
    result
}

/// The first cell of `cands` on which `f` answers `true`, trying them in order.
fn find_first<F: Fn(Vec2i) -> bool>(cands: &Vec<Vec2i>, f: &F) -> (r: Option<Vec2i>)
    requires
        forall|p: Vec2i| f.requires((p,)),
    ensures
        is_first_match(cands@, *f, r),
{
    let mut i: usize = 0;
    while i < cands.len()
        invariant
            forall|p: Vec2i| f.requires((p,)),
            i <= cands.len(),
            forall|j: int| 0 <= j < i ==> f.ensures((#[trigger] cands@[j],), false),
        decreases cands.len() - i,
    {
        let p = cands[i];
        if f(p) {
            return Some(p);
        }
        i = i + 1;
    }
    None
}

/// Calls `f` on the cells of the rectangle from `min` up to `max`, row by row, and returns the
/// first cell on which it answers `true`.
pub fn find_inside_rect<F: Fn(Vec2i) -> bool>(min: Vec2i, max: Vec2i, f: F) -> (r: Option<Vec2i>)
    requires
        forall|p: Vec2i| f.requires((p,)),
    ensures
        is_first_match(rect_between(min, max), f, r),
{
    let cands = rect_vec(min, max);
    find_first(&cands, &f)
}

/// The cells of the square of side `size` at `position`, row by row.
pub fn visit_square(position: Vec2i, size: i32) -> (r: Vec<Vec2i>)
    requires
        in_i32(position.x + size),
        in_i32(position.y + size),
    ensures
        r@ == rect_cells(position.x as int, position.x + size, position.y as int, position.y + size),
{
    rect_vec(position, position + Vec2i::both(size))
}

/// Calls `f` on the cells of the border of the rectangle from `min` up to `max` and returns the
/// first cell on which it answers `true`.
pub fn find_on_rect_border<F: Fn(Vec2i) -> bool>(min: Vec2i, max: Vec2i, f: F) -> (r: Option<Vec2i>)
    requires
        forall|p: Vec2i| f.requires((p,)),
        in_i32(max.x - 1),
        in_i32(max.y - 1),
        in_i32(min.x + 1),
        in_i32(min.y + 1),
    ensures
        is_first_match(rect_border_cells(min, max), f, r),
{
    let cands = border_vec(min, max);
    find_first(&cands, &f)
}

/// The border cells of the rectangle from `min` up to `max`, in the order of
/// `rect_border_cells`.
pub(crate) fn border_vec(min: Vec2i, max: Vec2i) -> (r: Vec<Vec2i>)
    requires
        in_i32(max.x - 1),
        in_i32(max.y - 1),
        in_i32(min.x + 1),
        in_i32(min.y + 1),
    ensures
        r@ == rect_border_cells(min, max),
{
    let mut cands = Vec::new();
    column_vec(&mut cands, min.x, min.y, max.y - 1);
    row_vec(&mut cands, max.y - 1, min.x, max.x - 1);
    column_vec(&mut cands, max.x - 1, min.y + 1, max.y);
    row_vec(&mut cands, min.y, min.x + 1, max.x);
    cands
}

/// Calls `f` on the cells just outside the square of side `size` at `position` (left, bottom,
/// right, top) and returns the first cell on which it answers `true`.
pub fn find_neighbour<F: Fn(Vec2i) -> bool>(position: Vec2i, size: i32, f: F) -> (r: Option<Vec2i>)
    requires
        forall|p: Vec2i| f.requires((p,)),
        in_i32(position.x - 1),
        in_i32(position.y - 1),
        in_i32(position.x + size),
        in_i32(position.y + size),
    ensures
        is_first_match(neighbour_cells(position, size as int), f, r),
{
    let cands = neighbour_vec(position, size);
    find_first(&cands, &f)
}

/// The cells just outside the square of side `size` at `position`, in the order of
/// `neighbour_cells`.
pub(crate) fn neighbour_vec(position: Vec2i, size: i32) -> (r: Vec<Vec2i>)
    requires
        in_i32(position.x - 1),
        in_i32(position.y - 1),
        in_i32(position.x + size),
        in_i32(position.y + size),
    ensures
        r@ == neighbour_cells(position, size as int),
{
    let mut cands = Vec::new();
    column_vec(&mut cands, position.x - 1, position.y, position.y + size);
    row_vec(&mut cands, position.y + size, position.x, position.x + size);
    column_vec(&mut cands, position.x + size, position.y, position.y + size);
    row_vec(&mut cands, position.y - 1, position.x, position.x + size);
    cands
}

/// The cells of `bounds` within distance `range` of the square of side `size` at `position`,
/// row by row (see `lemma_visit_range_members`).
pub fn visit_range(position: Vec2i, size: i32, range: i32, bounds: &Rect) -> (r: Vec<Vec2i>)
    requires
        in_i32(position.x - range),
        in_i32(position.x + size),
        in_i32(position.x + size + range),
        in_i32(position.y - range),
        in_i32(position.y + size),
        in_i32(position.y + size + range),
    ensures
        r@ == visit_range_cells(position, size as int, range as int, *bounds),
{
    let mut result = Vec::new();
    let bottom = position.y + size;
    let y_lo = if position.y - range >= bounds.min.y { position.y - range } else { bounds.min.y };
    let y_hi = if bottom + range <= bounds.max.y { bottom + range } else { bounds.max.y };
    let mut y = y_lo;
    while y < y_hi
        invariant
            y_hi <= y_lo ==> y == y_lo,
            y_lo < y_hi ==> y_lo <= y <= y_hi,
            y_lo == max_int(position.y - range, bounds.min.y as int),
            y_hi == min_int(position.y + size + range, bounds.max.y as int),
            bottom == position.y + size,
            in_i32(position.x - range),
            in_i32(position.x + size),
            in_i32(position.x + size + range),
            in_i32(position.y - range),
            in_i32(position.y + size),
            in_i32(position.y + size + range),
            result@ == range_cells(position, size as int, range as int, *bounds, y_lo as int, y as int),
        decreases y_hi - y,
    {
        let shift = if y < position.y {
            range - (position.y - y)
        } else if y >= bottom {
            range - ((y - bottom) + 1)
        } else {
            range
        };
        assert(shift == range_shift(position, size as int, range as int, y as int));
        let left = position.x - shift;
        let right = (position.x + size) + shift;
        let x_lo = if left >= bounds.min.x { left } else { bounds.min.x };
        let x_hi = if right <= bounds.max.x { right } else { bounds.max.x };
        row_vec(&mut result, y, x_lo, x_hi);
        y = y + 1;
    }
    result
}

} // verus!
