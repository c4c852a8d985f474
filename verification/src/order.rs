use vstd::prelude::*;

use crate::grid::{wf, Matrix};
use crate::grid::lemma_deep_view;

verus! {

/// Row-major comparison of two grids of equal dimensions, starting at
/// cell `(y, x)`: true when `a` is no greater than `b` from that cell on,
/// reading an empty cell as smaller than an occupied one.
pub open spec fn cells_le_from(a: Seq<Seq<bool>>, b: Seq<Seq<bool>>, y: int, x: int) -> bool
    decreases a.len() - y, a[0].len() - x
        when 0 <= y <= a.len() && 0 <= x <= a[0].len()
{
    if y >= a.len() {
        true
    } else if x >= a[0].len() {
        cells_le_from(a, b, y + 1, 0)
    } else if a[y][x] == b[y][x] {
        cells_le_from(a, b, y, x + 1)
    } else {
        b[y][x]
    }
}

/// A total order over grids: height first, then width, then the
/// row-major cell sequence with empty before occupied.
pub open spec fn grid_le(a: Seq<Seq<bool>>, b: Seq<Seq<bool>>) -> bool {
    if a.len() != b.len() {
        a.len() < b.len()
    } else if a[0].len() != b[0].len() {
        a[0].len() < b[0].len()
    } else {
        cells_le_from(a, b, 0, 0)
    }
}

/// Dimensions match: same height and same width.
pub open spec fn same_dims(a: Seq<Seq<bool>>, b: Seq<Seq<bool>>) -> bool {
    a.len() == b.len() && a[0].len() == b[0].len()
}

proof fn lemma_cells_le_total(a: Seq<Seq<bool>>, b: Seq<Seq<bool>>, y: int, x: int)
    requires
        wf(a),
        wf(b),
        same_dims(a, b),
        0 <= y <= a.len(),
        0 <= x <= a[0].len(),
    ensures
        cells_le_from(a, b, y, x) || cells_le_from(b, a, y, x),
    decreases a.len() - y, a[0].len() - x,
{
    if y >= a.len() {
    } else if x >= a[0].len() {
        lemma_cells_le_total(a, b, y + 1, 0);
    } else if a[y][x] == b[y][x] {
        lemma_cells_le_total(a, b, y, x + 1);
    }
}

/// The grid order is total.
pub proof fn lemma_grid_le_total(a: Seq<Seq<bool>>, b: Seq<Seq<bool>>)
    requires
        wf(a),
        wf(b),
    ensures
        grid_le(a, b) || grid_le(b, a),
{
    if same_dims(a, b) {
        lemma_cells_le_total(a, b, 0, 0);
    }
}

proof fn lemma_cells_le_refl(a: Seq<Seq<bool>>, y: int, x: int)
    requires
        wf(a),
        0 <= y <= a.len(),
        0 <= x <= a[0].len(),
    ensures
        cells_le_from(a, a, y, x),
    decreases a.len() - y, a[0].len() - x,
{
    if y >= a.len() {
    } else if x >= a[0].len() {
        lemma_cells_le_refl(a, y + 1, 0);
    } else {
        lemma_cells_le_refl(a, y, x + 1);
    }
}

/// The grid order is reflexive.
pub proof fn lemma_grid_le_refl(a: Seq<Seq<bool>>)
    requires
        wf(a),
    ensures
        grid_le(a, a),
{
    lemma_cells_le_refl(a, 0, 0);
}

proof fn lemma_cells_le_antisym(a: Seq<Seq<bool>>, b: Seq<Seq<bool>>, y: int, x: int)
    requires
        wf(a),
        wf(b),
        same_dims(a, b),
        0 <= y <= a.len(),
        0 <= x <= a[0].len(),
        cells_le_from(a, b, y, x),
        cells_le_from(b, a, y, x),
    ensures
        forall|y2: int, x2: int|
            0 <= y2 < a.len() && 0 <= x2 < a[0].len() && (y2 > y || (y2 == y && x2 >= x))
                ==> a[y2][x2] == b[y2][x2],
    decreases a.len() - y, a[0].len() - x,
{
    if y >= a.len() {
    } else if x >= a[0].len() {
        lemma_cells_le_antisym(a, b, y + 1, 0);
    } else if a[y][x] == b[y][x] {
        lemma_cells_le_antisym(a, b, y, x + 1);
    }
}

/// The grid order is antisymmetric: mutual `grid_le` means equality.
pub proof fn lemma_grid_le_antisym(a: Seq<Seq<bool>>, b: Seq<Seq<bool>>)
    requires
        wf(a),
        wf(b),
        grid_le(a, b),
        grid_le(b, a),
    ensures
        a == b,
{
    lemma_cells_le_antisym(a, b, 0, 0);
    assert forall|y: int| 0 <= y < a.len() implies a[y] =~= b[y] by {
        assert forall|x: int| 0 <= x < a[y].len() implies a[y][x] == b[y][x] by {
            assert(a[y][x] == b[y][x]);
        }
    }
    assert(a =~= b);
}

proof fn lemma_cells_le_trans(
    a: Seq<Seq<bool>>,
    b: Seq<Seq<bool>>,
    c: Seq<Seq<bool>>,
    y: int,
    x: int,
)
    requires
        wf(a),
        wf(b),
        wf(c),
        same_dims(a, b),
        same_dims(b, c),
        0 <= y <= a.len(),
        0 <= x <= a[0].len(),
        cells_le_from(a, b, y, x),
        cells_le_from(b, c, y, x),
    ensures
        cells_le_from(a, c, y, x),
    decreases a.len() - y, a[0].len() - x,
{
    if y >= a.len() {
    } else if x >= a[0].len() {
        lemma_cells_le_trans(a, b, c, y + 1, 0);
    } else {
        if a[y][x] == b[y][x] && b[y][x] == c[y][x] {
            lemma_cells_le_trans(a, b, c, y, x + 1);
        }
    }
}

/// The grid order is transitive.
pub proof fn lemma_grid_le_trans(a: Seq<Seq<bool>>, b: Seq<Seq<bool>>, c: Seq<Seq<bool>>)
    requires
        wf(a),
        wf(b),
        wf(c),
        grid_le(a, b),
        grid_le(b, c),
    ensures
        grid_le(a, c),
{
    if same_dims(a, b) && same_dims(b, c) {
        lemma_cells_le_trans(a, b, c, 0, 0);
    }
}

/// Whether `a` is no greater than `b` in the grid order.
pub fn grid_le_exec(a: &Matrix, b: &Matrix) -> (r: bool)
    requires
        wf(a.deep_view()),
        wf(b.deep_view()),
    ensures
        r == grid_le(a.deep_view(), b.deep_view()),
{
    let ghost ga = a.deep_view();
    let ghost gb = b.deep_view();
    proof {
        lemma_deep_view(*a);
        lemma_deep_view(*b);
    }
    if a.len() != b.len() {
        return a.len() < b.len();
    }
    if a[0].len() != b[0].len() {
        return a[0].len() < b[0].len();
    }
    let h = a.len();
    let w = a[0].len();
    for y in 0..h
        invariant
            ga == a.deep_view(),
            gb == b.deep_view(),
            wf(ga),
            wf(gb),
            same_dims(ga, gb),
            h == ga.len() == a@.len() == b@.len(),
            w == ga[0].len(),
            forall|i: int| 0 <= i < a@.len() ==> (#[trigger] a@[i])@ == ga[i],
            forall|i: int| 0 <= i < b@.len() ==> (#[trigger] b@[i])@ == gb[i],
            forall|i: int| 0 <= i < ga.len() ==> #[trigger] ga[i].len() == w,
            forall|i: int| 0 <= i < gb.len() ==> #[trigger] gb[i].len() == w,
            cells_le_from(ga, gb, 0, 0) == cells_le_from(ga, gb, y as int, 0),
    {
        for x in 0..w
            invariant
                ga == a.deep_view(),
                gb == b.deep_view(),
                wf(ga),
                wf(gb),
                same_dims(ga, gb),
                h == ga.len() == a@.len() == b@.len(),
                w == ga[0].len(),
                0 <= y < h,
                forall|i: int| 0 <= i < a@.len() ==> (#[trigger] a@[i])@ == ga[i],
                forall|i: int| 0 <= i < b@.len() ==> (#[trigger] b@[i])@ == gb[i],
                forall|i: int| 0 <= i < ga.len() ==> #[trigger] ga[i].len() == w,
                forall|i: int| 0 <= i < gb.len() ==> #[trigger] gb[i].len() == w,
                cells_le_from(ga, gb, 0, 0) == cells_le_from(ga, gb, y as int, x as int),
        {
            if a[y][x] != b[y][x] {
                proof {
                    assert(cells_le_from(ga, gb, y as int, x as int) == gb[y as int][x as int]);
                }
                return b[y][x];
            }
        }
        proof {
            assert(cells_le_from(ga, gb, y as int, w as int) == cells_le_from(
                ga,
                gb,
                y as int + 1,
                0,
            ));
        }
    }
    proof {
        assert(cells_le_from(ga, gb, h as int, 0));
    }
    true
}

/// The greater of two grids in the grid order.
pub open spec fn gmax(a: Seq<Seq<bool>>, b: Seq<Seq<bool>>) -> Seq<Seq<bool>> {
    if grid_le(a, b) {
        b
    } else {
        a
    }
}

} // verus!
