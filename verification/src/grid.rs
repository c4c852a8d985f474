use vstd::prelude::*;

verus! {

/// A polyomino shape: a rectangular grid of cell occupancy, row-major.
pub type Matrix = Vec<Vec<bool>>;

/// A grid is well formed when it has at least one row, at least one
/// column, and every row has the same length.
pub open spec fn wf(g: Seq<Seq<bool>>) -> bool {
    &&& g.len() > 0
    &&& g[0].len() > 0
    &&& forall|y: int| 0 <= y < g.len() ==> #[trigger] g[y].len() == g[0].len()
}

/// Row `y` holds at least one occupied cell.
pub open spec fn row_any(g: Seq<Seq<bool>>, y: int) -> bool {
    exists|x: int| 0 <= x < g[y].len() && g[y][x]
}

/// Column `x` holds at least one occupied cell.
pub open spec fn col_any(g: Seq<Seq<bool>>, x: int) -> bool {
    exists|y: int| 0 <= y < g.len() && g[y][x]
}

/// The grid holds at least one occupied cell.
pub open spec fn has_cell(g: Seq<Seq<bool>>) -> bool {
    exists|y: int| 0 <= y < g.len() && row_any(g, y)
}

/// The grid padded with one empty row and column of margin on each side.
pub open spec fn inflate_spec(g: Seq<Seq<bool>>) -> Seq<Seq<bool>> {
    Seq::new(
        g.len() + 2,
        |y: int|
            Seq::new(
                g[0].len() + 2,
                |x: int|
                    if 1 <= y <= g.len() && 1 <= x <= g[0].len() {
                        g[y - 1][x - 1]
                    } else {
                        false
                    },
            ),
    )
}

fn falses(n: usize) -> (r: Vec<bool>)
    ensures
        r@ == Seq::new(n as nat, |x: int| false),
{
    let mut r: Vec<bool> = Vec::new();
    for i in 0..n
        invariant
            r@ =~= Seq::new(i as nat, |x: int| false),
    {
        r.push(false);
    }
    proof {
        assert(r@ =~= Seq::new(n as nat, |x: int| false));
    }
    r
}

/// Add rows and columns of empty cells around the grid, inflating its
/// dimensions by one in each direction.
pub fn inflate(source: &Matrix) -> (r: Matrix)
    requires
        wf(source.deep_view()),
        source@.len() + 2 <= usize::MAX,
        source@[0]@.len() + 2 <= usize::MAX,
    ensures
        r.deep_view() == inflate_spec(source.deep_view()),
        wf(r.deep_view()),
{
    let ghost g = source.deep_view();
    let h = source.len();
    let w = source[0].len();
    let mut r: Matrix = Vec::new();
    r.push(falses(w + 2));
    proof {
        assert(r@[0].deep_view() =~= inflate_spec(g)[0]);
    }
    for y in 0..h
        invariant
            g == source.deep_view(),
            wf(g),
            h == g.len(),
            w == g[0].len(),
            w + 2 <= usize::MAX,
            r@.len() == y + 1,
            forall|i: int|
                0 <= i < r@.len() ==> #[trigger] r@[i].deep_view() == inflate_spec(g)[i],
    {
        let mut row: Vec<bool> = Vec::new();
        row.push(false);
        for x in 0..w
            invariant
                g == source.deep_view(),
                wf(g),
                h == g.len(),
                w == g[0].len(),
                0 <= y < h,
                row@.len() == x + 1,
                row@[0] == false,
                forall|j: int| 1 <= j < row@.len() ==> row@[j] == g[y as int][j - 1],
        {
            proof {
                assert(source@.len() == g.len());
                assert(g[y as int] == source@[y as int].deep_view());
                assert(source@[y as int]@.len() == g[y as int].len());
                assert(g[y as int].len() == g[0].len());
            }
            row.push(source[y][x]);
            proof {
                assert(source@[y as int]@[x as int] == g[y as int][x as int]);
            }
        }
        row.push(false);
        r.push(row);
        proof {
            assert(r@[y + 1].deep_view() =~= inflate_spec(g)[y + 1]);
        }
    }
    r.push(falses(w + 2));
    proof {
        assert(r@[h as int + 1].deep_view() =~= inflate_spec(g)[h as int + 1]);
        assert forall|i: int| 0 <= i < r@.len() implies r.deep_view()[i] == inflate_spec(g)[i] by {
            assert(r.deep_view()[i] == r@[i].deep_view());
        }
        assert(r.deep_view() =~= inflate_spec(g));
        assert(wf(r.deep_view()));
    }
    r
}

/// Bridges the deep view of a grid to the views of its rows.
pub proof fn lemma_deep_view(m: Matrix)
    ensures
        m.deep_view().len() == m@.len(),
        forall|y: int| 0 <= y < m@.len() ==> (#[trigger] m.deep_view()[y]) =~= m@[y]@,
        forall|y: int| 0 <= y < m@.len() ==> (#[trigger] m@[y])@ == m.deep_view()[y],
{
    assert forall|y: int| 0 <= y < m@.len() implies (#[trigger] m.deep_view()[y]) =~= m@[y]@ by {
        assert(m.deep_view()[y] == m@[y].deep_view());
    }
}

/// The grid rotated a quarter turn: row `x` of the result is column
/// `w - 1 - x` of the source, read top to bottom.
pub open spec fn rotate_spec(g: Seq<Seq<bool>>) -> Seq<Seq<bool>> {
    Seq::new(
        g[0].len(),
        |x: int| Seq::new(g.len(), |y: int| g[y][g[0].len() - 1 - x]),
    )
}

/// Rotate the grid a quarter turn.
pub fn rotate(m: &Matrix) -> (r: Matrix)
    requires
        wf(m.deep_view()),
    ensures
        r.deep_view() == rotate_spec(m.deep_view()),
        wf(r.deep_view()),
{
    let ghost g = m.deep_view();
    proof {
        lemma_deep_view(*m);
    }
    let h = m.len();
    let w = m[0].len();
    let mut r: Matrix = Vec::new();
    for x in 0..w
        invariant
            g == m.deep_view(),
            wf(g),
            h == g.len(),
            w == g[0].len(),
            m@.len() == h,
            forall|y: int| 0 <= y < h ==> #[trigger] m@[y]@.len() == w,
            r@.len() == x,
            forall|i: int| 0 <= i < r@.len() ==> #[trigger] r@[i].deep_view() == rotate_spec(g)[i],
    {
        let mut row: Vec<bool> = Vec::new();
        for y in 0..h
            invariant
                g == m.deep_view(),
                wf(g),
                h == g.len(),
                w == g[0].len(),
                m@.len() == h,
                forall|y2: int| 0 <= y2 < h ==> #[trigger] m@[y2]@.len() == w,
                0 <= x < w,
                row@.len() == y,
                forall|j: int| 0 <= j < row@.len() ==> row@[j] == g[j][w - 1 - x],
        {
            row.push(m[y][w - 1 - x]);
            proof {
                assert(m@[y as int]@[w - 1 - x] == g[y as int][w - 1 - x]);
            }
        }
        r.push(row);
        proof {
            assert(r@[x as int].deep_view() =~= rotate_spec(g)[x as int]);
        }
    }
    proof {
        assert forall|i: int| 0 <= i < r@.len() implies r.deep_view()[i] == rotate_spec(g)[i] by {
            assert(r.deep_view()[i] == r@[i].deep_view());
        }
        assert(r.deep_view() =~= rotate_spec(g));
    }
    r
}

/// The grid with its rows in reverse order (a vertical reflection).
pub open spec fn flip_spec(g: Seq<Seq<bool>>) -> Seq<Seq<bool>> {
    Seq::new(g.len(), |y: int| g[g.len() - 1 - y])
}

/// Reverse the order of the grid's rows.
pub fn flip(m: &Matrix) -> (r: Matrix)
    requires
        wf(m.deep_view()),
    ensures
        r.deep_view() == flip_spec(m.deep_view()),
        wf(r.deep_view()),
{
    let ghost g = m.deep_view();
    proof {
        lemma_deep_view(*m);
    }
    let h = m.len();
    let w = m[0].len();
    let mut r: Matrix = Vec::new();
    for y in 0..h
        invariant
            g == m.deep_view(),
            wf(g),
            h == g.len(),
            w == g[0].len(),
            m@.len() == h,
            forall|y2: int| 0 <= y2 < h ==> #[trigger] m@[y2]@.len() == w,
            r@.len() == y,
            forall|i: int| 0 <= i < r@.len() ==> #[trigger] r@[i].deep_view() == flip_spec(g)[i],
    {
        let mut row: Vec<bool> = Vec::new();
        for x in 0..w
            invariant
                g == m.deep_view(),
                wf(g),
                h == g.len(),
                w == g[0].len(),
                m@.len() == h,
                forall|y2: int| 0 <= y2 < h ==> #[trigger] m@[y2]@.len() == w,
                0 <= y < h,
                row@.len() == x,
                forall|j: int| 0 <= j < row@.len() ==> row@[j] == g[h - 1 - y][j],
        {
            row.push(m[h - 1 - y][x]);
            proof {
                assert(m@[h - 1 - y as int]@[x as int] == g[h - 1 - y as int][x as int]);
            }
        }
        r.push(row);
        proof {
            assert(r@[y as int].deep_view() =~= flip_spec(g)[y as int]);
        }
    }
    proof {
        assert forall|i: int| 0 <= i < r@.len() implies r.deep_view()[i] == flip_spec(g)[i] by {
            assert(r.deep_view()[i] == r@[i].deep_view());
        }
        assert(r.deep_view() =~= flip_spec(g));
    }
    r
}

/// Whether two grids hold exactly the same rows of cells.
pub fn matrix_eq(a: &Matrix, b: &Matrix) -> (r: bool)
    ensures
        r == (a.deep_view() == b.deep_view()),
{
    proof {
        lemma_deep_view(*a);
        lemma_deep_view(*b);
    }
    if a.len() != b.len() {
        proof {
            assert(a.deep_view().len() != b.deep_view().len());
        }
        return false;
    }
    let n = a.len();
    for y in 0..n
        invariant
            n == a@.len() == b@.len(),
            a.deep_view().len() == n,
            b.deep_view().len() == n,
            forall|i: int| 0 <= i < a@.len() ==> (#[trigger] a.deep_view()[i]) =~= a@[i]@,
            forall|i: int| 0 <= i < b@.len() ==> (#[trigger] b.deep_view()[i]) =~= b@[i]@,
            forall|i: int| 0 <= i < y ==> a.deep_view()[i] == b.deep_view()[i],
    {
        if a[y].len() != b[y].len() {
            proof {
                assert(a.deep_view()[y as int].len() != b.deep_view()[y as int].len());
            }
            return false;
        }
        let w = a[y].len();
        for x in 0..w
            invariant
                n == a@.len() == b@.len(),
                0 <= y < n,
                a.deep_view().len() == n,
                b.deep_view().len() == n,
                forall|i: int| 0 <= i < a@.len() ==> (#[trigger] a.deep_view()[i]) =~= a@[i]@,
                forall|i: int| 0 <= i < b@.len() ==> (#[trigger] b.deep_view()[i]) =~= b@[i]@,
                forall|i: int| 0 <= i < y ==> a.deep_view()[i] == b.deep_view()[i],
                w == a@[y as int]@.len() == b@[y as int]@.len(),
                forall|j: int| 0 <= j < x ==> a@[y as int]@[j] == b@[y as int]@[j],
        {
            if a[y][x] != b[y][x] {
                proof {
                    assert(a.deep_view()[y as int][x as int] != b.deep_view()[y as int][x as int]);
                }
                return false;
            }
        }
        proof {
            assert(a.deep_view()[y as int] =~= b.deep_view()[y as int]);
        }
    }
    proof {
        assert(a.deep_view() =~= b.deep_view());
    }
    true
}

/// The first row at or below `y` that holds an occupied cell
/// (`g.len()` when none does).
pub open spec fn top_from(g: Seq<Seq<bool>>, y: int) -> int
    decreases g.len() - y when 0 <= y <= g.len()
{
    if y >= g.len() {
        y
    } else if row_any(g, y) {
        y
    } else {
        top_from(g, y + 1)
    }
}

/// The last row at or above `y` that holds an occupied cell (`-1` when none does).
pub open spec fn bot_from(g: Seq<Seq<bool>>, y: int) -> int
    decreases y + 1 when -1 <= y < g.len()
{
    if y < 0 {
        y
    } else if row_any(g, y) {
        y
    } else {
        bot_from(g, y - 1)
    }
}

/// The first column at or right of `x` that holds an occupied cell.
pub open spec fn left_from(g: Seq<Seq<bool>>, x: int) -> int
    decreases g[0].len() - x when 0 <= x <= g[0].len()
{
    if x >= g[0].len() {
        x
    } else if col_any(g, x) {
        x
    } else {
        left_from(g, x + 1)
    }
}

/// The last column at or left of `x` that holds an occupied cell.
pub open spec fn right_from(g: Seq<Seq<bool>>, x: int) -> int
    decreases x + 1 when -1 <= x < g[0].len()
{
    if x < 0 {
        x
    } else if col_any(g, x) {
        x
    } else {
        right_from(g, x - 1)
    }
}

/// The `nh` by `nw` subgrid of `g` whose top-left corner is `(top, left)`.
pub open spec fn crop(g: Seq<Seq<bool>>, top: int, left: int, nh: int, nw: int) -> Seq<Seq<bool>> {
    Seq::new(nh as nat, |y: int| Seq::new(nw as nat, |x: int| g[top + y][left + x]))
}

/// The grid trimmed to the minimal bounding box of its occupied cells.
pub open spec fn deflate_spec(g: Seq<Seq<bool>>) -> Seq<Seq<bool>> {
    let top = top_from(g, 0);
    let bot = bot_from(g, g.len() - 1);
    let left = left_from(g, 0);
    let right = right_from(g, g[0].len() - 1);
    crop(g, top, left, bot - top + 1, right - left + 1)
}

/// The first and last rows and columns of the grid all hold an occupied
/// cell: no empty border line can be trimmed.
pub open spec fn minimal(g: Seq<Seq<bool>>) -> bool {
    &&& row_any(g, 0)
    &&& row_any(g, g.len() - 1)
    &&& col_any(g, 0)
    &&& col_any(g, g[0].len() - 1)
}

pub proof fn lemma_top_from(g: Seq<Seq<bool>>, y: int)
    requires
        0 <= y <= g.len(),
        exists|y2: int| y <= y2 < g.len() && row_any(g, y2),
    ensures
        y <= top_from(g, y) < g.len(),
        row_any(g, top_from(g, y)),
        forall|y2: int| y <= y2 < top_from(g, y) ==> !row_any(g, y2),
    decreases g.len() - y,
{
    if !row_any(g, y) {
        let w = choose|y2: int| y <= y2 < g.len() && row_any(g, y2);
        assert(y + 1 <= w < g.len() && row_any(g, w));
        lemma_top_from(g, y + 1);
    }
}

pub proof fn lemma_bot_from(g: Seq<Seq<bool>>, y: int)
    requires
        -1 <= y < g.len(),
        exists|y2: int| 0 <= y2 <= y && row_any(g, y2),
    ensures
        0 <= bot_from(g, y) <= y,
        row_any(g, bot_from(g, y)),
        forall|y2: int| bot_from(g, y) < y2 <= y ==> !row_any(g, y2),
    decreases y + 1,
{
    if !row_any(g, y) {
        let w = choose|y2: int| 0 <= y2 <= y && row_any(g, y2);
        assert(0 <= w <= y - 1 && row_any(g, w));
        lemma_bot_from(g, y - 1);
    }
}

pub proof fn lemma_left_from(g: Seq<Seq<bool>>, x: int)
    requires
        0 <= x <= g[0].len(),
        exists|x2: int| x <= x2 < g[0].len() && col_any(g, x2),
    ensures
        x <= left_from(g, x) < g[0].len(),
        col_any(g, left_from(g, x)),
        forall|x2: int| x <= x2 < left_from(g, x) ==> !col_any(g, x2),
    decreases g[0].len() - x,
{
    if !col_any(g, x) {
        let w = choose|x2: int| x <= x2 < g[0].len() && col_any(g, x2);
        assert(x + 1 <= w < g[0].len() && col_any(g, w));
        lemma_left_from(g, x + 1);
    }
}

pub proof fn lemma_right_from(g: Seq<Seq<bool>>, x: int)
    requires
        -1 <= x < g[0].len(),
        exists|x2: int| 0 <= x2 <= x && col_any(g, x2),
    ensures
        0 <= right_from(g, x) <= x,
        col_any(g, right_from(g, x)),
        forall|x2: int| right_from(g, x) < x2 <= x ==> !col_any(g, x2),
    decreases x + 1,
{
    if !col_any(g, x) {
        let w = choose|x2: int| 0 <= x2 <= x && col_any(g, x2);
        assert(0 <= w <= x - 1 && col_any(g, w));
        lemma_right_from(g, x - 1);
    }
}

/// Whether row `y` of the grid holds an occupied cell.
pub fn row_any_exec(m: &Matrix, y: usize) -> (r: bool)
    requires
        wf(m.deep_view()),
        y < m@.len(),
    ensures
        r == row_any(m.deep_view(), y as int),
{
    let ghost g = m.deep_view();
    proof {
        lemma_deep_view(*m);
    }
    let w = m[y].len();
    for x in 0..w
        invariant
            g == m.deep_view(),
            wf(g),
            y < m@.len() == g.len(),
            w == m@[y as int]@.len() == g[y as int].len(),
            forall|j: int| 0 <= j < x ==> !g[y as int][j],
    {
        if m[y][x] {
            proof {
                assert(g[y as int][x as int]);
            }
            return true;
        }
    }
    false
}

/// Whether column `x` of the grid holds an occupied cell.
pub fn col_any_exec(m: &Matrix, x: usize) -> (r: bool)
    requires
        wf(m.deep_view()),
        x < m.deep_view()[0].len(),
    ensures
        r == col_any(m.deep_view(), x as int),
{
    let ghost g = m.deep_view();
    proof {
        lemma_deep_view(*m);
    }
    let h = m.len();
    for y in 0..h
        invariant
            g == m.deep_view(),
            wf(g),
            h == m@.len() == g.len(),
            x < g[0].len(),
            forall|j: int| 0 <= j < g.len() ==> #[trigger] g[j].len() == g[0].len(),
            forall|i: int| 0 <= i < m@.len() ==> (#[trigger] m@[i])@ == g[i],
            forall|j: int| 0 <= j < y ==> !g[j][x as int],
    {
        if m[y][x] {
            proof {
                assert(g[y as int][x as int]);
            }
            return true;
        }
    }
    false
}

/// Trim every empty border row and column from the grid, leaving the
/// minimal bounding box of its occupied cells.
pub fn deflate(source: &mut Matrix)
    requires
        wf(old(source).deep_view()),
        has_cell(old(source).deep_view()),
    ensures
        final(source).deep_view() == deflate_spec(old(source).deep_view()),
        wf(final(source).deep_view()),
        minimal(final(source).deep_view()),
{
    let ghost g = old(source).deep_view();
    proof {
        lemma_deep_view(*source);
        let yc = choose|y: int| 0 <= y < g.len() && row_any(g, y);
        lemma_top_from(g, 0);
        lemma_bot_from(g, g.len() - 1);
        let xc = choose|x: int| 0 <= x < g[yc].len() && g[yc][x];
        assert(col_any(g, xc));
        lemma_left_from(g, 0);
        lemma_right_from(g, g[0].len() - 1);
    }
    let h = source.len();
    let w = source[0].len();
    let mut top: usize = 0;
    while !row_any_exec(source, top)
        invariant
            g == source.deep_view(),
            wf(g),
            h == g.len() == source@.len(),
            w == g[0].len(),
            0 <= top <= top_from(g, 0),
            top_from(g, 0) < g.len(),
            row_any(g, top_from(g, 0)),
            forall|y2: int| 0 <= y2 < top ==> !row_any(g, y2),
        decreases g.len() - top,
    {
        top = top + 1;
    }
    proof {
        assert(top == top_from(g, 0));
    }
    let mut bot: usize = h - 1;
    while !row_any_exec(source, bot)
        invariant
            g == source.deep_view(),
            wf(g),
            h == g.len() == source@.len(),
            w == g[0].len(),
            bot_from(g, g.len() - 1) <= bot < g.len(),
            0 <= bot_from(g, g.len() - 1),
            row_any(g, bot_from(g, g.len() - 1)),
            forall|y2: int| bot < y2 < g.len() ==> !row_any(g, y2),
        decreases bot,
    {
        bot = bot - 1;
    }
    proof {
        assert(bot == bot_from(g, g.len() - 1));
    }
    let mut left: usize = 0;
    while !col_any_exec(source, left)
        invariant
            g == source.deep_view(),
            wf(g),
            h == g.len() == source@.len(),
            w == g[0].len(),
            0 <= left <= left_from(g, 0),
            left_from(g, 0) < g[0].len(),
            col_any(g, left_from(g, 0)),
            forall|x2: int| 0 <= x2 < left ==> !col_any(g, x2),
        decreases g[0].len() - left,
    {
        left = left + 1;
    }
    proof {
        assert(left == left_from(g, 0));
    }
    let mut right: usize = w - 1;
    while !col_any_exec(source, right)
        invariant
            g == source.deep_view(),
            wf(g),
            h == g.len() == source@.len(),
            w == g[0].len(),
            right_from(g, g[0].len() - 1) <= right < g[0].len(),
            0 <= right_from(g, g[0].len() - 1),
            col_any(g, right_from(g, g[0].len() - 1)),
            forall|x2: int| right < x2 < g[0].len() ==> !col_any(g, x2),
        decreases right,
    {
        right = right - 1;
    }
    proof {
        assert(right == right_from(g, g[0].len() - 1));
        assert(top <= bot) by {
            if bot < top {
                assert(row_any(g, bot as int));
            }
        }
        assert(left <= right) by {
            if right < left {
                assert(col_any(g, right as int));
            }
        }
    }
    let nh = bot - top + 1;
    let nw = right - left + 1;
    let ghost d = deflate_spec(g);
    let mut r: Matrix = Vec::new();
    for y in 0..nh
        invariant
            g == source.deep_view(),
            wf(g),
            h == g.len() == source@.len(),
            w == g[0].len(),
            forall|i: int| 0 <= i < g.len() ==> #[trigger] g[i].len() == w,
            forall|i: int| 0 <= i < source@.len() ==> (#[trigger] source@[i])@ == g[i],
            top == top_from(g, 0),
            left == left_from(g, 0),
            nh == bot_from(g, g.len() - 1) - top + 1,
            nw == right_from(g, g[0].len() - 1) - left + 1,
            top + nh <= h,
            left + nw <= w,
            d == deflate_spec(g),
            r@.len() == y,
            forall|i: int| 0 <= i < r@.len() ==> #[trigger] r@[i].deep_view() == d[i],
    {
        let mut row: Vec<bool> = Vec::new();
        for x in 0..nw
            invariant
                g == source.deep_view(),
                wf(g),
                h == g.len() == source@.len(),
                w == g[0].len(),
                forall|i: int| 0 <= i < g.len() ==> #[trigger] g[i].len() == w,
                forall|i: int| 0 <= i < source@.len() ==> (#[trigger] source@[i])@ == g[i],
                0 <= y < nh,
                top + nh <= h,
                left + nw <= w,
                row@.len() == x,
                forall|j: int| 0 <= j < row@.len() ==> row@[j] == g[top + y][left + j],
        {
            row.push(source[top + y][left + x]);
        }
        r.push(row);
        proof {
            assert(r@[y as int].deep_view() =~= d[y as int]);
        }
    }
    proof {
        assert forall|i: int| 0 <= i < r@.len() implies r.deep_view()[i] == d[i] by {
            assert(r.deep_view()[i] == r@[i].deep_view());
        }
        assert(r.deep_view() =~= d);
    }
    *source = r;
    proof {
        let gd = source.deep_view();
        assert(wf(gd));
        assert(minimal(gd)) by {
            let ti = top_from(g, 0);
            let bi = bot_from(g, g.len() - 1);
            let li = left_from(g, 0);
            let ri = right_from(g, g[0].len() - 1);
            let xa = choose|x: int| 0 <= x < g[ti].len() && g[ti][x];
            assert(!col_any(g, xa) ==> !g[ti][xa]);
            assert(li <= xa <= ri);
            assert(gd[0][xa - li] == g[ti][xa]);
            assert(row_any(gd, 0));
            let xb = choose|x: int| 0 <= x < g[bi].len() && g[bi][x];
            assert(!col_any(g, xb) ==> !g[bi][xb]);
            assert(li <= xb <= ri);
            assert(gd[gd.len() - 1][xb - li] == g[bi][xb]);
            assert(row_any(gd, gd.len() - 1));
            let ya = choose|y: int| 0 <= y < g.len() && g[y][li];
            assert(!row_any(g, ya) ==> !g[ya][li]);
            assert(ti <= ya <= bi);
            assert(gd[ya - ti][0] == g[ya][li]);
            assert(col_any(gd, 0));
            let yb = choose|y: int| 0 <= y < g.len() && g[y][ri];
            assert(!row_any(g, yb) ==> !g[yb][ri]);
            assert(ti <= yb <= bi);
            assert(gd[yb - ti][gd[0].len() - 1] == g[yb][ri]);
            assert(col_any(gd, gd[0].len() - 1));
        }
    }
}

/// The larger of two lengths.
pub fn maxi(a: usize, b: usize) -> (r: usize)
    ensures
        r == if a > b { a as int } else { b as int },
{
    if a > b {
        a
    } else {
        b
    }
}

/// Inflating keeps a grid well formed.
pub proof fn lemma_wf_inflate(g: Seq<Seq<bool>>)
    requires
        wf(g),
    ensures
        wf(inflate_spec(g)),
        inflate_spec(g).len() == g.len() + 2,
        inflate_spec(g)[0].len() == g[0].len() + 2,
{
    assert forall|y: int| 0 <= y < inflate_spec(g).len() implies #[trigger] inflate_spec(
        g,
    )[y].len() == inflate_spec(g)[0].len() by {
        assert(inflate_spec(g)[y].len() == g[0].len() + 2);
    }
}

/// Padding a minimal grid with one empty border and trimming it again
/// returns the original grid: deflating undoes inflating.
pub proof fn lemma_inflate_deflate_round_trip(g: Seq<Seq<bool>>)
    requires
        wf(g),
        minimal(g),
    ensures
        deflate_spec(inflate_spec(g)) == g,
{
    let gi = inflate_spec(g);
    let h = g.len() as int;
    let w = g[0].len() as int;
    lemma_wf_inflate(g);
    assert(!row_any(gi, 0)) by {
        assert(forall|x: int| 0 <= x < gi[0].len() ==> !(#[trigger] gi[0][x]));
    }
    assert(row_any(gi, 1)) by {
        let x0 = choose|x: int| 0 <= x < g[0].len() && #[trigger] g[0][x];
        assert(gi[1][x0 + 1]);
    }
    assert(top_from(gi, 1) == 1);
    assert(top_from(gi, 0) == 1);
    assert(!row_any(gi, h + 1)) by {
        assert(forall|x: int| 0 <= x < gi[h + 1].len() ==> !(#[trigger] gi[h + 1][x]));
    }
    assert(row_any(gi, h)) by {
        let x0 = choose|x: int| 0 <= x < g[h - 1].len() && #[trigger] g[h - 1][x];
        assert(g[h - 1].len() == w);
        assert(gi[h][x0 + 1] == g[h - 1][x0]);
    }
    assert(bot_from(gi, h) == h);
    assert(gi.len() - 1 == h + 1);
    assert(bot_from(gi, h + 1) == h);
    assert(bot_from(gi, gi.len() - 1) == h);
    assert(!col_any(gi, 0)) by {
        assert(forall|y: int| 0 <= y < gi.len() ==> !(#[trigger] gi[y][0]));
    }
    assert(col_any(gi, 1)) by {
        let y0 = choose|y: int| 0 <= y < g.len() && #[trigger] g[y][0];
        assert(gi[y0 + 1][1] == g[y0][0]);
    }
    assert(left_from(gi, 1) == 1);
    assert(left_from(gi, 0) == 1);
    assert(!col_any(gi, w + 1)) by {
        assert(forall|y: int| 0 <= y < gi.len() ==> !(#[trigger] gi[y][w + 1]));
    }
    assert(col_any(gi, w)) by {
        let y0 = choose|y: int| 0 <= y < g.len() && #[trigger] g[y][w - 1];
        assert(gi[y0 + 1][w] == g[y0][w - 1]);
    }
    assert(right_from(gi, w) == w);
    assert(gi[0].len() - 1 == w + 1);
    assert(right_from(gi, w + 1) == w);
    assert(right_from(gi, gi[0].len() - 1) == w);
    let d = deflate_spec(gi);
    assert(d.len() == g.len());
    assert forall|y: int| 0 <= y < d.len() implies #[trigger] d[y] =~= g[y] by {
        assert(d[y].len() == w);
        assert(g[y].len() == w);
        assert forall|x: int| 0 <= x < w implies d[y][x] == g[y][x] by {
            assert(d[y][x] == gi[1 + y][1 + x]);
        }
    }
    assert(d =~= g);
}

/// The number of occupied cells among the first `m` of a row.
pub open spec fn row_cnt(r: Seq<bool>, m: int) -> nat
    decreases m,
{
    if m <= 0 {
        0
    } else {
        row_cnt(r, m - 1) + (if r[m - 1] {
            1nat
        } else {
            0nat
        })
    }
}

/// The number of occupied cells in the first `m` rows of a grid.
pub open spec fn grid_cnt(g: Seq<Seq<bool>>, m: int) -> nat
    decreases m,
{
    if m <= 0 {
        0
    } else {
        grid_cnt(g, m - 1) + row_cnt(g[m - 1], g[m - 1].len() as int)
    }
}

/// The number of occupied cells of a grid.
pub open spec fn cnt(g: Seq<Seq<bool>>) -> nat {
    grid_cnt(g, g.len() as int)
}

/// The number of occupied cells among the first `m` of column `x`.
pub open spec fn col_cnt(g: Seq<Seq<bool>>, x: int, m: int) -> nat
    decreases m,
{
    if m <= 0 {
        0
    } else {
        col_cnt(g, x, m - 1) + (if g[m - 1][x] {
            1nat
        } else {
            0nat
        })
    }
}

/// The cells of the first `my` rows, summed column by column over the
/// first `mx` columns.
pub open spec fn colsum(g: Seq<Seq<bool>>, mx: int, my: int) -> nat
    decreases mx,
{
    if mx <= 0 {
        0
    } else {
        colsum(g, mx - 1, my) + col_cnt(g, mx - 1, my)
    }
}

proof fn lemma_colsum_row(g: Seq<Seq<bool>>, mx: int, my: int)
    requires
        wf(g),
        0 <= mx <= g[0].len(),
        1 <= my <= g.len(),
    ensures
        colsum(g, mx, my) == colsum(g, mx, my - 1) + row_cnt(g[my - 1], mx),
    decreases mx,
{
    if mx > 0 {
        lemma_colsum_row(g, mx - 1, my);
    }
}

/// Counting a grid row by row or column by column gives the same total.
proof fn lemma_exchange(g: Seq<Seq<bool>>, my: int)
    requires
        wf(g),
        0 <= my <= g.len(),
    ensures
        grid_cnt(g, my) == colsum(g, g[0].len() as int, my),
    decreases my,
{
    if my > 0 {
        lemma_exchange(g, my - 1);
        lemma_colsum_row(g, g[0].len() as int, my);
        assert(g[my - 1].len() == g[0].len());
    } else {
        lemma_colsum_zero(g, g[0].len() as int);
    }
}

proof fn lemma_colsum_zero(g: Seq<Seq<bool>>, mx: int)
    ensures
        colsum(g, mx, 0) == 0,
    decreases mx,
{
    if mx > 0 {
        lemma_colsum_zero(g, mx - 1);
    }
}

proof fn lemma_rowcnt_rot(g: Seq<Seq<bool>>, x: int, m: int)
    requires
        wf(g),
        0 <= x < g[0].len(),
        0 <= m <= g.len(),
    ensures
        row_cnt(rotate_spec(g)[x], m) == col_cnt(g, g[0].len() - 1 - x, m),
    decreases m,
{
    if m > 0 {
        lemma_rowcnt_rot(g, x, m - 1);
        assert(rotate_spec(g)[x][m - 1] == g[m - 1][g[0].len() - 1 - x]);
    }
}

proof fn lemma_cnt_rot_partial(g: Seq<Seq<bool>>, m: int)
    requires
        wf(g),
        0 <= m <= g[0].len(),
    ensures
        grid_cnt(rotate_spec(g), m) + colsum(g, g[0].len() - m, g.len() as int) == colsum(
            g,
            g[0].len() as int,
            g.len() as int,
        ),
    decreases m,
{
    let w = g[0].len() as int;
    let h = g.len() as int;
    if m == 0 {
    } else {
        lemma_cnt_rot_partial(g, m - 1);
        lemma_rowcnt_rot(g, m - 1, h);
        assert(rotate_spec(g)[m - 1].len() == h);
        assert(colsum(g, w - m + 1, h) == colsum(g, w - m, h) + col_cnt(g, w - m, h));
        assert(grid_cnt(rotate_spec(g), m) == grid_cnt(rotate_spec(g), m - 1) + row_cnt(
            rotate_spec(g)[m - 1],
            h,
        ));
    }
}

/// A quarter turn does not change the number of occupied cells.
pub proof fn lemma_cnt_rot(g: Seq<Seq<bool>>)
    requires
        wf(g),
    ensures
        cnt(rotate_spec(g)) == cnt(g),
{
    let w = g[0].len() as int;
    let h = g.len() as int;
    lemma_cnt_rot_partial(g, w);
    lemma_exchange(g, h);
    assert(rotate_spec(g).len() == w);
}

/// A vertical reflection does not change the number of occupied cells.
pub proof fn lemma_cnt_flip(g: Seq<Seq<bool>>)
    requires
        wf(g),
    ensures
        cnt(flip_spec(g)) == cnt(g),
{
    lemma_cnt_flip_partial(g, g.len() as int);
    assert(flip_spec(g).len() == g.len());
    assert(grid_cnt(g, 0) == 0);
}

proof fn lemma_cnt_flip_partial(g: Seq<Seq<bool>>, m: int)
    requires
        wf(g),
        0 <= m <= g.len(),
    ensures
        grid_cnt(flip_spec(g), m) + grid_cnt(g, g.len() - m) == grid_cnt(g, g.len() as int),
    decreases m,
{
    let h = g.len() as int;
    if m > 0 {
        lemma_cnt_flip_partial(g, m - 1);
        assert(flip_spec(g)[m - 1] == g[h - m]);
        assert(grid_cnt(g, h - m + 1) == grid_cnt(g, h - m) + row_cnt(g[h - m], g[h - m].len()
            as int));
    }
}

proof fn lemma_rowcnt_false_range(r: Seq<bool>, m1: int, m2: int)
    requires
        0 <= m1 <= m2,
        forall|j: int| m1 <= j < m2 ==> !(#[trigger] r[j]),
    ensures
        row_cnt(r, m2) == row_cnt(r, m1),
    decreases m2 - m1,
{
    if m2 > m1 {
        lemma_rowcnt_false_range(r, m1, m2 - 1);
    }
}

proof fn lemma_rowcnt_inflrow(g: Seq<Seq<bool>>, y: int, m: int)
    requires
        wf(g),
        1 <= y <= g.len(),
        0 <= m <= g[0].len() + 1,
    ensures
        row_cnt(inflate_spec(g)[y], m) == row_cnt(g[y - 1], m - 1),
    decreases m,
{
    if m > 0 {
        lemma_rowcnt_inflrow(g, y, m - 1);
        if m > 1 {
            assert(inflate_spec(g)[y][m - 1] == g[y - 1][m - 2]);
        } else {
            assert(!inflate_spec(g)[y][0]);
        }
    }
}

proof fn lemma_cnt_inflate_partial(g: Seq<Seq<bool>>, m: int)
    requires
        wf(g),
        0 <= m <= g.len() + 1,
    ensures
        grid_cnt(inflate_spec(g), m) == grid_cnt(g, m - 1),
    decreases m,
{
    let gi = inflate_spec(g);
    let w = g[0].len() as int;
    if m > 0 {
        lemma_cnt_inflate_partial(g, m - 1);
        if m == 1 {
            assert(forall|j: int| 0 <= j < w + 2 ==> !(#[trigger] gi[0][j]));
            lemma_rowcnt_false_range(gi[0], 0, w + 2);
            assert(gi[0].len() == w + 2);
        } else {
            lemma_rowcnt_inflrow(g, m - 1, w + 1);
            assert(forall|j: int| w + 1 <= j < w + 2 ==> !(#[trigger] gi[m - 1][j]));
            lemma_rowcnt_false_range(gi[m - 1], w + 1, w + 2);
            assert(gi[m - 1].len() == w + 2);
            assert(g[m - 2].len() == w);
        }
    }
}

/// Padding a grid with an empty border does not change its cell count.
pub proof fn lemma_cnt_inflate(g: Seq<Seq<bool>>)
    requires
        wf(g),
    ensures
        cnt(inflate_spec(g)) == cnt(g),
{
    let gi = inflate_spec(g);
    let h = g.len() as int;
    let w = g[0].len() as int;
    lemma_cnt_inflate_partial(g, h + 1);
    assert(forall|j: int| 0 <= j < w + 2 ==> !(#[trigger] gi[h + 1][j]));
    lemma_rowcnt_false_range(gi[h + 1], 0, w + 2);
    assert(gi[h + 1].len() == w + 2);
    assert(gi.len() == h + 2);
    assert(grid_cnt(gi, h + 2) == grid_cnt(gi, h + 1) + row_cnt(gi[h + 1], w + 2));
}

proof fn lemma_rowcnt_update(r: Seq<bool>, x: int, m: int)
    requires
        0 <= x < r.len(),
        !r[x],
        0 <= m <= r.len(),
    ensures
        row_cnt(r.update(x, true), m) == row_cnt(r, m) + (if x < m {
            1nat
        } else {
            0nat
        }),
    decreases m,
{
    if m > 0 {
        lemma_rowcnt_update(r, x, m - 1);
        if x != m - 1 {
            assert(r.update(x, true)[m - 1] == r[m - 1]);
        }
    }
}

proof fn lemma_cnt_update_partial(g: Seq<Seq<bool>>, y: int, x: int, m: int)
    requires
        wf(g),
        0 <= y < g.len(),
        0 <= x < g[y].len(),
        !g[y][x],
        0 <= m <= g.len(),
    ensures
        grid_cnt(g.update(y, g[y].update(x, true)), m) == grid_cnt(g, m) + (if y < m {
            1nat
        } else {
            0nat
        }),
    decreases m,
{
    let gu = g.update(y, g[y].update(x, true));
    if m > 0 {
        lemma_cnt_update_partial(g, y, x, m - 1);
        if y == m - 1 {
            assert(gu[m - 1] == g[m - 1].update(x, true));
            lemma_rowcnt_update(g[m - 1], x, g[m - 1].len() as int);
            assert(gu[m - 1].len() == g[m - 1].len());
        } else {
            assert(gu[m - 1] == g[m - 1]);
        }
    }
}

/// Occupying one empty cell raises the cell count by exactly one.
pub proof fn lemma_cnt_update(g: Seq<Seq<bool>>, y: int, x: int)
    requires
        wf(g),
        0 <= y < g.len(),
        0 <= x < g[y].len(),
        !g[y][x],
    ensures
        cnt(g.update(y, g[y].update(x, true))) == cnt(g) + 1,
{
    lemma_cnt_update_partial(g, y, x, g.len() as int);
    assert(g.update(y, g[y].update(x, true)).len() == g.len());
}

proof fn lemma_gridcnt_false_range(g: Seq<Seq<bool>>, m1: int, m2: int)
    requires
        0 <= m1 <= m2 <= g.len(),
        forall|y: int| m1 <= y < m2 ==> !row_any(g, y),
    ensures
        grid_cnt(g, m2) == grid_cnt(g, m1),
    decreases m2 - m1,
{
    if m2 > m1 {
        lemma_gridcnt_false_range(g, m1, m2 - 1);
        assert(!row_any(g, m2 - 1));
        assert(forall|j: int| 0 <= j < g[m2 - 1].len() ==> !(#[trigger] g[m2 - 1][j]));
        lemma_rowcnt_false_range(g[m2 - 1], 0, g[m2 - 1].len() as int);
    }
}

proof fn lemma_rowcnt_crop(g: Seq<Seq<bool>>, ti: int, li: int, nh: int, nw: int, yy: int, m: int)
    requires
        wf(g),
        0 <= ti,
        0 <= li,
        0 <= yy < nh,
        ti + nh <= g.len(),
        li + nw <= g[0].len(),
        0 <= m <= nw,
    ensures
        row_cnt(crop(g, ti, li, nh, nw)[yy], m) + row_cnt(g[ti + yy], li) == row_cnt(
            g[ti + yy],
            li + m,
        ),
    decreases m,
{
    if m > 0 {
        lemma_rowcnt_crop(g, ti, li, nh, nw, yy, m - 1);
        assert(crop(g, ti, li, nh, nw)[yy][m - 1] == g[ti + yy][li + m - 1]);
    }
}

proof fn lemma_cnt_crop_partial(g: Seq<Seq<bool>>, ti: int, li: int, nh: int, nw: int, m: int)
    requires
        wf(g),
        0 <= ti,
        0 <= li,
        0 <= nh,
        0 <= nw,
        ti + nh <= g.len(),
        li + nw <= g[0].len(),
        0 <= m <= nh,
        forall|x2: int| 0 <= x2 < li ==> !col_any(g, x2),
        forall|x2: int| li + nw <= x2 < g[0].len() ==> !col_any(g, x2),
    ensures
        grid_cnt(crop(g, ti, li, nh, nw), m) + grid_cnt(g, ti) == grid_cnt(g, ti + m),
    decreases m,
{
    let d = crop(g, ti, li, nh, nw);
    if m > 0 {
        lemma_cnt_crop_partial(g, ti, li, nh, nw, m - 1);
        let row = g[ti + m - 1];
        assert(row.len() == g[0].len());
        assert(forall|j: int| 0 <= j < li ==> !(#[trigger] row[j])) by {
            assert forall|j: int| 0 <= j < li implies !(#[trigger] row[j]) by {
                assert(!col_any(g, j));
            }
        }
        lemma_rowcnt_false_range(row, 0, li);
        assert(forall|j: int| li + nw <= j < row.len() ==> !(#[trigger] row[j])) by {
            assert forall|j: int| li + nw <= j < row.len() implies !(#[trigger] row[j]) by {
                assert(!col_any(g, j));
            }
        }
        lemma_rowcnt_false_range(row, li + nw, row.len() as int);
        lemma_rowcnt_crop(g, ti, li, nh, nw, m - 1, nw);
        assert(d[m - 1].len() == nw);
        assert(grid_cnt(d, m) == grid_cnt(d, m - 1) + row_cnt(d[m - 1], nw));
        assert(grid_cnt(g, ti + m) == grid_cnt(g, ti + m - 1) + row_cnt(row, row.len() as int));
    }
}

/// Trimming the empty border rows and columns does not change the cell
/// count, and leaves a well-formed grid.
pub proof fn lemma_cnt_deflate(g: Seq<Seq<bool>>)
    requires
        wf(g),
        has_cell(g),
    ensures
        cnt(deflate_spec(g)) == cnt(g),
        wf(deflate_spec(g)),
{
    let yc = choose|y: int| 0 <= y < g.len() && row_any(g, y);
    lemma_top_from(g, 0);
    lemma_bot_from(g, g.len() - 1);
    let xc = choose|x: int| 0 <= x < g[yc].len() && #[trigger] g[yc][x];
    assert(col_any(g, xc));
    lemma_left_from(g, 0);
    lemma_right_from(g, g[0].len() - 1);
    let ti = top_from(g, 0);
    let bi = bot_from(g, g.len() - 1);
    let li = left_from(g, 0);
    let ri = right_from(g, g[0].len() - 1);
    assert(ti <= bi) by {
        if bi < ti {
            assert(!row_any(g, bi));
        }
    }
    assert(li <= ri) by {
        if ri < li {
            assert(!col_any(g, ri));
        }
    }
    let nh = bi - ti + 1;
    let nw = ri - li + 1;
    let d = crop(g, ti, li, nh, nw);
    lemma_cnt_crop_partial(g, ti, li, nh, nw, nh);
    assert(grid_cnt(g, ti) == 0) by {
        lemma_gridcnt_false_range(g, 0, ti);
    }
    assert(grid_cnt(g, g.len() as int) == grid_cnt(g, ti + nh)) by {
        lemma_gridcnt_false_range(g, bi + 1, g.len() as int);
    }
    assert(d.len() == nh);
    assert(cnt(d) == grid_cnt(d, nh));
    assert(wf(d)) by {
        assert(forall|y: int| 0 <= y < d.len() ==> (#[trigger] d[y]).len() == nw);
    }
}

} // verus!
