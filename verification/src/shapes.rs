use vstd::prelude::*;

use crate::grid::{
    cnt, deflate, deflate_spec, flip, flip_spec, has_cell, inflate, inflate_spec,
    lemma_deep_view, row_any, rotate, rotate_spec, wf, Matrix,
};
use crate::order::{
    gmax, grid_le, grid_le_exec, lemma_grid_le_antisym, lemma_grid_le_refl, lemma_grid_le_total,
    lemma_grid_le_trans,
};

verus! {

/// The eight dihedral variants of a grid: the four rotations of the grid
/// and the four rotations of its vertical reflection.
pub open spec fn variants(g: Seq<Seq<bool>>) -> Seq<Seq<Seq<bool>>> {
    let r1 = rotate_spec(g);
    let r2 = rotate_spec(r1);
    let r3 = rotate_spec(r2);
    let f0 = flip_spec(g);
    let f1 = rotate_spec(f0);
    let f2 = rotate_spec(f1);
    let f3 = rotate_spec(f2);
    seq![g, r1, r2, r3, f0, f1, f2, f3]
}

/// A quarter turn keeps a grid well formed.
pub proof fn lemma_wf_rotate(g: Seq<Seq<bool>>)
    requires
        wf(g),
    ensures
        wf(rotate_spec(g)),
{
    assert forall|y: int| 0 <= y < rotate_spec(g).len() implies #[trigger] rotate_spec(
        g,
    )[y].len() == rotate_spec(g)[0].len() by {
        assert(rotate_spec(g)[y].len() == g.len());
    }
}

/// A vertical reflection keeps a grid well formed.
pub proof fn lemma_wf_flip(g: Seq<Seq<bool>>)
    requires
        wf(g),
    ensures
        wf(flip_spec(g)),
{
    assert forall|y: int| 0 <= y < flip_spec(g).len() implies #[trigger] flip_spec(g)[y].len()
        == flip_spec(g)[0].len() by {
        assert(flip_spec(g)[y] == g[g.len() - 1 - y]);
        assert(g[g.len() - 1 - y].len() == g[0].len());
    }
}

/// Every dihedral variant of a well-formed grid is well formed.
pub proof fn lemma_variants_wf(g: Seq<Seq<bool>>)
    requires
        wf(g),
    ensures
        forall|k: int| 0 <= k < 8 ==> wf(#[trigger] variants(g)[k]),
{
    let r1 = rotate_spec(g);
    let r2 = rotate_spec(r1);
    let f0 = flip_spec(g);
    let f1 = rotate_spec(f0);
    let f2 = rotate_spec(f1);
    lemma_wf_rotate(g);
    lemma_wf_rotate(r1);
    lemma_wf_rotate(r2);
    lemma_wf_flip(g);
    lemma_wf_rotate(f0);
    lemma_wf_rotate(f1);
    lemma_wf_rotate(f2);
}

/// The greatest of the first `k + 1` grids of the sequence in the grid order.
pub open spec fn cmax_upto(v: Seq<Seq<Seq<bool>>>, k: int) -> Seq<Seq<bool>>
    decreases k,
{
    if k <= 0 {
        v[0]
    } else {
        gmax(cmax_upto(v, k - 1), v[k])
    }
}

/// The canonical form of a grid: the greatest of its eight dihedral
/// variants in the grid order.
pub open spec fn canonical_spec(g: Seq<Seq<bool>>) -> Seq<Seq<bool>> {
    cmax_upto(variants(g), 7)
}

pub proof fn lemma_cmax_upto(v: Seq<Seq<Seq<bool>>>, k: int)
    requires
        0 <= k < v.len(),
        forall|j: int| 0 <= j < v.len() ==> wf(#[trigger] v[j]),
    ensures
        exists|j: int| 0 <= j <= k && cmax_upto(v, k) == v[j],
        forall|j: int| 0 <= j <= k ==> grid_le(#[trigger] v[j], cmax_upto(v, k)),
        wf(cmax_upto(v, k)),
    decreases k,
{
    if k <= 0 {
        lemma_grid_le_refl(v[0]);
        assert(cmax_upto(v, 0) == v[0]);
    } else {
        lemma_cmax_upto(v, k - 1);
        let prev = cmax_upto(v, k - 1);
        lemma_grid_le_total(prev, v[k]);
        lemma_grid_le_refl(v[k]);
        lemma_grid_le_refl(prev);
        assert forall|j: int| 0 <= j <= k implies grid_le(#[trigger] v[j], cmax_upto(v, k)) by {
            if j < k {
                if grid_le(prev, v[k]) {
                    lemma_grid_le_trans(v[j], prev, v[k]);
                }
            }
        }
    }
}

/// The canonical form of a grid is one of its variants and is the
/// greatest of them.
pub proof fn lemma_canonical_props(g: Seq<Seq<bool>>)
    requires
        wf(g),
    ensures
        exists|j: int| 0 <= j < 8 && canonical_spec(g) == variants(g)[j],
        forall|j: int| 0 <= j < 8 ==> grid_le(#[trigger] variants(g)[j], canonical_spec(g)),
        wf(canonical_spec(g)),
{
    lemma_variants_wf(g);
    lemma_cmax_upto(variants(g), 7);
}

/// A fresh grid holding the same cells as `m`.
pub fn copy_matrix(m: &Matrix) -> (r: Matrix)
    requires
        wf(m.deep_view()),
    ensures
        r.deep_view() == m.deep_view(),
{
    let ghost g = m.deep_view();
    proof {
        lemma_deep_view(*m);
    }
    let h = m.len();
    let w = m[0].len();
    let mut r: Matrix = Vec::new();
    for y in 0..h
        invariant
            g == m.deep_view(),
            wf(g),
            h == g.len() == m@.len(),
            w == g[0].len(),
            forall|i: int| 0 <= i < m@.len() ==> (#[trigger] m@[i])@ == g[i],
            forall|i: int| 0 <= i < g.len() ==> #[trigger] g[i].len() == w,
            r@.len() == y,
            forall|i: int| 0 <= i < r@.len() ==> #[trigger] r@[i].deep_view() == g[i],
    {
        let mut row: Vec<bool> = Vec::new();
        for x in 0..w
            invariant
                g == m.deep_view(),
                wf(g),
                h == g.len() == m@.len(),
                w == g[0].len(),
                0 <= y < h,
                forall|i: int| 0 <= i < m@.len() ==> (#[trigger] m@[i])@ == g[i],
                forall|i: int| 0 <= i < g.len() ==> #[trigger] g[i].len() == w,
                row@.len() == x,
                forall|j: int| 0 <= j < row@.len() ==> row@[j] == g[y as int][j],
        {
            row.push(m[y][x]);
        }
        r.push(row);
        proof {
            assert(r@[y as int].deep_view() =~= g[y as int]);
        }
    }
    proof {
        assert forall|i: int| 0 <= i < r@.len() implies r.deep_view()[i] == g[i] by {
            assert(r.deep_view()[i] == r@[i].deep_view());
        }
        assert(r.deep_view() =~= g);
    }
    r
}

/// The eight dihedral variants of a grid, in the order of `variants`.
pub fn all_variants(m: &Matrix) -> (r: Vec<Matrix>)
    requires
        wf(m.deep_view()),
    ensures
        r@.len() == 8,
        forall|k: int| 0 <= k < 8 ==> (#[trigger] r@[k]).deep_view() == variants(m.deep_view())[k],
        forall|k: int| 0 <= k < 8 ==> wf(#[trigger] r@[k].deep_view()),
{
    let ghost g = m.deep_view();
    proof {
        lemma_variants_wf(g);
    }
    let v0 = copy_matrix(m);
    let v1 = rotate(m);
    let v2 = rotate(&v1);
    let v3 = rotate(&v2);
    let f0 = flip(m);
    let f1 = rotate(&f0);
    let f2 = rotate(&f1);
    let f3 = rotate(&f2);
    let mut r: Vec<Matrix> = Vec::new();
    r.push(v0);
    r.push(v1);
    r.push(v2);
    r.push(v3);
    r.push(f0);
    r.push(f1);
    r.push(f2);
    r.push(f3);
    proof {
        assert forall|k: int| 0 <= k < 8 implies (#[trigger] r@[k]).deep_view() == variants(g)[k]
            by {
            assert(variants(g)[k] == seq![
                g,
                rotate_spec(g),
                rotate_spec(rotate_spec(g)),
                rotate_spec(rotate_spec(rotate_spec(g))),
                flip_spec(g),
                rotate_spec(flip_spec(g)),
                rotate_spec(rotate_spec(flip_spec(g))),
                rotate_spec(rotate_spec(rotate_spec(flip_spec(g)))),
            ][k]);
        }
    }
    r
}

/// The canonical representative of a free polyomino: the greatest of the
/// grid's eight rotation and reflection variants in the grid order.
pub fn canonical(m: &Matrix) -> (r: Matrix)
    requires
        wf(m.deep_view()),
    ensures
        r.deep_view() == canonical_spec(m.deep_view()),
        wf(r.deep_view()),
{
    let ghost g = m.deep_view();
    let vs = all_variants(m);
    let mut best = copy_matrix(&vs[0]);
    for k in 1..8usize
        invariant
            g == m.deep_view(),
            wf(g),
            vs@.len() == 8,
            forall|j: int| 0 <= j < 8 ==> (#[trigger] vs@[j]).deep_view() == variants(g)[j],
            forall|j: int| 0 <= j < 8 ==> wf(#[trigger] vs@[j].deep_view()),
            wf(best.deep_view()),
            best.deep_view() == cmax_upto(variants(g), k - 1),
        decreases 8 - k,
    {
        proof {
            lemma_variants_wf(g);
            lemma_cmax_upto(variants(g), k - 1);
        }
        if grid_le_exec(&best, &vs[k]) {
            best = copy_matrix(&vs[k]);
        }
        proof {
            assert(best.deep_view() == cmax_upto(variants(g), k as int));
        }
    }
    proof {
        lemma_canonical_props(g);
    }
    best
}

/// Whether some grid of the list holds exactly the cells of `m`.
pub fn contains_matrix(v: &Vec<Matrix>, m: &Matrix) -> (r: bool)
    ensures
        r == exists|i: int| 0 <= i < v@.len() && (#[trigger] v@[i]).deep_view() == m.deep_view(),
{
    let n = v.len();
    for i in 0..n
        invariant
            n == v@.len(),
            forall|j: int| 0 <= j < i ==> (#[trigger] v@[j]).deep_view() != m.deep_view(),
    {
        if crate::grid::matrix_eq(&v[i], m) {
            proof {
                assert(v@[i as int].deep_view() == m.deep_view());
            }
            return true;
        }
    }
    false
}

/// Some grid of the list holds exactly the cells `v`.
pub open spec fn has_variant(rs: Seq<Matrix>, v: Seq<Seq<bool>>) -> bool {
    exists|i: int| 0 <= i < rs.len() && (#[trigger] rs[i]).deep_view() == v
}

/// All physically distinct orientations of a shape: the eight dihedral
/// variants with exact duplicates removed, first occurrence kept.
pub fn shapes_of(m: &Matrix) -> (r: Vec<Matrix>)
    requires
        wf(m.deep_view()),
    ensures
        forall|i: int|
            0 <= i < r@.len() ==> variants(m.deep_view()).contains(
                (#[trigger] r@[i]).deep_view(),
            ),
        forall|k: int| 0 <= k < 8 ==> has_variant(r@, #[trigger] variants(m.deep_view())[k]),
        forall|i: int, j: int|
            0 <= i < j < r@.len() ==> (#[trigger] r@[i]).deep_view() != (
            #[trigger] r@[j]).deep_view(),
        forall|i: int| 0 <= i < r@.len() ==> wf((#[trigger] r@[i]).deep_view()),
        1 <= r@.len() <= 8,
{
    let ghost g = m.deep_view();
    let vs = all_variants(m);
    let mut r: Vec<Matrix> = Vec::new();
    for k in 0..8usize
        invariant
            g == m.deep_view(),
            wf(g),
            vs@.len() == 8,
            forall|j: int| 0 <= j < 8 ==> (#[trigger] vs@[j]).deep_view() == variants(g)[j],
            forall|j: int| 0 <= j < 8 ==> wf(#[trigger] vs@[j].deep_view()),
            r@.len() <= k,
            k >= 1 ==> r@.len() >= 1,
            forall|i: int|
                0 <= i < r@.len() ==> variants(g).contains((#[trigger] r@[i]).deep_view()),
            forall|k2: int| 0 <= k2 < k ==> has_variant(r@, #[trigger] variants(g)[k2]),
            forall|i: int, j: int|
                0 <= i < j < r@.len() ==> (#[trigger] r@[i]).deep_view() != (
                #[trigger] r@[j]).deep_view(),
            forall|i: int| 0 <= i < r@.len() ==> wf((#[trigger] r@[i]).deep_view()),
    {
        let ghost r_old = r@;
        let dup = contains_matrix(&r, &vs[k]);
        if !dup {
            let c = copy_matrix(&vs[k]);
            r.push(c);
        }
        proof {
            if !dup {
                assert(r@ == r_old.push(r@[r_old.len() as int]));
                assert(r@[r@.len() - 1].deep_view() == variants(g)[k as int]);
                assert(variants(g).contains(variants(g)[k as int]));
            }
            assert forall|k2: int| 0 <= k2 < k + 1 implies has_variant(
                r@,
                #[trigger] variants(g)[k2],
            ) by {
                if k2 < k {
                    let i0 = choose|i: int|
                        0 <= i < r_old.len() && (#[trigger] r_old[i]).deep_view() == variants(
                            g,
                        )[k2];
                    assert(0 <= i0 < r@.len() && r@[i0].deep_view() == variants(g)[k2]);
                } else {
                    if dup {
                        let i0 = choose|i: int|
                            0 <= i < r_old.len() && (#[trigger] r_old[i]).deep_view() == vs@[
                                k as int].deep_view();
                        assert(0 <= i0 < r@.len() && r@[i0].deep_view() == variants(g)[k2]);
                    } else {
                        assert(0 <= r@.len() - 1 < r@.len() && r@[r@.len() - 1].deep_view()
                            == variants(g)[k2]);
                    }
                }
            }
        }
    }
    r
}

/// A growth site of the doubly inflated grid: an empty cell there with
/// at least one occupied 4-neighbour.
pub open spec fn grow_ok(g: Seq<Seq<bool>>, y: int, x: int) -> bool {
    let m = inflate_spec(inflate_spec(g));
    &&& 1 <= y < g.len() + 3
    &&& 1 <= x < g[0].len() + 3
    &&& !m[y][x]
    &&& (m[y - 1][x] || m[y + 1][x] || m[y][x - 1] || m[y][x + 1])
}

/// The shape grown by one cell at a growth site, trimmed back to its
/// minimal bounding box.
pub open spec fn grown(g: Seq<Seq<bool>>, y: int, x: int) -> Seq<Seq<bool>> {
    let m = inflate_spec(inflate_spec(g));
    deflate_spec(m.update(y, m[y].update(x, true)))
}

/// The canonical form of the shape grown by one cell at a growth site.
pub open spec fn child_of(g: Seq<Seq<bool>>, y: int, x: int) -> Seq<Seq<bool>> {
    canonical_spec(grown(g, y, x))
}

/// The grid `v` is the canonical form of some input shape grown by one cell.
pub open spec fn is_child_of_some(cur: Seq<Matrix>, v: Seq<Seq<bool>>) -> bool {
    exists|i: int, y: int, x: int|
        0 <= i < cur.len() && #[trigger] grow_ok(cur[i].deep_view(), y, x) && v == child_of(
            cur[i].deep_view(),
            y,
            x,
        )
}

proof fn lemma_has_variant_push(rs: Seq<Matrix>, c: Matrix, v: Seq<Seq<bool>>)
    requires
        has_variant(rs, v),
    ensures
        has_variant(rs.push(c), v),
{
    let i = choose|i: int| 0 <= i < rs.len() && (#[trigger] rs[i]).deep_view() == v;
    assert(rs.push(c)[i].deep_view() == v);
}

/// A fresh grid holding the cells of `m` with cell `(y, x)` occupied.
pub fn copy_with_cell(m: &Matrix, y: usize, x: usize) -> (r: Matrix)
    requires
        wf(m.deep_view()),
        y < m.deep_view().len(),
        x < m.deep_view()[0].len(),
    ensures
        r.deep_view() == m.deep_view().update(
            y as int,
            m.deep_view()[y as int].update(x as int, true),
        ),
        wf(r.deep_view()),
{
    let ghost g = m.deep_view();
    let ghost gu = g.update(y as int, g[y as int].update(x as int, true));
    proof {
        lemma_deep_view(*m);
        assert(gu.len() == g.len());
        assert forall|t: int| 0 <= t < gu.len() implies #[trigger] gu[t].len() == gu[0].len() by {
            if t == y as int {
                assert(gu[t] == g[t].update(x as int, true));
            } else {
                assert(gu[t] == g[t]);
            }
        }
    }
    let h = m.len();
    let w = m[0].len();
    let mut r: Matrix = Vec::new();
    for yy in 0..h
        invariant
            g == m.deep_view(),
            gu == g.update(y as int, g[y as int].update(x as int, true)),
            wf(g),
            h == g.len() == m@.len(),
            w == g[0].len(),
            y < h,
            x < w,
            forall|i: int| 0 <= i < m@.len() ==> (#[trigger] m@[i])@ == g[i],
            forall|i: int| 0 <= i < g.len() ==> #[trigger] g[i].len() == w,
            r@.len() == yy,
            forall|i: int| 0 <= i < r@.len() ==> #[trigger] r@[i].deep_view() == gu[i],
    {
        let mut row: Vec<bool> = Vec::new();
        for xx in 0..w
            invariant
                g == m.deep_view(),
                gu == g.update(y as int, g[y as int].update(x as int, true)),
                wf(g),
                h == g.len() == m@.len(),
                w == g[0].len(),
                y < h,
                x < w,
                0 <= yy < h,
                forall|i: int| 0 <= i < m@.len() ==> (#[trigger] m@[i])@ == g[i],
                forall|i: int| 0 <= i < g.len() ==> #[trigger] g[i].len() == w,
                row@.len() == xx,
                forall|j: int| 0 <= j < row@.len() ==> row@[j] == gu[yy as int][j],
        {
            let c = if yy == y && xx == x {
                true
            } else {
                m[yy][xx]
            };
            row.push(c);
            proof {
                if yy == y as int && xx == x as int {
                    assert(gu[yy as int] == g[yy as int].update(x as int, true));
                } else if yy == y as int {
                    assert(gu[yy as int] == g[yy as int].update(x as int, true));
                    assert(gu[yy as int][xx as int] == g[yy as int][xx as int]);
                } else {
                    assert(gu[yy as int] == g[yy as int]);
                }
            }
        }
        r.push(row);
        proof {
            assert(r@[yy as int].deep_view() =~= gu[yy as int]);
        }
    }
    proof {
        assert forall|i: int| 0 <= i < r@.len() implies r.deep_view()[i] == gu[i] by {
            assert(r.deep_view()[i] == r@[i].deep_view());
        }
        assert(r.deep_view() =~= gu);
    }
    r
}

/// Grow every input shape by one cell at every growth site, canonicalize
/// each result, and collect the distinct canonical shapes in first-seen
/// order.  Applied repeatedly to a single cell this enumerates the free
/// polyominoes generation by generation.
#[verifier::rlimit(30)]
pub fn next_generation(current: &Vec<Matrix>) -> (r: Vec<Matrix>)
    requires
        forall|i: int| 0 <= i < current@.len() ==> wf((#[trigger] current@[i]).deep_view()),
        forall|i: int|
            0 <= i < current@.len() ==> (#[trigger] current@[i]).deep_view().len() + 4
                <= usize::MAX && current@[i].deep_view()[0].len() + 4 <= usize::MAX,
    ensures
        forall|j: int| 0 <= j < r@.len() ==> wf((#[trigger] r@[j]).deep_view()),
        forall|j: int, j2: int|
            0 <= j < j2 < r@.len() ==> (#[trigger] r@[j]).deep_view() != (
            #[trigger] r@[j2]).deep_view(),
        forall|j: int| 0 <= j < r@.len() ==> is_child_of_some(current@, (#[trigger] r@[j]).deep_view()),
        forall|i: int, y: int, x: int|
            0 <= i < current@.len() && #[trigger] grow_ok(current@[i].deep_view(), y, x)
                ==> has_variant(r@, child_of(current@[i].deep_view(), y, x)),
{
    let mut r: Vec<Matrix> = Vec::new();
    let n = current.len();
    for i in 0..n
        invariant
            n == current@.len(),
            forall|t: int| 0 <= t < current@.len() ==> wf((#[trigger] current@[t]).deep_view()),
            forall|t: int|
                0 <= t < current@.len() ==> (#[trigger] current@[t]).deep_view().len() + 4
                    <= usize::MAX && current@[t].deep_view()[0].len() + 4 <= usize::MAX,
            forall|j: int| 0 <= j < r@.len() ==> wf((#[trigger] r@[j]).deep_view()),
            forall|j: int, j2: int|
                0 <= j < j2 < r@.len() ==> (#[trigger] r@[j]).deep_view() != (
                #[trigger] r@[j2]).deep_view(),
            forall|j: int|
                0 <= j < r@.len() ==> is_child_of_some(current@, (#[trigger] r@[j]).deep_view()),
            forall|i2: int, y2: int, x2: int|
                0 <= i2 < i && #[trigger] grow_ok(current@[i2].deep_view(), y2, x2)
                    ==> has_variant(r@, child_of(current@[i2].deep_view(), y2, x2)),
    {
        let shape = &current[i];
        let ghost gi = shape.deep_view();
        let ghost minf = inflate_spec(inflate_spec(gi));
        let h = shape.len();
        let w = shape[0].len();
        let m1 = inflate(shape);
        let m = inflate(&m1);
        proof {
            lemma_deep_view(m);
            assert(m.deep_view() == minf);
            assert(minf.len() == h + 4);
            assert(minf[0].len() == w + 4);
        }
        for y in 1..(h + 3)
            invariant
                n == current@.len(),
                0 <= i < n,
                gi == current@[i as int].deep_view(),
                minf == inflate_spec(inflate_spec(gi)),
                m.deep_view() == minf,
                wf(gi),
                wf(minf),
                h == gi.len(),
                w == gi[0].len(),
                h + 4 <= usize::MAX,
                w + 4 <= usize::MAX,
                m@.len() == h + 4,
                minf.len() == h + 4,
                minf[0].len() == w + 4,
                forall|t: int| 0 <= t < m@.len() ==> (#[trigger] m@[t])@ == minf[t],
                forall|t: int| 0 <= t < minf.len() ==> #[trigger] minf[t].len() == w + 4,
                forall|t: int| 0 <= t < current@.len() ==> wf((#[trigger] current@[t]).deep_view()),
                forall|t: int|
                    0 <= t < current@.len() ==> (#[trigger] current@[t]).deep_view().len() + 4
                        <= usize::MAX && current@[t].deep_view()[0].len() + 4 <= usize::MAX,
                forall|j: int| 0 <= j < r@.len() ==> wf((#[trigger] r@[j]).deep_view()),
                forall|j: int, j2: int|
                    0 <= j < j2 < r@.len() ==> (#[trigger] r@[j]).deep_view() != (
                    #[trigger] r@[j2]).deep_view(),
                forall|j: int|
                    0 <= j < r@.len() ==> is_child_of_some(
                        current@,
                        (#[trigger] r@[j]).deep_view(),
                    ),
                forall|i2: int, y2: int, x2: int|
                    0 <= i2 < i && #[trigger] grow_ok(current@[i2].deep_view(), y2, x2)
                        ==> has_variant(r@, child_of(current@[i2].deep_view(), y2, x2)),
                forall|y2: int, x2: int|
                    1 <= y2 < y && #[trigger] grow_ok(gi, y2, x2) ==> has_variant(
                        r@,
                        child_of(gi, y2, x2),
                    ),
        {
            for x in 1..(w + 3)
                invariant
                    n == current@.len(),
                    0 <= i < n,
                    1 <= y < h + 3,
                    gi == current@[i as int].deep_view(),
                    minf == inflate_spec(inflate_spec(gi)),
                    m.deep_view() == minf,
                    wf(gi),
                    wf(minf),
                    h == gi.len(),
                    w == gi[0].len(),
                    h + 4 <= usize::MAX,
                    w + 4 <= usize::MAX,
                    m@.len() == h + 4,
                    minf.len() == h + 4,
                    minf[0].len() == w + 4,
                    forall|t: int| 0 <= t < m@.len() ==> (#[trigger] m@[t])@ == minf[t],
                    forall|t: int| 0 <= t < minf.len() ==> #[trigger] minf[t].len() == w + 4,
                    forall|t: int|
                        0 <= t < current@.len() ==> wf((#[trigger] current@[t]).deep_view()),
                    forall|t: int|
                        0 <= t < current@.len() ==> (#[trigger] current@[t]).deep_view().len() + 4
                            <= usize::MAX && current@[t].deep_view()[0].len() + 4 <= usize::MAX,
                    forall|j: int| 0 <= j < r@.len() ==> wf((#[trigger] r@[j]).deep_view()),
                    forall|j: int, j2: int|
                        0 <= j < j2 < r@.len() ==> (#[trigger] r@[j]).deep_view() != (
                        #[trigger] r@[j2]).deep_view(),
                    forall|j: int|
                        0 <= j < r@.len() ==> is_child_of_some(
                            current@,
                            (#[trigger] r@[j]).deep_view(),
                        ),
                    forall|i2: int, y2: int, x2: int|
                        0 <= i2 < i && #[trigger] grow_ok(current@[i2].deep_view(), y2, x2)
                            ==> has_variant(r@, child_of(current@[i2].deep_view(), y2, x2)),
                    forall|y2: int, x2: int|
                        1 <= y2 < y && #[trigger] grow_ok(gi, y2, x2) ==> has_variant(
                            r@,
                            child_of(gi, y2, x2),
                        ),
                    forall|x2: int|
                        1 <= x2 < x && #[trigger] grow_ok(gi, y as int, x2) ==> has_variant(
                            r@,
                            child_of(gi, y as int, x2),
                        ),
            {
                let site = !m[y][x] && (m[y - 1][x] || m[y + 1][x] || m[y][x - 1] || m[y][x + 1]);
                proof {
                    assert(m@[y as int]@[x as int] == minf[y as int][x as int]);
                    assert(m@[y - 1]@[x as int] == minf[y - 1][x as int]);
                    assert(m@[y + 1]@[x as int] == minf[y + 1][x as int]);
                    assert(m@[y as int]@[x - 1] == minf[y as int][x - 1]);
                    assert(m@[y as int]@[x + 1] == minf[y as int][x + 1]);
                    assert(site == grow_ok(gi, y as int, x as int));
                }
                let ghost r_old = r@;
                if site {
                    let mut m2 = copy_with_cell(&m, y, x);
                    let ghost gup = minf.update(y as int, minf[y as int].update(x as int, true));
                    proof {
                        assert(m2.deep_view() == gup);
                        assert(has_cell(gup)) by {
                            if minf[y - 1][x as int] {
                                assert(gup[y - 1] == minf[y - 1]);
                                assert(gup[y - 1][x as int]);
                                assert(row_any(gup, y - 1));
                            } else if minf[y + 1][x as int] {
                                assert(gup[y + 1] == minf[y + 1]);
                                assert(gup[y + 1][x as int]);
                                assert(row_any(gup, y + 1));
                            } else if minf[y as int][x - 1] {
                                assert(gup[y as int][x - 1]);
                                assert(row_any(gup, y as int));
                            } else {
                                assert(gup[y as int][x + 1]);
                                assert(row_any(gup, y as int));
                            }
                        }
                    }
                    deflate(&mut m2);
                    proof {
                        assert(m2.deep_view() == grown(gi, y as int, x as int));
                    }
                    let m3 = canonical(&m2);
                    proof {
                        assert(m3.deep_view() == child_of(gi, y as int, x as int));
                    }
                    let dup = contains_matrix(&r, &m3);
                    if !dup {
                        r.push(m3);
                        proof {
                            assert(r@ == r_old.push(r@[r_old.len() as int]));
                            assert(r@[r@.len() - 1].deep_view() == child_of(
                                gi,
                                y as int,
                                x as int,
                            ));
                            assert(is_child_of_some(current@, r@[r@.len() - 1].deep_view()));
                        }
                    } else {
                        proof {
                            assert(has_variant(r@, child_of(gi, y as int, x as int)));
                        }
                    }
                }
                proof {
                    assert forall|i2: int, y2: int, x2: int|
                        0 <= i2 < i && #[trigger] grow_ok(current@[i2].deep_view(), y2, x2)
                            implies has_variant(
                        r@,
                        child_of(current@[i2].deep_view(), y2, x2),
                    ) by {
                        if r@ != r_old {
                            lemma_has_variant_push(
                                r_old,
                                r@[r_old.len() as int],
                                child_of(current@[i2].deep_view(), y2, x2),
                            );
                            assert(r@ =~= r_old.push(r@[r_old.len() as int]));
                        }
                    }
                    assert forall|y2: int, x2: int|
                        1 <= y2 < y && #[trigger] grow_ok(gi, y2, x2) implies has_variant(
                        r@,
                        child_of(gi, y2, x2),
                    ) by {
                        if r@ != r_old {
                            lemma_has_variant_push(
                                r_old,
                                r@[r_old.len() as int],
                                child_of(gi, y2, x2),
                            );
                            assert(r@ =~= r_old.push(r@[r_old.len() as int]));
                        }
                    }
                    assert forall|x2: int|
                        1 <= x2 < x + 1 && #[trigger] grow_ok(gi, y as int, x2) implies has_variant(
                        r@,
                        child_of(gi, y as int, x2),
                    ) by {
                        if x2 < x {
                            if r@ != r_old {
                                lemma_has_variant_push(
                                    r_old,
                                    r@[r_old.len() as int],
                                    child_of(gi, y as int, x2),
                                );
                                assert(r@ =~= r_old.push(r@[r_old.len() as int]));
                            }
                        } else {
                            assert(grow_ok(gi, y as int, x as int));
                            assert(has_variant(r@, child_of(gi, y as int, x as int)));
                        }
                    }
                }
            }
        }
    }
    r
}

/// Four quarter turns return the original grid.
pub proof fn lemma_rot4(g: Seq<Seq<bool>>)
    requires
        wf(g),
    ensures
        rotate_spec(rotate_spec(rotate_spec(rotate_spec(g)))) == g,
{
    let r1 = rotate_spec(g);
    let r2 = rotate_spec(r1);
    let r3 = rotate_spec(r2);
    let r4 = rotate_spec(r3);
    lemma_wf_rotate(g);
    lemma_wf_rotate(r1);
    lemma_wf_rotate(r2);
    lemma_wf_rotate(r3);
    assert forall|y: int| 0 <= y < r4.len() implies r4[y] =~= g[y] by {
        assert(r4[y].len() == g[y].len());
        assert forall|x: int| 0 <= x < r4[y].len() implies r4[y][x] == g[y][x] by {
            assert(r4[y][x] == r3[x][r3[0].len() - 1 - y]);
        }
    }
    assert(r4 =~= g);
}

/// Reflecting twice returns the original grid.
pub proof fn lemma_flip2(g: Seq<Seq<bool>>)
    requires
        wf(g),
    ensures
        flip_spec(flip_spec(g)) == g,
{
    let f2 = flip_spec(flip_spec(g));
    assert forall|y: int| 0 <= y < f2.len() implies f2[y] == g[y] by {
        assert(f2[y] == flip_spec(g)[g.len() - 1 - y]);
    }
    assert(f2 =~= g);
}

/// Reflecting a rotated grid equals rotating the reflected grid three
/// times: both are the transpose of the original.
pub proof fn lemma_flip_rot(g: Seq<Seq<bool>>)
    requires
        wf(g),
    ensures
        flip_spec(rotate_spec(g)) == rotate_spec(rotate_spec(rotate_spec(flip_spec(g)))),
{
    let lhs = flip_spec(rotate_spec(g));
    let f0 = flip_spec(g);
    let s1 = rotate_spec(f0);
    let s2 = rotate_spec(s1);
    let rhs = rotate_spec(s2);
    lemma_wf_rotate(g);
    lemma_wf_flip(g);
    lemma_wf_rotate(f0);
    lemma_wf_rotate(s1);
    let h = g.len() as int;
    let w = g[0].len() as int;
    assert(lhs.len() == w && rhs.len() == w);
    assert forall|x: int| 0 <= x < w implies lhs[x] =~= rhs[x] by {
        assert(lhs[x].len() == h);
        assert(rhs[x].len() == h);
        assert forall|y: int| 0 <= y < h implies lhs[x][y] == rhs[x][y] by {
            assert(lhs[x] == rotate_spec(g)[w - 1 - x]);
            assert(lhs[x][y] == g[y][x]);
            assert(rhs[x][y] == s2[y][s2[0].len() - 1 - x]);
            assert(s2[y][w - 1 - x] == s1[w - 1 - x][s1[0].len() - 1 - y]);
            assert(s1[w - 1 - x][h - 1 - y] == f0[h - 1 - y][f0[0].len() - 1 - (w - 1 - x)]);
            assert(f0[h - 1 - y][x] == g[y][x]);
        }
    }
    assert(lhs =~= rhs);
}

/// A quarter turn permutes the eight variants among themselves.
proof fn lemma_rot_map(g: Seq<Seq<bool>>)
    requires
        wf(g),
    ensures
        rotate_spec(variants(g)[0]) == variants(g)[1],
        rotate_spec(variants(g)[1]) == variants(g)[2],
        rotate_spec(variants(g)[2]) == variants(g)[3],
        rotate_spec(variants(g)[3]) == variants(g)[0],
        rotate_spec(variants(g)[4]) == variants(g)[5],
        rotate_spec(variants(g)[5]) == variants(g)[6],
        rotate_spec(variants(g)[6]) == variants(g)[7],
        rotate_spec(variants(g)[7]) == variants(g)[4],
{
    lemma_wf_flip(g);
    lemma_rot4(g);
    lemma_rot4(flip_spec(g));
}

/// A reflection permutes the eight variants among themselves.
proof fn lemma_flip_map(g: Seq<Seq<bool>>)
    requires
        wf(g),
    ensures
        flip_spec(variants(g)[0]) == variants(g)[4],
        flip_spec(variants(g)[1]) == variants(g)[7],
        flip_spec(variants(g)[2]) == variants(g)[6],
        flip_spec(variants(g)[3]) == variants(g)[5],
        flip_spec(variants(g)[4]) == variants(g)[0],
        flip_spec(variants(g)[5]) == variants(g)[3],
        flip_spec(variants(g)[6]) == variants(g)[2],
        flip_spec(variants(g)[7]) == variants(g)[1],
{
    let r1 = rotate_spec(g);
    let r2 = rotate_spec(r1);
    let f0 = flip_spec(g);
    let f1 = rotate_spec(f0);
    let f2 = rotate_spec(f1);
    lemma_wf_rotate(g);
    lemma_wf_rotate(r1);
    lemma_wf_flip(g);
    lemma_wf_rotate(f0);
    lemma_wf_rotate(f1);
    lemma_flip2(g);
    lemma_rot4(g);
    lemma_rot4(f0);
    lemma_flip_rot(g);
    lemma_flip_rot(r1);
    lemma_flip_rot(r2);
    lemma_flip_rot(f0);
    lemma_flip_rot(f1);
    lemma_flip_rot(f2);
    // f(r g) = r^3 f g directly; iterating gives the remaining images,
    // folding r^4 back to the identity each time round
    assert(flip_spec(variants(g)[2]) == variants(g)[6]) by {
        assert(flip_spec(rotate_spec(r1)) == rotate_spec(rotate_spec(rotate_spec(flip_spec(
            r1,
        )))));
        assert(flip_spec(r1) == rotate_spec(rotate_spec(rotate_spec(f0))));
    }
    assert(flip_spec(variants(g)[3]) == variants(g)[5]) by {
        assert(flip_spec(rotate_spec(r2)) == rotate_spec(rotate_spec(rotate_spec(flip_spec(
            r2,
        )))));
        assert(flip_spec(r2) == rotate_spec(rotate_spec(rotate_spec(flip_spec(r1)))));
        assert(flip_spec(r1) == rotate_spec(rotate_spec(rotate_spec(f0))));
    }
    assert(flip_spec(variants(g)[5]) == variants(g)[3]) by {
        assert(flip_spec(rotate_spec(f0)) == rotate_spec(rotate_spec(rotate_spec(flip_spec(
            f0,
        )))));
    }
    assert(flip_spec(variants(g)[6]) == variants(g)[2]) by {
        assert(flip_spec(rotate_spec(f1)) == rotate_spec(rotate_spec(rotate_spec(flip_spec(
            f1,
        )))));
        assert(flip_spec(f1) == rotate_spec(rotate_spec(rotate_spec(flip_spec(f0)))));
    }
    assert(flip_spec(variants(g)[7]) == variants(g)[1]) by {
        assert(flip_spec(rotate_spec(f2)) == rotate_spec(rotate_spec(rotate_spec(flip_spec(
            f2,
        )))));
        assert(flip_spec(f2) == rotate_spec(rotate_spec(rotate_spec(flip_spec(f1)))));
        assert(flip_spec(f1) == rotate_spec(rotate_spec(rotate_spec(flip_spec(f0)))));
    }
}

/// The variants of a variant are the variants of the grid itself,
/// position by position under a fixed permutation.
proof fn lemma_variants_of_variant(g: Seq<Seq<bool>>, k: int)
    requires
        wf(g),
        0 <= k < 8,
    ensures
        forall|j: int|
            0 <= j < 8 ==> variants(g).contains(#[trigger] variants(variants(g)[k])[j]),
        forall|j2: int|
            0 <= j2 < 8 ==> variants(variants(g)[k]).contains(#[trigger] variants(g)[j2]),
{
    let vk = variants(g)[k];
    lemma_rot_map(g);
    lemma_flip_map(g);
    if k == 0 {
        assert(variants(vk)[0] == variants(g)[0]);
        assert(variants(vk)[1] == variants(g)[1]);
        assert(variants(vk)[2] == variants(g)[2]);
        assert(variants(vk)[3] == variants(g)[3]);
        assert(variants(vk)[4] == variants(g)[4]);
        assert(variants(vk)[5] == variants(g)[5]);
        assert(variants(vk)[6] == variants(g)[6]);
        assert(variants(vk)[7] == variants(g)[7]);
    }
    if k == 1 {
        assert(variants(vk)[0] == variants(g)[1]);
        assert(variants(vk)[1] == variants(g)[2]);
        assert(variants(vk)[2] == variants(g)[3]);
        assert(variants(vk)[3] == variants(g)[0]);
        assert(variants(vk)[4] == variants(g)[7]);
        assert(variants(vk)[5] == variants(g)[4]);
        assert(variants(vk)[6] == variants(g)[5]);
        assert(variants(vk)[7] == variants(g)[6]);
    }
    if k == 2 {
        assert(variants(vk)[0] == variants(g)[2]);
        assert(variants(vk)[1] == variants(g)[3]);
        assert(variants(vk)[2] == variants(g)[0]);
        assert(variants(vk)[3] == variants(g)[1]);
        assert(variants(vk)[4] == variants(g)[6]);
        assert(variants(vk)[5] == variants(g)[7]);
        assert(variants(vk)[6] == variants(g)[4]);
        assert(variants(vk)[7] == variants(g)[5]);
    }
    if k == 3 {
        assert(variants(vk)[0] == variants(g)[3]);
        assert(variants(vk)[1] == variants(g)[0]);
        assert(variants(vk)[2] == variants(g)[1]);
        assert(variants(vk)[3] == variants(g)[2]);
        assert(variants(vk)[4] == variants(g)[5]);
        assert(variants(vk)[5] == variants(g)[6]);
        assert(variants(vk)[6] == variants(g)[7]);
        assert(variants(vk)[7] == variants(g)[4]);
    }
    if k == 4 {
        assert(variants(vk)[0] == variants(g)[4]);
        assert(variants(vk)[1] == variants(g)[5]);
        assert(variants(vk)[2] == variants(g)[6]);
        assert(variants(vk)[3] == variants(g)[7]);
        assert(variants(vk)[4] == variants(g)[0]);
        assert(variants(vk)[5] == variants(g)[1]);
        assert(variants(vk)[6] == variants(g)[2]);
        assert(variants(vk)[7] == variants(g)[3]);
    }
    if k == 5 {
        assert(variants(vk)[0] == variants(g)[5]);
        assert(variants(vk)[1] == variants(g)[6]);
        assert(variants(vk)[2] == variants(g)[7]);
        assert(variants(vk)[3] == variants(g)[4]);
        assert(variants(vk)[4] == variants(g)[3]);
        assert(variants(vk)[5] == variants(g)[0]);
        assert(variants(vk)[6] == variants(g)[1]);
        assert(variants(vk)[7] == variants(g)[2]);
    }
    if k == 6 {
        assert(variants(vk)[0] == variants(g)[6]);
        assert(variants(vk)[1] == variants(g)[7]);
        assert(variants(vk)[2] == variants(g)[4]);
        assert(variants(vk)[3] == variants(g)[5]);
        assert(variants(vk)[4] == variants(g)[2]);
        assert(variants(vk)[5] == variants(g)[3]);
        assert(variants(vk)[6] == variants(g)[0]);
        assert(variants(vk)[7] == variants(g)[1]);
    }
    if k == 7 {
        assert(variants(vk)[0] == variants(g)[7]);
        assert(variants(vk)[1] == variants(g)[4]);
        assert(variants(vk)[2] == variants(g)[5]);
        assert(variants(vk)[3] == variants(g)[6]);
        assert(variants(vk)[4] == variants(g)[1]);
        assert(variants(vk)[5] == variants(g)[2]);
        assert(variants(vk)[6] == variants(g)[3]);
        assert(variants(vk)[7] == variants(g)[0]);
    }
    assert forall|j: int| 0 <= j < 8 implies variants(g).contains(
        #[trigger] variants(vk)[j],
    ) by {
        let j2 = choose|j2: int| 0 <= j2 < 8 && variants(vk)[j] == #[trigger] variants(g)[j2];
        assert(variants(g)[j2] == variants(vk)[j]);
    }
    assert forall|j2: int| 0 <= j2 < 8 implies variants(vk).contains(
        #[trigger] variants(g)[j2],
    ) by {
        let j = choose|j: int| 0 <= j < 8 && variants(g)[j2] == #[trigger] variants(vk)[j];
        assert(variants(vk)[j] == variants(g)[j2]);
    }
}

/// Canonicalization is invariant under every dihedral transform: a
/// rotated or reflected grid has the same canonical form.
pub proof fn lemma_canonical_dihedral_invariant(g: Seq<Seq<bool>>, k: int)
    requires
        wf(g),
        0 <= k < 8,
    ensures
        canonical_spec(variants(g)[k]) == canonical_spec(g),
{
    let vk = variants(g)[k];
    lemma_variants_wf(g);
    lemma_canonical_props(g);
    lemma_canonical_props(vk);
    lemma_variants_of_variant(g, k);
    let c = canonical_spec(g);
    let c2 = canonical_spec(vk);
    let j = choose|j: int| 0 <= j < 8 && c == variants(g)[j];
    assert(variants(vk).contains(variants(g)[j]));
    let jc = choose|i: int| 0 <= i < variants(vk).len() && variants(vk)[i] == variants(g)[j];
    assert(grid_le(variants(vk)[jc], c2));
    assert(grid_le(c, c2));
    let j2 = choose|j2: int| 0 <= j2 < 8 && c2 == variants(vk)[j2];
    assert(variants(g).contains(variants(vk)[j2]));
    let jc2 = choose|i: int| 0 <= i < variants(g).len() && variants(g)[i] == variants(vk)[j2];
    assert(grid_le(variants(g)[jc2], c));
    assert(grid_le(c2, c));
    lemma_grid_le_antisym(c, c2);
}

/// Canonicalization is idempotent: the canonical form is its own
/// canonical form.
pub proof fn lemma_canonical_idempotent(g: Seq<Seq<bool>>)
    requires
        wf(g),
    ensures
        canonical_spec(canonical_spec(g)) == canonical_spec(g),
{
    lemma_canonical_props(g);
    let j = choose|j: int| 0 <= j < 8 && canonical_spec(g) == variants(g)[j];
    lemma_canonical_dihedral_invariant(g, j);
}

/// Every dihedral variant has the same cell count as the grid itself.
pub proof fn lemma_cnt_variants(g: Seq<Seq<bool>>)
    requires
        wf(g),
    ensures
        forall|k: int| 0 <= k < 8 ==> cnt(#[trigger] variants(g)[k]) == cnt(g),
{
    let r1 = rotate_spec(g);
    let r2 = rotate_spec(r1);
    let f0 = flip_spec(g);
    let f1 = rotate_spec(f0);
    let f2 = rotate_spec(f1);
    lemma_wf_rotate(g);
    lemma_wf_rotate(r1);
    lemma_wf_flip(g);
    lemma_wf_rotate(f0);
    lemma_wf_rotate(f1);
    crate::grid::lemma_cnt_rot(g);
    crate::grid::lemma_cnt_rot(r1);
    crate::grid::lemma_cnt_rot(r2);
    crate::grid::lemma_cnt_flip(g);
    crate::grid::lemma_cnt_rot(f0);
    crate::grid::lemma_cnt_rot(f1);
    crate::grid::lemma_cnt_rot(f2);
}

/// The canonical form has the same cell count as the grid itself.
pub proof fn lemma_cnt_canonical(g: Seq<Seq<bool>>)
    requires
        wf(g),
    ensures
        cnt(canonical_spec(g)) == cnt(g),
{
    lemma_canonical_props(g);
    lemma_cnt_variants(g);
    let j = choose|j: int| 0 <= j < 8 && canonical_spec(g) == variants(g)[j];
    assert(cnt(variants(g)[j]) == cnt(g));
}

/// Growing a shape by one cell at a growth site gives a canonical shape
/// with exactly one cell more.
pub proof fn lemma_cnt_child(g: Seq<Seq<bool>>, y: int, x: int)
    requires
        wf(g),
        grow_ok(g, y, x),
    ensures
        cnt(child_of(g, y, x)) == cnt(g) + 1,
{
    let m1 = inflate_spec(g);
    let m = inflate_spec(m1);
    crate::grid::lemma_wf_inflate(g);
    crate::grid::lemma_wf_inflate(m1);
    crate::grid::lemma_cnt_inflate(g);
    crate::grid::lemma_cnt_inflate(m1);
    let mu = m.update(y, m[y].update(x, true));
    assert(m[y].len() == m[0].len());
    crate::grid::lemma_cnt_update(m, y, x);
    assert(wf(mu)) by {
        assert forall|t: int| 0 <= t < mu.len() implies #[trigger] mu[t].len() == mu[0].len() by {
            if t == y {
                assert(mu[t] == m[t].update(x, true));
            } else {
                assert(mu[t] == m[t]);
            }
            assert(m[t].len() == m[0].len());
        }
    }
    assert(has_cell(mu)) by {
        if m[y - 1][x] {
            assert(mu[y - 1] == m[y - 1]);
            assert(mu[y - 1][x]);
            assert(row_any(mu, y - 1));
        } else if m[y + 1][x] {
            assert(mu[y + 1] == m[y + 1]);
            assert(mu[y + 1][x]);
            assert(row_any(mu, y + 1));
        } else if m[y][x - 1] {
            assert(mu[y] == m[y].update(x, true));
            assert(mu[y][x - 1]);
            assert(row_any(mu, y));
        } else {
            assert(mu[y] == m[y].update(x, true));
            assert(mu[y][x + 1]);
            assert(row_any(mu, y));
        }
    }
    crate::grid::lemma_cnt_deflate(mu);
    lemma_cnt_canonical(grown(g, y, x));
}

/// Growth never produces a shape with fewer cells than one more than
/// some input shape: every generated shape is an input shape grown by
/// exactly one cell, up to rotation and reflection.
pub proof fn lemma_growth_adds_one_cell(cur: Seq<Matrix>, v: Seq<Seq<bool>>)
    requires
        forall|i: int| 0 <= i < cur.len() ==> wf((#[trigger] cur[i]).deep_view()),
        is_child_of_some(cur, v),
    ensures
        exists|i: int|
            0 <= i < cur.len() && cnt(v) == cnt((#[trigger] cur[i]).deep_view()) + 1,
{
    let (i, y, x) = choose|i: int, y: int, x: int|
        0 <= i < cur.len() && #[trigger] grow_ok(cur[i].deep_view(), y, x) && v == child_of(
            cur[i].deep_view(),
            y,
            x,
        );
    lemma_cnt_child(cur[i].deep_view(), y, x);
}

} // verus!
