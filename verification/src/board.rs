use vstd::prelude::*;

use vstd::arithmetic::div_mod::{lemma_div_denominator, lemma_mod_breakdown};

use crate::grid::{lemma_deep_view, wf, Matrix};
use crate::shapes::{has_variant, shapes_of, variants};

verus! {

/// The number of set bits of a natural number.
pub open spec fn pop(n: nat) -> nat
    decreases n,
{
    if n == 0 {
        0
    } else {
        (n % 2 + pop(n / 2)) as nat
    }
}

/// Two to the power `k`.
pub open spec fn pow2k(k: nat) -> nat
    decreases k,
{
    if k == 0 {
        1
    } else {
        2 * pow2k((k - 1) as nat)
    }
}

pub proof fn lemma_pow2k_pos(k: nat)
    ensures
        pow2k(k) >= 1,
    decreases k,
{
    if k > 0 {
        lemma_pow2k_pos((k - 1) as nat);
    }
}

/// A number below `2^k` has at most `k` set bits.
pub proof fn lemma_pop_bound(n: nat, k: nat)
    requires
        n < pow2k(k),
    ensures
        pop(n) <= k,
    decreases k,
{
    if k == 0 {
    } else {
        lemma_pow2k_pos((k - 1) as nat);
        lemma_pop_bound(n / 2, (k - 1) as nat);
    }
}

/// Set bits split over a low chunk and the remaining high bits.
pub proof fn lemma_pop_split(c: nat, k: nat)
    ensures
        pop(c) == pop(c % pow2k(k)) + pop(c / pow2k(k)),
    decreases k,
{
    if k == 0 {
        assert(pow2k(0) == 1);
        assert(c % 1 == 0);
        assert(c / 1 == c);
        assert(pop(0) == 0);
    } else {
        let d = pow2k((k - 1) as nat);
        lemma_pow2k_pos((k - 1) as nat);
        lemma_pop_split(c / 2, (k - 1) as nat);
        lemma_div_denominator(c as int, 2, d as int);
        lemma_mod_breakdown(c as int, 2, d as int);
        assert(pow2k(k) == 2 * d);
        assert(c % (2 * d) == 2 * ((c / 2) % d) + c % 2);
        let m = (c / 2) % d;
        let b = c % 2;
        assert((2 * m + b) / 2 == m && (2 * m + b) % 2 == b) by (nonlinear_arith)
            requires
                0 <= m && 0 <= b < 2,
        ;
        assert(pop((2 * m + b) as nat) == b + pop(m)) by {
            if 2 * m + b == 0 {
            }
        }
        assert(pop(c) == c % 2 + pop(c / 2));
        assert(pop((c / 2) / d) == pop(c / (2 * d)));
    }
}

/// Bit `p` of a 64-bit mask is set.
pub open spec fn bit64(mask: u64, p: int) -> bool {
    0 <= p < 64 && (mask >> (p as u64)) & 1u64 == 1u64
}

/// The mask whose bits `0 .. n` are set.
pub open spec fn low_mask(n: int) -> u64 {
    if n >= 64 {
        0xffff_ffff_ffff_ffffu64
    } else if n <= 0 {
        0u64
    } else {
        ((1u64 << (n as u64)) - 1) as u64
    }
}

/// The lookup table is the bit-count of every byte value.
pub open spec fn bitcounter_wf(t: Seq<u8>) -> bool {
    t.len() == 256 && forall|i: int| 0 <= i < 256 ==> (#[trigger] t[i]) as nat == pop(i as nat)
}

/// The neighbour mask of cell `i` on a board of width `w`: the bit of the
/// cell to its left and the bit of the cell above it, where those exist.
pub open spec fn around_spec(i: int, w: int) -> u64 {
    (if i % w != 0 {
        1u64 << ((i - 1) as u64)
    } else {
        0u64
    }) | (if i >= w {
        1u64 << ((i - w) as u64)
    } else {
        0u64
    })
}

/// The adjacency table of a `w` by `h` board: entry `i` holds cell `i`'s
/// own bit and the mask of its left and upper neighbours.
pub open spec fn compiter_wf(c: Seq<(u64, u64)>, w: int, h: int) -> bool {
    &&& 1 <= w
    &&& 1 <= h
    &&& w * h <= 64
    &&& c.len() == w * h
    &&& forall|i: int| 0 <= i < c.len() ==> (#[trigger] c[i]).0 == 1u64 << (i as u64)
    &&& forall|i: int| 0 <= i < c.len() ==> (#[trigger] c[i]).1 == around_spec(i, w)
}

/// Build the adjacency table of a `w` by `h` board: one entry per cell in
/// row-major order, holding the cell's bit and its left/upper neighbour bits.
pub fn get_compiter(w: usize, h: usize) -> (r: Vec<(u64, u64)>)
    requires
        1 <= w,
        1 <= h,
        w * h <= 64,
    ensures
        compiter_wf(r@, w as int, h as int),
{
    proof {
        assert(0 <= w * h) by (nonlinear_arith)
            requires
                1 <= w && 1 <= h,
        ;
    }
    let mut r: Vec<(u64, u64)> = Vec::new();
    for y in 0..h
        invariant
            1 <= w,
            1 <= h,
            w * h <= 64,
            r@.len() == y * w,
            y * w <= w * h,
            forall|i: int| 0 <= i < r@.len() ==> (#[trigger] r@[i]).0 == 1u64 << (i as u64),
            forall|i: int| 0 <= i < r@.len() ==> (#[trigger] r@[i]).1 == around_spec(i, w as int),
    {
        proof {
            assert((y + 1) * w == y * w + w) by (nonlinear_arith);
            assert((y + 1) * w <= w * h) by (nonlinear_arith)
                requires
                    y + 1 <= h && w >= 0,
            ;
        }
        for x in 0..w
            invariant
                1 <= w,
                1 <= h,
                w * h <= 64,
                y < h,
                r@.len() == y * w + x,
                y * w + w <= w * h,
                forall|i: int| 0 <= i < r@.len() ==> (#[trigger] r@[i]).0 == 1u64 << (i as u64),
                forall|i: int|
                    0 <= i < r@.len() ==> (#[trigger] r@[i]).1 == around_spec(i, w as int),
        {
            let i = y * w + x;
            proof {
                assert(i < w * h);
                assert(i % w == x) by (nonlinear_arith)
                    requires
                        w >= 1 && 0 <= x < w && i == y * w + x,
                ;
                assert(y > 0 ==> i >= w) by (nonlinear_arith)
                    requires
                        i == y * w + x && 0 <= x && w >= 1,
                ;
                assert(y == 0 ==> i == x);
            }
            let bit: u64 = 1u64 << (i as u64);
            let left: u64 = if x > 0 {
                1u64 << ((i - 1) as u64)
            } else {
                0u64
            };
            let up: u64 = if y > 0 {
                1u64 << ((i - w) as u64)
            } else {
                0u64
            };
            r.push((bit, left | up));
            proof {
                assert(r@[r@.len() - 1].1 == around_spec(i as int, w as int));
            }
        }
    }
    proof {
        assert(h * w == w * h) by (nonlinear_arith);
    }
    r
}

/// Build the byte bit-count table: entry `i` is the number of set bits of `i`.
pub fn get_bitcounter() -> (r: Vec<u8>)
    ensures
        bitcounter_wf(r@),
{
    let mut r: Vec<u8> = Vec::new();
    for i in 0..256usize
        invariant
            r@.len() == i,
            forall|j: int| 0 <= j < r@.len() ==> (#[trigger] r@[j]) as nat == pop(j as nat),
    {
        let mut n = i;
        let mut bits: u8 = 0;
        proof {
            assert(pow2k(8) == 256) by {
                reveal_with_fuel(pow2k, 9);
            }
            lemma_pop_bound(i as nat, 8);
        }
        while n > 0
            invariant
                bits as nat + pop(n as nat) == pop(i as nat),
                pop(i as nat) <= 8,
            decreases n,
        {
            if n % 2 == 1 {
                bits = bits + 1;
            }
            n = n / 2;
        }
        r.push(bits);
    }
    r
}

proof fn lemma_bit_zero(p: u64)
    requires
        p < 64,
    ensures
        !bit64(0u64, p as int),
{
    assert((0u64 >> p) & 1u64 == 0u64) by (bit_vector);
}

proof fn lemma_or_bit(n: u64, pp: u64, p: u64)
    requires
        pp < 64,
        p < 64,
    ensures
        bit64(n | (1u64 << pp), p as int) == (bit64(n, p as int) || p == pp),
{
    assert((((n | (1u64 << pp)) >> p) & 1u64 == 1u64) == (((n >> p) & 1u64 == 1u64) || p == pp))
        by (bit_vector)
        requires
            pp < 64 && p < 64,
    ;
}

/// Bit `p` of the mask is set exactly when `p` addresses a cell of the
/// orientation `s` laid down at offset `(dy, dx)` on a board of width `bw`.
pub open spec fn mask_is(mask: u64, s: Seq<Seq<bool>>, dy: int, dx: int, bw: int) -> bool {
    forall|p: int| 0 <= p < 64 ==> #[trigger] bit64(mask, p) == occupies(s, dy, dx, bw, p)
}

/// Some occupied cell of the orientation `s` at offset `(dy, dx)` lands
/// on board cell `p`.
pub open spec fn occupies(s: Seq<Seq<bool>>, dy: int, dx: int, bw: int, p: int) -> bool {
    exists|y: int, x: int|
        0 <= y < s.len() && 0 <= x < s[0].len() && #[trigger] s[y][x] && p == (dy + y) * bw + (dx
            + x)
}

/// Occupied cells of `s` in rows before `yy`, or in row `yy` before
/// column `xx`, landing on board cell `p`.
pub open spec fn occupies_before(
    s: Seq<Seq<bool>>,
    dy: int,
    dx: int,
    bw: int,
    p: int,
    yy: int,
    xx: int,
) -> bool {
    exists|y: int, x: int|
        0 <= y < s.len() && 0 <= x < s[0].len() && (y < yy || (y == yy && x < xx)) && #[trigger] s[
            y][x] && p == (dy + y) * bw + (dx + x)
}

/// The offset bound in one direction: the full board edge, or the centre
/// quadrant when symmetric placements are being limited.
pub open spec fn sym_bound(b: int, limit: bool) -> int {
    if limit {
        b / 2 + 1
    } else {
        b
    }
}

/// The orientation fits on the board and `(dy, dx)` is a valid offset
/// for it under the given bound.
pub open spec fn offset_ok(
    s: Seq<Seq<bool>>,
    bw: int,
    bh: int,
    limit: bool,
    dy: int,
    dx: int,
) -> bool {
    &&& s.len() <= sym_bound(bh, limit)
    &&& s[0].len() <= sym_bound(bw, limit)
    &&& 0 <= dy <= sym_bound(bh, limit) - s.len()
    &&& 0 <= dx <= sym_bound(bw, limit) - s[0].len()
}

/// The mask places some orientation of the shape at some valid offset.
pub open spec fn placement_ok(
    g: Seq<Seq<bool>>,
    bw: int,
    bh: int,
    limit: bool,
    mask: u64,
) -> bool {
    exists|k: int, dy: int, dx: int|
        0 <= k < 8 && #[trigger] offset_ok(variants(g)[k], bw, bh, limit, dy, dx) && mask_is(
            mask,
            variants(g)[k],
            dy,
            dx,
            bw,
        )
}

/// Some mask of the list places the orientation `s` at offset `(dy, dx)`.
pub open spec fn has_mask(rs: Seq<u64>, s: Seq<Seq<bool>>, dy: int, dx: int, bw: int) -> bool {
    exists|j: int| 0 <= j < rs.len() && mask_is(#[trigger] rs[j], s, dy, dx, bw)
}

/// The bitmask of one orientation at one offset on a board of width `bw`.
fn position_mask(s: &Matrix, dy: usize, dx: usize, bw: usize, bh: usize) -> (n: u64)
    requires
        wf(s.deep_view()),
        1 <= bw,
        1 <= bh,
        bw * bh <= 64,
        s.deep_view().len() + dy <= bh,
        s.deep_view()[0].len() + dx <= bw,
    ensures
        mask_is(n, s.deep_view(), dy as int, dx as int, bw as int),
{
    let ghost gs = s.deep_view();
    proof {
        lemma_deep_view(*s);
        assert forall|p: u64| p < 64 implies !bit64(0u64, p as int) by {
            lemma_bit_zero(p);
        }
    }
    let sh = s.len();
    let sw = s[0].len();
    let mut n: u64 = 0;
    for yy in 0..sh
        invariant
            gs == s.deep_view(),
            wf(gs),
            sh == gs.len() == s@.len(),
            sw == gs[0].len(),
            1 <= bw,
            1 <= bh,
            bw * bh <= 64,
            sh + dy <= bh,
            sw + dx <= bw,
            forall|t: int| 0 <= t < s@.len() ==> (#[trigger] s@[t])@ == gs[t],
            forall|t: int| 0 <= t < gs.len() ==> #[trigger] gs[t].len() == sw,
            forall|p: int|
                0 <= p < 64 ==> #[trigger] bit64(n, p) == occupies_before(
                    gs,
                    dy as int,
                    dx as int,
                    bw as int,
                    p,
                    yy as int,
                    0,
                ),
    {
        for xx in 0..sw
            invariant
                gs == s.deep_view(),
                wf(gs),
                sh == gs.len() == s@.len(),
                sw == gs[0].len(),
                1 <= bw,
                1 <= bh,
                bw * bh <= 64,
                sh + dy <= bh,
                sw + dx <= bw,
                0 <= yy < sh,
                forall|t: int| 0 <= t < s@.len() ==> (#[trigger] s@[t])@ == gs[t],
                forall|t: int| 0 <= t < gs.len() ==> #[trigger] gs[t].len() == sw,
                forall|p: int|
                    0 <= p < 64 ==> #[trigger] bit64(n, p) == occupies_before(
                        gs,
                        dy as int,
                        dx as int,
                        bw as int,
                        p,
                        yy as int,
                        xx as int,
                    ),
        {
            let ghost n_old = n;
            proof {
                assert((dy + yy) * bw + (dx + xx) < bw * bh) by (nonlinear_arith)
                    requires
                        0 <= yy && 0 <= xx && 0 <= dy && 0 <= dx && 1 <= bw && 1 <= bh && dy + yy
                            + 1 <= bh && dx + xx + 1 <= bw,
                ;
                assert((dy + yy) * bw + (dx + xx) >= 0) by (nonlinear_arith)
                    requires
                        0 <= yy && 0 <= xx && 0 <= dy && 0 <= dx && 1 <= bw,
                ;
            }
            if s[yy][xx] {
                let p = (dy + yy) * bw + (dx + xx);
                n = n | (1u64 << (p as u64));
                proof {
                    assert forall|q: u64| q < 64 implies bit64(n, q as int) == (bit64(
                        n_old,
                        q as int,
                    ) || q == p as u64) by {
                        lemma_or_bit(n_old, p as u64, q);
                    }
                }
            }
            proof {
                let gp = (dy + yy) * (bw as int) + (dx + xx);
                assert forall|p: int| 0 <= p < 64 implies #[trigger] bit64(n, p)
                    == occupies_before(
                    gs,
                    dy as int,
                    dx as int,
                    bw as int,
                    p,
                    yy as int,
                    xx + 1,
                ) by {
                    if gs[yy as int][xx as int] && p == gp {
                        assert(bit64(n, p));
                        assert(occupies_before(
                            gs,
                            dy as int,
                            dx as int,
                            bw as int,
                            p,
                            yy as int,
                            xx + 1,
                        )) by {
                            assert(0 <= (yy as int) && (yy as int) < gs.len() && 0 <= (xx as int) && (
                            xx as int) < gs[0].len() && gs[yy as int][xx as int] && p == (dy + yy)
                                * (bw as int) + (dx + xx));
                        }
                    } else {
                        if bit64(n, p) {
                            assert(occupies_before(
                                gs,
                                dy as int,
                                dx as int,
                                bw as int,
                                p,
                                yy as int,
                                xx as int,
                            ));
                            let (y0, x0) = choose|y: int, x: int|
                                0 <= y < gs.len() && 0 <= x < gs[0].len() && (y < yy as int || (y
                                    == yy as int && x < xx as int)) && #[trigger] gs[y][x] && p == (
                                dy + y) * (bw as int) + (dx + x);
                            assert(occupies_before(
                                gs,
                                dy as int,
                                dx as int,
                                bw as int,
                                p,
                                yy as int,
                                xx + 1,
                            ));
                        }
                        if occupies_before(gs, dy as int, dx as int, bw as int, p, yy as int, xx
                            + 1) {
                            let (y0, x0) = choose|y: int, x: int|
                                0 <= y < gs.len() && 0 <= x < gs[0].len() && (y < yy as int || (y
                                    == yy as int && x < xx + 1)) && #[trigger] gs[y][x] && p == (dy
                                    + y) * (bw as int) + (dx + x);
                            if y0 == yy as int && x0 == xx as int {
                                assert(p == gp && gs[yy as int][xx as int]);
                                assert(false);
                            } else {
                                assert(occupies_before(
                                    gs,
                                    dy as int,
                                    dx as int,
                                    bw as int,
                                    p,
                                    yy as int,
                                    xx as int,
                                ));
                                assert(bit64(n, p));
                            }
                        }
                    }
                }
            }
        }
        proof {
            assert forall|p: int| 0 <= p < 64 implies occupies_before(
                gs,
                dy as int,
                dx as int,
                bw as int,
                p,
                yy as int,
                sw as int,
            ) == occupies_before(gs, dy as int, dx as int, bw as int, p, yy + 1, 0) by {
                if occupies_before(gs, dy as int, dx as int, bw as int, p, yy as int, sw as int) {
                    let (y0, x0) = choose|y: int, x: int|
                        0 <= y < gs.len() && 0 <= x < gs[0].len() && (y < yy as int || (y
                            == yy as int && x < sw as int)) && #[trigger] gs[y][x] && p == (dy + y)
                            * (bw as int) + (dx + x);
                    assert(y0 < yy + 1);
                    assert(occupies_before(gs, dy as int, dx as int, bw as int, p, yy + 1, 0));
                }
                if occupies_before(gs, dy as int, dx as int, bw as int, p, yy + 1, 0) {
                    let (y0, x0) = choose|y: int, x: int|
                        0 <= y < gs.len() && 0 <= x < gs[0].len() && (y < yy + 1 || (y == yy + 1
                            && x < 0)) && #[trigger] gs[y][x] && p == (dy + y) * (bw as int) + (dx
                            + x);
                    assert(y0 < yy as int || (y0 == yy as int && x0 < sw as int));
                    assert(occupies_before(gs, dy as int, dx as int, bw as int, p, yy as int,
                        sw as int));
                }
            }
        }
    }
    proof {
        assert forall|p: int| 0 <= p < 64 implies #[trigger] bit64(n, p) == occupies(
            gs,
            dy as int,
            dx as int,
            bw as int,
            p,
        ) by {
            if bit64(n, p) {
                let (y0, x0) = choose|y: int, x: int|
                    0 <= y < gs.len() && 0 <= x < gs[0].len() && (y < sh as int || (y == sh as int
                        && x < 0)) && #[trigger] gs[y][x] && p == (dy + y) * (bw as int) + (dx + x);
                assert(occupies(gs, dy as int, dx as int, bw as int, p));
            }
            if occupies(gs, dy as int, dx as int, bw as int, p) {
                let (y0, x0) = choose|y: int, x: int|
                    0 <= y < gs.len() && 0 <= x < gs[0].len() && #[trigger] gs[y][x] && p == (dy
                        + y) * (bw as int) + (dx + x);
                assert(occupies_before(gs, dy as int, dx as int, bw as int, p, sh as int, 0));
            }
        }
    }
    n
}

/// All board placements of all orientations of a shape, each as a
/// bitmask over board cells in row-major bit order.  With `limit_sym`
/// the offsets are restricted to the board's centre quadrant, the
/// symmetry-cutting mode applied to at most one fully symmetric shape.
pub fn all_positions_of(m: &Matrix, board_w: usize, board_h: usize, limit_sym: bool) -> (r: Vec<
    u64,
>)
    requires
        wf(m.deep_view()),
        1 <= board_w,
        1 <= board_h,
        board_w * board_h <= 64,
    ensures
        forall|j: int|
            0 <= j < r@.len() ==> placement_ok(
                m.deep_view(),
                board_w as int,
                board_h as int,
                limit_sym,
                #[trigger] r@[j],
            ),
        forall|k: int, dy: int, dx: int|
            0 <= k < 8 && #[trigger] offset_ok(
                variants(m.deep_view())[k],
                board_w as int,
                board_h as int,
                limit_sym,
                dy,
                dx,
            ) ==> has_mask(r@, variants(m.deep_view())[k], dy, dx, board_w as int),
{
    let ghost g = m.deep_view();
    let shapes = shapes_of(m);
    let ghost bw = board_w as int;
    let ghost bh = board_h as int;
    let x1: usize = if limit_sym {
        board_w / 2 + 1
    } else {
        board_w
    };
    let y1: usize = if limit_sym {
        board_h / 2 + 1
    } else {
        board_h
    };
    let mut r: Vec<u64> = Vec::new();
    let ns = shapes.len();
    for t in 0..ns
        invariant
            g == m.deep_view(),
            wf(g),
            1 <= board_w,
            1 <= board_h,
            board_w * board_h <= 64,
            bw == board_w as int,
            bh == board_h as int,
            x1 as int == sym_bound(bw, limit_sym),
            y1 as int == sym_bound(bh, limit_sym),
            x1 <= board_w,
            y1 <= board_h,
            ns == shapes@.len(),
            forall|i: int|
                0 <= i < shapes@.len() ==> variants(g).contains(
                    (#[trigger] shapes@[i]).deep_view(),
                ),
            forall|k: int| 0 <= k < 8 ==> has_variant(shapes@, #[trigger] variants(g)[k]),
            forall|i: int| 0 <= i < shapes@.len() ==> wf((#[trigger] shapes@[i]).deep_view()),
            forall|j: int|
                0 <= j < r@.len() ==> placement_ok(g, bw, bh, limit_sym, #[trigger] r@[j]),
            forall|t2: int, dy: int, dx: int|
                0 <= t2 < t && #[trigger] offset_ok(
                    shapes@[t2].deep_view(),
                    bw,
                    bh,
                    limit_sym,
                    dy,
                    dx,
                ) ==> has_mask(r@, shapes@[t2].deep_view(), dy, dx, bw),
    {
        let s = &shapes[t];
        let ghost gs = s.deep_view();
        let sh = s.len();
        let sw = s[0].len();
        if sh <= y1 && sw <= x1 {
            for dy in 0..(y1 - sh + 1)
                invariant
                    g == m.deep_view(),
                    wf(g),
                    1 <= board_w,
                    1 <= board_h,
                    board_w * board_h <= 64,
                    bw == board_w as int,
                    bh == board_h as int,
                    x1 as int == sym_bound(bw, limit_sym),
                    y1 as int == sym_bound(bh, limit_sym),
                    x1 <= board_w,
                    y1 <= board_h,
                    ns == shapes@.len(),
                    0 <= t < ns,
                    gs == shapes@[t as int].deep_view(),
                    wf(gs),
                    sh == gs.len(),
                    sw == gs[0].len(),
                    sh <= y1,
                    sw <= x1,
                    variants(g).contains(gs),
                    forall|i: int|
                        0 <= i < shapes@.len() ==> variants(g).contains(
                            (#[trigger] shapes@[i]).deep_view(),
                        ),
                    forall|k: int| 0 <= k < 8 ==> has_variant(shapes@, #[trigger] variants(g)[k]),
                    forall|i: int|
                        0 <= i < shapes@.len() ==> wf((#[trigger] shapes@[i]).deep_view()),
                    forall|j: int|
                        0 <= j < r@.len() ==> placement_ok(g, bw, bh, limit_sym, #[trigger] r@[j]),
                    forall|t2: int, dy2: int, dx2: int|
                        0 <= t2 < t && #[trigger] offset_ok(
                            shapes@[t2].deep_view(),
                            bw,
                            bh,
                            limit_sym,
                            dy2,
                            dx2,
                        ) ==> has_mask(r@, shapes@[t2].deep_view(), dy2, dx2, bw),
                    forall|dy2: int, dx2: int|
                        0 <= dy2 < dy && #[trigger] offset_ok(gs, bw, bh, limit_sym, dy2, dx2)
                            ==> has_mask(r@, gs, dy2, dx2, bw),
            {
                for dx in 0..(x1 - sw + 1)
                    invariant
                        g == m.deep_view(),
                        wf(g),
                        1 <= board_w,
                        1 <= board_h,
                        board_w * board_h <= 64,
                        bw == board_w as int,
                        bh == board_h as int,
                        x1 as int == sym_bound(bw, limit_sym),
                        y1 as int == sym_bound(bh, limit_sym),
                        x1 <= board_w,
                        y1 <= board_h,
                        ns == shapes@.len(),
                        0 <= t < ns,
                        0 <= dy <= y1 - sh,
                        gs == shapes@[t as int].deep_view(),
                        wf(gs),
                        sh == gs.len(),
                        sw == gs[0].len(),
                        sh <= y1,
                        sw <= x1,
                        variants(g).contains(gs),
                        forall|i: int|
                            0 <= i < shapes@.len() ==> variants(g).contains(
                                (#[trigger] shapes@[i]).deep_view(),
                            ),
                        forall|k: int|
                            0 <= k < 8 ==> has_variant(shapes@, #[trigger] variants(g)[k]),
                        forall|i: int|
                            0 <= i < shapes@.len() ==> wf((#[trigger] shapes@[i]).deep_view()),
                        forall|j: int|
                            0 <= j < r@.len() ==> placement_ok(
                                g,
                                bw,
                                bh,
                                limit_sym,
                                #[trigger] r@[j],
                            ),
                        forall|t2: int, dy2: int, dx2: int|
                            0 <= t2 < t && #[trigger] offset_ok(
                                shapes@[t2].deep_view(),
                                bw,
                                bh,
                                limit_sym,
                                dy2,
                                dx2,
                            ) ==> has_mask(r@, shapes@[t2].deep_view(), dy2, dx2, bw),
                        forall|dy2: int, dx2: int|
                            0 <= dy2 < dy && #[trigger] offset_ok(gs, bw, bh, limit_sym, dy2, dx2)
                                ==> has_mask(r@, gs, dy2, dx2, bw),
                        forall|dx2: int|
                            0 <= dx2 < dx && #[trigger] offset_ok(gs, bw, bh, limit_sym, dy as int,
                            dx2) ==> has_mask(r@, gs, dy as int, dx2, bw),
                {
                    let ghost r_old = r@;
                    let n = position_mask(&shapes[t], dy, dx, board_w, board_h);
                    r.push(n);
                    proof {
                        let kv = choose|k: int| 0 <= k < 8 && variants(g)[k] == gs;
                        assert(offset_ok(gs, bw, bh, limit_sym, dy as int, dx as int));
                        assert(placement_ok(g, bw, bh, limit_sym, n)) by {
                            assert(0 <= kv < 8 && offset_ok(
                                variants(g)[kv],
                                bw,
                                bh,
                                limit_sym,
                                dy as int,
                                dx as int,
                            ) && mask_is(n, variants(g)[kv], dy as int, dx as int, bw));
                        }
                        assert(r@ == r_old.push(n));
                        assert forall|j: int| 0 <= j < r@.len() implies placement_ok(
                            g,
                            bw,
                            bh,
                            limit_sym,
                            #[trigger] r@[j],
                        ) by {
                            if j < r_old.len() {
                                assert(r@[j] == r_old[j]);
                            }
                        }
                        assert(mask_is(r@[r@.len() - 1], gs, dy as int, dx as int, bw));
                        assert forall|t2: int, dy2: int, dx2: int|
                            0 <= t2 < t && #[trigger] offset_ok(
                                shapes@[t2].deep_view(),
                                bw,
                                bh,
                                limit_sym,
                                dy2,
                                dx2,
                            ) implies has_mask(r@, shapes@[t2].deep_view(), dy2, dx2, bw) by {
                            let j0 = choose|j: int|
                                0 <= j < r_old.len() && mask_is(
                                    #[trigger] r_old[j],
                                    shapes@[t2].deep_view(),
                                    dy2,
                                    dx2,
                                    bw,
                                );
                            assert(r@[j0] == r_old[j0]);
                        }
                        assert forall|dy2: int, dx2: int|
                            0 <= dy2 < dy && #[trigger] offset_ok(gs, bw, bh, limit_sym, dy2, dx2)
                            implies has_mask(r@, gs, dy2, dx2, bw) by {
                            let j0 = choose|j: int|
                                0 <= j < r_old.len() && mask_is(#[trigger] r_old[j], gs, dy2, dx2,
                                bw);
                            assert(r@[j0] == r_old[j0]);
                        }
                        assert forall|dx2: int|
                            0 <= dx2 < dx + 1 && #[trigger] offset_ok(gs, bw, bh, limit_sym,
                            dy as int, dx2) implies has_mask(r@, gs, dy as int, dx2, bw) by {
                            if dx2 < dx {
                                let j0 = choose|j: int|
                                    0 <= j < r_old.len() && mask_is(
                                        #[trigger] r_old[j],
                                        gs,
                                        dy as int,
                                        dx2,
                                        bw,
                                    );
                                assert(r@[j0] == r_old[j0]);
                            } else {
                                assert(mask_is(r@[r@.len() - 1], gs, dy as int, dx2, bw));
                            }
                        }
                    }
                }
                proof {
                    assert forall|dy2: int, dx2: int|
                        0 <= dy2 < dy + 1 && #[trigger] offset_ok(gs, bw, bh, limit_sym, dy2, dx2)
                        implies has_mask(r@, gs, dy2, dx2, bw) by {
                        if dy2 == dy as int {
                            assert(0 <= dx2 < x1 - sw + 1);
                        }
                    }
                }
            }
        } else {
            proof {
                assert forall|dy2: int, dx2: int|
                    #[trigger] offset_ok(gs, bw, bh, limit_sym, dy2, dx2) implies false by {}
            }
        }
        proof {
            assert forall|t2: int, dy2: int, dx2: int|
                0 <= t2 < t + 1 && #[trigger] offset_ok(
                    shapes@[t2].deep_view(),
                    bw,
                    bh,
                    limit_sym,
                    dy2,
                    dx2,
                ) implies has_mask(r@, shapes@[t2].deep_view(), dy2, dx2, bw) by {
                if t2 == t as int {
                    assert(shapes@[t2].deep_view() == gs);
                }
            }
        }
    }
    proof {
        assert forall|k: int, dy: int, dx: int|
            0 <= k < 8 && #[trigger] offset_ok(variants(g)[k], bw, bh, limit_sym, dy, dx) implies
            has_mask(r@, variants(g)[k], dy, dx, bw) by {
            let t0 = choose|i: int|
                0 <= i < shapes@.len() && (#[trigger] shapes@[i]).deep_view() == variants(g)[k];
            assert(offset_ok(shapes@[t0].deep_view(), bw, bh, limit_sym, dy, dx));
        }
    }
    r
}

pub proof fn lemma_pow2k_le_u64()
    ensures
        (u64::MAX as nat) < pow2k(64),
{
    assert(pow2k(64) == 0x1_0000_0000_0000_0000nat) by {
        reveal_with_fuel(pow2k, 65);
    }
}

/// The running union of the regions that touch the `around` mask,
/// starting from the scanned cell's own bit.
pub open spec fn or_acc(s: Seq<u64>, around: u64, bit: u64) -> u64
    decreases s.len(),
{
    if s.len() == 0 {
        bit
    } else {
        let p = or_acc(s.drop_last(), around, bit);
        if s.last() & around != 0 {
            p | s.last()
        } else {
            p
        }
    }
}

/// The regions that do not touch the `around` mask, in order.
pub open spec fn kept(s: Seq<u64>, around: u64) -> Seq<u64>
    decreases s.len(),
{
    if s.len() == 0 {
        Seq::empty()
    } else {
        let p = kept(s.drop_last(), around);
        if s.last() & around == 0 {
            p.push(s.last())
        } else {
            p
        }
    }
}

/// One step of the region scan at an empty cell: the regions touching
/// the cell's left/upper neighbours merge with the cell's bit into one
/// region; the others stay.
pub open spec fn scan_step(existing: Seq<u64>, bit: u64, around: u64) -> Seq<u64> {
    kept(existing, around).push(or_acc(existing, around, bit))
}

/// The discovered regions after scanning the first `n` board cells.
pub open spec fn regions_upto(c: Seq<(u64, u64)>, board: u64, n: int) -> Seq<u64>
    decreases n,
{
    if n <= 0 {
        Seq::empty()
    } else {
        let prev = regions_upto(c, board, n - 1);
        if board & c[n - 1].0 == 0 {
            scan_step(prev, c[n - 1].0, c[n - 1].1)
        } else {
            prev
        }
    }
}

/// The maximal connected regions of unoccupied cells, as the region
/// scan discovers them over the whole adjacency table.
pub open spec fn hole_regions(c: Seq<(u64, u64)>, board: u64) -> Seq<u64> {
    regions_upto(c, board, c.len() as int)
}

/// Every hole of the board has a cell count divisible by five.
pub open spec fn all_holes_div5(c: Seq<(u64, u64)>, board: u64) -> bool {
    forall|k: int|
        0 <= k < hole_regions(c, board).len() ==> pop(
            (#[trigger] hole_regions(c, board)[k]) as nat,
        ) % 5 == 0
}

/// A run of `n` low bits holds exactly `n` set bits.
pub proof fn lemma_low_mask_pop(n: int)
    requires
        0 <= n <= 64,
    ensures
        pop(low_mask(n) as nat) == n,
    decreases n,
{
    if n == 0 {
    } else {
        lemma_low_mask_pop(n - 1);
        let nn: u64 = n as u64;
        if n < 64 {
            assert((1u64 << nn) - 1 == 2 * ((1u64 << ((nn - 1) as u64)) - 1) + 1) by (bit_vector)
                requires
                    1 <= nn < 64,
            ;
            assert((1u64 << nn) >= 1) by (bit_vector)
                requires
                    nn < 64,
            ;
            assert((1u64 << ((nn - 1) as u64)) >= 1) by (bit_vector)
                requires
                    1 <= nn < 64,
            ;
            assert(low_mask(n) as nat == (1u64 << nn) - 1);
            if n == 1 {
                assert((1u64 << ((nn - 1) as u64)) - 1 == 0) by (bit_vector)
                    requires
                        nn == 1,
                ;
            }
            assert(low_mask(n - 1) as nat == (1u64 << ((nn - 1) as u64)) - 1);
        } else {
            assert(0xffff_ffff_ffff_ffffu64 == 2 * ((1u64 << 63u64) - 1) + 1) by (bit_vector);
            assert((1u64 << 63u64) >= 1) by (bit_vector);
            assert(low_mask(n) as nat == 0xffff_ffff_ffff_ffffu64 as nat);
            assert(low_mask(n - 1) as nat == (1u64 << 63u64) - 1);
        }
        let m = low_mask(n - 1) as nat;
        assert(low_mask(n) as nat == 2 * m + 1);
        assert((2 * m + 1) / 2 == m && (2 * m + 1) % 2 == 1) by (nonlinear_arith);
        assert(pop(2 * m + 1) == 1 + pop(m));
    }
}

/// On an empty board the scan discovers one single region: all cells
/// seen so far, joined through their left and upper neighbours.
pub proof fn lemma_empty_regions(c: Seq<(u64, u64)>, w: int, h: int, n: int)
    requires
        compiter_wf(c, w, h),
        0 <= n <= c.len(),
    ensures
        regions_upto(c, 0u64, n) == if n == 0 {
            Seq::<u64>::empty()
        } else {
            seq![low_mask(n)]
        },
    decreases n,
{
    if n > 0 {
        lemma_empty_regions(c, w, h, n - 1);
        let prev = regions_upto(c, 0u64, n - 1);
        let i = n - 1;
        let bit = c[i].0;
        let around = c[i].1;
        assert(0u64 & bit == 0) by (bit_vector);
        if n == 1 {
            assert(bit == 1u64 << 0u64);
            assert(or_acc(prev, around, bit) == bit);
            assert(kept(prev, around) =~= Seq::<u64>::empty());
            assert(1u64 << 0u64 == (1u64 << 1u64) - 1) by (bit_vector);
            assert(scan_step(prev, bit, around) =~= seq![low_mask(1)]);
        } else {
            let lm = low_mask(i);
            assert(prev == seq![lm]);
            assert(around & lm != 0) by {
                let ii: u64 = i as u64;
                assert(lm == ((1u64 << ii) - 1) as u64);
                if i % w != 0 {
                    let bb: u64 = if i >= w {
                        1u64 << ((i - w) as u64)
                    } else {
                        0u64
                    };
                    assert(around == (1u64 << ((ii - 1) as u64)) | bb);
                    assert(((1u64 << ((ii - 1) as u64)) | bb) & (((1u64 << ii) - 1) as u64) != 0)
                        by (bit_vector)
                        requires
                            1 <= ii < 64,
                    ;
                } else {
                    assert(i >= w) by (nonlinear_arith)
                        requires
                            i % w == 0 && i > 0 && w >= 1,
                    ;
                    let jj: u64 = (i - w) as u64;
                    assert(around == 0u64 | (1u64 << jj));
                    assert((0u64 | (1u64 << jj)) & (((1u64 << ii) - 1) as u64) != 0)
                        by (bit_vector)
                        requires
                            jj < ii && ii < 64,
                    ;
                }
            }
            assert(lm & around != 0) by (bit_vector)
                requires
                    around & lm != 0,
            ;
            assert(prev.drop_last() =~= Seq::<u64>::empty());
            assert(prev.last() == lm);
            assert(kept(prev.drop_last(), around) =~= Seq::<u64>::empty());
            assert(kept(prev, around) =~= Seq::<u64>::empty());
            assert(or_acc(prev.drop_last(), around, bit) == bit);
            assert(or_acc(prev, around, bit) == bit | lm);
            assert(bit | lm == low_mask(n)) by {
                let ii: u64 = i as u64;
                if n < 64 {
                    assert((1u64 << ii) | (((1u64 << ii) - 1) as u64) == ((1u64 << ((ii + 1) as u64)) - 1)
                        as u64) by (bit_vector)
                        requires
                            1 <= ii < 63,
                    ;
                } else {
                    assert((1u64 << 63u64) | (((1u64 << 63u64) - 1) as u64)
                        == 0xffff_ffff_ffff_ffffu64) by (bit_vector);
                }
            }
            assert(scan_step(prev, bit, around) =~= seq![low_mask(n)]);
        }
    }
}

/// On an empty board every hole has a cell count divisible by five,
/// provided the board area itself is: the single hole is the whole board.
pub proof fn lemma_empty_board_valid(c: Seq<(u64, u64)>, w: int, h: int)
    requires
        compiter_wf(c, w, h),
        (w * h) % 5 == 0,
    ensures
        all_holes_div5(c, 0u64),
{
    assert(w * h >= 1) by (nonlinear_arith)
        requires
            w >= 1 && h >= 1,
    ;
    lemma_empty_regions(c, w, h, w * h);
    lemma_low_mask_pop(w * h);
    assert(hole_regions(c, 0u64) == seq![low_mask(w * h)]);
    assert(hole_regions(c, 0u64)[0] == low_mask(w * h));
}

} // verus!
