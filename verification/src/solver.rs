use vstd::prelude::*;

use crate::board::{all_holes_div5, bitcounter_wf, hole_regions, kept, or_acc, pop, regions_upto, scan_step};

verus! {

/// One puzzle piece: its display label and the bitmasks of all its
/// candidate placements on the board.
pub struct Piece {
    pub label: char,
    pub masks: Vec<u64>,
}

/// Compute the maximal connected regions ("holes") of unoccupied board
/// cells, each as a bitmask, by a single row-major scan that merges each
/// empty cell into the region of its left or upper neighbour.
pub fn holes_of(compiter: &Vec<(u64, u64)>, board: u64) -> (r: Vec<u64>)
    ensures
        r@ == hole_regions(compiter@, board),
{
    let mut existing: Vec<u64> = Vec::new();
    let n = compiter.len();
    for i in 0..n
        invariant
            n == compiter@.len(),
            existing@ == regions_upto(compiter@, board, i as int),
    {
        let bit: u64 = compiter[i].0;
        let around: u64 = compiter[i].1;
        if 0u64 == (board & bit) {
            let mut falsy: Vec<u64> = Vec::new();
            let mut acc: u64 = bit;
            let ne = existing.len();
            for j in 0..ne
                invariant
                    ne == existing@.len(),
                    falsy@ == kept(existing@.subrange(0, j as int), around),
                    acc == or_acc(existing@.subrange(0, j as int), around, bit),
            {
                proof {
                    assert(existing@.subrange(0, j + 1).drop_last() =~= existing@.subrange(
                        0,
                        j as int,
                    ));
                    assert(existing@.subrange(0, j + 1).last() == existing@[j as int]);
                }
                let rg: u64 = existing[j];
                if rg & around != 0 {
                    acc = acc | rg;
                } else {
                    falsy.push(rg);
                }
            }
            proof {
                assert(existing@.subrange(0, ne as int) =~= existing@);
            }
            falsy.push(acc);
            existing = falsy;
            proof {
                assert(existing@ == scan_step(
                    regions_upto(compiter@, board, i as int),
                    bit,
                    around,
                ));
            }
        }
        proof {
            assert(existing@ == regions_upto(compiter@, board, i + 1));
        }
    }
    existing
}

/// Whether every hole of the board has a cell count that is a multiple
/// of five, the piece size of this puzzle: if not, no set of five-cell
/// pieces can ever fill the holes exactly.
pub fn holes_five(compiter: &Vec<(u64, u64)>, bitcounter: &Vec<u8>, board: u64) -> (r: bool)
    requires
        bitcounter_wf(bitcounter@),
    ensures
        r == all_holes_div5(compiter@, board),
{
    let holes = holes_of(compiter, board);
    let nh = holes.len();
    let mut fiveonly: bool = true;
    for k in 0..nh
        invariant
            bitcounter_wf(bitcounter@),
            nh == holes@.len(),
            holes@ == hole_regions(compiter@, board),
            fiveonly == (forall|k2: int|
                0 <= k2 < k ==> pop((#[trigger] hole_regions(compiter@, board)[k2]) as nat) % 5
                    == 0),
    {
        let hole: u64 = holes[k];
        let mut cnt: u32 = 0;
        let mut chk: u64 = hole;
        proof {
            assert(crate::board::pow2k(8) == 256) by {
                reveal_with_fuel(crate::board::pow2k, 9);
            }
            crate::board::lemma_pow2k_le_u64();
            crate::board::lemma_pop_bound(hole as nat, 64);
        }
        while chk != 0
            invariant
                cnt as nat + pop(chk as nat) == pop(hole as nat),
                pop(hole as nat) <= 64,
                bitcounter_wf(bitcounter@),
            decreases chk,
        {
            let low: usize = (chk & 255) as usize;
            proof {
                assert(chk & 255 == chk % 256) by (bit_vector);
                assert(chk >> 8 == chk / 256) by (bit_vector);
                assert(crate::board::pow2k(8) == 256) by {
                    reveal_with_fuel(crate::board::pow2k, 9);
                }
                crate::board::lemma_pop_split(chk as nat, 8);
                assert(chk / 256 < chk) by (nonlinear_arith)
                    requires
                        chk > 0,
                ;
            }
            cnt = cnt + (bitcounter[low] as u32);
            chk = chk >> 8;
        }
        if cnt % 5 != 0 {
            fiveonly = false;
        }
        proof {
            assert(pop(hole as nat) % 5 == cnt as nat % 5);
        }
    }
    fiveonly
}

/// The number of complete assignments the search finds from this state:
/// piece `idx` onward, candidates of piece `idx` from `j` onward, with
/// `cur` the occupied mask, counting only branches whose masks are
/// disjoint from the occupancy and pass the hole check.
pub open spec fn count_search(
    pieces: Seq<Piece>,
    idx: int,
    j: int,
    cur: u64,
    c: Seq<(u64, u64)>,
) -> nat
    decreases pieces.len() - idx, pieces[idx].masks@.len() - j
        when 0 <= idx <= pieces.len() && (idx < pieces.len() ==> 0 <= j
            <= pieces[idx].masks@.len())
{
    if idx >= pieces.len() {
        1
    } else if j >= pieces[idx].masks@.len() {
        0
    } else {
        let mask = pieces[idx].masks@[j];
        (if cur & mask == 0 && all_holes_div5(c, cur | mask) {
            count_search(pieces, idx + 1, 0, cur | mask, c)
        } else {
            0
        }) + count_search(pieces, idx, j + 1, cur, c)
    }
}

/// A complete assignment appended to `base`: one placement per piece
/// from `idx` on, in piece order, each drawn from that piece's candidate
/// list, disjoint from the occupied mask `cur` and from one another.
pub open spec fn emitted_ok(
    s: Seq<(char, u64)>,
    base: Seq<(char, u64)>,
    pieces: Seq<Piece>,
    idx: int,
    cur: u64,
) -> bool {
    &&& s.len() == base.len() + (pieces.len() - idx)
    &&& s.subrange(0, base.len() as int) == base
    &&& forall|q: int|
        base.len() <= q < s.len() ==> {
            let e = #[trigger] s[q];
            &&& e.0 == pieces[idx + q - base.len()].label
            &&& pieces[idx + q - base.len()].masks@.contains(e.1)
            &&& e.1 & cur == 0
        }
    &&& forall|q1: int, q2: int|
        base.len() <= q1 < q2 < s.len() ==> ((#[trigger] s[q1]).1 & (#[trigger] s[q2]).1) == 0
}

proof fn lemma_and_comm(a: u64, b: u64)
    by (bit_vector)
    ensures
        (a & b) == (b & a),
{
}

proof fn lemma_and_or_zero(a: u64, c: u64, m: u64)
    requires
        a & (c | m) == 0,
    ensures
        a & c == 0,
        a & m == 0,
{
    assert(a & (c | m) == 0 ==> a & c == 0 && a & m == 0) by (bit_vector);
}

/// Copy a list of labelled placements.
fn copy_solution(s: &Vec<(char, u64)>) -> (r: Vec<(char, u64)>)
    ensures
        r@ == s@,
{
    let mut r: Vec<(char, u64)> = Vec::new();
    let n = s.len();
    for i in 0..n
        invariant
            n == s@.len(),
            r@ == s@.subrange(0, i as int),
    {
        r.push(s[i]);
        proof {
            assert(r@ =~= s@.subrange(0, i + 1));
        }
    }
    proof {
        assert(s@.subrange(0, n as int) =~= s@);
    }
    r
}

/// Walk the whole solution space: place one candidate of each remaining
/// piece in order, skip candidates that overlap the occupied mask, prune
/// occupancies whose holes cannot be filled by five-cell pieces, and
/// append every complete assignment found to `out`.  The number of
/// solutions appended is exactly `count_search`, and each appended
/// solution extends the entering partial solution with pairwise disjoint
/// placements drawn from the candidate lists.
pub fn find_solutions(
    compiter: &Vec<(u64, u64)>,
    bitcounter: &Vec<u8>,
    pieces: &Vec<Piece>,
    idx: usize,
    solution: &mut Vec<(char, u64)>,
    current: u64,
    out: &mut Vec<Vec<(char, u64)>>,
)
    requires
        bitcounter_wf(bitcounter@),
        idx <= pieces@.len(),
    ensures
        final(solution)@ == old(solution)@,
        final(out)@.len() == old(out)@.len() + count_search(
            pieces@,
            idx as int,
            0,
            current,
            compiter@,
        ),
        forall|k: int| 0 <= k < old(out)@.len() ==> final(out)@[k] == old(out)@[k],
        forall|k: int|
            old(out)@.len() <= k < final(out)@.len() ==> emitted_ok(
                (#[trigger] final(out)@[k])@,
                old(solution)@,
                pieces@,
                idx as int,
                current,
            ),
    decreases pieces@.len() - idx,
{
    let ghost sol0 = solution@;
    let ghost out0 = out@;
    if idx == pieces.len() {
        let sol_copy = copy_solution(solution);
        out.push(sol_copy);
        proof {
            assert(count_search(pieces@, idx as int, 0, current, compiter@) == 1);
            assert(out@[out@.len() - 1]@ == sol0);
            assert(emitted_ok(sol0, sol0, pieces@, idx as int, current)) by {
                assert(sol0.subrange(0, sol0.len() as int) =~= sol0);
            }
        }
    } else {
        let nm = pieces[idx].masks.len();
        for j in 0..nm
            invariant
                bitcounter_wf(bitcounter@),
                idx < pieces@.len(),
                pieces@.len() <= usize::MAX,
                nm == pieces@[idx as int].masks@.len(),
                solution@ == sol0,
                out@.len() >= out0.len(),
                out@.len() + count_search(pieces@, idx as int, j as int, current, compiter@)
                    == out0.len() + count_search(pieces@, idx as int, 0, current, compiter@),
                forall|k: int| 0 <= k < out0.len() ==> out@[k] == out0[k],
                forall|k: int|
                    out0.len() <= k < out@.len() ==> emitted_ok(
                        (#[trigger] out@[k])@,
                        sol0,
                        pieces@,
                        idx as int,
                        current,
                    ),
            decreases nm - j,
        {
            let mask: u64 = pieces[idx].masks[j];
            if 0u64 == (current & mask) {
                let next: u64 = current | mask;
                if holes_five(compiter, bitcounter, next) {
                    solution.push((pieces[idx].label, mask));
                    let ghost out_mid = out@;
                    find_solutions(compiter, bitcounter, pieces, idx + 1, solution, next, out);
                    let _dropped = solution.pop();
                    proof {
                        assert(solution@ =~= sol0);
                        let e = (pieces@[idx as int].label, mask);
                        assert(pieces@[idx as int].masks@.contains(mask)) by {
                            assert(pieces@[idx as int].masks@[j as int] == mask);
                        }
                        assert forall|k: int|
                            out0.len() <= k < out@.len() implies emitted_ok(
                            (#[trigger] out@[k])@,
                            sol0,
                            pieces@,
                            idx as int,
                            current,
                        ) by {
                            if k < out_mid.len() {
                                assert(out@[k] == out_mid[k]);
                            } else {
                                let s = out@[k]@;
                                assert(emitted_ok(s, sol0.push(e), pieces@, idx as int + 1, next));
                                let b = sol0.len() as int;
                                assert(s.subrange(0, b + 1) == sol0.push(e));
                                assert forall|q: int| 0 <= q < b implies s[q] == sol0[q] by {
                                    assert(s.subrange(0, b + 1)[q] == sol0.push(e)[q]);
                                }
                                assert(s.subrange(0, b) =~= sol0);
                                assert(s[b] == s.subrange(0, b + 1)[b]);
                                assert(s[b] == e);
                                assert forall|q: int| b <= q < s.len() implies {
                                    let e2 = #[trigger] s[q];
                                    &&& e2.0 == pieces@[idx + q - b].label
                                    &&& pieces@[idx + q - b].masks@.contains(e2.1)
                                    &&& e2.1 & current == 0
                                } by {
                                    if q > b {
                                        assert(s[q].0 == pieces@[idx as int + 1 + q - (b
                                            + 1)].label && pieces@[idx as int + 1 + q - (b
                                            + 1)].masks@.contains(s[q].1) && s[q].1 & next == 0);
                                        lemma_and_or_zero(s[q].1, current, mask);
                                    } else {
                                        assert(s[q] == e);
                                        lemma_and_comm(mask, current);
                                        assert(mask & current == 0);
                                    }
                                }
                                assert forall|q1: int, q2: int|
                                    b <= q1 < q2 < s.len() implies ((#[trigger] s[q1]).1 & (
                                #[trigger] s[q2]).1) == 0 by {
                                    if q1 == b {
                                        assert(s[q2].1 & next == 0);
                                        lemma_and_or_zero(s[q2].1, current, mask);
                                        assert((s[q2].1 & mask) == 0);
                                        lemma_and_comm(mask, s[q2].1);
                                        assert(s[q1].1 == mask);
                                    } else {
                                        assert((s[q1].1 & s[q2].1) == 0);
                                    }
                                }
                            }
                        }
                    }
                }
            }
            proof {
                assert(count_search(pieces@, idx as int, j as int, current, compiter@) == (if
                current & mask == 0 && all_holes_div5(compiter@, current | mask) {
                    count_search(pieces@, idx as int + 1, 0, current | mask, compiter@)
                } else {
                    0nat
                }) + count_search(pieces@, idx as int, j + 1, current, compiter@));
            }
        }
        proof {
            assert(count_search(pieces@, idx as int, nm as int, current, compiter@) == 0);
        }
    }
}

/// Depth-first search that stops at the first complete assignment,
/// appending its placements to `solution`.  When nothing is found the
/// partial solution is restored and the search space is truly empty.
pub fn search_first(
    compiter: &Vec<(u64, u64)>,
    bitcounter: &Vec<u8>,
    pieces: &Vec<Piece>,
    idx: usize,
    solution: &mut Vec<(char, u64)>,
    current: u64,
) -> (found: bool)
    requires
        bitcounter_wf(bitcounter@),
        idx <= pieces@.len(),
    ensures
        !found ==> final(solution)@ == old(solution)@ && count_search(
            pieces@,
            idx as int,
            0,
            current,
            compiter@,
        ) == 0,
        found ==> emitted_ok(
            final(solution)@,
            old(solution)@,
            pieces@,
            idx as int,
            current,
        ),
    decreases pieces@.len() - idx,
{
    let ghost sol0 = solution@;
    if idx == pieces.len() {
        proof {
            assert(sol0.subrange(0, sol0.len() as int) =~= sol0);
        }
        return true;
    }
    let nm = pieces[idx].masks.len();
    for j in 0..nm
        invariant
            bitcounter_wf(bitcounter@),
            idx < pieces@.len(),
            pieces@.len() <= usize::MAX,
            nm == pieces@[idx as int].masks@.len(),
            solution@ == sol0,
            sol0 == old(solution)@,
            count_search(pieces@, idx as int, j as int, current, compiter@) == count_search(
                pieces@,
                idx as int,
                0,
                current,
                compiter@,
            ),
        decreases nm - j,
    {
        let mask: u64 = pieces[idx].masks[j];
        if 0u64 == (current & mask) {
            let next: u64 = current | mask;
            if holes_five(compiter, bitcounter, next) {
                solution.push((pieces[idx].label, mask));
                let found = search_first(compiter, bitcounter, pieces, idx + 1, solution, next);
                if found {
                    proof {
                        let e = (pieces@[idx as int].label, mask);
                        assert(pieces@[idx as int].masks@.contains(mask)) by {
                            assert(pieces@[idx as int].masks@[j as int] == mask);
                        }
                        let s = solution@;
                        let b = sol0.len() as int;
                        assert(emitted_ok(s, sol0.push(e), pieces@, idx as int + 1, next));
                        assert(s.subrange(0, b + 1) == sol0.push(e));
                        assert forall|q: int| 0 <= q < b implies s[q] == sol0[q] by {
                            assert(s.subrange(0, b + 1)[q] == sol0.push(e)[q]);
                        }
                        assert(s.subrange(0, b) =~= sol0);
                        assert(s[b] == s.subrange(0, b + 1)[b]);
                        assert(s[b] == e);
                        assert forall|q: int| b <= q < s.len() implies {
                            let e2 = #[trigger] s[q];
                            &&& e2.0 == pieces@[idx + q - b].label
                            &&& pieces@[idx + q - b].masks@.contains(e2.1)
                            &&& e2.1 & current == 0
                        } by {
                            if q > b {
                                assert(s[q].0 == pieces@[idx as int + 1 + q - (b + 1)].label
                                    && pieces@[idx as int + 1 + q - (b + 1)].masks@.contains(
                                    s[q].1,
                                ) && s[q].1 & next == 0);
                                lemma_and_or_zero(s[q].1, current, mask);
                            } else {
                                assert(s[q] == e);
                                lemma_and_comm(mask, current);
                                assert(mask & current == 0);
                            }
                        }
                        assert forall|q1: int, q2: int| b <= q1 < q2 < s.len() implies ((
                        #[trigger] s[q1]).1 & (#[trigger] s[q2]).1) == 0 by {
                            if q1 == b {
                                assert(s[q2].1 & next == 0);
                                lemma_and_or_zero(s[q2].1, current, mask);
                                assert((s[q2].1 & mask) == 0);
                                lemma_and_comm(mask, s[q2].1);
                                assert(s[q1].1 == mask);
                            } else {
                                assert((s[q1].1 & s[q2].1) == 0);
                            }
                        }
                    }
                    return true;
                }
                let _dropped = solution.pop();
                proof {
                    assert(solution@ =~= sol0);
                }
            }
        }
        proof {
            assert(count_search(pieces@, idx as int, j as int, current, compiter@) == (if current
                & mask == 0 && all_holes_div5(compiter@, current | mask) {
                count_search(pieces@, idx as int + 1, 0, current | mask, compiter@)
            } else {
                0nat
            }) + count_search(pieces@, idx as int, j + 1, current, compiter@));
        }
    }
    proof {
        assert(count_search(pieces@, idx as int, nm as int, current, compiter@) == 0);
    }
    false
}

/// The first complete tiling the search finds, if any: one labelled,
/// pairwise disjoint placement per piece, each drawn from that piece's
/// candidate list.  `None` only when the pruned search space holds no
/// solution at all.
pub fn first_solution(
    compiter: &Vec<(u64, u64)>,
    bitcounter: &Vec<u8>,
    pieces: &Vec<Piece>,
) -> (r: Option<Vec<(char, u64)>>)
    requires
        bitcounter_wf(bitcounter@),
    ensures
        r is Some ==> emitted_ok(r.unwrap()@, Seq::<(char, u64)>::empty(), pieces@, 0, 0u64),
        r is None ==> count_search(pieces@, 0, 0, 0u64, compiter@) == 0,
{
    let mut solution: Vec<(char, u64)> = Vec::new();
    let found = search_first(compiter, bitcounter, pieces, 0, &mut solution, 0u64);
    if found {
        Some(solution)
    } else {
        None
    }
}

} // verus!
