use pentomino::board::{all_positions_of, get_bitcounter, get_compiter};
use pentomino::grid::Matrix;
use pentomino::shapes::next_generation;
use pentomino::solver::{find_solutions, first_solution, Piece};

#[test]
fn single_cell_positions_on_two_by_two() {
    let m: Matrix = vec![vec![true]];
    let positions = all_positions_of(&m, 2, 2, false);
    assert_eq!(positions, vec![1, 2, 4, 8]);
}

#[test]
fn straight_pentomino_fills_one_row_board() {
    let compiter = get_compiter(5, 1);
    let bitcounter = get_bitcounter();
    let bar: Matrix = vec![vec![true; 5]];
    let masks = all_positions_of(&bar, 5, 1, false);
    assert_eq!(masks, vec![0b11111]);
    let pieces = vec![Piece { label: 'I', masks }];
    let mut solution: Vec<(char, u64)> = Vec::new();
    let mut out: Vec<Vec<(char, u64)>> = Vec::new();
    find_solutions(&compiter, &bitcounter, &pieces, 0, &mut solution, 0, &mut out);
    assert_eq!(out, vec![vec![('I', 0b11111)]]);
    assert!(solution.is_empty());
}

#[test]
fn overlapping_candidates_give_no_solution() {
    let compiter = get_compiter(5, 2);
    let bitcounter = get_bitcounter();
    // two copies of the same single placement overlap, so nothing covers both
    let pieces = vec![
        Piece { label: 'A', masks: vec![0b11111] },
        Piece { label: 'B', masks: vec![0b11111] },
    ];
    let mut solution: Vec<(char, u64)> = Vec::new();
    let mut out: Vec<Vec<(char, u64)>> = Vec::new();
    find_solutions(&compiter, &bitcounter, &pieces, 0, &mut solution, 0, &mut out);
    assert!(out.is_empty());
}

#[test]
fn first_solution_reports_absence() {
    let compiter = get_compiter(5, 2);
    let bitcounter = get_bitcounter();
    let pieces = vec![
        Piece { label: 'A', masks: vec![0b11111] },
        Piece { label: 'B', masks: vec![0b11111] },
    ];
    assert!(first_solution(&compiter, &bitcounter, &pieces).is_none());
}

#[test]
fn six_by_ten_pentomino_tiling_exists() {
    let mut gen: Vec<Matrix> = vec![vec![vec![true]]];
    for _ in 0..4 {
        gen = next_generation(&gen);
    }
    assert_eq!(gen.len(), 12);
    let labels = ['A', 'B', 'C', 'D', 'E', 'F', 'G', 'H', 'I', 'J', 'K', 'L'];
    let mut pieces: Vec<Piece> = Vec::new();
    for (i, shape) in gen.iter().enumerate() {
        pieces.push(Piece {
            label: labels[i],
            masks: all_positions_of(shape, 10, 6, false),
        });
    }
    // fewer candidates first: the classical ordering heuristic
    pieces.sort_by_key(|p| p.masks.len());
    let compiter = get_compiter(10, 6);
    let bitcounter = get_bitcounter();
    let sol = first_solution(&compiter, &bitcounter, &pieces)
        .expect("the 6 x 10 board has a pentomino tiling");
    assert_eq!(sol.len(), 12);
    let mut union: u64 = 0;
    for &(_, mask) in &sol {
        assert_eq!(union & mask, 0, "placements must not overlap");
        assert_eq!(mask.count_ones(), 5);
        union |= mask;
    }
    assert_eq!(union, (1u64 << 60) - 1, "a solution covers the whole board");
}
