use pentomino::board::{get_bitcounter, get_compiter};
use pentomino::solver::holes_five;

fn conv_board_row(row: &str, n: u64) -> u64 {
    let mut result: u64 = 0;
    let mut i: u64 = n;
    for c in row.chars() {
        if 'X' == c {
            result += i;
        }
        i *= 2;
    }
    result
}

fn board_from(s1: &str, s2: &str, s3: &str, s4: &str, s5: &str, s6: &str) -> u64 {
    let two: u64 = 2;
    let mut n: u64 = 0;
    n |= conv_board_row(s1, two.pow(0));
    n |= conv_board_row(s2, two.pow(10));
    n |= conv_board_row(s3, two.pow(20));
    n |= conv_board_row(s4, two.pow(30));
    n |= conv_board_row(s5, two.pow(40));
    n |= conv_board_row(s6, two.pow(50));
    n
}

#[test]
fn test_holes() {
    let compiter = get_compiter(10, 6);
    let bitcounter = get_bitcounter();
    let board = board_from(
        "....X.....",
        "..X.X.....",
        "XX..X.....",
        "..XXX.....",
        "...X......",
        "....X.....",
    );
    assert!(holes_five(&compiter, &bitcounter, 0));
    assert!(!holes_five(&compiter, &bitcounter, board));
    let b2 = board_from(
        "...XX.....",
        "..X.X.....",
        "XX..XXXXXX",
        "X..XX.....",
        ".XXXX.....",
        "....X.....",
    );
    assert!(holes_five(&compiter, &bitcounter, b2));
}

#[test]
fn empty_board_is_always_valid() {
    let compiter = get_compiter(10, 6);
    let bitcounter = get_bitcounter();
    assert!(holes_five(&compiter, &bitcounter, 0));
}

#[test]
fn isolated_four_cell_pocket_is_invalid() {
    let compiter = get_compiter(10, 6);
    let bitcounter = get_bitcounter();
    let full: u64 = (1u64 << 60) - 1;
    // everything occupied but cells 0..4 of the first row: one 4-cell hole
    let board = full & !0xFu64;
    assert!(!holes_five(&compiter, &bitcounter, board));
}

#[test]
fn five_and_ten_cell_regions_are_valid() {
    let compiter = get_compiter(10, 6);
    let bitcounter = get_bitcounter();
    let full: u64 = (1u64 << 60) - 1;
    // one 5-cell hole in the first row, one 10-cell hole in the last row
    let board = full & !0x1Fu64 & !(0x3FFu64 << 50);
    assert!(holes_five(&compiter, &bitcounter, board));
}

#[test]
fn bitcounter_table_values() {
    let t = get_bitcounter();
    assert_eq!(t.len(), 256);
    assert_eq!(t[0], 0);
    assert_eq!(t[1], 1);
    assert_eq!(t[170], 4);
    assert_eq!(t[255], 8);
}

#[test]
fn compiter_entries() {
    let c = get_compiter(10, 6);
    assert_eq!(c.len(), 60);
    assert_eq!(c[0], (1, 0));
    assert_eq!(c[1], (2, 1));
    assert_eq!(c[10], (1 << 10, 1));
    assert_eq!(c[11], (1 << 11, (1 << 10) | (1 << 1)));
}
