use pentomino::grid::{deflate, inflate, maxi, rotate, Matrix};
use pentomino::shapes::{canonical, next_generation, shapes_of};

fn seed() -> Vec<Matrix> {
    vec![vec![vec![true]]]
}

#[test]
fn one_growth_step_gives_the_domino() {
    let g1 = next_generation(&seed());
    assert_eq!(g1.len(), 1);
    assert_eq!(g1[0], vec![vec![true], vec![true]]);
}

#[test]
fn four_growth_steps_give_twelve_pentominoes() {
    let mut gen = seed();
    for _ in 0..4 {
        gen = next_generation(&gen);
    }
    assert_eq!(gen.len(), 12);
    for shape in &gen {
        let cells: usize = shape
            .iter()
            .map(|row| row.iter().filter(|&&c| c).count())
            .sum();
        assert_eq!(cells, 5);
    }
}

#[test]
fn intermediate_generation_counts() {
    let g1 = next_generation(&seed());
    let g2 = next_generation(&g1);
    let g3 = next_generation(&g2);
    assert_eq!(g2.len(), 2);
    assert_eq!(g3.len(), 5);
}

#[test]
fn inflate_pads_one_empty_border() {
    let m: Matrix = vec![vec![true]];
    let r = inflate(&m);
    assert_eq!(
        r,
        vec![
            vec![false, false, false],
            vec![false, true, false],
            vec![false, false, false],
        ]
    );
}

#[test]
fn deflate_trims_empty_borders() {
    let mut m: Matrix = vec![
        vec![false, false, false],
        vec![false, true, false],
        vec![false, false, false],
    ];
    deflate(&mut m);
    assert_eq!(m, vec![vec![true]]);
}

#[test]
fn deflate_undoes_inflate() {
    let m: Matrix = vec![vec![true, false], vec![true, true]];
    let mut r = inflate(&m);
    deflate(&mut r);
    assert_eq!(r, m);
}

#[test]
fn rotate_quarter_turn() {
    let m: Matrix = vec![vec![true, false], vec![true, true]];
    let r = rotate(&m);
    assert_eq!(r, vec![vec![false, true], vec![true, true]]);
}

#[test]
fn canonical_is_idempotent_on_an_l_shape() {
    let m: Matrix = vec![vec![true, false], vec![true, true]];
    let c = canonical(&m);
    assert_eq!(canonical(&c), c);
}

#[test]
fn canonical_ignores_rotation_and_reflection() {
    let m: Matrix = vec![vec![true, false], vec![true, true]];
    let c = canonical(&m);
    let r = rotate(&m);
    assert_eq!(canonical(&r), c);
    let f: Matrix = m.iter().rev().cloned().collect();
    assert_eq!(canonical(&f), c);
}

#[test]
fn square_has_one_orientation() {
    let m: Matrix = vec![vec![true, true], vec![true, true]];
    assert_eq!(shapes_of(&m).len(), 1);
}

#[test]
fn l_shape_has_four_orientations() {
    let m: Matrix = vec![vec![true, false], vec![true, true]];
    assert_eq!(shapes_of(&m).len(), 4);
}

#[test]
fn maxi_picks_the_larger() {
    assert_eq!(maxi(3, 5), 5);
    assert_eq!(maxi(7, 2), 7);
    assert_eq!(maxi(4, 4), 4);
}
