use itertools::Itertools;
use minmax::min_max::symmetry::{GridSymmetry3x3, GridSymmetryAxes, GridSymmetryAxis, Symmetry};

#[test]
fn grid_symmetry3x3_normalize() {
    let vertical = GridSymmetry3x3::new(GridSymmetryAxis::Vertical);
    assert_eq!(vertical.canonicalize(&0usize), 0);
    assert_eq!(vertical.canonicalize(&1usize), 1);
    assert_eq!(vertical.canonicalize(&2usize), 0);
    assert_eq!(vertical.canonicalize(&4usize), 4);
    assert_eq!(vertical.canonicalize(&8usize), 6);

    let diagonal_horizontal =
        GridSymmetry3x3::new(GridSymmetryAxis::DiagonalTopBottom | GridSymmetryAxis::Horizontal);
    assert_eq!(diagonal_horizontal.canonicalize(&0usize), 0);
    assert_eq!(diagonal_horizontal.canonicalize(&1usize), 1);
    assert_eq!(diagonal_horizontal.canonicalize(&2usize), 0);
    assert_eq!(diagonal_horizontal.canonicalize(&4usize), 4);
    assert_eq!(diagonal_horizontal.canonicalize(&5usize), 1);
    assert_eq!(diagonal_horizontal.canonicalize(&8usize), 0);

    let all = GridSymmetry3x3::new(GridSymmetryAxes::all());
    assert_eq!(all.canonicalize(&0usize), 0);
    assert_eq!(all.canonicalize(&2usize), 0);
    assert_eq!(all.canonicalize(&8usize), 0);

    assert_eq!(all.canonicalize(&1usize), 1);
    assert_eq!(all.canonicalize(&3usize), 1);
    assert_eq!(all.canonicalize(&5usize), 1);

    assert_eq!(all.canonicalize(&4usize), 4);
}

#[test]
fn grid_symmetry3x3_expand() {}

#[test]
fn grid_symmetry3x3is_same() {
    let cells1 = [0, 1, 2, 3, 4, 5, 6, 7, 8];
    let cells2 = [0, 1, 2, 3, 4, 5, 6, 7, 8];
    assert!(GridSymmetry3x3::is_same(&cells1, &cells2));

    let all_corner_boards = [
        [1, 0, 0, 0, 0, 0, 0, 0, 0],
        [0, 0, 1, 0, 0, 0, 0, 0, 0],
        [0, 0, 0, 0, 0, 0, 0, 0, 1],
        [0, 0, 0, 0, 0, 0, 1, 0, 0],
    ];
    all_corner_boards.iter().combinations(2).for_each(|pair| {
        assert!(GridSymmetry3x3::is_same(&pair[0], &pair[1]));
    });
}
