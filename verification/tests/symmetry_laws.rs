use minmax::min_max::symmetry::{
    canonicalization_mapping, generate_axis_to_canonical_indices, GridSymmetry3x3, GridSymmetry9x9,
    GridSymmetryAxes, GridSymmetryAxis, GridSymmetryAxisContext, GridSymmetryAxisContext3x3,
    GridSymmetryAxisContext9x9, SymmetricMove, Symmetry,
};

fn every_set_of_axes() -> Vec<GridSymmetryAxes> {
    let mut sets = Vec::new();
    for bits in 0..16 {
        sets.push(GridSymmetryAxes {
            vertical: bits & 1 != 0,
            horizontal: bits & 2 != 0,
            diagonal_top_bottom: bits & 4 != 0,
            diagonal_bottom_top: bits & 8 != 0,
        });
    }
    sets
}

#[test]
fn canonicalize_twice_is_canonicalize_once() {
    for axes in every_set_of_axes() {
        let symmetry = GridSymmetry3x3::with_axes(axes);
        for index in 0..9usize {
            let once = symmetry.canonicalize(&index);
            assert_eq!(symmetry.canonicalize(&once), once);
            assert!(once <= index);
        }
    }
}

#[test]
fn expansion_holds_the_index() {
    for axes in every_set_of_axes() {
        let symmetry = GridSymmetry3x3::with_axes(axes);
        for index in 0..9usize {
            assert!(symmetry.expand(&index).contains(&index));
        }
    }
}

#[test]
fn without_axes_every_index_stands_for_itself() {
    let none = GridSymmetry3x3::none();
    for index in 0..9usize {
        assert_eq!(none.canonicalize(&index), index);
        assert_eq!(none.expand(&index), vec![index]);
    }
    let cells = [1, 2, 3, 4, 5, 6, 7, 8, 9];
    assert_eq!(GridSymmetry3x3::from(&cells).axes(), GridSymmetryAxes::empty());
}

#[test]
fn expansion_goes_axis_by_axis_and_keeps_what_comes_twice() {
    let all = GridSymmetry3x3::new(GridSymmetryAxes::all());
    assert_eq!(all.expand(&4), vec![4, 4, 4, 4]);
    assert_eq!(all.expand(&0), vec![0, 2, 0, 6, 0, 0, 8]);
    assert_eq!(all.expand(&1), vec![1, 1, 7, 1, 3, 1, 5]);
    let vertical = GridSymmetry3x3::new(GridSymmetryAxis::Vertical);
    assert_eq!(vertical.expand(&5), vec![5, 3]);
    assert_eq!(vertical.expand(&1), vec![1]);
    let symmetric_move = SymmetricMove(3usize, vertical);
    assert_eq!(*symmetric_move.index(), 3);
    assert_eq!(symmetric_move.expanded_indices(), vec![3, 5]);
}

#[test]
fn expansion_is_no_closure() {
    // the diagonal and the horizontal axis together lead from 8 to 0, but no
    // single one of them does
    let symmetry =
        GridSymmetry3x3::new(GridSymmetryAxis::DiagonalTopBottom | GridSymmetryAxis::Horizontal);
    assert_eq!(symmetry.canonicalize(&8), 0);
    assert_eq!(symmetry.expand(&0), vec![0, 6, 0]);
}

#[test]
fn a_mirroring_takes_a_position_to_its_partner() {
    for axis in GridSymmetryAxes::all().to_vec() {
        let pairs = GridSymmetryAxisContext3x3::symmetric_indices(axis);
        for place in 0..9 {
            let there = minmax::min_max::symmetry::image_of(pairs, place);
            assert_eq!(minmax::min_max::symmetry::image_of(pairs, there), place);
        }
    }
    let vertical = GridSymmetryAxisContext3x3::symmetric_indices(GridSymmetryAxis::Vertical);
    let images: Vec<usize> =
        (0..9).map(|p| minmax::min_max::symmetry::image_of(vertical, p)).collect();
    assert_eq!(images, vec![2, 1, 0, 5, 4, 3, 8, 7, 6]);
}

#[test]
fn expand_index_gives_the_index_and_its_partner() {
    assert_eq!(
        GridSymmetryAxisContext3x3::expand_index(GridSymmetryAxis::DiagonalBottomTop, 7),
        vec![7, 3]
    );
    assert_eq!(
        GridSymmetryAxisContext3x3::expand_index(GridSymmetryAxis::DiagonalBottomTop, 2),
        vec![2]
    );
    assert_eq!(GridSymmetryAxisContext3x3::size(), 9);
    assert_eq!(GridSymmetryAxis::Vertical.symmetric_indices_3x3(), [(0, 2), (3, 5), (6, 8)]);
    assert_eq!(GridSymmetryAxis::Horizontal.symmetric_indices_3x3(), [(0, 6), (1, 7), (2, 8)]);
    assert_eq!(GridSymmetryAxis::DiagonalTopBottom.symmetric_indices_3x3(), [(1, 3), (2, 6), (5,
        7)]);
    assert_eq!(GridSymmetryAxis::DiagonalBottomTop.symmetric_indices_3x3(), [(0, 8), (1, 5), (3,
        7)]);
    assert_eq!(
        GridSymmetryAxisContext3x3::symmetric_indices(GridSymmetryAxis::Horizontal).to_vec(),
        vec![(0, 6), (1, 7), (2, 8)]
    );
}

#[test]
fn mappings_of_some_sets_of_axes() {
    let mapping = |axes: GridSymmetryAxes| canonicalization_mapping::<GridSymmetryAxisContext3x3>(
        &axes);
    assert_eq!(mapping(GridSymmetryAxes::empty()), vec![0, 1, 2, 3, 4, 5, 6, 7, 8]);
    assert_eq!(mapping(GridSymmetryAxes::all()), vec![0, 1, 0, 1, 4, 1, 0, 1, 0]);
    assert_eq!(
        mapping(GridSymmetryAxes::only(GridSymmetryAxis::Vertical)),
        vec![0, 1, 0, 3, 4, 3, 6, 7, 6]
    );
    assert_eq!(
        mapping(GridSymmetryAxes::only(GridSymmetryAxis::DiagonalTopBottom)),
        vec![0, 1, 2, 1, 4, 5, 2, 5, 8]
    );
    assert_eq!(
        mapping(GridSymmetryAxis::DiagonalTopBottom | GridSymmetryAxis::Horizontal),
        vec![0, 1, 0, 1, 4, 1, 0, 1, 0]
    );
}

#[test]
fn the_table_holds_the_mapping_of_every_set_of_axes() {
    let table = generate_axis_to_canonical_indices::<GridSymmetryAxisContext3x3>();
    assert_eq!(table.len(), 16);
    for axes in every_set_of_axes() {
        let collected = table.get(&axes.key()).unwrap();
        assert_eq!(*collected, canonicalization_mapping::<GridSymmetryAxisContext3x3>(&axes));
        let symmetry = GridSymmetry3x3::with_table(&table, axes);
        assert_eq!(symmetry.axes(), axes);
        for index in 0..9usize {
            assert_eq!(symmetry.canonicalize(&index), collected[index]);
        }
    }
    assert_eq!(
        *table.get(&GridSymmetryAxes::all().key()).unwrap(),
        vec![0, 1, 0, 1, 4, 1, 0, 1, 0]
    );
}

#[test]
fn sets_of_axes() {
    let mut axes = GridSymmetryAxes::empty();
    assert!(axes.is_empty());
    assert!(!axes.contains(GridSymmetryAxis::Horizontal));
    axes.insert(GridSymmetryAxis::Horizontal);
    assert!(axes.contains(GridSymmetryAxis::Horizontal));
    assert!(!axes.is_empty());
    assert_eq!(axes, GridSymmetryAxes::only(GridSymmetryAxis::Horizontal));
    assert_eq!(axes, GridSymmetryAxes::from(GridSymmetryAxis::Horizontal));
    let both = axes.union(GridSymmetryAxes::only(GridSymmetryAxis::Vertical));
    assert_eq!(both, GridSymmetryAxis::Vertical | GridSymmetryAxis::Horizontal);
    assert_eq!(both.to_vec(), vec![GridSymmetryAxis::Vertical, GridSymmetryAxis::Horizontal]);
    assert_eq!(GridSymmetryAxes::all().to_vec().len(), 4);
    assert_eq!(GridSymmetryAxes::empty().key(), (0, 0));
    assert_eq!(GridSymmetryAxes::all().key(), (15, 0));
    assert_eq!(both.key(), (3, 0));
}

#[test]
fn symmetry_of_a_board() {
    let cells = [
        1, 0, 1,
        2, 3, 2,
        0, 0, 0,
    ];
    assert_eq!(
        GridSymmetry3x3::from(&cells).axes(),
        GridSymmetryAxes::only(GridSymmetryAxis::Vertical)
    );
    let cells = [0; 9];
    assert_eq!(GridSymmetry3x3::from(&cells).axes(), GridSymmetryAxes::all());
    let cells = [
        1, 2, 3,
        2, 5, 6,
        3, 6, 9,
    ];
    assert_eq!(
        GridSymmetry3x3::from(&cells).axes(),
        GridSymmetryAxes::only(GridSymmetryAxis::DiagonalTopBottom)
    );
    let one = GridSymmetry3x3::from(&cells);
    let same = one.clone();
    assert!(one == same);
    assert!(one != GridSymmetry3x3::none());
}

#[test]
fn boards_are_the_same_where_one_is_the_other_mirrored() {
    let board = [1, 2, 3, 4, 5, 6, 7, 8, 9];
    assert!(GridSymmetry3x3::is_same(&board, &board));
    // left and right
    assert!(GridSymmetry3x3::is_same(&board, &[3, 2, 1, 6, 5, 4, 9, 8, 7]));
    // top and bottom
    assert!(GridSymmetry3x3::is_same(&board, &[7, 8, 9, 4, 5, 6, 1, 2, 3]));
    // at the diagonal from the top left
    assert!(GridSymmetry3x3::is_same(&board, &[1, 4, 7, 2, 5, 8, 3, 6, 9]));
    // at the diagonal from the bottom left
    assert!(GridSymmetry3x3::is_same(&board, &[9, 6, 3, 8, 5, 2, 7, 4, 1]));
    // a half turn is two mirrorings in a row
    assert!(!GridSymmetry3x3::is_same(&board, &[9, 8, 7, 6, 5, 4, 3, 2, 1]));
    // every cell counts, not only those that the axis pairs
    assert!(!GridSymmetry3x3::is_same(&board, &[3, 2, 1, 6, 0, 4, 9, 8, 7]));
    assert!(!GridSymmetry3x3::is_same(&board, &[3, 0, 1, 6, 5, 4, 9, 8, 7]));
    assert!(!GridSymmetry3x3::is_same(&[0, 0, 1, 0, 0, 0, 0, 0, 0], &[0; 9]));
    assert!(!GridSymmetry3x3::is_same(&[0; 9], &[0, 0, 1, 0, 0, 0, 0, 0, 0]));
    // a corner and an edge do not mirror each other
    let corner = [1, 0, 0, 0, 0, 0, 0, 0, 0];
    let edge = [0, 0, 0, 0, 0, 1, 0, 0, 0];
    assert!(!GridSymmetry3x3::is_same(&corner, &edge));
}

#[test]
fn the_large_grid_mirrors_as_the_small_one_does() {
    assert_eq!(GridSymmetryAxisContext9x9::size(), 81);
    for axis in GridSymmetryAxes::all().to_vec() {
        assert_eq!(GridSymmetryAxisContext9x9::symmetric_indices(axis).len(), 36);
    }
    let vertical = GridSymmetry9x9::new(GridSymmetryAxis::Vertical);
    assert_eq!(vertical.canonicalize(&8), 0);
    assert_eq!(vertical.canonicalize(&4), 4);
    assert_eq!(vertical.canonicalize(&80), 72);
    assert_eq!(vertical.expand(&10), vec![10, 16]);
    let all = GridSymmetry9x9::new(GridSymmetryAxes::all());
    for corner in [0, 8, 72, 80] {
        assert_eq!(all.canonicalize(&corner), 0);
    }
    assert_eq!(all.canonicalize(&40), 40);
    assert_eq!(all.expand(&40), vec![40, 40, 40, 40]);
    assert_eq!(all.expand(&0), vec![0, 8, 0, 72, 0, 0, 80]);
    // the row below the top row, one from the left, and all that mirrors it
    for place in [10, 16, 64, 70] {
        assert_eq!(all.canonicalize(&place), 10);
    }
    for place in [1, 7, 9, 17, 63, 71, 73, 79] {
        assert_eq!(all.canonicalize(&place), 1);
    }
}

#[test]
fn the_laws_hold_on_the_large_grid() {
    let table = generate_axis_to_canonical_indices::<GridSymmetryAxisContext9x9>();
    assert_eq!(table.len(), 16);
    for axes in every_set_of_axes() {
        let symmetry = GridSymmetry9x9::with_axes(axes);
        let collected = table.get(&axes.key()).unwrap();
        for index in 0..81usize {
            let once = symmetry.canonicalize(&index);
            assert_eq!(symmetry.canonicalize(&once), once);
            assert_eq!(once, collected[index]);
            assert!(symmetry.expand(&index).contains(&index));
            if axes.is_empty() {
                assert_eq!(once, index);
            }
        }
    }
}
