use minmax::symmetry::GridSymmetryAxis::{
    DiagonalBottomTop, DiagonalTopBottom, Horizontal, Vertical,
};
use minmax::symmetry::{normalise_by_axes, GridSymmetry3x3, Symmetries};

#[test]
fn one_axis_takes_the_second_of_a_pair_to_the_first() {
    assert_eq!(normalise_by_axes(2, Vertical), 0);
    assert_eq!(normalise_by_axes(0, Vertical), 0);
    assert_eq!(normalise_by_axes(4, Vertical), 4);
    assert_eq!(normalise_by_axes(8, DiagonalBottomTop), 0);
    assert_eq!(normalise_by_axes(7, DiagonalTopBottom), 5);
    assert_eq!(normalise_by_axes(7, Horizontal), 1);
    assert_eq!(normalise_by_axes(9, Horizontal), 9);
}

#[test]
fn normalise_goes_through_the_axes_in_their_order() {
    let none = GridSymmetry3x3 { axes: vec![] };
    let vertical = GridSymmetry3x3 { axes: vec![Vertical] };
    let both = GridSymmetry3x3 { axes: vec![Vertical, Horizontal] };
    for index in 0..9usize {
        assert_eq!(none.normalise(&index), index);
    }
    let firsts: Vec<usize> = (0..9usize).map(|index| vertical.normalise(&index)).collect();
    assert_eq!(firsts, vec![0, 1, 0, 3, 4, 3, 6, 7, 6]);
    let firsts: Vec<usize> = (0..9usize).map(|index| both.normalise(&index)).collect();
    assert_eq!(firsts, vec![0, 1, 0, 3, 4, 3, 0, 1, 0]);
}

#[test]
fn one_pass_need_not_reach_the_least_position() {
    // 7 mirrors to 1 at the horizontal axis, but the diagonal comes first
    // and takes it to 5, which the horizontal axis leaves alone
    let symmetry = GridSymmetry3x3 { axes: vec![DiagonalTopBottom, Horizontal] };
    assert_eq!(symmetry.normalise(&7), 5);
    let turned = GridSymmetry3x3 { axes: vec![Horizontal, DiagonalTopBottom] };
    assert_eq!(turned.normalise(&7), 1);
}

#[test]
fn expand_gives_what_normalises_to_a_position() {
    let vertical = GridSymmetry3x3 { axes: vec![Vertical] };
    assert_eq!(vertical.expand(&0), vec![0, 2]);
    assert_eq!(vertical.expand(&1), vec![1]);
    assert_eq!(vertical.expand(&2), Vec::<usize>::new());
    let both = GridSymmetry3x3 { axes: vec![Vertical, Horizontal] };
    assert_eq!(both.expand(&0), vec![0, 2, 6, 8]);
    assert_eq!(both.expand(&4), vec![4]);
    assert_eq!(both.expand(&9), Vec::<usize>::new());
}
