use minmax::iter_util;
use minmax::iter_util::IterUtil;

#[test]
fn flatten_interleaving() {
    let input = vec![vec![1, 2, 3], vec![4, 5, 6], vec![7, 8, 9]];
    let output: Vec<_> = iter_util::flatten_interleaving(input).collect();
    assert_eq!(output, vec![1, 4, 7, 2, 5, 8, 3, 6, 9]);
}

#[test]
fn flatten_interleaving_skips_what_has_run_out() {
    let input = vec![vec![1], vec![], vec![2, 3, 4], vec![5, 6]];
    let mut walk = iter_util::flatten_interleaving(input);
    assert_eq!(walk.next(), Some(1));
    assert_eq!(walk.next(), Some(2));
    assert_eq!(walk.next(), Some(5));
    assert_eq!(walk.collect_vec_with_capacity(4), vec![3, 6, 4]);
}

#[test]
fn flatten_interleaving_of_nothing() {
    let mut none = iter_util::flatten_interleaving(Vec::<Vec<u8>>::new());
    assert_eq!(none.next(), None);
    assert_eq!(none.collect(), Vec::<u8>::new());
    let mut empty = iter_util::flatten_interleaving(vec![Vec::<u8>::new(), Vec::new()]);
    assert_eq!(empty.next(), None);
    assert_eq!(empty.next(), None);
}
