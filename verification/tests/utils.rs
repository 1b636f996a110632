use lab01::types::PosSet;
use lab01::utils;

#[test]
fn find_diff() {
    let v1 = vec![1, 2, 3];
    let v2 = vec![1, 2];

    assert_eq!(utils::find_diff(&v1, &v2), vec![3]);
}

#[test]
fn find_diff_keeps_order_and_repeats() {
    assert_eq!(utils::find_diff(&[5, 1, 5, 2, 9], &[1, 9]), vec![5, 5, 2]);
    assert_eq!(utils::find_diff(&[], &[1]), Vec::<usize>::new());
    assert_eq!(utils::find_diff(&[4, 3], &[]), vec![4, 3]);
}

#[test]
fn empty_set_has_no_member() {
    let set = utils::make_empty_set();
    assert!(set.is_empty());
    assert_eq!(set.len(), 0);
    assert!(!set.contains(0));
    assert_eq!(set.to_vec(), Vec::<usize>::new());
}

#[test]
fn set_from_vec_forgets_order_and_repeats() {
    let set = utils::make_set_from_vec(vec![3, 1, 3, 2, 1]);
    assert_eq!(set.to_vec(), vec![1, 2, 3]);
    assert_eq!(set.len(), 3);
    assert_eq!(set, utils::make_set_from_vec(vec![1, 2, 3]));
    assert!(set.same(&utils::make_set_from_vec(vec![2, 3, 1])));
    assert!(!set.same(&utils::make_set_from_vec(vec![2, 3])));
    assert!(set.contains(2));
    assert!(!set.contains(4));
    assert_eq!(set.get(0), 1);
    assert_eq!(set.get(2), 3);
}

#[test]
fn union_holds_the_members_of_both() {
    let a = utils::make_set_from_vec(vec![5, 1]);
    let b = utils::make_set_from_vec(vec![3, 5, 7]);
    assert_eq!(
        utils::make_sets_union(&a, &b),
        utils::make_set_from_vec(vec![1, 3, 5, 7])
    );
    assert_eq!(utils::make_sets_union(&a, &utils::make_empty_set()), a);
    assert_eq!(a.union(&b), b.union(&a));
}

#[test]
fn set_with_adds_one_member() {
    let set = PosSet::new().with(4).with(2).with(4);
    assert_eq!(set.to_vec(), vec![2, 4]);
    assert_eq!(set.clone(), set);
}

#[test]
fn merge_vectors_appends() {
    assert_eq!(
        utils::merge_vectors(vec!['a', 'b'], vec!['c']),
        vec!['a', 'b', 'c']
    );
    assert_eq!(utils::merge_vectors(Vec::<u8>::new(), vec![]), vec![]);
}

#[test]
fn find_diff_works_on_any_items_with_equality() {
    assert_eq!(utils::find_diff(&['a', 'b', 'c'], &['b']), vec!['a', 'c']);
    assert_eq!(utils::find_diff(&[true, false], &[true]), vec![false]);
    assert_eq!(utils::find_diff(&[(1, 'x'), (2, 'y')], &[(2, 'y')]), vec![(1, 'x')]);
}
