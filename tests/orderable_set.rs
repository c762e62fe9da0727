use file_set::OrderableSet;

#[test]
fn orderable_set_try_from_vec_no_duplicates_test() {
    let orderable_set = OrderableSet::try_from(["a", "b", "c"].to_vec()).unwrap();
    assert_eq!(orderable_set.to_vec(), ["a", "b", "c"].to_vec());
}

#[test]
fn orderable_set_try_from_vec_duplicates_test() {
    let orderable_set = OrderableSet::try_from(["a", "b", "c", "a"].to_vec());
    assert!(orderable_set.is_err());
}

#[test]
fn orderable_set_push_no_duplicates_test() {
    let mut orderable_set: OrderableSet<u8> = OrderableSet::new();

    orderable_set.push(1).unwrap();
    orderable_set.push(2).unwrap();

    assert_eq!(orderable_set.to_vec(), [1, 2].to_vec());
}

#[test]
fn orderable_set_push_duplicates_test() {
    let mut orderable_set: OrderableSet<String> = OrderableSet::new();

    orderable_set.push(String::from("Dog")).unwrap();
    orderable_set.push(String::from("Cat")).unwrap();

    assert!(orderable_set.push(String::from("Dog")).is_err());
}

fn first_and_second() -> (OrderableSet<u8>, OrderableSet<u8>) {
    let mut orderable_set_1: OrderableSet<u8> = OrderableSet::new();

    orderable_set_1.push(1).unwrap();
    orderable_set_1.push(2).unwrap();
    orderable_set_1.push(9).unwrap();
    orderable_set_1.push(3).unwrap();

    let mut orderable_set_2: OrderableSet<u8> = OrderableSet::new();

    orderable_set_2.push(10).unwrap();
    orderable_set_2.push(2).unwrap();
    orderable_set_2.push(9).unwrap();
    orderable_set_2.push(11).unwrap();

    (orderable_set_1, orderable_set_2)
}

#[test]
fn orderable_set_intersection_test() {
    let (orderable_set_1, orderable_set_2) = first_and_second();

    let intersection_vec = orderable_set_1.intersection(&orderable_set_2).to_vec();

    assert!(intersection_vec.len() == 2);
    assert!(intersection_vec.contains(&2));
    assert!(intersection_vec.contains(&9));
}

#[test]
fn orderable_set_difference_test() {
    let (orderable_set_1, orderable_set_2) = first_and_second();

    let diference_vec = orderable_set_1.difference(&orderable_set_2).to_vec();

    assert!(diference_vec.len() == 2);
    assert!(diference_vec.contains(&1));
    assert!(diference_vec.contains(&3));
}

#[test]
fn orderable_set_disjoin_test() {
    let (orderable_set_1, orderable_set_2) = first_and_second();

    assert_eq!(orderable_set_1.is_disjoint(&orderable_set_2), false);
}

#[test]
fn orderable_set_reverse_test() {
    let mut orderable_set: OrderableSet<u8> = OrderableSet::new();

    orderable_set.push(1).unwrap();
    orderable_set.push(2).unwrap();
    orderable_set.push(9).unwrap();
    orderable_set.push(3).unwrap();

    orderable_set.reverse();

    assert_eq!(orderable_set.to_vec(), [3, 9, 2, 1].to_vec());
}

#[test]
fn orderable_set_keeps_order_of_receiver_in_intersection() {
    let (orderable_set_1, orderable_set_2) = first_and_second();

    assert_eq!(orderable_set_1.intersection(&orderable_set_2).to_vec(), vec![2, 9]);
    assert_eq!(orderable_set_2.intersection(&orderable_set_1).to_vec(), vec![2, 9]);
    assert_eq!(orderable_set_2.difference(&orderable_set_1).to_vec(), vec![10, 11]);
}

#[test]
fn orderable_set_disjoint_sets() {
    let (orderable_set_1, _) = first_and_second();
    let mut other: OrderableSet<u8> = OrderableSet::new();
    other.push(4).unwrap();
    other.push(5).unwrap();

    assert!(orderable_set_1.is_disjoint(&other));
    assert!(OrderableSet::<u8>::new().is_disjoint(&orderable_set_1));
    assert_eq!(orderable_set_1.difference(&other).to_vec(), vec![1, 2, 9, 3]);
    assert!(orderable_set_1.intersection(&other).to_vec().is_empty());
}

#[test]
fn orderable_set_reverse_returns_copy_and_reverses_twice_to_original() {
    let (mut orderable_set_1, _) = first_and_second();

    let copy = orderable_set_1.reverse();
    assert_eq!(copy.to_vec(), vec![3, 9, 2, 1]);
    assert_eq!(orderable_set_1.to_vec(), vec![3, 9, 2, 1]);

    orderable_set_1.reverse();
    assert_eq!(orderable_set_1.to_vec(), vec![1, 2, 9, 3]);
}

#[test]
fn orderable_set_failed_push_leaves_set_unchanged() {
    let (mut orderable_set_1, _) = first_and_second();

    assert!(orderable_set_1.push(9).is_err());
    assert_eq!(orderable_set_1.to_vec(), vec![1, 2, 9, 3]);
    assert!(orderable_set_1.push(4).is_ok());
    assert_eq!(orderable_set_1.to_vec(), vec![1, 2, 9, 3, 4]);
}

#[test]
fn orderable_set_empty_set_and_clone() {
    let empty: OrderableSet<u8> = OrderableSet::new();
    assert!(empty.to_vec().is_empty());

    let from_empty = OrderableSet::<u8>::try_from(Vec::new()).unwrap();
    assert!(from_empty.to_vec().is_empty());

    let (orderable_set_1, _) = first_and_second();
    let copy = orderable_set_1.clone();
    assert_eq!(copy.to_vec(), orderable_set_1.to_vec());
}

#[test]
fn orderable_set_union_keeps_receiver_order_then_other_exclusive_items() {
    let (orderable_set_1, orderable_set_2) = first_and_second();

    assert_eq!(orderable_set_1.union(&orderable_set_2).to_vec(), vec![1, 2, 9, 3, 10, 11]);
    assert_eq!(orderable_set_2.union(&orderable_set_1).to_vec(), vec![10, 2, 9, 11, 1, 3]);
    assert_eq!(orderable_set_1.union(&OrderableSet::new()).to_vec(), vec![1, 2, 9, 3]);
}
