use file_set::OrderedSet;

#[test]
fn ordered_set_try_from_vec_no_duplicates_test() {
    let ordered_set = OrderedSet::try_from(["a", "b", "c"].to_vec()).unwrap();
    assert_eq!(ordered_set.to_vec(), ["a", "b", "c"].to_vec());
}

#[test]
fn ordered_set_try_from_vec_duplicates_test() {
    let ordered_set = OrderedSet::try_from(["a", "b", "c", "a"].to_vec());
    assert!(ordered_set.is_err());
}

#[test]
fn ordered_set_push_no_duplicates_test() {
    let mut ordered_set: OrderedSet<u8> = OrderedSet::new();

    ordered_set.push(1).unwrap();
    ordered_set.push(2).unwrap();

    assert_eq!(ordered_set.to_vec(), [1, 2].to_vec());
}

#[test]
fn ordered_set_push_duplicates_test() {
    let mut ordered_set: OrderedSet<String> = OrderedSet::new();

    ordered_set.push(String::from("Dog")).unwrap();
    ordered_set.push(String::from("Cat")).unwrap();

    assert!(ordered_set.push(String::from("Dog")).is_err());
}

fn first_and_second() -> (OrderedSet<u8>, OrderedSet<u8>) {
    let mut ordered_set_1: OrderedSet<u8> = OrderedSet::new();

    ordered_set_1.push(1).unwrap();
    ordered_set_1.push(2).unwrap();
    ordered_set_1.push(9).unwrap();
    ordered_set_1.push(3).unwrap();

    let mut ordered_set_2: OrderedSet<u8> = OrderedSet::new();

    ordered_set_2.push(10).unwrap();
    ordered_set_2.push(2).unwrap();
    ordered_set_2.push(9).unwrap();
    ordered_set_2.push(11).unwrap();

    (ordered_set_1, ordered_set_2)
}

#[test]
fn ordered_set_intersection_test() {
    let (ordered_set_1, ordered_set_2) = first_and_second();

    let intersection_vec = ordered_set_1.intersection(&ordered_set_2).to_vec();

    assert!(intersection_vec.len() == 2);
    assert!(intersection_vec.contains(&2));
    assert!(intersection_vec.contains(&9));
}

#[test]
fn ordered_set_difference_test() {
    let (ordered_set_1, ordered_set_2) = first_and_second();

    let diference_vec = ordered_set_1.difference(&ordered_set_2).to_vec();

    assert!(diference_vec.len() == 2);
    assert!(diference_vec.contains(&1));
    assert!(diference_vec.contains(&3));
}

#[test]
fn ordered_set_disjoin_test() {
    let (ordered_set_1, ordered_set_2) = first_and_second();

    assert_eq!(ordered_set_1.is_disjoint(&ordered_set_2), false);
}

#[test]
fn ordered_set_reverse_test() {
    let mut ordered_set: OrderedSet<u8> = OrderedSet::new();

    ordered_set.push(1).unwrap();
    ordered_set.push(2).unwrap();
    ordered_set.push(9).unwrap();
    ordered_set.push(3).unwrap();

    ordered_set.reverse();

    assert_eq!(ordered_set.to_vec(), [3, 9, 2, 1].to_vec());
}

#[test]
fn ordered_set_keeps_order_of_receiver_in_intersection() {
    let (ordered_set_1, ordered_set_2) = first_and_second();

    assert_eq!(ordered_set_1.intersection(&ordered_set_2).to_vec(), vec![2, 9]);
    assert_eq!(ordered_set_2.intersection(&ordered_set_1).to_vec(), vec![2, 9]);
    assert_eq!(ordered_set_2.difference(&ordered_set_1).to_vec(), vec![10, 11]);
}

#[test]
fn ordered_set_disjoint_sets() {
    let (ordered_set_1, _) = first_and_second();
    let mut other: OrderedSet<u8> = OrderedSet::new();
    other.push(4).unwrap();
    other.push(5).unwrap();

    assert!(ordered_set_1.is_disjoint(&other));
    assert!(OrderedSet::<u8>::new().is_disjoint(&ordered_set_1));
    assert_eq!(ordered_set_1.difference(&other).to_vec(), vec![1, 2, 9, 3]);
    assert!(ordered_set_1.intersection(&other).to_vec().is_empty());
}

#[test]
fn ordered_set_reverse_returns_copy_and_reverses_twice_to_original() {
    let (mut ordered_set_1, _) = first_and_second();

    let copy = ordered_set_1.reverse();
    assert_eq!(copy.to_vec(), vec![3, 9, 2, 1]);
    assert_eq!(ordered_set_1.to_vec(), vec![3, 9, 2, 1]);

    ordered_set_1.reverse();
    assert_eq!(ordered_set_1.to_vec(), vec![1, 2, 9, 3]);
}

#[test]
fn ordered_set_failed_push_leaves_set_unchanged() {
    let (mut ordered_set_1, _) = first_and_second();

    assert!(ordered_set_1.push(9).is_err());
    assert_eq!(ordered_set_1.to_vec(), vec![1, 2, 9, 3]);
    assert!(ordered_set_1.push(4).is_ok());
    assert_eq!(ordered_set_1.to_vec(), vec![1, 2, 9, 3, 4]);
}

#[test]
fn ordered_set_empty_set_and_clone() {
    let empty: OrderedSet<u8> = OrderedSet::new();
    assert!(empty.to_vec().is_empty());

    let from_empty = OrderedSet::<u8>::try_from(Vec::new()).unwrap();
    assert!(from_empty.to_vec().is_empty());

    let (ordered_set_1, _) = first_and_second();
    let copy = ordered_set_1.clone();
    assert_eq!(copy.to_vec(), ordered_set_1.to_vec());
}

#[test]
fn ordered_set_union_keeps_receiver_order_then_other_exclusive_items() {
    let (ordered_set_1, ordered_set_2) = first_and_second();

    assert_eq!(ordered_set_1.union(&ordered_set_2).to_vec(), vec![1, 2, 9, 3, 10, 11]);
    assert_eq!(ordered_set_2.union(&ordered_set_1).to_vec(), vec![10, 2, 9, 11, 1, 3]);
    assert_eq!(ordered_set_1.union(&OrderedSet::new()).to_vec(), vec![1, 2, 9, 3]);
}
