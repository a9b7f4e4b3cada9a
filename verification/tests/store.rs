use std::rc::Rc;

use flat_package::flat_package::{Package, PackageError};

fn store1(entries: &[(u64, usize)]) -> Package<String, 1> {
    let mut p: Package<String, 1> = Package::new();
    for (k, s) in entries {
        p.add(&[*k], Rc::new(format!("p{}", k)), *s).unwrap();
    }
    p
}

#[test]
fn default_store_is_empty() {
    let p: Package<String, 2> = Package::default();
    assert!(p.is_empty());
    assert_eq!(p.len(), 0);
}

#[test]
fn empty_store_basics() {
    let p: Package<String, 3> = Package::new();
    assert_eq!(p.len(), 0);
    assert!(p.is_empty());
    assert_eq!(p.size(), 0);
    assert_eq!(p.count(&[]).unwrap(), 0);
    assert!(p.as_container().is_empty());
}

#[test]
fn add_get_round_trip() {
    let mut p: Package<String, 1> = Package::new();
    let payload = Rc::new(String::from("x"));
    p.add(&[2], Rc::clone(&payload), 7).unwrap();
    let got = p.get(&[2]).unwrap();
    assert_eq!(got.len(), 1);
    assert_eq!(got[0].0, vec![2u64]);
    assert!(Rc::ptr_eq(&got[0].1 .0, &payload));
    assert_eq!(got[0].1 .1, 7);
}

#[test]
fn add_rejects_long_key() {
    let mut p: Package<String, 1> = Package::new();
    let r = p.add(&[1, 2], Rc::new(String::from("x")), 1);
    assert!(matches!(r, Err(PackageError::CategoryTooBig)));
    assert_eq!(p.len(), 0);
}

#[test]
fn add_short_key_stores_nothing() {
    let mut p: Package<String, 2> = Package::new();
    p.add(&[1], Rc::new(String::from("x")), 1).unwrap();
    assert_eq!(p.len(), 0);
    assert!(p.is_empty());
}

#[test]
fn add_duplicate_key_refused() {
    let mut p = store1(&[(4, 1), (8, 2)]);
    let r = p.add(&[4], Rc::new(String::from("again")), 9);
    assert!(matches!(r, Err(PackageError::AllReadyExist)));
    assert_eq!(p.len(), 2);
    assert_eq!(p.size(), 3);
    let got = p.get(&[4]).unwrap();
    assert_eq!(got[0].1 .1, 1);
}

#[test]
fn iteration_stays_sorted_after_adds_and_removes() {
    let mut p = store1(&[(5, 1), (1, 1), (9, 1), (3, 1), (7, 1)]);
    p.remove(&[3]).unwrap();
    p.add(&[2], Rc::new(String::from("two")), 1).unwrap();
    let keys: Vec<u64> = p.iter().iter().map(|e| e.0[0]).collect();
    assert_eq!(keys, vec![1, 2, 5, 7, 9]);
}

#[test]
fn size_accounts_for_adds_and_removes() {
    let mut p = store1(&[(1, 5), (2, 3), (3, 8)]);
    assert_eq!(p.size(), 16);
    p.add(&[4], Rc::new(String::from("x")), 4).unwrap();
    assert_eq!(p.size(), 20);
    let removed = p.remove(&[2]).unwrap();
    assert_eq!(removed.len(), 1);
    assert_eq!(removed[0].1, 3);
    assert_eq!(p.size(), 17);
}

#[test]
fn get_by_prefix_and_exact() {
    let mut p: Package<String, 2> = Package::new();
    p.add(&[1, 1], Rc::new(String::from("a")), 1).unwrap();
    p.add(&[2, 1], Rc::new(String::from("c")), 3).unwrap();
    p.add(&[1, 2], Rc::new(String::from("b")), 2).unwrap();

    let under1 = p.get(&[1]).unwrap();
    assert_eq!(under1.len(), 2);
    assert_eq!(under1[0].0, vec![1, 1]);
    assert_eq!(under1[1].0, vec![1, 2]);

    let exact = p.get(&[1, 2]).unwrap();
    assert_eq!(exact.len(), 1);
    assert_eq!(exact[0].1 .1, 2);

    assert!(matches!(p.get(&[3, 1]), Err(PackageError::NoFound)));
    assert!(matches!(p.get(&[1, 2, 3]), Err(PackageError::CategoryTooBig)));

    assert_eq!(p.count(&[1]).unwrap(), 2);
    assert_eq!(p.count(&[2]).unwrap(), 1);
    assert_eq!(p.count(&[2, 1]).unwrap(), 1);
    assert_eq!(p.count(&[9, 9]).unwrap(), 0);
    assert!(matches!(p.count(&[1, 1, 1]), Err(PackageError::CategoryTooBig)));
}

#[test]
fn get_values_projects_values() {
    let p = store1(&[(1, 5), (2, 3)]);
    let vals = p.get_values(&[]).unwrap();
    assert_eq!(vals.len(), 2);
    assert_eq!(vals[0].1, 5);
    assert_eq!(vals[1].1, 3);
    let one = p.get_values(&[2]).unwrap();
    assert_eq!(one.len(), 1);
    assert_eq!(one[0].1, 3);
    assert!(matches!(p.get_values(&[7]), Err(PackageError::NoFound)));
}

#[test]
fn values_and_iter_agree() {
    let p = store1(&[(1, 5), (2, 3)]);
    let entries = p.iter();
    let vals = p.values();
    assert_eq!(entries.len(), 2);
    assert_eq!(vals.len(), 2);
    for (e, v) in entries.iter().zip(vals.iter()) {
        assert_eq!(&e.1, *v);
    }
}

#[test]
fn value_updates_through_positions() {
    let mut p = store1(&[(1, 5), (2, 3), (3, 8)]);
    let positions = p.get_values_mut(&[]).unwrap();
    assert_eq!(positions, vec![0, 1, 2]);
    let one = p.get_values_mut(&[2]).unwrap();
    assert_eq!(one, vec![1]);
    let (payload, _) = p.value_at(1).clone();
    p.set_value_at(1, (payload, 10));
    assert_eq!(p.size(), 23);
    assert_eq!(p.get(&[2]).unwrap()[0].1 .1, 10);
    assert!(matches!(p.get_values_mut(&[9]), Err(PackageError::NoFound)));
}

#[test]
fn remove_by_prefix_removes_all_matches() {
    let mut p: Package<String, 2> = Package::new();
    p.add(&[1, 1], Rc::new(String::from("a")), 1).unwrap();
    p.add(&[1, 2], Rc::new(String::from("b")), 2).unwrap();
    p.add(&[2, 1], Rc::new(String::from("c")), 3).unwrap();
    let removed = p.remove(&[1]).unwrap();
    assert_eq!(removed.len(), 2);
    assert_eq!(removed[0].1, 1);
    assert_eq!(removed[1].1, 2);
    assert_eq!(p.len(), 1);
    assert_eq!(p.get(&[2, 1]).unwrap()[0].1 .1, 3);
    assert!(matches!(p.remove(&[1, 1]), Err(PackageError::NoFound)));
    assert!(matches!(p.remove(&[1, 1, 1]), Err(PackageError::CategoryTooBig)));
}

#[test]
fn fix_restores_sort_order_after_tail_split() {
    let mut p = store1(&[(1, 1), (2, 1), (3, 1), (4, 1)]);
    let mut tail = p.seperete_by_count(3).unwrap();
    let popped: Vec<u64> = tail.iter().iter().map(|e| e.0[0]).collect();
    assert_eq!(popped, vec![4, 3, 2]);
    tail.fix();
    let sorted: Vec<u64> = tail.iter().iter().map(|e| e.0[0]).collect();
    assert_eq!(sorted, vec![2, 3, 4]);
    assert_eq!(tail.get(&[3]).unwrap()[0].0, vec![3u64]);
}

#[test]
fn split_by_count_takes_highest_keys() {
    let mut p = store1(&[
        (0, 1),
        (1, 1),
        (2, 1),
        (3, 1),
        (4, 1),
        (5, 1),
        (6, 1),
        (7, 1),
        (8, 1),
        (9, 1),
    ]);
    let tail = p.seperete_by_count(4).unwrap();
    assert_eq!(tail.len(), 4);
    assert_eq!(p.len(), 6);
    let taken: Vec<u64> = tail.iter().iter().map(|e| e.0[0]).collect();
    assert_eq!(taken, vec![9, 8, 7, 6]);
    let kept: Vec<u64> = p.iter().iter().map(|e| e.0[0]).collect();
    assert_eq!(kept, vec![0, 1, 2, 3, 4, 5]);
}

#[test]
fn split_by_count_zero_or_empty_yields_nothing() {
    let mut p = store1(&[(1, 1)]);
    assert!(p.seperete_by_count(0).is_none());
    assert_eq!(p.len(), 1);
    let mut empty: Package<String, 1> = Package::new();
    assert!(empty.seperete_by_count(3).is_none());
}

#[test]
fn split_to_count_swaps_roles() {
    let mut p = store1(&[(1, 1), (2, 1), (3, 1)]);
    let rest = p.seperete_to_count(2).unwrap();
    let kept: Vec<u64> = p.iter().iter().map(|e| e.0[0]).collect();
    assert_eq!(kept, vec![3, 2]);
    let returned: Vec<u64> = rest.iter().iter().map(|e| e.0[0]).collect();
    assert_eq!(returned, vec![1]);
}

#[test]
fn split_to_count_taking_all_yields_nothing() {
    let mut p = store1(&[(1, 1), (2, 1)]);
    assert!(p.seperete_to_count(5).is_none());
    let kept: Vec<u64> = p.iter().iter().map(|e| e.0[0]).collect();
    assert_eq!(kept, vec![2, 1]);
}

#[test]
fn seperate_by_partitions_and_keeps_both_sides_sorted() {
    let mut p = store1(&[(1, 5), (2, 3), (3, 8), (4, 2), (5, 6)]);
    let heavy = p.seperate_by(|e| e.1 .1 > 3).unwrap();
    let heavy_keys: Vec<u64> = heavy.iter().iter().map(|e| e.0[0]).collect();
    let light_keys: Vec<u64> = p.iter().iter().map(|e| e.0[0]).collect();
    assert_eq!(heavy_keys, vec![1, 3, 5]);
    assert_eq!(light_keys, vec![2, 4]);
    let mut all: Vec<u64> = heavy_keys.iter().chain(light_keys.iter()).cloned().collect();
    all.sort();
    assert_eq!(all, vec![1, 2, 3, 4, 5]);
    assert_eq!(p.size() + heavy.size(), 24);
}

#[test]
fn seperate_by_nothing_selected_yields_nothing() {
    let mut p = store1(&[(1, 1), (2, 1)]);
    assert!(p.seperate_by(|_| false).is_none());
    assert_eq!(p.len(), 2);
}

#[test]
fn split_by_size_first_fit() {
    let mut p = store1(&[(1, 5), (2, 3), (3, 8), (4, 2)]);
    let taken = p.seperete_by_size(6).unwrap();
    assert_eq!(taken.len(), 1);
    assert_eq!(taken.size(), 5);
    let taken_keys: Vec<u64> = taken.iter().iter().map(|e| e.0[0]).collect();
    assert_eq!(taken_keys, vec![1]);
    let left: Vec<usize> = p.iter().iter().map(|e| e.1 .1).collect();
    assert_eq!(left, vec![3, 8, 2]);
}

#[test]
fn split_by_size_zero_budget_yields_nothing() {
    let mut p = store1(&[(1, 5)]);
    assert!(p.seperete_by_size(0).is_none());
    assert_eq!(p.len(), 1);
}

#[test]
fn split_to_size_swaps_roles() {
    let mut p = store1(&[(1, 5), (2, 3), (3, 8), (4, 2)]);
    let rest = p.seperete_to_size(6).unwrap();
    let kept: Vec<usize> = p.iter().iter().map(|e| e.1 .1).collect();
    assert_eq!(kept, vec![5]);
    let returned: Vec<usize> = rest.iter().iter().map(|e| e.1 .1).collect();
    assert_eq!(returned, vec![3, 8, 2]);
}

#[test]
fn split_to_size_taking_all_yields_nothing() {
    let mut p = store1(&[(1, 1), (2, 1)]);
    assert!(p.seperete_to_size(10).is_none());
    assert_eq!(p.len(), 2);
}

#[test]
fn clear_empties_the_store() {
    let mut p = store1(&[(1, 1), (2, 1)]);
    p.clear();
    assert!(p.is_empty());
    assert_eq!(p.size(), 0);
}

#[test]
fn payloads_are_shared_not_copied() {
    let mut p: Package<String, 1> = Package::new();
    let payload = Rc::new(String::from("shared"));
    p.add(&[1], Rc::clone(&payload), 1).unwrap();
    assert_eq!(Rc::strong_count(&payload), 2);
    let removed = p.remove(&[1]).unwrap();
    assert!(Rc::ptr_eq(&removed[0].0, &payload));
}
