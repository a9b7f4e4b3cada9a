use std::rc::Rc;

use flat_package::flat_package::Package;
use flat_package::flat_package_pack::PackagePack;

fn store1(entries: &[(u64, usize)]) -> Package<String, 1> {
    let mut p: Package<String, 1> = Package::new();
    for (k, s) in entries {
        p.add(&[*k], Rc::new(format!("p{}", k)), *s).unwrap();
    }
    p
}

#[test]
fn zero_size_limit_finalizes_no_bucket() {
    // With `max_size == 0` the size stage is switched off: even though the
    // count stage cuts one chunk of three entries, no bucket is finalized,
    // and the two-entry remainder is dropped rather than retained. This is
    // the documented zero-limit and dropped-remainder behavior.
    let p = store1(&[(1, 1), (2, 1), (3, 1), (4, 1), (5, 1)]);
    let pack: PackagePack<String, 1> = PackagePack::new(p, 0, 3);
    assert_eq!(pack.iter().len(), 0);
}

#[test]
fn zero_count_limit_cuts_no_chunk() {
    let p = store1(&[(1, 1), (2, 1), (3, 1)]);
    let pack: PackagePack<String, 1> = PackagePack::new(p, 10, 0);
    assert_eq!(pack.iter().len(), 0);
}

#[test]
fn count_stage_remainder_is_dropped() {
    // Five entries, chunks of two: the count stage cuts [5,4] and [3,2];
    // the remaining single entry 1 never reaches any bucket.
    let p = store1(&[(1, 1), (2, 1), (3, 1), (4, 1), (5, 1)]);
    let pack: PackagePack<String, 1> = PackagePack::new(p, 10, 2);
    let buckets = pack.iter();
    assert_eq!(buckets.len(), 2);
    let first: Vec<u64> = buckets[0].iter().iter().map(|e| e.0[0]).collect();
    let second: Vec<u64> = buckets[1].iter().iter().map(|e| e.0[0]).collect();
    assert_eq!(first, vec![5, 4]);
    assert_eq!(second, vec![3, 2]);
}

#[test]
fn size_stage_cuts_chunks_into_budgeted_buckets() {
    // Four entries of size 4, chunked by three: one chunk [4,3,2] (entry 1
    // is the dropped remainder), then a budget of 4 cuts that chunk into
    // three one-entry buckets.
    let p = store1(&[(1, 4), (2, 4), (3, 4), (4, 4)]);
    let pack: PackagePack<String, 1> = PackagePack::new(p, 4, 3);
    let buckets = pack.iter();
    assert_eq!(buckets.len(), 3);
    for bucket in buckets.iter() {
        assert_eq!(bucket.len(), 1);
        assert!(bucket.size() <= 4);
    }
    let keys: Vec<u64> = buckets.iter().flat_map(|b| b.iter().iter().map(|e| e.0[0]).collect::<Vec<u64>>()).collect();
    assert_eq!(keys, vec![4, 3, 2]);
}

#[test]
fn oversize_entries_fit_no_bucket() {
    let p = store1(&[(1, 9), (2, 9)]);
    let pack: PackagePack<String, 1> = PackagePack::new(p, 5, 1);
    assert_eq!(pack.iter().len(), 0);
}

#[test]
fn iter_item_flattens_buckets_in_order() {
    let p = store1(&[(1, 1), (2, 1), (3, 1), (4, 1), (5, 1)]);
    let pack: PackagePack<String, 1> = PackagePack::new(p, 10, 2);
    let keys: Vec<u64> = pack.iter_item().iter().map(|e| e.0[0]).collect();
    assert_eq!(keys, vec![5, 4, 3, 2]);
}

#[test]
fn clear_discards_buckets() {
    let p = store1(&[(1, 1), (2, 1), (3, 1)]);
    let mut pack: PackagePack<String, 1> = PackagePack::new(p, 10, 1);
    assert_eq!(pack.iter().len(), 2);
    pack.clear();
    assert_eq!(pack.iter().len(), 0);
}
