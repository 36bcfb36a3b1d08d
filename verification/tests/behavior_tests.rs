//! Further behaviour checks: set-algebra laws on concrete values,
//! bulk-loading equivalences, predicates, size hints and edge cases.

use std::collections::BTreeSet;

use sorted_vector_set::Bound;
use sorted_vector_set::SortedVectorSet;
use sorted_vector_set::Text;

fn from_vec(values: Vec<i64>) -> SortedVectorSet<i64> {
    SortedVectorSet::from_elements(values)
}

fn contents(s: &SortedVectorSet<i64>) -> Vec<i64> {
    s.as_slice().to_vec()
}

#[test]
fn order_invariant_after_mixed_operations() {
    let mut svs = SortedVectorSet::new();
    svs.extend_with_vec(vec![9, 1, 5, 3, 7]);
    svs.insert(4);
    svs.remove(&5);
    svs.replace(7);
    svs.extend_with_vec(vec![2, 8, 2]);
    let items = contents(&svs);
    for w in items.windows(2) {
        assert!(w[0] < w[1]);
    }
    assert_eq!(items, vec![1, 2, 3, 4, 7, 8, 9]);
}

#[test]
fn equivalence_with_reference_set() {
    let values = vec![5, 3, 9, 3, 1, 7, 9, 2];
    let mut svs = SortedVectorSet::new();
    let mut reference = BTreeSet::new();
    for v in values {
        svs.insert(v);
        reference.insert(v);
    }
    assert_eq!(svs.len(), reference.len());
    assert_eq!(svs.is_empty(), reference.is_empty());
    let from_reference: Vec<i64> = reference.into_iter().collect();
    assert_eq!(contents(&svs), from_reference);
}

#[test]
fn round_trip_through_sorted_vec() {
    let svs = from_vec(vec![4, 1, 3, 2, 1]);
    let exported = svs.into_inner();
    assert_eq!(exported, vec![1, 2, 3, 4]);
    let rebuilt = SortedVectorSet::from_sorted_vec(exported);
    assert_eq!(contents(&rebuilt), vec![1, 2, 3, 4]);
}

#[test]
fn set_algebra_laws_on_concrete_values() {
    let a = from_vec(vec![1, 3, 4, 5, 6, 7, 9]);
    let b = from_vec(vec![2, 4, 5, 6, 7, 8, 10]);
    // intersection(a, b) united with difference(a, b) gives back a
    let recombined = a.intersection_set(&b).union_set(&a.difference_set(&b));
    assert_eq!(recombined, a);
    // the symmetric difference is the union of the one-sided differences
    assert_eq!(
        a.symmetric_difference_set(&b),
        a.difference_set(&b).union_set(&b.difference_set(&a))
    );
    // uniting with a subset changes nothing
    let sub = from_vec(vec![3, 6, 9]);
    assert!(sub.is_subset(&a));
    assert_eq!(a.union_set(&sub), a);
}

#[test]
fn predicates_agree_with_scan_emptiness() {
    let a = from_vec(vec![1, 2, 3]);
    let b = from_vec(vec![2, 3]);
    let c = from_vec(vec![7, 8]);
    assert!(b.is_subset(&a));
    assert!(!a.is_subset(&b));
    assert!(a.is_superset(&b));
    assert!(!b.is_superset(&a));
    assert!(a.is_disjoint(&c));
    assert!(!a.is_disjoint(&b));
    let mut inter = a.intersection(&c);
    assert!(inter.next().is_none());
    let mut diff = b.difference(&a);
    assert!(diff.next().is_none());
}

#[test]
fn extend_after_maximum_matches_individual_inserts() {
    let base = vec![1, 4, 6];
    let batch = vec![9, 7, 11, 7];
    let mut bulk = from_vec(base.clone());
    bulk.extend_with_vec(batch.clone());
    let mut one_by_one = from_vec(base);
    for v in batch {
        one_by_one.insert(v);
    }
    assert_eq!(bulk, one_by_one);
    assert_eq!(contents(&bulk), vec![1, 4, 6, 7, 9, 11]);
}

#[test]
fn replace_and_get_report_presence() {
    let mut svs: SortedVectorSet<i64> = SortedVectorSet::new();
    assert_eq!(svs.replace(5), None);
    assert_eq!(svs.replace(5), Some(5));
    assert_eq!(svs.get(&5), Some(&5));
    assert_eq!(svs.get(&6), None);
    assert_eq!(svs.len(), 1);
}

#[test]
fn clear_and_capacity() {
    let mut svs: SortedVectorSet<i64> = SortedVectorSet::with_capacity(16);
    assert!(svs.is_empty());
    svs.insert(1);
    svs.insert(2);
    assert_eq!(svs.len(), 2);
    svs.clear();
    assert!(svs.is_empty());
    assert_eq!(svs.len(), 0);
    assert!(!svs.contains(&1));
}

#[test]
fn range_unbounded_and_empty_windows() {
    let svs = from_vec(vec![2, 4, 6]);
    assert_eq!(
        svs.range(Bound::Unbounded, Bound::Unbounded).to_vec(),
        vec![2, 4, 6]
    );
    assert_eq!(
        svs.range(Bound::Excluded(2), Bound::Excluded(4)).to_vec(),
        Vec::<i64>::new()
    );
    assert_eq!(
        svs.range(Bound::Excluded(6), Bound::Unbounded).to_vec(),
        Vec::<i64>::new()
    );
    let empty = SortedVectorSet::<i64>::new();
    assert_eq!(
        empty.range(Bound::Unbounded, Bound::Unbounded).to_vec(),
        Vec::<i64>::new()
    );
}

#[test]
fn size_hints_bound_the_scan() {
    let a = from_vec(vec![1, 2, 3, 4]);
    let b = from_vec(vec![3, 4, 5]);
    let diff = a.difference(&b);
    let (low, high) = diff.size_hint();
    assert!(low <= 2);
    assert_eq!(high, Some(4));
    let inter = a.intersection(&b);
    let (low, high) = inter.size_hint();
    assert_eq!(low, 0);
    assert_eq!(high, Some(3));
    let union = a.union(&b);
    let (low, high) = union.size_hint();
    assert!(low >= 4 && low <= 5);
    assert_eq!(high, Some(7));
    let sym = a.symmetric_difference(&b);
    let (low, high) = sym.size_hint();
    assert!(low <= 3);
    assert_eq!(high, Some(7));
}

#[test]
fn append_favours_the_incoming_side() {
    let mut svs = from_vec(vec![1, 2, 3]);
    let mut other = from_vec(vec![2, 3, 4]);
    svs.append(&mut other);
    assert!(other.is_empty());
    assert_eq!(contents(&svs), vec![1, 2, 3, 4]);
    let mut empty = SortedVectorSet::new();
    svs.append(&mut empty);
    assert_eq!(contents(&svs), vec![1, 2, 3, 4]);
    let mut svs2 = SortedVectorSet::new();
    let mut donor = from_vec(vec![9, 8]);
    svs2.append(&mut donor);
    assert_eq!(contents(&svs2), vec![8, 9]);
    assert!(donor.is_empty());
}

#[test]
fn split_off_at_exact_match_and_beyond() {
    let mut svs = from_vec(vec![1, 3, 5, 7, 9, 11]);
    let tail = svs.split_off(&7);
    assert_eq!(contents(&svs), vec![1, 3, 5]);
    assert_eq!(contents(&tail), vec![7, 9, 11]);
    let mut svs = from_vec(vec![1, 3, 5]);
    let tail = svs.split_off(&10);
    assert_eq!(contents(&svs), vec![1, 3, 5]);
    assert!(tail.is_empty());
    let mut svs = from_vec(vec![1, 3, 5]);
    let tail = svs.split_off(&0);
    assert!(svs.is_empty());
    assert_eq!(contents(&tail), vec![1, 3, 5]);
}

#[test]
fn text_elements_order_lexicographically() {
    let words = ["pear", "apple", "fig", "apricot", "fig"];
    let mut svs = SortedVectorSet::new();
    for w in words {
        svs.insert(Text::from_vec(w.as_bytes().to_vec()));
    }
    assert_eq!(svs.len(), 4);
    let collected: Vec<&[u8]> = svs.as_slice().iter().map(|t| t.as_bytes()).collect();
    assert_eq!(collected, vec![b"apple" as &[u8], b"apricot", b"fig", b"pear"]);
    assert_eq!(svs.first().unwrap().as_bytes(), b"apple");
    assert_eq!(svs.last().unwrap().as_bytes(), b"pear");
}

#[test]
fn text_iteration_after_take() {
    let t = |s: &str| Text::from_vec(s.as_bytes().to_vec());
    let mut svs = SortedVectorSet::new();
    svs.insert(t("test1"));
    svs.insert(t("test2"));
    svs.insert(t("test4"));
    svs.insert(t("test3"));
    assert!(svs.take(&t("test3")).is_some());
    let collected: Vec<&[u8]> = svs.as_slice().iter().map(|x| x.as_bytes()).collect();
    assert_eq!(collected, vec![b"test1" as &[u8], b"test2", b"test4"]);
}

#[test]
fn debug_string_with_negative_numbers() {
    let svs = from_vec(vec![-10, 0, 7]);
    assert_eq!(&svs.debug_string(), "{-10, 0, 7}");
}

#[test]
fn default_is_empty() {
    let svs: SortedVectorSet<i64> = Default::default();
    assert!(svs.is_empty());
}
