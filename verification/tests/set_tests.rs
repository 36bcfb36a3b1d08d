//! Tests of the sorted-vector set over integer and textual elements.

use sorted_vector_set::Bound;
use sorted_vector_set::SortedVectorSet;
use sorted_vector_set::Text;

fn t(s: &str) -> Text {
    Text::from_vec(s.as_bytes().to_vec())
}

fn from_vec(values: Vec<i64>) -> SortedVectorSet<i64> {
    SortedVectorSet::from_elements(values)
}

fn contents(s: &SortedVectorSet<i64>) -> Vec<i64> {
    s.as_slice().to_vec()
}

#[test]
fn insert_contains_take_remove() {
    let mut svs = SortedVectorSet::new();
    assert!(svs.insert(t("test1")));
    assert!(svs.insert(t("test2")));
    assert!(svs.insert(t("test4")));
    assert!(svs.insert(t("test3")));
    assert!(!svs.insert(t("test1")));
    assert!(svs.contains(&t("test1")));
    assert!(!svs.contains(&t("never")));
    assert_eq!(svs.take(&t("test3")).unwrap().as_bytes(), b"test3");
    assert!(svs.take(&t("never")).is_none());
    assert!(svs.remove(&t("test2")));
    assert!(!svs.remove(&t("test2")));
    assert!(!svs.remove(&t("never")));
}

#[test]
fn iter() {
    let svs = from_vec(vec![1, 2, 3, 4, 5]);
    let mut i = svs.iter();
    assert_eq!(i.next(), Some(&1));
    assert_eq!(i.next(), Some(&2));
    assert_eq!(i.next(), Some(&3));
    assert_eq!(i.next(), Some(&4));
    assert_eq!(i.next(), Some(&5));
    assert_eq!(i.next(), None);
    let mut i = svs.into_inner().into_iter();
    assert_eq!(i.next(), Some(1));
    assert_eq!(i.next(), Some(2));
    assert_eq!(i.next(), Some(3));
    assert_eq!(i.next(), Some(4));
    assert_eq!(i.next(), Some(5));
    assert_eq!(i.next(), None);
}

#[test]
fn range() {
    let svs = from_vec(vec![1, 3, 5, 7, 9, 11]);
    assert_eq!(
        svs.range(Bound::Included(3), Bound::Excluded(9)).to_vec(),
        vec![3, 5, 7]
    );
    assert_eq!(
        svs.range(Bound::Included(3), Bound::Included(7)).to_vec(),
        vec![3, 5, 7]
    );
    assert_eq!(
        svs.range(Bound::Unbounded, Bound::Excluded(2)).to_vec(),
        vec![1]
    );
    assert_eq!(
        svs.range(Bound::Included(6), Bound::Unbounded).to_vec(),
        vec![7, 9, 11]
    );
}

#[test]
fn first_last() {
    let mut svs = from_vec(vec![5, 10, 15, 20]);
    assert_eq!(svs.first(), Some(&5));
    assert_eq!(svs.last(), Some(&20));
    assert_eq!(svs.pop_last(), Some(20));
    assert_eq!(svs.last(), Some(&15));
    assert_eq!(svs.pop_last(), Some(15));
    assert_eq!(svs.pop_last(), Some(10));
    assert_eq!(svs.first(), Some(&5));
    assert_eq!(svs.last(), Some(&5));
    assert_eq!(svs.pop_last(), Some(5));
    assert_eq!(svs.pop_last(), None);
    assert_eq!(svs.first(), None);
    assert_eq!(svs.last(), None);
}

#[test]
fn retain() {
    let mut svs = from_vec(vec![1, 2, 3, 4, 5]);
    svs.retain(|v| *v != 3);
    assert_eq!(svs, from_vec(vec![1, 2, 4, 5]));
}

#[test]
fn split_off_append_extend() {
    let mut svs = from_vec(vec![1, 3, 5, 7, 9, 11]);
    let mut svs2 = svs.split_off(&7);
    assert_eq!(contents(&svs), vec![1, 3, 5]);
    assert_eq!(contents(&svs2), vec![7, 9, 11]);
    svs2.extend_with_vec(vec![4, 5, 6, 7, 8]);
    assert_eq!(contents(&svs2), vec![4, 5, 6, 7, 8, 9, 11]);
    svs2.append(&mut svs);
    assert!(svs.is_empty());
    assert_eq!(contents(&svs2), vec![1, 3, 4, 5, 6, 7, 8, 9, 11]);
}

#[test]
fn extend_optimizations() {
    // Initializing via extend will sort and take the values.
    let mut svs = SortedVectorSet::new();
    svs.extend_with_vec(vec![3, 2, 1]);

    assert_eq!(contents(&svs), vec![1, 2, 3]);
    assert_eq!(svs.first(), Some(&1));

    // This also works if there are duplicates: the last value will be
    // taken.
    let mut svs = SortedVectorSet::new();
    svs.extend_with_vec(vec![3, 2, 1, 6, 4, 5, 1, 6]);
    assert_eq!(contents(&svs), vec![1, 2, 3, 4, 5, 6]);
    assert_eq!(svs.first(), Some(&1));
    assert_eq!(svs.pop_last(), Some(6));

    // Extending with values that are all after the highest value will
    // efficiently append to the vector.
    svs.extend_with_vec(vec![9, 7, 8, 6]);

    assert_eq!(contents(&svs), vec![1, 2, 3, 4, 5, 6, 7, 8, 9]);
    assert_eq!(svs.last(), Some(&9));

    // If there are duplicate values, then the last value will be taken.
    svs.extend_with_vec(vec![11, 12, 10, 12]);

    assert_eq!(contents(&svs), vec![1, 2, 3, 4, 5, 6, 7, 8, 9, 10, 11, 12]);
}

#[test]
fn intersect_difference_symdiff_union() {
    let svs1 = from_vec(vec![1, 3, 4, 5, 6, 7, 9]);
    let svs2 = from_vec(vec![2, 4, 5, 6, 7, 8, 10]);
    let mut collected = Vec::new();
    let mut it = svs1.intersection(&svs2);
    while let Some(v) = it.next() {
        collected.push(*v);
    }
    assert_eq!(collected, vec![4, 5, 6, 7]);
    let mut collected = Vec::new();
    let mut it = svs1.difference(&svs2);
    while let Some(v) = it.next() {
        collected.push(*v);
    }
    assert_eq!(collected, vec![1, 3, 9]);
    let mut collected = Vec::new();
    let mut it = svs1.symmetric_difference(&svs2);
    while let Some(v) = it.next() {
        collected.push(*v);
    }
    assert_eq!(collected, vec![1, 2, 3, 8, 9, 10]);
    let mut collected = Vec::new();
    let mut it = svs1.union(&svs2);
    while let Some(v) = it.next() {
        collected.push(*v);
    }
    assert_eq!(collected, vec![1, 2, 3, 4, 5, 6, 7, 8, 9, 10]);
    assert_eq!(svs1.intersection_set(&svs2), from_vec(vec![4, 5, 6, 7]));
    assert_eq!(svs1.difference_set(&svs2), from_vec(vec![1, 3, 9]));
    assert_eq!(
        svs1.symmetric_difference_set(&svs2),
        from_vec(vec![1, 2, 3, 8, 9, 10])
    );
    assert_eq!(svs1.union_set(&svs2), from_vec((1..=10).collect()));
}

#[test]
fn debug_print() {
    assert_eq!(&SortedVectorSet::<i64>::new().debug_string(), "{}");
    assert_eq!(&from_vec(vec![1, 10, 100]).debug_string(), "{1, 10, 100}");
}
