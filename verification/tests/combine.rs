use rapiddlt::combine::{add_counts, combine_counts, combine_with};
use std::collections::BTreeMap;

fn histogram(entries: &[(u32, usize)]) -> BTreeMap<u32, usize> {
    entries.iter().cloned().collect()
}

#[test]
fn counts_add() {
    let a = histogram(&[(1, 2), (3, 4)]);
    let b = histogram(&[(3, 10), (5, 1)]);
    let sum = combine_counts(a.clone(), b.clone()).unwrap();
    assert_eq!(sum, histogram(&[(1, 2), (3, 14), (5, 1)]));
    // the order of the partitions does not matter
    assert_eq!(combine_counts(b.clone(), a.clone()).unwrap(), sum);
    let c = histogram(&[(1, 1), (7, 7)]);
    assert_eq!(
        combine_counts(combine_counts(a.clone(), b.clone()).unwrap(), c.clone()),
        combine_counts(a.clone(), combine_counts(b, c).unwrap())
    );
    assert_eq!(combine_counts(a.clone(), BTreeMap::new()).unwrap(), a);
}

#[test]
fn counts_that_do_not_fit() {
    let a = histogram(&[(1, usize::MAX), (2, 1)]);
    let b = histogram(&[(1, 1)]);
    assert_eq!(combine_counts(a.clone(), b), None);
    assert_eq!(combine_counts(a.clone(), histogram(&[(2, 1)])), Some(histogram(&[(1, usize::MAX), (2, 2)])));
    assert_eq!(add_counts(usize::MAX, 1), None);
    assert_eq!(add_counts(usize::MAX - 1, 1), Some(usize::MAX));
}

#[test]
fn results_combine_under_each_key() {
    let both = |a: (BTreeMap<u32, usize>, usize), b: (BTreeMap<u32, usize>, usize)| {
        Some((combine_counts(a.0, b.0)?, add_counts(a.1, b.1)?))
    };
    let mut one = BTreeMap::new();
    one.insert(*b"ECU1", (histogram(&[(0, 1)]), 5usize));
    one.insert(*b"ECU2", (histogram(&[(9, 9)]), 9usize));
    let mut other = BTreeMap::new();
    other.insert(*b"ECU1", (histogram(&[(0, 2), (4, 1)]), 7usize));
    let all = combine_with(one, other, both).unwrap();
    assert_eq!(all[b"ECU1"], (histogram(&[(0, 3), (4, 1)]), 12));
    assert_eq!(all[b"ECU2"], (histogram(&[(9, 9)]), 9));
}
