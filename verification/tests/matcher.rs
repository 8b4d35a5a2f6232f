use rapiddlt::groupby::GroupBy;
use rapiddlt::hashmapit::HasMapIteratorCall;
use rapiddlt::matcher::{MatchRange, TMatch, TMatcherCall};

#[test]
#[allow(non_snake_case)]
fn GroupBy_reflexive() {
    const N: usize = 2;
    let bytes = [0x0, 0x0, 0x1, 0x2, 0x3, 0x4].repeat(N);
    let mut mat = bytes
        .iter()
        .enumerate()
        .matches(GroupBy::new(|a: (usize, &i32), b: (usize, &i32)| b.1 >= a.1));

    let mut i = 0;
    while let Some(r) = mat.next() {
        i += 1;
        assert_eq!((r.0 .1, r.1 .1), (&0x0, &0x4));
        assert_eq!(5, r.1 .0 - r.0 .0);
        println!("match={:?}", (r.0, r.1));
    }
    assert_eq!(N, i);
}

#[test]
#[allow(non_snake_case)]
fn GroupBy_greater() {
    const N: usize = 2;
    let bytes: Vec<i32> = [0x0, 0x0, 0x1, 0x2, 0x3, 0x4].repeat(N);
    let mut mat = bytes
        .iter()
        .enumerate()
        .matches(GroupBy::new(|a: (usize, &i32), b: (usize, &i32)| b.1 > a.1));

    let mut i = 0;
    while let Some(r) = mat.next() {
        i += 1;
        assert_eq!((r.0 .1, r.1 .1), (&0x0, &0x4));
        assert_eq!(4, r.1 .0 - r.0 .0);
        println!("match={:?}", (r.0, r.1));
    }
    assert_eq!(N, i);
}

#[test]
#[allow(non_snake_case)]
fn GroupBy_count() {
    const N: usize = 10;
    let bytes = [0x0, 0x1, 0x2, 0x3, 0x4, 0x5, 0x0, 0x1, 0x2, 0x3, 0x4, 0x5].repeat(N);
    let mut mat = bytes.as_slice().into_iter().matches(GroupBy::new(|a: &i32, b: &i32| a < b));

    let mut i = 0;
    while let Some(m) = mat.next() {
        i += 1;
        println!("match={:?}", m);
    }
    assert_eq!(N * 2, i);
}

#[test]
fn groupby_matcher_states() {
    let mut g = GroupBy::new(|a: u32, b: u32| b >= a);
    assert!(g.is_empty());
    assert_eq!(g.next(3), None);
    assert!(!g.is_empty());
    assert_eq!(g.next(1), Some((3, 3)));
    assert_eq!(g.next(2), None);
    assert_eq!(g.next(0), Some((1, 2)));
    assert_eq!(g.finalize(), Some((0, 0)));
    assert!(g.is_empty());
    assert_eq!(g.finalize(), None);

    // a single value of which the relation does not hold with itself is not given
    let mut g = GroupBy::new(|a: u32, b: u32| b > a);
    assert_eq!(g.next(3), None);
    assert_eq!(g.next(1), None);
    assert_eq!(g.finalize(), None);
    assert!(g.is_empty());
}

#[test]
fn match_range() {
    let single = MatchRange::from_value(7);
    assert_eq!(single, MatchRange::Single(7));
    assert_eq!(single.start(), 7);
    assert_eq!(single.end(), 7);
    let many = MatchRange::from_pair((1, 9));
    assert_eq!(many, MatchRange::Many(1, 9));
    assert_eq!(many.start(), 1);
    assert_eq!(many.end(), 9);
    assert_eq!(many.into_pair(), (1, 9));
}

#[test]
fn histogram_counts_by_key() {
    let data = [1usize, 5, 12, 7, 1, 30];
    let mut it = data.into_iter().histogram(|v: &usize| *v / 10);
    assert_eq!(it.next(), Some(1));
    assert_eq!(it.next(), Some(5));
    let hist = it.collect();
    assert_eq!(hist.into_iter().collect::<Vec<_>>(), vec![(0, 4), (1, 1), (3, 1)]);
}
