use rapiddlt::fromgenerator::FromAdaptFnCall;
use rapiddlt::generator::generator::Generator;
use std::collections::BTreeMap;

#[test]
fn groupby() {
    let data = [0, 1, 2, 0, 0, 2, 3, 0, 4, 3];
    let mut groups = data.into_iter().groupby(|a: &u32, b: &u32| b >= a);
    let mut count = 0;
    while groups.next().is_some() {
        count += 1;
    }
    assert_eq!(4, count);
}

#[test]
fn groupby_gives_the_runs() {
    let data = [0, 1, 2, 0, 0, 2, 3, 0, 4, 3];
    let mut groups = data.into_iter().groupby(|a: &u32, b: &u32| b >= a);
    let mut runs = vec![];
    while let Some(run) = groups.next() {
        runs.push(run);
    }
    assert_eq!(runs, vec![(0, 2), (0, 3), (0, 4), (3, 3)]);
    assert!(groups.next().is_none());

    // a relation that no value bears to itself gives no run of one value
    let mut groups = [5, 1, 2, 2, 0].into_iter().groupby(|a: &u32, b: &u32| b > a);
    let mut runs = vec![];
    while let Some(run) = groups.next() {
        runs.push(run);
    }
    assert_eq!(runs, vec![(1, 2)]);

    let mut groups = Vec::<u32>::new().into_iter().groupby(|a: &u32, b: &u32| b >= a);
    assert!(groups.next().is_none());
}

#[test]
fn split_of_an_iterator() {
    let data = [0usize, 1, 2, 0, 0, 2, 3, 0, 4, 3, 4, 4];
    let split: BTreeMap<usize, usize> = data.into_iter().split(|a: &usize| *a % 2, |_| Generator::count());
    assert_eq!(split.into_iter().collect::<Vec<_>>(), vec![(0, 9), (1, 3)]);
}
