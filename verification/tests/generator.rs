use rapiddlt::generator::adapter::AdapterTrait;
use rapiddlt::generator::generator::Generator;
use rapiddlt::generator::reducer::ReducerTrait;

#[test]
fn fold_generator() {
    const N: u32 = 255;
    let mut fold = Generator::fold(0u32, |acc, _: u32| acc + 1);
    for a in 0..N {
        fold.next(a);
    }
    assert_eq!(N, fold.finalize());
}

#[test]
fn fold_adapter() {
    const N: u32 = 255;
    const MIN: u32 = 120;
    let filter = Generator::filter(|next: &u32| *next < MIN);
    let mut fold = filter.fold(0u32, |acc, _: u32| acc + 1);
    for a in 0..N {
        fold.next(a);
    }
    assert_eq!(MIN, fold.finalize());
}

#[test]
fn filter_generator() {
    const N: u32 = 255;
    const MIN: u32 = 120;
    let filter = Generator::filter(|next: &u32| *next < MIN);
    let mut fold = filter.count();

    for a in 0..N {
        fold.next(a);
    }
    assert_eq!(MIN, fold.finalize() as u32);
}

#[test]
fn filter_adapter() {
    const N: u32 = 255;
    const MIN: f32 = 120.0f32;
    let map = Generator::map(|next: &u32| (*next as f32) / 2f32);
    let filter = map.filter(|next: &f32| *next < MIN);
    let mut fold = filter.count();

    for a in 0..N {
        fold.next(a);
    }
    assert_eq!((MIN as usize) * 2, fold.finalize());
}

#[test]
fn map_generator() {
    const N: u32 = 10;
    let map = Generator::map(|next: &u32| (*next as f32) / 2f32);
    let mut fold = map.fold(0f32, |acc: f32, next: f32| acc + next);

    for a in 0..N + 1 {
        fold.next(a);
    }
    assert_eq!(N * (N + 1) / 4, fold.finalize() as u32);
}

#[test]
fn map_adapter() {
    const N: u32 = 10;
    let filter = Generator::filter(|next: &u32| *next > 3);
    let map = filter.map(|next: &u32| (*next as f32) / 2f32);
    let mut fold = map.fold(0f32, |acc: f32, next: f32| acc + next);

    for a in 0..N + 1 {
        fold.next(a);
    }
    assert_eq!(N * (N + 1) / 4 - 3, fold.finalize() as u32);
}

#[test]
fn fork_adapter() {
    const N: u32 = 10;
    let map = Generator::map(|next: &u32| *next * 2);
    let mut fork = map.fork(
        Generator::map(|next: &u32| *next as f32 / 2f32).fold(0f32, |acc, next: f32| acc + (next as f32)),
        Generator::map(|next: &u32| (next * 2) as usize).sum(),
    );

    for a in 0..N + 1 {
        fork.next(a);
    }
    let (res1, res2) = fork.finalize();
    assert_eq!(N * (N + 1) / 2, res1 as u32);
    assert_eq!(N * (N + 1) * 2, res2 as u32);
}

#[test]
fn fork_generator() {
    const N: u32 = 10;
    let mut fork = Generator::fork(
        Generator::map(|next: &u32| *next as f32 / 2f32).fold(0f32, |acc, next: f32| acc + (next as f32)),
        Generator::map(|next: &u32| next * 2).fold(0u32, |acc, next| acc + next),
    );

    for a in 0..N + 1 {
        fork.next(a);
    }
    let (res1, res2) = fork.finalize();
    assert_eq!(N * (N + 1) / 4, res1 as u32);
    assert_eq!(N * (N + 1), res2);
}

#[test]
fn groupby_generator() {
    let groupby = Generator::groupby(|a: &u32, b: &u32| b >= a);
    let mut fold = groupby.fold(0u32, |acc: u32, _: (u32, u32)| acc + 1);

    for a in [0, 1, 2, 0, 0, 2, 3, 0, 4, 3] {
        fold.next(a);
    }
    assert_eq!(4, fold.finalize() as u32);
}

#[test]
fn groupby_adapter() {
    let map = Generator::map(|next: &u32| *next * 2);
    let groupby = map.groupby(|a: &u32, b: &u32| b >= a);
    let mut fold = groupby.fold(0u32, |acc: u32, _: (u32, u32)| acc + 1);

    for a in [0, 1, 2, 0, 0, 2, 3, 0, 4, 3] {
        fold.next(a);
    }
    assert_eq!(4, fold.finalize() as u32);
}

#[test]
fn groupby_collect() {
    let predicate = |a: &usize, b: &usize| b >= a;
    let mapping = |r: &(usize, usize)| r.1 - r.0;

    let mut groupby = Generator::groupby(predicate).map(mapping).collect();

    for a in [0, 1, 2, 0, 0, 2, 3, 0, 4, 3, 4, 4] {
        groupby.next(a);
    }
    let runs: Vec<usize> = groupby.finalize();
    println!("{:?}", runs);
    assert_eq!(runs, vec![2, 3, 4, 1]);
}

fn union(a: &(i32, i32), b: &(i32, i32)) -> Option<(i32, i32)> {
    let max = |a, b| {
        if a >= b {
            return a;
        };
        b
    };
    if b.0 >= a.0 && b.0 <= a.1 {
        Some((a.0, max(a.1, b.1)))
    } else if a.0 >= b.0 && a.0 <= b.1 {
        Some((b.0, max(a.1, b.1)))
    } else {
        None
    }
}

#[test]
fn merge_generator() {
    let mut merge = Generator::merge(union, |v: &(i32, i32)| *v).collect();

    for a in [(0, 1), (1, 1), (2, 3), (0, 0), (0, 0), (2, 2), (3, 4), (0, 0), (4, 5), (3, 6)] {
        merge.next(a);
    }
    let merged: Vec<(i32, i32)> = merge.finalize();
    println!("{:?}", merged);
    assert_eq!(merged, vec![(0, 1), (2, 6)]);
}

#[test]
fn merge_adapter() {
    let map = Generator::map(|a: &(i32, i32)| (a.0 + 1, a.1 + 1));
    let mut merge = map.merge(union, |v: &(i32, i32)| *v).collect();

    for a in [(0, 1), (1, 1), (2, 3), (0, 0), (0, 0), (2, 2), (3, 4), (0, 0), (4, 5), (3, 6)] {
        merge.next(a);
    }
    let merged: Vec<(i32, i32)> = merge.finalize();
    println!("{:?}", merged);
    assert_eq!(merged, vec![(1, 2), (3, 7)]);
}

#[test]
fn split_generator() {
    let mut split = Generator::split(|a: &usize| *a, |_| Generator::sum());

    for a in [0, 1, 2, 0, 0, 2, 3, 0, 4, 3, 4, 4] {
        split.next(a);
    }

    let mut fin = split.finalize();
    println!("{:?}", fin);
    assert_eq!(0usize, *fin.entry(0).or_default());
    assert_eq!(1usize, *fin.entry(1).or_default());
    assert_eq!(4usize, *fin.entry(2).or_default());
    assert_eq!(6usize, *fin.entry(3).or_default());
    assert_eq!(12usize, *fin.entry(4).or_default());
}

#[test]
fn split_adapter() {
    let map = Generator::map(|next: &usize| *next * 2);
    let mut split = map.split(
        |a: &usize| *a,
        |_| Generator::groupby(|a: &usize, b: &usize| b >= a).count(),
    );

    for a in [0, 1, 2, 0, 0, 2, 3, 0, 4, 3, 4, 4] {
        split.next(a);
    }

    let mut fin = split.finalize();
    println!("{:?}", fin);
    assert_eq!(1usize, *fin.entry(0).or_default());
    assert_eq!(1usize, *fin.entry(2).or_default());
    assert_eq!(1usize, *fin.entry(4).or_default());
    assert_eq!(1usize, *fin.entry(6).or_default());
    assert_eq!(1usize, *fin.entry(8).or_default());
}

#[test]
fn split_collect() {
    let predicate = |a: &usize, b: &usize| b >= a;
    let mapping = |r: &(usize, usize)| r.1 - r.0;

    let mut split = Generator::split(
        |a: &usize| *a,
        |_| Generator::groupby(predicate).map(mapping).collect(),
    );

    for a in [0, 1, 2, 0, 0, 2, 3, 0, 4, 3, 4, 4] {
        split.next(a);
    }
    let fin = split.finalize();
    println!("{:?}", fin);
    assert_eq!(fin.len(), 5);
    assert_eq!(fin[&0], vec![0usize]);
    assert_eq!(fin[&4], vec![0usize]);
}

#[test]
fn merge_depends_on_the_order_of_values_that_are_united() {
    let feed = |values: &[(i32, i32)]| {
        let mut merge = Generator::merge(union, |v: &(i32, i32)| *v).collect();
        for v in values {
            merge.next(*v);
        }
        let merged: Vec<(i32, i32)> = merge.finalize();
        merged
    };
    assert_eq!(feed(&[(0, 1), (2, 3), (1, 2)]), vec![(0, 2), (2, 3)]);
    assert_eq!(feed(&[(1, 2), (0, 1), (2, 3)]), vec![(0, 3)]);
    // values that are not united come out by their keys, whatever the order
    assert_eq!(feed(&[(4, 5), (0, 1), (2, 3)]), vec![(0, 1), (2, 3), (4, 5)]);
    assert_eq!(feed(&[(2, 3), (4, 5), (0, 1)]), vec![(0, 1), (2, 3), (4, 5)]);
}

#[test]
fn split_count_sums_to_count() {
    let stream = [3usize, 1, 4, 1, 5, 9, 2, 6, 5, 3, 5];
    let mut split = Generator::split(|a: &usize| *a % 3, |_| Generator::count());
    let mut count = Generator::count();
    for a in stream {
        split.next(a);
        count.next(a);
    }
    let parts = split.finalize();
    assert_eq!(parts.into_iter().collect::<Vec<_>>(), vec![(0, 4), (1, 3), (2, 4)]);
    assert_eq!(count.finalize(), 11);
}

#[test]
fn groupby_windows_cover_the_stream() {
    let stream = [0u32, 1, 2, 0, 0, 2, 3, 0, 4, 3];
    let mut groups = Generator::groupby(|a: &(usize, u32), b: &(usize, u32)| b.1 >= a.1).collect();
    for (i, v) in stream.iter().enumerate() {
        groups.next((i, *v));
    }
    let runs: Vec<((usize, u32), (usize, u32))> = groups.finalize();
    let windows: Vec<(usize, usize)> = runs.iter().map(|(first, last)| (first.0, last.0)).collect();
    assert_eq!(windows, vec![(0, 2), (3, 6), (7, 8), (9, 9)]);
}

#[test]
fn groupby_without_reflexivity_drops_single_values() {
    let mut groups = Generator::groupby(|a: &u32, b: &u32| b > a).collect();
    for v in [5u32, 1, 2, 2, 0] {
        groups.next(v);
    }
    let runs: Vec<(u32, u32)> = groups.finalize();
    assert_eq!(runs, vec![(1, 2)]);
}

#[test]
fn sum_and_collect() {
    let mut sum = Generator::sum();
    let mut all = Generator::filter(|v: &usize| *v != 0).collect();
    for v in [1usize, 0, 2, 3] {
        sum.next(v);
        all.next(v);
    }
    assert_eq!(sum.finalize(), 6);
    assert_eq!(all.finalize(), vec![1, 2, 3]);
}

#[test]
fn finalize_pumps_a_chain_of_stateful_operators() {
    // the last run of the group-by reaches the merge, and all that the
    // merge holds is emitted
    let mut chain = Generator::groupby(|a: &i32, b: &i32| b >= a)
        .merge(union, |v: &(i32, i32)| *v)
        .map(|v: &(i32, i32)| v.1 - v.0)
        .collect();
    for v in [10, 12, 0, 1] {
        chain.next(v);
    }
    let lengths: Vec<i32> = chain.finalize();
    assert_eq!(lengths, vec![1, 2]);
}

#[test]
fn split_counts_each_key() {
    let stream = [7u32, 7, 2, 9, 7, 2, 0];
    let mut split = Generator::split(|a: &u32| *a, |_| Generator::count());
    for a in stream {
        split.next(a);
    }
    let parts = split.finalize();
    assert_eq!(parts.len(), 4);
    for (key, n) in parts.iter() {
        assert_eq!(*n, stream.iter().filter(|a| *a == key).count());
    }
    assert_eq!(parts.get(&7), Some(&3));
    assert_eq!(parts.get(&1), None);
}
