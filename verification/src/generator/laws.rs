//! What the stateful operators make of a whole stream.

use super::adapter::{
    adapts_all,
    emitted,
    finalizes_all,
    lemma_adapts_all_first,
    lemma_finalizes_all_first,
    AdaptFnTrait,
    AdapterTrait,
    Signal,
};
use super::adapter::NilAdapter;
use super::groupby::{emits_single, first_hit, no_hit, GroupBy, GroupByState, Merge};
use super::reducer::{bucket_step, drains_to, pushes, Fold, Reducer, ReducerTrait, Split};
use std::collections::BTreeMap;
use std::ops::ControlFlow;
use vstd::pervasive::cloned;
use vstd::prelude::*;

verus! {

/// The closure `f` computes the relation `rel`.
pub open spec fn computes_relation<T, F: Fn(&T, &T) -> bool>(f: F, rel: spec_fn(T, T) -> bool) -> bool {
    forall|a: T, b: T, r: bool| #[trigger] call_ensures(f, (&a, &b), r) ==> r == rel(a, b)
}

/// `rel` holds of `v` with itself.
pub open spec fn holds_of_itself<T>(rel: spec_fn(T, T) -> bool, v: T) -> bool {
    rel(v, v)
}

/// `rel` holds of every value with itself.
pub open spec fn reflexive<T>(rel: spec_fn(T, T) -> bool) -> bool {
    forall|v: T| #[trigger] holds_of_itself(rel, v)
}

/// A clone of a `T` is equal to what it was cloned from.
pub open spec fn clones_equal<T: Clone>() -> bool {
    forall|a: T, b: T| #[trigger] cloned(a, b) ==> a == b
}

/// The end of the maximal run of `s` that starts at the index `i`: `rel`
/// holds of every value from `i` to the end and the next one, and not of
/// the value at the end and the one behind it.
pub open spec fn run_end<T>(rel: spec_fn(T, T) -> bool, s: Seq<T>, i: int) -> int
    decreases s.len() - i,
{
    if 0 <= i && i + 1 < s.len() && rel(s[i], s[i + 1]) {
        run_end(rel, s, i + 1)
    } else {
        i
    }
}

/// The maximal runs of `s` from the index `i` on, each as the indices of its
/// first and its last value: every index from `i` on lies in exactly one of
/// them.
pub open spec fn runs_from<T>(rel: spec_fn(T, T) -> bool, s: Seq<T>, i: int) -> Seq<(int, int)>
    decreases s.len() - i,
{
    if 0 <= i < s.len() {
        if i <= run_end(rel, s, i) < s.len() {
            seq![(i, run_end(rel, s, i))] + runs_from(rel, s, run_end(rel, s, i) + 1)
        } else {
            Seq::empty()
        }
    } else {
        Seq::empty()
    }
}

/// A run is emitted unless it is a single value of which `rel` does not
/// hold with itself.
pub open spec fn is_emitted<T>(rel: spec_fn(T, T) -> bool, s: Seq<T>, run: (int, int)) -> bool {
    run.0 < run.1 || rel(s[run.0], s[run.0])
}

/// The groups that are emitted for the runs `runs` of `s`: the first and
/// the last value of each run that is emitted.
pub open spec fn groups_of<T>(rel: spec_fn(T, T) -> bool, s: Seq<T>, runs: Seq<(int, int)>) -> Seq<
    (T, T),
>
    decreases runs.len(),
{
    if runs.len() == 0 {
        Seq::empty()
    } else if is_emitted(rel, s, runs[0]) {
        seq![(s[runs[0].0], s[runs[0].1])] + groups_of(rel, s, runs.drop_first())
    } else {
        groups_of(rel, s, runs.drop_first())
    }
}

/// A maximal run ends at or behind its start and within the sequence.
pub proof fn lemma_run_end_bounds<T>(rel: spec_fn(T, T) -> bool, s: Seq<T>, i: int)
    requires
        0 <= i < s.len(),
    ensures
        i <= run_end(rel, s, i) < s.len(),
    decreases s.len() - i,
{
    if i + 1 < s.len() && rel(s[i], s[i + 1]) {
        lemma_run_end_bounds(rel, s, i + 1);
    }
}

/// Group-by completeness: the maximal runs are laid end to end from the
/// index `i` to the end of the stream, so that every index from `i` on lies
/// in exactly one of them; within a run `rel` holds of every value and the
/// next one, and it does not hold of the last value of a run and the first
/// of the next run.
pub proof fn lemma_runs_partition<T>(rel: spec_fn(T, T) -> bool, s: Seq<T>, i: int)
    requires
        0 <= i <= s.len(),
    ensures
        ({
            let runs = runs_from(rel, s, i);
            &&& i < s.len() ==> runs.len() > 0 && runs[0].0 == i && runs.last().1 == s.len() - 1
            &&& i == s.len() ==> runs.len() == 0
            &&& forall|k: int|
                0 <= k < runs.len() ==> i <= (#[trigger] runs[k]).0 <= runs[k].1 < s.len()
            &&& forall|k: int|
                0 <= k < runs.len() - 1 ==> (#[trigger] runs[k]).1 + 1 == runs[k + 1].0 && !rel(
                    s[runs[k].1],
                    s[runs[k + 1].0],
                )
            &&& forall|k: int, j: int|
                0 <= k < runs.len() && (#[trigger] runs[k]).0 <= j < runs[k].1 ==> rel(
                    s[j],
                    #[trigger] s[j + 1],
                )
        }),
    decreases s.len() - i,
{
    if i < s.len() {
        let e = run_end(rel, s, i);
        lemma_run_end_bounds(rel, s, i);
        lemma_run_holds(rel, s, i);
        lemma_runs_partition(rel, s, e + 1);
        let runs = runs_from(rel, s, i);
        let rest = runs_from(rel, s, e + 1);
        assert(runs =~= seq![(i, e)] + rest);
        assert forall|k: int| 0 <= k < runs.len() - 1 implies (#[trigger] runs[k]).1 + 1 == runs[k
            + 1].0 && !rel(s[runs[k].1], s[runs[k + 1].0]) by {
            if k > 0 {
                assert(runs[k] == rest[k - 1]);
                assert(runs[k + 1] == rest[k]);
            } else {
                assert(runs[1] == rest[0]);
            }
        }
        assert forall|k: int, j: int|
            0 <= k < runs.len() && (#[trigger] runs[k]).0 <= j < runs[k].1 implies rel(
            s[j],
            #[trigger] s[j + 1],
        ) by {
            if k > 0 {
                assert(runs[k] == rest[k - 1]);
            }
        }
        assert forall|k: int| 0 <= k < runs.len() implies i <= (#[trigger] runs[k]).0 <= runs[k].1
            < s.len() by {
            if k > 0 {
                assert(runs[k] == rest[k - 1]);
            }
        }
        if e + 1 < s.len() {
            assert(runs.last() == rest.last());
        }
    }
}

/// Within a maximal run `rel` holds of every value and the next one, and it
/// does not hold of the last value and the one behind it.
pub proof fn lemma_run_holds<T>(rel: spec_fn(T, T) -> bool, s: Seq<T>, i: int)
    requires
        0 <= i < s.len(),
    ensures
        forall|j: int| i <= j < run_end(rel, s, i) ==> rel(s[j], #[trigger] s[j + 1]),
        run_end(rel, s, i) + 1 < s.len() ==> !rel(
            s[run_end(rel, s, i)],
            s[run_end(rel, s, i) + 1],
        ),
        forall|j: int| i <= j <= run_end(rel, s, i) ==> run_end(rel, s, j) == run_end(rel, s, i),
    decreases s.len() - i,
{
    if i + 1 < s.len() && rel(s[i], s[i + 1]) {
        lemma_run_holds(rel, s, i + 1);
        lemma_run_end_bounds(rel, s, i + 1);
    }
}

/// The state in which a `GroupBy` is when it has read `s` up to the index
/// `j` and the run that it is reading started at the index `i`.
pub open spec fn reading<T: Clone>(s: Seq<T>, i: int, j: int) -> GroupByState<T> {
    if i == j {
        GroupByState::Consumed(s[i])
    } else {
        GroupByState::Lazy((s[i], s[j]))
    }
}

/// What a `GroupBy` emits for the values of `s` behind the index `j`, and
/// when it is then finalized, after it has read a run from the index `i` to
/// `j`: the groups of the maximal runs from `i` on.
pub proof fn lemma_groupby_from<T: Clone, F: Fn(&T, &T) -> bool>(
    rel: spec_fn(T, T) -> bool,
    s: Seq<T>,
    i: int,
    j: int,
    g: GroupBy<T, F>,
    mid: GroupBy<T, F>,
    end: GroupBy<T, F>,
    outs: Seq<(T, T)>,
    last: Seq<(T, T)>,
)
    requires
        computes_relation(g.0, rel),
        clones_equal::<T>(),
        0 <= i <= j < s.len(),
        run_end(rel, s, i) == run_end(rel, s, j),
        g.1 == reading(s, i, j),
        adapts_all(g, s.skip(j + 1), mid, outs),
        finalizes_all(mid, end, last),
    ensures
        outs + last == groups_of(rel, s, runs_from(rel, s, i)),
        end.1 is Empty,
    decreases s.len() - j,
{
    let items = s.skip(j + 1);
    lemma_run_end_bounds(rel, s, i);
    lemma_run_end_bounds(rel, s, j);
    if items.len() == 0 {
        assert(run_end(rel, s, j) == j);
        assert(runs_from(rel, s, j + 1) =~= Seq::<(int, int)>::empty());
        assert(runs_from(rel, s, i) =~= seq![(i, j)]);
        assert(runs_from(rel, s, i).drop_first() =~= Seq::<(int, int)>::empty());
        lemma_groupby_flush(rel, s, i, j, mid, end, last);
        assert(outs + last =~= last);
    } else {
        let x = s[j + 1];
        assert(items[0] == x);
        assert(items.drop_first() =~= s.skip(j + 2));
        let (next, sig, rest) = lemma_adapts_all_first(g, items, mid, outs);
        if rel(s[j], x) {
            assert(run_end(rel, s, j) == run_end(rel, s, j + 1));
            assert(next.1 == reading(s, i, j + 1));
            assert(emitted(sig) =~= Seq::<(T, T)>::empty());
            lemma_groupby_from(rel, s, i, j + 1, next, mid, end, rest, last);
            assert(outs + last =~= rest + last);
        } else {
            assert(run_end(rel, s, j) == j);
            assert(next.1 == reading(s, j + 1, j + 1));
            lemma_groupby_from(rel, s, j + 1, j + 1, next, mid, end, rest, last);
            let runs = runs_from(rel, s, i);
            assert(runs =~= seq![(i, j)] + runs_from(rel, s, j + 1));
            assert(runs.drop_first() =~= runs_from(rel, s, j + 1));
            if is_emitted(rel, s, (i, j)) {
                assert(emitted(sig) =~= seq![(s[i], s[j])]);
            } else {
                assert(emitted(sig) =~= Seq::<(T, T)>::empty());
            }
            assert(outs + last =~= emitted(sig) + (rest + last));
        }
    }
}

/// What a `GroupBy` emits when it is finalized after it has read a run from
/// the index `i` to `j`: the group of that run, if the run is emitted.
pub proof fn lemma_groupby_flush<T: Clone, F: Fn(&T, &T) -> bool>(
    rel: spec_fn(T, T) -> bool,
    s: Seq<T>,
    i: int,
    j: int,
    g: GroupBy<T, F>,
    end: GroupBy<T, F>,
    last: Seq<(T, T)>,
)
    requires
        computes_relation(g.0, rel),
        clones_equal::<T>(),
        0 <= i <= j < s.len(),
        g.1 == reading(s, i, j),
        finalizes_all(g, end, last),
    ensures
        last == groups_of(rel, s, seq![(i, j)]),
        end.1 is Empty,
{
    let (mid, sig, rest) = lemma_finalizes_all_first(g, end, last);
    assert(seq![(i, j)].drop_first() =~= Seq::<(int, int)>::empty());
    assert(groups_of(rel, s, seq![(i, j)].drop_first()) =~= Seq::<(T, T)>::empty());
    if sig is Break {
        assert(last =~= Seq::<(T, T)>::empty());
    } else {
        lemma_groupby_empty(mid, end, rest);
        assert(last =~= emitted(sig));
    }
}

/// A `GroupBy` that holds nothing emits nothing when it is finalized.
pub proof fn lemma_groupby_empty<T: Clone, F: Fn(&T, &T) -> bool>(
    g: GroupBy<T, F>,
    end: GroupBy<T, F>,
    last: Seq<(T, T)>,
)
    requires
        g.1 is Empty,
        finalizes_all(g, end, last),
    ensures
        last.len() == 0,
        end.1 is Empty,
{
    let (mid, sig, rest) = lemma_finalizes_all_first(g, end, last);
}

/// Group-by completeness: a new `GroupBy` to which the stream `s` is handed
/// and which is then finalized emits, in their order, the first and the last
/// value of each maximal run of `s`, the runs left out that are a single
/// value of which the relation does not hold with itself. By
/// `lemma_runs_partition` every value of the stream lies in exactly one of
/// those runs, and for a relation that holds of every value with itself
/// every run is emitted.
pub proof fn lemma_groupby_complete<T: Clone, F: Fn(&T, &T) -> bool>(
    rel: spec_fn(T, T) -> bool,
    s: Seq<T>,
    g: GroupBy<T, F>,
    mid: GroupBy<T, F>,
    end: GroupBy<T, F>,
    outs: Seq<(T, T)>,
    last: Seq<(T, T)>,
)
    requires
        computes_relation(g.0, rel),
        clones_equal::<T>(),
        g.1 is Empty,
        adapts_all(g, s, mid, outs),
        finalizes_all(mid, end, last),
    ensures
        outs + last == groups_of(rel, s, runs_from(rel, s, 0)),
        reflexive(rel) ==> forall|k: int|
            0 <= k < runs_from(rel, s, 0).len() ==> is_emitted(
                rel,
                s,
                #[trigger] runs_from(rel, s, 0)[k],
            ),
{
    if reflexive(rel) {
        assert forall|k: int| 0 <= k < runs_from(rel, s, 0).len() implies is_emitted(
            rel,
            s,
            #[trigger] runs_from(rel, s, 0)[k],
        ) by {
            lemma_runs_partition(rel, s, 0);
            assert(holds_of_itself(rel, s[runs_from(rel, s, 0)[k].0]));
        }
    }
    if s.len() == 0 {
        lemma_groupby_empty(mid, end, last);
        assert(outs + last =~= Seq::<(T, T)>::empty());
    } else {
        let (next, sig, rest) = lemma_adapts_all_first(g, s, mid, outs);
        assert(s.drop_first() =~= s.skip(1));
        assert(emitted(sig) =~= Seq::<(T, T)>::empty());
        lemma_groupby_from(rel, s, 0, 0, next, mid, end, rest, last);
        assert(outs + last =~= rest + last);
    }
}

/// The sum of the values of a finite map.
pub open spec fn total<K>(m: Map<K, nat>) -> nat
    decreases m.dom().len(),
    when m.dom().finite()
{
    if m.dom().len() == 0 {
        0
    } else {
        let k = m.dom().choose();
        m[k] + total(m.remove(k))
    }
}

/// The sum of the values of a map is the value under one of its keys and
/// the sum of the others.
pub proof fn lemma_total_take<K>(m: Map<K, nat>, k: K)
    requires
        m.dom().finite(),
        m.contains_key(k),
    ensures
        total(m) == m[k] + total(m.remove(k)),
    decreases m.dom().len(),
{
    let c = m.dom().choose();
    if c != k {
        lemma_total_take(m.remove(c), k);
        lemma_total_take(m.remove(k), c);
        assert(m.remove(c).remove(k) =~= m.remove(k).remove(c));
    }
}

/// The sum of the values of a map in which the value under `k` is set.
pub proof fn lemma_total_insert<K>(m: Map<K, nat>, k: K, v: nat)
    requires
        m.dom().finite(),
    ensures
        total(m.insert(k, v)) == v + total(m.remove(k)),
{
    lemma_total_take(m.insert(k, v), k);
    assert(m.insert(k, v).remove(k) =~= m.remove(k));
}

/// The closure `f` is the step of a count: it adds one.
pub open spec fn counts_up<I, F: Fn(usize, I) -> usize>(f: F) -> bool {
    forall|acc: usize, next: I, sum: usize| #[trigger]
        call_ensures(f, (acc, next), sum) ==> sum == acc + 1
}

/// The closure `redfn` makes a new count for every key.
pub open spec fn makes_counts<Key, I, F: Fn(usize, I) -> usize, RedFn: Fn(&Key) -> Reducer<
    Fold<usize, F, I>,
    NilAdapter<I>,
>>(redfn: RedFn) -> bool {
    forall|k: Key, fresh: Reducer<Fold<usize, F, I>, NilAdapter<I>>| #[trigger]
        call_ensures(redfn, (&k,), fresh) ==> fresh.0.0 == 0 && counts_up(fresh.0.1)
}

/// Every reducer of the map is a count.
pub open spec fn all_count<Key, I, F: Fn(usize, I) -> usize>(
    m: Map<Key, Reducer<Fold<usize, F, I>, NilAdapter<I>>>,
) -> bool {
    forall|k: Key| #[trigger] m.contains_key(k) ==> counts_up(m[k].0.1)
}

/// What the counts of the map have counted.
pub open spec fn counted<Key, I, F: Fn(usize, I) -> usize>(
    m: Map<Key, Reducer<Fold<usize, F, I>, NilAdapter<I>>>,
) -> Map<Key, nat> {
    m.map_values(|c: Reducer<Fold<usize, F, I>, NilAdapter<I>>| c.0.0 as nat)
}

/// A count that takes a value has counted one more.
pub proof fn lemma_count_step<I, F: Fn(usize, I) -> usize>(
    c: Reducer<Fold<usize, F, I>, NilAdapter<I>>,
    next: I,
    after: Reducer<Fold<usize, F, I>, NilAdapter<I>>,
)
    requires
        counts_up(c.0.1),
        c.step(next, after),
    ensures
        after.0.0 == c.0.0 + 1,
        after.0.1 == c.0.1,
{
    let mid = choose|mid: Signal<I>| #[trigger]
        c.1.adapts(next, after.1, mid) && match mid {
            ControlFlow::Continue(Some(v)) => c.0.step(v, after.0),
            _ => after.0 == c.0,
        };
    let acc = choose|acc: usize| #[trigger]
        cloned(c.0.0, acc) && call_ensures(c.0.1, (acc, next), after.0.0);
}

/// A count gives what it has counted.
pub proof fn lemma_count_reduces<I, F: Fn(usize, I) -> usize>(
    c: Reducer<Fold<usize, F, I>, NilAdapter<I>>,
    n: usize,
)
    requires
        c.reduces(n),
    ensures
        n == c.0.0,
{
    let end = choose|end: Fold<usize, F, I>| #[trigger]
        drains_to(c.0, c.1, end) && end.reduces(n);
    let (a, out) = choose|a: NilAdapter<I>, out: Signal<I>| #[trigger]
        c.1.finalizes(a, out) && match out {
            ControlFlow::Break(_) => end == c.0,
            ControlFlow::Continue(None) => a.pending() < c.1.pending() && drains_to(c.0, a, end),
            ControlFlow::Continue(Some(v)) => a.pending() < c.1.pending() && exists|r: Fold<
                usize,
                F,
                I,
            >| #[trigger] c.0.step(v, r) && drains_to(r, a, end),
        };
}

/// A count to which a stream is pushed gives the length of the stream.
pub proof fn lemma_count_total<I, F: Fn(usize, I) -> usize>(
    start: Reducer<Fold<usize, F, I>, NilAdapter<I>>,
    items: Seq<I>,
    end: Reducer<Fold<usize, F, I>, NilAdapter<I>>,
    n: usize,
)
    requires
        counts_up(start.0.1),
        pushes(start, items, end),
        end.reduces(n),
    ensures
        n == start.0.0 + items.len(),
    decreases items.len(),
{
    if items.len() == 0 {
        lemma_count_reduces(end, n);
    } else {
        let mid = choose|mid: Reducer<Fold<usize, F, I>, NilAdapter<I>>| #[trigger]
            start.step(items[0], mid) && pushes(mid, items.drop_first(), end);
        lemma_count_step(start, items[0], mid);
        lemma_count_total(mid, items.drop_first(), end, n);
    }
}

/// What the counts of a split have counted after a stream, in sum: what
/// they had counted before, and the length of the stream.
pub proof fn lemma_split_counts<RedFn, KeyFn, I, Key, F>(
    start: Split<RedFn, KeyFn, I, usize, Key, Reducer<Fold<usize, F, I>, NilAdapter<I>>>,
    items: Seq<I>,
    end: Split<RedFn, KeyFn, I, usize, Key, Reducer<Fold<usize, F, I>, NilAdapter<I>>>,
) where
    KeyFn: Fn(&I) -> Key,
    RedFn: Fn(&Key) -> Reducer<Fold<usize, F, I>, NilAdapter<I>>,
    I: Clone,
    Key: Ord + Clone,
    F: Fn(usize, I) -> usize,

    requires
        makes_counts(start.1),
        all_count(start.2@),
        start.2@.dom().finite(),
        pushes(start, items, end),
    ensures
        all_count(end.2@),
        end.2@.dom().finite(),
        total(counted(end.2@)) == total(counted(start.2@)) + items.len(),
    decreases items.len(),
{
    if items.len() > 0 {
        let mid = choose|
            mid: Split<RedFn, KeyFn, I, usize, Key, Reducer<Fold<usize, F, I>, NilAdapter<I>>>,
        | #[trigger]
            start.step(items[0], mid) && pushes(mid, items.drop_first(), end);
        let (k, red) = choose|k: Key, red: Reducer<Fold<usize, F, I>, NilAdapter<I>>|
            {
                &&& #[trigger] call_ensures(start.0, (&items[0],), k)
                &&& #[trigger] bucket_step(start.1, start.2@, k, items[0], red)
                &&& mid.2@ == start.2@.insert(k, red)
            };
        let before = counted(start.2@);
        assert(before.dom() =~= start.2@.dom());
        if start.2@.contains_key(k) {
            lemma_count_step(start.2@[k], items[0], red);
            lemma_total_take(before, k);
        } else {
            let fresh = choose|fresh: Reducer<Fold<usize, F, I>, NilAdapter<I>>| #[trigger]
                call_ensures(start.1, (&k,), fresh) && fresh.step(items[0], red);
            lemma_count_step(fresh, items[0], red);
            assert(before.remove(k) =~= before);
        }
        lemma_total_insert(before, k, red.0.0 as nat);
        assert(counted(mid.2@) =~= before.insert(k, red.0.0 as nat));
        lemma_split_counts(mid, items.drop_first(), end);
    }
}

/// Split and count: the counts that a new split gives for the keys of a
/// stream sum up to the length of the stream, which is what a count of the
/// same stream gives (`lemma_count_total`).
pub proof fn lemma_split_count_total<RedFn, KeyFn, I, Key, F>(
    start: Split<RedFn, KeyFn, I, usize, Key, Reducer<Fold<usize, F, I>, NilAdapter<I>>>,
    items: Seq<I>,
    end: Split<RedFn, KeyFn, I, usize, Key, Reducer<Fold<usize, F, I>, NilAdapter<I>>>,
    result: BTreeMap<Key, usize>,
) where
    KeyFn: Fn(&I) -> Key,
    RedFn: Fn(&Key) -> Reducer<Fold<usize, F, I>, NilAdapter<I>>,
    I: Clone,
    Key: Ord + Clone,
    F: Fn(usize, I) -> usize,

    requires
        makes_counts(start.1),
        start.2@ == Map::<Key, Reducer<Fold<usize, F, I>, NilAdapter<I>>>::empty(),
        pushes(start, items, end),
        end.reduces(result),
    ensures
        total(result@.map_values(|n: usize| n as nat)) == items.len(),
{
    lemma_split_counts(start, items, end);
    assert(counted(start.2@).dom() =~= Set::<Key>::empty());
    assert forall|k: Key| #[trigger] end.2@.contains_key(k) implies result@[k] == end.2@[k].0.0 by {
        lemma_count_reduces(end.2@[k], result@[k]);
    }
    assert(result@.map_values(|n: usize| n as nat) =~= counted(end.2@));
}

/// The closure `keyfn` computes the key `key`.
pub open spec fn computes_key<T, Key, KeyFn: Fn(&T) -> Key>(keyfn: KeyFn, key: spec_fn(T) -> Key) -> bool {
    forall|v: T, k: Key| #[trigger] call_ensures(keyfn, (&v,), k) ==> k == key(v)
}

/// The number of the values of `items` that have the key `k`.
pub open spec fn count_of_key<T, Key>(key: spec_fn(T) -> Key, items: Seq<T>, k: Key) -> nat
    decreases items.len(),
{
    if items.len() == 0 {
        0
    } else if key(items[0]) == k {
        1 + count_of_key(key, items.drop_first(), k)
    } else {
        count_of_key(key, items.drop_first(), k)
    }
}

/// A value of `items` has the key `k`.
pub open spec fn has_key_in<T, Key>(key: spec_fn(T) -> Key, items: Seq<T>, k: Key) -> bool {
    count_of_key(key, items, k) > 0
}

/// What the count of the key `k` has counted, where the key has one.
pub open spec fn counted_of<Key, I, F: Fn(usize, I) -> usize>(
    m: Map<Key, Reducer<Fold<usize, F, I>, NilAdapter<I>>>,
    k: Key,
) -> nat {
    if m.contains_key(k) {
        m[k].0.0 as nat
    } else {
        0
    }
}

/// What the counts of a split have counted after a stream, key by key: a
/// key has a count where it had one before or a value of the stream has
/// the key, and its count has counted what it had counted before and the
/// values of the stream that have the key.
pub proof fn lemma_split_counts_by_key<RedFn, KeyFn, I, Key, F>(
    start: Split<RedFn, KeyFn, I, usize, Key, Reducer<Fold<usize, F, I>, NilAdapter<I>>>,
    key: spec_fn(I) -> Key,
    items: Seq<I>,
    end: Split<RedFn, KeyFn, I, usize, Key, Reducer<Fold<usize, F, I>, NilAdapter<I>>>,
) where
    KeyFn: Fn(&I) -> Key,
    RedFn: Fn(&Key) -> Reducer<Fold<usize, F, I>, NilAdapter<I>>,
    I: Clone,
    Key: Ord + Clone,
    F: Fn(usize, I) -> usize,

    requires
        computes_key(start.0, key),
        makes_counts(start.1),
        all_count(start.2@),
        pushes(start, items, end),
    ensures
        all_count(end.2@),
        forall|k: Key|
            #![trigger has_key_in(key, items, k)]
            end.2@.contains_key(k) <==> (start.2@.contains_key(k) || has_key_in(key, items, k)),
        forall|k: Key|
            counted_of(end.2@, k) == counted_of(start.2@, k) + #[trigger] count_of_key(
                key,
                items,
                k,
            ),
    decreases items.len(),
{
    if items.len() > 0 {
        let mid = choose|
            mid: Split<RedFn, KeyFn, I, usize, Key, Reducer<Fold<usize, F, I>, NilAdapter<I>>>,
        | #[trigger]
            start.step(items[0], mid) && pushes(mid, items.drop_first(), end);
        let (k0, red) = choose|k: Key, red: Reducer<Fold<usize, F, I>, NilAdapter<I>>|
            {
                &&& #[trigger] call_ensures(start.0, (&items[0],), k)
                &&& #[trigger] bucket_step(start.1, start.2@, k, items[0], red)
                &&& mid.2@ == start.2@.insert(k, red)
            };
        assert(k0 == key(items[0]));
        if start.2@.contains_key(k0) {
            lemma_count_step(start.2@[k0], items[0], red);
        } else {
            let fresh = choose|fresh: Reducer<Fold<usize, F, I>, NilAdapter<I>>| #[trigger]
                call_ensures(start.1, (&k0,), fresh) && fresh.step(items[0], red);
            lemma_count_step(fresh, items[0], red);
        }
        lemma_split_counts_by_key(mid, key, items.drop_first(), end);
        assert forall|k: Key|
            counted_of(end.2@, k) == counted_of(start.2@, k) + #[trigger] count_of_key(
                key,
                items,
                k,
            ) by {
            assert(counted_of(end.2@, k) == counted_of(mid.2@, k) + count_of_key(
                key,
                items.drop_first(),
                k,
            ));
        }
        assert forall|k: Key|
            #![trigger has_key_in(key, items, k)]
            end.2@.contains_key(k) <==> (start.2@.contains_key(k) || has_key_in(key, items, k)) by {
            let earlier = has_key_in(key, items.drop_first(), k);
            assert(end.2@.contains_key(k) <==> (mid.2@.contains_key(k) || earlier));
        }
    }
}

/// Split and count, key by key: the result of a new split of counts has
/// the keys of the values of the stream, and under each key the number of
/// the values that have it.
pub proof fn lemma_split_count_by_key<RedFn, KeyFn, I, Key, F>(
    start: Split<RedFn, KeyFn, I, usize, Key, Reducer<Fold<usize, F, I>, NilAdapter<I>>>,
    key: spec_fn(I) -> Key,
    items: Seq<I>,
    end: Split<RedFn, KeyFn, I, usize, Key, Reducer<Fold<usize, F, I>, NilAdapter<I>>>,
    result: BTreeMap<Key, usize>,
) where
    KeyFn: Fn(&I) -> Key,
    RedFn: Fn(&Key) -> Reducer<Fold<usize, F, I>, NilAdapter<I>>,
    I: Clone,
    Key: Ord + Clone,
    F: Fn(usize, I) -> usize,

    requires
        computes_key(start.0, key),
        makes_counts(start.1),
        start.2@ == Map::<Key, Reducer<Fold<usize, F, I>, NilAdapter<I>>>::empty(),
        pushes(start, items, end),
        end.reduces(result),
    ensures
        forall|k: Key| result@.contains_key(k) <==> #[trigger] has_key_in(key, items, k),
        forall|k: Key|
            result@.contains_key(k) ==> result@[k] == #[trigger] count_of_key(key, items, k),
{
    lemma_split_counts_by_key(start, key, items, end);
    assert forall|k: Key| result@.contains_key(k) implies result@[k] == #[trigger] count_of_key(
        key,
        items,
        k,
    ) by {
        assert(end.2@.contains_key(k));
        lemma_count_reduces(end.2@[k], result@[k]);
        assert(counted_of(end.2@, k) == counted_of(start.2@, k) + count_of_key(key, items, k));
    }
    assert forall|k: Key| result@.contains_key(k) <==> #[trigger] has_key_in(key, items, k) by {
        assert(end.2@.contains_key(k) <==> start.2@.contains_key(k) || has_key_in(key, items, k));
    }
}

/// The closure `f` unites `a` with `b`.
pub open spec fn unites<T, F: Fn(&T, &T) -> Option<T>>(f: F, a: T, b: T) -> bool {
    exists|r: Option<T>| #[trigger] call_ensures(f, (&a, &b), r) && r is Some
}

/// The closure `f` unites none of the entries of `m`, and none of `items`,
/// with one of `items` that comes later.
pub open spec fn apart<T, Key, F: Fn(&T, &T) -> Option<T>>(
    f: F,
    m: Map<Key, T>,
    items: Seq<T>,
) -> bool {
    &&& forall|k: Key, j: int|
        m.contains_key(k) && 0 <= j < items.len() ==> !#[trigger] unites(f, m[k], items[j])
    &&& forall|i: int, j: int| 0 <= i < j < items.len() ==> !#[trigger] unites(f, items[i], items[j])
}

/// The map `m` with `items` set under their keys, one after the other.
pub open spec fn set_all<T, Key>(m: Map<Key, T>, key: spec_fn(T) -> Key, items: Seq<T>) -> Map<
    Key,
    T,
>
    decreases items.len(),
{
    if items.len() == 0 {
        m
    } else {
        set_all(m.insert(key(items[0]), items[0]), key, items.drop_first())
    }
}

/// A merge that takes values of which it unites none holds all of them
/// under their keys, and emits nothing before it is finalized.
pub proof fn lemma_merge_apart<T, F, KeyFn, Key>(
    key: spec_fn(T) -> Key,
    start: Merge<T, F, KeyFn, Key>,
    items: Seq<T>,
    end: Merge<T, F, KeyFn, Key>,
    outs: Seq<T>,
) where KeyFn: Fn(&T) -> Key, F: Fn(&T, &T) -> Option<T>, T: Clone, Key: Ord + Clone
    requires
        computes_key(start.1, key),
        apart(start.0, start.2@, items),
        adapts_all(start, items, end, outs),
    ensures
        end.2@ == set_all(start.2@, key, items),
        outs.len() == 0,
        end.3 == start.3,
    decreases items.len(),
{
    if items.len() > 0 {
        let (mid, sig, rest) = lemma_adapts_all_first(start, items, end, outs);
        let next = items[0];
        if exists|k: Key, val: T| first_hit(start.0, start.2@, next, k, val) {
            let (k, val) = choose|k: Key, val: T| first_hit(start.0, start.2@, next, k, val);
            assert(unites(start.0, start.2@[k], items[0]));
        }
        assert(mid.2@ == start.2@.insert(key(next), next));
        assert forall|k: Key, j: int|
            mid.2@.contains_key(k) && 0 <= j < items.drop_first().len() implies !#[trigger] unites(
            mid.0,
            mid.2@[k],
            items.drop_first()[j],
        ) by {
            assert(items.drop_first()[j] == items[j + 1]);
            if k == key(next) {
                assert(!unites(start.0, items[0], items[j + 1]));
            } else {
                assert(!unites(start.0, start.2@[k], items[j + 1]));
            }
        }
        assert forall|i: int, j: int| 0 <= i < j < items.drop_first().len() implies !#[trigger] unites(
            mid.0,
            items.drop_first()[i],
            items.drop_first()[j],
        ) by {
            assert(!unites(start.0, items[i + 1], items[j + 1]));
        }
        lemma_merge_apart(key, mid, items.drop_first(), end, rest);
        assert(outs =~= rest);
    }
}

/// The key of the value at the index `i` of `items`.
pub open spec fn key_at<T, Key>(key: spec_fn(T) -> Key, items: Seq<T>, i: int) -> Key {
    key(items[i])
}

/// One of `items` has the key `k`.
pub open spec fn has_key<T, Key>(key: spec_fn(T) -> Key, items: Seq<T>, k: Key) -> bool {
    exists|i: int| 0 <= i < items.len() && #[trigger] key_at(key, items, i) == k
}

/// No two of `items` have the same key.
pub open spec fn keys_differ<T, Key>(key: spec_fn(T) -> Key, items: Seq<T>) -> bool {
    forall|i: int, j: int|
        0 <= i < j < items.len() ==> #[trigger] key_at(key, items, i) != #[trigger] key_at(
            key,
            items,
            j,
        )
}

/// What `set_all` holds: the values of `items` under their keys, where no
/// two of them have the same key, and the entries of `m` under the other
/// keys.
pub proof fn lemma_set_all<T, Key>(m: Map<Key, T>, key: spec_fn(T) -> Key, items: Seq<T>)
    requires
        keys_differ(key, items),
    ensures
        forall|i: int|
            0 <= i < items.len() ==> set_all(m, key, items).contains_key(
                #[trigger] key_at(key, items, i),
            ) && set_all(m, key, items)[key_at(key, items, i)] == items[i],
        forall|k: Key| #[trigger]
            set_all(m, key, items).contains_key(k) ==> m.contains_key(k) || has_key(key, items, k),
        forall|k: Key|
            m.contains_key(k) && !has_key(key, items, k) ==> #[trigger] set_all(
                m,
                key,
                items,
            ).contains_key(k) && set_all(m, key, items)[k] == m[k],
    decreases items.len(),
{
    if items.len() > 0 {
        let rest = items.drop_first();
        let m1 = m.insert(key(items[0]), items[0]);
        assert forall|i: int| 0 <= i < rest.len() implies #[trigger] key_at(key, rest, i) == key_at(
            key,
            items,
            i + 1,
        ) by {}
        assert forall|i: int, j: int| 0 <= i < j < rest.len() implies #[trigger] key_at(
            key,
            rest,
            i,
        ) != #[trigger] key_at(key, rest, j) by {
            assert(key_at(key, items, i + 1) != key_at(key, items, j + 1));
        }
        lemma_set_all(m1, key, rest);
        let all = set_all(m, key, items);
        assert(all == set_all(m1, key, rest));
        assert(!has_key(key, rest, key(items[0]))) by {
            if has_key(key, rest, key(items[0])) {
                let j = choose|j: int| 0 <= j < rest.len() && #[trigger] key_at(key, rest, j) == key(
                    items[0],
                );
                assert(key_at(key, items, 0) != key_at(key, items, j + 1));
            }
        }
        assert forall|i: int| 0 <= i < items.len() implies all.contains_key(
            #[trigger] key_at(key, items, i),
        ) && all[key_at(key, items, i)] == items[i] by {
            if i > 0 {
                assert(key_at(key, rest, i - 1) == key_at(key, items, i));
                assert(rest[i - 1] == items[i]);
            } else {
                assert(m1.contains_key(key(items[0])));
            }
        }
        assert forall|k: Key| #[trigger] all.contains_key(k) implies m.contains_key(k) || has_key(
            key,
            items,
            k,
        ) by {
            if !m.contains_key(k) {
                if m1.contains_key(k) {
                    assert(key_at(key, items, 0) == k);
                } else {
                    let i = choose|i: int| 0 <= i < rest.len() && #[trigger] key_at(key, rest, i) == k;
                    assert(key_at(key, items, i + 1) == k);
                }
            }
        }
        assert forall|k: Key| m.contains_key(k) && !has_key(key, items, k) implies #[trigger] all.contains_key(
            k,
        ) && all[k] == m[k] by {
            assert(key_at(key, items, 0) != k);
            if has_key(key, rest, k) {
                let i = choose|i: int| 0 <= i < rest.len() && #[trigger] key_at(key, rest, i) == k;
                assert(key_at(key, items, i + 1) == k);
            }
        }
    }
}

/// Merge idempotence, for values that are not united: two new merges with
/// the same closures that take the same values in two orders hold the same
/// map, provided that the closure unites no two of the values and that no
/// two of them have the same key.
pub proof fn lemma_merge_order<T, F, KeyFn, Key>(
    key: spec_fn(T) -> Key,
    one: Merge<T, F, KeyFn, Key>,
    items: Seq<T>,
    end: Merge<T, F, KeyFn, Key>,
    outs: Seq<T>,
    other: Merge<T, F, KeyFn, Key>,
    shuffled: Seq<T>,
    other_end: Merge<T, F, KeyFn, Key>,
    other_outs: Seq<T>,
) where KeyFn: Fn(&T) -> Key, F: Fn(&T, &T) -> Option<T>, T: Clone, Key: Ord + Clone
    requires
        computes_key(one.1, key),
        one.0 == other.0,
        one.1 == other.1,
        one.2@ == Map::<Key, T>::empty(),
        other.2@ == Map::<Key, T>::empty(),
        adapts_all(one, items, end, outs),
        adapts_all(other, shuffled, other_end, other_outs),
        forall|i: int| 0 <= i < items.len() ==> shuffled.contains(#[trigger] items[i]),
        forall|i: int| 0 <= i < shuffled.len() ==> items.contains(#[trigger] shuffled[i]),
        apart(one.0, one.2@, items),
        apart(one.0, one.2@, shuffled),
        keys_differ(key, items),
        keys_differ(key, shuffled),
    ensures
        end.2@ == other_end.2@,
{
    let empty = Map::<Key, T>::empty();
    lemma_merge_apart(key, one, items, end, outs);
    lemma_merge_apart(key, other, shuffled, other_end, other_outs);
    lemma_set_all(empty, key, items);
    lemma_set_all(empty, key, shuffled);
    let m1 = set_all(empty, key, items);
    let m2 = set_all(empty, key, shuffled);
    assert forall|k: Key| m1.contains_key(k) implies m2.contains_key(k) && m2[k] == m1[k] by {
        let i = choose|i: int| 0 <= i < items.len() && #[trigger] key_at(key, items, i) == k;
        assert(shuffled.contains(items[i]));
        let j = choose|j: int| 0 <= j < shuffled.len() && shuffled[j] == items[i];
        assert(m2.contains_key(key_at(key, shuffled, j)));
    }
    assert forall|k: Key| m2.contains_key(k) implies m1.contains_key(k) by {
        let j = choose|j: int| 0 <= j < shuffled.len() && #[trigger] key_at(key, shuffled, j) == k;
        assert(items.contains(shuffled[j]));
        let i = choose|i: int| 0 <= i < items.len() && items[i] == shuffled[j];
        assert(m1.contains_key(key_at(key, items, i)));
    }
    assert(m1 =~= m2);
}

} // verus!
