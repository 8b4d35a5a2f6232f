//! The entry points of a pipeline: each starts a chain, or ends the empty
//! chain in a reducer.

use super::adapter::{
    count_step,
    sum_step,
    Adapter,
    Filter,
    MapFn,
    NilAdapter,
};
use super::groupby::{GroupBy, Merge};
use super::reducer::{Fold, Fork, Reducer, ReducerTrait, Split};
use std::marker::PhantomData;
use std::ops::Add;
use vstd::prelude::*;
use vstd::std_specs::ops::AddSpec;

verus! {

/// The starting point of pipelines over values of type `Input`.
pub struct Generator<Input>(pub PhantomData<Input>);

impl<Input> Generator<Input> {
    /// A reducer that sorts the stream by key into one reducer per key.
    #[inline(always)]
    pub fn split<RedFn, KeyFn, R, Key, Red>(keyfn: KeyFn, reducerfn: RedFn) -> (r: Reducer<
        Split<RedFn, KeyFn, Input, R, Key, Red>,
        NilAdapter<Input>,
    >) where
        KeyFn: Fn(&Input) -> Key,
        RedFn: Fn(&Key) -> Red,
        Input: Clone,
        Key: Ord + Clone,
        Red: ReducerTrait<Input = Input, Reduced = R>,

        ensures
            r.0.0 == keyfn,
            r.0.1 == reducerfn,
            r.0.2@ == Map::<Key, Red>::empty(),
    {
        Reducer::new(Split::new(keyfn, reducerfn), NilAdapter::new())
    }

    /// A reducer that folds the stream with `f`, starting from `init`.
    #[inline(always)]
    pub fn fold<Init, F>(init: Init, f: F) -> (r: Reducer<Fold<Init, F, Input>, NilAdapter<Input>>) where
        F: Fn(Init, Input) -> Init,

        ensures
            r.0.0 == init,
            r.0.1 == f,
    {
        Reducer::new(Fold::new(init, f), NilAdapter::new())
    }

    /// A reducer that counts the stream.
    #[inline(always)]
    pub fn count() -> (r: Reducer<
        Fold<usize, impl Fn(usize, Input) -> usize, Input>,
        NilAdapter<Input>,
    >)
        ensures
            r.0.0 == 0,
            forall|acc: usize, next: Input| acc < usize::MAX ==> call_requires(r.0.1, (acc, next)),
            forall|acc: usize, next: Input, sum: usize|
                call_ensures(r.0.1, (acc, next), sum) ==> sum == acc + 1,
    {
        Generator::fold(0usize, count_step())
    }

    /// A reducer that sums the stream.
    #[inline(always)]
    pub fn sum() -> (r: Reducer<
        Fold<usize, impl Fn(usize, Input) -> usize, Input>,
        NilAdapter<Input>,
    >) where Input: Add<usize, Output = usize> + Clone + Copy
        ensures
            r.0.0 == 0,
            forall|acc: usize, next: Input|
                next.add_req(acc) ==> #[trigger] call_requires(r.0.1, (acc, next)),
            forall|acc: usize, next: Input, sum: usize|
                call_ensures(r.0.1, (acc, next), sum) && Input::obeys_add_spec() ==> sum
                    == next.add_spec(acc),
    {
        Generator::fold(0usize, sum_step())
    }

    /// A reducer that pushes every value to `r1` and to `r2`.
    #[inline(always)]
    pub fn fork<R1, R2>(r1: R1, r2: R2) -> (r: Reducer<Fork<R1, R2, Input>, NilAdapter<Input>>) where
        R1: ReducerTrait<Input = Input>,
        R2: ReducerTrait<Input = Input>,

        ensures
            r.0.0 == r1,
            r.0.1 == r2,
    {
        Reducer::new(Fork::new(r1, r2), NilAdapter::new())
    }

    /// A chain that lets pass the values of which `f` holds.
    #[inline(always)]
    pub fn filter<F>(f: F) -> (r: Adapter<Filter<Input, F>, NilAdapter<Input>>) where
        F: Fn(&Input) -> bool,

        ensures
            r.0.0 == f,
    {
        Adapter::new(Filter::new(f), NilAdapter::new())
    }

    /// A chain that emits `f` of each value.
    #[inline(always)]
    pub fn map<Output, F>(f: F) -> (r: Adapter<MapFn<Input, Output, F>, NilAdapter<Input>>) where
        F: Fn(&Input) -> Output,

        ensures
            r.0.0 == f,
    {
        Adapter::new(MapFn::new(f), NilAdapter::new())
    }

    /// A chain that emits the maximal runs under the relation `f`.
    #[inline(always)]
    pub fn groupby<F>(f: F) -> (r: Adapter<GroupBy<Input, F>, NilAdapter<Input>>) where
        F: Fn(&Input, &Input) -> bool,
        Input: Clone,

        ensures
            r.0.0 == f,
            r.0.1 is Empty,
    {
        Adapter::new(GroupBy::new(f), NilAdapter::new())
    }

    /// A chain that merges the values that `f` unites, ordered by `keyfn`.
    #[inline(always)]
    pub fn merge<F, KeyFn, Key>(f: F, keyfn: KeyFn) -> (r: Adapter<
        Merge<Input, F, KeyFn, Key>,
        NilAdapter<Input>,
    >) where
        KeyFn: Fn(&Input) -> Key,
        F: Fn(&Input, &Input) -> Option<Input>,
        Input: Clone,
        Key: Ord,

        ensures
            r.0.0 == f,
            r.0.1 == keyfn,
            r.0.2@ == Map::<Key, Input>::empty(),
            r.0.3 is None,
    {
        Adapter::new(Merge::new(f, keyfn), NilAdapter::new())
    }
}

} // verus!
