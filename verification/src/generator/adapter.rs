//! Adapters: stateful transformers of a pushed stream.
//!
//! A pushed value travels from the innermost adapter of a chain outwards:
//! `Adapter(op, inner)` first hands the value to `inner` and gives what
//! `inner` emits to `op`.

use super::groupby::{GroupBy, Merge};
use super::reducer::{Fold, Fork, Reducer, ReducerTrait, Split};
use std::marker::PhantomData;
use std::ops::Add;
use std::ops::ControlFlow;
use vstd::prelude::*;
use vstd::std_specs::ops::AddSpec;

verus! {

/// What an adapter answers to one call: `Continue(Some(v))` emits `v`,
/// `Continue(None)` emits nothing now, `Break(())` ends the output.
pub type Signal<T> = ControlFlow<(), Option<T>>;

/// One operator of a chain, such as a map or a filter.
///
/// The contracts are relations between the state before a call, the state
/// after it and the answer, stated over the contracts of the closures that
/// the operator holds.
pub trait AdaptFnTrait: Sized {
    type Input;

    type Output;

    /// What holds of the operator between calls.
    spec fn inv(&self) -> bool;

    /// The values that `adapt` may be given in this state.
    spec fn accepts(&self, next: Self::Input) -> bool;

    /// `adapt(next)` may leave the state `after` and answer `out`.
    spec fn adapts(&self, next: Self::Input, after: Self, out: Signal<Self::Output>) -> bool;

    /// Whether `finalize` may be called in this state.
    spec fn can_finalize(&self) -> bool;

    /// `finalize()` may leave the state `after` and answer `out`.
    spec fn finalizes(&self, after: Self, out: Signal<Self::Output>) -> bool;

    /// A bound on the number of calls of `finalize` that still answer
    /// `Continue`.
    spec fn pending(&self) -> nat;

    fn adapt(&mut self, next: Self::Input) -> (out: Signal<Self::Output>)
        requires
            old(self).inv(),
            old(self).accepts(next),
        ensures
            final(self).inv(),
            old(self).adapts(next, *final(self), out),
            final(self).pending() <= old(self).pending() + 1,
    ;

    fn finalize(&mut self) -> (out: Signal<Self::Output>)
        requires
            old(self).inv(),
            old(self).can_finalize(),
        ensures
            final(self).inv(),
            old(self).finalizes(*final(self), out),
            out is Continue ==> final(self).pending() < old(self).pending(),
            out is Break ==> final(self).pending() <= old(self).pending(),
    ;
}

/// What a signal emits, as a sequence of no value or of one.
pub open spec fn emitted<T>(sig: Signal<T>) -> Seq<T> {
    match sig {
        ControlFlow::Continue(Some(v)) => seq![v],
        _ => Seq::empty(),
    }
}

/// `outs` starts with what `sig` emits.
pub open spec fn starts_with<T>(outs: Seq<T>, sig: Signal<T>) -> bool {
    emitted(sig).len() <= outs.len() && outs.take(emitted(sig).len() as int) == emitted(sig)
}

/// What follows in `outs` behind what `sig` emits.
pub open spec fn behind<T>(outs: Seq<T>, sig: Signal<T>) -> Seq<T> {
    outs.skip(emitted(sig).len() as int)
}

/// Handing `items` in turn to the operator `ad`, which never breaks off,
/// may leave it in the state `after` and make it emit `outs` in turn.
pub open spec fn adapts_all<A: AdaptFnTrait>(
    ad: A,
    items: Seq<A::Input>,
    after: A,
    outs: Seq<A::Output>,
) -> bool
    decreases items.len(),
{
    if items.len() == 0 {
        after == ad && outs.len() == 0
    } else {
        exists|mid: A, sig: Signal<A::Output>| #[trigger]
            ad.adapts(items[0], mid, sig) && sig is Continue && starts_with(outs, sig)
                && adapts_all(mid, items.drop_first(), after, behind(outs, sig))
    }
}

/// Finalizing the operator `ad` until it breaks off may leave it in the
/// state `after` and make it emit `outs` in turn.
pub open spec fn finalizes_all<A: AdaptFnTrait>(ad: A, after: A, outs: Seq<A::Output>) -> bool
    decreases ad.pending(),
{
    exists|mid: A, sig: Signal<A::Output>| #[trigger]
        ad.finalizes(mid, sig) && if sig is Break {
            after == mid && outs.len() == 0
        } else {
            mid.pending() < ad.pending() && starts_with(outs, sig) && finalizes_all(
                mid,
                after,
                behind(outs, sig),
            )
        }
}

/// The first step of `adapts_all`: the state that it leaves, its answer and
/// what the later steps emit.
pub proof fn lemma_adapts_all_first<A: AdaptFnTrait>(
    ad: A,
    items: Seq<A::Input>,
    after: A,
    outs: Seq<A::Output>,
) -> (step: (A, Signal<A::Output>, Seq<A::Output>))
    requires
        adapts_all(ad, items, after, outs),
        items.len() > 0,
    ensures
        ad.adapts(items[0], step.0, step.1),
        step.1 is Continue,
        adapts_all(step.0, items.drop_first(), after, step.2),
        outs == emitted(step.1) + step.2,
{
    let (mid, sig) = choose|mid: A, sig: Signal<A::Output>| #[trigger]
        ad.adapts(items[0], mid, sig) && sig is Continue && starts_with(outs, sig) && adapts_all(
            mid,
            items.drop_first(),
            after,
            behind(outs, sig),
        );
    assert(outs =~= emitted(sig) + behind(outs, sig));
    (mid, sig, behind(outs, sig))
}

/// The first step of `finalizes_all`: the state that it leaves, its answer
/// and what the later steps emit.
pub proof fn lemma_finalizes_all_first<A: AdaptFnTrait>(
    ad: A,
    after: A,
    outs: Seq<A::Output>,
) -> (step: (A, Signal<A::Output>, Seq<A::Output>))
    requires
        finalizes_all(ad, after, outs),
    ensures
        ad.finalizes(step.0, step.1),
        outs == emitted(step.1) + step.2,
        step.1 is Break ==> after == step.0 && step.2.len() == 0,
        !(step.1 is Break) ==> step.0.pending() < ad.pending() && finalizes_all(
            step.0,
            after,
            step.2,
        ),
{
    let (mid, sig) = choose|mid: A, sig: Signal<A::Output>| #[trigger]
        ad.finalizes(mid, sig) && if sig is Break {
            after == mid && outs.len() == 0
        } else {
            mid.pending() < ad.pending() && starts_with(outs, sig) && finalizes_all(
                mid,
                after,
                behind(outs, sig),
            )
        };
    if sig is Break {
        assert(outs =~= emitted(sig) + Seq::<A::Output>::empty());
        (mid, sig, Seq::empty())
    } else {
        assert(outs =~= emitted(sig) + behind(outs, sig));
        (mid, sig, behind(outs, sig))
    }
}

/// A chain of operators.
pub trait AdapterTrait: Sized {
    type Input;

    type Output;

    /// What holds of the chain between calls.
    spec fn inv(&self) -> bool;

    /// The values that `adapt` may be given in this state.
    spec fn accepts(&self, next: Self::Input) -> bool;

    /// `adapt(next)` may leave the state `after` and answer `out`.
    spec fn adapts(&self, next: Self::Input, after: Self, out: Signal<Self::Output>) -> bool;

    /// Whether `finalize` may be called in this state.
    spec fn can_finalize(&self) -> bool;

    /// `finalize()` may leave the state `after` and answer `out`.
    spec fn finalizes(&self, after: Self, out: Signal<Self::Output>) -> bool;

    /// A bound on the number of calls of `finalize` that still answer
    /// `Continue`.
    spec fn pending(&self) -> nat;

    /// A bound on what one call of `adapt` adds to `pending`.
    spec fn growth(&self) -> nat;

    fn adapt(&mut self, next: Self::Input) -> (out: Signal<Self::Output>)
        requires
            old(self).inv(),
            old(self).accepts(next),
        ensures
            final(self).inv(),
            old(self).adapts(next, *final(self), out),
            final(self).growth() == old(self).growth(),
            final(self).pending() <= old(self).pending() + old(self).growth(),
    ;

    fn finalize(&mut self) -> (out: Signal<Self::Output>)
        requires
            old(self).inv(),
            old(self).can_finalize(),
        ensures
            final(self).inv(),
            old(self).finalizes(*final(self), out),
            final(self).growth() == old(self).growth(),
            out is Continue ==> final(self).pending() < old(self).pending(),
            out is Break ==> final(self).pending() <= old(self).pending(),
    ;

    /// Ends the chain in a reducer that sorts what the chain emits by key
    /// into one reducer per key.
    #[inline(always)]
    fn split<RedFn, KeyFn, R, Key, Red>(self, keyfn: KeyFn, reducerfn: RedFn) -> (r: Reducer<
        Split<RedFn, KeyFn, Self::Output, R, Key, Red>,
        Self,
    >) where
        KeyFn: Fn(&Self::Output) -> Key,
        RedFn: Fn(&Key) -> Red,
        Self::Output: Clone,
        Key: Ord + Clone,
        Red: ReducerTrait<Input = Self::Output, Reduced = R>,

        ensures
            r.1 == self,
            r.0.0 == keyfn,
            r.0.1 == reducerfn,
            r.0.2@ == Map::<Key, Red>::empty(),
    {
        Reducer::new(Split::new(keyfn, reducerfn), self)
    }

    /// Ends the chain in a reducer that folds what the chain emits.
    #[inline(always)]
    fn fold<Init, Input, F>(self, init: Init, f: F) -> (r: Reducer<Fold<Init, F, Input>, Self>) where
        F: Fn(Init, Input) -> Init,

        ensures
            r.1 == self,
            r.0.0 == init,
            r.0.1 == f,
    {
        Reducer::new(Fold::new(init, f), self)
    }

    /// Ends the chain in a reducer that pushes what the chain emits to two
    /// reducers.
    #[inline(always)]
    fn fork<R1, R2>(self, r1: R1, r2: R2) -> (r: Reducer<Fork<R1, R2, Self::Input>, Self>) where
        R1: ReducerTrait<Input = Self::Output>,
        R2: ReducerTrait<Input = Self::Output>,

        ensures
            r.1 == self,
            r.0.0 == r1,
            r.0.1 == r2,
    {
        Reducer::new(Fork::new(r1, r2), self)
    }

    /// Lengthens the chain by a filter.
    #[inline(always)]
    fn filter<F>(self, f: F) -> (r: Adapter<Filter<Self::Output, F>, Self>) where
        F: Fn(&Self::Output) -> bool,

        ensures
            r.1 == self,
            r.0.0 == f,
    {
        Adapter::new(Filter::new(f), self)
    }

    /// Lengthens the chain by a map.
    #[inline(always)]
    fn map<Output, F>(self, f: F) -> (r: Adapter<MapFn<Self::Output, Output, F>, Self>) where
        F: Fn(&Self::Output) -> Output,

        ensures
            r.1 == self,
            r.0.0 == f,
    {
        Adapter::new(MapFn::new(f), self)
    }

    /// Lengthens the chain by a grouping into runs.
    #[inline(always)]
    fn groupby<F>(self, f: F) -> (r: Adapter<GroupBy<Self::Output, F>, Self>) where
        F: Fn(&Self::Output, &Self::Output) -> bool,
        Self::Output: Clone,

        ensures
            r.1 == self,
            r.0.0 == f,
            r.0.1 is Empty,
    {
        Adapter::new(GroupBy::new(f), self)
    }

    /// Lengthens the chain by a merge.
    #[inline(always)]
    fn merge<F, KeyFn, Key>(self, f: F, keyfn: KeyFn) -> (r: Adapter<
        Merge<Self::Output, F, KeyFn, Key>,
        Self,
    >) where
        KeyFn: Fn(&Self::Output) -> Key,
        F: Fn(&Self::Output, &Self::Output) -> Option<Self::Output>,
        Self::Output: Clone,
        Key: Ord,

        ensures
            r.1 == self,
            r.0.0 == f,
            r.0.1 == keyfn,
            r.0.2@ == Map::<Key, Self::Output>::empty(),
            r.0.3 is None,
    {
        Adapter::new(Merge::new(f, keyfn), self)
    }
}

/// The empty chain: it emits every value as it came.
pub struct NilAdapter<I>(pub PhantomData<I>);

impl<I> NilAdapter<I> {
    pub fn new() -> (r: Self)
        ensures
            r.inv(),
    {
        Self(PhantomData)
    }
}

impl<I> Default for NilAdapter<I> {
    fn default() -> (r: Self)
        ensures
            r.inv(),
    {
        Self::new()
    }
}

impl<I> AdapterTrait for NilAdapter<I> {
    type Input = I;

    type Output = I;

    open spec fn inv(&self) -> bool {
        true
    }

    open spec fn accepts(&self, next: I) -> bool {
        true
    }

    open spec fn adapts(&self, next: I, after: Self, out: Signal<I>) -> bool {
        out == Signal::<I>::Continue(Some(next))
    }

    open spec fn can_finalize(&self) -> bool {
        true
    }

    open spec fn finalizes(&self, after: Self, out: Signal<I>) -> bool {
        out is Break
    }

    open spec fn pending(&self) -> nat {
        0
    }

    open spec fn growth(&self) -> nat {
        0
    }

    #[inline(always)]
    fn adapt(&mut self, next: I) -> (out: Signal<I>) {
        ControlFlow::Continue(Some(next))
    }

    #[inline(always)]
    fn finalize(&mut self) -> (out: Signal<I>) {
        ControlFlow::Break(())
    }
}

/// The chain that gives what the chain `A` emits to the operator `Impl`.
pub struct Adapter<Impl, A>(pub Impl, pub A);

impl<Impl, A> Adapter<Impl, A> {
    pub fn new(i: Impl, a: A) -> (r: Self)
        ensures
            r.0 == i,
            r.1 == a,
    {
        Self(i, a)
    }
}

/// The step of `count`: one more.
pub fn count_step<Input>() -> (f: impl Fn(usize, Input) -> usize)
    ensures
        forall|acc: usize, next: Input| acc < usize::MAX ==> call_requires(f, (acc, next)),
        forall|acc: usize, next: Input, sum: usize|
            call_ensures(f, (acc, next), sum) ==> sum == acc + 1,
{
    |acc: usize, _next: Input| -> (sum: usize)
        requires
            acc < usize::MAX,
        ensures
            sum == acc + 1,
        { acc + 1 }
}

/// The step of `sum`: the value is added.
pub fn sum_step<Input>() -> (f: impl Fn(usize, Input) -> usize) where
    Input: Add<usize, Output = usize> + Clone + Copy,

    ensures
        forall|acc: usize, next: Input|
            next.add_req(acc) ==> #[trigger] call_requires(f, (acc, next)),
        forall|acc: usize, next: Input, sum: usize|
            call_ensures(f, (acc, next), sum) && Input::obeys_add_spec() ==> sum == next.add_spec(
                acc,
            ),
{
    |acc: usize, next: Input| -> (sum: usize)
        requires
            next.add_req(acc),
        ensures
            Input::obeys_add_spec() ==> sum == next.add_spec(acc),
        { next.add(acc) }
}

/// The step of `collect`: the value is appended.
pub fn collect_step<Input>() -> (f: impl Fn(Vec<Input>, Input) -> Vec<Input>)
    ensures
        forall|acc: Vec<Input>, next: Input| call_requires(f, (acc, next)),
        forall|acc: Vec<Input>, next: Input, all: Vec<Input>|
            call_ensures(f, (acc, next), all) ==> all@ == acc@.push(next),
{
    |acc: Vec<Input>, next: Input| -> (all: Vec<Input>)
        ensures
            all@ == acc@.push(next),
        {
            let mut all = acc;
            all.push(next);
            all
        }
}

impl<Impl, A> Adapter<Impl, A> where Self: AdapterTrait {
    /// Ends the chain in a reducer that counts what the chain emits.
    #[inline(always)]
    pub fn count<Input>(self) -> (r: Reducer<
        Fold<usize, impl Fn(usize, Input) -> usize, Input>,
        Self,
    >)
        ensures
            r.1 == self,
            r.0.0 == 0,
            forall|acc: usize, next: Input| acc < usize::MAX ==> call_requires(r.0.1, (acc, next)),
            forall|acc: usize, next: Input, sum: usize|
                call_ensures(r.0.1, (acc, next), sum) ==> sum == acc + 1,
    {
        self.fold(0usize, count_step())
    }

    /// Ends the chain in a reducer that sums what the chain emits.
    #[inline(always)]
    pub fn sum<Input>(self) -> (r: Reducer<Fold<usize, impl Fn(usize, Input) -> usize, Input>, Self>) where
        Input: Add<usize, Output = usize> + Clone + Copy,

        ensures
            r.1 == self,
            r.0.0 == 0,
            forall|acc: usize, next: Input|
                next.add_req(acc) ==> #[trigger] call_requires(r.0.1, (acc, next)),
            forall|acc: usize, next: Input, sum: usize|
                call_ensures(r.0.1, (acc, next), sum) && Input::obeys_add_spec() ==> sum
                    == next.add_spec(acc),
    {
        self.fold(0usize, sum_step())
    }

    /// Ends the chain in a reducer that collects what the chain emits.
    #[inline(always)]
    pub fn collect<Input>(self) -> (r: Reducer<
        Fold<Vec<Input>, impl Fn(Vec<Input>, Input) -> Vec<Input>, Input>,
        Self,
    >)
        ensures
            r.1 == self,
            r.0.0@ == Seq::<Input>::empty(),
            forall|acc: Vec<Input>, next: Input| call_requires(r.0.1, (acc, next)),
            forall|acc: Vec<Input>, next: Input, all: Vec<Input>|
                call_ensures(r.0.1, (acc, next), all) ==> all@ == acc@.push(next),
    {
        self.fold(Vec::new(), collect_step())
    }
}

impl<Impl, A> AdapterTrait for Adapter<Impl, A> where
    A: AdapterTrait,
    Impl: AdaptFnTrait<Input = A::Output>,
 {
    type Input = A::Input;

    type Output = Impl::Output;

    open spec fn inv(&self) -> bool {
        self.0.inv() && self.1.inv()
    }

    open spec fn accepts(&self, next: A::Input) -> bool {
        &&& self.1.accepts(next)
        &&& forall|a: A, v: A::Output| #[trigger]
            self.1.adapts(next, a, Signal::<A::Output>::Continue(Some(v))) ==> self.0.accepts(v)
    }

    open spec fn adapts(&self, next: A::Input, after: Self, out: Signal<Impl::Output>) -> bool {
        exists|mid: Signal<A::Output>| #[trigger]
            self.1.adapts(next, after.1, mid) && match mid {
                ControlFlow::Continue(Some(v)) => self.0.adapts(v, after.0, out),
                ControlFlow::Continue(None) => after.0 == self.0 && out
                    == Signal::<Impl::Output>::Continue(None),
                ControlFlow::Break(_) => after.0 == self.0 && out is Break,
            }
    }

    open spec fn can_finalize(&self) -> bool {
        &&& self.1.can_finalize()
        &&& forall|a: A, mid: Signal<A::Output>| #[trigger]
            self.1.finalizes(a, mid) ==> match mid {
                ControlFlow::Continue(Some(v)) => self.0.accepts(v),
                ControlFlow::Continue(None) => true,
                ControlFlow::Break(_) => self.0.can_finalize(),
            }
    }

    open spec fn finalizes(&self, after: Self, out: Signal<Impl::Output>) -> bool {
        exists|mid: Signal<A::Output>| #[trigger]
            self.1.finalizes(after.1, mid) && match mid {
                ControlFlow::Continue(Some(v)) => self.0.adapts(v, after.0, out),
                ControlFlow::Continue(None) => after.0 == self.0 && out
                    == Signal::<Impl::Output>::Continue(None),
                ControlFlow::Break(_) => self.0.finalizes(after.0, out),
            }
    }

    open spec fn pending(&self) -> nat {
        2 * self.1.pending() + self.0.pending()
    }

    open spec fn growth(&self) -> nat {
        2 * self.1.growth() + 1
    }

    #[inline(always)]
    fn adapt(&mut self, next: A::Input) -> (out: Signal<Impl::Output>) {
        let mid = self.1.adapt(next);
        assert(old(self).1.adapts(next, self.1, mid));
        match mid {
            ControlFlow::Continue(Some(v)) => self.0.adapt(v),
            ControlFlow::Continue(None) => ControlFlow::Continue(None),
            ControlFlow::Break(_) => ControlFlow::Break(()),
        }
    }

    #[inline(always)]
    fn finalize(&mut self) -> (out: Signal<Impl::Output>) {
        match self.1.finalize() {
            ControlFlow::Continue(Some(v)) => self.0.adapt(v),
            ControlFlow::Continue(None) => ControlFlow::Continue(None),
            ControlFlow::Break(_) => self.0.finalize(),
        }
    }
}

/// The operator that lets pass the values of which `F` holds.
pub struct Filter<Input, F>(pub F, pub PhantomData<Input>);

impl<Input, F> Filter<Input, F> {
    pub fn new(f: F) -> (r: Self)
        ensures
            r.0 == f,
    {
        Self(f, PhantomData)
    }
}

impl<Input, F> AdaptFnTrait for Filter<Input, F> where F: Fn(&Input) -> bool {
    type Input = Input;

    type Output = Input;

    open spec fn inv(&self) -> bool {
        true
    }

    open spec fn accepts(&self, next: Input) -> bool {
        call_requires(self.0, (&next,))
    }

    open spec fn adapts(&self, next: Input, after: Self, out: Signal<Input>) -> bool {
        &&& after == *self
        &&& out matches ControlFlow::Continue(o)
        &&& call_ensures(self.0, (&next,), o is Some)
        &&& o matches Some(v) ==> v == next
    }

    open spec fn can_finalize(&self) -> bool {
        true
    }

    open spec fn finalizes(&self, after: Self, out: Signal<Input>) -> bool {
        after == *self && out is Break
    }

    open spec fn pending(&self) -> nat {
        0
    }

    #[inline(always)]
    fn adapt(&mut self, next: Input) -> (out: Signal<Input>) {
        if (self.0)(&next) {
            ControlFlow::Continue(Some(next))
        } else {
            ControlFlow::Continue(None)
        }
    }

    #[inline(always)]
    fn finalize(&mut self) -> (out: Signal<Input>) {
        ControlFlow::Break(())
    }
}

/// The operator that emits `F` of each value.
pub struct MapFn<Input, Output, F>(pub F, pub PhantomData<Input>, pub PhantomData<Output>);

impl<Input, Output, F> MapFn<Input, Output, F> {
    pub fn new(f: F) -> (r: Self)
        ensures
            r.0 == f,
    {
        Self(f, PhantomData, PhantomData)
    }
}

impl<Input, Output, F> AdaptFnTrait for MapFn<Input, Output, F> where F: Fn(&Input) -> Output {
    type Input = Input;

    type Output = Output;

    open spec fn inv(&self) -> bool {
        true
    }

    open spec fn accepts(&self, next: Input) -> bool {
        call_requires(self.0, (&next,))
    }

    open spec fn adapts(&self, next: Input, after: Self, out: Signal<Output>) -> bool {
        &&& after == *self
        &&& out matches ControlFlow::Continue(Some(v))
        &&& call_ensures(self.0, (&next,), v)
    }

    open spec fn can_finalize(&self) -> bool {
        true
    }

    open spec fn finalizes(&self, after: Self, out: Signal<Output>) -> bool {
        after == *self && out is Break
    }

    open spec fn pending(&self) -> nat {
        0
    }

    #[inline(always)]
    fn adapt(&mut self, next: Input) -> (out: Signal<Output>) {
        ControlFlow::Continue(Some((self.0)(&next)))
    }

    #[inline(always)]
    fn finalize(&mut self) -> (out: Signal<Output>) {
        ControlFlow::Break(())
    }
}

} // verus!
