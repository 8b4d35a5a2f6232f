//! Reducers: terminal accumulators of a pushed stream.

use super::adapter::{AdapterTrait, Signal};
use std::collections::BTreeMap;
use std::marker::PhantomData;
use std::ops::ControlFlow;
use vstd::laws_cmp::obeys_cmp;
use vstd::pervasive::cloned;
use vstd::prelude::*;
use vstd::std_specs::cmp::OrdSpec;

verus! {

/// An accumulator that takes the values of a stream one by one and is
/// consumed for its result.
///
/// The contracts are relations between the state before a call and the
/// state after it, stated over the contracts of the closures that the
/// reducer holds.
pub trait ReducerTrait: Sized {
    type Input;

    type Reduced;

    /// What holds of the reducer between calls.
    spec fn inv(&self) -> bool;

    /// The values that `next` may be given in this state.
    spec fn accepts(&self, next: Self::Input) -> bool;

    /// `next(next)` may leave the state `after`.
    spec fn step(&self, next: Self::Input, after: Self) -> bool;

    /// Whether `finalize` may be called in this state.
    spec fn can_finalize(&self) -> bool;

    /// `finalize()` may return `r`.
    spec fn reduces(&self, r: Self::Reduced) -> bool;

    fn next(&mut self, next: Self::Input)
        requires
            old(self).inv(),
            old(self).accepts(next),
        ensures
            final(self).inv(),
            old(self).step(next, *final(self)),
    ;

    fn finalize(self) -> (r: Self::Reduced)
        requires
            self.inv(),
            self.can_finalize(),
        ensures
            self.reduces(r),
    ;
}

/// Pushing `items` in turn may take the reducer `red` to the state `after`.
pub open spec fn pushes<R: ReducerTrait>(red: R, items: Seq<R::Input>, after: R) -> bool
    decreases items.len(),
{
    if items.len() == 0 {
        after == red
    } else {
        exists|mid: R| #[trigger] red.step(items[0], mid) && pushes(mid, items.drop_first(), after)
    }
}

/// Every call that is made while `items` are pushed to `red` in turn, and
/// `red` is then finalized, is one that may be made.
pub open spec fn push_allowed<R: ReducerTrait>(red: R, items: Seq<R::Input>) -> bool
    decreases items.len(),
{
    if items.len() == 0 {
        red.can_finalize()
    } else {
        &&& red.accepts(items[0])
        &&& forall|mid: R| #[trigger]
            red.step(items[0], mid) ==> push_allowed(mid, items.drop_first())
    }
}

/// One more push after others.
pub proof fn lemma_pushes_push<R: ReducerTrait>(
    red: R,
    items: Seq<R::Input>,
    mid: R,
    next: R::Input,
    after: R,
)
    requires
        pushes(red, items, mid),
        mid.step(next, after),
    ensures
        pushes(red, items.push(next), after),
    decreases items.len(),
{
    if items.len() == 0 {
        assert(items.push(next)[0] == next);
        assert(items.push(next).drop_first() =~= Seq::<R::Input>::empty());
        assert(red.step(items.push(next)[0], after));
        assert(pushes(after, items.push(next).drop_first(), after));
    } else {
        let m = choose|m: R| #[trigger] red.step(items[0], m) && pushes(m, items.drop_first(), mid);
        lemma_pushes_push(m, items.drop_first(), mid, next, after);
        assert(items.push(next).drop_first() =~= items.drop_first().push(next));
        assert(items.push(next)[0] == items[0]);
        assert(red.step(items.push(next)[0], m));
    }
}

/// What stays allowed after pushes.
pub proof fn lemma_push_allowed_after<R: ReducerTrait>(
    red: R,
    done: Seq<R::Input>,
    items: Seq<R::Input>,
    mid: R,
)
    requires
        push_allowed(red, done + items),
        pushes(red, done, mid),
    ensures
        push_allowed(mid, items),
    decreases done.len(),
{
    if done.len() == 0 {
        assert(done + items =~= items);
    } else {
        let m = choose|m: R| #[trigger] red.step(done[0], m) && pushes(m, done.drop_first(), mid);
        assert((done + items)[0] == done[0]);
        assert((done + items).drop_first() =~= done.drop_first() + items);
        lemma_push_allowed_after(m, done.drop_first(), items, mid);
    }
}

/// Every call that is made while the chain `ad` is finalized to its end, and
/// what it emits is pushed to `red`, is one that may be made, the final
/// `finalize` of `red` included.
pub open spec fn drain_allowed<R, A>(red: R, ad: A) -> bool where
    R: ReducerTrait,
    A: AdapterTrait<Output = R::Input>,

    decreases ad.pending(),
{
    &&& ad.can_finalize()
    &&& forall|a: A, out: Signal<A::Output>| #[trigger]
        ad.finalizes(a, out) ==> match out {
            ControlFlow::Break(_) => red.can_finalize(),
            ControlFlow::Continue(None) => a.pending() < ad.pending() ==> drain_allowed(red, a),
            ControlFlow::Continue(Some(v)) => {
                &&& red.accepts(v)
                &&& forall|r: R| #[trigger]
                    red.step(v, r) ==> (a.pending() < ad.pending() ==> drain_allowed(r, a))
            },
        }
}

/// Finalizing the chain `ad` to its end, and pushing what it emits to `red`,
/// may leave the reducer in the state `end`.
pub open spec fn drains_to<R, A>(red: R, ad: A, end: R) -> bool where
    R: ReducerTrait,
    A: AdapterTrait<Output = R::Input>,

    decreases ad.pending(),
{
    exists|a: A, out: Signal<A::Output>| #[trigger]
        ad.finalizes(a, out) && match out {
            ControlFlow::Break(_) => end == red,
            ControlFlow::Continue(None) => a.pending() < ad.pending() && drains_to(red, a, end),
            ControlFlow::Continue(Some(v)) => a.pending() < ad.pending() && exists|r: R| #[trigger]
                red.step(v, r) && drains_to(r, a, end),
        }
}

/// The reducer that pushes what the chain `Adapter` emits to the reducer
/// `Impl`.
pub struct Reducer<Impl, Adapter>(pub Impl, pub Adapter);

impl<Impl, Adapter> Reducer<Impl, Adapter> {
    pub fn new(i: Impl, a: Adapter) -> (r: Self)
        ensures
            r.0 == i,
            r.1 == a,
    {
        Self(i, a)
    }
}

impl<Impl, A> ReducerTrait for Reducer<Impl, A> where
    Impl: ReducerTrait<Input = A::Output>,
    A: AdapterTrait,
 {
    type Input = A::Input;

    type Reduced = Impl::Reduced;

    open spec fn inv(&self) -> bool {
        self.0.inv() && self.1.inv()
    }

    open spec fn accepts(&self, next: A::Input) -> bool {
        &&& self.1.accepts(next)
        &&& forall|a: A, v: A::Output| #[trigger]
            self.1.adapts(next, a, Signal::<A::Output>::Continue(Some(v))) ==> self.0.accepts(v)
    }

    open spec fn step(&self, next: A::Input, after: Self) -> bool {
        exists|mid: Signal<A::Output>| #[trigger]
            self.1.adapts(next, after.1, mid) && match mid {
                ControlFlow::Continue(Some(v)) => self.0.step(v, after.0),
                _ => after.0 == self.0,
            }
    }

    open spec fn can_finalize(&self) -> bool {
        drain_allowed(self.0, self.1)
    }

    open spec fn reduces(&self, r: Impl::Reduced) -> bool {
        exists|end: Impl| #[trigger] drains_to(self.0, self.1, end) && end.reduces(r)
    }

    #[inline(always)]
    fn next(&mut self, next: A::Input) {
        let mid = self.1.adapt(next);
        assert(old(self).1.adapts(next, self.1, mid));
        if let ControlFlow::Continue(Some(v)) = mid {
            self.0.next(v)
        }
    }

    #[inline(always)]
    fn finalize(self) -> (r: Impl::Reduced) {
        let Reducer(mut red, mut ad) = self;
        loop
            invariant_except_break
                red.inv(),
                ad.inv(),
                drain_allowed(red, ad),
                forall|end: Impl| drains_to(red, ad, end) ==> drains_to(self.0, self.1, end),
            ensures
                red.inv(),
                red.can_finalize(),
                drains_to(self.0, self.1, red),
            decreases ad.pending(),
        {
            let ghost red0 = red;
            let ghost ad0 = ad;
            let out = ad.finalize();
            assert(ad0.finalizes(ad, out));
            match out {
                ControlFlow::Break(_) => {
                    assert(drains_to(red0, ad0, red0));
                    break ;
                },
                ControlFlow::Continue(None) => {
                    assert forall|end: Impl| drains_to(red, ad, end) implies drains_to(
                        red0,
                        ad0,
                        end,
                    ) by {}
                },
                ControlFlow::Continue(Some(v)) => {
                    red.next(v);
                    assert(red0.step(v, red));
                    assert forall|end: Impl| drains_to(red, ad, end) implies drains_to(
                        red0,
                        ad0,
                        end,
                    ) by {}
                },
            }
        }
        red.finalize()
    }
}

/// The reducer that folds the stream with `F`, starting from `Init`.
pub struct Fold<Init, F, I>(pub Init, pub F, pub PhantomData<I>);

impl<Init, F, I> Fold<Init, F, I> {
    pub fn new(init: Init, f: F) -> (r: Self)
        ensures
            r.0 == init,
            r.1 == f,
    {
        Self(init, f, PhantomData)
    }
}

impl<Init, F, I> ReducerTrait for Fold<Init, F, I> where F: Fn(Init, I) -> Init, Init: Clone {
    type Input = I;

    type Reduced = Init;

    open spec fn inv(&self) -> bool {
        true
    }

    open spec fn accepts(&self, next: I) -> bool {
        forall|acc: Init| #[trigger] cloned(self.0, acc) ==> call_requires(self.1, (acc, next))
    }

    open spec fn step(&self, next: I, after: Self) -> bool {
        &&& after.1 == self.1
        &&& exists|acc: Init| #[trigger]
            cloned(self.0, acc) && call_ensures(self.1, (acc, next), after.0)
    }

    open spec fn can_finalize(&self) -> bool {
        true
    }

    open spec fn reduces(&self, r: Init) -> bool {
        r == self.0
    }

    #[inline(always)]
    fn next(&mut self, next: I) {
        let acc = self.0.clone();
        assert(cloned(old(self).0, acc));
        self.0 = (self.1)(acc, next);
    }

    #[inline(always)]
    fn finalize(self) -> (r: Init) {
        self.0
    }
}

/// Calls `BTreeMap::pop_first`: the entry with the least key leaves the map
/// and is returned, and an empty map gives `None`.
#[verifier::external_body]
pub(crate) fn pop_first<K: Ord, V>(m: &mut BTreeMap<K, V>) -> (r: Option<(K, V)>)
    ensures
        obeys_cmp::<K>() ==> match r {
            Some((k, v)) => {
                &&& old(m)@.contains_key(k)
                &&& old(m)@[k] == v
                &&& final(m)@ == old(m)@.remove(k)
                &&& forall|j: K| #[trigger] old(m)@.contains_key(j) ==> !(j.cmp_spec(&k) is Less)
            },
            None => old(m)@.dom() =~= Set::<K>::empty() && final(m)@ == old(m)@,
        },
{
    m.pop_first()
}

/// What `split` holds for the key `k` before it pushes `next` there: the
/// reducer of that key, or else one that `redfn` makes for it, may take
/// `next`.
pub open spec fn bucket_accepts<RedFn, Key, Red>(
    redfn: RedFn,
    buckets: Map<Key, Red>,
    k: Key,
    next: Red::Input,
) -> bool where RedFn: Fn(&Key) -> Red, Red: ReducerTrait {
    if buckets.contains_key(k) {
        buckets[k].accepts(next)
    } else {
        &&& call_requires(redfn, (&k,))
        &&& forall|fresh: Red| #[trigger] call_ensures(redfn, (&k,), fresh) ==> fresh.accepts(next)
    }
}

/// The reducer of the key `k`, or else one that `redfn` makes for it, may
/// come to the state `after` by taking `next`.
pub open spec fn bucket_step<RedFn, Key, Red>(
    redfn: RedFn,
    buckets: Map<Key, Red>,
    k: Key,
    next: Red::Input,
    after: Red,
) -> bool where RedFn: Fn(&Key) -> Red, Red: ReducerTrait {
    if buckets.contains_key(k) {
        buckets[k].step(next, after)
    } else {
        exists|fresh: Red| #[trigger] call_ensures(redfn, (&k,), fresh) && fresh.step(next, after)
    }
}

/// The reducer that sorts the stream by the key that `KeyFn` gives each
/// value into one reducer per key, made by `RedFn` when the key first
/// occurs.
pub struct Split<RedFn, KeyFn, I, R, Key, Red>(
    pub KeyFn,
    pub RedFn,
    pub BTreeMap<Key, Red>,
    pub PhantomData<I>,
    pub PhantomData<R>,
    pub PhantomData<Key>,
    pub PhantomData<Red>,
);

impl<RedFn, KeyFn, I, R, Key, Red> Split<RedFn, KeyFn, I, R, Key, Red> {
    /// `self` is as `new(keyfn, reducerfn)` makes it: no key has a reducer
    /// yet.
    pub open spec fn is_new(&self, keyfn: KeyFn, reducerfn: RedFn) -> bool {
        &&& self.0 == keyfn
        &&& self.1 == reducerfn
        &&& self.2@ == Map::<Key, Red>::empty()
    }

    pub fn new(keyfn: KeyFn, reducerfn: RedFn) -> (r: Self)
        ensures
            r.is_new(keyfn, reducerfn),
    {
        Self(keyfn, reducerfn, BTreeMap::new(), PhantomData, PhantomData, PhantomData, PhantomData)
    }
}

impl<RedFn, KeyFn, I, R, Key, Red> ReducerTrait for Split<RedFn, KeyFn, I, R, Key, Red> where
    KeyFn: Fn(&I) -> Key,
    RedFn: Fn(&Key) -> Red,
    I: Clone,
    Key: Ord + Clone,
    Red: ReducerTrait<Input = I, Reduced = R>,
 {
    type Input = I;

    type Reduced = BTreeMap<Key, R>;

    open spec fn inv(&self) -> bool {
        &&& obeys_cmp::<Key>()
        &&& forall|k: Key| #[trigger] self.2@.contains_key(k) ==> self.2@[k].inv()
        &&& forall|k: Key, fresh: Red| #[trigger] call_ensures(self.1, (&k,), fresh) ==> fresh.inv()
    }

    open spec fn accepts(&self, next: I) -> bool {
        &&& call_requires(self.0, (&next,))
        &&& forall|k: Key| #[trigger]
            call_ensures(self.0, (&next,), k) ==> bucket_accepts(self.1, self.2@, k, next)
    }

    open spec fn step(&self, next: I, after: Self) -> bool {
        &&& after.0 == self.0
        &&& after.1 == self.1
        &&& exists|k: Key, red: Red|
            {
                &&& #[trigger] call_ensures(self.0, (&next,), k)
                &&& #[trigger] bucket_step(self.1, self.2@, k, next, red)
                &&& after.2@ == self.2@.insert(k, red)
            }
    }

    open spec fn can_finalize(&self) -> bool {
        forall|k: Key| #[trigger] self.2@.contains_key(k) ==> self.2@[k].can_finalize()
    }

    open spec fn reduces(&self, r: BTreeMap<Key, R>) -> bool {
        &&& r@.dom() == self.2@.dom()
        &&& forall|k: Key| #[trigger] self.2@.contains_key(k) ==> self.2@[k].reduces(r@[k])
    }

    #[inline(always)]
    fn next(&mut self, next: I) {
        let key = (self.0)(&next);
        let mut red = match self.2.remove(&key) {
            Some(red) => red,
            None => (self.1)(&key),
        };
        let ghost red0 = red;
        red.next(next);
        proof {
            assert(bucket_step(self.1, old(self).2@, key, next, red));
        }
        self.2.insert(key, red);
        proof {
            assert(self.2@ =~= old(self).2@.insert(key, red));
        }
    }

    #[inline(always)]
    fn finalize(self) -> (r: BTreeMap<Key, R>) {
        let Split(_, _, mut buckets, _, _, _, _) = self;
        let mut result: BTreeMap<Key, R> = BTreeMap::new();
        loop
            invariant_except_break
                obeys_cmp::<Key>(),
                buckets@.dom().finite(),
                forall|k: Key| #[trigger]
                    buckets@.contains_key(k) ==> self.2@.contains_key(k) && buckets@[k]
                        == self.2@[k],
                forall|k: Key| #[trigger]
                    self.2@.contains_key(k) ==> (buckets@.contains_key(k) != result@.contains_key(
                        k,
                    )),
                forall|k: Key| #[trigger]
                    result@.contains_key(k) ==> self.2@.contains_key(k) && self.2@[k].reduces(
                        result@[k],
                    ),
                forall|k: Key| #[trigger] self.2@.contains_key(k) ==> self.2@[k].inv(),
                forall|k: Key| #[trigger] self.2@.contains_key(k) ==> self.2@[k].can_finalize(),
            ensures
                self.reduces(result),
            decreases buckets@.len(),
        {
            match pop_first(&mut buckets) {
                Some((k, red)) => {
                    let res = red.finalize();
                    result.insert(k, res);
                },
                None => {
                    assert(result@.dom() =~= self.2@.dom());
                    break ;
                },
            }
        }
        result
    }
}

/// The reducer that pushes every value to two reducers and pairs their
/// results.
pub struct Fork<Impl1, Impl2, I>(pub Impl1, pub Impl2, pub PhantomData<I>);

impl<Impl1, Impl2, I> Fork<Impl1, Impl2, I> {
    pub fn new(i1: Impl1, i2: Impl2) -> (r: Self)
        ensures
            r.0 == i1,
            r.1 == i2,
    {
        Self(i1, i2, PhantomData)
    }
}

impl<Impl1, Impl2, I> ReducerTrait for Fork<Impl1, Impl2, I> where
    Impl1: ReducerTrait<Input = I>,
    Impl2: ReducerTrait<Input = I>,
    I: Clone,
 {
    type Input = I;

    type Reduced = (Impl1::Reduced, Impl2::Reduced);

    open spec fn inv(&self) -> bool {
        self.0.inv() && self.1.inv()
    }

    open spec fn accepts(&self, next: I) -> bool {
        &&& self.1.accepts(next)
        &&& forall|copy: I| #[trigger] cloned(next, copy) ==> self.0.accepts(copy)
    }

    open spec fn step(&self, next: I, after: Self) -> bool {
        &&& self.1.step(next, after.1)
        &&& exists|copy: I| #[trigger] cloned(next, copy) && self.0.step(copy, after.0)
    }

    open spec fn can_finalize(&self) -> bool {
        self.0.can_finalize() && self.1.can_finalize()
    }

    open spec fn reduces(&self, r: (Impl1::Reduced, Impl2::Reduced)) -> bool {
        self.0.reduces(r.0) && self.1.reduces(r.1)
    }

    #[inline(always)]
    fn next(&mut self, next: I) {
        let copy = next.clone();
        assert(cloned(next, copy));
        self.0.next(copy);
        self.1.next(next);
    }

    #[inline(always)]
    fn finalize(self) -> (r: (Impl1::Reduced, Impl2::Reduced)) {
        (self.0.finalize(), self.1.finalize())
    }
}

} // verus!
