//! Adapters over pulled streams: an operator of the pipeline engine is
//! driven by an iterator and gives what it emits one by one.

use crate::generator::adapter::{AdaptFnTrait, Signal};
use crate::generator::groupby::GroupBy;
use crate::generator::reducer::{
    lemma_push_allowed_after,
    lemma_pushes_push,
    push_allowed,
    pushes,
    ReducerTrait,
    Split,
};
use std::collections::BTreeMap;
use std::ops::ControlFlow;
use vstd::prelude::*;
use vstd::std_specs::iter::IteratorSpec;

verus! {

/// `adapt` is called on `items` in turn until one call answers otherwise
/// than by `Continue(None)`: that answer is `last`, the operator is then in
/// the state `after`, and no item is left. Where every call answers
/// `Continue(None)`, `last` is `None`.
pub open spec fn feeds<A: AdaptFnTrait>(
    ad: A,
    items: Seq<A::Input>,
    after: A,
    last: Option<Signal<A::Output>>,
) -> bool
    decreases items.len(),
{
    if items.len() == 0 {
        after == ad && last is None
    } else {
        exists|mid: A, sig: Signal<A::Output>| #[trigger]
            ad.adapts(items[0], mid, sig) && if sig == Signal::<A::Output>::Continue(None) {
                feeds(mid, items.drop_first(), after, last)
            } else {
                items.len() == 1 && after == mid && last == Some(sig)
            }
    }
}

/// `finalize` is called until one call answers otherwise than by
/// `Continue(None)`: that answer is `last`, and the operator is then in the
/// state `after`.
pub open spec fn flushes<A: AdaptFnTrait>(ad: A, after: A, last: Signal<A::Output>) -> bool
    decreases ad.pending(),
{
    exists|mid: A, sig: Signal<A::Output>| #[trigger]
        ad.finalizes(mid, sig) && if sig == Signal::<A::Output>::Continue(None) {
            mid.pending() < ad.pending() && flushes(mid, after, last)
        } else {
            after == mid && last == sig
        }
}

/// What a signal emits.
pub open spec fn emitted<T>(sig: Signal<T>) -> Option<T> {
    match sig {
        ControlFlow::Continue(v) => v,
        ControlFlow::Break(_) => None,
    }
}

/// The operator `ad` takes the items `used` and is left in the state
/// `after` with `r` pulled from it: the last of the items made it emit `r`,
/// or the items ended (`ended`) or the operator broke off, and `r` is what
/// `finalize` first emitted, if anything.
pub open spec fn pulls<A: AdaptFnTrait>(
    ad: A,
    used: Seq<A::Input>,
    ended: bool,
    after: A,
    r: Option<A::Output>,
) -> bool {
    exists|mid: A, last: Option<Signal<A::Output>>| #[trigger]
        feeds(ad, used, mid, last) && match last {
            Some(ControlFlow::Continue(v)) => v is Some && r == v && after == mid,
            Some(ControlFlow::Break(_)) => exists|end: Signal<A::Output>| #[trigger]
                flushes(mid, after, end) && r == emitted(end),
            None => ended && exists|end: Signal<A::Output>| #[trigger]
                flushes(mid, after, end) && r == emitted(end),
        }
}

/// The operator `ad` takes the first `used` of the items `all` and is left
/// in the state `after` with `r` pulled from it.
pub open spec fn pulls_first<A: AdaptFnTrait>(
    ad: A,
    all: Seq<A::Input>,
    used: int,
    after: A,
    r: Option<A::Output>,
) -> bool {
    &&& 0 <= used <= all.len()
    &&& pulls(ad, all.take(used), used == all.len(), after, r)
}

/// Every call that is made while `finalize` is called until it answers
/// otherwise than by `Continue(None)` is one that may be made.
pub open spec fn flush_allowed<A: AdaptFnTrait>(ad: A) -> bool
    decreases ad.pending(),
{
    &&& ad.can_finalize()
    &&& forall|mid: A| #[trigger]
        ad.finalizes(mid, Signal::<A::Output>::Continue(None)) ==> (mid.pending() < ad.pending()
            ==> flush_allowed(mid))
}

/// Every call that is made while a value is pulled from the operator `ad`
/// over the items `items` is one that may be made.
pub open spec fn pull_allowed<A: AdaptFnTrait>(ad: A, items: Seq<A::Input>) -> bool
    decreases items.len(),
{
    if items.len() == 0 {
        flush_allowed(ad)
    } else {
        &&& ad.accepts(items[0])
        &&& forall|mid: A, sig: Signal<A::Output>| #[trigger]
            ad.adapts(items[0], mid, sig) ==> match sig {
                ControlFlow::Continue(Some(_)) => true,
                ControlFlow::Continue(None) => pull_allowed(mid, items.drop_first()),
                ControlFlow::Break(_) => flush_allowed(mid),
            }
    }
}

/// One more item, taken after items that were all answered by
/// `Continue(None)`.
pub proof fn lemma_feeds_push<A: AdaptFnTrait>(
    ad: A,
    items: Seq<A::Input>,
    mid: A,
    next: A::Input,
    after: A,
    sig: Signal<A::Output>,
)
    requires
        feeds(ad, items, mid, None),
        mid.adapts(next, after, sig),
    ensures
        feeds(
            ad,
            items.push(next),
            after,
            if sig == Signal::<A::Output>::Continue(None) {
                None
            } else {
                Some(sig)
            },
        ),
    decreases items.len(),
{
    let last = if sig == Signal::<A::Output>::Continue(None) {
        None
    } else {
        Some(sig)
    };
    if items.len() == 0 {
        assert(items.push(next)[0] == next);
        assert(items.push(next).drop_first() =~= Seq::<A::Input>::empty());
        assert(ad.adapts(items.push(next)[0], after, sig));
        if sig == Signal::<A::Output>::Continue(None) {
            assert(feeds(after, items.push(next).drop_first(), after, None));
        }
    } else {
        let (m, s) = choose|m: A, s: Signal<A::Output>| #[trigger]
            ad.adapts(items[0], m, s) && if s == Signal::<A::Output>::Continue(None) {
                feeds(m, items.drop_first(), mid, None)
            } else {
                items.len() == 1 && mid == m && None::<Signal<A::Output>> == Some(s)
            };
        lemma_feeds_push(m, items.drop_first(), mid, next, after, sig);
        assert(items.push(next).drop_first() =~= items.drop_first().push(next));
        assert(items.push(next)[0] == items[0]);
        assert(ad.adapts(items.push(next)[0], m, s));
    }
}

/// An iterator over what an operator of the pipeline engine emits when the
/// items of an inner iterator are handed to it.
pub struct FromAdaptFn<AdaptFn, Iter>(pub AdaptFn, pub Iter, pub bool);

impl<AdaptFn, Iter> FromAdaptFn<AdaptFn, Iter> {
    pub fn new(a: AdaptFn, iter: Iter) -> (r: Self)
        ensures
            r.0 == a,
            r.1 == iter,
    {
        Self(a, iter, true)
    }
}

impl<AdaptFn, Iter> FromAdaptFn<AdaptFn, Iter> where
    Iter: Iterator,
    AdaptFn: AdaptFnTrait<Input = Iter::Item>,
 {
    /// The next value that the operator emits: items of the inner iterator
    /// are handed to it until it emits one, and when they have ended, or
    /// the operator has broken off, it is finalized until it emits one.
    pub fn next(&mut self) -> (r: Option<AdaptFn::Output>)
        requires
            old(self).0.inv(),
            old(self).1.obeys_prophetic_iter_laws(),
            old(self).1.decrease() is Some,
            pull_allowed(old(self).0, old(self).1.remaining()),
        ensures
            final(self).0.inv(),
            final(self).1.obeys_prophetic_iter_laws(),
            final(self).1.decrease() is Some,
            exists|used: int|
                {
                    &&& final(self).1.remaining() == old(self).1.remaining().skip(used)
                    &&& #[trigger] pulls_first(
                        old(self).0,
                        old(self).1.remaining(),
                        used,
                        final(self).0,
                        r,
                    )
                },
    {
        let ghost mut used: int = 0;
        let ghost all = old(self).1.remaining();
        let mut ended = false;
        loop
            invariant_except_break
                self.0.inv(),
                self.1.obeys_prophetic_iter_laws(),
                self.1.decrease() is Some,
                all == old(self).1.remaining(),
                0 <= used <= all.len(),
                self.1.remaining() == all.skip(used),
                feeds(old(self).0, all.take(used), self.0, None),
                pull_allowed(self.0, all.skip(used)),
                !ended,
            ensures
                self.0.inv(),
                self.1.obeys_prophetic_iter_laws(),
                self.1.decrease() is Some,
                0 <= used <= all.len(),
                self.1.remaining() == all.skip(used),
                ended ==> used == all.len(),
                exists|last: Option<Signal<AdaptFn::Output>>| #[trigger]
                    feeds(old(self).0, all.take(used), self.0, last) && (last is None ==> ended)
                        && !(last matches Some(ControlFlow::Continue(_))),
                flush_allowed(self.0),
            decreases self.1.decrease()->0,
        {
            let ghost before = self.0;
            let ghost rest = self.1.remaining();
            match self.1.next() {
                Some(i) => {
                    proof {
                        assert(all.skip(used)[0] == i);
                        assert(all.skip(used).drop_first() =~= all.skip(used + 1));
                    }
                    let result = self.0.adapt(i);
                    proof {
                        lemma_feeds_push(old(self).0, all.take(used), before, i, self.0, result);
                        assert(all.take(used).push(i) =~= all.take(used + 1));
                        used = used + 1;
                    }
                    match result {
                        ControlFlow::Continue(Some(res)) => {
                            proof {
                                assert(feeds(
                                    old(self).0,
                                    all.take(used),
                                    self.0,
                                    Some(result),
                                ));
                                assert(pulls_first(old(self).0, all, used, self.0, Some(res)));
                            }
                            return Some(res);
                        },
                        ControlFlow::Continue(None) => {},
                        ControlFlow::Break(_) => {
                            break ;
                        },
                    }
                },
                None => {
                    proof {
                        assert(all.skip(used).len() == 0);
                    }
                    ended = true;
                    break ;
                },
            }
        }
        let ghost mid = self.0;
        let ghost last = choose|last: Option<Signal<AdaptFn::Output>>| #[trigger]
            feeds(old(self).0, all.take(used), mid, last) && (last is None ==> ended)
                && !(last matches Some(ControlFlow::Continue(_)));
        loop
            invariant
                self.0.inv(),
                self.1.obeys_prophetic_iter_laws(),
                self.1.decrease() is Some,
                all == old(self).1.remaining(),
                0 <= used <= all.len(),
                self.1.remaining() == all.skip(used),
                ended ==> used == all.len(),
                feeds(old(self).0, all.take(used), mid, last),
                last is None ==> ended,
                !(last matches Some(ControlFlow::Continue(_))),
                flush_allowed(self.0),
                forall|after: AdaptFn, end: Signal<AdaptFn::Output>|
                    flushes(self.0, after, end) ==> flushes(mid, after, end),
            decreases self.0.pending(),
        {
            let ghost before = self.0;
            let out = self.0.finalize();
            assert(before.finalizes(self.0, out));
            match out {
                ControlFlow::Continue(None) => {
                    assert forall|after: AdaptFn, end: Signal<AdaptFn::Output>|
                        flushes(self.0, after, end) implies flushes(before, after, end) by {}
                },
                _ => {
                    proof {
                        assert(flushes(before, self.0, out));
                        assert(flushes(mid, self.0, out));
                        assert(pulls_first(old(self).0, all, used, self.0, emitted(out)));
                    }
                    return emitted_value(out);
                },
            }
        }
    }
}

/// The operators that are called on an iterator.
pub trait FromAdaptFnCall: Iterator + Sized {
    /// The iterator over the maximal runs of `self` under the relation `f`.
    fn groupby<F>(self, f: F) -> (r: FromAdaptFn<GroupBy<Self::Item, F>, Self>) where
        Self::Item: Copy,

        ensures
            r.0.0 == f,
            r.0.1 is Empty,
            r.1 == self,
    {
        FromAdaptFn::new(GroupBy::new(f), self)
    }

    /// What a `Split` with `keyfn` and `reducerfn` makes of the items of
    /// `self`.
    fn split<RedFn, KeyFn, R, Key, Red>(self, keyfn: KeyFn, reducerfn: RedFn) -> (r: BTreeMap<
        Key,
        R,
    >) where
        KeyFn: Fn(&Self::Item) -> Key,
        RedFn: Fn(&Key) -> Red,
        Self::Item: Copy,
        Key: Ord + Clone,
        Red: ReducerTrait<Input = Self::Item, Reduced = R>,

        requires
            self.obeys_prophetic_iter_laws(),
            self.decrease() is Some,
            forall|start: Split<RedFn, KeyFn, Self::Item, R, Key, Red>| #[trigger]
                start.is_new(keyfn, reducerfn) ==> start.inv() && push_allowed(
                    start,
                    self.remaining(),
                ),
        ensures
            exists|start: Split<RedFn, KeyFn, Self::Item, R, Key, Red>, end: Split<
                RedFn,
                KeyFn,
                Self::Item,
                R,
                Key,
                Red,
            >| #[trigger]
                pushes(start, self.remaining(), end) && start.is_new(keyfn, reducerfn)
                    && end.reduces(r),
    {
        let mut iter = self;
        let mut split: Split<RedFn, KeyFn, Self::Item, R, Key, Red> = Split::new(keyfn, reducerfn);
        let ghost start = split;
        let ghost all = self.remaining();
        let ghost mut used: int = 0;
        loop
            invariant_except_break
                split.inv(),
                iter.obeys_prophetic_iter_laws(),
                iter.decrease() is Some,
                0 <= used <= all.len(),
                iter.remaining() == all.skip(used),
                pushes(start, all.take(used), split),
                push_allowed(start, all),
            ensures
                split.inv(),
                split.can_finalize(),
                pushes(start, all, split),
            decreases iter.decrease()->0,
        {
            proof {
                assert(all.take(used) + all.skip(used) =~= all);
                lemma_push_allowed_after(start, all.take(used), all.skip(used), split);
            }
            let ghost before = split;
            match iter.next() {
                Some(i) => {
                    proof {
                        assert(all.skip(used)[0] == i);
                    }
                    split.next(i);
                    proof {
                        lemma_pushes_push(start, all.take(used), before, i, split);
                        assert(all.take(used).push(i) =~= all.take(used + 1));
                        assert(all.skip(used).drop_first() =~= all.skip(used + 1));
                        used = used + 1;
                    }
                },
                None => {
                    proof {
                        assert(all.skip(used).len() == 0);
                        assert(all.take(used) =~= all);
                    }
                    break ;
                },
            }
        }
        split.finalize()
    }
}

impl<T> FromAdaptFnCall for T where T: Iterator {

}

/// What a signal emits.
fn emitted_value<T>(sig: Signal<T>) -> (r: Option<T>)
    ensures
        r == emitted(sig),
{
    match sig {
        ControlFlow::Continue(v) => v,
        ControlFlow::Break(_) => None,
    }
}

} // verus!
