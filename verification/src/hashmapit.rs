//! The histogram iterator: it hands the items of an inner iterator on and
//! counts them by a key.

use std::collections::BTreeMap;
use std::marker::PhantomData;
use vstd::prelude::*;
use vstd::std_specs::iter::IteratorSpec;

verus! {

/// The histogram `m` with one more under the key `k`.
pub open spec fn counted_in(m: Map<usize, usize>, k: usize) -> Map<usize, usize> {
    m.insert(
        k,
        if m.contains_key(k) {
            (m[k] + 1) as usize
        } else {
            1
        },
    )
}

/// Whether the count under the key `k` can take one more.
pub open spec fn has_room(m: Map<usize, usize>, k: usize) -> bool {
    m.contains_key(k) ==> m[k] < usize::MAX
}

/// The histogram that the items `items` with the keys that `hashfn` gives
/// them may make of the histogram `m`.
pub open spec fn counts_all<T, H: Fn(&T) -> usize>(
    hashfn: H,
    m: Map<usize, usize>,
    items: Seq<T>,
    after: Map<usize, usize>,
) -> bool
    decreases items.len(),
{
    if items.len() == 0 {
        after == m
    } else {
        exists|k: usize| #[trigger]
            call_ensures(hashfn, (&items[0],), k) && counts_all(
                hashfn,
                counted_in(m, k),
                items.drop_first(),
                after,
            )
    }
}

/// Every item of `items` may be counted into `m`: `hashfn` may be called on
/// it, and the count under its key can take one more.
pub open spec fn count_allowed<T, H: Fn(&T) -> usize>(
    hashfn: H,
    m: Map<usize, usize>,
    items: Seq<T>,
) -> bool
    decreases items.len(),
{
    if items.len() == 0 {
        true
    } else {
        &&& call_requires(hashfn, (&items[0],))
        &&& forall|k: usize| #[trigger]
            call_ensures(hashfn, (&items[0],), k) ==> has_room(m, k) && count_allowed(
                hashfn,
                counted_in(m, k),
                items.drop_first(),
            )
    }
}

/// One more item, counted after others.
pub proof fn lemma_counts_all_push<T, H: Fn(&T) -> usize>(
    hashfn: H,
    m: Map<usize, usize>,
    items: Seq<T>,
    mid: Map<usize, usize>,
    next: T,
    k: usize,
)
    requires
        counts_all(hashfn, m, items, mid),
        call_ensures(hashfn, (&next,), k),
    ensures
        counts_all(hashfn, m, items.push(next), counted_in(mid, k)),
    decreases items.len(),
{
    if items.len() == 0 {
        assert(items.push(next)[0] == next);
        assert(items.push(next).drop_first() =~= Seq::<T>::empty());
        assert(call_ensures(hashfn, (&items.push(next)[0],), k));
        assert(counts_all(hashfn, counted_in(m, k), items.push(next).drop_first(), counted_in(m, k)));
    } else {
        let j = choose|j: usize| #[trigger]
            call_ensures(hashfn, (&items[0],), j) && counts_all(
                hashfn,
                counted_in(m, j),
                items.drop_first(),
                mid,
            );
        lemma_counts_all_push(hashfn, counted_in(m, j), items.drop_first(), mid, next, k);
        assert(items.push(next).drop_first() =~= items.drop_first().push(next));
        assert(items.push(next)[0] == items[0]);
        assert(call_ensures(hashfn, (&items.push(next)[0],), j));
    }
}

/// What stays allowed after items were counted.
pub proof fn lemma_count_allowed_after<T, H: Fn(&T) -> usize>(
    hashfn: H,
    m: Map<usize, usize>,
    done: Seq<T>,
    items: Seq<T>,
    mid: Map<usize, usize>,
)
    requires
        count_allowed(hashfn, m, done + items),
        counts_all(hashfn, m, done, mid),
    ensures
        count_allowed(hashfn, mid, items),
    decreases done.len(),
{
    if done.len() == 0 {
        assert(done + items =~= items);
    } else {
        let j = choose|j: usize| #[trigger]
            call_ensures(hashfn, (&done[0],), j) && counts_all(
                hashfn,
                counted_in(m, j),
                done.drop_first(),
                mid,
            );
        assert((done + items)[0] == done[0]);
        assert((done + items).drop_first() =~= done.drop_first() + items);
        lemma_count_allowed_after(hashfn, counted_in(m, j), done.drop_first(), items, mid);
    }
}

/// An iterator that gives the items of an inner iterator and keeps a
/// histogram of the keys that `H` gives them.
#[derive(Debug)]
pub struct HashMapIterator<T, H, I> {
    pub iter: I,
    pub hashmap: BTreeMap<usize, usize>,
    pub hashfn: H,
    pub phantom: PhantomData<T>,
}

impl<T, H, I> HashMapIterator<T, H, I> where H: Fn(&T) -> usize, I: Iterator<Item = T> {
    #[inline(always)]
    pub fn new(iter: I, hashfn: H) -> (r: Self)
        ensures
            r.iter == iter,
            r.hashfn == hashfn,
            r.hashmap@ == Map::<usize, usize>::empty(),
    {
        HashMapIterator { iter, hashfn, hashmap: BTreeMap::new(), phantom: PhantomData }
    }

    /// The next item of the inner iterator, counted under its key.
    #[inline(always)]
    pub fn next(&mut self) -> (r: Option<T>)
        requires
            old(self).iter.obeys_prophetic_iter_laws(),
            count_allowed(old(self).hashfn, old(self).hashmap@, old(self).iter.remaining()),
        ensures
            final(self).iter.obeys_prophetic_iter_laws(),
            final(self).hashfn == old(self).hashfn,
            final(self).iter.decrease() is Some == old(self).iter.decrease() is Some,
            match r {
                Some(next) => {
                    &&& old(self).iter.remaining().len() > 0
                    &&& next == old(self).iter.remaining()[0]
                    &&& final(self).iter.remaining() == old(self).iter.remaining().drop_first()
                    &&& exists|k: usize| #[trigger]
                        call_ensures(old(self).hashfn, (&next,), k) && final(self).hashmap@
                            == counted_in(old(self).hashmap@, k)
                    &&& old(self).iter.decrease() is Some ==> decreases_to!(old(self).iter.decrease()->0 => final(self).iter.decrease()->0)
                },
                None => {
                    &&& old(self).iter.remaining().len() == 0
                    &&& final(self).iter.remaining().len() == 0
                    &&& final(self).hashmap@ == old(self).hashmap@
                },
            },
    {
        match self.iter.next() {
            Some(next) => {
                let k = (self.hashfn)(&next);
                let count = match self.hashmap.get(&k) {
                    Some(count) => *count,
                    None => 0,
                };
                self.hashmap.insert(k, count + 1);
                assert(self.hashmap@ == counted_in(old(self).hashmap@, k));
                Some(next)
            },
            None => None,
        }
    }

    /// The histogram of all the items of the inner iterator.
    pub fn collect(self) -> (r: BTreeMap<usize, usize>)
        requires
            self.iter.obeys_prophetic_iter_laws(),
            self.iter.decrease() is Some,
            count_allowed(self.hashfn, self.hashmap@, self.iter.remaining()),
        ensures
            counts_all(self.hashfn, self.hashmap@, self.iter.remaining(), r@),
    {
        let mut it = self;
        let ghost all = self.iter.remaining();
        let ghost mut used: int = 0;
        loop
            invariant_except_break
                it.hashfn == self.hashfn,
                it.iter.obeys_prophetic_iter_laws(),
                it.iter.decrease() is Some,
                all == self.iter.remaining(),
                0 <= used <= all.len(),
                it.iter.remaining() == all.skip(used),
                counts_all(self.hashfn, self.hashmap@, all.take(used), it.hashmap@),
                count_allowed(self.hashfn, self.hashmap@, all),
            ensures
                counts_all(self.hashfn, self.hashmap@, all, it.hashmap@),
            decreases it.iter.decrease()->0,
        {
            proof {
                assert(all.take(used) + all.skip(used) =~= all);
                lemma_count_allowed_after(
                    self.hashfn,
                    self.hashmap@,
                    all.take(used),
                    all.skip(used),
                    it.hashmap@,
                );
            }
            let ghost before = it.hashmap@;
            match it.next() {
                Some(next) => {
                    proof {
                        let k = choose|k: usize| #[trigger]
                            call_ensures(self.hashfn, (&next,), k) && it.hashmap@ == counted_in(
                                before,
                                k,
                            );
                        lemma_counts_all_push(
                            self.hashfn,
                            self.hashmap@,
                            all.take(used),
                            before,
                            next,
                            k,
                        );
                        assert(all.take(used).push(next) =~= all.take(used + 1));
                        assert(all.skip(used).drop_first() =~= all.skip(used + 1));
                        used = used + 1;
                    }
                },
                None => {
                    proof {
                        assert(all.take(used) =~= all);
                    }
                    break ;
                },
            }
        }
        it.hashmap
    }
}

/// The call of a histogram on an iterator.
pub trait HasMapIteratorCall: Iterator + Sized {
    /// The iterator over the items of `self` that counts them by the key
    /// that `hashfn` gives them.
    fn histogram<H>(self, hashfn: H) -> (r: HashMapIterator<Self::Item, H, Self>) where
        H: Fn(&Self::Item) -> usize,

        ensures
            r.iter == self,
            r.hashfn == hashfn,
            r.hashmap@ == Map::<usize, usize>::empty(),
    {
        HashMapIterator::new(self, hashfn)
    }
}

impl<T> HasMapIteratorCall for T where T: Iterator {

}

} // verus!
