//! The stateful operators: maximal runs under a relation, and the merging
//! of overlapping values.

use super::adapter::{AdaptFnTrait, Signal};
use std::collections::BTreeMap;
use std::ops::ControlFlow;
use super::reducer::pop_first;
use vstd::laws_cmp::{obeys_cmp, obeys_cmp_ord, obeys_partial_cmp_spec_properties};
use vstd::std_specs::btree::{increasing_seq, spec_btree_map_iter};
use vstd::std_specs::cmp::{OrdSpec, PartialOrdSpec};
use vstd::std_specs::iter::IteratorSpec;
use vstd::pervasive::cloned;
use vstd::prelude::*;

verus! {

/// What a `GroupBy` holds of the run that it is reading.
pub enum GroupByState<T> where T: Clone {
    /// Nothing has been read since the last run was emitted.
    Empty,
    /// One value has been read.
    Consumed(T),
    /// A run of two or more values has been read: its first and its last.
    Lazy((T, T)),
}

impl<T: Clone> Clone for GroupByState<T> {
    fn clone(&self) -> (r: Self)
        ensures
            match (*self, r) {
                (GroupByState::Empty, GroupByState::Empty) => true,
                (GroupByState::Consumed(a), GroupByState::Consumed(b)) => cloned(a, b),
                (GroupByState::Lazy(a), GroupByState::Lazy(b)) => cloned(a.0, b.0) && cloned(
                    a.1,
                    b.1,
                ),
                _ => false,
            },
    {
        match self {
            GroupByState::Empty => GroupByState::Empty,
            GroupByState::Consumed(v) => GroupByState::Consumed(v.clone()),
            GroupByState::Lazy((first, last)) => GroupByState::Lazy((first.clone(), last.clone())),
        }
    }
}

/// The operator that emits, as `(first, last)`, each maximal run of the
/// stream in which the relation `F` holds of every value and the next one.
pub struct GroupBy<Input, F>(pub F, pub GroupByState<Input>) where Input: Clone;

impl<Input, F> GroupBy<Input, F> where Input: Clone {
    pub fn new(f: F) -> (r: Self)
        ensures
            r.0 == f,
            r.1 is Empty,
    {
        Self(f, GroupByState::Empty)
    }
}

/// The relation `f` may deny itself of `v`, with nothing emitted, or hold of
/// it, with the run `(v, copy)` of that one value emitted.
pub open spec fn emits_single<Input, F>(f: F, v: Input, out: Option<(Input, Input)>) -> bool where
    F: Fn(&Input, &Input) -> bool,
    Input: Clone,
 {
    &&& call_ensures(f, (&v, &v), out is Some)
    &&& out matches Some(run) ==> run.0 == v && cloned(v, run.1)
}

impl<Input, F> AdaptFnTrait for GroupBy<Input, F> where
    F: Fn(&Input, &Input) -> bool,
    Input: Clone,
 {
    type Input = Input;

    type Output = (Input, Input);

    open spec fn inv(&self) -> bool {
        true
    }

    open spec fn accepts(&self, next: Input) -> bool {
        match self.1 {
            GroupByState::Empty => true,
            GroupByState::Consumed(prev) => call_requires(self.0, (&prev, &next)) && call_requires(
                self.0,
                (&prev, &prev),
            ),
            GroupByState::Lazy((_, stop)) => call_requires(self.0, (&stop, &next)),
        }
    }

    open spec fn adapts(&self, next: Input, after: Self, out: Signal<(Input, Input)>) -> bool {
        &&& after.0 == self.0
        &&& out matches ControlFlow::Continue(run)
        &&& match self.1 {
            GroupByState::Empty => after.1 == GroupByState::Consumed(next) && run is None,
            GroupByState::Consumed(prev) => {
                ||| {
                    &&& call_ensures(self.0, (&prev, &next), true)
                    &&& after.1 == GroupByState::Lazy((prev, next))
                    &&& run is None
                }
                ||| {
                    &&& call_ensures(self.0, (&prev, &next), false)
                    &&& after.1 == GroupByState::Consumed(next)
                    &&& emits_single(self.0, prev, run)
                }
            },
            GroupByState::Lazy((start, stop)) => {
                ||| {
                    &&& call_ensures(self.0, (&stop, &next), true)
                    &&& after.1 == GroupByState::Lazy((start, next))
                    &&& run is None
                }
                ||| {
                    &&& call_ensures(self.0, (&stop, &next), false)
                    &&& after.1 == GroupByState::Consumed(next)
                    &&& run == Some((start, stop))
                }
            },
        }
    }

    open spec fn can_finalize(&self) -> bool {
        self.1 matches GroupByState::Consumed(prev) ==> call_requires(self.0, (&prev, &prev))
    }

    open spec fn finalizes(&self, after: Self, out: Signal<(Input, Input)>) -> bool {
        &&& after.0 == self.0
        &&& after.1 is Empty
        &&& match self.1 {
            GroupByState::Empty => out is Break,
            GroupByState::Consumed(prev) => match out {
                ControlFlow::Continue(run) => run is Some && emits_single(self.0, prev, run),
                ControlFlow::Break(_) => emits_single(self.0, prev, None),
            },
            GroupByState::Lazy(run) => out == Signal::<(Input, Input)>::Continue(Some(run)),
        }
    }

    open spec fn pending(&self) -> nat {
        if self.1 is Empty {
            0
        } else {
            1
        }
    }

    #[inline(always)]
    fn adapt(&mut self, next: Input) -> (out: Signal<(Input, Input)>) {
        let mut state = GroupByState::Empty;
        core::mem::swap(&mut self.1, &mut state);
        match state {
            GroupByState::Empty => {
                self.1 = GroupByState::Consumed(next);
                ControlFlow::Continue(None)
            },
            GroupByState::Consumed(prev) => {
                if (self.0)(&prev, &next) {
                    self.1 = GroupByState::Lazy((prev, next));
                    ControlFlow::Continue(None)
                } else if (self.0)(&prev, &prev) {
                    let copy = prev.clone();
                    self.1 = GroupByState::Consumed(next);
                    ControlFlow::Continue(Some((prev, copy)))
                } else {
                    self.1 = GroupByState::Consumed(next);
                    ControlFlow::Continue(None)
                }
            },
            GroupByState::Lazy((start, stop)) => {
                if (self.0)(&stop, &next) {
                    self.1 = GroupByState::Lazy((start, next));
                    ControlFlow::Continue(None)
                } else {
                    self.1 = GroupByState::Consumed(next);
                    ControlFlow::Continue(Some((start, stop)))
                }
            },
        }
    }

    #[inline(always)]
    fn finalize(&mut self) -> (out: Signal<(Input, Input)>) {
        let mut state = GroupByState::Empty;
        core::mem::swap(&mut self.1, &mut state);
        match state {
            GroupByState::Empty => ControlFlow::Break(()),
            GroupByState::Consumed(prev) => {
                if (self.0)(&prev, &prev) {
                    let copy = prev.clone();
                    ControlFlow::Continue(Some((prev, copy)))
                } else {
                    ControlFlow::Break(())
                }
            },
            GroupByState::Lazy(run) => ControlFlow::Continue(Some(run)),
        }
    }
}


/// `f` unites the entry under `k` with `next` into `val`, and none of the
/// entries under a lesser key.
pub open spec fn first_hit<Input, F, Key>(
    f: F,
    m: Map<Key, Input>,
    next: Input,
    k: Key,
    val: Input,
) -> bool where F: Fn(&Input, &Input) -> Option<Input>, Key: Ord {
    &&& m.contains_key(k)
    &&& call_ensures(f, (&m[k], &next), Some(val))
    &&& forall|j: Key| #[trigger]
        m.contains_key(j) && j.cmp_spec(&k) is Less ==> call_ensures(
            f,
            (&m[j], &next),
            None::<Input>,
        )
}

/// `k` is the least key of `m`.
pub open spec fn least_key<Input, Key: Ord>(m: Map<Key, Input>, k: Key) -> bool {
    &&& m.contains_key(k)
    &&& forall|j: Key| #[trigger] m.contains_key(j) ==> !(j.cmp_spec(&k) is Less)
}

/// Of the entries `left` the one with the least key is emitted and `rest`
/// stays, or `left` is empty and the output ends.
pub open spec fn emits_least<Input, Key: Ord>(
    left: Map<Key, Input>,
    rest: Map<Key, Input>,
    out: Signal<Input>,
) -> bool {
    match out {
        ControlFlow::Continue(v) => exists|k: Key|
            {
                &&& #[trigger] least_key(left, k)
                &&& v == Some(left[k])
                &&& rest == left.remove(k)
            },
        ControlFlow::Break(_) => left.dom() =~= Set::<Key>::empty() && rest == left,
    }
}

/// `f` unites none of the entries with `next`.
pub open spec fn no_hit<Input, F, Key>(f: F, m: Map<Key, Input>, next: Input) -> bool where
    F: Fn(&Input, &Input) -> Option<Input>,
 {
    forall|j: Key| #[trigger] m.contains_key(j) ==> call_ensures(f, (&m[j], &next), None::<Input>)
}

/// The operator that keeps the values of the stream in a map ordered by the
/// key that `KeyFn` gives them, unites each new value with the first entry
/// that `F` unites it with, and emits the entries when the stream has ended.
pub struct Merge<Input, F, KeyFn, Key>(
    pub F,
    pub KeyFn,
    pub BTreeMap<Key, Input>,
    pub Option<BTreeMap<Key, Input>>,
) where Input: Clone;

impl<Input, F, KeyFn, Key> Merge<Input, F, KeyFn, Key> where Input: Clone {
    /// The entries that are still to be emitted: all of them until the first
    /// call of `finalize`, which sets a copy of the map aside.
    pub open spec fn left(&self) -> Map<Key, Input> {
        match self.3 {
            Some(left) => left@,
            None => self.2@,
        }
    }

    pub fn new(f: F, keyfn: KeyFn) -> (r: Self)
        ensures
            r.0 == f,
            r.1 == keyfn,
            r.2@ == Map::<Key, Input>::empty(),
            r.3 is None,
    {
        Self(f, keyfn, BTreeMap::new(), None)
    }
}

impl<Input, F, KeyFn, Key> AdaptFnTrait for Merge<Input, F, KeyFn, Key> where
    KeyFn: Fn(&Input) -> Key,
    F: Fn(&Input, &Input) -> Option<Input>,
    Input: Clone,
    Key: Ord + Clone,
 {
    type Input = Input;

    type Output = Input;

    open spec fn inv(&self) -> bool {
        obeys_cmp::<Key>()
    }

    open spec fn accepts(&self, next: Input) -> bool {
        &&& call_requires(self.1, (&next,))
        &&& forall|j: Key| #[trigger] self.2@.contains_key(j) ==> call_requires(self.0, (&self.2@[j], &next))
        &&& forall|j: Key, copy: Input|
            self.2@.contains_key(j) && #[trigger] cloned(self.2@[j], copy) ==> call_requires(
                self.1,
                (&copy,),
            )
        &&& forall|j: Key, val: Input|
            self.2@.contains_key(j) && #[trigger] call_ensures(
                self.0,
                (&self.2@[j], &next),
                Some(val),
            ) ==> call_requires(self.1, (&val,))
    }

    open spec fn adapts(&self, next: Input, after: Self, out: Signal<Input>) -> bool {
        &&& after.0 == self.0
        &&& after.1 == self.1
        &&& after.3 == self.3
        &&& out == Signal::<Input>::Continue(None)
        &&& {
            ||| exists|k: Key, val: Input, copy: Input, gone: Key, kept: Key|
                {
                    &&& #[trigger] first_hit(self.0, self.2@, next, k, val)
                    &&& cloned(self.2@[k], copy)
                    &&& #[trigger] call_ensures(self.1, (&copy,), gone)
                    &&& #[trigger] call_ensures(self.1, (&val,), kept)
                    &&& after.2@ == self.2@.remove(gone).insert(kept, val)
                }
            ||| exists|kept: Key|
                {
                    &&& no_hit(self.0, self.2@, next)
                    &&& #[trigger] call_ensures(self.1, (&next,), kept)
                    &&& after.2@ == self.2@.insert(kept, next)
                }
        }
    }

    open spec fn can_finalize(&self) -> bool {
        true
    }

    open spec fn finalizes(&self, after: Self, out: Signal<Input>) -> bool {
        &&& after.0 == self.0
        &&& after.1 == self.1
        &&& after.2@ == self.2@
        &&& after.3 matches Some(rest)
        &&& emits_least(self.left(), rest@, out)
    }

    open spec fn pending(&self) -> nat {
        self.left().len()
    }

    #[inline(always)]
    fn adapt(&mut self, next: Input) -> (out: Signal<Input>) {
        let mut consumed: Option<(Input, Input)> = None;
        let ghost mut at: int = 0;
        for entry in it: self.2.iter()
            invariant_except_break
                consumed is None,
                forall|i: int|
                    0 <= i < it.index() ==> call_ensures(
                        self.0,
                        (it.seq()[i].1, &next),
                        None::<Input>,
                    ),
            invariant
                obeys_cmp::<Key>(),
                *self == *old(self),
                old(self).accepts(next),
                it.seq() == spec_btree_map_iter(&self.2).remaining(),
                it.seq().len() == self.2@.dom().len(),
            ensures
                consumed is None ==> scanned_all(self.0, it.seq().unref(), next),
                consumed matches Some((copy, val)) ==> {
                    &&& 0 <= at < it.seq().len()
                    &&& scanned(self.0, it.seq().unref(), next, at)
                    &&& call_ensures(self.0, (it.seq()[at].1, &next), Some(val))
                    &&& cloned(*it.seq()[at].1, copy)
                },
        {
            let (_, prev) = entry;
            proof {
                at = it.index();
                assert(self.2@.contains_key(*it.seq()[at].0));
            }
            let ret = (self.0)(prev, &next);
            if let Some(val) = ret {
                consumed = Some((prev.clone(), val));
                break ;
            }
        }
        let ghost entries = spec_btree_map_iter(&self.2).remaining().unref();
        proof {
            lemma_entries(&self.2);
        }
        if let Some((prev, val)) = consumed {
            proof {
                lemma_first_hit(self.0, self.2@, next, entries, at, val);
            }
            let gone = (self.1)(&prev);
            self.2.remove(&gone);
            let kept = (self.1)(&val);
            self.2.insert(kept, val);
            proof {
                assert(first_hit(old(self).0, old(self).2@, next, entries[at].0, val));
                assert(call_ensures(old(self).1, (&prev,), gone));
                assert(call_ensures(old(self).1, (&val,), kept));
            }
        } else {
            proof {
                lemma_no_hit(self.0, self.2@, next, entries);
            }
            let kept = (self.1)(&next);
            self.2.insert(kept, next);
            proof {
                assert(call_ensures(old(self).1, (&next,), kept));
            }
        }
        ControlFlow::Continue(None)
    }

    #[inline(always)]
    fn finalize(&mut self) -> (out: Signal<Input>) {
        let mut left = match self.3.take() {
            Some(left) => left,
            None => self.2.clone(),
        };
        let ghost before = left@;
        assert(before == old(self).left());
        let first = pop_first(&mut left);
        self.3 = Some(left);
        match first {
            Some((k, v)) => {
                proof {
                    assert(least_key(before, k));
                    assert(before.remove(k).len() < before.len());
                }
                ControlFlow::Continue(Some(v))
            },
            None => {
                assert(before.dom() =~= Set::<Key>::empty());
                ControlFlow::Break(())
            },
        }
    }
}

/// `f` unites none of the first `n` of `entries` with `next`.
pub open spec fn scanned<Input, F, Key>(
    f: F,
    entries: Seq<(Key, Input)>,
    next: Input,
    n: int,
) -> bool where F: Fn(&Input, &Input) -> Option<Input> {
    forall|i: int| 0 <= i < n ==> call_ensures(f, (&(#[trigger] entries[i]).1, &next), None::<Input>)
}

/// `f` unites none of `entries` with `next`.
pub open spec fn scanned_all<Input, F, Key>(f: F, entries: Seq<(Key, Input)>, next: Input) -> bool where
    F: Fn(&Input, &Input) -> Option<Input>,
 {
    scanned(f, entries, next, entries.len() as int)
}

/// `entries` lists the map `m` by rising key.
pub open spec fn lists<Input, Key: Ord>(entries: Seq<(Key, Input)>, m: Map<Key, Input>) -> bool {
    &&& forall|i: int|
        0 <= i < entries.len() ==> m.contains_key((#[trigger] entries[i]).0) && m[entries[i].0]
            == entries[i].1
    &&& forall|k: Key| #[trigger]
        m.contains_key(k) ==> exists|i: int| 0 <= i < entries.len() && (#[trigger] entries[i]).0 == k
    &&& forall|i: int, j: int|
        0 <= i < j < entries.len() ==> (#[trigger] entries[i]).0.cmp_spec(&(#[trigger] entries[j]).0) is Less
}

proof fn lemma_entries<Input, Key: Ord>(m: &BTreeMap<Key, Input>)
    requires
        obeys_cmp::<Key>(),
        spec_btree_map_iter(m).remaining().no_duplicates(),
        increasing_seq(spec_btree_map_iter(m).remaining().map_values(|kv: (&Key, &Input)| *kv.0)),
    ensures
        lists(spec_btree_map_iter(m).remaining().unref(), m@),
{
    broadcast use vstd::std_specs::btree::group_btree_axioms;

    let v = spec_btree_map_iter(m).remaining();
    let entries = v.unref();
    let keys = v.map_values(|kv: (&Key, &Input)| *kv.0);
    assert forall|k: Key| #[trigger] m@.contains_key(k) implies exists|i: int|
        0 <= i < entries.len() && (#[trigger] entries[i]).0 == k by {
        assert(v.contains((&k, &m@[k])));
        let i = choose|i: int| 0 <= i < v.len() && v[i] == (&k, &m@[k]);
        assert(entries[i].0 == k);
    }
    assert forall|i: int, j: int| 0 <= i < j < entries.len() implies (#[trigger] entries[i]).0.cmp_spec(
        &(#[trigger] entries[j]).0,
    ) is Less by {
        assert(keys[i] == entries[i].0);
        assert(keys[j] == entries[j].0);
    }
    assert forall|i: int| 0 <= i < entries.len() implies m@.contains_key((#[trigger] entries[i]).0)
        && m@[entries[i].0] == entries[i].1 by {
        assert(m@.contains_key(*v[i].0));
    }
}

proof fn lemma_first_hit<Input, F, Key: Ord>(
    f: F,
    m: Map<Key, Input>,
    next: Input,
    entries: Seq<(Key, Input)>,
    at: int,
    val: Input,
) where F: Fn(&Input, &Input) -> Option<Input>
    requires
        obeys_cmp::<Key>(),
        lists(entries, m),
        0 <= at < entries.len(),
        scanned(f, entries, next, at),
        call_ensures(f, (&entries[at].1, &next), Some(val)),
    ensures
        first_hit(f, m, next, entries[at].0, val),
{
    reveal(obeys_partial_cmp_spec_properties);
    reveal(obeys_cmp_ord);
    let k = entries[at].0;
    assert forall|j: Key| #[trigger] m.contains_key(j) && j.cmp_spec(&k) is Less implies call_ensures(
        f,
        (&m[j], &next),
        None::<Input>,
    ) by {
        let i = choose|i: int| 0 <= i < entries.len() && (#[trigger] entries[i]).0 == j;
        if i > at {
            assert(entries[at].0.cmp_spec(&entries[i].0) is Less);
            assert(k.partial_cmp_spec(&j) == Some(k.cmp_spec(&j)));
            assert(j.partial_cmp_spec(&k) == Some(j.cmp_spec(&k)));
        } else if i == at {
            assert(k.partial_cmp_spec(&k) == Some(k.cmp_spec(&k)));
        }
    }
}

proof fn lemma_no_hit<Input, F, Key: Ord>(
    f: F,
    m: Map<Key, Input>,
    next: Input,
    entries: Seq<(Key, Input)>,
) where F: Fn(&Input, &Input) -> Option<Input>
    requires
        lists(entries, m),
        scanned_all(f, entries, next),
    ensures
        no_hit(f, m, next),
{
    assert forall|j: Key| #[trigger] m.contains_key(j) implies call_ensures(
        f,
        (&m[j], &next),
        None::<Input>,
    ) by {
        let i = choose|i: int| 0 <= i < entries.len() && (#[trigger] entries[i]).0 == j;
        assert(call_ensures(f, (&entries[i].1, &next), None::<Input>));
    }
}

} // verus!
