//! Matchers: state machines that read a stream value by value and give
//! ranges of it, and the iterator that drives one over an inner iterator.

use vstd::prelude::*;
use vstd::std_specs::iter::IteratorSpec;

verus! {

/// A range of a stream: one value, or the first and the last of several.
#[derive(Debug, Eq, PartialEq, Copy, Clone)]
pub enum MatchRange<T> where T: Copy {
    Single(T),
    Many(T, T),
}

impl<T> MatchRange<T> where T: Copy {
    /// The first value of the range.
    #[inline(always)]
    pub fn start(self) -> (r: T)
        ensures
            r == match self {
                MatchRange::Single(a) => a,
                MatchRange::Many(a, _) => a,
            },
    {
        match self {
            MatchRange::Single(a) => a,
            MatchRange::Many(a, _b) => a,
        }
    }

    /// The last value of the range.
    #[inline(always)]
    pub fn end(self) -> (r: T)
        ensures
            r == match self {
                MatchRange::Single(a) => a,
                MatchRange::Many(_, b) => b,
            },
    {
        match self {
            MatchRange::Single(a) => a,
            MatchRange::Many(_a, b) => b,
        }
    }

    /// The range from `range.0` to `range.1`.
    pub fn from_pair(range: (T, T)) -> (r: Self)
        ensures
            r == MatchRange::Many(range.0, range.1),
    {
        MatchRange::Many(range.0, range.1)
    }

    /// The range of the one value `val`.
    pub fn from_value(val: T) -> (r: Self)
        ensures
            r == MatchRange::Single(val),
    {
        MatchRange::Single(val)
    }

    /// The first and the last value of a range of several values.
    pub fn into_pair(self) -> (r: (T, T))
        requires
            self is Many,
        ensures
            self == MatchRange::Many(r.0, r.1),
    {
        match self {
            MatchRange::Single(a) => (a, a),
            MatchRange::Many(a, b) => (a, b),
        }
    }
}

/// What a matcher gives: the first and the last value of a range.
pub type MatchType<T> = (T, T);

/// A state machine that reads a stream value by value and now and then
/// gives a range of it.
pub trait TMatch<T> where T: Copy {
    /// What holds of the matcher between calls.
    spec fn inv(&self) -> bool;

    /// `next(next)` may leave the state `after` and return `out`.
    spec fn reads(&self, next: T, after: Self, out: Option<MatchType<T>>) -> bool where Self: Sized;

    /// `finalize()` may leave the state `after` and return `out`.
    spec fn finalizes(&self, after: Self, out: Option<MatchType<T>>) -> bool where Self: Sized;

    /// Whether the matcher holds nothing.
    spec fn spec_is_empty(&self) -> bool;

    fn next(&mut self, next: T) -> (out: Option<MatchType<T>>) where Self: Sized
        requires
            old(self).inv(),
        ensures
            final(self).inv(),
            old(self).reads(next, *final(self), out),
    ;

    fn finalize(&mut self) -> (out: Option<MatchType<T>>) where Self: Sized
        requires
            old(self).inv(),
        ensures
            final(self).inv(),
            old(self).finalizes(*final(self), out),
            final(self).spec_is_empty(),
    ;

    fn is_empty(&mut self) -> (r: bool) where Self: Sized
        requires
            old(self).inv(),
        ensures
            r == old(self).spec_is_empty(),
            *final(self) == *old(self),
    ;
}

/// `next` is called on `items` in turn until one call gives a range: that
/// range is `out`, the matcher is then in the state `after`, and no item is
/// left. Where no call gives a range, `out` is `None`.
pub open spec fn reads_until<T: Copy, M: TMatch<T>>(
    m: M,
    items: Seq<T>,
    after: M,
    out: Option<MatchType<T>>,
) -> bool
    decreases items.len(),
{
    if items.len() == 0 {
        after == m && out is None
    } else {
        exists|mid: M, r: Option<MatchType<T>>| #[trigger]
            m.reads(items[0], mid, r) && if r is None {
                reads_until(mid, items.drop_first(), after, out)
            } else {
                items.len() == 1 && after == mid && out == r
            }
    }
}

/// The matcher `m` takes the first `used` of the items `all` and is left in
/// the state `after` with `out` pulled from it: the last of the items made
/// it give `out`, or the items have ended, and `out` is what `finalize`
/// gave, or nothing where the matcher held nothing.
pub open spec fn pulls_range<T: Copy, M: TMatch<T>>(
    m: M,
    all: Seq<T>,
    used: int,
    after: M,
    out: Option<MatchType<T>>,
) -> bool {
    &&& 0 <= used <= all.len()
    &&& exists|mid: M, r: Option<MatchType<T>>| #[trigger]
        reads_until(m, all.take(used), mid, r) && if r is Some {
            out == r && after == mid
        } else {
            used == all.len() && if mid.spec_is_empty() {
                out is None && after == mid
            } else {
                mid.finalizes(after, out)
            }
        }
}

/// One more item, read after items that gave no range.
pub proof fn lemma_reads_until_push<T: Copy, M: TMatch<T>>(
    m: M,
    items: Seq<T>,
    mid: M,
    next: T,
    after: M,
    out: Option<MatchType<T>>,
)
    requires
        reads_until(m, items, mid, None),
        mid.reads(next, after, out),
    ensures
        reads_until(m, items.push(next), after, out),
    decreases items.len(),
{
    if items.len() == 0 {
        assert(items.push(next)[0] == next);
        assert(items.push(next).drop_first() =~= Seq::<T>::empty());
        assert(m.reads(items.push(next)[0], after, out));
        if out is None {
            assert(reads_until(after, items.push(next).drop_first(), after, None));
        }
    } else {
        let (n, r) = choose|n: M, r: Option<MatchType<T>>| #[trigger]
            m.reads(items[0], n, r) && if r is None {
                reads_until(n, items.drop_first(), mid, None)
            } else {
                items.len() == 1 && mid == n && None::<MatchType<T>> == r
            };
        lemma_reads_until_push(n, items.drop_first(), mid, next, after, out);
        assert(items.push(next).drop_first() =~= items.drop_first().push(next));
        assert(items.push(next)[0] == items[0]);
        assert(m.reads(items.push(next)[0], n, r));
    }
}

/// The iterator over the ranges that a matcher gives for the items of an
/// inner iterator.
pub struct Matcher<I, M> where I: Iterator, M: TMatch<I::Item>, I::Item: Copy {
    pub iter: I,
    pub matcher: M,
}

impl<I, M> Matcher<I, M> where I: Iterator, M: TMatch<I::Item>, I::Item: Copy {
    pub fn new(iter: I, matcher: M) -> (r: Self)
        ensures
            r.iter == iter,
            r.matcher == matcher,
    {
        Matcher { iter, matcher }
    }

    /// The next range: items of the inner iterator are handed to the
    /// matcher until it gives a range, and when they have ended, the matcher
    /// is finalized unless it holds nothing.
    pub fn next(&mut self) -> (out: Option<MatchType<I::Item>>)
        requires
            old(self).matcher.inv(),
            old(self).iter.obeys_prophetic_iter_laws(),
            old(self).iter.decrease() is Some,
        ensures
            final(self).matcher.inv(),
            final(self).iter.obeys_prophetic_iter_laws(),
            final(self).iter.decrease() is Some,
            exists|used: int|
                {
                    &&& final(self).iter.remaining() == old(self).iter.remaining().skip(used)
                    &&& #[trigger] pulls_range(
                        old(self).matcher,
                        old(self).iter.remaining(),
                        used,
                        final(self).matcher,
                        out,
                    )
                },
    {
        let ghost mut used: int = 0;
        let ghost all = old(self).iter.remaining();
        loop
            invariant_except_break
                self.matcher.inv(),
                self.iter.obeys_prophetic_iter_laws(),
                self.iter.decrease() is Some,
                all == old(self).iter.remaining(),
                0 <= used <= all.len(),
                self.iter.remaining() == all.skip(used),
                reads_until(old(self).matcher, all.take(used), self.matcher, None),
            ensures
                self.matcher.inv(),
                self.iter.obeys_prophetic_iter_laws(),
                self.iter.decrease() is Some,
                used == all.len(),
                self.iter.remaining() == all.skip(used),
                reads_until(old(self).matcher, all.take(used), self.matcher, None),
            decreases self.iter.decrease()->0,
        {
            let ghost before = self.matcher;
            match self.iter.next() {
                Some(next) => {
                    proof {
                        assert(all.skip(used)[0] == next);
                        assert(all.skip(used).drop_first() =~= all.skip(used + 1));
                    }
                    let result = self.matcher.next(next);
                    proof {
                        lemma_reads_until_push(
                            old(self).matcher,
                            all.take(used),
                            before,
                            next,
                            self.matcher,
                            result,
                        );
                        assert(all.take(used).push(next) =~= all.take(used + 1));
                        used = used + 1;
                    }
                    if result.is_some() {
                        assert(pulls_range(old(self).matcher, all, used, self.matcher, result));
                        return result;
                    }
                },
                None => {
                    proof {
                        assert(all.skip(used).len() == 0);
                    }
                    break ;
                },
            }
        }
        let ghost mid = self.matcher;
        if !self.matcher.is_empty() {
            let out = self.matcher.finalize();
            assert(pulls_range(old(self).matcher, all, used, self.matcher, out));
            out
        } else {
            assert(pulls_range(old(self).matcher, all, used, self.matcher, None));
            None
        }
    }
}

/// The call of a matcher on an iterator.
pub trait TMatcherCall: Iterator + Sized {
    /// The iterator over the ranges that `m` gives for the items of `self`.
    fn matches<M>(self, m: M) -> (r: Matcher<Self, M>) where M: TMatch<Self::Item>, Self::Item: Copy
        ensures
            r.iter == self,
            r.matcher == m,
    {
        Matcher::new(self, m)
    }
}

impl<T> TMatcherCall for T where T: Iterator {

}

} // verus!
