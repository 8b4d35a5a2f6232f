//! Grouping as a matcher: the maximal runs of a stream under a relation,
//! found with a state machine of four states.

use crate::matcher::{MatchType, TMatch};
use vstd::pervasive::unreached;
use vstd::prelude::*;

verus! {

/// What a `GroupBy` holds of the run that it is reading.
#[derive(Debug)]
pub enum GroupByState<T> {
    /// Nothing has been read since the matcher was made or finalized.
    Empty,
    /// One value has been read, of which the relation does not hold with
    /// itself.
    Consumed(T),
    /// One value has been read, of which the relation holds with itself.
    LazyReflexive(T),
    /// A run of two or more values has been read: its first and its last.
    Lazy(MatchType<T>),
}

impl<T> GroupByState<T> where T: Copy {
    /// The run that the state holds, if it is one that is given.
    pub open spec fn spec_current_match(&self) -> Option<MatchType<T>> {
        match *self {
            GroupByState::Empty => None,
            GroupByState::Consumed(_) => None,
            GroupByState::LazyReflexive(a) => Some((a, a)),
            GroupByState::Lazy(run) => Some(run),
        }
    }

    #[inline(always)]
    fn current_match(&self) -> (r: Option<MatchType<T>>)
        ensures
            r == self.spec_current_match(),
    {
        match *self {
            GroupByState::Empty => None,
            GroupByState::Consumed(_) => None,
            GroupByState::LazyReflexive(a) => Some((a, a)),
            GroupByState::Lazy((a, b)) => Some((a, b)),
        }
    }
}

/// The matcher that gives the maximal runs of a stream in which the
/// relation `R` holds of every value and the next one. A single value is
/// given as a run only if the relation holds of it with itself.
#[derive(Debug)]
pub struct GroupBy<T, R> {
    pub state: GroupByState<T>,
    pub relation: R,
}

/// What `from_next` makes of `next`: the state of a run of that one value,
/// by what `relation` answers for the value and itself.
pub open spec fn starts_run<T, R: Fn(T, T) -> bool>(
    relation: R,
    next: T,
    state: GroupByState<T>,
) -> bool {
    ||| call_ensures(relation, (next, next), true) && state == GroupByState::LazyReflexive(next)
    ||| call_ensures(relation, (next, next), false) && state == GroupByState::Consumed(next)
}

/// With a run in hand that ends with `end` and would be given as `run`, the
/// value `next` either lengthens the run, from `begin`, or starts a new one.
pub open spec fn goes_on<T, R: Fn(T, T) -> bool>(
    relation: R,
    begin: T,
    end: T,
    run: Option<MatchType<T>>,
    next: T,
    state: GroupByState<T>,
    out: Option<MatchType<T>>,
) -> bool {
    ||| {
        &&& call_ensures(relation, (end, next), true)
        &&& state == GroupByState::Lazy((begin, next))
        &&& out is None
    }
    ||| {
        &&& call_ensures(relation, (end, next), false)
        &&& starts_run(relation, next, state)
        &&& out == run
    }
}

/// What `transition` makes of the state `before` when the value `next` is
/// read.
pub open spec fn moves<T, R: Fn(T, T) -> bool>(
    relation: R,
    before: GroupByState<T>,
    next: T,
    state: GroupByState<T>,
    out: Option<MatchType<T>>,
) -> bool {
    match before {
        GroupByState::Empty => starts_run(relation, next, state) && out is None,
        GroupByState::Lazy((begin, end)) => goes_on(
            relation,
            begin,
            end,
            Some((begin, end)),
            next,
            state,
            out,
        ),
        GroupByState::Consumed(end) => goes_on(relation, end, end, None, next, state, out),
        GroupByState::LazyReflexive(end) => goes_on(
            relation,
            end,
            end,
            Some((end, end)),
            next,
            state,
            out,
        ),
    }
}

impl<T, R> GroupBy<T, R> where T: Copy, R: Fn(T, T) -> bool {
    #[inline(always)]
    pub fn new(relation: R) -> (r: Self)
        ensures
            r.relation == relation,
            r.state is Empty,
    {
        GroupBy { relation, state: GroupByState::Empty }
    }

    /// What holds of the matcher: the relation answers for every two values.
    pub open spec fn total(&self) -> bool {
        forall|a: T, b: T| #[trigger] call_requires(self.relation, (a, b))
    }

    #[inline(always)]
    fn from_next(&mut self, next: T) -> (r: GroupByState<T>)
        requires
            old(self).total(),
        ensures
            *final(self) == *old(self),
            starts_run(old(self).relation, next, r),
    {
        if self.predicate(next, next) {
            GroupByState::LazyReflexive(next)
        } else {
            GroupByState::Consumed(next)
        }
    }

    #[inline(always)]
    fn predicate(&mut self, a: T, b: T) -> (r: bool)
        requires
            old(self).total(),
        ensures
            *final(self) == *old(self),
            call_ensures(old(self).relation, (a, b), r),
    {
        (self.relation)(a, b)
    }

    #[inline(always)]
    fn change_state(&mut self, s: GroupByState<T>)
        ensures
            final(self).state == s,
            final(self).relation == old(self).relation,
    {
        self.state = s;
    }

    #[inline(always)]
    fn state(&self) -> (r: &GroupByState<T>)
        ensures
            *r == self.state,
    {
        &self.state
    }

    /// The step of the state machine: `o` is `Empty` for the end of the
    /// stream, or the state of a run of the one value that was read.
    #[inline(always)]
    fn transition(&mut self, o: GroupByState<T>) -> (out: Option<MatchType<T>>)
        requires
            old(self).total(),
            !(o is Lazy),
        ensures
            final(self).relation == old(self).relation,
            match o {
                GroupByState::Empty => out == old(self).state.spec_current_match()
                    && final(self).state is Empty,
                GroupByState::Consumed(next) | GroupByState::LazyReflexive(next) => moves(
                    old(self).relation,
                    old(self).state,
                    next,
                    final(self).state,
                    out,
                ),
                GroupByState::Lazy(_) => true,
            },
    {
        match o {
            GroupByState::Empty => {
                let res = self.state().current_match();
                self.change_state(GroupByState::Empty);
                res
            },
            GroupByState::Consumed(next) | GroupByState::LazyReflexive(next) => {
                match *self.state() {
                    GroupByState::Empty => {
                        let s = self.from_next(next);
                        self.change_state(s);
                        None
                    },
                    GroupByState::Lazy((begin, end)) => {
                        if self.predicate(end, next) {
                            self.change_state(GroupByState::Lazy((begin, next)));
                            None
                        } else {
                            let s = self.from_next(next);
                            self.change_state(s);
                            Some((begin, end))
                        }
                    },
                    GroupByState::Consumed(end) => {
                        if self.predicate(end, next) {
                            self.change_state(GroupByState::Lazy((end, next)));
                            None
                        } else {
                            let s = self.from_next(next);
                            self.change_state(s);
                            None
                        }
                    },
                    GroupByState::LazyReflexive(end) => {
                        if self.predicate(end, next) {
                            self.change_state(GroupByState::Lazy((end, next)));
                            None
                        } else {
                            let s = self.from_next(next);
                            self.change_state(s);
                            Some((end, end))
                        }
                    },
                }
            },
            GroupByState::Lazy((_, _)) => unreached(),
        }
    }
}

impl<T, R> TMatch<T> for GroupBy<T, R> where T: Copy, R: Fn(T, T) -> bool {
    open spec fn inv(&self) -> bool {
        self.total()
    }

    open spec fn reads(&self, next: T, after: Self, out: Option<MatchType<T>>) -> bool {
        &&& after.relation == self.relation
        &&& moves(self.relation, self.state, next, after.state, out)
    }

    open spec fn finalizes(&self, after: Self, out: Option<MatchType<T>>) -> bool {
        &&& after.relation == self.relation
        &&& after.state is Empty
        &&& out == self.state.spec_current_match()
    }

    open spec fn spec_is_empty(&self) -> bool {
        self.state is Empty
    }

    #[inline(always)]
    fn next(&mut self, next: T) -> (out: Option<MatchType<T>>) {
        let s = self.from_next(next);
        self.transition(s)
    }

    #[inline(always)]
    fn finalize(&mut self) -> (out: Option<MatchType<T>>) {
        self.transition(GroupByState::Empty)
    }

    #[inline(always)]
    fn is_empty(&mut self) -> (r: bool) {
        match self.state() {
            GroupByState::Empty => true,
            _ => false,
        }
    }
}

} // verus!
