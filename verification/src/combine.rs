//! The combining of the results that the partitions of a buffer give: the
//! counts of two histograms add, and the results under one key of two
//! splits are combined in turn.

use crate::generator::reducer::pop_first;
use std::collections::BTreeMap;
use vstd::laws_cmp::obeys_cmp;
use vstd::prelude::*;

verus! {

/// The count of `k` in the histogram `m`.
pub open spec fn count_in<K>(m: Map<K, usize>, k: K) -> int {
    if m.contains_key(k) {
        m[k] as int
    } else {
        0
    }
}

/// `sum` holds, under every key of `a` or of `b`, the count of the key in
/// `a` and in `b` together.
pub open spec fn is_sum_of<K>(sum: Map<K, usize>, a: Map<K, usize>, b: Map<K, usize>) -> bool {
    &&& sum.dom() =~= a.dom().union(b.dom())
    &&& forall|k: K| #[trigger] sum.contains_key(k) ==> sum[k] == count_in(a, k) + count_in(b, k)
}

/// The counts of `a` and `b` can be added under every key.
pub open spec fn sums_fit<K>(a: Map<K, usize>, b: Map<K, usize>) -> bool {
    forall|k: K|
        a.contains_key(k) && b.contains_key(k) ==> #[trigger] count_in(a, k) + count_in(b, k)
            <= usize::MAX
}

/// `all` holds the entries of `a` and of `b`, and under a key of both what
/// `f` makes of the two values.
pub open spec fn is_union_of<K, V, F: Fn(V, V) -> Option<V>>(
    f: F,
    all: Map<K, V>,
    a: Map<K, V>,
    b: Map<K, V>,
) -> bool {
    &&& all.dom() =~= a.dom().union(b.dom())
    &&& forall|k: K|
        #![trigger all[k]]
        all.contains_key(k) ==> if a.contains_key(k) && b.contains_key(k) {
            call_ensures(f, (a[k], b[k]), Some(all[k]))
        } else if a.contains_key(k) {
            all[k] == a[k]
        } else {
            all[k] == b[k]
        }
}

/// `f` fails to combine the two values under some key of both maps.
pub open spec fn union_fails<K, V, F: Fn(V, V) -> Option<V>>(
    f: F,
    a: Map<K, V>,
    b: Map<K, V>,
) -> bool {
    exists|k: K|
        a.contains_key(k) && b.contains_key(k) && #[trigger] call_ensures(
            f,
            (a[k], b[k]),
            None::<V>,
        )
}

/// The sum of two counts, or `None` where it does not fit.
pub fn add_counts(a: usize, b: usize) -> (r: Option<usize>)
    ensures
        r == if a + b <= usize::MAX {
            Some((a + b) as usize)
        } else {
            None
        },
{
    a.checked_add(b)
}

/// The union of two maps, with `f` of the two values under a key of both,
/// or `None` where `f` gives `None` for one of those keys.
pub fn combine_with<K: Ord, V, F: Fn(V, V) -> Option<V>>(
    acc: BTreeMap<K, V>,
    next: BTreeMap<K, V>,
    f: F,
) -> (r: Option<BTreeMap<K, V>>)
    requires
        obeys_cmp::<K>(),
        forall|a: V, b: V| #[trigger] call_requires(f, (a, b)),
    ensures
        match r {
            Some(all) => is_union_of(f, all@, acc@, next@),
            None => union_fails(f, acc@, next@),
        },
{
    let mut all = acc;
    let mut left = next;
    loop
        invariant_except_break
            forall|a: V, b: V| #[trigger] call_requires(f, (a, b)),
            obeys_cmp::<K>(),
            ({
                &&& left@.dom().finite()
                &&& left@.dom() <= next@.dom()
                &&& forall|k: K| #[trigger] left@.contains_key(k) ==> left@[k] == next@[k]
                &&& all@.dom() =~= acc@.dom().union(next@.dom().difference(left@.dom()))
                &&& forall|k: K|
                    #![trigger all@[k]]
                    all@.contains_key(k) ==> if acc@.contains_key(k) && next@.contains_key(k)
                        && !left@.contains_key(k) {
                        call_ensures(f, (acc@[k], next@[k]), Some(all@[k]))
                    } else if acc@.contains_key(k) {
                        all@[k] == acc@[k]
                    } else {
                        all@[k] == next@[k]
                    }
            }),
        ensures
            is_union_of(f, all@, acc@, next@),
        decreases left@.dom().len(),
    {
        match pop_first(&mut left) {
            Some((k, v)) => {
                let ghost before = all@;
                match all.remove(&k) {
                    Some(cur) => {
                        match f(cur, v) {
                            Some(both) => {
                                all.insert(k, both);
                            },
                            None => {
                                proof {
                                    assert(acc@.contains_key(k) && next@.contains_key(k));
                                    assert(call_ensures(f, (acc@[k], next@[k]), None::<V>));
                                }
                                return None;
                            },
                        }
                    },
                    None => {
                        all.insert(k, v);
                    },
                }
            },
            None => {
                break ;
            },
        }
    }
    Some(all)
}

/// The histogram that holds, under every key, the counts of `acc` and of
/// `next` together, or `None` where two counts do not fit into one.
pub fn combine_counts<K: Ord>(acc: BTreeMap<K, usize>, next: BTreeMap<K, usize>) -> (r: Option<
    BTreeMap<K, usize>,
>)
    requires
        obeys_cmp::<K>(),
    ensures
        r is Some == sums_fit(acc@, next@),
        r matches Some(sum) ==> is_sum_of(sum@, acc@, next@),
{
    let r = combine_with(acc, next, add_counts);
    proof {
        {
            match r {
                Some(_) => {
                    let sum = r->0;
                    assert forall|k: K| acc@.contains_key(k) && next@.contains_key(k) implies #[trigger] count_in(
                        acc@,
                        k,
                    ) + count_in(next@, k) <= usize::MAX by {
                        assert(call_ensures(add_counts, (acc@[k], next@[k]), Some(sum@[k])));
                    }
                    assert forall|k: K| #[trigger] sum@.contains_key(k) implies sum@[k] == count_in(
                        acc@,
                        k,
                    ) + count_in(next@, k) by {
                        if acc@.contains_key(k) && next@.contains_key(k) {
                            assert(call_ensures(add_counts, (acc@[k], next@[k]), Some(sum@[k])));
                        }
                    }
                },
                None => {
                    let k = choose|k: K|
                        acc@.contains_key(k) && next@.contains_key(k) && #[trigger] call_ensures(
                            add_counts,
                            (acc@[k], next@[k]),
                            None::<usize>,
                        );
                    assert(count_in(acc@, k) + count_in(next@, k) > usize::MAX);
                },
            }
        }
    }
    r
}

/// The combining of counts does not depend on the order of the two
/// histograms.
pub proof fn lemma_sum_commutes<K>(
    one: Map<K, usize>,
    other: Map<K, usize>,
    a: Map<K, usize>,
    b: Map<K, usize>,
)
    requires
        is_sum_of(one, a, b),
        is_sum_of(other, b, a),
    ensures
        one == other,
{
    assert(one =~= other);
}

/// The combining of counts does not depend on which two of three
/// histograms are combined first.
pub proof fn lemma_sum_associates<K>(
    ab: Map<K, usize>,
    ab_c: Map<K, usize>,
    bc: Map<K, usize>,
    a_bc: Map<K, usize>,
    a: Map<K, usize>,
    b: Map<K, usize>,
    c: Map<K, usize>,
)
    requires
        is_sum_of(ab, a, b),
        is_sum_of(ab_c, ab, c),
        is_sum_of(bc, b, c),
        is_sum_of(a_bc, a, bc),
    ensures
        ab_c == a_bc,
{
    assert forall|k: K| ab_c.contains_key(k) implies a_bc.contains_key(k) && #[trigger] ab_c[k]
        == a_bc[k] by {
        assert(ab.contains_key(k) || c.contains_key(k));
        assert(a_bc.contains_key(k));
        if ab.contains_key(k) {
            assert(ab[k] == count_in(a, k) + count_in(b, k));
        }
        if bc.contains_key(k) {
            assert(bc[k] == count_in(b, k) + count_in(c, k));
        }
    }
    assert(ab_c =~= a_bc);
}

} // verus!
