//! Lists of values: sorting, removing duplicates and intersecting.

use itertools::Itertools;
use vstd::prelude::*;

verus! {

/// Whether no element is larger than a later one.
pub open spec fn ascending(s: Seq<u64>) -> bool {
    forall|i: int, j: int| 0 <= i < j < s.len() ==> s[i] <= s[j]
}

/// Whether every element is smaller than each later one.
pub open spec fn strictly_increasing(s: Seq<u64>) -> bool {
    forall|i: int, j: int| 0 <= i < j < s.len() ==> s[i] < s[j]
}

/// `s` without the elements that occurred earlier in it.
pub open spec fn first_occurrences(s: Seq<u64>) -> Seq<u64>
    decreases s.len(),
{
    if s.len() == 0 {
        Seq::empty()
    } else if first_occurrences(s.drop_last()).contains(s.last()) {
        first_occurrences(s.drop_last())
    } else {
        first_occurrences(s.drop_last()).push(s.last())
    }
}

/// Calls `Itertools::sorted`, which collects the items, sorts them with the
/// slice's stable sort and hands them out again: the same items, in ascending
/// order.
#[verifier::external_body]
fn sorted(values: Vec<u64>) -> (out: Vec<u64>)
    ensures
        out@.to_multiset() == values@.to_multiset(),
        ascending(out@),
{
    values.into_iter().sorted().collect()
}

/// Calls `Itertools::unique`, which hands out each item the first time it
/// occurs and drops it afterwards, keeping the order.
#[verifier::external_body]
fn unique(values: Vec<u64>) -> (out: Vec<u64>)
    ensures
        out@ == first_occurrences(values@),
{
    values.into_iter().unique().collect()
}

/// An element occurs in a non-empty list if it occurs before the last place
/// or is the last element.
pub proof fn lemma_contains_last(s: Seq<u64>, x: u64)
    requires
        s.len() > 0,
    ensures
        s.contains(x) <==> s.drop_last().contains(x) || s.last() == x,
{
    let init = s.drop_last();
    if s.contains(x) {
        let i = choose|i: int| 0 <= i < s.len() && s[i] == x;
        if i < s.len() - 1 {
            assert(init[i] == x);
        }
    }
    if init.contains(x) {
        let i = choose|i: int| 0 <= i < init.len() && init[i] == x;
        assert(s[i] == x);
    }
    if s.last() == x {
        assert(s[s.len() - 1] == x);
    }
}

/// Dropping repeated elements from an ascending list leaves a strictly
/// increasing list of the same elements.
#[verifier::rlimit(60)]
pub proof fn lemma_first_occurrences_of_ascending(s: Seq<u64>)
    requires
        ascending(s),
    ensures
        strictly_increasing(first_occurrences(s)),
        forall|x: u64| first_occurrences(s).contains(x) <==> s.contains(x),
    decreases s.len(),
{
    if s.len() > 0 {
        let init = s.drop_last();
        let d = first_occurrences(init);
        lemma_first_occurrences_of_ascending(init);
        if d.contains(s.last()) {
            assert forall|x: u64| d.contains(x) <==> s.contains(x) by {
                lemma_contains_last(s, x);
            }
        } else {
            let r = d.push(s.last());
            assert(r.drop_last() =~= d);
            assert forall|x: u64| r.contains(x) <==> s.contains(x) by {
                lemma_contains_last(s, x);
                lemma_contains_last(r, x);
            }
            assert forall|i: int, j: int| 0 <= i < j < r.len() implies r[i] < r[j] by {
                if j == d.len() {
                    assert(d.contains(d[i]));
                    assert(init.contains(d[i]));
                    let k = choose|k: int| 0 <= k < init.len() && init[k] == d[i];
                    assert(s[k] <= s[s.len() - 1]);
                }
            }
        }
    }
}

/// The values of `values`, ascending and without repetition.
pub fn sorted_unique(values: Vec<u64>) -> (out: Vec<u64>)
    ensures
        strictly_increasing(out@),
        out@.to_set() == values@.to_set(),
{
    let ghost given = values@;
    let ordered = sorted(values);
    let out = unique(ordered);
    proof {
        lemma_first_occurrences_of_ascending(ordered@);
        assert forall|x: u64| out@.to_set().contains(x) <==> given.to_set().contains(x) by {
            vstd::seq_lib::to_multiset_contains(given, x);
            vstd::seq_lib::to_multiset_contains(ordered@, x);
        }
        assert(out@.to_set() =~= given.to_set());
    }
    out
}

/// The values that occur in both of two strictly increasing lists.
#[verifier::rlimit(60)]
pub fn intersect(a: &Vec<u64>, b: &Vec<u64>) -> (out: Vec<u64>)
    requires
        strictly_increasing(a@),
        strictly_increasing(b@),
    ensures
        strictly_increasing(out@),
        out@.to_set() == a@.to_set().intersect(b@.to_set()),
{
    let mut out: Vec<u64> = Vec::new();
    let mut i: usize = 0;
    let mut j: usize = 0;
    while i < a.len() && j < b.len()
        invariant
            i <= a@.len(),
            j <= b@.len(),
            strictly_increasing(a@),
            strictly_increasing(b@),
            strictly_increasing(out@),
            forall|k: int| 0 <= k < out@.len() ==> a@.contains(#[trigger] out@[k]),
            forall|k: int| 0 <= k < out@.len() ==> b@.contains(#[trigger] out@[k]),
            forall|k: int, m: int| 0 <= k < out@.len() && i <= m < a@.len() ==> out@[k] < a@[m],
            forall|m: int, n: int|
                #![trigger a@[m], b@[n]]
                0 <= m < i && 0 <= n < b@.len() && a@[m] == b@[n] ==> out@.contains(a@[m]),
            forall|m: int, n: int| i <= m < a@.len() && 0 <= n < j ==> b@[n] < a@[m],
        decreases a@.len() - i + b@.len() - j,
    {
        let x = a[i];
        let y = b[j];
        if x == y {
            let ghost before = out@;
            out.push(x);
            proof {
                assert(out@[before.len() as int] == x);
                assert forall|k: int| 0 <= k < out@.len() implies a@.contains(#[trigger] out@[k]) by {
                    if k < before.len() {
                        assert(a@.contains(before[k]));
                    } else {
                        assert(a@[i as int] == out@[k]);
                    }
                }
                assert forall|k: int| 0 <= k < out@.len() implies b@.contains(#[trigger] out@[k]) by {
                    if k < before.len() {
                        assert(b@.contains(before[k]));
                    } else {
                        assert(b@[j as int] == out@[k]);
                    }
                }
                assert forall|m: int, n: int|
                    #![trigger a@[m], b@[n]]
                    0 <= m < i + 1 && 0 <= n < b@.len() && a@[m] == b@[n] implies out@.contains(
                    a@[m],
                ) by {
                    if m < i {
                        assert(before.contains(a@[m]));
                        let k = choose|k: int| 0 <= k < before.len() && before[k] == a@[m];
                        assert(out@[k] == a@[m]);
                    }
                }
            }
            i += 1;
            j += 1;
        } else if x < y {
            proof {
                assert forall|m: int, n: int|
                    #![trigger a@[m], b@[n]]
                    0 <= m < i + 1 && 0 <= n < b@.len() && a@[m] == b@[n] implies out@.contains(
                    a@[m],
                ) by {
                    if m == i {
                        if n >= j {
                            assert(b@[j as int] <= b@[n]);
                        } else {
                            assert(b@[n] < a@[m]);
                        }
                    }
                }
            }
            i += 1;
        } else {
            j += 1;
        }
    }
    proof {
        assert forall|x: u64|
            out@.to_set().contains(x) <==> a@.to_set().intersect(b@.to_set()).contains(x) by {
            if out@.contains(x) {
                let k = choose|k: int| 0 <= k < out@.len() && out@[k] == x;
                assert(a@.contains(out@[k]));
                assert(b@.contains(out@[k]));
            }
            if a@.contains(x) && b@.contains(x) {
                let m = choose|m: int| 0 <= m < a@.len() && a@[m] == x;
                let n = choose|n: int| 0 <= n < b@.len() && b@[n] == x;
                if m < i {
                    assert(a@[m] == b@[n]);
                    assert(out@.contains(a@[m]));
                } else {
                    assert(n < j);
                    assert(b@[n] < a@[m]);
                }
            }
        }
        assert(out@.to_set() =~= a@.to_set().intersect(b@.to_set()));
    }
    out
}

} // verus!
