//! What an index holds: the values stored under each key, when an index is
//! well formed, and that appending bytes changes neither.

use crate::layout::{
    label_at, links_at, links_from, node_end, prefix_link, root_of, values_at, Link,
};
use crate::values::strictly_increasing;
use crate::wire::u32_at;
use vstd::prelude::*;

verus! {

/// The values that `entries` pairs with `key`, in their order.
pub open spec fn values_for(entries: Seq<(Seq<char>, u64)>, key: Seq<char>) -> Seq<u64>
    decreases entries.len(),
{
    if entries.len() == 0 {
        Seq::empty()
    } else if entries.last().0 == key {
        values_for(entries.drop_last(), key).push(entries.last().1)
    } else {
        values_for(entries.drop_last(), key)
    }
}

/// The values that `entries` pairs with a key are those of its entries
/// with that key.
pub proof fn lemma_values_for_member(entries: Seq<(Seq<char>, u64)>, key: Seq<char>, v: u64)
    ensures
        values_for(entries, key).contains(v) <==> entries.contains((key, v)),
    decreases entries.len(),
{
    if entries.len() > 0 {
        let init = entries.drop_last();
        lemma_values_for_member(init, key, v);
        let before = values_for(init, key);
        if entries.contains((key, v)) {
            let i = choose|i: int| 0 <= i < entries.len() && entries[i] == (key, v);
            if i < init.len() {
                assert(init[i] == (key, v));
                let k = choose|k: int| 0 <= k < before.len() && before[k] == v;
                if entries.last().0 == key {
                    assert(before.push(entries.last().1)[k] == v);
                }
            } else {
                assert(before.push(v)[before.len() as int] == v);
            }
        }
        if values_for(entries, key).contains(v) {
            let k = choose|k: int| 0 <= k < values_for(entries, key).len() && values_for(entries, key)[k] == v;
            if entries.last().0 == key && k == before.len() {
                assert(entries[entries.len() - 1] == (key, v));
            } else {
                assert(before[k] == v);
                let i = choose|i: int| 0 <= i < init.len() && init[i] == (key, v);
                assert(entries[i] == (key, v));
            }
        }
    }
}

/// Entries whose values ascend strictly under every key hold no pair
/// twice.
pub proof fn lemma_entries_distinct(entries: Seq<(Seq<char>, u64)>)
    requires
        forall|k: Seq<char>| strictly_increasing(#[trigger] values_for(entries, k)),
    ensures
        entries.no_duplicates(),
    decreases entries.len(),
{
    if entries.len() > 0 {
        let init = entries.drop_last();
        let (key, val) = entries.last();
        assert forall|k: Seq<char>| strictly_increasing(#[trigger] values_for(init, k)) by {
            let all = values_for(entries, k);
            assert(strictly_increasing(all));
            assert forall|i: int, j: int| 0 <= i < j < values_for(init, k).len() implies values_for(
                init,
                k,
            )[i] < values_for(init, k)[j] by {
                assert(all[i] < all[j]);
            }
        }
        lemma_entries_distinct(init);
        lemma_values_for_member(init, key, val);
        if init.contains((key, val)) {
            let before = values_for(init, key);
            let n = choose|n: int| 0 <= n < before.len() && before[n] == val;
            let all = values_for(entries, key);
            assert(strictly_increasing(all));
            assert(all[n] < all[before.len() as int]);
        }
        assert forall|i: int, j: int| 0 <= i < entries.len() && 0 <= j < entries.len() && i != j implies entries[i]
            != entries[j] by {
            if i < init.len() && j < init.len() {
                assert(init[i] != init[j]);
            } else if i < init.len() {
                assert(init[i] == entries[i]);
                if entries[i] == entries[j] {
                    assert(init.contains((key, val)));
                }
            } else {
                assert(init[j] == entries[j]);
                if entries[i] == entries[j] {
                    assert(init.contains((key, val)));
                }
            }
        }
    }
}

/// The values stored under the path `key` below the node at `off`: those of
/// the node reached by following, at each node, the first edge whose label
/// is a prefix of what is left of the key. Nothing where the path ends
/// early.
pub open spec fn stored(f: Seq<u8>, off: u64, key: Seq<char>) -> Seq<u64>
    decreases off,
{
    if key.len() == 0 {
        match values_at(f, off as int) {
            Ok(vals) => vals,
            Err(_) => Seq::empty(),
        }
    } else {
        match links_at(f, off as int) {
            Err(_) => Seq::empty(),
            Ok(links) => {
                let i = prefix_link(links, key, 0);
                if 0 <= i < links.len() && links[i].child < off {
                    stored(f, links[i].child, key.skip(links[i].label.len() as int))
                } else {
                    Seq::empty()
                }
            },
        }
    }
}

/// Whether the edges are labelled as a prefix tree demands: no label is
/// empty, and the first characters ascend strictly.
pub open spec fn labels_ascend(links: Seq<Link>) -> bool {
    &&& forall|i: int| 0 <= i < links.len() ==> (#[trigger] links[i]).label.len() > 0
    &&& forall|i: int, j: int|
        0 <= i < j < links.len() ==> ((#[trigger] links[i]).label[0] as u32) < (
        #[trigger] links[j]).label[0] as u32
}

/// Whether the node at `off` and every node below it can be read and has
/// edges labelled as a prefix tree demands.
pub open spec fn node_wf(f: Seq<u8>, off: u64) -> bool
    decreases off,
{
    &&& values_at(f, off as int) is Ok
    &&& links_at(f, off as int) is Ok
    &&& labels_ascend(links_at(f, off as int)->Ok_0)
    &&& forall|i: int|
        0 <= i < links_at(f, off as int)->Ok_0.len() && (#[trigger] links_at(
            f,
            off as int,
        )->Ok_0[i]).child < off ==> node_wf(f, links_at(f, off as int)->Ok_0[i].child)
}

/// Whether `f` is a well-formed index that holds exactly `entries`: the
/// root is the last node and the trailer follows it, and under every key
/// stand the values that `entries` pairs with it, in their order.
pub open spec fn holds(f: Seq<u8>, entries: Seq<(Seq<char>, u64)>) -> bool {
    &&& root_of(f) is Ok
    &&& node_end(f, root_of(f)->Ok_0 as int) + 8 == f.len()
    &&& node_wf(f, root_of(f)->Ok_0)
    &&& forall|key: Seq<char>| #[trigger] stored(f, root_of(f)->Ok_0, key) == values_for(entries, key)
}

/// Whether `g` starts with `f`.
pub open spec fn extends(g: Seq<u8>, f: Seq<u8>) -> bool {
    f.len() <= g.len() && forall|i: int| 0 <= i < f.len() ==> g[i] == f[i]
}

/// A label that can be read from `f` reads the same from any text that
/// starts with `f`.
pub proof fn lemma_label_stable(f: Seq<u8>, g: Seq<u8>, pos: int)
    requires
        extends(g, f),
        label_at(f, pos) is Ok,
    ensures
        label_at(g, pos) == label_at(f, pos),
{
    let n = u32_at(f, pos) as int;
    assert(f.subrange(pos + 4, pos + 4 + n) =~= g.subrange(pos + 4, pos + 4 + n));
}

/// Edges that can be read from `f` read the same from any text that starts
/// with `f`.
pub proof fn lemma_links_stable(f: Seq<u8>, g: Seq<u8>, pos: int, n: nat, parent: int)
    requires
        extends(g, f),
        links_from(f, pos, n, parent) is Ok,
    ensures
        links_from(g, pos, n, parent) == links_from(f, pos, n, parent),
    decreases n,
{
    if n > 0 {
        lemma_label_stable(f, g, pos);
        let next = label_at(f, pos)->Ok_0.1;
        lemma_links_stable(f, g, next + 8, (n - 1) as nat, parent);
    }
}

/// A node that can be read from `f` reads the same from any text that
/// starts with `f`.
pub proof fn lemma_node_stable(f: Seq<u8>, g: Seq<u8>, off: int)
    requires
        extends(g, f),
    ensures
        values_at(f, off) is Ok ==> values_at(g, off) == values_at(f, off),
        links_at(f, off) is Ok ==> links_at(g, off) == links_at(f, off),
{
    if values_at(f, off) is Ok {
        assert(values_at(g, off)->Ok_0 =~= values_at(f, off)->Ok_0);
    }
    if links_at(f, off) is Ok {
        let at = off + 4 + 8 * u32_at(f, off);
        lemma_links_stable(f, g, at + 4, u32_at(f, at) as nat, off);
    }
}

/// A well-formed node stays well formed, and keeps what it stores, when
/// bytes are appended to the index.
#[verifier::rlimit(60)]
pub proof fn lemma_wf_stable(f: Seq<u8>, g: Seq<u8>, off: u64)
    requires
        extends(g, f),
        node_wf(f, off),
    ensures
        node_wf(g, off),
        forall|key: Seq<char>| #[trigger] stored(g, off, key) == stored(f, off, key),
    decreases off,
{
    lemma_node_stable(f, g, off as int);
    let links = links_at(f, off as int)->Ok_0;
    assert forall|i: int| 0 <= i < links.len() && (#[trigger] links[i]).child < off implies node_wf(
        g,
        links[i].child,
    ) by {
        lemma_wf_stable(f, g, links[i].child);
    }
    assert forall|key: Seq<char>| #[trigger] stored(g, off, key) == stored(f, off, key) by {
        if key.len() > 0 {
            let i = prefix_link(links, key, 0);
            if 0 <= i < links.len() && links[i].child < off {
                let rest = key.skip(links[i].label.len() as int);
                assert(node_wf(f, links[i].child));
                lemma_wf_stable(f, g, links[i].child);
                assert(stored(g, links[i].child, rest) == stored(f, links[i].child, rest));
            }
        }
    }
}

} // verus!
