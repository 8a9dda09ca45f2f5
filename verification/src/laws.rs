//! What holds of every index: a reader finds what a writer or a builder
//! put in, under the key itself and under every prefix of it, and a search
//! for several tokens finds what each of them finds.

use crate::builder::{expand, flagged, indexes, lemma_empty_set, suffix_entries};
use crate::content::{holds, labels_ascend, lemma_values_for_member, node_wf, stored, values_for};
use crate::error::Error;
use crate::staging::{arrange, lemma_arrange};
use crate::writer::{lemma_weight_subset, weight};
use crate::layout::{
    below, exact_ids, exact_result, extension_link, ids, links_at, prefix_link, prefix_result,
    query_tokens, root_of, search_from, search_result, subtree, values_at, walk, Link, DEFLAG,
    FLAG_PARTIAL,
};
use crate::text::{
    alnum_flags, break_points, breaks_at, is_ascii_text, is_prefix, law_piece_of_normal_form,
    law_prefix_of_normal_form, lemma_words_stand, normal_form, space_flags, stands, tokens,
    whitespace, word_at, words,
};
use crate::tree::{lemma_extension_link, lemma_links_point_back, lemma_prefix_link};
use crate::values::strictly_increasing;
use crate::wire::u32_at;
use vstd::prelude::*;

verus! {

/// The edges of a node that can be read lead to smaller offsets.
pub proof fn lemma_children_before(f: Seq<u8>, off: u64)
    requires
        links_at(f, off as int) is Ok,
    ensures
        forall|i: int|
            0 <= i < links_at(f, off as int)->Ok_0.len() ==> (#[trigger] links_at(
                f,
                off as int,
            )->Ok_0[i]).child < off,
{
    let at = off + 4 + 8 * u32_at(f, off as int);
    lemma_links_point_back(f, at + 4, u32_at(f, at) as nat, off as int);
}

/// In a well-formed tree every descent ends, and where it ends at a node
/// the tree below that node is well formed.
pub proof fn lemma_walk_ok(f: Seq<u8>, off: u64, q: Seq<char>)
    requires
        node_wf(f, off),
    ensures
        walk(f, off, q) is Ok,
        walk(f, off, q)->Ok_0 matches Some(n) ==> node_wf(f, n),
    decreases off,
{
    if q.len() > 0 {
        let links = links_at(f, off as int)->Ok_0;
        lemma_children_before(f, off);
        lemma_prefix_link(links, q, 0);
        lemma_extension_link(links, q, 0);
        let i = prefix_link(links, q, 0);
        let j = extension_link(links, q, 0);
        if 0 <= i < links.len() {
            assert(node_wf(f, links[i].child));
            lemma_walk_ok(f, links[i].child, q.skip(links[i].label.len() as int));
        } else if 0 <= j < links.len() {
            assert(node_wf(f, links[j].child));
        }
    }
}

/// Whether the tree below the node at `off` stores `v` under the path
/// `key`.
pub open spec fn reaches(f: Seq<u8>, off: u64, key: Seq<char>, v: u64) -> bool {
    stored(f, off, key).contains(v)
}

/// The identifiers below a well-formed node can be collected, and every
/// value stored under a path from the node is among them.
pub proof fn lemma_subtree_holds(f: Seq<u8>, off: u64)
    requires
        node_wf(f, off),
    ensures
        subtree(f, off) is Ok,
        forall|key: Seq<char>, v: u64|
            #[trigger] reaches(f, off, key, v) ==> subtree(f, off)->Ok_0.contains(v & DEFLAG),
    decreases off, 1nat, 0nat,
{
    let vals = values_at(f, off as int)->Ok_0;
    let links = links_at(f, off as int)->Ok_0;
    lemma_children_before(f, off);
    assert forall|i: int| 0 <= i < links.len() implies (#[trigger] links[i]).child < off && node_wf(
        f,
        links[i].child,
    ) by {}
    lemma_below_holds(f, off, links, 0);
    let deeper = below(f, off, links, 0)->Ok_0;
    let all = subtree(f, off)->Ok_0;
    assert(all == ids(vals) + deeper);
    assert forall|key: Seq<char>, v: u64| #[trigger] reaches(f, off, key, v) implies all.contains(
        v & DEFLAG,
    ) by {
        if key.len() == 0 {
            let i = choose|i: int| 0 <= i < vals.len() && vals[i] == v;
            assert(ids(vals).contains(vals[i] & DEFLAG));
        } else {
            lemma_prefix_link(links, key, 0);
            let i = prefix_link(links, key, 0);
            assert(0 <= i < links.len());
            let rest = key.skip(links[i].label.len() as int);
            assert(reaches(f, links[i].child, rest, v));
        }
    }
}

/// The identifiers under the edges from `from` on can be collected, and
/// every value stored under a path from the child of one of them is among
/// them.
pub proof fn lemma_below_holds(f: Seq<u8>, parent: u64, links: Seq<Link>, from: int)
    requires
        0 <= from <= links.len(),
        forall|i: int|
            0 <= i < links.len() ==> (#[trigger] links[i]).child < parent && node_wf(f, links[i].child),
    ensures
        below(f, parent, links, from) is Ok,
        forall|i: int, key: Seq<char>, v: u64|
            from <= i < links.len() && #[trigger] reaches(f, links[i].child, key, v) ==> below(
                f,
                parent,
                links,
                from,
            )->Ok_0.contains(v & DEFLAG),
    decreases parent, 0nat, links.len() - from,
{
    if from < links.len() {
        lemma_subtree_holds(f, links[from].child);
        lemma_below_holds(f, parent, links, from + 1);
        let first = subtree(f, links[from].child)->Ok_0;
        let rest = below(f, parent, links, from + 1)->Ok_0;
        assert(below(f, parent, links, from)->Ok_0 == first + rest);
    }
}

/// Where a well-formed tree stores values under a key, a descent along the
/// key ends at the node that holds these values.
pub proof fn lemma_walk_finds_key(f: Seq<u8>, off: u64, key: Seq<char>)
    requires
        node_wf(f, off),
        stored(f, off, key).len() > 0,
    ensures
        walk(f, off, key) is Ok,
        walk(f, off, key)->Ok_0 is Some,
        values_at(f, walk(f, off, key)->Ok_0->0 as int) == Ok::<Seq<u64>, Error>(stored(f, off, key)),
    decreases off,
{
    if key.len() > 0 {
        let links = links_at(f, off as int)->Ok_0;
        let i = prefix_link(links, key, 0);
        assert(0 <= i < links.len() && links[i].child < off);
        assert(node_wf(f, links[i].child));
        lemma_walk_finds_key(f, links[i].child, key.skip(links[i].label.len() as int));
    }
}

/// Edges whose first characters differ pairwise: two labels that start
/// with the same character belong to the same edge.
pub proof fn lemma_same_head(links: Seq<Link>, i: int, j: int)
    requires
        labels_ascend(links),
        0 <= i < links.len(),
        0 <= j < links.len(),
        links[i].label[0] == links[j].label[0],
    ensures
        i == j,
{
    if i < j {
        assert((links[i].label[0] as u32) < (links[j].label[0] as u32));
    } else if j < i {
        assert((links[j].label[0] as u32) < (links[i].label[0] as u32));
    }
}

/// Where a well-formed tree stores a value under a key, a descent along
/// any prefix of the key ends at a node below which the value is found.
pub proof fn lemma_walk_finds_prefix(f: Seq<u8>, off: u64, key: Seq<char>, v: u64, p: Seq<char>)
    requires
        node_wf(f, off),
        stored(f, off, key).contains(v),
        is_prefix(p, key),
    ensures
        walk(f, off, p) is Ok,
        walk(f, off, p)->Ok_0 is Some,
        subtree(f, walk(f, off, p)->Ok_0->0) is Ok,
        subtree(f, walk(f, off, p)->Ok_0->0)->Ok_0.contains(v & DEFLAG),
    decreases off,
{
    if p.len() == 0 {
        lemma_subtree_holds(f, off);
        assert(reaches(f, off, key, v));
    } else {
        let links = links_at(f, off as int)->Ok_0;
        lemma_children_before(f, off);
        lemma_prefix_link(links, key, 0);
        lemma_prefix_link(links, p, 0);
        lemma_extension_link(links, p, 0);
        let k = prefix_link(links, key, 0);
        assert(0 <= k < links.len());
        let label = links[k].label;
        let child = links[k].child;
        let rest = key.skip(label.len() as int);
        assert(node_wf(f, child));
        assert(label.len() > 0);
        assert(label[0] == key.take(label.len() as int)[0]);
        assert(p[0] == key.take(p.len() as int)[0]);
        let i = prefix_link(links, p, 0);
        if label.len() <= p.len() {
            assert(is_prefix(label, p)) by {
                assert(p.take(label.len() as int) =~= key.take(p.len() as int).take(label.len() as int));
                assert(key.take(p.len() as int).take(label.len() as int) =~= key.take(
                    label.len() as int,
                ));
            }
            assert(i <= k);
            assert(links[i].label.len() > 0);
            assert(links[i].label[0] == p.take(links[i].label.len() as int)[0]);
            lemma_same_head(links, i, k);
            let left = p.skip(label.len() as int);
            assert(is_prefix(left, rest)) by {
                assert(rest.take(left.len() as int) =~= key.take(p.len() as int).skip(label.len() as int));
            }
            lemma_walk_finds_prefix(f, child, rest, v, left);
        } else {
            if 0 <= i < links.len() {
                assert(links[i].label.len() > 0);
                assert(links[i].label[0] == p.take(links[i].label.len() as int)[0]);
                lemma_same_head(links, i, k);
            }
            assert(is_prefix(p, label)) by {
                assert(label.take(p.len() as int) =~= key.take(label.len() as int).take(p.len() as int));
                assert(key.take(label.len() as int).take(p.len() as int) =~= key.take(p.len() as int));
            }
            let j = extension_link(links, p, 0);
            assert(j <= k);
            assert(links[j].label[0] == links[j].label.take(p.len() as int)[0]);
            lemma_same_head(links, j, k);
            lemma_subtree_holds(f, child);
            assert(reaches(f, child, rest, v));
        }
    }
}

/// Among edges labelled as a prefix tree demands, the first edge whose
/// label is a prefix of a key that starts with the label of edge `i` is
/// edge `i`.
pub proof fn lemma_label_leads(links: Seq<Link>, i: int, rest: Seq<char>)
    requires
        labels_ascend(links),
        0 <= i < links.len(),
    ensures
        prefix_link(links, links[i].label + rest, 0) == i,
        (links[i].label + rest).skip(links[i].label.len() as int) == rest,
        is_prefix(links[i].label, links[i].label + rest),
{
    let label = links[i].label;
    let key = label + rest;
    assert(key.take(label.len() as int) =~= label);
    assert(key.skip(label.len() as int) =~= rest);
    lemma_prefix_link(links, key, 0);
    let k = prefix_link(links, key, 0);
    assert(k <= i);
    assert(links[k].label.len() > 0);
    assert(links[k].label[0] == key.take(links[k].label.len() as int)[0]);
    assert(label[0] == key[0]);
    lemma_same_head(links, k, i);
}

/// Every identifier collected below a well-formed node belongs to a value
/// stored under some path from the node.
pub proof fn lemma_subtree_sound(f: Seq<u8>, off: u64, id: u64)
    requires
        node_wf(f, off),
        subtree(f, off) is Ok,
        subtree(f, off)->Ok_0.contains(id),
    ensures
        exists|key: Seq<char>, v: u64| #[trigger] reaches(f, off, key, v) && v & DEFLAG == id,
    decreases off, 1nat, 0nat,
{
    let vals = values_at(f, off as int)->Ok_0;
    let links = links_at(f, off as int)->Ok_0;
    lemma_children_before(f, off);
    assert forall|i: int| 0 <= i < links.len() implies (#[trigger] links[i]).child < off && node_wf(
        f,
        links[i].child,
    ) by {}
    let deeper = below(f, off, links, 0)->Ok_0;
    assert(subtree(f, off)->Ok_0 == ids(vals) + deeper);
    if ids(vals).contains(id) {
        let i = choose|i: int| 0 <= i < vals.len() && id == #[trigger] vals[i] & DEFLAG;
        assert(stored(f, off, Seq::<char>::empty()) == vals);
        assert(reaches(f, off, Seq::<char>::empty(), vals[i]));
    } else {
        lemma_below_sound(f, off, links, 0, id);
        let (i, rest, v): (int, Seq<char>, u64) = choose|i: int, rest: Seq<char>, v: u64|
            0 <= i < links.len() && #[trigger] reaches(f, links[i].child, rest, v) && v & DEFLAG == id;
        lemma_label_leads(links, i, rest);
        assert(reaches(f, off, links[i].label + rest, v));
    }
}

/// Every identifier collected under the edges from `from` on belongs to a
/// value stored under some path from the child of one of them.
pub proof fn lemma_below_sound(f: Seq<u8>, parent: u64, links: Seq<Link>, from: int, id: u64)
    requires
        0 <= from <= links.len(),
        forall|i: int|
            0 <= i < links.len() ==> (#[trigger] links[i]).child < parent && node_wf(f, links[i].child),
        below(f, parent, links, from) is Ok,
        below(f, parent, links, from)->Ok_0.contains(id),
    ensures
        exists|i: int, rest: Seq<char>, v: u64|
            from <= i < links.len() && #[trigger] reaches(f, links[i].child, rest, v) && v & DEFLAG
                == id,
    decreases parent, 0nat, links.len() - from,
{
    if from < links.len() {
        let first = subtree(f, links[from].child)->Ok_0;
        let others = below(f, parent, links, from + 1)->Ok_0;
        assert(below(f, parent, links, from)->Ok_0 == first + others);
        if first.contains(id) {
            lemma_subtree_sound(f, links[from].child, id);
            let (rest, v): (Seq<char>, u64) = choose|rest: Seq<char>, v: u64|
                #[trigger] reaches(f, links[from].child, rest, v) && v & DEFLAG == id;
            assert(reaches(f, links[from].child, rest, v));
        } else {
            lemma_below_sound(f, parent, links, from + 1, id);
        }
    }
}

/// What is stored below the node at which a descent along `p` ends is
/// stored, seen from where the descent began, under a key that starts with
/// `p`.
pub proof fn lemma_walk_sound(f: Seq<u8>, off: u64, p: Seq<char>, rest: Seq<char>, v: u64)
    requires
        node_wf(f, off),
        walk(f, off, p) is Ok,
        walk(f, off, p)->Ok_0 is Some,
        reaches(f, walk(f, off, p)->Ok_0->0, rest, v),
    ensures
        exists|key: Seq<char>| is_prefix(p, key) && #[trigger] reaches(f, off, key, v),
    decreases off,
{
    if p.len() == 0 {
        assert(is_prefix(p, rest));
        assert(reaches(f, off, rest, v));
    } else {
        let links = links_at(f, off as int)->Ok_0;
        lemma_children_before(f, off);
        lemma_prefix_link(links, p, 0);
        lemma_extension_link(links, p, 0);
        let i = prefix_link(links, p, 0);
        let j = extension_link(links, p, 0);
        if 0 <= i < links.len() {
            let label = links[i].label;
            let left = p.skip(label.len() as int);
            assert(node_wf(f, links[i].child));
            lemma_walk_sound(f, links[i].child, left, rest, v);
            let deeper = choose|deeper: Seq<char>|
                is_prefix(left, deeper) && #[trigger] reaches(f, links[i].child, deeper, v);
            lemma_label_leads(links, i, deeper);
            let key = label + deeper;
            assert(is_prefix(p, key)) by {
                assert(key.take(p.len() as int) =~= p.take(label.len() as int) + deeper.take(
                    left.len() as int,
                ));
                assert(p.take(label.len() as int) + left =~= p);
            }
            assert(reaches(f, off, key, v));
        } else {
            let label = links[j].label;
            lemma_label_leads(links, j, rest);
            let key = label + rest;
            assert(is_prefix(p, key)) by {
                assert(key.take(p.len() as int) =~= label.take(p.len() as int));
            }
            assert(reaches(f, off, key, v));
        }
    }
}

/// Whether `entries` holds, under a key that starts with `p`, a value with
/// the identifier `id`.
pub open spec fn matches_prefix(entries: Seq<(Seq<char>, u64)>, p: Seq<char>, id: u64) -> bool {
    exists|key: Seq<char>, v: u64|
        #[trigger] entries.contains((key, v)) && is_prefix(p, key) && v & DEFLAG == id
}

/// Whether the tree below the root stores, under a key that starts with
/// `p`, a value with the identifier `id`.
pub open spec fn stores_prefix(f: Seq<u8>, p: Seq<char>, id: u64) -> bool {
    exists|key: Seq<char>, v: u64|
        #[trigger] reaches(f, root_of(f)->Ok_0, key, v) && is_prefix(p, key) && v & DEFLAG == id
}

/// On a well-formed index a prefix search finds exactly the identifiers of
/// the values stored under the keys that start with what is searched for.
pub proof fn lemma_prefix_result_exact(f: Seq<u8>, p: Seq<char>)
    requires
        root_of(f) is Ok,
        node_wf(f, root_of(f)->Ok_0),
    ensures
        prefix_result(f, p) is Ok,
        forall|id: u64| prefix_result(f, p)->Ok_0.contains(id) <==> stores_prefix(f, p, id),
{
    let root = root_of(f)->Ok_0;
    lemma_walk_ok(f, root, p);
    let found = prefix_result(f, p)->Ok_0;
    match walk(f, root, p)->Ok_0 {
        Some(n) => {
            lemma_subtree_holds(f, n);
        },
        None => {},
    }
    assert forall|id: u64| found.contains(id) <==> stores_prefix(f, p, id) by {
        if found.contains(id) {
            let n = walk(f, root, p)->Ok_0->0;
            lemma_subtree_sound(f, n, id);
            let (rest, v): (Seq<char>, u64) = choose|rest: Seq<char>, v: u64|
                #[trigger] reaches(f, n, rest, v) && v & DEFLAG == id;
            lemma_walk_sound(f, root, p, rest, v);
            let key = choose|key: Seq<char>| is_prefix(p, key) && #[trigger] reaches(f, root, key, v);
            assert(reaches(f, root, key, v));
        }
        if stores_prefix(f, p, id) {
            let (key, v): (Seq<char>, u64) = choose|key: Seq<char>, v: u64|
                #[trigger] reaches(f, root, key, v) && is_prefix(p, key) && v & DEFLAG == id;
            lemma_walk_finds_prefix(f, root, key, v, p);
        }
    }
}

/// A prefix search finds exactly the identifiers of the values that the
/// index holds under the keys that start with what is searched for.
pub proof fn law_prefix_search_exact(f: Seq<u8>, entries: Seq<(Seq<char>, u64)>, p: Seq<char>)
    requires
        holds(f, entries),
    ensures
        prefix_result(f, p) is Ok,
        forall|id: u64| prefix_result(f, p)->Ok_0.contains(id) <==> matches_prefix(entries, p, id),
{
    let root = root_of(f)->Ok_0;
    lemma_prefix_result_exact(f, p);
    assert forall|id: u64| stores_prefix(f, p, id) <==> matches_prefix(entries, p, id) by {
        if stores_prefix(f, p, id) {
            let (key, v): (Seq<char>, u64) = choose|key: Seq<char>, v: u64|
                #[trigger] reaches(f, root, key, v) && is_prefix(p, key) && v & DEFLAG == id;
            assert(stored(f, root, key) == values_for(entries, key));
            lemma_values_for_member(entries, key, v);
            assert(entries.contains((key, v)));
        }
        if matches_prefix(entries, p, id) {
            let (key, v): (Seq<char>, u64) = choose|key: Seq<char>, v: u64|
                #[trigger] entries.contains((key, v)) && is_prefix(p, key) && v & DEFLAG == id;
            assert(stored(f, root, key) == values_for(entries, key));
            lemma_values_for_member(entries, key, v);
            assert(reaches(f, root, key, v));
        }
    }
}

/// An exact search for a key under which the index holds values returns
/// these values without those that carry the suffix flag.
pub proof fn law_exact_search(f: Seq<u8>, entries: Seq<(Seq<char>, u64)>, key: Seq<char>)
    requires
        holds(f, entries),
        values_for(entries, key).len() > 0,
    ensures
        exact_result(f, key) == Ok::<Seq<u64>, Error>(exact_ids(values_for(entries, key))),
{
    let root = root_of(f)->Ok_0;
    assert(stored(f, root, key) == values_for(entries, key));
    lemma_walk_finds_key(f, root, key);
}

/// A prefix search for a prefix of a key finds every value that the index
/// holds under the key.
pub proof fn law_prefix_search(
    f: Seq<u8>,
    entries: Seq<(Seq<char>, u64)>,
    key: Seq<char>,
    v: u64,
    p: Seq<char>,
)
    requires
        holds(f, entries),
        entries.contains((key, v)),
        is_prefix(p, key),
    ensures
        prefix_result(f, p) is Ok,
        prefix_result(f, p)->Ok_0.contains(v & DEFLAG),
{
    let root = root_of(f)->Ok_0;
    lemma_values_for_member(entries, key, v);
    assert(stored(f, root, key) == values_for(entries, key));
    lemma_walk_finds_prefix(f, root, key, v, p);
}

/// Which values an exact search keeps: those without the suffix flag, as
/// they are, in their order.
pub proof fn lemma_exact_ids(s: Seq<u64>)
    requires
        forall|i: int| 0 <= i < s.len() ==> #[trigger] s[i] < 0x2000_0000_0000_0000,
    ensures
        forall|x: u64| exact_ids(s).contains(x) <==> s.contains(x) && x < 0x1000_0000_0000_0000,
        strictly_increasing(s) ==> strictly_increasing(exact_ids(s)),
    decreases s.len(),
{
    if s.len() > 0 {
        let init = s.drop_last();
        let last = s.last();
        let kept = exact_ids(init);
        lemma_exact_ids(init);
        assert(last < 0x2000_0000_0000_0000 ==> (last & 0x1000_0000_0000_0000u64 == 0 <==> last
            < 0x1000_0000_0000_0000)) by (bit_vector);
        assert(last < 0x1000_0000_0000_0000 ==> last & 0x0FFF_FFFF_FFFF_FFFFu64 == last) by (bit_vector);
        assert forall|x: u64| exact_ids(s).contains(x) <==> s.contains(x) && x < 0x1000_0000_0000_0000 by {
            crate::values::lemma_contains_last(s, x);
            if last & FLAG_PARTIAL == 0 {
                assert(kept.push(last).drop_last() =~= kept);
                crate::values::lemma_contains_last(kept.push(last), x);
            }
        }
        if strictly_increasing(s) {
            assert(strictly_increasing(init));
            if last & FLAG_PARTIAL == 0 {
                let more = kept.push(last);
                assert forall|i: int, j: int| 0 <= i < j < more.len() implies more[i] < more[j] by {
                    if j == kept.len() {
                        assert(kept.contains(kept[i]));
                        assert(init.contains(kept[i]));
                        let k = choose|k: int| 0 <= k < init.len() && init[k] == kept[i];
                        assert(s[k] < s[s.len() - 1]);
                    }
                }
            }
        }
    }
}

/// Round trip: in the index that a builder writes, an exact search for a
/// key under which anything was staged returns, ascending and once each,
/// exactly the values staged under that key without the suffix flag.
pub proof fn law_round_trip(f: Seq<u8>, merges: Seq<(Seq<char>, u64)>, key: Seq<char>)
    requires
        indexes(f, merges),
        flagged(merges),
        values_for(merges, key).len() > 0,
    ensures
        exact_result(f, key) is Ok,
        strictly_increasing(exact_result(f, key)->Ok_0),
        forall|x: u64|
            exact_result(f, key)->Ok_0.contains(x) <==> merges.contains((key, x)) && x
                < 0x1000_0000_0000_0000,
{
    let root = root_of(f)->Ok_0;
    let kept = stored(f, root, key);
    let given = values_for(merges, key);
    assert(strictly_increasing(kept) && kept.to_set() == given.to_set());
    lemma_empty_set(kept);
    lemma_empty_set(given);
    lemma_walk_finds_key(f, root, key);
    assert forall|x: u64| kept.contains(x) <==> merges.contains((key, x)) by {
        lemma_values_for_member(merges, key, x);
        assert(kept.to_set().contains(x) <==> given.to_set().contains(x));
    }
    assert forall|i: int| 0 <= i < kept.len() implies #[trigger] kept[i] < 0x2000_0000_0000_0000 by {
        assert(kept.contains(kept[i]));
        let n = choose|n: int| 0 <= n < merges.len() && merges[n] == (key, kept[i]);
        assert(merges[n].1 < 0x2000_0000_0000_0000);
    }
    lemma_exact_ids(kept);
    let found = exact_result(f, key)->Ok_0;
    assert(found == exact_ids(kept));
    assert forall|x: u64| found.contains(x) <==> merges.contains((key, x)) && x < 0x1000_0000_0000_0000 by {
        assert(exact_ids(kept).contains(x) <==> kept.contains(x) && x < 0x1000_0000_0000_0000);
        assert(kept.contains(x) <==> merges.contains((key, x)));
    }
}

/// Prefix containment: in the index that a builder writes, a prefix search
/// for any prefix of a key finds the identifier of every value staged under
/// that key.
pub proof fn law_prefix_containment(
    f: Seq<u8>,
    merges: Seq<(Seq<char>, u64)>,
    key: Seq<char>,
    v: u64,
    p: Seq<char>,
)
    requires
        indexes(f, merges),
        merges.contains((key, v)),
        is_prefix(p, key),
    ensures
        prefix_result(f, p) is Ok,
        prefix_result(f, p)->Ok_0.contains(v & DEFLAG),
{
    let root = root_of(f)->Ok_0;
    let kept = stored(f, root, key);
    let given = values_for(merges, key);
    assert(kept.to_set() == given.to_set());
    lemma_values_for_member(merges, key, v);
    assert(given.to_set().contains(v));
    assert(kept.contains(v));
    lemma_walk_finds_prefix(f, root, key, v, p);
}

/// In the index that a builder writes, a prefix search finds exactly the
/// identifiers of the values staged under the keys that start with what is
/// searched for.
pub proof fn law_built_prefix_exact(f: Seq<u8>, merges: Seq<(Seq<char>, u64)>, p: Seq<char>)
    requires
        indexes(f, merges),
    ensures
        prefix_result(f, p) is Ok,
        forall|id: u64| prefix_result(f, p)->Ok_0.contains(id) <==> matches_prefix(merges, p, id),
{
    let root = root_of(f)->Ok_0;
    lemma_prefix_result_exact(f, p);
    assert forall|id: u64| stores_prefix(f, p, id) <==> matches_prefix(merges, p, id) by {
        if stores_prefix(f, p, id) {
            let (key, v): (Seq<char>, u64) = choose|key: Seq<char>, v: u64|
                #[trigger] reaches(f, root, key, v) && is_prefix(p, key) && v & DEFLAG == id;
            assert(stored(f, root, key).to_set() == values_for(merges, key).to_set());
            assert(stored(f, root, key).to_set().contains(v));
            lemma_values_for_member(merges, key, v);
            assert(merges.contains((key, v)));
        }
        if matches_prefix(merges, p, id) {
            let (key, v): (Seq<char>, u64) = choose|key: Seq<char>, v: u64|
                #[trigger] merges.contains((key, v)) && is_prefix(p, key) && v & DEFLAG == id;
            assert(stored(f, root, key).to_set() == values_for(merges, key).to_set());
            lemma_values_for_member(merges, key, v);
            assert(values_for(merges, key).to_set().contains(v));
            assert(reaches(f, root, key, v));
        }
    }
}

/// What a key and a value stage: the key with the value, and the rest of
/// the key from each word break with the flagged value; nothing else, and
/// only the key itself with a value that carries no flag.
pub proof fn law_staged(norm: Seq<char>, val: u64)
    requires
        val < 0x1000_0000_0000_0000,
    ensures
        expand(norm, val).contains((norm, val)),
        forall|i: int|
            breaks_at(alnum_flags(norm), space_flags(norm), i) ==> #[trigger] expand(norm, val).contains(
                (norm.skip(i), val | FLAG_PARTIAL),
            ),
        forall|key: Seq<char>, x: u64|
            #[trigger] expand(norm, val).contains((key, x)) && x < 0x1000_0000_0000_0000 ==> key == norm
                && x == val,
        (val | FLAG_PARTIAL) & DEFLAG == val,
        val | FLAG_PARTIAL >= 0x1000_0000_0000_0000,
{
    let alnum = alnum_flags(norm);
    let space = space_flags(norm);
    let points = break_points(alnum, space, norm.len() as int);
    let tail = suffix_entries(norm, points, val);
    let all = expand(norm, val);
    assert(all == seq![(norm, val)] + tail);
    assert(all[0] == (norm, val));
    assert(val < 0x1000_0000_0000_0000 ==> (val | 0x1000_0000_0000_0000u64) & 0x0FFF_FFFF_FFFF_FFFFu64
        == val && val | 0x1000_0000_0000_0000u64 >= 0x1000_0000_0000_0000) by (bit_vector);
    assert forall|i: int| breaks_at(alnum, space, i) implies #[trigger] all.contains(
        (norm.skip(i), val | FLAG_PARTIAL),
    ) by {
        lemma_break_found(alnum, space, norm.len() as int, i);
        let k = choose|k: int| 0 <= k < points.len() && points[k] == i;
        assert(tail[k] == (norm.skip(i), val | FLAG_PARTIAL));
        assert(all[k + 1] == tail[k]);
    }
    assert forall|key: Seq<char>, x: u64|
        #[trigger] all.contains((key, x)) && x < 0x1000_0000_0000_0000 implies key == norm && x
        == val by {
        let n = choose|n: int| 0 <= n < all.len() && all[n] == (key, x);
        if n > 0 {
            assert(all[n] == tail[n - 1]);
        }
    }
}

/// Every word break below `upto` is one of the break points.
pub proof fn lemma_break_found(alnum: Seq<bool>, space: Seq<bool>, upto: int, i: int)
    requires
        breaks_at(alnum, space, i),
        i < upto,
    ensures
        exists|k: int|
            0 <= k < break_points(alnum, space, upto).len() && break_points(alnum, space, upto)[k] == i,
    decreases upto,
{
    let now = break_points(alnum, space, upto);
    let before = break_points(alnum, space, upto - 1);
    if i == upto - 1 {
        assert(now[before.len() as int] == i);
    } else {
        lemma_break_found(alnum, space, upto - 1, i);
        let k = choose|k: int| 0 <= k < before.len() && before[k] == i;
        assert(now[k] == i);
    }
}

/// Exact and suffix: in the index that a builder writes, a value staged
/// under a key with the suffix flag only is found by a prefix search for
/// that key, and not by an exact search.
pub proof fn law_suffix_is_not_exact(
    f: Seq<u8>,
    merges: Seq<(Seq<char>, u64)>,
    key: Seq<char>,
    val: u64,
)
    requires
        indexes(f, merges),
        flagged(merges),
        val < 0x1000_0000_0000_0000,
        merges.contains((key, val | FLAG_PARTIAL)),
        !merges.contains((key, val)),
    ensures
        prefix_result(f, key) is Ok,
        prefix_result(f, key)->Ok_0.contains(val),
        exact_result(f, key) is Ok,
        !exact_result(f, key)->Ok_0.contains(val),
{
    assert(val < 0x1000_0000_0000_0000 ==> (val | 0x1000_0000_0000_0000u64) & 0x0FFF_FFFF_FFFF_FFFFu64
        == val) by (bit_vector);
    assert(key.take(key.len() as int) =~= key);
    law_prefix_containment(f, merges, key, val | FLAG_PARTIAL, key);
    lemma_values_for_member(merges, key, val | FLAG_PARTIAL);
    lemma_empty_set(values_for(merges, key));
    assert(values_for(merges, key).to_set().contains(val | FLAG_PARTIAL));
    law_round_trip(f, merges, key);
}

/// A search for one token is the prefix search for it.
pub proof fn lemma_search_one(f: Seq<u8>, t: Seq<char>)
    ensures
        search_result(f, seq![t]) == prefix_result(f, t),
{
    let toks = seq![t];
    assert(toks[0] == t);
    match prefix_result(f, t) {
        Ok(found) => {
            if !(found =~= Set::<u64>::empty()) {
                assert(search_from(f, toks, 1, found) == Ok::<Set<u64>, Error>(found));
            }
        },
        Err(_) => {},
    }
}

/// Intersection: a search for two tokens finds what both of them find.
pub proof fn law_search_intersects(f: Seq<u8>, a: Seq<char>, b: Seq<char>)
    requires
        prefix_result(f, a) is Ok,
        prefix_result(f, b) is Ok,
    ensures
        search_result(f, seq![a, b]) == Ok::<Set<u64>, Error>(
            prefix_result(f, a)->Ok_0.intersect(prefix_result(f, b)->Ok_0),
        ),
{
    let toks = seq![a, b];
    let first = prefix_result(f, a)->Ok_0;
    let second = prefix_result(f, b)->Ok_0;
    assert(toks[0] == a && toks[1] == b);
    if first =~= Set::<u64>::empty() {
        assert(first.intersect(second) =~= Set::<u64>::empty());
    } else {
        let both = first.intersect(second);
        assert(search_from(f, toks, 0, Set::empty()) == search_from(f, toks, 1, first));
        if !(both =~= Set::<u64>::empty()) {
            assert(search_from(f, toks, 2, both) == Ok::<Set<u64>, Error>(both));
        }
    }
}

/// Whether every token finds `id`.
pub open spec fn all_find(f: Seq<u8>, toks: Seq<Seq<char>>, from: int, id: u64) -> bool {
    forall|k: int| from <= k < toks.len() ==> (#[trigger] prefix_result(f, toks[k]))->Ok_0.contains(id)
}

/// Every token from `i` on finds `id` when token `i` does and every token
/// behind it.
pub proof fn lemma_all_find_step(f: Seq<u8>, toks: Seq<Seq<char>>, i: int, id: u64)
    requires
        0 <= i < toks.len(),
    ensures
        all_find(f, toks, i, id) <==> prefix_result(f, toks[i])->Ok_0.contains(id) && all_find(
            f,
            toks,
            i + 1,
            id,
        ),
{
    if all_find(f, toks, i, id) {
        assert(prefix_result(f, toks[i])->Ok_0.contains(id));
        assert(all_find(f, toks, i + 1, id));
    }
    if prefix_result(f, toks[i])->Ok_0.contains(id) && all_find(f, toks, i + 1, id) {
        assert forall|k: int| i <= k < toks.len() implies (#[trigger] prefix_result(
            f,
            toks[k],
        ))->Ok_0.contains(id) by {
            if k > i {
                assert(prefix_result(f, toks[k])->Ok_0.contains(id));
            }
        }
    }
}

/// What a search finds from token `i` on, when the tokens before have
/// matched `acc`: what is in `acc` and is found by every token from `i` on.
pub proof fn lemma_search_from(f: Seq<u8>, toks: Seq<Seq<char>>, i: int, acc: Set<u64>)
    requires
        1 <= i <= toks.len(),
        forall|k: int| 0 <= k < toks.len() ==> (#[trigger] prefix_result(f, toks[k])) is Ok,
    ensures
        search_from(f, toks, i, acc) is Ok,
        forall|id: u64|
            search_from(f, toks, i, acc)->Ok_0.contains(id) <==> acc.contains(id) && all_find(
                f,
                toks,
                i,
                id,
            ),
    decreases toks.len() - i,
{
    if i < toks.len() {
        let found = prefix_result(f, toks[i])->Ok_0;
        let next = acc.intersect(found);
        assert(prefix_result(f, toks[i]) is Ok);
        if next =~= Set::<u64>::empty() {
            assert forall|id: u64| !(acc.contains(id) && all_find(f, toks, i, id)) by {
                lemma_all_find_step(f, toks, i, id);
                if acc.contains(id) && found.contains(id) {
                    assert(next.contains(id));
                }
            }
        } else {
            lemma_search_from(f, toks, i + 1, next);
            let rest = search_from(f, toks, i + 1, next)->Ok_0;
            assert(search_from(f, toks, i, acc) == search_from(f, toks, i + 1, next));
            assert forall|id: u64| rest.contains(id) <==> acc.contains(id) && all_find(f, toks, i, id) by {
                lemma_all_find_step(f, toks, i, id);
                assert(rest.contains(id) <==> next.contains(id) && all_find(f, toks, i + 1, id));
            }
        }
    }
}

/// Intersection over any number of tokens: a search finds exactly what
/// every one of its tokens finds.
pub proof fn law_search_finds_common(f: Seq<u8>, toks: Seq<Seq<char>>)
    requires
        toks.len() > 0,
        forall|k: int| 0 <= k < toks.len() ==> (#[trigger] prefix_result(f, toks[k])) is Ok,
    ensures
        search_result(f, toks) is Ok,
        forall|id: u64| search_result(f, toks)->Ok_0.contains(id) <==> all_find(f, toks, 0, id),
{
    let first = prefix_result(f, toks[0])->Ok_0;
    assert(prefix_result(f, toks[0]) is Ok);
    if first =~= Set::<u64>::empty() {
        assert forall|id: u64| !all_find(f, toks, 0, id) by {
            lemma_all_find_step(f, toks, 0, id);
        }
    } else {
        lemma_search_from(f, toks, 1, first);
        let rest = search_from(f, toks, 1, first)->Ok_0;
        assert(search_result(f, toks) == search_from(f, toks, 1, first));
        assert forall|id: u64| rest.contains(id) <==> all_find(f, toks, 0, id) by {
            lemma_all_find_step(f, toks, 0, id);
            assert(rest.contains(id) <==> first.contains(id) && all_find(f, toks, 1, id));
        }
    }
}

/// No query fails on the index that a builder writes.
pub proof fn law_built_index_reads(f: Seq<u8>, merges: Seq<(Seq<char>, u64)>)
    requires
        indexes(f, merges),
    ensures
        forall|key: Seq<char>| (#[trigger] exact_result(f, key)) is Ok,
        forall|key: Seq<char>| (#[trigger] prefix_result(f, key)) is Ok,
        forall|toks: Seq<Seq<char>>| (#[trigger] search_result(f, toks)) is Ok,
{
    let root = root_of(f)->Ok_0;
    assert forall|key: Seq<char>| (#[trigger] exact_result(f, key)) is Ok by {
        lemma_walk_ok(f, root, key);
    }
    assert forall|key: Seq<char>| (#[trigger] prefix_result(f, key)) is Ok by {
        lemma_walk_ok(f, root, key);
        match walk(f, root, key)->Ok_0 {
            Some(n) => {
                lemma_subtree_holds(f, n);
            },
            None => {},
        }
    }
    assert forall|toks: Seq<Seq<char>>| (#[trigger] search_result(f, toks)) is Ok by {
        if toks.len() > 0 {
            assert forall|k: int| 0 <= k < toks.len() implies (#[trigger] prefix_result(f, toks[k])) is Ok by {}
            law_search_finds_common(f, toks);
        }
    }
}

/// Words that follow a run of unflagged characters: the run is one more
/// word, if what stands before it is empty or ends flagged.
pub proof fn lemma_words_run(x: Seq<char>, fx: Seq<bool>, y: Seq<char>)
    requires
        fx.len() == x.len(),
        y.len() > 0,
        x.len() == 0 || fx.last(),
    ensures
        words(x + y, fx + Seq::new(y.len(), |i: int| false)) == words(x, fx).push(y),
    decreases y.len(),
{
    let fy = Seq::new(y.len(), |i: int| false);
    let text = x + y;
    let space = fx + fy;
    let init = y.drop_last();
    assert(text.drop_last() =~= x + init);
    assert(space.drop_last() =~= fx + Seq::new(init.len(), |i: int| false));
    assert(text.last() == y.last());
    if init.len() == 0 {
        assert(x + init =~= x);
        assert(fx + Seq::new(init.len(), |i: int| false) =~= fx);
        assert(seq![y.last()] =~= y);
    } else {
        lemma_words_run(x, fx, init);
        let before = words(x, fx).push(init);
        assert(before.drop_last() =~= words(x, fx));
        assert(init.push(y.last()) =~= y);
    }
}

/// A text of unflagged characters is one token.
pub proof fn lemma_one_token(q: Seq<char>)
    requires
        q.len() > 0,
        forall|i: int| 0 <= i < q.len() ==> !whitespace(#[trigger] q[i]),
    ensures
        tokens(q) == seq![q],
        query_tokens(q) == seq![normal_form(q)],
{
    let none = Seq::<char>::empty();
    lemma_words_run(none, Seq::<bool>::empty(), q);
    assert(none + q =~= q);
    assert(Seq::<bool>::empty() + Seq::new(q.len(), |i: int| false) =~= space_flags(q));
    assert(words(none, Seq::<bool>::empty()).push(q) =~= seq![q]);
    assert(query_tokens(q) =~= seq![normal_form(q)]);
}

/// Two texts of unflagged characters with a whitespace character between
/// them are two tokens.
pub proof fn lemma_two_tokens(a: Seq<char>, w: char, b: Seq<char>)
    requires
        a.len() > 0,
        b.len() > 0,
        whitespace(w),
        forall|i: int| 0 <= i < a.len() ==> !whitespace(#[trigger] a[i]),
        forall|i: int| 0 <= i < b.len() ==> !whitespace(#[trigger] b[i]),
    ensures
        tokens(a + seq![w] + b) == seq![a, b],
        query_tokens(a + seq![w] + b) == seq![normal_form(a), normal_form(b)],
{
    let head = a + seq![w];
    let fh = space_flags(head);
    lemma_one_token(a);
    assert(head.drop_last() =~= a);
    assert(fh.drop_last() =~= space_flags(a));
    assert(fh.last());
    assert(words(head, fh) == tokens(a));
    lemma_words_run(head, fh, b);
    assert(fh + Seq::new(b.len(), |i: int| false) =~= space_flags(head + b));
    assert(seq![a].push(b) =~= seq![a, b]);
    assert(query_tokens(a + seq![w] + b) =~= seq![normal_form(a), normal_form(b)]);
}

/// Intersection of queries: a query of two tokens finds what the queries
/// for each of them find.
pub proof fn law_query_intersects(f: Seq<u8>, a: Seq<char>, w: char, b: Seq<char>)
    requires
        a.len() > 0,
        b.len() > 0,
        whitespace(w),
        forall|i: int| 0 <= i < a.len() ==> !whitespace(#[trigger] a[i]),
        forall|i: int| 0 <= i < b.len() ==> !whitespace(#[trigger] b[i]),
        search_result(f, query_tokens(a)) is Ok,
        search_result(f, query_tokens(b)) is Ok,
    ensures
        search_result(f, query_tokens(a + seq![w] + b)) == Ok::<Set<u64>, Error>(
            search_result(f, query_tokens(a))->Ok_0.intersect(search_result(f, query_tokens(b))->Ok_0),
        ),
{
    lemma_one_token(a);
    lemma_one_token(b);
    lemma_two_tokens(a, w, b);
    lemma_search_one(f, normal_form(a));
    lemma_search_one(f, normal_form(b));
    law_search_intersects(f, normal_form(a), normal_form(b));
}

/// Prefix containment for queries: a query of one token whose normal form
/// is a prefix of a key finds the identifier of every value staged under
/// that key.
pub proof fn law_query_finds_prefix(
    f: Seq<u8>,
    merges: Seq<(Seq<char>, u64)>,
    key: Seq<char>,
    v: u64,
    q: Seq<char>,
)
    requires
        indexes(f, merges),
        merges.contains((key, v)),
        q.len() > 0,
        forall|i: int| 0 <= i < q.len() ==> !whitespace(#[trigger] q[i]),
        is_prefix(normal_form(q), key),
    ensures
        search_result(f, query_tokens(q)) is Ok,
        search_result(f, query_tokens(q))->Ok_0.contains(v & DEFLAG),
{
    lemma_one_token(q);
    lemma_search_one(f, normal_form(q));
    law_prefix_containment(f, merges, key, v, normal_form(q));
}

/// Prefix containment for ASCII keys: a query that is a prefix of the
/// normal form of an ASCII key, and one token, finds the identifier of
/// every value staged under that normal form.
pub proof fn law_query_finds_ascii_prefix(
    f: Seq<u8>,
    merges: Seq<(Seq<char>, u64)>,
    key: Seq<char>,
    v: u64,
    q: Seq<char>,
)
    requires
        indexes(f, merges),
        is_ascii_text(key),
        merges.contains((normal_form(key), v)),
        q.len() > 0,
        forall|i: int| 0 <= i < q.len() ==> !whitespace(#[trigger] q[i]),
        is_prefix(q, normal_form(key)),
    ensures
        search_result(f, query_tokens(q)) is Ok,
        search_result(f, query_tokens(q))->Ok_0.contains(v & DEFLAG),
{
    law_prefix_of_normal_form(key, q);
    law_query_finds_prefix(f, merges, normal_form(key), v, q);
}

/// Words of a key: in the index that a builder writes, a search for the
/// normal form of an ASCII key that was added, or for the rest of it from
/// a word break on, finds the identifier that the key was added with, if
/// what is searched for has a token at all.
pub proof fn law_search_finds_words(
    f: Seq<u8>,
    merges: Seq<(Seq<char>, u64)>,
    key: Seq<char>,
    val: u64,
    i: int,
)
    requires
        indexes(f, merges),
        is_ascii_text(key),
        val < 0x1000_0000_0000_0000,
        forall|x: (Seq<char>, u64)|
            #[trigger] expand(normal_form(key), val).contains(x) ==> merges.contains(x),
        0 <= i <= normal_form(key).len(),
        i == 0 || breaks_at(alnum_flags(normal_form(key)), space_flags(normal_form(key)), i),
        tokens(normal_form(key).skip(i)).len() > 0,
    ensures
        search_result(f, query_tokens(normal_form(key).skip(i))) is Ok,
        search_result(f, query_tokens(normal_form(key).skip(i)))->Ok_0.contains(val),
{
    let n = normal_form(key);
    let s = n.skip(i);
    let sp = space_flags(s);
    let toks = tokens(s);
    let qt = query_tokens(s);
    lemma_words_stand(s, sp);
    law_staged(n, val);
    law_built_index_reads(f, merges);
    assert forall|j: int| 0 <= j < qt.len() implies (#[trigger] prefix_result(f, qt[j])) is Ok
        && prefix_result(f, qt[j])->Ok_0.contains(val) by {
        let t = toks[j];
        assert(stands(s, sp, toks[j]));
        let a = choose|a: int| word_at(s, sp, t, a);
        let p = i + a;
        assert(t =~= n.subrange(p, p + t.len()));
        law_piece_of_normal_form(key, p, p + t.len());
        assert(qt[j] == normal_form(t));
        assert(is_prefix(t, n.skip(p))) by {
            assert(n.skip(p).take(t.len() as int) =~= n.subrange(p, p + t.len()));
        }
        if p == 0 {
            assert(n.skip(0) =~= n);
            assert(expand(n, val).contains((n, val)));
            assert(val & 0x0FFF_FFFF_FFFF_FFFFu64 == val) by (bit_vector)
                requires
                    val < 0x1000_0000_0000_0000u64,
            ;
            law_prefix_containment(f, merges, n, val, t);
        } else {
            if a > 0 {
                assert(space_flags(n)[p - 1] == sp[a - 1]);
                assert(space_flags(n)[p] == sp[a]);
            }
            assert(breaks_at(alnum_flags(n), space_flags(n), p));
            assert(expand(n, val).contains((n.skip(p), val | FLAG_PARTIAL)));
            law_prefix_containment(f, merges, n.skip(p), val | FLAG_PARTIAL, t);
        }
    }
    law_search_finds_common(f, qt);
    assert(all_find(f, qt, 0, val));
}

/// Size: what a build writes weighs no more than what was staged, so the
/// index, which is at most sixteen bytes longer than its entries weigh,
/// grows at most linearly with what was staged.
pub proof fn law_index_size(merges: Seq<(Seq<char>, u64)>)
    ensures
        weight(arrange(merges)) <= weight(merges),
{
    lemma_arrange(merges);
    crate::builder::lemma_ascending_distinct(arrange(merges));
    assert forall|i: int| 0 <= i < arrange(merges).len() implies merges.contains(
        #[trigger] arrange(merges)[i],
    ) by {
        assert(arrange(merges).contains(arrange(merges)[i]));
    }
    lemma_weight_subset(arrange(merges), merges);
}

} // verus!
