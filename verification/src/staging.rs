//! The staging store: an ordered accumulator that keeps, for every key, the
//! bytes merged under it, and hands the keys out in ascending order.

use crate::text::{common_prefix, diff_start, key_lt, lemma_common_prefix_is, lemma_mismatch};
use vstd::prelude::*;
use vstd::slice::slice_to_vec;

verus! {

/// How one key stands to another in the order of the index.
pub enum Rank {
    /// It sorts before the other.
    Before,
    /// The two are the same key.
    Same,
    /// It sorts after the other.
    After,
}

/// Two keys share as many leading characters in either order.
pub proof fn lemma_common_prefix_sym(a: Seq<char>, b: Seq<char>)
    ensures
        common_prefix(a, b) == common_prefix(b, a),
        0 <= common_prefix(a, b) <= a.len(),
        common_prefix(a, b) <= b.len(),
        forall|j: int| 0 <= j < common_prefix(a, b) ==> a[j] == b[j],
        common_prefix(a, b) < a.len() && common_prefix(a, b) < b.len() ==> a[common_prefix(a, b)]
            != b[common_prefix(a, b)],
{
    lemma_mismatch(a, b, 0);
    lemma_common_prefix_is(b, a, common_prefix(a, b));
}

/// Characters with the same code point are the same character.
pub proof fn lemma_code_points(x: char, y: char)
    ensures
        x as u32 == y as u32 ==> x == y,
{
    vstd::utf8::char_u32_cast(x, x as u32);
    vstd::utf8::char_u32_cast(y, y as u32);
}

/// Of two keys exactly one holds: the first sorts before the second, they
/// are the same, or the second sorts before the first.
pub proof fn lemma_key_order_total(a: Seq<char>, b: Seq<char>)
    ensures
        key_lt(a, b) || a == b || key_lt(b, a),
        !(key_lt(a, b) && a == b),
        !(key_lt(a, b) && key_lt(b, a)),
        !(a == b && key_lt(b, a)),
{
    lemma_common_prefix_sym(a, b);
    let c = common_prefix(a, b);
    if c < a.len() && c < b.len() {
        lemma_code_points(a[c], b[c]);
    } else if a.len() == b.len() {
        assert(a =~= b);
    }
}

/// The order of keys is transitive.
pub proof fn lemma_key_lt_trans(a: Seq<char>, b: Seq<char>, c: Seq<char>)
    requires
        key_lt(a, b),
        key_lt(b, c),
    ensures
        key_lt(a, c),
{
    lemma_common_prefix_sym(a, b);
    lemma_common_prefix_sym(b, c);
    let p = common_prefix(a, b);
    let q = common_prefix(b, c);
    if p < q {
        lemma_common_prefix_is(a, c, p);
    } else if q < p {
        lemma_common_prefix_is(a, c, q);
    } else {
        lemma_common_prefix_is(a, c, p);
    }
}

/// Compares two keys character by character, by code point; a proper
/// prefix sorts first.
pub fn rank_keys(a: &[char], b: &[char]) -> (r: Rank)
    ensures
        r is Before <==> key_lt(a@, b@),
        r is Same <==> a@ == b@,
        r is After <==> key_lt(b@, a@),
{
    proof {
        lemma_key_order_total(a@, b@);
        lemma_common_prefix_sym(a@, b@);
    }
    let c = diff_start(a, b);
    if c < a.len() && c < b.len() {
        if (a[c] as u32) < (b[c] as u32) {
            Rank::Before
        } else {
            Rank::After
        }
    } else if a.len() < b.len() {
        Rank::Before
    } else if a.len() > b.len() {
        Rank::After
    } else {
        Rank::Same
    }
}

/// A key of the staging store with the bytes merged under it.
pub struct Staged {
    pub key: Vec<char>,
    pub blob: Vec<u8>,
}

impl View for Staged {
    type V = (Seq<char>, Seq<u8>);

    open spec fn view(&self) -> (Seq<char>, Seq<u8>) {
        (self.key@, self.blob@)
    }
}

/// The items of `items` as contracts speak of them.
pub open spec fn staged_of(items: Seq<Staged>) -> Seq<(Seq<char>, Seq<u8>)> {
    Seq::new(items.len(), |i: int| items[i]@)
}

/// Whether the keys ascend strictly.
pub open spec fn keys_ascend(staged: Seq<(Seq<char>, Seq<u8>)>) -> bool {
    forall|i: int, j: int| 0 <= i < j < staged.len() ==> key_lt(#[trigger] staged[i].0, #[trigger] staged[j].0)
}

/// Whether `key` is one of the staged keys.
pub open spec fn is_staged(staged: Seq<(Seq<char>, Seq<u8>)>, key: Seq<char>) -> bool {
    exists|i: int| 0 <= i < staged.len() && (#[trigger] staged[i]).0 == key
}

/// The bytes merged under `key`; none if the key is not staged.
pub open spec fn blob_of(staged: Seq<(Seq<char>, Seq<u8>)>, key: Seq<char>) -> Seq<u8> {
    if is_staged(staged, key) {
        staged[choose|i: int| 0 <= i < staged.len() && (#[trigger] staged[i]).0 == key].1
    } else {
        Seq::empty()
    }
}

/// Where keys ascend, each stands at one index only.
pub proof fn lemma_blob_at(staged: Seq<(Seq<char>, Seq<u8>)>, i: int)
    requires
        keys_ascend(staged),
        0 <= i < staged.len(),
    ensures
        is_staged(staged, staged[i].0),
        blob_of(staged, staged[i].0) == staged[i].1,
{
    let key = staged[i].0;
    let j = choose|j: int| 0 <= j < staged.len() && (#[trigger] staged[j]).0 == key;
    if j < i {
        lemma_key_order_total(staged[j].0, staged[i].0);
    } else if i < j {
        lemma_key_order_total(staged[i].0, staged[j].0);
    }
}

/// An in-memory staging store.
pub struct Staging {
    items: Vec<Staged>,
}

impl View for Staging {
    type V = Seq<(Seq<char>, Seq<u8>)>;

    closed spec fn view(&self) -> Seq<(Seq<char>, Seq<u8>)> {
        staged_of(self.items@)
    }
}

impl Staging {
    /// The keys of the store ascend strictly.
    pub open spec fn wf(&self) -> bool {
        keys_ascend(self@)
    }

    /// An empty store.
    pub fn new() -> (s: Staging)
        ensures
            s.wf(),
            s@ == Seq::<(Seq<char>, Seq<u8>)>::empty(),
    {
        let s = Staging { items: Vec::new() };
        assert(s@ =~= Seq::<(Seq<char>, Seq<u8>)>::empty());
        s
    }

    /// The number of keys.
    pub fn len(&self) -> (n: usize)
        ensures
            n == self@.len(),
    {
        self.items.len()
    }

    /// The key at index `i` in ascending order.
    pub fn key(&self, i: usize) -> (key: &Vec<char>)
        requires
            i < self@.len(),
        ensures
            key@ == self@[i as int].0,
    {
        &self.items[i].key
    }

    /// The bytes merged under the key at index `i`.
    pub fn blob(&self, i: usize) -> (blob: &Vec<u8>)
        requires
            i < self@.len(),
        ensures
            blob@ == self@[i as int].1,
    {
        &self.items[i].blob
    }

    /// The index of the first key that does not sort before `key`.
    #[verifier::rlimit(60)]
    fn lower_bound(&self, key: &[char]) -> (at: usize)
        requires
            self.wf(),
        ensures
            at <= self@.len(),
            forall|i: int| 0 <= i < at ==> key_lt(#[trigger] self@[i].0, key@),
            forall|i: int| at <= i < self@.len() ==> !key_lt(#[trigger] self@[i].0, key@),
    {
        let mut lo: usize = 0;
        let mut hi: usize = self.items.len();
        while lo < hi
            invariant
                lo <= hi <= self@.len(),
                self@.len() == self.items@.len(),
                self.wf(),
                forall|i: int| 0 <= i < lo ==> key_lt(#[trigger] self@[i].0, key@),
                forall|i: int| hi <= i < self@.len() ==> !key_lt(#[trigger] self@[i].0, key@),
            decreases hi - lo,
        {
            let mid = lo + (hi - lo) / 2;
            let ghost here = self@[mid as int].0;
            assert(self.items@[mid as int].key@ == here);
            match rank_keys(self.items[mid].key.as_slice(), key) {
                Rank::Before => {
                    assert forall|i: int| 0 <= i < mid + 1 implies key_lt(#[trigger] self@[i].0, key@) by {
                        if i < mid {
                            lemma_key_lt_trans(self@[i].0, here, key@);
                        }
                    }
                    lo = mid + 1;
                },
                _ => {
                    assert forall|i: int| mid <= i < self@.len() implies !key_lt(
                        #[trigger] self@[i].0,
                        key@,
                    ) by {
                        if i > mid && key_lt(self@[i].0, key@) {
                            lemma_key_lt_trans(here, self@[i].0, key@);
                        }
                    }
                    hi = mid;
                },
            }
        }
        lo
    }

    /// Appends `delta` to the bytes merged under `key`, which becomes a key
    /// of the store if it is none yet.
    #[verifier::rlimit(60)]
    pub fn merge(&mut self, key: &[char], delta: &[u8])
        requires
            old(self).wf(),
        ensures
            final(self).wf(),
            forall|k: Seq<char>|
                is_staged(final(self)@, k) <==> is_staged(old(self)@, k) || k == key@,
            forall|k: Seq<char>|
                #[trigger] blob_of(final(self)@, k) == if k == key@ {
                    blob_of(old(self)@, k) + delta@
                } else {
                    blob_of(old(self)@, k)
                },
    {
        let at = self.lower_bound(key);
        let ghost before = self@;
        let found = if at < self.items.len() {
            assert(self.items@[at as int].key@ == before[at as int].0);
            match rank_keys(self.items[at].key.as_slice(), key) {
                Rank::Same => true,
                _ => false,
            }
        } else {
            false
        };
        if found {
            let mut more = slice_to_vec(delta);
            self.items[at].blob.append(&mut more);
            proof {
                let after = self@;
                assert(after.len() == before.len());
                assert forall|i: int| 0 <= i < after.len() implies (#[trigger] after[i]).0 == before[i].0 by {
                    assert(self.items@[i].key@ == old(self).items@[i].key@);
                }
                assert(keys_ascend(after));
                assert forall|k: Seq<char>| is_staged(after, k) <==> is_staged(before, k) || k == key@ by {
                    if is_staged(after, k) {
                        let i = choose|i: int| 0 <= i < after.len() && (#[trigger] after[i]).0 == k;
                        assert(before[i].0 == k);
                    }
                    if is_staged(before, k) {
                        let i = choose|i: int| 0 <= i < before.len() && (#[trigger] before[i]).0 == k;
                        assert(after[i].0 == k);
                    }
                    if k == key@ {
                        assert(after[at as int].0 == k);
                    }
                }
                assert forall|k: Seq<char>|
                    #[trigger] blob_of(after, k) == if k == key@ {
                        blob_of(before, k) + delta@
                    } else {
                        blob_of(before, k)
                    } by {
                    if is_staged(before, k) {
                        let i = choose|i: int| 0 <= i < before.len() && (#[trigger] before[i]).0 == k;
                        assert(after[i].0 == k);
                        lemma_blob_at(before, i);
                        lemma_blob_at(after, i);
                        if i != at {
                            assert(self.items@[i] == old(self).items@[i]);
                            lemma_key_order_total(before[i].0, before[at as int].0);
                            if i < at {
                                assert(key_lt(before[i].0, before[at as int].0));
                            } else {
                                assert(key_lt(before[at as int].0, before[i].0));
                            }
                        }
                    } else {
                        assert(before[at as int].0 == key@);
                    }
                }
            }
        } else {
            let item = Staged { key: slice_to_vec(key), blob: slice_to_vec(delta) };
            self.items.insert(at, item);
            proof {
                let after = self@;
                assert(after =~= before.insert(at as int, (key@, delta@))) by {
                    assert forall|i: int| 0 <= i < after.len() implies after[i] == before.insert(
                        at as int,
                        (key@, delta@),
                    )[i] by {
                        if i < at {
                            assert(self.items@[i] == old(self).items@[i]);
                        } else if i > at {
                            assert(self.items@[i] == old(self).items@[i - 1]);
                        }
                    }
                }
                assert forall|i: int| at <= i < before.len() implies key_lt(key@, #[trigger] before[i].0) by {
                    lemma_key_order_total(before[i].0, key@);
                    if before[i].0 == key@ {
                        if i > at {
                            assert(key_lt(before[at as int].0, before[i].0));
                        }
                    }
                }
                assert forall|i: int, j: int| 0 <= i < j < after.len() implies key_lt(
                    #[trigger] after[i].0,
                    #[trigger] after[j].0,
                ) by {
                    if i < at && j > at {
                        assert(after[j] == before[j - 1]);
                        assert(key_lt(before[i].0, key@));
                        lemma_key_lt_trans(before[i].0, key@, before[j - 1].0);
                    } else if i < at && j < at {
                        assert(key_lt(before[i].0, before[j].0));
                    } else if i > at {
                        assert(key_lt(before[i - 1].0, before[j - 1].0));
                    } else if i == at {
                        assert(after[j] == before[j - 1]);
                    }
                }
                assert(!is_staged(before, key@)) by {
                    if is_staged(before, key@) {
                        let i = choose|i: int| 0 <= i < before.len() && (#[trigger] before[i]).0 == key@;
                        lemma_key_order_total(before[i].0, key@);
                        if i < at {
                            assert(key_lt(before[i].0, key@));
                        } else {
                            assert(key_lt(key@, before[i].0));
                        }
                    }
                }
                assert forall|k: Seq<char>| is_staged(after, k) <==> is_staged(before, k) || k == key@ by {
                    if is_staged(after, k) {
                        let i = choose|i: int| 0 <= i < after.len() && (#[trigger] after[i]).0 == k;
                        if i < at {
                            assert(before[i].0 == k);
                        } else if i > at {
                            assert(before[i - 1].0 == k);
                        }
                    }
                    if is_staged(before, k) {
                        let i = choose|i: int| 0 <= i < before.len() && (#[trigger] before[i]).0 == k;
                        if i < at {
                            assert(after[i].0 == k);
                        } else {
                            assert(after[i + 1].0 == k);
                        }
                    }
                    if k == key@ {
                        assert(after[at as int].0 == k);
                    }
                }
                assert forall|k: Seq<char>|
                    #[trigger] blob_of(after, k) == if k == key@ {
                        blob_of(before, k) + delta@
                    } else {
                        blob_of(before, k)
                    } by {
                    if k == key@ {
                        lemma_blob_at(after, at as int);
                        assert(Seq::<u8>::empty() + delta@ =~= delta@);
                    } else if is_staged(before, k) {
                        let i = choose|i: int| 0 <= i < before.len() && (#[trigger] before[i]).0 == k;
                        lemma_blob_at(before, i);
                        if i < at {
                            assert(after[i] == before[i]);
                            lemma_blob_at(after, i);
                        } else {
                            assert(after[i + 1] == before[i]);
                            lemma_blob_at(after, i + 1);
                        }
                    }
                }
            }
        }
    }
}

/// Whether one entry stands before another in an index: by its key, and
/// under the same key by its value.
pub open spec fn pair_lt(a: (Seq<char>, u64), b: (Seq<char>, u64)) -> bool {
    key_lt(a.0, b.0) || (a.0 == b.0 && a.1 < b.1)
}

/// Whether every entry stands before each later one.
pub open spec fn pairs_ascend(entries: Seq<(Seq<char>, u64)>) -> bool {
    forall|i: int, j: int|
        0 <= i < j < entries.len() ==> pair_lt(#[trigger] entries[i], #[trigger] entries[j])
}

/// Ascending entries with `p` put in its place, unless it is there.
pub open spec fn place(sorted: Seq<(Seq<char>, u64)>, p: (Seq<char>, u64)) -> Seq<(Seq<char>, u64)>
    decreases sorted.len(),
{
    if sorted.len() == 0 {
        seq![p]
    } else if pair_lt(sorted.last(), p) {
        sorted.push(p)
    } else if sorted.last() == p {
        sorted
    } else {
        place(sorted.drop_last(), p).push(sorted.last())
    }
}

/// What a build writes of what was staged: every staged entry once, in
/// ascending order.
pub open spec fn arrange(merges: Seq<(Seq<char>, u64)>) -> Seq<(Seq<char>, u64)>
    decreases merges.len(),
{
    if merges.len() == 0 {
        Seq::empty()
    } else {
        place(arrange(merges.drop_last()), merges.last())
    }
}

/// The order of entries is total and transitive.
pub proof fn lemma_pair_order(a: (Seq<char>, u64), b: (Seq<char>, u64), c: (Seq<char>, u64))
    ensures
        pair_lt(a, b) || a == b || pair_lt(b, a),
        !(pair_lt(a, b) && pair_lt(b, a)),
        !pair_lt(a, a),
        pair_lt(a, b) && pair_lt(b, c) ==> pair_lt(a, c),
{
    lemma_key_order_total(a.0, b.0);
    lemma_key_order_total(a.0, a.0);
    lemma_key_order_total(b.0, c.0);
    if key_lt(a.0, b.0) && key_lt(b.0, c.0) {
        lemma_key_lt_trans(a.0, b.0, c.0);
    }
    if a.0 == b.0 && a.1 == b.1 {
        assert(a == b);
    }
}

/// Putting an entry in its place keeps the order and adds that entry only.
pub proof fn lemma_place(sorted: Seq<(Seq<char>, u64)>, p: (Seq<char>, u64))
    requires
        pairs_ascend(sorted),
    ensures
        pairs_ascend(place(sorted, p)),
        forall|x: (Seq<char>, u64)|
            #![trigger place(sorted, p).contains(x)]
            #![trigger sorted.contains(x)]
            place(sorted, p).contains(x) <==> sorted.contains(x) || x == p,
    decreases sorted.len(),
{
    let out = place(sorted, p);
    if sorted.len() == 0 {
        assert(out[0] == p);
        assert forall|x: (Seq<char>, u64)| out.contains(x) <==> sorted.contains(x) || x == p by {
            if out.contains(x) {
                let i = choose|i: int| 0 <= i < out.len() && out[i] == x;
            }
        }
    } else {
        let last = sorted.last();
        let init = sorted.drop_last();
        lemma_pair_order(last, p, p);
        if pair_lt(last, p) {
            assert forall|i: int, j: int| 0 <= i < j < out.len() implies pair_lt(
                #[trigger] out[i],
                #[trigger] out[j],
            ) by {
                if j == sorted.len() {
                    if i < sorted.len() - 1 {
                        assert(pair_lt(sorted[i], sorted[sorted.len() - 1]));
                        lemma_pair_order(sorted[i], last, p);
                    }
                } else {
                    assert(pair_lt(sorted[i], sorted[j]));
                }
            }
            assert forall|x: (Seq<char>, u64)| out.contains(x) <==> sorted.contains(x) || x == p by {
                if out.contains(x) {
                    let i = choose|i: int| 0 <= i < out.len() && out[i] == x;
                    if i < sorted.len() {
                        assert(sorted[i] == x);
                    }
                }
                if sorted.contains(x) {
                    let i = choose|i: int| 0 <= i < sorted.len() && sorted[i] == x;
                    assert(out[i] == x);
                }
                if x == p {
                    assert(out[sorted.len() as int] == x);
                }
            }
        } else if last == p {
            assert(sorted[sorted.len() - 1] == p);
        } else {
            assert(pairs_ascend(init)) by {
                assert forall|i: int, j: int| 0 <= i < j < init.len() implies pair_lt(
                    #[trigger] init[i],
                    #[trigger] init[j],
                ) by {
                    assert(pair_lt(sorted[i], sorted[j]));
                }
            }
            lemma_place(init, p);
            let inner = place(init, p);
            assert forall|i: int, j: int| 0 <= i < j < out.len() implies pair_lt(
                #[trigger] out[i],
                #[trigger] out[j],
            ) by {
                if j == inner.len() {
                    assert(inner.contains(inner[i]));
                    assert(init.contains(inner[i]) || inner[i] == p);
                    if inner[i] == p {
                        assert(pair_lt(p, last));
                    } else {
                        let k = choose|k: int| 0 <= k < init.len() && init[k] == inner[i];
                        assert(pair_lt(sorted[k], sorted[sorted.len() - 1]));
                    }
                } else {
                    assert(pair_lt(inner[i], inner[j]));
                }
            }
            assert forall|x: (Seq<char>, u64)| out.contains(x) <==> sorted.contains(x) || x == p by {
                if out.contains(x) {
                    let i = choose|i: int| 0 <= i < out.len() && out[i] == x;
                    if i < inner.len() {
                        assert(inner[i] == x);
                        assert(inner.contains(x));
                        assert(init.contains(x) || x == p);
                        if x != p {
                            let k = choose|k: int| 0 <= k < init.len() && init[k] == x;
                            assert(sorted[k] == x);
                        }
                    } else {
                        assert(sorted[sorted.len() - 1] == x);
                    }
                }
                if sorted.contains(x) {
                    let i = choose|i: int| 0 <= i < sorted.len() && sorted[i] == x;
                    if i < init.len() {
                        assert(init[i] == x);
                        assert(init.contains(x));
                        assert(inner.contains(x) <==> init.contains(x) || x == p);
                        let k = choose|k: int| 0 <= k < inner.len() && inner[k] == x;
                        assert(out[k] == x);
                    } else {
                        assert(out[inner.len() as int] == x);
                    }
                }
                if x == p {
                    assert(inner.contains(p) <==> init.contains(p) || p == p);
                    let k = choose|k: int| 0 <= k < inner.len() && inner[k] == p;
                    assert(out[k] == x);
                }
            }
        }
    }
}

/// What a build writes holds every staged entry once, in ascending order.
pub proof fn lemma_arrange(merges: Seq<(Seq<char>, u64)>)
    ensures
        pairs_ascend(arrange(merges)),
        forall|x: (Seq<char>, u64)|
            #![trigger arrange(merges).contains(x)]
            #![trigger merges.contains(x)]
            arrange(merges).contains(x) <==> merges.contains(x),
    decreases merges.len(),
{
    if merges.len() > 0 {
        let init = merges.drop_last();
        lemma_arrange(init);
        lemma_place(arrange(init), merges.last());
        assert forall|x: (Seq<char>, u64)| arrange(merges).contains(x) <==> merges.contains(x) by {
            if merges.contains(x) {
                let i = choose|i: int| 0 <= i < merges.len() && merges[i] == x;
                if i < init.len() {
                    assert(init[i] == x);
                }
            }
            if init.contains(x) {
                let i = choose|i: int| 0 <= i < init.len() && init[i] == x;
                assert(merges[i] == x);
            }
            if x == merges.last() {
                assert(merges[merges.len() - 1] == x);
            }
        }
    }
}

/// Ascending entries are fixed by what they hold.
pub proof fn lemma_ascending_unique(a: Seq<(Seq<char>, u64)>, b: Seq<(Seq<char>, u64)>)
    requires
        pairs_ascend(a),
        pairs_ascend(b),
        forall|x: (Seq<char>, u64)| a.contains(x) <==> b.contains(x),
    ensures
        a == b,
    decreases a.len(),
{
    if a.len() == 0 {
        if b.len() > 0 {
            assert(b.contains(b[0]));
        }
        assert(a =~= b);
    } else {
        assert(a.contains(a[a.len() - 1]));
        assert(b.contains(a.last()));
        let j = choose|j: int| 0 <= j < b.len() && b[j] == a.last();
        assert(b.contains(b[b.len() - 1]));
        let i = choose|i: int| 0 <= i < a.len() && a[i] == b.last();
        lemma_pair_order(a.last(), b.last(), a.last());
        if j < b.len() - 1 {
            assert(pair_lt(b[j], b[b.len() - 1]));
            if i < a.len() - 1 {
                assert(pair_lt(a[i], a[a.len() - 1]));
            }
        }
        assert(a.last() == b.last());
        let x = a.drop_last();
        let y = b.drop_last();
        assert forall|i: int, j: int| 0 <= i < j < x.len() implies pair_lt(#[trigger] x[i], #[trigger] x[j]) by {
            assert(pair_lt(a[i], a[j]));
        }
        assert forall|i: int, j: int| 0 <= i < j < y.len() implies pair_lt(#[trigger] y[i], #[trigger] y[j]) by {
            assert(pair_lt(b[i], b[j]));
        }
        assert forall|e: (Seq<char>, u64)| x.contains(e) <==> y.contains(e) by {
            lemma_pair_order(e, a.last(), e);
            if x.contains(e) {
                let k = choose|k: int| 0 <= k < x.len() && x[k] == e;
                assert(pair_lt(a[k], a[a.len() - 1]));
                assert(a.contains(a[k]));
                let n = choose|n: int| 0 <= n < b.len() && b[n] == e;
                assert(y[n] == e);
            }
            if y.contains(e) {
                let k = choose|k: int| 0 <= k < y.len() && y[k] == e;
                assert(pair_lt(b[k], b[b.len() - 1]));
                assert(b.contains(b[k]));
                let n = choose|n: int| 0 <= n < a.len() && a[n] == e;
                assert(x[n] == e);
            }
        }
        lemma_ascending_unique(x, y);
        assert(a =~= x.push(a.last()));
        assert(b =~= y.push(b.last()));
    }
}

} // verus!
