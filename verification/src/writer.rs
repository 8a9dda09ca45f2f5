//! The writer: turns keys that arrive in ascending order into an index,
//! holding in memory only the nodes on the path of the key added last.

use crate::content::{extends, holds, lemma_wf_stable, node_wf, stored, values_for};
use crate::error::Error;
use crate::layout::{root_of, Link};
use crate::node::{
    encode_node, lemma_encode_len, lemma_has_at_extend, lemma_node_end, links_of, write_node, Edge,
    MAX_KEY_CHARS,
};
use crate::spine::{
    after_insert, close_to, closed_frames, fresh, lemma_close_size,
    lemma_leaf_size, lemma_pend_nonneg, lemma_sealed_len, lemma_split_size, lemma_value_size, sealed, size,
    WriterView, leaf_frames, lemma_close, lemma_heads_count, lemma_leaf, lemma_path_values,
    lemma_split, lemma_value, lemma_written, pending, spine_ok, split_frames, value_frames,
    FrameView,
};
use crate::text::{chars_of, diff_start, key_lt};
use crate::wire::{be64, lemma_be64_round_trip, put_u64};
use vstd::prelude::*;
use vstd::slice::{slice_subrange, slice_to_vec};

verus! {

/// A node that is not written yet.
pub struct Frame {
    /// How many characters of the path lead to the node.
    pub depth: usize,
    /// The values of the node.
    pub values: Vec<u64>,
    /// The edges to the children that are written.
    pub edges: Vec<Edge>,
}

impl View for Frame {
    type V = FrameView;

    open spec fn view(&self) -> FrameView {
        FrameView { depth: self.depth as int, values: self.values@, links: links_of(self.edges@) }
    }
}

/// The frames of `spine` as contracts speak of them.
pub open spec fn frames_of(spine: Seq<Frame>) -> Seq<FrameView> {
    Seq::new(spine.len(), |i: int| spine[i]@)
}

/// The key of the entry added last, or the empty key.
pub open spec fn last_key(entries: Seq<(Seq<char>, u64)>) -> Seq<char> {
    if entries.len() > 0 {
        entries.last().0
    } else {
        Seq::empty()
    }
}

/// The largest weight of the entries of one index: an index of that
/// weight still has offsets of 64 bits.
pub const MAX_WEIGHT: u64 = 0xFFFF_FFFF_FFFF_FFEF;

/// The most bytes that an entry under `key` adds to an index: two nodes of
/// twenty bytes, its value, and the label of its edge.
pub open spec fn cost(key: Seq<char>) -> int {
    48 + 4 * (key.len() as int)
}

/// The weight of entries: the sum of the costs of their keys. An index is
/// at most sixteen bytes longer than its entries weigh.
pub open spec fn weight(entries: Seq<(Seq<char>, u64)>) -> int
    decreases entries.len(),
{
    if entries.len() == 0 {
        0
    } else {
        weight(entries.drop_last()) + cost(entries.last().0)
    }
}

/// One more entry adds the cost of its key to the weight.
pub proof fn lemma_weight_push(entries: Seq<(Seq<char>, u64)>, e: (Seq<char>, u64))
    ensures
        weight(entries.push(e)) == weight(entries) + cost(e.0),
        weight(entries) >= 0,
    decreases entries.len(),
{
    assert(entries.push(e).drop_last() =~= entries);
    if entries.len() > 0 {
        lemma_weight_push(entries.drop_last(), entries.last());
        assert(entries.drop_last().push(entries.last()) =~= entries);
    }
}

/// Entries without one of them weigh less by the cost of its key.
pub proof fn lemma_weight_remove(entries: Seq<(Seq<char>, u64)>, i: int)
    requires
        0 <= i < entries.len(),
    ensures
        weight(entries) == weight(entries.remove(i)) + cost(entries[i].0),
    decreases entries.len(),
{
    if i == entries.len() - 1 {
        assert(entries.remove(i) =~= entries.drop_last());
    } else {
        lemma_weight_remove(entries.drop_last(), i);
        assert(entries.remove(i).drop_last() =~= entries.drop_last().remove(i));
        assert(entries.remove(i).last() == entries.last());
    }
}

/// Entries that are each among others, and none twice, weigh no more than
/// the others.
pub proof fn lemma_weight_subset(x: Seq<(Seq<char>, u64)>, y: Seq<(Seq<char>, u64)>)
    requires
        x.no_duplicates(),
        forall|i: int| 0 <= i < x.len() ==> y.contains(#[trigger] x[i]),
    ensures
        weight(x) <= weight(y),
    decreases y.len(),
{
    if y.len() == 0 {
        if x.len() > 0 {
            assert(y.contains(x[0]));
        }
    } else {
        let init = y.drop_last();
        let last = y.last();
        lemma_weight_push(init, last);
        assert(init.push(last) =~= y);
        if x.contains(last) {
            let i = choose|i: int| 0 <= i < x.len() && x[i] == last;
            let rest = x.remove(i);
            lemma_weight_remove(x, i);
            assert forall|j: int| 0 <= j < rest.len() implies init.contains(#[trigger] rest[j]) by {
                let k = if j < i {
                    j
                } else {
                    j + 1
                };
                assert(rest[j] == x[k]);
                assert(y.contains(x[k]));
                let n = choose|n: int| 0 <= n < y.len() && y[n] == x[k];
                assert(x[k] != x[i]);
                assert(init[n] == x[k]);
            }
            assert(rest.no_duplicates()) by {
                assert forall|a: int, b: int| 0 <= a < rest.len() && 0 <= b < rest.len() && a != b implies rest[a]
                    != rest[b] by {
                    let ka = if a < i {
                        a
                    } else {
                        a + 1
                    };
                    let kb = if b < i {
                        b
                    } else {
                        b + 1
                    };
                    assert(rest[a] == x[ka] && rest[b] == x[kb]);
                }
            }
            lemma_weight_subset(rest, init);
        } else {
            assert forall|j: int| 0 <= j < x.len() implies init.contains(#[trigger] x[j]) by {
                assert(y.contains(x[j]));
                let n = choose|n: int| 0 <= n < y.len() && y[n] == x[j];
                assert(x.contains(x[j]));
                assert(init[n] == x[j]);
            }
            lemma_weight_subset(x, init);
        }
    }
}

/// Why a writer that holds `entries` refuses `key`, if it does: the key
/// sorts before the last one, or it is too long for a label, or the
/// entries would weigh too much, or the last key is given once more and
/// has as many values as a node can count.
pub open spec fn refusal(entries: Seq<(Seq<char>, u64)>, key: Seq<char>) -> Option<Error> {
    if key_lt(key, last_key(entries)) {
        Some(Error::Order)
    } else if key.len() > MAX_KEY_CHARS {
        Some(Error::TooLarge)
    } else if weight(entries) + cost(key) > MAX_WEIGHT {
        Some(Error::TooLarge)
    } else if key == last_key(entries) && values_for(entries, key).len() >= u32::MAX {
        Some(Error::TooLarge)
    } else {
        None
    }
}

/// What `values_for` gives once an entry is added.
pub proof fn lemma_values_for_push(entries: Seq<(Seq<char>, u64)>, key: Seq<char>, val: u64)
    ensures
        forall|k: Seq<char>|
            #[trigger] values_for(entries.push((key, val)), k) == if k == key {
                values_for(entries, k) + seq![val]
            } else {
                values_for(entries, k)
            },
{
    let more = entries.push((key, val));
    assert(more.drop_last() =~= entries);
    assert forall|k: Seq<char>|
        #[trigger] values_for(more, k) == if k == key {
            values_for(entries, k) + seq![val]
        } else {
            values_for(entries, k)
        } by {
        if k == key {
            assert(values_for(entries, k).push(val) =~= values_for(entries, k) + seq![val]);
        }
    }
}

/// A streaming writer of an index.
pub struct Writer {
    path: Vec<char>,
    spine: Vec<Frame>,
    out: Vec<u8>,
    sent: u64,
    budget: u64,
    handed: Ghost<Seq<u8>>,
    entries: Ghost<Seq<(Seq<char>, u64)>>,
}

impl View for Writer {
    type V = WriterView;

    closed spec fn view(&self) -> WriterView {
        WriterView {
            written: self.handed@ + self.out@,
            path: self.path@,
            frames: frames_of(self.spine@),
        }
    }
}

impl Writer {
    /// The entries accepted so far, in the order in which they came.
    pub closed spec fn entries(&self) -> Seq<(Seq<char>, u64)> {
        self.entries@
    }

    /// The bytes written so far.
    pub open spec fn written(&self) -> Seq<u8> {
        self@.written
    }

    /// The bytes that were handed out: the first of those written.
    pub closed spec fn handed(&self) -> Seq<u8> {
        self.handed@
    }

    /// Everything written so far.
    closed spec fn file(&self) -> Seq<u8> {
        self.handed@ + self.out@
    }

    /// The frames lie on the path and the tree stores the entries.
    closed spec fn inv(&self) -> bool {
        &&& self.handed@.len() == self.sent
        &&& self.budget == weight(self.entries@)
        &&& spine_ok(self.file(), self.path@, frames_of(self.spine@))
        &&& forall|k: Seq<char>|
            #[trigger] pending(self.file(), self.path@, frames_of(self.spine@), 0, k) == values_for(
                self.entries@,
                k,
            )
    }

    /// Whether the writer is in order between two calls: its frames are the
    /// nodes on the path of the key added last, the last of them has no
    /// children, and the tree stores exactly the entries.
    pub closed spec fn wf(&self) -> bool {
        &&& self.inv()
        &&& frames_of(self.spine@).last().depth == self.path@.len()
        &&& frames_of(self.spine@).last().links.len() == 0
        &&& self.path@ == last_key(self.entries@)
        &&& size(self@) <= 8 + weight(self.entries@)
        &&& weight(self.entries@) <= MAX_WEIGHT
    }

    /// A writer that holds nothing yet.
    pub fn new() -> (w: Writer)
        ensures
            w.wf(),
            w.entries() == Seq::<(Seq<char>, u64)>::empty(),
            w@ == fresh(),
            w.handed() == Seq::<u8>::empty(),
    {
        let mut spine: Vec<Frame> = Vec::new();
        spine.push(Frame { depth: 0, values: Vec::new(), edges: Vec::new() });
        let w = Writer {
            path: Vec::new(),
            spine,
            out: Vec::new(),
            sent: 0,
            budget: 0,
            handed: Ghost(Seq::empty()),
            entries: Ghost(Seq::empty()),
        };
        proof {
            let frames = frames_of(w.spine@);
            assert(w.file() =~= Seq::<u8>::empty());
            assert(w@.written =~= Seq::<u8>::empty());
            crate::node::lemma_node_len(frames[0].values, frames[0].links);
            assert(crate::node::encode_links(frames[0].links) =~= Seq::<u8>::empty());
            assert(frames[0].links =~= Seq::<Link>::empty());
            assert(frames =~= fresh().frames);
            assert forall|k: Seq<char>|
                #[trigger] pending(w.file(), w.path@, frames, 0, k) == values_for(w.entries@, k) by {
                if k.len() == 0 {
                    assert(frames[0].values =~= Seq::<u64>::empty());
                }
            }
        }
        w
    }

    /// Writes the last frame and hangs it under its parent.
    #[verifier::rlimit(60)]
    fn close_last(&mut self)
        requires
            old(self).inv(),
            old(self).spine@.len() >= 2,
            old(self).file().len() <= u64::MAX,
        ensures
            final(self).inv(),
            final(self).handed@ == old(self).handed@,
            size(final(self)@) == size(old(self)@),
            final(self).entries@ == old(self).entries@,
            final(self).path@ == old(self).path@,
            extends(final(self).file(), old(self).file()),
            final(self).file() == old(self).file() + encode_node(
                frames_of(old(self).spine@).last().values,
                frames_of(old(self).spine@).last().links,
            ),
            frames_of(final(self).spine@) == closed_frames(
                old(self).file(),
                old(self).path@,
                frames_of(old(self).spine@),
            ),
    {
        let ghost f = self.file();
        let ghost frames = frames_of(self.spine@);
        let ghost m = frames.len() - 1;
        assert(frames[m] == self.spine@[m]@);
        assert(frames[m - 1] == self.spine@[m - 1]@);
        let last = self.spine.pop().unwrap();
        let mut parent = self.spine.pop().unwrap();
        proof {
            lemma_heads_count(frames[m].links, frames[m].links.len() as int);
            assert forall|i: int| 0 <= i < last.edges@.len() implies (#[trigger] last.edges@[i]).label@.len()
                <= MAX_KEY_CHARS by {
                assert(frames[m].links[i].label == last.edges@[i].label@);
            }
        }
        let off = write_node(&mut self.out, self.sent, &last.values, &last.edges);
        let label = slice_to_vec(slice_subrange(self.path.as_slice(), parent.depth, last.depth));
        parent.edges.push(Edge { label, child: off });
        self.spine.push(parent);
        proof {
            assert(self.file() =~= f + encode_node(frames[m].values, frames[m].links));
            lemma_close_size(f, self.path@, frames);
            lemma_close(f, self.file(), self.path@, frames);
            let now = frames_of(self.spine@);
            let want = closed_frames(f, self.path@, frames);
            assert(now.len() == want.len());
            assert forall|i: int| 0 <= i < now.len() implies now[i] == want[i] by {
                if i < m - 1 {
                    assert(self.spine@[i] == old(self).spine@[i]);
                    assert(frames[i] == old(self).spine@[i]@);
                } else {
                    assert(now[i].links =~= want[i].links);
                }
            }
            assert(now =~= want);
        }
    }

    /// Writes the last frame and hangs it under a new frame at depth `c`,
    /// inside the label that led to it.
    #[verifier::rlimit(60)]
    fn split_last(&mut self, c: usize)
        requires
            old(self).inv(),
            old(self).spine@.len() >= 2,
            old(self).spine@[old(self).spine@.len() - 2].depth < c < old(self).spine@.last().depth,
            old(self).file().len() <= u64::MAX,
        ensures
            final(self).inv(),
            final(self).handed@ == old(self).handed@,
            size(final(self)@) == size(old(self)@) + 20,
            final(self).entries@ == old(self).entries@,
            final(self).path@ == old(self).path@,
            extends(final(self).file(), old(self).file()),
            final(self).file() == old(self).file() + encode_node(
                frames_of(old(self).spine@).last().values,
                frames_of(old(self).spine@).last().links,
            ),
            frames_of(final(self).spine@) == split_frames(
                old(self).file(),
                old(self).path@,
                frames_of(old(self).spine@),
                c as int,
            ),
    {
        let ghost f = self.file();
        let ghost frames = frames_of(self.spine@);
        let ghost m = frames.len() - 1;
        assert(frames[m] == self.spine@[m]@);
        assert(frames[m - 1] == self.spine@[m - 1]@);
        let last = self.spine.pop().unwrap();
        proof {
            lemma_heads_count(frames[m].links, frames[m].links.len() as int);
            assert forall|i: int| 0 <= i < last.edges@.len() implies (#[trigger] last.edges@[i]).label@.len()
                <= MAX_KEY_CHARS by {
                assert(frames[m].links[i].label == last.edges@[i].label@);
            }
        }
        let off = write_node(&mut self.out, self.sent, &last.values, &last.edges);
        let label = slice_to_vec(slice_subrange(self.path.as_slice(), c, last.depth));
        let mut edges: Vec<Edge> = Vec::new();
        edges.push(Edge { label, child: off });
        self.spine.push(Frame { depth: c, values: Vec::new(), edges });
        proof {
            assert(self.file() =~= f + encode_node(frames[m].values, frames[m].links));
            lemma_split_size(f, self.path@, frames, c as int);
            lemma_split(f, self.file(), self.path@, frames, c as int);
            let now = frames_of(self.spine@);
            let want = split_frames(f, self.path@, frames, c as int);
            assert(now.len() == want.len());
            assert forall|i: int| 0 <= i < now.len() implies now[i] == want[i] by {
                if i < m {
                    assert(self.spine@[i] == old(self).spine@[i]);
                    assert(frames[i] == old(self).spine@[i]@);
                } else {
                    assert(now[i].links =~= want[i].links);
                    assert(now[i].values =~= want[i].values);
                }
            }
            assert(now =~= want);
        }
    }

    /// Adds `val` to the values of the key added last.
    #[verifier::rlimit(60)]
    fn repeat_key(&mut self, val: u64) -> (r: Result<(), Error>)
        requires
            old(self).wf(),
            weight(old(self).entries@) + cost(old(self).path@) <= MAX_WEIGHT,
        ensures
            final(self).wf(),
            final(self).handed@ == old(self).handed@,
            final(self).file() == old(self).file(),
            final(self).path@ == old(self).path@,
            frames_of(final(self).spine@) == if r is Ok {
                value_frames(frames_of(old(self).spine@), val)
            } else {
                frames_of(old(self).spine@)
            },
            r == if values_for(old(self).entries@, old(self).path@).len() < u32::MAX {
                Ok::<(), Error>(())
            } else {
                Err::<(), Error>(Error::TooLarge)
            },
            final(self).entries@ == if r is Ok {
                old(self).entries@.push((old(self).path@, val))
            } else {
                old(self).entries@
            },
    {
        let ghost f = self.file();
        let ghost frames = frames_of(self.spine@);
        let ghost entries = self.entries@;
        let ghost path = self.path@;
        proof {
            lemma_values_for_push(entries, path, val);
            lemma_path_values(f, path, frames, 0);
            assert(path.skip(0) =~= path);
            assert(frames.last() == self.spine@.last()@);
        }
        if self.spine[self.spine.len() - 1].values.len() >= u32::MAX as usize {
            return Err(Error::TooLarge);
        }
        let mut last = self.spine.pop().unwrap();
        last.values.push(val);
        self.spine.push(last);
        self.budget = self.budget + (48 + 4 * (self.path.len() as u64));
        self.entries = Ghost(entries.push((path, val)));
        proof {
            assert(entries.push((path, val)).drop_last() =~= entries);
            lemma_value_size(path, frames, val);
            lemma_value(f, path, frames, val);
            let now = frames_of(self.spine@);
            let want = value_frames(frames, val);
            assert(now.len() == want.len());
            assert forall|i: int| 0 <= i < now.len() implies now[i] == want[i] by {
                if i < now.len() - 1 {
                    assert(self.spine@[i] == old(self).spine@[i]);
                    assert(frames[i] == old(self).spine@[i]@);
                }
            }
            assert(now =~= want);
        }
        Ok(())
    }

    /// Writes the frames that lie deeper than `c` characters, as far as
    /// their parents do not lie above `c`.
    #[verifier::rlimit(60)]
    fn close_to(&mut self, c: usize)
        requires
            old(self).inv(),
            old(self).spine@.last().depth >= c,
            size(old(self)@) <= u64::MAX,
        ensures
            final(self).inv(),
            final(self).handed@ == old(self).handed@,
            size(final(self)@) == size(old(self)@),
            final(self).entries@ == old(self).entries@,
            final(self).path@ == old(self).path@,
            extends(final(self).file(), old(self).file()),
            final(self).spine@.len() >= 1,
            final(self).spine@.last().depth >= c,
            final(self).spine@.len() >= 2 ==> final(self).spine@[final(self).spine@.len() - 2].depth
                < c,
            final(self).spine@.last().depth == old(self).spine@.last().depth ==> final(self).spine@
                == old(self).spine@,
            (final(self).file(), frames_of(final(self).spine@)) == close_to(
                old(self).file(),
                old(self).path@,
                frames_of(old(self).spine@),
                c as int,
            ),
    {
        while self.spine.len() >= 2 && self.spine[self.spine.len() - 2].depth >= c
            invariant
                self.inv(),
                self.handed@ == old(self).handed@,
                size(self@) == size(old(self)@),
                size(old(self)@) <= u64::MAX,
                self.entries@ == old(self).entries@,
                self.path@ == old(self).path@,
                extends(self.file(), old(self).file()),
                self.spine@.len() >= 1,
                self.spine@.last().depth >= c,
                self.spine@.last().depth <= old(self).spine@.last().depth,
                self.spine@.last().depth == old(self).spine@.last().depth ==> self.spine@ == old(
                    self,
                ).spine@,
                close_to(self.file(), self.path@, frames_of(self.spine@), c as int) == close_to(
                    old(self).file(),
                    old(self).path@,
                    frames_of(old(self).spine@),
                    c as int,
                ),
            decreases self.spine@.len(),
        {
            let ghost before = frames_of(self.spine@);
            assert(before[before.len() - 2] == self.spine@[self.spine@.len() - 2]@);
            assert(before.last() == self.spine@.last()@);
            proof {
                lemma_pend_nonneg(self.path@, before, 0);
            }
            self.close_last();
            proof {
                let now = frames_of(self.spine@);
                assert(now.last() == self.spine@.last()@);
                assert(now.last().depth == before[before.len() - 2].depth);
                assert(before[before.len() - 2].depth < before.last().depth);
            }
        }
    }

    /// Hangs a leaf for `key` under the last frame, which lies at the depth
    /// up to which `key` follows the path.
    #[verifier::rlimit(60)]
    fn hang_leaf(&mut self, key: &[char], val: u64)
        requires
            old(self).inv(),
            old(self).spine@.last().depth < key@.len() <= MAX_KEY_CHARS,
            forall|i: int| 0 <= i < old(self).spine@.last().depth ==> old(self).path@[i] == key@[i],
            old(self).spine@.last().depth < old(self).path@.len() ==> (old(self).path@[old(
                self,
            ).spine@.last().depth as int] as u32) < (key@[old(self).spine@.last().depth as int] as u32),
            old(self).spine@.last().depth == old(self).path@.len() ==> old(
                self,
            ).spine@.last()@.links.len() == 0,
            weight(old(self).entries@) + cost(key@) <= MAX_WEIGHT,
            size(old(self)@) <= 28 + weight(old(self).entries@),
        ensures
            final(self).wf(),
            final(self).handed@ == old(self).handed@,
            final(self).file() == old(self).file(),
            final(self).path@ == key@,
            frames_of(final(self).spine@) == leaf_frames(frames_of(old(self).spine@), key@, val),
            final(self).entries@ == old(self).entries@.push((key@, val)),
    {
        let ghost g = self.file();
        let ghost spine = frames_of(self.spine@);
        let ghost entries = self.entries@;
        let ghost path = self.path@;
        assert(spine.last() == self.spine@.last()@);
        self.spine.push(Frame { depth: key.len(), values: vec![val], edges: Vec::new() });
        self.path = slice_to_vec(key);
        self.budget = self.budget + (48 + 4 * (key.len() as u64));
        self.entries = Ghost(entries.push((key@, val)));
        proof {
            assert(entries.push((key@, val)).drop_last() =~= entries);
            lemma_leaf_size(path, spine, key@, val);
            lemma_values_for_push(entries, key@, val);
            lemma_leaf(g, path, spine, key@, val);
            let now = frames_of(self.spine@);
            let want = leaf_frames(spine, key@, val);
            assert(now.len() == want.len());
            assert forall|i: int| 0 <= i < now.len() implies now[i] == want[i] by {
                if i < now.len() - 1 {
                    assert(self.spine@[i] == old(self).spine@[i]);
                    assert(now[i] == spine[i]);
                } else {
                    assert(now[i].links =~= want[i].links);
                    assert(now[i].values =~= want[i].values);
                }
            }
            assert(now =~= want);
        }
    }

    /// Adds `val` under `key`, given by its characters. The key must not
    /// sort before the key added last.
    #[verifier::rlimit(60)]
    pub fn insert(&mut self, key: &[char], val: u64) -> (r: Result<(), Error>)
        requires
            old(self).wf(),
        ensures
            final(self).wf(),
            r == match refusal(old(self).entries(), key@) {
                Some(e) => Err::<(), Error>(e),
                None => Ok::<(), Error>(()),
            },
            final(self).entries() == if r is Ok {
                old(self).entries().push((key@, val))
            } else {
                old(self).entries()
            },
            final(self)@ == if r is Ok {
                after_insert(old(self)@, key@, val)
            } else {
                old(self)@
            },
            final(self).handed() == old(self).handed(),
            extends(final(self).written(), old(self).written()),
    {
        let c = diff_start(key, self.path.as_slice());
        let too_early = if c < key.len() && c < self.path.len() {
            (key[c] as u32) < (self.path[c] as u32)
        } else {
            key.len() < self.path.len()
        };
        proof {
            if c < key@.len() && c < self.path@.len() {
                vstd::utf8::char_u32_cast(key@[c as int], key@[c as int] as u32);
                vstd::utf8::char_u32_cast(self.path@[c as int], self.path@[c as int] as u32);
            }
            assert(too_early == key_lt(key@, last_key(self.entries@)));
        }
        if too_early {
            return Err(Error::Order);
        }
        if key.len() > MAX_KEY_CHARS {
            return Err(Error::TooLarge);
        }
        if self.budget > MAX_WEIGHT - (48 + 4 * (key.len() as u64)) {
            return Err(Error::TooLarge);
        }
        if c == self.path.len() && c == key.len() {
            assert(key@ =~= self.path@);
            return self.repeat_key(val);
        }
        assert(key@ != self.path@);
        assert(c < self.path@.len() ==> (self.path@[c as int] as u32) < (key@[c as int] as u32));
        let ghost first = frames_of(self.spine@);
        assert(first.last() == self.spine@.last()@);
        self.close_to(c);
        let ghost before = frames_of(self.spine@);
        assert(before.last() == self.spine@.last()@);
        if self.spine[self.spine.len() - 1].depth > c {
            assert(before[before.len() - 2] == self.spine@[self.spine@.len() - 2]@);
            proof {
                lemma_pend_nonneg(self.path@, before, 0);
            }
            self.split_last(c);
            proof {
                let now = frames_of(self.spine@);
                assert(now.last() == self.spine@.last()@);
            }
        }
        self.hang_leaf(key, val);
        Ok(())
    }

    /// Adds `val` under `key`. The key must not sort before the key added
    /// last.
    pub fn add(&mut self, key: &str, val: u64) -> (r: Result<(), Error>)
        requires
            old(self).wf(),
        ensures
            final(self).wf(),
            r == match refusal(old(self).entries(), key@) {
                Some(e) => Err::<(), Error>(e),
                None => Ok::<(), Error>(()),
            },
            final(self).entries() == if r is Ok {
                old(self).entries().push((key@, val))
            } else {
                old(self).entries()
            },
            final(self)@ == if r is Ok {
                after_insert(old(self)@, key@, val)
            } else {
                old(self)@
            },
            final(self).handed() == old(self).handed(),
            extends(final(self).written(), old(self).written()),
    {
        let chars = chars_of(key);
        self.insert(chars.as_slice(), val)
    }

    /// Writes the root, which is the only frame left, and the trailer, and
    /// hands out the bytes that were not handed out before.
    #[verifier::rlimit(60)]
    fn seal(self) -> (rest: Vec<u8>)
        requires
            self.inv(),
            self.spine@.len() == 1,
            self.file().len() <= u64::MAX,
        ensures
            holds(self.handed@ + rest@, self.entries@),
            self.handed@ + rest@ == self.file() + encode_node(
                frames_of(self.spine@)[0].values,
                frames_of(self.spine@)[0].links,
            ) + be64(self.file().len() as u64),
    {
        let ghost f = self.file();
        let ghost handed = self.handed@;
        let ghost frames = frames_of(self.spine@);
        let ghost path = self.path@;
        let ghost entries = self.entries@;
        assert(frames[0] == self.spine@[0]@);
        let mut w = self;
        let root = w.spine.pop().unwrap();
        proof {
            lemma_heads_count(frames[0].links, frames[0].links.len() as int);
            assert forall|i: int| 0 <= i < root.edges@.len() implies (#[trigger] root.edges@[i]).label@.len()
                <= MAX_KEY_CHARS by {
                assert(frames[0].links[i].label == root.edges@[i].label@);
            }
        }
        let mut out = w.out;
        let off = write_node(&mut out, w.sent, &root.values, &root.edges);
        let ghost g = handed + out@;
        put_u64(&mut out, off);
        proof {
            let h = handed + out@;
            let node = encode_node(frames[0].values, frames[0].links);
            assert(g =~= f + node);
            assert(h =~= g + be64(off));
            lemma_written(f, g, path, frames);
            lemma_sealed(g, h, off, entries);
            assert(g.subrange(off as int, off + node.len()) =~= node);
            assert(h.subrange(0, g.len() as int) =~= g);
            lemma_has_at_extend(g, h, off as int, node);
            assert forall|i: int| 0 <= i < frames[0].links.len() implies vstd::utf8::encode_utf8(
                #[trigger] frames[0].links[i].label,
            ).len() <= u32::MAX by {
                lemma_encode_len(frames[0].links[i].label);
            }
            lemma_node_end(h, off as int, frames[0].values, frames[0].links);
            assert forall|key: Seq<char>| #[trigger] stored(g, off, key) == values_for(entries, key) by {
                assert(stored(g, off, key) == pending(f, path, frames, 0, key));
            }
        }
        out
    }

    /// Hands out the bytes written since bytes were handed out last. The
    /// writer goes on as if it still held them: offsets count from the
    /// first byte written.
    pub fn take_written(&mut self) -> (bytes: Vec<u8>)
        requires
            old(self).wf(),
        ensures
            final(self).wf(),
            final(self)@ == old(self)@,
            final(self).entries() == old(self).entries(),
            old(self).handed() + bytes@ == old(self).written(),
            final(self).handed() == old(self).written(),
    {
        let mut bytes: Vec<u8> = Vec::new();
        proof {
            lemma_pend_nonneg(self.path@, frames_of(self.spine@), 0);
        }
        bytes.append(&mut self.out);
        self.sent = self.sent + bytes.len() as u64;
        proof {
            let now = old(self).handed@ + bytes@;
            self.handed = Ghost(now);
            assert(bytes@ =~= old(self).out@);
            assert(self.file() =~= old(self).file());
            assert(self@.written =~= old(self)@.written);
        }
        bytes
    }

    /// The weight of the entries accepted so far.
    pub fn weight(&self) -> (w: u64)
        requires
            self.wf(),
        ensures
            w == weight(self.entries()),
            w <= MAX_WEIGHT,
    {
        self.budget
    }

    /// The entries of a writer never weigh too much.
    pub proof fn lemma_weight_fits(&self)
        requires
            self.wf(),
        ensures
            0 <= weight(self.entries()) <= MAX_WEIGHT,
    {
        lemma_weight_push(self.entries@, (Seq::empty(), 0));
    }

    /// Writes the nodes that are still in memory and the offset of the
    /// root, and hands out the bytes that were not handed out before: with
    /// those handed out before they are the index.
    #[verifier::rlimit(60)]
    pub fn finish(self) -> (rest: Vec<u8>)
        requires
            self.wf(),
        ensures
            holds(self.handed() + rest@, self.entries()),
            self.handed() + rest@ == sealed(self@),
            sealed(self@).len() <= 16 + weight(self.entries()),
    {
        let mut w = self;
        proof {
            lemma_sealed_len(self@);
        }
        while w.spine.len() >= 2
            invariant
                w.inv(),
                w.handed@ == self.handed@,
                size(w@) == size(self@),
                size(self@) <= u64::MAX,
                w.entries@ == self.entries@,
                w.path@ == self.path@,
                extends(w.file(), self.file()),
                w.spine@.len() >= 1,
                close_to(w.file(), w.path@, frames_of(w.spine@), 0) == close_to(
                    self.file(),
                    self.path@,
                    frames_of(self.spine@),
                    0,
                ),
            decreases w.spine@.len(),
        {
            let ghost before = frames_of(w.spine@);
            assert(before[before.len() - 2] == w.spine@[w.spine@.len() - 2]@);
            proof {
                lemma_pend_nonneg(w.path@, before, 0);
            }
            w.close_last();
        }
        let ghost left = frames_of(w.spine@);
        assert(left.last() == left[0]);
        proof {
            lemma_pend_nonneg(w.path@, left, 0);
        }
        w.seal()
    }
}

/// An index whose last node is the root of a well-formed tree, followed by
/// the offset of that node, holds what the tree stores.
pub proof fn lemma_sealed(g: Seq<u8>, h: Seq<u8>, off: u64, entries: Seq<(Seq<char>, u64)>)
    requires
        node_wf(g, off),
        h == g + be64(off),
    ensures
        extends(h, g),
        root_of(h) == Ok::<u64, Error>(off),
        node_wf(h, off),
        forall|key: Seq<char>| #[trigger] stored(h, off, key) == stored(g, off, key),
{
    assert(extends(h, g));
    lemma_wf_stable(g, h, off);
    assert(h.subrange(h.len() - 8, h.len() as int) =~= be64(off));
    lemma_be64_round_trip(h, h.len() - 8, off);
}

} // verus!
