//! The part of a prefix tree that a writer still holds in memory: the nodes
//! on the path of the key added last, and the proof that closing them, or
//! adding a key, changes what the tree stores only where it should.

use crate::content::{extends, labels_ascend, lemma_wf_stable, node_wf, stored};
use crate::error::Error;
use crate::layout::{links_at, prefix_link, values_at, Link};
use crate::node::{
    encode_links, encode_node, has_at, lemma_encode_concat, lemma_encode_len,
    lemma_encode_links_push, lemma_link_len, lemma_node_len, lemma_node_round_trip, MAX_KEY_CHARS,
};
use vstd::utf8::encode_utf8;
use crate::text::{common_prefix, is_prefix};
use crate::wire::be64;
use crate::tree::lemma_prefix_link;
use vstd::prelude::*;

verus! {

/// A node that is not written yet: how many characters of the path lead to
/// it, its values, and the edges to its children that are written.
pub struct FrameView {
    pub depth: int,
    pub values: Seq<u64>,
    pub links: Seq<Link>,
}

/// Whether every label of `links` starts with a character below `bound`.
pub open spec fn heads_below(links: Seq<Link>, bound: int) -> bool {
    forall|i: int| 0 <= i < links.len() ==> ((#[trigger] links[i]).label[0] as u32) < bound
}

/// Whether the edges lead to well-formed nodes of `f` and are labelled as a
/// prefix tree demands.
pub open spec fn links_ok(f: Seq<u8>, links: Seq<Link>) -> bool {
    &&& labels_ascend(links)
    &&& forall|i: int|
        0 <= i < links.len() ==> (#[trigger] links[i]).child < f.len() && node_wf(f, links[i].child)
            && links[i].label.len() <= MAX_KEY_CHARS
}

/// Whether the frames describe the nodes on the path `path` of a prefix
/// tree whose other nodes stand in `f`: the root first, each frame deeper
/// than the one before, and every written edge ordered before the path.
pub open spec fn spine_ok(f: Seq<u8>, path: Seq<char>, frames: Seq<FrameView>) -> bool {
    &&& frames.len() >= 1
    &&& frames[0].depth == 0
    &&& path.len() <= MAX_KEY_CHARS
    &&& forall|j: int|
        0 <= j < frames.len() ==> 0 <= (#[trigger] frames[j]).depth <= path.len()
            && frames[j].values.len() <= u32::MAX && links_ok(f, frames[j].links)
    &&& forall|j: int|
        0 <= j < frames.len() - 1 ==> (#[trigger] frames[j]).depth < frames[j + 1].depth
            && heads_below(frames[j].links, path[frames[j].depth] as u32 as int)
    &&& frames.last().depth < path.len() ==> heads_below(
        frames.last().links,
        path[frames.last().depth] as u32 + 1,
    )
}

/// The values stored under the path `key` below the node of frame `j`:
/// written edges are tried first, then the edge to the next frame.
pub open spec fn pending(
    f: Seq<u8>,
    path: Seq<char>,
    frames: Seq<FrameView>,
    j: int,
    key: Seq<char>,
) -> Seq<u64>
    decreases frames.len() - j,
{
    if j < 0 || j >= frames.len() {
        Seq::empty()
    } else if key.len() == 0 {
        frames[j].values
    } else {
        let links = frames[j].links;
        let i = prefix_link(links, key, 0);
        if 0 <= i < links.len() {
            stored(f, links[i].child, key.skip(links[i].label.len() as int))
        } else if j + 1 < frames.len() && is_prefix(
            path.subrange(frames[j].depth, frames[j + 1].depth),
            key,
        ) {
            pending(f, path, frames, j + 1, key.skip(frames[j + 1].depth - frames[j].depth))
        } else {
            Seq::empty()
        }
    }
}

/// Whether the tree below frame `j` stores after a step what it stored
/// before, and `extra` in addition under what is left of `target`.
pub open spec fn differs_at(
    f: Seq<u8>,
    path: Seq<char>,
    frames: Seq<FrameView>,
    g: Seq<u8>,
    path2: Seq<char>,
    frames2: Seq<FrameView>,
    j: int,
    target: Seq<char>,
    extra: Seq<u64>,
) -> bool {
    forall|key: Seq<char>|
        #[trigger] pending(g, path2, frames2, j, key) == if key == target.skip(frames[j].depth) {
            pending(f, path, frames, j, key) + extra
        } else {
            pending(f, path, frames, j, key)
        }
}

/// No edge whose label starts below the first character of a key is a
/// prefix of that key.
pub proof fn lemma_heads_miss(links: Seq<Link>, key: Seq<char>, from: int)
    requires
        0 <= from <= links.len(),
        key.len() > 0,
        forall|i: int| 0 <= i < links.len() ==> (#[trigger] links[i]).label.len() > 0,
        heads_below(links, key[0] as u32 as int),
    ensures
        prefix_link(links, key, from) == links.len(),
    decreases links.len() - from,
{
    if from < links.len() {
        assert(links[from].label[0] != key[0]);
        if is_prefix(links[from].label, key) {
            assert(key.take(links[from].label.len() as int)[0] == links[from].label[0]);
        }
        lemma_heads_miss(links, key, from + 1);
    }
}

/// The first prefix edge among edges with one more appended.
pub proof fn lemma_prefix_link_push(links: Seq<Link>, link: Link, key: Seq<char>, from: int)
    requires
        0 <= from <= links.len(),
    ensures
        prefix_link(links.push(link), key, from) == if prefix_link(links, key, from) < links.len() {
            prefix_link(links, key, from)
        } else if is_prefix(link.label, key) {
            links.len() as int
        } else {
            links.len() as int + 1
        },
    decreases links.len() - from,
{
    let more = links.push(link);
    if from < links.len() {
        assert(more[from] == links[from]);
        if !is_prefix(links[from].label, key) {
            lemma_prefix_link_push(links, link, key, from + 1);
        }
    } else {
        assert(more[from] == link);
        assert(prefix_link(more, key, from + 1) == more.len());
    }
}

/// A step that changes nothing above frame `b`, and below frame `b` only
/// what is stored under `target`, changes below every frame above `b` only
/// what is stored under `target`.
#[verifier::rlimit(60)]
pub proof fn lemma_lift(
    f: Seq<u8>,
    path: Seq<char>,
    frames: Seq<FrameView>,
    g: Seq<u8>,
    path2: Seq<char>,
    frames2: Seq<FrameView>,
    b: int,
    j: int,
    target: Seq<char>,
    extra: Seq<u64>,
)
    requires
        0 <= j <= b,
        b < frames.len(),
        b < frames2.len(),
        forall|i: int| 0 <= i < b ==> frames2[i] == frames[i],
        frames2[b].depth == frames[b].depth,
        frames[b].depth <= target.len(),
        frames[b].depth <= path.len(),
        frames[b].depth <= path2.len(),
        forall|i: int| 0 <= i < frames[b].depth ==> path[i] == target[i] && path2[i] == target[i],
        forall|i: int| 0 <= i < b ==> 0 <= (#[trigger] frames[i]).depth < frames[i + 1].depth,
        forall|i: int|
            0 <= i < b ==> heads_below((#[trigger] frames[i]).links, target[frames[i].depth] as u32 as int),
        forall|i: int| 0 <= i < b ==> links_ok(f, (#[trigger] frames[i]).links),
        extends(g, f),
        differs_at(f, path, frames, g, path2, frames2, b, target, extra),
    ensures
        differs_at(f, path, frames, g, path2, frames2, j, target, extra),
    decreases b - j,
{
    if j < b {
        lemma_lift(f, path, frames, g, path2, frames2, b, j + 1, target, extra);
        let fr = frames[j];
        let d = fr.depth;
        let e = frames[j + 1].depth;
        assert(frames2[j] == fr);
        assert(frames2[j + 1].depth == e);
        assert(d < e <= frames[b].depth) by {
            lemma_depths_ascend(frames, j + 1, b);
        }
        let label = path.subrange(d, e);
        assert(label =~= path2.subrange(d, e));
        assert(label =~= target.subrange(d, e));
        let left = target.skip(d);
        let deeper = target.skip(e);
        assert(left[0] == target[d]);
        assert forall|key: Seq<char>|
            #[trigger] pending(g, path2, frames2, j, key) == if key == left {
                pending(f, path, frames, j, key) + extra
            } else {
                pending(f, path, frames, j, key)
            } by {
            if key.len() == 0 {
            } else {
                let i = prefix_link(fr.links, key, 0);
                lemma_prefix_link(fr.links, key, 0);
                if 0 <= i < fr.links.len() {
                    lemma_wf_stable(f, g, fr.links[i].child);
                    if key == left {
                        lemma_heads_miss(fr.links, key, 0);
                    }
                } else if is_prefix(label, key) {
                    let rest = key.skip(e - d);
                    assert(pending(g, path2, frames2, j, key) == pending(g, path2, frames2, j + 1, rest));
                    assert(pending(f, path, frames, j, key) == pending(f, path, frames, j + 1, rest));
                    if key == left {
                        assert(rest =~= deeper);
                    }
                    if rest == deeper {
                        assert(key =~= key.take(e - d) + rest);
                        assert(left =~= label + deeper);
                        assert(key =~= left);
                    }
                } else {
                    if key == left {
                        assert(left.take(e - d) =~= label);
                    }
                }
            }
        }
    }
}

/// The frames between two indices get deeper.
pub proof fn lemma_depths_ascend(frames: Seq<FrameView>, i: int, b: int)
    requires
        0 <= i <= b < frames.len(),
        forall|k: int| 0 <= k < b ==> 0 <= (#[trigger] frames[k]).depth < frames[k + 1].depth,
    ensures
        frames[i].depth <= frames[b].depth,
        i < b ==> frames[i].depth < frames[b].depth,
    decreases b - i,
{
    if i < b {
        lemma_depths_ascend(frames, i + 1, b);
    }
}

/// Under the whole path the tree stores the values of its last frame,
/// seen from any frame.
#[verifier::rlimit(60)]
pub proof fn lemma_path_values(f: Seq<u8>, path: Seq<char>, frames: Seq<FrameView>, j: int)
    requires
        spine_ok(f, path, frames),
        frames.last().depth == path.len(),
        0 <= j < frames.len(),
    ensures
        pending(f, path, frames, j, path.skip(frames[j].depth)) == frames.last().values,
    decreases frames.len() - j,
{
    let d = frames[j].depth;
    let key = path.skip(d);
    if j == frames.len() - 1 {
        assert(key.len() == 0);
    } else {
        let e = frames[j + 1].depth;
        assert(frames[j + 1].depth <= path.len());
        assert(key[0] == path[d]);
        lemma_heads_miss(frames[j].links, key, 0);
        assert(key.take(e - d) =~= path.subrange(d, e));
        assert(key.skip(e - d) =~= path.skip(e));
        lemma_path_values(f, path, frames, j + 1);
    }
}

/// Edges that lead to well-formed nodes keep doing so, and the nodes keep
/// what they store, when bytes are appended.
pub proof fn lemma_links_ok_stable(f: Seq<u8>, g: Seq<u8>, links: Seq<Link>)
    requires
        extends(g, f),
        links_ok(f, links),
    ensures
        links_ok(g, links),
        forall|i: int, key: Seq<char>|
            0 <= i < links.len() ==> #[trigger] stored(g, links[i].child, key) == stored(
                f,
                links[i].child,
                key,
            ),
{
    assert forall|i: int| 0 <= i < links.len() implies (#[trigger] links[i]).child < g.len()
        && node_wf(g, links[i].child) && links[i].label.len() <= MAX_KEY_CHARS by {
        lemma_wf_stable(f, g, links[i].child);
    }
    assert forall|i: int, key: Seq<char>| 0 <= i < links.len() implies #[trigger] stored(
        g,
        links[i].child,
        key,
    ) == stored(f, links[i].child, key) by {
        lemma_wf_stable(f, g, links[i].child);
    }
}

/// A reader finds a node where it was appended.
#[verifier::rlimit(60)]
pub proof fn lemma_appended_node(f: Seq<u8>, g: Seq<u8>, vals: Seq<u64>, links: Seq<Link>)
    requires
        f.len() <= u64::MAX,
        g == f + encode_node(vals, links),
        vals.len() <= u32::MAX,
        links_ok(f, links),
    ensures
        extends(g, f),
        f.len() < g.len(),
        values_at(g, f.len() as int) == Ok::<Seq<u64>, Error>(vals),
        links_at(g, f.len() as int) == Ok::<Seq<Link>, Error>(links),
{
    let off = f.len() as int;
    let node = encode_node(vals, links);
    assert(node.len() >= 8);
    assert(g.subrange(off, off + node.len()) =~= node);
    assert(has_at(g, off, node));
    lemma_heads_count(links, links.len() as int);
    assert forall|i: int| 0 <= i < links.len() implies vstd::utf8::encode_utf8(
        #[trigger] links[i].label,
    ).len() <= u32::MAX by {
        lemma_encode_len(links[i].label);
    }
    lemma_node_round_trip(g, off, vals, links);
}

/// What a node stores once it is written: what its frame held.
#[verifier::rlimit(60)]
pub proof fn lemma_written(f: Seq<u8>, g: Seq<u8>, path: Seq<char>, frames: Seq<FrameView>)
    requires
        spine_ok(f, path, frames),
        f.len() <= u64::MAX,
        g == f + encode_node(frames.last().values, frames.last().links),
    ensures
        extends(g, f),
        f.len() < g.len(),
        node_wf(g, f.len() as u64),
        forall|key: Seq<char>|
            #[trigger] stored(g, f.len() as u64, key) == pending(
                f,
                path,
                frames,
                frames.len() - 1,
                key,
            ),
{
    let m = frames.len() - 1;
    let fr = frames[m];
    let off = f.len() as u64;
    assert(links_ok(f, fr.links));
    lemma_appended_node(f, g, fr.values, fr.links);
    lemma_links_ok_stable(f, g, fr.links);
    assert(node_wf(g, off)) by {
        assert forall|i: int| 0 <= i < fr.links.len() implies node_wf(g, (#[trigger] fr.links[i]).child) by {}
    }
    assert forall|key: Seq<char>|
        #[trigger] stored(g, off, key) == pending(f, path, frames, m, key) by {
        if key.len() > 0 {
            let i = prefix_link(fr.links, key, 0);
            lemma_prefix_link(fr.links, key, 0);
            if 0 <= i < fr.links.len() {
                assert(fr.links[i].child < off);
                assert(stored(g, fr.links[i].child, key.skip(fr.links[i].label.len() as int))
                    == stored(f, fr.links[i].child, key.skip(fr.links[i].label.len() as int)));
            }
        }
    }
}

/// Edges whose first characters ascend strictly are at most as many as
/// there are characters.
pub proof fn lemma_heads_count(links: Seq<Link>, n: int)
    requires
        labels_ascend(links),
        0 <= n <= links.len(),
    ensures
        n > 0 ==> n - 1 <= links[n - 1].label[0] as u32,
        n <= 0x11_0000,
    decreases n,
{
    if n > 1 {
        lemma_heads_count(links, n - 1);
        assert((links[n - 2].label[0] as u32) < (links[n - 1].label[0] as u32));
    }
    if n > 0 {
        vstd::utf8::char_is_scalar(links[n - 1].label[0]);
    }
}

/// Edges stay in order when one is appended whose label starts above all
/// of theirs.
pub proof fn lemma_links_push_ok(g: Seq<u8>, links: Seq<Link>, link: Link, bound: int)
    requires
        links_ok(g, links),
        heads_below(links, bound),
        link.label.len() > 0,
        link.label.len() <= MAX_KEY_CHARS,
        link.label[0] as u32 == bound,
        link.child < g.len(),
        node_wf(g, link.child),
    ensures
        links_ok(g, links.push(link)),
        heads_below(links.push(link), bound + 1),
{
    let more = links.push(link);
    assert forall|i: int| 0 <= i < more.len() implies (#[trigger] more[i]).label.len() > 0
        && more[i].child < g.len() && node_wf(g, more[i].child) && more[i].label.len()
        <= MAX_KEY_CHARS && (more[i].label[0] as u32) < bound + 1 by {
        if i < links.len() {
            assert(more[i] == links[i]);
        }
    }
    assert forall|i: int, k: int| 0 <= i < k < more.len() implies ((#[trigger] more[i]).label[0] as u32)
        < (#[trigger] more[k]).label[0] as u32 by {
        assert(more[i] == links[i]);
        if k < links.len() {
            assert(more[k] == links[k]);
        }
    }
}

/// The frames after the last one was written and hung under its parent.
pub open spec fn closed_frames(f: Seq<u8>, path: Seq<char>, frames: Seq<FrameView>) -> Seq<
    FrameView,
> {
    frames.take(frames.len() - 2).push(
        FrameView {
            depth: frames[frames.len() - 2].depth,
            values: frames[frames.len() - 2].values,
            links: frames[frames.len() - 2].links.push(
                Link {
                    label: path.subrange(frames[frames.len() - 2].depth, frames.last().depth),
                    child: f.len() as u64,
                },
            ),
        },
    )
}

/// Below the parent, the tree stores after the close what it stored before.
#[verifier::rlimit(60)]
proof fn lemma_close_base(f: Seq<u8>, g: Seq<u8>, path: Seq<char>, frames: Seq<FrameView>)
    requires
        spine_ok(f, path, frames),
        frames.len() >= 2,
        f.len() <= u64::MAX,
        g == f + encode_node(frames.last().values, frames.last().links),
    ensures
        differs_at(
            f,
            path,
            frames,
            g,
            path,
            closed_frames(f, path, frames),
            frames.len() - 2,
            path,
            Seq::empty(),
        ),
{
    let frames2 = closed_frames(f, path, frames);
    let m = frames.len() - 1;
    let b = m - 1;
    let last = frames[m];
    let parent = frames[b];
    let off = f.len() as u64;
    let label = path.subrange(parent.depth, last.depth);
    let link = Link { label, child: off };
    let joined = frames2[b];
    lemma_written(f, g, path, frames);
    assert(links_ok(f, parent.links));
    lemma_links_ok_stable(f, g, parent.links);
    assert(joined.links == parent.links.push(link));
    assert forall|key: Seq<char>|
        #[trigger] pending(g, path, frames2, b, key) == if key == path.skip(frames[b].depth) {
            pending(f, path, frames, b, key) + Seq::<u64>::empty()
        } else {
            pending(f, path, frames, b, key)
        } by {
        assert(pending(f, path, frames, b, key) + Seq::<u64>::empty() =~= pending(
            f,
            path,
            frames,
            b,
            key,
        ));
        if key.len() > 0 {
            lemma_prefix_link_push(parent.links, link, key, 0);
            lemma_prefix_link(parent.links, key, 0);
            let i = prefix_link(parent.links, key, 0);
            if 0 <= i < parent.links.len() {
                assert(joined.links[i] == parent.links[i]);
            } else if is_prefix(label, key) {
                assert(joined.links[parent.links.len() as int] == link);
                assert(pending(g, path, frames2, b, key) == stored(
                    g,
                    off,
                    key.skip(label.len() as int),
                ));
                assert(pending(f, path, frames, b, key) == pending(
                    f,
                    path,
                    frames,
                    m,
                    key.skip(last.depth - parent.depth),
                ));
            }
        }
    }
}

/// The frames are in order after the last one was written and hung under
/// its parent.
#[verifier::rlimit(60)]
proof fn lemma_close_ok(f: Seq<u8>, g: Seq<u8>, path: Seq<char>, frames: Seq<FrameView>)
    requires
        spine_ok(f, path, frames),
        frames.len() >= 2,
        f.len() <= u64::MAX,
        g == f + encode_node(frames.last().values, frames.last().links),
    ensures
        spine_ok(g, path, closed_frames(f, path, frames)),
{
    let frames2 = closed_frames(f, path, frames);
    let m = frames.len() - 1;
    let b = m - 1;
    let last = frames[m];
    let parent = frames[b];
    let off = f.len() as u64;
    let label = path.subrange(parent.depth, last.depth);
    let link = Link { label, child: off };
    let joined = frames2[b];
    lemma_written(f, g, path, frames);
    assert(parent.depth < last.depth <= path.len());
    assert(label[0] == path[parent.depth]);
    assert(links_ok(f, parent.links));
    lemma_links_ok_stable(f, g, parent.links);
    lemma_links_push_ok(g, parent.links, link, path[parent.depth] as u32 as int);
    assert(joined.links == parent.links.push(link));
    assert forall|j: int| 0 <= j < frames2.len() implies 0 <= (#[trigger] frames2[j]).depth
        <= path.len() && frames2[j].values.len() <= u32::MAX && links_ok(g, frames2[j].links) by {
        if j < b {
            assert(frames2[j] == frames[j]);
            assert(links_ok(f, frames[j].links));
            lemma_links_ok_stable(f, g, frames[j].links);
        }
    }
    assert forall|j: int| 0 <= j < frames2.len() - 1 implies (#[trigger] frames2[j]).depth
        < frames2[j + 1].depth && heads_below(frames2[j].links, path[frames2[j].depth] as u32 as int) by {
        assert(frames2[j] == frames[j]);
        assert(frames2[j + 1].depth == frames[j + 1].depth);
    }
}

/// Writing the last frame and hanging it under its parent changes nothing
/// that the tree stores.
#[verifier::rlimit(60)]
pub proof fn lemma_close(f: Seq<u8>, g: Seq<u8>, path: Seq<char>, frames: Seq<FrameView>)
    requires
        spine_ok(f, path, frames),
        frames.len() >= 2,
        f.len() <= u64::MAX,
        g == f + encode_node(frames.last().values, frames.last().links),
    ensures
        extends(g, f),
        spine_ok(g, path, closed_frames(f, path, frames)),
        forall|key: Seq<char>|
            #[trigger] pending(g, path, closed_frames(f, path, frames), 0, key) == pending(
                f,
                path,
                frames,
                0,
                key,
            ),
{
    let frames2 = closed_frames(f, path, frames);
    let b = frames.len() - 2;
    lemma_written(f, g, path, frames);
    lemma_close_ok(f, g, path, frames);
    lemma_close_base(f, g, path, frames);
    assert forall|i: int| 0 <= i < b implies frames2[i] == frames[i] by {}
    lemma_lift(f, path, frames, g, path, frames2, b, 0, path, Seq::empty());
    assert forall|key: Seq<char>|
        #[trigger] pending(g, path, frames2, 0, key) == pending(f, path, frames, 0, key) by {
        assert(pending(f, path, frames, 0, key) + Seq::<u64>::empty() =~= pending(
            f,
            path,
            frames,
            0,
            key,
        ));
    }
}

/// The frames after the last one was written and hung under a new frame
/// at depth `c`, inside the label that led to it.
pub open spec fn split_frames(f: Seq<u8>, path: Seq<char>, frames: Seq<FrameView>, c: int) -> Seq<
    FrameView,
> {
    frames.take(frames.len() - 1).push(
        FrameView {
            depth: c,
            values: Seq::empty(),
            links: seq![Link { label: path.subrange(c, frames.last().depth), child: f.len() as u64 }],
        },
    )
}

/// A text starts with two labels in a row when it starts with the first
/// and goes on with the second.
pub proof fn lemma_prefix_concat(a: Seq<char>, b: Seq<char>, key: Seq<char>)
    ensures
        is_prefix(a + b, key) <==> is_prefix(a, key) && is_prefix(b, key.skip(a.len() as int)),
        is_prefix(a + b, key) ==> key.skip((a + b).len() as int) == key.skip(a.len() as int).skip(
            b.len() as int,
        ),
{
    let rest = key.skip(a.len() as int);
    if is_prefix(a + b, key) {
        assert(key.take(a.len() as int) =~= key.take((a + b).len() as int).take(a.len() as int));
        assert(rest.take(b.len() as int) =~= key.take((a + b).len() as int).skip(a.len() as int));
        assert(key.skip((a + b).len() as int) =~= rest.skip(b.len() as int));
    }
    if is_prefix(a, key) && is_prefix(b, rest) {
        assert(key.take((a + b).len() as int) =~= key.take(a.len() as int) + rest.take(
            b.len() as int,
        ));
    }
}

/// What a last frame with no values and one edge stores.
proof fn lemma_single_link(
    g: Seq<u8>,
    path: Seq<char>,
    frames: Seq<FrameView>,
    link: Link,
    key: Seq<char>,
)
    requires
        frames.len() >= 1,
        frames.last().values.len() == 0,
        frames.last().links == seq![link],
    ensures
        pending(g, path, frames, frames.len() - 1, key) == if key.len() > 0 && is_prefix(
            link.label,
            key,
        ) {
            stored(g, link.child, key.skip(link.label.len() as int))
        } else {
            Seq::empty()
        },
{
    let links = frames.last().links;
    assert(links[0] == link);
    if key.len() > 0 {
        assert(prefix_link(links, key, 1) == 1);
        if is_prefix(link.label, key) {
            assert(prefix_link(links, key, 0) == 0);
        } else {
            assert(prefix_link(links, key, 0) == 1);
        }
    } else {
        assert(frames.last().values =~= Seq::<u64>::empty());
    }
}

/// Below the parent, the tree stores after the split under one key what it
/// stored before.
#[verifier::rlimit(60)]
proof fn lemma_split_key(
    f: Seq<u8>,
    g: Seq<u8>,
    path: Seq<char>,
    frames: Seq<FrameView>,
    c: int,
    key: Seq<char>,
)
    requires
        frames.len() >= 2,
        0 <= frames[frames.len() - 2].depth < c < frames.last().depth <= path.len(),
        forall|i: int, k: Seq<char>|
            0 <= i < frames[frames.len() - 2].links.len() ==> #[trigger] stored(
                g,
                frames[frames.len() - 2].links[i].child,
                k,
            ) == stored(f, frames[frames.len() - 2].links[i].child, k),
        forall|k: Seq<char>|
            #[trigger] stored(g, f.len() as u64, k) == pending(f, path, frames, frames.len() - 1, k),
    ensures
        pending(g, path, split_frames(f, path, frames, c), frames.len() - 2, key) == pending(
            f,
            path,
            frames,
            frames.len() - 2,
            key,
        ),
{
    let frames2 = split_frames(f, path, frames, c);
    let m = frames.len() - 1;
    let b = m - 1;
    let last = frames[m];
    let parent = frames[b];
    let off = f.len() as u64;
    let upper = path.subrange(parent.depth, c);
    let lower = path.subrange(c, last.depth);
    let whole = path.subrange(parent.depth, last.depth);
    let link = Link { label: lower, child: off };
    assert(frames2[b] == parent);
    assert(frames2[m].depth == c);
    assert(whole =~= upper + lower);
    if key.len() > 0 {
        lemma_prefix_link(parent.links, key, 0);
        let i = prefix_link(parent.links, key, 0);
        if !(0 <= i < parent.links.len()) {
            let rest = key.skip(c - parent.depth);
            lemma_prefix_concat(upper, lower, key);
            lemma_single_link(g, path, frames2, link, rest);
            if is_prefix(upper, key) {
                assert(pending(g, path, frames2, b, key) == pending(g, path, frames2, m, rest));
            }
            if is_prefix(whole, key) {
                assert(pending(f, path, frames, b, key) == pending(
                    f,
                    path,
                    frames,
                    m,
                    key.skip(last.depth - parent.depth),
                ));
                assert(rest.len() > 0);
            }
        }
    }
}

/// Below the parent, the tree stores after the split what it stored before.
#[verifier::rlimit(60)]
proof fn lemma_split_base(f: Seq<u8>, g: Seq<u8>, path: Seq<char>, frames: Seq<FrameView>, c: int)
    requires
        spine_ok(f, path, frames),
        frames.len() >= 2,
        frames[frames.len() - 2].depth < c < frames.last().depth,
        f.len() <= u64::MAX,
        g == f + encode_node(frames.last().values, frames.last().links),
    ensures
        differs_at(
            f,
            path,
            frames,
            g,
            path,
            split_frames(f, path, frames, c),
            frames.len() - 2,
            path,
            Seq::empty(),
        ),
{
    let frames2 = split_frames(f, path, frames, c);
    let b = frames.len() - 2;
    lemma_written(f, g, path, frames);
    assert(links_ok(f, frames[b].links));
    lemma_links_ok_stable(f, g, frames[b].links);
    assert(frames.last().depth <= path.len());
    assert(0 <= frames[b].depth);
    assert forall|key: Seq<char>|
        #[trigger] pending(g, path, frames2, b, key) == if key == path.skip(frames[b].depth) {
            pending(f, path, frames, b, key) + Seq::<u64>::empty()
        } else {
            pending(f, path, frames, b, key)
        } by {
        let before = pending(f, path, frames, b, key);
        assert(before + Seq::<u64>::empty() =~= before);
        lemma_split_key(f, g, path, frames, c, key);
    }
}

/// The frames are in order after the split.
#[verifier::rlimit(60)]
proof fn lemma_split_ok(f: Seq<u8>, g: Seq<u8>, path: Seq<char>, frames: Seq<FrameView>, c: int)
    requires
        spine_ok(f, path, frames),
        frames.len() >= 2,
        frames[frames.len() - 2].depth < c < frames.last().depth,
        f.len() <= u64::MAX,
        g == f + encode_node(frames.last().values, frames.last().links),
    ensures
        spine_ok(g, path, split_frames(f, path, frames, c)),
{
    let frames2 = split_frames(f, path, frames, c);
    let m = frames.len() - 1;
    let last = frames[m];
    let off = f.len() as u64;
    let lower = path.subrange(c, last.depth);
    let link = Link { label: lower, child: off };
    let middle = frames2[m];
    lemma_written(f, g, path, frames);
    assert(last.depth <= path.len());
    assert(lower[0] == path[c]);
    assert(links_ok(g, Seq::<Link>::empty()));
    assert(heads_below(Seq::<Link>::empty(), path[c] as u32 as int));
    lemma_links_push_ok(g, Seq::<Link>::empty(), link, path[c] as u32 as int);
    assert(Seq::<Link>::empty().push(link) =~= middle.links);
    assert forall|j: int| 0 <= j < frames2.len() implies 0 <= (#[trigger] frames2[j]).depth
        <= path.len() && frames2[j].values.len() <= u32::MAX && links_ok(g, frames2[j].links) by {
        if j < m {
            assert(frames2[j] == frames[j]);
            assert(links_ok(f, frames[j].links));
            lemma_links_ok_stable(f, g, frames[j].links);
        }
    }
    assert forall|j: int| 0 <= j < frames2.len() - 1 implies (#[trigger] frames2[j]).depth
        < frames2[j + 1].depth && heads_below(frames2[j].links, path[frames2[j].depth] as u32 as int) by {
        assert(frames2[j] == frames[j]);
        if j + 1 < m {
            assert(frames2[j + 1] == frames[j + 1]);
        }
    }
}

/// Writing the last frame and hanging it under a new frame inside its
/// label changes nothing that the tree stores.
#[verifier::rlimit(60)]
pub proof fn lemma_split(f: Seq<u8>, g: Seq<u8>, path: Seq<char>, frames: Seq<FrameView>, c: int)
    requires
        spine_ok(f, path, frames),
        frames.len() >= 2,
        frames[frames.len() - 2].depth < c < frames.last().depth,
        f.len() <= u64::MAX,
        g == f + encode_node(frames.last().values, frames.last().links),
    ensures
        extends(g, f),
        spine_ok(g, path, split_frames(f, path, frames, c)),
        forall|key: Seq<char>|
            #[trigger] pending(g, path, split_frames(f, path, frames, c), 0, key) == pending(
                f,
                path,
                frames,
                0,
                key,
            ),
{
    let frames2 = split_frames(f, path, frames, c);
    let b = frames.len() - 2;
    lemma_written(f, g, path, frames);
    lemma_split_ok(f, g, path, frames, c);
    lemma_split_base(f, g, path, frames, c);
    assert forall|i: int| 0 <= i <= b implies frames2[i] == frames[i] by {}
    lemma_lift(f, path, frames, g, path, frames2, b, 0, path, Seq::empty());
    assert forall|key: Seq<char>|
        #[trigger] pending(g, path, frames2, 0, key) == pending(f, path, frames, 0, key) by {
        assert(pending(f, path, frames, 0, key) + Seq::<u64>::empty() =~= pending(
            f,
            path,
            frames,
            0,
            key,
        ));
    }
}

/// The frames after a leaf for `key` with the value `val` was hung under
/// the last one.
pub open spec fn leaf_frames(frames: Seq<FrameView>, key: Seq<char>, val: u64) -> Seq<FrameView> {
    frames.push(FrameView { depth: key.len() as int, values: seq![val], links: Seq::empty() })
}

/// Hanging a leaf for a key under the last frame stores the value under
/// that key and changes nothing else.
#[verifier::rlimit(60)]
pub proof fn lemma_leaf(f: Seq<u8>, path: Seq<char>, frames: Seq<FrameView>, key: Seq<char>, val: u64)
    requires
        spine_ok(f, path, frames),
        frames.last().depth < key.len() <= MAX_KEY_CHARS,
        forall|i: int| 0 <= i < frames.last().depth ==> path[i] == key[i],
        frames.last().depth < path.len() ==> (path[frames.last().depth] as u32) < (
        key[frames.last().depth] as u32),
        frames.last().depth == path.len() ==> frames.last().links.len() == 0,
    ensures
        spine_ok(f, key, leaf_frames(frames, key, val)),
        forall|k: Seq<char>|
            #[trigger] pending(f, key, leaf_frames(frames, key, val), 0, k) == if k == key {
                pending(f, path, frames, 0, k) + seq![val]
            } else {
                pending(f, path, frames, 0, k)
            },
{
    let frames2 = leaf_frames(frames, key, val);
    let m = frames.len() - 1;
    let last = frames[m];
    let c = last.depth;
    let label = key.subrange(c, key.len() as int);
    assert(links_ok(f, Seq::<Link>::empty()));
    assert forall|j: int| 0 <= j < frames2.len() implies 0 <= (#[trigger] frames2[j]).depth
        <= key.len() && frames2[j].values.len() <= u32::MAX && links_ok(f, frames2[j].links) by {
        if j <= m {
            assert(frames2[j] == frames[j]);
            lemma_depths_ascend(frames, j, m);
        }
    }
    assert forall|j: int| 0 <= j < frames2.len() - 1 implies (#[trigger] frames2[j]).depth
        < frames2[j + 1].depth && heads_below(frames2[j].links, key[frames2[j].depth] as u32 as int) by {
        assert(frames2[j] == frames[j]);
        if j < m {
            assert(frames2[j + 1] == frames[j + 1]);
            lemma_depths_ascend(frames, j + 1, m);
        }
    }
    assert(spine_ok(f, key, frames2));
    assert(differs_at(f, path, frames, f, key, frames2, m, key, seq![val])) by {
        assert forall|k: Seq<char>|
            #[trigger] pending(f, key, frames2, m, k) == if k == key.skip(frames[m].depth) {
                pending(f, path, frames, m, k) + seq![val]
            } else {
                pending(f, path, frames, m, k)
            } by {
            assert(frames2[m] == last);
            assert(key.skip(c) =~= label);
            if k.len() > 0 {
                lemma_prefix_link(last.links, k, 0);
                let i = prefix_link(last.links, k, 0);
                if 0 <= i < last.links.len() {
                    if k == label {
                        assert(label[0] == key[c]);
                        lemma_heads_miss(last.links, k, 0);
                    }
                } else if is_prefix(label, k) {
                    let rest = k.skip(key.len() - c);
                    assert(pending(f, key, frames2, m, k) == pending(f, key, frames2, m + 1, rest));
                    if rest.len() == 0 {
                        assert(k =~= label);
                        assert(Seq::<u64>::empty() + seq![val] =~= seq![val]);
                    } else {
                        assert(prefix_link(frames2[m + 1].links, rest, 0) == 0);
                    }
                } else {
                    if k == label {
                        assert(k.take(label.len() as int) =~= label);
                    }
                }
            }
        }
    }
    assert forall|i: int| 0 <= i < m implies 0 <= (#[trigger] frames[i]).depth < frames[i + 1].depth
        && heads_below(frames[i].links, key[frames[i].depth] as u32 as int) by {
        lemma_depths_ascend(frames, i + 1, m);
    }
    lemma_lift(f, path, frames, f, key, frames2, m, 0, key, seq![val]);
    assert(key.skip(0) =~= key);
}

/// The frames after `val` was added to the values of the last one.
pub open spec fn value_frames(frames: Seq<FrameView>, val: u64) -> Seq<FrameView> {
    frames.take(frames.len() - 1).push(
        FrameView {
            depth: frames.last().depth,
            values: frames.last().values.push(val),
            links: frames.last().links,
        },
    )
}

/// Adding a value to the last frame stores it under the whole path and
/// changes nothing else.
#[verifier::rlimit(60)]
pub proof fn lemma_value(f: Seq<u8>, path: Seq<char>, frames: Seq<FrameView>, val: u64)
    requires
        spine_ok(f, path, frames),
        frames.last().depth == path.len(),
        frames.last().links.len() == 0,
        frames.last().values.len() < u32::MAX,
    ensures
        spine_ok(f, path, value_frames(frames, val)),
        forall|k: Seq<char>|
            #[trigger] pending(f, path, value_frames(frames, val), 0, k) == if k == path {
                pending(f, path, frames, 0, k) + seq![val]
            } else {
                pending(f, path, frames, 0, k)
            },
{
    let frames2 = value_frames(frames, val);
    let m = frames.len() - 1;
    let last = frames[m];
    assert forall|j: int| 0 <= j < frames2.len() implies 0 <= (#[trigger] frames2[j]).depth
        <= path.len() && frames2[j].values.len() <= u32::MAX && links_ok(f, frames2[j].links) by {
        if j < m {
            assert(frames2[j] == frames[j]);
        }
    }
    assert forall|j: int| 0 <= j < frames2.len() - 1 implies (#[trigger] frames2[j]).depth
        < frames2[j + 1].depth && heads_below(frames2[j].links, path[frames2[j].depth] as u32 as int) by {
        assert(frames2[j] == frames[j]);
        if j + 1 < m {
            assert(frames2[j + 1] == frames[j + 1]);
        }
    }
    assert(spine_ok(f, path, frames2));
    assert(differs_at(f, path, frames, f, path, frames2, m, path, seq![val])) by {
        assert forall|k: Seq<char>|
            #[trigger] pending(f, path, frames2, m, k) == if k == path.skip(frames[m].depth) {
                pending(f, path, frames, m, k) + seq![val]
            } else {
                pending(f, path, frames, m, k)
            } by {
            assert(path.skip(last.depth) =~= Seq::<char>::empty());
            if k.len() == 0 {
                assert(k =~= Seq::<char>::empty());
                assert(last.values.push(val) =~= last.values + seq![val]);
            } else {
                assert(prefix_link(last.links, k, 0) == 0);
            }
        }
    }
    assert forall|i: int| 0 <= i < m implies frames2[i] == frames[i] by {}
    lemma_lift(f, path, frames, f, path, frames2, m, 0, path, seq![val]);
    assert(path.skip(0) =~= path);
}

/// What a writer is at any time: the bytes it has written, the key added
/// last, and the frames of the nodes on the path of that key, the root
/// first.
pub struct WriterView {
    pub written: Seq<u8>,
    pub path: Seq<char>,
    pub frames: Seq<FrameView>,
}

/// A writer that holds nothing: no byte, the empty key, and the frame of
/// an empty root.
pub open spec fn fresh() -> WriterView {
    WriterView {
        written: Seq::empty(),
        path: Seq::empty(),
        frames: seq![FrameView { depth: 0, values: Seq::empty(), links: Seq::empty() }],
    }
}

/// The bytes and the frames after every frame was written, deepest first,
/// whose parent lies at least `c` characters deep: each node is appended
/// and hung under its parent.
pub open spec fn close_to(f: Seq<u8>, path: Seq<char>, frames: Seq<FrameView>, c: int) -> (
    Seq<u8>,
    Seq<FrameView>,
)
    decreases frames.len(),
{
    if frames.len() >= 2 && frames[frames.len() - 2].depth >= c {
        close_to(
            f + encode_node(frames.last().values, frames.last().links),
            path,
            closed_frames(f, path, frames),
            c,
        )
    } else {
        (f, frames)
    }
}

/// The writer after it has accepted `val` under `key`, which shares its
/// first `c` characters with the key added last.
///
/// The same key again adds the value to the last frame and writes nothing.
/// Any other key first writes the frames that lie deeper than `c`, deepest
/// first; if the last of them hangs on a label that the key leaves in the
/// middle, it is hung under a new frame at depth `c`; then the key gets a
/// leaf of its own.
pub open spec fn after_insert(w: WriterView, key: Seq<char>, val: u64) -> WriterView {
    let c = common_prefix(key, w.path);
    let closed = close_to(w.written, w.path, w.frames, c);
    if key == w.path {
        WriterView { written: w.written, path: w.path, frames: value_frames(w.frames, val) }
    } else if closed.1.last().depth > c {
        WriterView {
            written: closed.0 + encode_node(closed.1.last().values, closed.1.last().links),
            path: key,
            frames: leaf_frames(split_frames(closed.0, w.path, closed.1, c), key, val),
        }
    } else {
        WriterView { written: closed.0, path: key, frames: leaf_frames(closed.1, key, val) }
    }
}

/// The writer after it has accepted the entries one after the other.
pub open spec fn after_all(w: WriterView, entries: Seq<(Seq<char>, u64)>) -> WriterView
    decreases entries.len(),
{
    if entries.len() == 0 {
        w
    } else {
        after_insert(after_all(w, entries.drop_last()), entries.last().0, entries.last().1)
    }
}

/// Accepting entries and then more entries is accepting all of them.
pub proof fn lemma_after_all_concat(
    w: WriterView,
    first: Seq<(Seq<char>, u64)>,
    more: Seq<(Seq<char>, u64)>,
)
    ensures
        after_all(w, first + more) == after_all(after_all(w, first), more),
    decreases more.len(),
{
    if more.len() == 0 {
        assert(first + more =~= first);
    } else {
        lemma_after_all_concat(w, first, more.drop_last());
        assert((first + more).drop_last() =~= first + more.drop_last());
        assert((first + more).last() == more.last());
    }
}

/// The index that a writer hands out: what it has written, then the frames
/// left, deepest first, the root last, then the offset of the root.
pub open spec fn sealed(w: WriterView) -> Seq<u8> {
    let closed = close_to(w.written, w.path, w.frames, 0);
    closed.0 + encode_node(closed.1.last().values, closed.1.last().links) + be64(
        closed.0.len() as u64,
    )
}

/// The index of entries that arrive in ascending order.
pub open spec fn index_of(entries: Seq<(Seq<char>, u64)>) -> Seq<u8> {
    sealed(after_all(fresh(), entries))
}

/// The bytes that the frames from `j` on will take once they are written:
/// each node, and the edge that leads from it to the next frame.
pub open spec fn pend(path: Seq<char>, frames: Seq<FrameView>, j: int) -> int
    decreases frames.len() - j,
{
    if j < 0 || j >= frames.len() {
        0
    } else if j + 1 < frames.len() {
        encode_node(frames[j].values, frames[j].links).len() + 12 + encode_utf8(
            path.subrange(frames[j].depth, frames[j + 1].depth),
        ).len() + pend(path, frames, j + 1)
    } else {
        encode_node(frames[j].values, frames[j].links).len() as int
    }
}

/// The length that the index has if the writer stops now, without the
/// trailer.
pub open spec fn size(w: WriterView) -> int {
    w.written.len() + pend(w.path, w.frames, 0)
}

/// Pending bytes are never fewer than none.
pub proof fn lemma_pend_nonneg(path: Seq<char>, frames: Seq<FrameView>, j: int)
    ensures
        pend(path, frames, j) >= 0,
    decreases frames.len() - j,
{
    if 0 <= j && j + 1 < frames.len() {
        lemma_pend_nonneg(path, frames, j + 1);
    }
}

/// Frames that agree above frame `b` take the same bytes above it.
pub proof fn lemma_pend_lift(
    path: Seq<char>,
    frames: Seq<FrameView>,
    path2: Seq<char>,
    frames2: Seq<FrameView>,
    b: int,
    j: int,
)
    requires
        0 <= j <= b,
        b < frames.len(),
        b < frames2.len(),
        forall|i: int| 0 <= i < b ==> frames2[i] == frames[i],
        frames2[b].depth == frames[b].depth,
        forall|i: int|
            0 <= i < b ==> path.subrange((#[trigger] frames[i]).depth, frames[i + 1].depth)
                == path2.subrange(frames[i].depth, frames[i + 1].depth),
    ensures
        pend(path2, frames2, j) - pend(path2, frames2, b) == pend(path, frames, j) - pend(
            path,
            frames,
            b,
        ),
    decreases b - j,
{
    if j < b {
        lemma_pend_lift(path, frames, path2, frames2, b, j + 1);
        assert(frames2[j] == frames[j]);
        assert(frames2[j + 1].depth == frames[j + 1].depth);
        assert(path.subrange(frames[j].depth, frames[j + 1].depth) == path2.subrange(
            frames[j].depth,
            frames[j + 1].depth,
        ));
    }
}

/// Writing the last frame and hanging it under its parent moves its bytes
/// from what is pending to what is written.
pub proof fn lemma_close_size(f: Seq<u8>, path: Seq<char>, frames: Seq<FrameView>)
    requires
        frames.len() >= 2,
    ensures
        f.len() + encode_node(frames.last().values, frames.last().links).len() + pend(
            path,
            closed_frames(f, path, frames),
            0,
        ) == f.len() + pend(path, frames, 0),
{
    let frames2 = closed_frames(f, path, frames);
    let m = frames.len() - 1;
    let b = m - 1;
    let parent = frames[b];
    let last = frames[m];
    let link = Link { label: path.subrange(parent.depth, last.depth), child: f.len() as u64 };
    assert(frames2[b].links == parent.links.push(link));
    lemma_encode_links_push(parent.links, link);
    lemma_link_len(link);
    lemma_node_len(parent.values, parent.links);
    lemma_node_len(parent.values, parent.links.push(link));
    assert(pend(path, frames, m) == encode_node(last.values, last.links).len());
    assert(pend(path, frames2, b) == encode_node(frames2[b].values, frames2[b].links).len());
    assert forall|i: int| 0 <= i < b implies frames2[i] == frames[i] by {}
    lemma_pend_lift(path, frames, path, frames2, b, 0);
}

/// Writing the last frame and hanging it under a new frame inside its
/// label adds a node of twenty bytes besides its edge.
pub proof fn lemma_split_size(f: Seq<u8>, path: Seq<char>, frames: Seq<FrameView>, c: int)
    requires
        frames.len() >= 2,
        0 <= frames[frames.len() - 2].depth < c < frames.last().depth <= path.len(),
    ensures
        f.len() + encode_node(frames.last().values, frames.last().links).len() + pend(
            path,
            split_frames(f, path, frames, c),
            0,
        ) == f.len() + pend(path, frames, 0) + 20,
{
    let frames2 = split_frames(f, path, frames, c);
    let m = frames.len() - 1;
    let b = m - 1;
    let parent = frames[b];
    let last = frames[m];
    let upper = path.subrange(parent.depth, c);
    let lower = path.subrange(c, last.depth);
    let link = Link { label: lower, child: f.len() as u64 };
    let middle = frames2[m];
    assert(path.subrange(parent.depth, last.depth) =~= upper + lower);
    lemma_encode_concat(upper, lower);
    assert(middle.links =~= Seq::<Link>::empty().push(link));
    lemma_encode_links_push(Seq::<Link>::empty(), link);
    assert(encode_links(Seq::<Link>::empty()) =~= Seq::<u8>::empty());
    lemma_link_len(link);
    lemma_node_len(middle.values, middle.links);
    assert(frames2[b] == parent);
    assert(middle.depth == c);
    assert(pend(path, frames, m) == encode_node(last.values, last.links).len());
    assert(pend(path, frames2, m) == encode_node(middle.values, middle.links).len());
    assert(pend(path, frames, b) == encode_node(parent.values, parent.links).len() + 12
        + encode_utf8(upper + lower).len() + pend(path, frames, m));
    assert(pend(path, frames2, b) == encode_node(parent.values, parent.links).len() + 12
        + encode_utf8(upper).len() + pend(path, frames2, m));
    assert forall|i: int| 0 <= i < b implies frames2[i] == frames[i] by {}
    lemma_pend_lift(path, frames, path, frames2, b, 0);
}

/// Hanging a leaf under the last frame adds its sixteen bytes and its
/// edge.
pub proof fn lemma_leaf_size(path: Seq<char>, frames: Seq<FrameView>, key: Seq<char>, val: u64)
    requires
        frames.len() >= 1,
        forall|i: int| 0 <= i < frames.len() - 1 ==> 0 <= (#[trigger] frames[i]).depth < frames[i + 1].depth,
        0 <= frames.last().depth <= path.len(),
        frames.last().depth <= key.len(),
        forall|i: int| 0 <= i < frames.last().depth ==> path[i] == key[i],
    ensures
        pend(key, leaf_frames(frames, key, val), 0) == pend(path, frames, 0) + 28 + encode_utf8(
            key.subrange(frames.last().depth, key.len() as int),
        ).len(),
        encode_utf8(key.subrange(frames.last().depth, key.len() as int)).len() <= 4 * (key.len()
            - frames.last().depth),
{
    let frames2 = leaf_frames(frames, key, val);
    let m = frames.len() - 1;
    let last = frames[m];
    let leaf = frames2[m + 1];
    lemma_encode_len(key.subrange(last.depth, key.len() as int));
    lemma_node_len(leaf.values, leaf.links);
    assert(encode_links(leaf.links) =~= Seq::<u8>::empty());
    assert(frames2[m] == last);
    assert(pend(key, frames2, m + 1) == encode_node(leaf.values, leaf.links).len());
    assert(pend(path, frames, m) == encode_node(last.values, last.links).len());
    assert forall|i: int| 0 <= i < m implies frames2[i] == frames[i] by {}
    assert forall|i: int| 0 <= i < m implies path.subrange(
        (#[trigger] frames[i]).depth,
        frames[i + 1].depth,
    ) == key.subrange(frames[i].depth, frames[i + 1].depth) by {
        lemma_depths_ascend(frames, i + 1, m);
        assert(path.subrange(frames[i].depth, frames[i + 1].depth) =~= key.subrange(
            frames[i].depth,
            frames[i + 1].depth,
        ));
    }
    lemma_pend_lift(path, frames, key, frames2, m, 0);
}

/// Adding a value to the last frame adds eight bytes.
pub proof fn lemma_value_size(path: Seq<char>, frames: Seq<FrameView>, val: u64)
    requires
        frames.len() >= 1,
    ensures
        pend(path, value_frames(frames, val), 0) == pend(path, frames, 0) + 8,
{
    let frames2 = value_frames(frames, val);
    let m = frames.len() - 1;
    let last = frames[m];
    lemma_node_len(last.values, last.links);
    lemma_node_len(last.values.push(val), last.links);
    assert(pend(path, frames, m) == encode_node(last.values, last.links).len());
    assert(pend(path, frames2, m) == encode_node(frames2[m].values, frames2[m].links).len());
    assert forall|i: int| 0 <= i < m implies frames2[i] == frames[i] by {}
    lemma_pend_lift(path, frames, path, frames2, m, 0);
}

/// Writing frames changes nothing of the length that the index will have.
pub proof fn lemma_close_to_size(f: Seq<u8>, path: Seq<char>, frames: Seq<FrameView>, c: int)
    requires
        frames.len() >= 1,
    ensures
        close_to(f, path, frames, c).1.len() >= 1,
        close_to(f, path, frames, c).0.len() + pend(path, close_to(f, path, frames, c).1, 0)
            == f.len() + pend(path, frames, 0),
    decreases frames.len(),
{
    if frames.len() >= 2 && frames[frames.len() - 2].depth >= c {
        lemma_close_size(f, path, frames);
        lemma_close_to_size(
            f + encode_node(frames.last().values, frames.last().links),
            path,
            closed_frames(f, path, frames),
            c,
        );
    }
}

/// The index that a writer hands out is as long as what it has written and
/// what is pending, and the trailer.
pub proof fn lemma_sealed_len(w: WriterView)
    requires
        w.frames.len() >= 1,
        forall|i: int| 0 <= i < w.frames.len() ==> (#[trigger] w.frames[i]).depth >= 0,
    ensures
        sealed(w).len() == size(w) + 8,
{
    lemma_close_to_size(w.written, w.path, w.frames, 0);
    lemma_close_to_all(w.written, w.path, w.frames);
    let closed = close_to(w.written, w.path, w.frames, 0);
    assert(pend(w.path, closed.1, 0) == encode_node(closed.1[0].values, closed.1[0].links).len());
}

/// Writing every frame whose parent lies at depth zero or deeper leaves the
/// root only.
pub proof fn lemma_close_to_all(f: Seq<u8>, path: Seq<char>, frames: Seq<FrameView>)
    requires
        frames.len() >= 1,
        forall|i: int| 0 <= i < frames.len() ==> (#[trigger] frames[i]).depth >= 0,
    ensures
        close_to(f, path, frames, 0).1.len() == 1,
    decreases frames.len(),
{
    if frames.len() >= 2 {
        let frames2 = closed_frames(f, path, frames);
        assert(frames[frames.len() - 2].depth >= 0);
        assert forall|i: int| 0 <= i < frames2.len() implies (#[trigger] frames2[i]).depth >= 0 by {
            if i < frames.len() - 2 {
                assert(frames2[i] == frames[i]);
            } else {
                assert(frames2[i].depth == frames[frames.len() - 2].depth);
            }
        }
        lemma_close_to_all(
            f + encode_node(frames.last().values, frames.last().links),
            path,
            frames2,
        );
    }
}

} // verus!
