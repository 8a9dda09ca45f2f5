//! Nodes as they are written: their byte layout, and the proof that a reader
//! finds in the bytes what the writer put there.

use crate::error::Error;
use crate::layout::{label_at, links_at, links_end, links_from, node_end, values_at, Link};
use crate::wire::{
    be32, be64, lemma_be32_round_trip, lemma_be64_round_trip, put_u32, put_u64, readable, u64_at,
};
use vstd::prelude::*;
use vstd::utf8::{
    char_is_scalar, encode_scalar, encode_utf8, encode_utf8_decode_utf8, encode_utf8_valid_utf8,
};

verus! {

/// The largest number of characters a key may have: its UTF-8 form then
/// fits the 32-bit length of a label.
pub const MAX_KEY_CHARS: usize = 0x3FFF_FFFF;

/// An edge held in memory: a label and the offset of the child it leads to.
pub struct Edge {
    pub label: Vec<char>,
    pub child: u64,
}

impl View for Edge {
    type V = Link;

    open spec fn view(&self) -> Link {
        Link { label: self.label@, child: self.child }
    }
}

/// The edges of `edges` as contracts speak of them.
pub open spec fn links_of(edges: Seq<Edge>) -> Seq<Link> {
    Seq::new(edges.len(), |i: int| edges[i]@)
}

/// The values of a node, eight bytes each.
pub open spec fn encode_values(vals: Seq<u64>) -> Seq<u8>
    decreases vals.len(),
{
    if vals.len() == 0 {
        Seq::empty()
    } else {
        encode_values(vals.drop_last()) + be64(vals.last())
    }
}

/// A label: the length of its UTF-8 form, then that form.
pub open spec fn encode_label(label: Seq<char>) -> Seq<u8> {
    be32(encode_utf8(label).len() as u32) + encode_utf8(label)
}

/// An edge: its label, then the offset of its child.
pub open spec fn encode_link(link: Link) -> Seq<u8> {
    encode_label(link.label) + be64(link.child)
}

/// The edges of a node, one after the other.
pub open spec fn encode_links(links: Seq<Link>) -> Seq<u8>
    decreases links.len(),
{
    if links.len() == 0 {
        Seq::empty()
    } else {
        encode_link(links.first()) + encode_links(links.drop_first())
    }
}

/// A node: the count of its values, the values, the count of its edges, the
/// edges.
pub open spec fn encode_node(vals: Seq<u64>, links: Seq<Link>) -> Seq<u8> {
    be32(vals.len() as u32) + encode_values(vals) + be32(links.len() as u32) + encode_links(links)
}

/// Whether `f` holds the bytes `b` at `at`.
pub open spec fn has_at(f: Seq<u8>, at: int, b: Seq<u8>) -> bool {
    readable(f, at, b.len() as int) && f.subrange(at, at + b.len()) =~= b
}

/// Where `f` holds `a + b`, it holds `a` and behind it `b`.
pub proof fn lemma_has_at_split(f: Seq<u8>, at: int, a: Seq<u8>, b: Seq<u8>)
    requires
        has_at(f, at, a + b),
    ensures
        has_at(f, at, a),
        has_at(f, at + a.len(), b),
{
    let whole = f.subrange(at, at + (a + b).len());
    assert forall|i: int| 0 <= i < a.len() implies f.subrange(at, at + a.len())[i] == a[i] by {
        assert(whole[i] == (a + b)[i]);
    }
    assert forall|i: int| 0 <= i < b.len() implies f.subrange(at + a.len(), at + a.len() + b.len())[i]
        == b[i] by {
        assert(whole[a.len() + i] == (a + b)[a.len() + i]);
    }
}

/// What `f` holds at `at`, every text that starts with `f` holds there too.
pub proof fn lemma_has_at_extend(f: Seq<u8>, g: Seq<u8>, at: int, b: Seq<u8>)
    requires
        has_at(f, at, b),
        f.len() <= g.len(),
        g.subrange(0, f.len() as int) == f,
    ensures
        has_at(g, at, b),
{
    assert forall|i: int| 0 <= i < b.len() implies g.subrange(at, at + b.len())[i] == b[i] by {
        assert(f.subrange(at, at + b.len())[i] == b[i]);
        assert(g.subrange(0, f.len() as int)[at + i] == f[at + i]);
    }
}

/// The UTF-8 form of a text grows by the form of each character appended.
pub proof fn lemma_encode_push(s: Seq<char>, c: char)
    ensures
        encode_utf8(s.push(c)) == encode_utf8(s) + encode_scalar(c as u32),
    decreases s.len(),
{
    if s.len() == 0 {
        assert(s.push(c).drop_first() =~= Seq::<char>::empty());
        assert(encode_utf8(s.push(c).drop_first()) =~= Seq::<u8>::empty());
        assert(encode_utf8(s) =~= Seq::<u8>::empty());
        assert(s.push(c)[0] == c);
        assert(encode_utf8(s.push(c)) =~= encode_utf8(s) + encode_scalar(c as u32));
    } else {
        lemma_encode_push(s.drop_first(), c);
        assert(s.push(c).drop_first() =~= s.drop_first().push(c));
        assert(encode_utf8(s.push(c)) =~= encode_utf8(s) + encode_scalar(c as u32));
    }
}

/// The UTF-8 form of a text takes at most four bytes for each character.
pub proof fn lemma_encode_len(s: Seq<char>)
    ensures
        encode_utf8(s).len() <= 4 * s.len(),
    decreases s.len(),
{
    if s.len() > 0 {
        lemma_encode_len(s.drop_first());
    }
}

/// The encoded values are eight bytes each, and each stands where its index
/// says.
pub proof fn lemma_values_at(f: Seq<u8>, at: int, vals: Seq<u64>)
    requires
        has_at(f, at, encode_values(vals)),
    ensures
        encode_values(vals).len() == 8 * vals.len(),
        forall|i: int| 0 <= i < vals.len() ==> u64_at(f, at + 8 * i) == #[trigger] vals[i],
    decreases vals.len(),
{
    if vals.len() > 0 {
        let init = vals.drop_last();
        lemma_has_at_split(f, at, encode_values(init), be64(vals.last()));
        lemma_values_at(f, at, init);
        lemma_be64_round_trip(f, at + 8 * init.len(), vals.last());
        assert forall|i: int| 0 <= i < vals.len() implies u64_at(f, at + 8 * i) == #[trigger] vals[i] by {
            if i < init.len() {
                assert(init[i] == vals[i]);
            }
        }
    }
}

/// The length of the encoded values.
pub proof fn lemma_values_len(vals: Seq<u64>)
    ensures
        encode_values(vals).len() == 8 * vals.len(),
    decreases vals.len(),
{
    if vals.len() > 0 {
        lemma_values_len(vals.drop_last());
    }
}

/// Encoding one more edge appends its bytes.
pub proof fn lemma_encode_links_push(links: Seq<Link>, link: Link)
    ensures
        encode_links(links.push(link)) == encode_links(links) + encode_link(link),
    decreases links.len(),
{
    if links.len() == 0 {
        assert(links.push(link).drop_first() =~= Seq::<Link>::empty());
        assert(encode_links(links.push(link).drop_first()) =~= Seq::<u8>::empty());
        assert(encode_links(links) =~= Seq::<u8>::empty());
        assert(links.push(link).first() == link);
        assert(encode_links(links.push(link)) =~= encode_links(links) + encode_link(link));
    } else {
        lemma_encode_links_push(links.drop_first(), link);
        assert(links.push(link).drop_first() =~= links.drop_first().push(link));
        assert(encode_links(links.push(link)) =~= encode_links(links) + encode_link(link));
    }
}

/// A reader finds at `pos` the edges whose encoding stands there, provided
/// that the labels fit their length field and the children lie before the
/// parent.
#[verifier::rlimit(60)]
pub proof fn lemma_links_round_trip(f: Seq<u8>, pos: int, links: Seq<Link>, parent: int)
    requires
        has_at(f, pos, encode_links(links)),
        forall|i: int| 0 <= i < links.len() ==> encode_utf8(#[trigger] links[i].label).len() <= u32::MAX,
        forall|i: int| 0 <= i < links.len() ==> (#[trigger] links[i]).child < parent,
    ensures
        links_from(f, pos, links.len(), parent) == Ok::<Seq<Link>, Error>(links),
    decreases links.len(),
{
    if links.len() > 0 {
        let first = links.first();
        let rest = links.drop_first();
        let text = encode_utf8(first.label);
        assert(links[0] == first);
        lemma_has_at_split(f, pos, encode_link(first), encode_links(rest));
        lemma_has_at_split(f, pos, encode_label(first.label), be64(first.child));
        lemma_has_at_split(f, pos, be32(text.len() as u32), text);
        lemma_be32_round_trip(f, pos, text.len() as u32);
        lemma_be64_round_trip(f, pos + 4 + text.len(), first.child);
        encode_utf8_valid_utf8(first.label);
        encode_utf8_decode_utf8(first.label);
        assert(label_at(f, pos) == Ok::<(Seq<char>, int), Error>((first.label, pos + 4 + text.len())));
        assert forall|i: int| 0 <= i < rest.len() implies encode_utf8(#[trigger] rest[i].label).len()
            <= u32::MAX && rest[i].child < parent by {
            assert(rest[i] == links[i + 1]);
        }
        lemma_links_round_trip(f, pos + encode_link(first).len(), rest, parent);
        assert(seq![first] + rest =~= links);
    } else {
        assert(links =~= Seq::<Link>::empty());
    }
}

/// A reader finds at `off` the values and the edges of the node whose
/// encoding stands there.
#[verifier::rlimit(60)]
pub proof fn lemma_node_round_trip(f: Seq<u8>, off: int, vals: Seq<u64>, links: Seq<Link>)
    requires
        has_at(f, off, encode_node(vals, links)),
        vals.len() <= u32::MAX,
        links.len() <= u32::MAX,
        forall|i: int| 0 <= i < links.len() ==> encode_utf8(#[trigger] links[i].label).len() <= u32::MAX,
        forall|i: int| 0 <= i < links.len() ==> (#[trigger] links[i]).child < off,
    ensures
        values_at(f, off) == Ok::<Seq<u64>, Error>(vals),
        links_at(f, off) == Ok::<Seq<Link>, Error>(links),
{
    let head = be32(vals.len() as u32) + encode_values(vals);
    let count = be32(links.len() as u32);
    lemma_values_len(vals);
    lemma_has_at_split(f, off, head + count, encode_links(links));
    lemma_has_at_split(f, off, head, count);
    lemma_has_at_split(f, off, be32(vals.len() as u32), encode_values(vals));
    lemma_be32_round_trip(f, off, vals.len() as u32);
    lemma_values_at(f, off + 4, vals);
    lemma_be32_round_trip(f, off + 4 + 8 * vals.len(), links.len() as u32);
    lemma_links_round_trip(f, off + 8 + 8 * vals.len(), links, off);
    assert(values_at(f, off)->Ok_0 =~= vals);
}

/// The edges whose encoding stands at `pos` end where the encoding ends.
pub proof fn lemma_links_end(f: Seq<u8>, pos: int, links: Seq<Link>)
    requires
        has_at(f, pos, encode_links(links)),
        forall|i: int| 0 <= i < links.len() ==> encode_utf8(#[trigger] links[i].label).len() <= u32::MAX,
    ensures
        links_end(f, pos, links.len()) == pos + encode_links(links).len(),
    decreases links.len(),
{
    if links.len() > 0 {
        let first = links.first();
        let rest = links.drop_first();
        let text = encode_utf8(first.label);
        assert(links[0] == first);
        lemma_has_at_split(f, pos, encode_link(first), encode_links(rest));
        lemma_has_at_split(f, pos, encode_label(first.label), be64(first.child));
        lemma_has_at_split(f, pos, be32(text.len() as u32), text);
        lemma_be32_round_trip(f, pos, text.len() as u32);
        assert forall|i: int| 0 <= i < rest.len() implies encode_utf8(#[trigger] rest[i].label).len()
            <= u32::MAX by {
            assert(rest[i] == links[i + 1]);
        }
        lemma_links_end(f, pos + encode_link(first).len(), rest);
    }
}

/// The node whose encoding stands at `off` ends where the encoding ends.
pub proof fn lemma_node_end(f: Seq<u8>, off: int, vals: Seq<u64>, links: Seq<Link>)
    requires
        has_at(f, off, encode_node(vals, links)),
        vals.len() <= u32::MAX,
        links.len() <= u32::MAX,
        forall|i: int| 0 <= i < links.len() ==> encode_utf8(#[trigger] links[i].label).len() <= u32::MAX,
    ensures
        node_end(f, off) == off + encode_node(vals, links).len(),
{
    let head = be32(vals.len() as u32) + encode_values(vals);
    let count = be32(links.len() as u32);
    lemma_values_len(vals);
    lemma_has_at_split(f, off, head + count, encode_links(links));
    lemma_has_at_split(f, off, head, count);
    lemma_has_at_split(f, off, be32(vals.len() as u32), encode_values(vals));
    lemma_be32_round_trip(f, off, vals.len() as u32);
    lemma_be32_round_trip(f, off + 4 + 8 * vals.len(), links.len() as u32);
    lemma_links_end(f, off + 8 + 8 * vals.len(), links);
}

/// The UTF-8 form of two texts in a row is the two forms in a row.
pub proof fn lemma_encode_concat(a: Seq<char>, b: Seq<char>)
    ensures
        encode_utf8(a + b) == encode_utf8(a) + encode_utf8(b),
    decreases b.len(),
{
    if b.len() == 0 {
        assert(a + b =~= a);
        assert(encode_utf8(b) =~= Seq::<u8>::empty());
        assert(encode_utf8(a) + encode_utf8(b) =~= encode_utf8(a));
    } else {
        let init = b.drop_last();
        lemma_encode_concat(a, init);
        lemma_encode_push(a + init, b.last());
        lemma_encode_push(init, b.last());
        assert((a + init).push(b.last()) =~= a + b);
        assert(init.push(b.last()) =~= b);
        assert((encode_utf8(a) + encode_utf8(init)) + encode_scalar(b.last() as u32) =~= encode_utf8(a)
            + (encode_utf8(init) + encode_scalar(b.last() as u32)));
    }
}

/// The length of a node: eight bytes of counts, eight for each value, and
/// the edges.
pub proof fn lemma_node_len(vals: Seq<u64>, links: Seq<Link>)
    ensures
        encode_node(vals, links).len() == 8 + 8 * vals.len() + encode_links(links).len(),
{
    lemma_values_len(vals);
}

/// The length of an edge: twelve bytes and the UTF-8 form of its label.
pub proof fn lemma_link_len(link: Link)
    ensures
        encode_link(link).len() == 12 + encode_utf8(link.label).len(),
{
}

/// Appends the UTF-8 form of `c` to `out`.
pub fn put_char(out: &mut Vec<u8>, c: char)
    ensures
        final(out)@ == old(out)@ + encode_scalar(c as u32),
        final(out)@.len() <= old(out)@.len() + 4,
{
    let s: u32 = c as u32;
    proof {
        char_is_scalar(c);
    }
    if s <= 0x7F {
        out.push((s & 0x7F) as u8);
    } else if s <= 0x7FF {
        out.push(0xC0 | ((s >> 6) & 0x1F) as u8);
        out.push(0x80 | (s & 0x3F) as u8);
    } else if s <= 0xFFFF {
        out.push(0xE0 | ((s >> 12) & 0x0F) as u8);
        out.push(0x80 | ((s >> 6) & 0x3F) as u8);
        out.push(0x80 | (s & 0x3F) as u8);
    } else {
        out.push(0xF0 | ((s >> 18) & 0x7) as u8);
        out.push(0x80 | ((s >> 12) & 0x3F) as u8);
        out.push(0x80 | ((s >> 6) & 0x3F) as u8);
        out.push(0x80 | (s & 0x3F) as u8);
    }
    assert(out@ =~= old(out)@ + encode_scalar(c as u32));
}

/// Appends a label to `out`: the length of its UTF-8 form, then that form.
pub fn put_label(out: &mut Vec<u8>, label: &[char])
    requires
        label@.len() <= MAX_KEY_CHARS,
    ensures
        final(out)@ == old(out)@ + encode_label(label@),
{
    let mut bytes: Vec<u8> = Vec::new();
    let mut i: usize = 0;
    assert(label@.take(0) =~= Seq::<char>::empty());
    while i < label.len()
        invariant
            i <= label@.len(),
            label@.len() <= MAX_KEY_CHARS,
            bytes@ == encode_utf8(label@.take(i as int)),
            bytes@.len() <= 4 * i,
        decreases label.len() - i,
    {
        proof {
            lemma_encode_push(label@.take(i as int), label@[i as int]);
            assert(label@.take(i as int).push(label@[i as int]) =~= label@.take(i + 1));
        }
        put_char(&mut bytes, label[i]);
        i += 1;
    }
    assert(label@.take(i as int) =~= label@);
    put_u32(out, bytes.len() as u32);
    out.append(&mut bytes);
    assert(out@ =~= old(out)@ + encode_label(label@));
}

/// Appends a node to `out`, which holds the index from its byte `base` on,
/// and returns the offset at which the node stands.
#[verifier::rlimit(60)]
pub fn write_node(out: &mut Vec<u8>, base: u64, values: &Vec<u64>, edges: &Vec<Edge>) -> (off: u64)
    requires
        base + old(out)@.len() <= u64::MAX,
        values@.len() <= u32::MAX,
        edges@.len() <= u32::MAX,
        forall|i: int| 0 <= i < edges@.len() ==> (#[trigger] edges@[i]).label@.len() <= MAX_KEY_CHARS,
    ensures
        off == base + old(out)@.len(),
        final(out)@ == old(out)@ + encode_node(values@, links_of(edges@)),
{
    let off = base + out.len() as u64;
    put_u32(out, values.len() as u32);
    let ghost base = out@;
    let mut i: usize = 0;
    assert(values@.take(0) =~= Seq::<u64>::empty());
    assert(base + encode_values(values@.take(0)) =~= base);
    while i < values.len()
        invariant
            i <= values@.len(),
            out@ == base + encode_values(values@.take(i as int)),
        decreases values.len() - i,
    {
        assert(values@.take(i + 1).drop_last() =~= values@.take(i as int));
        put_u64(out, values[i]);
        assert(out@ =~= base + encode_values(values@.take(i + 1)));
        i += 1;
    }
    assert(values@.take(i as int) =~= values@);
    put_u32(out, edges.len() as u32);
    let ghost base = out@;
    let ghost links = links_of(edges@);
    let mut j: usize = 0;
    assert(links.take(0) =~= Seq::<Link>::empty());
    assert(base + encode_links(links.take(0)) =~= base);
    while j < edges.len()
        invariant
            j <= edges@.len(),
            links == links_of(edges@),
            forall|i: int| 0 <= i < edges@.len() ==> (#[trigger] edges@[i]).label@.len() <= MAX_KEY_CHARS,
            out@ == base + encode_links(links.take(j as int)),
        decreases edges.len() - j,
    {
        proof {
            lemma_encode_links_push(links.take(j as int), links[j as int]);
            assert(links.take(j as int).push(links[j as int]) =~= links.take(j + 1));
        }
        put_label(out, edges[j].label.as_slice());
        put_u64(out, edges[j].child);
        assert(out@ =~= base + encode_links(links.take(j + 1)));
        j += 1;
    }
    assert(links.take(j as int) =~= links);
    assert(out@ =~= old(out)@ + encode_node(values@, links_of(edges@)));
    off
}

} // verus!
