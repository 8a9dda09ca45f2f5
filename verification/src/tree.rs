//! The reader: exact and prefix queries answered from the bytes of an index.

use crate::error::Error;
use crate::layout::{
    below, exact_ids, exact_result, extension_link, ids, label_at, links_at, links_from, links_in,
    lookup,
    prefix_link, prefix_result, query_tokens, search_from, search_result, subtree, values_at, walk,
    Link, DEFLAG, FLAG_PARTIAL,
};
use crate::node::{links_of, Edge};
use crate::text::{
    classify_space, chars_of, is_prefix, normal_form, normalize, normalize_chars, split_words,
    starts_with, texts, tokens,
};
use crate::values::{intersect, sorted_unique, strictly_increasing};
use crate::wire::{get_u32, get_u64, readable, u32_at, u64_at};
use vstd::prelude::*;
use vstd::slice::slice_subrange;
use vstd::utf8::{decode_utf8, valid_utf8};

verus! {

/// `head` followed by what `tail` holds, or the error of `tail`.
pub open spec fn prepend(head: Seq<Link>, tail: Result<Seq<Link>, Error>) -> Result<
    Seq<Link>,
    Error,
> {
    match tail {
        Err(e) => Err(e),
        Ok(rest) => Ok(head + rest),
    }
}

/// Calls `core::str::from_utf8`, which accepts exactly the byte strings that
/// are valid UTF-8 and then views them as the text they encode.
#[verifier::external_body]
pub(crate) fn utf8_text(bytes: &[u8]) -> (r: Option<&str>)
    ensures
        r is Some <==> valid_utf8(bytes@),
        r is Some ==> r->0@ == decode_utf8(bytes@),
{
    core::str::from_utf8(bytes).ok()
}

/// Every edge that a well-read node has leads to a smaller offset.
pub proof fn lemma_links_point_back(f: Seq<u8>, pos: int, n: nat, parent: int)
    requires
        links_from(f, pos, n, parent) is Ok,
    ensures
        links_from(f, pos, n, parent)->Ok_0.len() == n,
        forall|i: int|
            0 <= i < n ==> (#[trigger] links_from(f, pos, n, parent)->Ok_0[i]).child < parent,
    decreases n,
{
    if n > 0 {
        let next = label_at(f, pos)->Ok_0.1;
        lemma_links_point_back(f, next + 8, (n - 1) as nat, parent);
        let rest = links_from(f, next + 8, (n - 1) as nat, parent)->Ok_0;
        let all = links_from(f, pos, n, parent)->Ok_0;
        assert forall|i: int| 0 <= i < n implies (#[trigger] all[i]).child < parent by {
            if i > 0 {
                assert(all[i] == rest[i - 1]);
            }
        }
    }
}

/// What `prefix_link` finds: the first edge from `from` on whose label is a
/// prefix of `q`.
pub proof fn lemma_prefix_link(links: Seq<Link>, q: Seq<char>, from: int)
    requires
        0 <= from <= links.len(),
    ensures
        from <= prefix_link(links, q, from) <= links.len(),
        prefix_link(links, q, from) < links.len() ==> is_prefix(
            links[prefix_link(links, q, from)].label,
            q,
        ),
        forall|k: int| from <= k < prefix_link(links, q, from) ==> !is_prefix(links[k].label, q),
    decreases links.len() - from,
{
    if from < links.len() && !is_prefix(links[from].label, q) {
        lemma_prefix_link(links, q, from + 1);
    }
}

/// What `extension_link` finds: the first edge from `from` on whose label
/// continues `q`.
pub proof fn lemma_extension_link(links: Seq<Link>, q: Seq<char>, from: int)
    requires
        0 <= from <= links.len(),
    ensures
        from <= extension_link(links, q, from) <= links.len(),
        extension_link(links, q, from) < links.len() ==> is_prefix(
            q,
            links[extension_link(links, q, from)].label,
        ) && q.len() < links[extension_link(links, q, from)].label.len(),
        forall|k: int|
            from <= k < extension_link(links, q, from) ==> !(is_prefix(q, links[k].label) && q.len()
                < links[k].label.len()),
    decreases links.len() - from,
{
    if from < links.len() && !(is_prefix(q, links[from].label) && q.len() < links[from].label.len()) {
        lemma_extension_link(links, q, from + 1);
    }
}

/// Where a descent goes from a node: down an edge whose label the key
/// starts with, taking that many characters of the key, or to its end.
pub enum Turn {
    /// Down to the child at this offset, past this many characters.
    Descend(u64, usize),
    /// The descent ends: at this node, or nowhere.
    Found(Option<u64>),
}

/// Where a descent along `q`, which is not empty, goes from a node with the
/// edges `links`: down the first edge whose label is a prefix of `q`; else
/// it ends at the child of the first edge whose label is longer than `q`
/// and starts with it; else nowhere.
pub open spec fn turn_of(links: Seq<Link>, q: Seq<char>) -> Turn {
    if 0 <= prefix_link(links, q, 0) < links.len() {
        Turn::Descend(
            links[prefix_link(links, q, 0)].child,
            links[prefix_link(links, q, 0)].label.len() as usize,
        )
    } else if 0 <= extension_link(links, q, 0) < links.len() {
        Turn::Found(Some(links[extension_link(links, q, 0)].child))
    } else {
        Turn::Found(None)
    }
}

/// Decides where a descent along what is left of `query` from `start` on
/// goes from a node with the edges `edges`.
pub fn turn(edges: &Vec<Edge>, query: &[char], start: usize) -> (t: Turn)
    requires
        start <= query@.len(),
    ensures
        t == turn_of(links_of(edges@), query@.skip(start as int)),
        t matches Turn::Descend(_, used) ==> start + used <= query@.len(),
{
    let ghost q = query@.skip(start as int);
    let ghost links = links_of(edges@);
    proof {
        lemma_prefix_link(links, q, 0);
        lemma_extension_link(links, q, 0);
    }
    let mut i: usize = 0;
    while i < edges.len() && !starts_with(query, start, edges[i].label.as_slice())
        invariant
            i <= edges@.len(),
            start <= query@.len(),
            q == query@.skip(start as int),
            links == links_of(edges@),
            prefix_link(links, q, i as int) == prefix_link(links, q, 0),
        decreases edges.len() - i,
    {
        i += 1;
    }
    if i < edges.len() {
        return Turn::Descend(edges[i].child, edges[i].label.len());
    }
    let mut j: usize = 0;
    while j < edges.len() && !(edges[j].label.len() > query.len() - start && starts_with(
        edges[j].label.as_slice(),
        0,
        slice_subrange(query, start, query.len()),
    ))
        invariant
            j <= edges@.len(),
            start <= query@.len(),
            q == query@.skip(start as int),
            links == links_of(edges@),
            extension_link(links, q, j as int) == extension_link(links, q, 0),
        decreases edges.len() - j,
    {
        proof {
            assert(query@.subrange(start as int, query@.len() as int) =~= q);
            assert(links[j as int].label.skip(0) =~= links[j as int].label);
        }
        j += 1;
    }
    proof {
        if j < edges.len() {
            assert(query@.subrange(start as int, query@.len() as int) =~= q);
            assert(links[j as int].label.skip(0) =~= links[j as int].label);
        }
    }
    if j < edges.len() {
        Turn::Found(Some(edges[j].child))
    } else {
        Turn::Found(None)
    }
}

/// The identifiers of the values that carry no suffix flag, in their
/// order.
pub fn unflagged(vals: &Vec<u64>) -> (found: Vec<u64>)
    ensures
        found@ == exact_ids(vals@),
{
    let mut found: Vec<u64> = Vec::new();
    let mut i: usize = 0;
    while i < vals.len()
        invariant
            i <= vals@.len(),
            found@ == exact_ids(vals@.take(i as int)),
        decreases vals.len() - i,
    {
        assert(vals@.take(i + 1).drop_last() =~= vals@.take(i as int));
        let value = vals[i];
        if value & FLAG_PARTIAL == 0 {
            found.push(value & DEFLAG);
        }
        i += 1;
    }
    assert(vals@.take(i as int) =~= vals@);
    found
}

/// Appends to `ret` the identifiers of `vals`: each value without its
/// flag bits.
#[verifier::rlimit(60)]
pub fn push_ids(ret: &mut Vec<u64>, vals: &Vec<u64>)
    ensures
        final(ret)@.to_set() == old(ret)@.to_set() + ids(vals@),
{
    assert(vals@.take(0) =~= Seq::<u64>::empty());
    assert(old(ret)@.to_set() + ids(vals@.take(0)) =~= old(ret)@.to_set());
    let mut k: usize = 0;
    while k < vals.len()
        invariant
            k <= vals@.len(),
            ret@.to_set() == old(ret)@.to_set() + ids(vals@.take(k as int)),
        decreases vals.len() - k,
    {
        let ghost before = ret@;
        ret.push(vals[k] & DEFLAG);
        proof {
            let id = vals@[k as int] & DEFLAG;
            assert(vals@.take(k + 1)[k as int] == vals@[k as int]);
            assert forall|x: u64|
                ret@.to_set().contains(x) <==> (old(ret)@.to_set() + ids(
                    vals@.take(k + 1),
                )).contains(x) by {
                if ret@.contains(x) {
                    let n = choose|n: int| 0 <= n < ret@.len() && ret@[n] == x;
                    if n < before.len() {
                        assert(before[n] == x);
                        assert(before.to_set().contains(x));
                        if ids(vals@.take(k as int)).contains(x) {
                            let m = choose|m: int|
                                0 <= m < vals@.take(k as int).len() && x == #[trigger] vals@.take(
                                    k as int,
                                )[m] & DEFLAG;
                            assert(vals@.take(k + 1)[m] & DEFLAG == x);
                        }
                    } else {
                        assert(x == id);
                    }
                }
                if old(ret)@.to_set().contains(x) {
                    assert(before.to_set().contains(x));
                    let n = choose|n: int| 0 <= n < before.len() && before[n] == x;
                    assert(ret@[n] == x);
                }
                if ids(vals@.take(k + 1)).contains(x) {
                    let m = choose|m: int|
                        0 <= m < vals@.take(k + 1).len() && x == #[trigger] vals@.take(k + 1)[m]
                            & DEFLAG;
                    if m < k {
                        assert(vals@.take(k as int)[m] & DEFLAG == x);
                        assert(ids(vals@.take(k as int)).contains(x));
                        assert(before.to_set().contains(x));
                        let n = choose|n: int| 0 <= n < before.len() && before[n] == x;
                        assert(ret@[n] == x);
                    } else {
                        assert(ret@[before.len() as int] == x);
                    }
                }
            }
            assert(ret@.to_set() =~= old(ret)@.to_set() + ids(vals@.take(k + 1)));
        }
        k += 1;
    }
    assert(vals@.take(k as int) =~= vals@);
}

/// The normal forms of the whitespace-separated tokens of a query.
pub fn tokens_of(query: &str) -> (toks: Vec<Vec<char>>)
    ensures
        texts(toks@) == query_tokens(query@),
{
    let chars = chars_of(query);
    let space = classify_space(chars.as_slice());
    let raw = split_words(chars.as_slice(), space.as_slice());
    let mut toks: Vec<Vec<char>> = Vec::new();
    let mut i: usize = 0;
    while i < raw.len()
        invariant
            i <= raw@.len(),
            toks@.len() == i,
            forall|k: int| 0 <= k < i ==> (#[trigger] toks@[k])@ == normal_form(raw@[k]@),
        decreases raw.len() - i,
    {
        toks.push(normalize_chars(raw[i].as_slice()));
        i += 1;
    }
    assert(texts(toks@) =~= query_tokens(query@)) by {
        assert(texts(raw@) == tokens(query@));
        assert forall|k: int| 0 <= k < toks@.len() implies texts(toks@)[k] == query_tokens(
            query@,
        )[k] by {
            assert(texts(raw@)[k] == raw@[k]@);
        }
    }
    toks
}

/// An index held in memory.
pub struct Tree {
    f: Vec<u8>,
}

impl View for Tree {
    type V = Seq<u8>;

    closed spec fn view(&self) -> Seq<u8> {
        self.f@
    }
}

impl Tree {
    /// Takes the bytes of an index. Nothing is read until a query is made.
    pub fn new(file: Vec<u8>) -> (r: Result<Tree, Error>)
        ensures
            r is Ok,
            r->Ok_0@ == file@,
    {
        Ok(Tree { f: file })
    }

    /// The `n` bytes at `pos`, if they lie inside the index.
    pub fn checked_read(&self, pos: usize, n: usize) -> (r: Result<&[u8], Error>)
        ensures
            match r {
                Ok(bytes) => readable(self@, pos as int, n as int) && bytes@ == self@.subrange(
                    pos as int,
                    pos + n,
                ),
                Err(e) => e == Error::Io && !readable(self@, pos as int, n as int),
            },
    {
        if pos > self.f.len() || self.f.len() - pos < n {
            return Err(Error::Io);
        }
        Ok(slice_subrange(self.f.as_slice(), pos, pos + n))
    }

    /// The big-endian `u64` at `pos`.
    pub fn read_u64(&self, pos: usize) -> (r: Result<u64, Error>)
        ensures
            match r {
                Ok(n) => readable(self@, pos as int, 8) && n == u64_at(self@, pos as int),
                Err(e) => e == Error::Io && !readable(self@, pos as int, 8),
            },
    {
        match get_u64(self.f.as_slice(), pos) {
            Some(n) => Ok(n),
            None => Err(Error::Io),
        }
    }

    /// The big-endian `u32` at `pos`.
    pub fn read_u32(&self, pos: usize) -> (r: Result<u32, Error>)
        ensures
            match r {
                Ok(n) => readable(self@, pos as int, 4) && n == u32_at(self@, pos as int),
                Err(e) => e == Error::Io && !readable(self@, pos as int, 4),
            },
    {
        match get_u32(self.f.as_slice(), pos) {
            Some(n) => Ok(n),
            None => Err(Error::Io),
        }
    }

    /// The label at `pos` and the position behind it.
    pub fn read_str(&self, pos: usize) -> (r: Result<(Vec<char>, usize), Error>)
        ensures
            match r {
                Ok((label, next)) => label_at(self@, pos as int) == Ok::<(Seq<char>, int), Error>(
                    (label@, next as int),
                ),
                Err(e) => label_at(self@, pos as int) == Err::<(Seq<char>, int), Error>(e),
            },
    {
        let len = match self.read_u32(pos) {
            Ok(n) => n,
            Err(e) => {
                return Err(e);
            },
        };
        if len as u64 > (self.f.len() - pos - 4) as u64 {
            return Err(Error::Io);
        }
        let bytes = match self.checked_read(pos + 4, len as usize) {
            Ok(b) => b,
            Err(e) => {
                return Err(e);
            },
        };
        match utf8_text(bytes) {
            None => Err(Error::Utf8),
            Some(s) => Ok((chars_of(s), pos + 4 + len as usize)),
        }
    }

    /// The values of the node at `off`.
    pub fn read_values(&self, off: u64) -> (r: Result<Vec<u64>, Error>)
        ensures
            match r {
                Ok(vals) => values_at(self@, off as int) == Ok::<Seq<u64>, Error>(vals@),
                Err(e) => values_at(self@, off as int) == Err::<Seq<u64>, Error>(e),
            },
    {
        if off > self.f.len() as u64 {
            return Err(Error::Io);
        }
        let at = off as usize;
        let count = match self.read_u32(at) {
            Ok(n) => n,
            Err(e) => {
                return Err(e);
            },
        };
        if 8 * (count as u64) > (self.f.len() - at - 4) as u64 {
            return Err(Error::Io);
        }
        let mut vals: Vec<u64> = Vec::new();
        let mut i: usize = 0;
        while i < count as usize
            invariant
                i <= count,
                at + 4 + 8 * count <= self.f.len(),
                self.f@ == self@,
                vals@.len() == i,
                forall|k: int| 0 <= k < i ==> vals@[k] == u64_at(self@, at + 4 + 8 * k),
            decreases count - i,
        {
            let v = match self.read_u64(at + 4 + 8 * i) {
                Ok(v) => v,
                Err(e) => {
                    return Err(e);
                },
            };
            vals.push(v);
            i += 1;
        }
        assert(vals@ =~= Seq::new(count as nat, |k: int| u64_at(self@, at + 4 + 8 * k)));
        Ok(vals)
    }

    /// The edges of the node at `off`.
    pub fn read_links(&self, off: u64) -> (r: Result<Vec<Edge>, Error>)
        ensures
            match r {
                Ok(edges) => links_at(self@, off as int) == Ok::<Seq<Link>, Error>(links_of(edges@)),
                Err(e) => links_at(self@, off as int) == Err::<Seq<Link>, Error>(e),
            },
    {
        self.read_links_in(off, off)
    }

    /// The edges of the node that starts at `off` and stands at `parent` in
    /// its index.
    #[verifier::rlimit(60)]
    pub fn read_links_in(&self, off: u64, parent: u64) -> (r: Result<Vec<Edge>, Error>)
        ensures
            match r {
                Ok(edges) => links_in(self@, off as int, parent as int) == Ok::<Seq<Link>, Error>(
                    links_of(edges@),
                ),
                Err(e) => links_in(self@, off as int, parent as int) == Err::<Seq<Link>, Error>(e),
            },
    {
        if off > self.f.len() as u64 {
            return Err(Error::Io);
        }
        let at = off as usize;
        let count = match self.read_u32(at) {
            Ok(n) => n,
            Err(e) => {
                return Err(e);
            },
        };
        if 8 * (count as u64) > (self.f.len() - at - 4) as u64 {
            return Err(Error::Io);
        }
        let edges_at = at + 4 + 8 * (count as usize);
        let n = match self.read_u32(edges_at) {
            Ok(n) => n,
            Err(e) => {
                return Err(e);
            },
        };
        let ghost start = edges_at + 4;
        let mut pos: usize = edges_at + 4;
        let mut edges: Vec<Edge> = Vec::new();
        let mut i: u32 = 0;
        proof {
            let all = links_from(self@, start as int, n as nat, parent as int);
            if all is Ok {
                assert(links_of(edges@) + all->Ok_0 =~= all->Ok_0);
            }
        }
        while i < n
            invariant
                i <= n,
                pos <= self.f.len(),
                self.f@ == self@,
                links_in(self@, off as int, parent as int) == links_from(
                    self@,
                    start as int,
                    n as nat,
                    parent as int,
                ),
                links_from(self@, start as int, n as nat, parent as int) == prepend(
                    links_of(edges@),
                    links_from(self@, pos as int, (n - i) as nat, parent as int),
                ),
            decreases n - i,
        {
            let (label, next) = match self.read_str(pos) {
                Ok(found) => found,
                Err(e) => {
                    return Err(e);
                },
            };
            let child = match self.read_u64(next) {
                Ok(c) => c,
                Err(e) => {
                    return Err(e);
                },
            };
            if child >= parent {
                return Err(Error::Io);
            }
            let ghost before = links_of(edges@);
            let ghost link = Link { label: label@, child };
            edges.push(Edge { label, child });
            proof {
                assert(links_of(edges@) =~= before + seq![link]);
                let rest = links_from(self@, next + 8, (n - i - 1) as nat, parent as int);
                if rest is Ok {
                    assert(before + (seq![link] + rest->Ok_0) =~= (before + seq![link]) + rest->Ok_0);
                }
            }
            pos = next + 8;
            i += 1;
        }
        assert(links_of(edges@) + Seq::<Link>::empty() =~= links_of(edges@));
        Ok(edges)
    }

    /// Descends from the node at `offset` along `query`, which is taken as it
    /// is.
    #[verifier::rlimit(60)]
    pub fn traverse(&self, offset: u64, query: &[char]) -> (r: Result<Option<u64>, Error>)
        ensures
            r == walk(self@, offset, query@),
    {
        let mut off = offset;
        let mut start: usize = 0;
        assert(query@.skip(0) =~= query@);
        loop
            invariant
                start <= query@.len(),
                walk(self@, off, query@.skip(start as int)) == walk(self@, offset, query@),
            decreases off,
        {
            if start == query.len() {
                return Ok(Some(off));
            }
            let edges = match self.read_links(off) {
                Ok(edges) => edges,
                Err(e) => {
                    return Err(e);
                },
            };
            let ghost q = query@.skip(start as int);
            let ghost links = links_of(edges@);
            proof {
                lemma_prefix_link(links, q, 0);
                let at = (off + 4 + 8 * u32_at(self@, off as int)) as int;
                lemma_links_point_back(self@, at + 4, u32_at(self@, at) as nat, off as int);
            }
            match turn(&edges, query, start) {
                Turn::Descend(child, used) => {
                    assert(q.skip(used as int) =~= query@.skip(start + used));
                    start = start + used;
                    off = child;
                },
                Turn::Found(end) => {
                    return Ok(end);
                },
            }
        }
    }

    /// Descends from the root along a key that is already in normal form.
    pub fn lookup(&self, key: &[char]) -> (r: Result<Option<u64>, Error>)
        ensures
            r == lookup(self@, key@),
    {
        if self.f.len() < 8 {
            return Err(Error::Io);
        }
        let root = match self.read_u64(self.f.len() - 8) {
            Ok(root) => root,
            Err(e) => {
                return Err(e);
            },
        };
        self.traverse(root, key)
    }

    /// Descends from the root along the normal form of `query`.
    pub fn find(&self, query: &str) -> (r: Result<Option<u64>, Error>)
        ensures
            r == lookup(self@, normal_form(query@)),
    {
        let key = normalize(query);
        self.lookup(key.as_slice())
    }

    /// Appends to `ret` the identifiers stored at `offset` and below it.
    #[verifier::rlimit(60)]
    pub fn subtree_closure(&self, offset: u64, ret: &mut Vec<u64>) -> (r: Result<(), Error>)
        ensures
            match r {
                Ok(()) => subtree(self@, offset) is Ok && final(ret)@.to_set() == old(ret)@.to_set()
                    + subtree(self@, offset)->Ok_0,
                Err(e) => subtree(self@, offset) == Err::<Set<u64>, Error>(e),
            },
        decreases offset,
    {
        let vals = match self.read_values(offset) {
            Ok(vals) => vals,
            Err(e) => {
                return Err(e);
            },
        };
        let edges = match self.read_links(offset) {
            Ok(edges) => edges,
            Err(e) => {
                return Err(e);
            },
        };
        push_ids(ret, &vals);
        let ghost links = links_of(edges@);
        let ghost mut done: Set<u64> = Set::empty();
        let mut i: usize = 0;
        proof {
            let all = below(self@, offset, links, 0);
            if all is Ok {
                assert(done + all->Ok_0 =~= all->Ok_0);
            }
        }
        while i < edges.len()
            invariant
                i <= edges@.len(),
                links == links_of(edges@),
                values_at(self@, offset as int) == Ok::<Seq<u64>, Error>(vals@),
                links_at(self@, offset as int) == Ok::<Seq<Link>, Error>(links),
                ret@.to_set() == old(ret)@.to_set() + ids(vals@) + done,
                match below(self@, offset, links, i as int) {
                    Ok(rest) => below(self@, offset, links, 0) == Ok::<Set<u64>, Error>(done + rest),
                    Err(e) => below(self@, offset, links, 0) == Err::<Set<u64>, Error>(e),
                },
            decreases edges.len() - i,
        {
            let child = edges[i].child;
            assert(links[i as int].child == child);
            if child >= offset {
                return Err(Error::Io);
            }
            let ghost before = ret@.to_set();
            match self.subtree_closure(child, ret) {
                Ok(()) => {},
                Err(e) => {
                    return Err(e);
                },
            }
            proof {
                let first = subtree(self@, child)->Ok_0;
                let rest = below(self@, offset, links, i + 1);
                if rest is Ok {
                    assert(done + (first + rest->Ok_0) =~= (done + first) + rest->Ok_0);
                }
                assert(ret@.to_set() =~= old(ret)@.to_set() + ids(vals@) + (done + first));
                done = done + first;
            }
            i += 1;
        }
        assert(done + Set::<u64>::empty() =~= done);
        assert(old(ret)@.to_set() + ids(vals@) + done =~= old(ret)@.to_set() + (ids(vals@) + done));
        Ok(())
    }

    /// The identifiers that a prefix search for one normalised token matches,
    /// ascending.
    pub fn prefix_lookup(&self, key: &[char]) -> (r: Result<Vec<u64>, Error>)
        ensures
            match r {
                Ok(found) => prefix_result(self@, key@) == Ok::<Set<u64>, Error>(found@.to_set())
                    && strictly_increasing(found@),
                Err(e) => prefix_result(self@, key@) == Err::<Set<u64>, Error>(e),
            },
    {
        let node = match self.lookup(key) {
            Ok(node) => node,
            Err(e) => {
                return Err(e);
            },
        };
        match node {
            None => {
                let none: Vec<u64> = Vec::new();
                assert(none@.to_set() =~= Set::<u64>::empty());
                Ok(none)
            },
            Some(off) => {
                let mut all: Vec<u64> = Vec::new();
                assert(all@.to_set() =~= Set::<u64>::empty());
                match self.subtree_closure(off, &mut all) {
                    Ok(()) => {},
                    Err(e) => {
                        return Err(e);
                    },
                }
                assert(Set::<u64>::empty() + subtree(self@, off)->Ok_0 =~= subtree(self@, off)->Ok_0);
                Ok(sorted_unique(all))
            },
        }
    }

    /// The identifiers matched by every one of the given tokens, which are
    /// taken as they are; ascending.
    #[verifier::rlimit(60)]
    pub fn search_tokens(&self, toks: &Vec<Vec<char>>) -> (r: Result<Vec<u64>, Error>)
        ensures
            match r {
                Ok(found) => search_result(self@, texts(toks@)) == Ok::<Set<u64>, Error>(
                    found@.to_set(),
                ) && strictly_increasing(found@),
                Err(e) => search_result(self@, texts(toks@)) == Err::<Set<u64>, Error>(e),
            },
    {
        let mut acc: Vec<u64> = Vec::new();
        let mut i: usize = 0;
        assert(acc@.to_set() =~= Set::<u64>::empty());
        while i < toks.len()
            invariant
                i <= toks@.len(),
                strictly_increasing(acc@),
                search_from(self@, texts(toks@), i as int, acc@.to_set()) == search_result(
                    self@,
                    texts(toks@),
                ),
            decreases toks.len() - i,
        {
            assert(texts(toks@)[i as int] == toks@[i as int]@);
            let found = match self.prefix_lookup(toks[i].as_slice()) {
                Ok(found) => found,
                Err(e) => {
                    return Err(e);
                },
            };
            let next = if i == 0 {
                found
            } else {
                intersect(&acc, &found)
            };
            if next.len() == 0 {
                assert(next@.to_set() =~= Set::<u64>::empty());
                return Ok(next);
            }
            proof {
                assert(next@.to_set().contains(next@[0]));
            }
            acc = next;
            i += 1;
        }
        Ok(acc)
    }

    /// The identifiers whose keys have, for every whitespace-separated token
    /// of `query`, a word that starts with the token's normal form;
    /// ascending.
    #[verifier::rlimit(60)]
    pub fn search(&self, query: &str) -> (r: Result<Vec<u64>, Error>)
        ensures
            match r {
                Ok(found) => search_result(self@, query_tokens(query@)) == Ok::<Set<u64>, Error>(
                    found@.to_set(),
                ) && strictly_increasing(found@),
                Err(e) => search_result(self@, query_tokens(query@)) == Err::<Set<u64>, Error>(e),
            },
    {
        let toks = tokens_of(query);
        self.search_tokens(&toks)
    }

    /// The unflagged values of the node at which the descent along an
    /// already normalised key ends, in their stored order.
    pub fn exact_lookup(&self, key: &[char]) -> (r: Result<Vec<u64>, Error>)
        ensures
            match r {
                Ok(found) => exact_result(self@, key@) == Ok::<Seq<u64>, Error>(found@),
                Err(e) => exact_result(self@, key@) == Err::<Seq<u64>, Error>(e),
            },
    {
        let node = match self.lookup(key) {
            Ok(node) => node,
            Err(e) => {
                return Err(e);
            },
        };
        match node {
            None => Ok(Vec::new()),
            Some(off) => {
                let vals = match self.read_values(off) {
                    Ok(vals) => vals,
                    Err(e) => {
                        return Err(e);
                    },
                };
                Ok(unflagged(&vals))
            },
        }
    }

    /// The identifiers stored under exactly the normal form of `query`.
    pub fn exact_search(&self, query: &str) -> (r: Result<Vec<u64>, Error>)
        ensures
            match r {
                Ok(found) => exact_result(self@, normal_form(query@)) == Ok::<Seq<u64>, Error>(found@),
                Err(e) => exact_result(self@, normal_form(query@)) == Err::<Seq<u64>, Error>(e),
            },
    {
        let key = normalize(query);
        self.exact_lookup(key.as_slice())
    }
}

} // verus!
