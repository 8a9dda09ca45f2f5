//! What the bytes of an index mean.
//!
//! A node at offset `off` is a count of values, the values, a count of edges,
//! and the edges; an edge is the length of its label, the label in UTF-8 and
//! the offset of the child, which lies before the parent. The last eight
//! bytes of an index hold the offset of the root.

use crate::error::Error;
use crate::text::{is_prefix, normal_form, tokens};
use crate::wire::{readable, u32_at, u64_at};
use vstd::prelude::*;
use vstd::utf8::{decode_utf8, valid_utf8};

verus! {

/// Mask selecting the 60-bit identifier of a stored value.
pub const DEFLAG: u64 = 0x0FFF_FFFF_FFFF_FFFF;

/// Flag carried by values that were stored under a word-boundary suffix.
pub const FLAG_PARTIAL: u64 = 0x1000_0000_0000_0000;

/// An edge as a reader sees it: the characters of its label and where the
/// child stands.
pub struct Link {
    pub label: Seq<char>,
    pub child: u64,
}

/// The offset of the root, held by the trailer.
pub open spec fn root_of(f: Seq<u8>) -> Result<u64, Error> {
    if f.len() < 8 {
        Err(Error::Io)
    } else {
        Ok(u64_at(f, f.len() - 8))
    }
}

/// The values stored in the node at `off`.
pub open spec fn values_at(f: Seq<u8>, off: int) -> Result<Seq<u64>, Error> {
    if !readable(f, off, 4) {
        Err(Error::Io)
    } else if !readable(f, off + 4, 8 * u32_at(f, off)) {
        Err(Error::Io)
    } else {
        Ok(Seq::new(u32_at(f, off) as nat, |i: int| u64_at(f, off + 4 + 8 * i)))
    }
}

/// The label that starts at `pos`, and the position behind it.
pub open spec fn label_at(f: Seq<u8>, pos: int) -> Result<(Seq<char>, int), Error> {
    if !readable(f, pos, 4) {
        Err(Error::Io)
    } else if !readable(f, pos + 4, u32_at(f, pos) as int) {
        Err(Error::Io)
    } else if !valid_utf8(f.subrange(pos + 4, pos + 4 + u32_at(f, pos))) {
        Err(Error::Utf8)
    } else {
        Ok((decode_utf8(f.subrange(pos + 4, pos + 4 + u32_at(f, pos))), pos + 4 + u32_at(f, pos)))
    }
}

/// The `n` edges that start at `pos`, in a node that stands at `parent`.
/// An edge whose child does not lie before the parent makes the node
/// malformed.
pub open spec fn links_from(f: Seq<u8>, pos: int, n: nat, parent: int) -> Result<Seq<Link>, Error>
    decreases n,
{
    if n == 0 {
        Ok(Seq::empty())
    } else {
        match label_at(f, pos) {
            Err(e) => Err(e),
            Ok((label, next)) => {
                if !readable(f, next, 8) {
                    Err(Error::Io)
                } else if u64_at(f, next) >= parent {
                    Err(Error::Io)
                } else {
                    match links_from(f, next + 8, (n - 1) as nat, parent) {
                        Err(e) => Err(e),
                        Ok(rest) => Ok(seq![Link { label, child: u64_at(f, next) }] + rest),
                    }
                }
            },
        }
    }
}

/// The edges of the node that starts at `at` and stands at `parent` in its
/// index.
pub open spec fn links_in(f: Seq<u8>, at: int, parent: int) -> Result<Seq<Link>, Error> {
    if !readable(f, at, 4) {
        Err(Error::Io)
    } else if !readable(f, at + 4 + 8 * u32_at(f, at), 4) {
        Err(Error::Io)
    } else {
        links_from(
            f,
            at + 8 + 8 * u32_at(f, at),
            u32_at(f, at + 4 + 8 * u32_at(f, at)) as nat,
            parent,
        )
    }
}

/// The edges of the node at `off`.
pub open spec fn links_at(f: Seq<u8>, off: int) -> Result<Seq<Link>, Error> {
    links_in(f, off, off)
}

/// The position behind the `n` edges that start at `pos`.
pub open spec fn links_end(f: Seq<u8>, pos: int, n: nat) -> int
    decreases n,
{
    if n == 0 {
        pos
    } else {
        links_end(f, pos + 4 + u32_at(f, pos) + 8, (n - 1) as nat)
    }
}

/// The position behind the node at `off`.
pub open spec fn node_end(f: Seq<u8>, off: int) -> int {
    links_end(
        f,
        off + 8 + 8 * u32_at(f, off),
        u32_at(f, off + 4 + 8 * u32_at(f, off)) as nat,
    )
}

/// The index of the first edge at or after `from` whose label is a prefix of
/// `q`, or the number of edges if there is none.
pub open spec fn prefix_link(links: Seq<Link>, q: Seq<char>, from: int) -> int
    decreases links.len() - from,
{
    if from < 0 || from >= links.len() {
        links.len() as int
    } else if is_prefix(links[from].label, q) {
        from
    } else {
        prefix_link(links, q, from + 1)
    }
}

/// The index of the first edge at or after `from` whose label is longer than
/// `q` and starts with it, or the number of edges if there is none.
pub open spec fn extension_link(links: Seq<Link>, q: Seq<char>, from: int) -> int
    decreases links.len() - from,
{
    if from < 0 || from >= links.len() {
        links.len() as int
    } else if is_prefix(q, links[from].label) && q.len() < links[from].label.len() {
        from
    } else {
        extension_link(links, q, from + 1)
    }
}

/// Where a descent from the node at `off` along `q` ends: at the node whose
/// path spells `q`, or at the child of the edge inside whose label `q` ends;
/// `None` when no edge continues `q`.
pub open spec fn walk(f: Seq<u8>, off: u64, q: Seq<char>) -> Result<Option<u64>, Error>
    decreases off,
{
    if q.len() == 0 {
        Ok(Some(off))
    } else {
        match links_at(f, off as int) {
            Err(e) => Err(e),
            Ok(links) => {
                let i = prefix_link(links, q, 0);
                let j = extension_link(links, q, 0);
                if 0 <= i < links.len() {
                    if links[i].child < off {
                        walk(f, links[i].child, q.skip(links[i].label.len() as int))
                    } else {
                        Err(Error::Io)
                    }
                } else if 0 <= j < links.len() {
                    Ok(Some(links[j].child))
                } else {
                    Ok(None)
                }
            },
        }
    }
}

/// Where a descent from the root along an already normalised key ends.
pub open spec fn lookup(f: Seq<u8>, key: Seq<char>) -> Result<Option<u64>, Error> {
    match root_of(f) {
        Err(e) => Err(e),
        Ok(root) => walk(f, root, key),
    }
}

/// The identifiers of `vals`: each value without its flag bits.
pub open spec fn ids(vals: Seq<u64>) -> Set<u64> {
    Set::new(|id: u64| exists|i: int| 0 <= i < vals.len() && id == #[trigger] vals[i] & DEFLAG)
}

/// The identifiers of the values of `vals` that carry no suffix flag, in
/// their order.
pub open spec fn exact_ids(vals: Seq<u64>) -> Seq<u64>
    decreases vals.len(),
{
    if vals.len() == 0 {
        Seq::empty()
    } else if vals.last() & FLAG_PARTIAL == 0 {
        exact_ids(vals.drop_last()).push(vals.last() & DEFLAG)
    } else {
        exact_ids(vals.drop_last())
    }
}

/// The identifiers stored in the node at `off` and in every node below it.
pub open spec fn subtree(f: Seq<u8>, off: u64) -> Result<Set<u64>, Error>
    decreases off, 1nat, 0nat,
{
    match values_at(f, off as int) {
        Err(e) => Err(e),
        Ok(vals) => match links_at(f, off as int) {
            Err(e) => Err(e),
            Ok(links) => match below(f, off, links, 0) {
                Err(e) => Err(e),
                Ok(deeper) => Ok(ids(vals) + deeper),
            },
        },
    }
}

/// The identifiers stored under the edges of `links` from index `from` on,
/// where `links` are the edges of the node at `parent`.
pub open spec fn below(f: Seq<u8>, parent: u64, links: Seq<Link>, from: int) -> Result<
    Set<u64>,
    Error,
>
    decreases parent, 0nat, links.len() - from,
{
    if from < 0 || from >= links.len() {
        Ok(Set::empty())
    } else if links[from].child >= parent {
        Err(Error::Io)
    } else {
        match subtree(f, links[from].child) {
            Err(e) => Err(e),
            Ok(first) => match below(f, parent, links, from + 1) {
                Err(e) => Err(e),
                Ok(rest) => Ok(first + rest),
            },
        }
    }
}

/// The result of an exact search for an already normalised key: the
/// unflagged values of the node where the descent ends.
pub open spec fn exact_result(f: Seq<u8>, key: Seq<char>) -> Result<Seq<u64>, Error> {
    match lookup(f, key) {
        Err(e) => Err(e),
        Ok(None) => Ok(Seq::empty()),
        Ok(Some(node)) => match values_at(f, node as int) {
            Err(e) => Err(e),
            Ok(vals) => Ok(exact_ids(vals)),
        },
    }
}

/// The identifiers that a prefix search for one normalised token matches.
pub open spec fn prefix_result(f: Seq<u8>, key: Seq<char>) -> Result<Set<u64>, Error> {
    match lookup(f, key) {
        Err(e) => Err(e),
        Ok(None) => Ok(Set::empty()),
        Ok(Some(node)) => subtree(f, node),
    }
}

/// The result of searching for the normalised tokens `toks[i..]`, when the
/// tokens before `i` have matched `acc`. The search ends as soon as nothing
/// is left.
pub open spec fn search_from(f: Seq<u8>, toks: Seq<Seq<char>>, i: int, acc: Set<u64>) -> Result<
    Set<u64>,
    Error,
>
    decreases toks.len() - i,
{
    if i < 0 || i >= toks.len() {
        Ok(acc)
    } else {
        match prefix_result(f, toks[i]) {
            Err(e) => Err(e),
            Ok(found) => {
                let next = if i == 0 {
                    found
                } else {
                    acc.intersect(found)
                };
                if next =~= Set::empty() {
                    Ok(Set::empty())
                } else {
                    search_from(f, toks, i + 1, next)
                }
            },
        }
    }
}

/// The identifiers matched by every one of the normalised tokens `toks`;
/// nothing when there is no token.
pub open spec fn search_result(f: Seq<u8>, toks: Seq<Seq<char>>) -> Result<Set<u64>, Error> {
    search_from(f, toks, 0, Set::empty())
}

/// The normal forms of the whitespace-separated tokens of a query.
pub open spec fn query_tokens(query: Seq<char>) -> Seq<Seq<char>> {
    tokens(query).map_values(|t: Seq<char>| normal_form(t))
}

} // verus!
