//! Reading an index piece by piece: each function takes the bytes read at
//! the place of one node and says where the descent goes, what the node
//! holds, or that more bytes are needed. What it says holds of every index
//! that has these bytes at that place.

use crate::content::{extends, lemma_links_stable, lemma_node_stable};
use crate::error::Error;
use crate::layout::{
    below, ids, prefix_result, query_tokens, search_from, search_result, label_at, links_at, links_from, links_in, subtree, values_at, walk, Link,
};
use crate::node::links_of;
use crate::text::texts;
use crate::tree::{
    lemma_links_point_back, lemma_prefix_link, push_ids, tokens_of, turn, Tree, Turn,
};
use crate::values::{intersect, sorted_unique, strictly_increasing};
use crate::wire::{readable, u32_at, u64_at};
use vstd::prelude::*;

verus! {

/// The bytes of `f` from `off` on; none if `off` lies behind the end.
pub open spec fn tail(f: Seq<u8>, off: int) -> Seq<u8> {
    if 0 <= off <= f.len() {
        f.skip(off)
    } else {
        Seq::empty()
    }
}

/// Whether `window` holds bytes that `f` has at `off`: the first of them,
/// and all of them to the end of `f` if `whole` says so.
pub open spec fn shows(f: Seq<u8>, off: int, window: Seq<u8>, whole: bool) -> bool {
    extends(tail(f, off), window) && (whole ==> window == tail(f, off))
}

/// A label reads from the rest of an index as it reads from the index.
pub proof fn lemma_shift_label(f: Seq<u8>, off: int, pos: int)
    requires
        0 <= off,
        0 <= pos,
    ensures
        label_at(f, off + pos) == match label_at(tail(f, off), pos) {
            Ok((label, next)) => Ok::<(Seq<char>, int), Error>((label, next + off)),
            Err(e) => Err::<(Seq<char>, int), Error>(e),
        },
{
    let t = tail(f, off);
    if off <= f.len() {
        if readable(t, pos, 4) {
            let n = u32_at(t, pos) as int;
            if readable(t, pos + 4, n) {
                assert(t.subrange(pos + 4, pos + 4 + n) =~= f.subrange(off + pos + 4, off + pos + 4 + n));
            }
        }
    }
}

/// Edges read from the rest of an index as they read from the index.
pub proof fn lemma_shift_links(f: Seq<u8>, off: int, pos: int, n: nat, parent: int)
    requires
        0 <= off,
        0 <= pos,
    ensures
        links_from(f, off + pos, n, parent) == links_from(tail(f, off), pos, n, parent),
    decreases n,
{
    if n > 0 {
        lemma_shift_label(f, off, pos);
        let t = tail(f, off);
        match label_at(t, pos) {
            Ok((label, next)) => {
                assert(next >= 0);
                if off <= f.len() && readable(t, next, 8) {
                    assert(u64_at(t, next) == u64_at(f, off + next));
                }
                lemma_shift_links(f, off, next + 8, (n - 1) as nat, parent);
                assert(off + (next + 8) == (next + off) + 8);
            },
            Err(_) => {},
        }
    }
}

/// A node reads from the bytes shown of it as it reads from the index:
/// what can be read from the bytes shown is what the index holds, and
/// where all bytes to the end are shown, nothing else can be read from the
/// index either.
pub proof fn lemma_window(f: Seq<u8>, off: u64, window: Seq<u8>, whole: bool, parent: int)
    requires
        shows(f, off as int, window, whole),
    ensures
        values_at(window, 0) is Ok ==> values_at(f, off as int) == values_at(window, 0),
        links_in(window, 0, parent) is Ok ==> links_in(f, off as int, parent) == links_in(
            window,
            0,
            parent,
        ),
        whole ==> values_at(f, off as int) == values_at(window, 0) && links_in(f, off as int, parent)
            == links_in(window, 0, parent),
{
    let t = tail(f, off as int);
    // the rest of the index reads as the index
    assert(values_at(f, off as int) == values_at(t, 0)) by {
        if off <= f.len() && readable(t, 0, 4) {
            assert(u32_at(t, 0) == u32_at(f, off as int));
            if readable(t, 4, 8 * u32_at(t, 0)) {
                assert(values_at(f, off as int)->Ok_0 =~= values_at(t, 0)->Ok_0);
            }
        }
    }
    assert(links_in(f, off as int, parent) == links_in(t, 0, parent)) by {
        if off <= f.len() && readable(t, 0, 4) {
            assert(u32_at(t, 0) == u32_at(f, off as int));
            let at = 4 + 8 * u32_at(t, 0);
            if readable(t, at, 4) {
                assert(u32_at(t, at) == u32_at(f, off + at));
                lemma_shift_links(f, off as int, at + 4, u32_at(t, at) as nat, parent);
            }
        }
    }
    // what the bytes shown hold, the rest of the index holds
    lemma_node_stable(window, t, 0);
    if links_in(window, 0, parent) is Ok {
        let at = 4 + 8 * u32_at(window, 0);
        assert(u32_at(t, 0) == u32_at(window, 0));
        assert(u32_at(t, at) == u32_at(window, at));
        lemma_links_stable(window, t, at + 4, u32_at(window, at) as nat, parent);
    }
}

/// What one node tells of a descent.
pub enum Hop {
    /// The descent ends: at this node, or nowhere.
    Found(Option<u64>),
    /// The descent goes on at the child at this offset, past this many
    /// characters of the key.
    Descend(u64, usize),
    /// The bytes shown do not hold the whole node: more must be read.
    Short,
}

/// Takes a descent along what is left of `query` from `start` on one node
/// further. `window` holds the bytes read at `off`, and `whole` says that
/// they reach to the end of the index. As long as they do not, a node that
/// cannot be read from them asks for more bytes.
pub fn hop(window: Vec<u8>, whole: bool, off: u64, query: &[char], start: usize) -> (r: Result<
    Hop,
    Error,
>)
    requires
        start <= query@.len(),
    ensures
        r == Ok::<Hop, Error>(Hop::Short) <==> !whole && start < query@.len() && links_in(
            window@,
            0,
            off as int,
        ) is Err,
        forall|f: Seq<u8>| #[trigger]
            shows(f, off as int, window@, whole) ==> match r {
                Ok(Hop::Found(end)) => walk(f, off, query@.skip(start as int)) == Ok::<
                    Option<u64>,
                    Error,
                >(end),
                Ok(Hop::Descend(child, used)) => child < off && start + used <= query@.len() && walk(
                    f,
                    off,
                    query@.skip(start as int),
                ) == walk(f, child, query@.skip(start + used)),
                Ok(Hop::Short) => true,
                Err(e) => walk(f, off, query@.skip(start as int)) == Err::<Option<u64>, Error>(e),
            },
{
    if start == query.len() {
        return Ok(Hop::Found(Some(off)));
    }
    let ghost q = query@.skip(start as int);
    let ghost w = window@;
    let node = match Tree::new(window) {
        Ok(node) => node,
        Err(e) => {
            return Err(e);
        },
    };
    match node.read_links_in(0, off) {
        Err(e) => {
            if whole {
                assert forall|f: Seq<u8>| #[trigger] shows(f, off as int, w, whole) implies walk(f, off, q)
                    == Err::<Option<u64>, Error>(e) by {
                    lemma_window(f, off, w, whole, off as int);
                }
                Err(e)
            } else {
                Ok(Hop::Short)
            }
        },
        Ok(edges) => {
            let t = turn(&edges, query, start);
            let ghost links = links_of(edges@);
            proof {
                lemma_prefix_link(links, q, 0);
                let at = 4 + 8 * u32_at(w, 0);
                lemma_links_point_back(w, at + 4, u32_at(w, at) as nat, off as int);
                assert forall|f: Seq<u8>| #[trigger] shows(f, off as int, w, whole) implies links_at(
                    f,
                    off as int,
                ) == Ok::<Seq<Link>, Error>(links) by {
                    lemma_window(f, off, w, whole, off as int);
                }
            }
            match t {
                Turn::Descend(child, used) => {
                    assert(q.skip(used as int) =~= query@.skip(start + used));
                    Ok(Hop::Descend(child, used))
                },
                Turn::Found(end) => Ok(Hop::Found(end)),
            }
        },
    }
}

/// The values of a node, from the bytes read at its place, or nothing if
/// the bytes do not hold them all and do not reach to the end of the
/// index.
pub fn node_values(window: Vec<u8>, whole: bool) -> (r: Result<Option<Vec<u64>>, Error>)
    ensures
        r == Ok::<Option<Vec<u64>>, Error>(None) <==> !whole && values_at(window@, 0) is Err,
        forall|f: Seq<u8>, off: u64| #[trigger]
            shows(f, off as int, window@, whole) ==> match r {
                Ok(Some(vals)) => values_at(f, off as int) == Ok::<Seq<u64>, Error>(vals@),
                Ok(None) => true,
                Err(e) => values_at(f, off as int) == Err::<Seq<u64>, Error>(e),
            },
{
    let ghost w = window@;
    let node = match Tree::new(window) {
        Ok(node) => node,
        Err(e) => {
            return Err(e);
        },
    };
    match node.read_values(0) {
        Ok(vals) => {
            assert forall|f: Seq<u8>, off: u64| #[trigger] shows(f, off as int, w, whole) implies values_at(
                f,
                off as int,
            ) == Ok::<Seq<u64>, Error>(vals@) by {
                lemma_window(f, off, w, whole, 0);
            }
            Ok(Some(vals))
        },
        Err(e) => {
            if whole {
                assert forall|f: Seq<u8>, off: u64| #[trigger] shows(f, off as int, w, whole) implies values_at(
                    f,
                    off as int,
                ) == Err::<Seq<u64>, Error>(e) by {
                    lemma_window(f, off, w, whole, 0);
                }
                Err(e)
            } else {
                Ok(None)
            }
        },
    }
}

/// The identifiers stored at and below the nodes of `stack`, the last of
/// them first.
pub open spec fn forest(f: Seq<u8>, stack: Seq<u64>) -> Result<Set<u64>, Error>
    decreases stack.len(),
{
    if stack.len() == 0 {
        Ok(Set::empty())
    } else {
        match subtree(f, stack.last()) {
            Err(e) => Err(e),
            Ok(first) => match forest(f, stack.drop_last()) {
                Err(e) => Err(e),
                Ok(rest) => Ok(first + rest),
            },
        }
    }
}

/// The children of the edges from `from` on, the last edge first.
pub open spec fn children_from(links: Seq<Link>, from: int) -> Seq<u64>
    decreases links.len() - from,
{
    if from < 0 || from >= links.len() {
        Seq::empty()
    } else {
        children_from(links, from + 1).push(links[from].child)
    }
}

/// `first`, then what `rest` holds, or the first error.
pub open spec fn joined(first: Result<Set<u64>, Error>, rest: Result<Set<u64>, Error>) -> Result<
    Set<u64>,
    Error,
> {
    match first {
        Err(e) => Err(e),
        Ok(a) => match rest {
            Err(e) => Err(e),
            Ok(b) => Ok(a + b),
        },
    }
}

/// A stack with the children of a node on top holds what is below the
/// node, and what the stack held.
pub proof fn lemma_forest_children(
    f: Seq<u8>,
    parent: u64,
    links: Seq<Link>,
    from: int,
    stack: Seq<u64>,
)
    requires
        0 <= from <= links.len(),
        forall|i: int| 0 <= i < links.len() ==> (#[trigger] links[i]).child < parent,
    ensures
        forest(f, stack + children_from(links, from)) == joined(
            below(f, parent, links, from),
            forest(f, stack),
        ),
    decreases links.len() - from,
{
    if from >= links.len() {
        assert(stack + children_from(links, from) =~= stack);
        match forest(f, stack) {
            Ok(b) => {
                assert(Set::<u64>::empty() + b =~= b);
            },
            Err(_) => {},
        }
    } else {
        let all = stack + children_from(links, from);
        lemma_forest_children(f, parent, links, from + 1, stack);
        assert(all.last() == links[from].child);
        assert(all.drop_last() =~= stack + children_from(links, from + 1));
        match (subtree(f, links[from].child), below(f, parent, links, from + 1), forest(f, stack)) {
            (Ok(a), Ok(d), Ok(b)) => {
                assert(a + (d + b) =~= (a + d) + b);
            },
            _ => {},
        }
    }
}

/// The search for the identifiers below a node, node by node: the nodes
/// still to be read, and the identifiers found.
pub struct Collect {
    stack: Vec<u64>,
    found: Vec<u64>,
}

impl Collect {
    /// The nodes still to be read, the next one last.
    pub closed spec fn stack(&self) -> Seq<u64> {
        self.stack@
    }

    /// The identifiers found so far.
    pub closed spec fn found(&self) -> Seq<u64> {
        self.found@
    }

    /// What the search will have found in the index `f` when no node is
    /// left: what it has found, and what is stored at and below the nodes
    /// still to be read.
    pub open spec fn outcome(&self, f: Seq<u8>) -> Result<Set<u64>, Error> {
        match forest(f, self.stack()) {
            Err(e) => Err(e),
            Ok(rest) => Ok(self.found().to_set() + rest),
        }
    }

    /// A search for the identifiers stored at and below the node at `off`.
    pub fn start(off: u64) -> (c: Collect)
        ensures
            c.stack() == seq![off],
            c.found() == Seq::<u64>::empty(),
            forall|f: Seq<u8>| #[trigger] c.outcome(f) == subtree(f, off),
    {
        let mut stack: Vec<u64> = Vec::new();
        stack.push(off);
        let c = Collect { stack, found: Vec::new() };
        proof {
            assert(c.stack@ =~= seq![off]);
            assert forall|f: Seq<u8>| #[trigger] c.outcome(f) == subtree(f, off) by {
                assert(c.stack@.drop_last() =~= Seq::<u64>::empty());
                assert(c.stack@.last() == off);
                assert(forest(f, c.stack@.drop_last()) == Ok::<Set<u64>, Error>(Set::empty()));
                assert(forest(f, c.stack@) == joined(subtree(f, off), forest(f, c.stack@.drop_last())));
                assert(c.found@.to_set() =~= Set::<u64>::empty());
                match subtree(f, off) {
                    Ok(a) => {
                        assert(a + Set::<u64>::empty() =~= a);
                        assert(Set::<u64>::empty() + a =~= a);
                    },
                    Err(_) => {},
                }
            }
        }
        c
    }

    /// The offset of the node to read next, if any is left.
    pub fn next(&self) -> (off: Option<u64>)
        ensures
            off == if self.stack().len() > 0 {
                Some(self.stack().last())
            } else {
                None
            },
    {
        if self.stack.len() > 0 {
            Some(self.stack[self.stack.len() - 1])
        } else {
            None
        }
    }

    /// Takes the bytes read at the node that is next: collects its
    /// identifiers and puts its children on the stack, the first child to
    /// be read first. Returns `false`, and changes nothing, if the bytes do
    /// not hold the whole node and do not reach to the end of the index.
    #[verifier::rlimit(60)]
    pub fn feed(&mut self, window: Vec<u8>, whole: bool) -> (r: Result<bool, Error>)
        requires
            old(self).stack().len() > 0,
        ensures
            r == Ok::<bool, Error>(false) <==> !whole && (values_at(window@, 0) is Err || links_in(
                window@,
                0,
                old(self).stack().last() as int,
            ) is Err),
            r == Ok::<bool, Error>(false) ==> final(self).stack() == old(self).stack(),
            r == Ok::<bool, Error>(false) ==> final(self).found() == old(self).found(),
            forall|f: Seq<u8>| #[trigger]
                shows(f, old(self).stack().last() as int, window@, whole) ==> match r {
                    Ok(true) => final(self).outcome(f) == old(self).outcome(f),
                    Ok(false) => true,
                    Err(e) => old(self).outcome(f) == Err::<Set<u64>, Error>(e),
                },
    {
        let off = self.stack[self.stack.len() - 1];
        let ghost w = window@;
        let ghost before = self.stack@;
        let ghost under = self.stack@.drop_last();
        let ghost had = self.found@;
        let node = match Tree::new(window) {
            Ok(node) => node,
            Err(e) => {
                return Err(e);
            },
        };
        let vals = match node.read_values(0) {
            Ok(vals) => vals,
            Err(e) => {
                if whole {
                    assert forall|f: Seq<u8>| #[trigger] shows(f, off as int, w, whole) implies old(
                        self,
                    ).outcome(f) == Err::<Set<u64>, Error>(e) by {
                        lemma_window(f, off, w, whole, off as int);
                    }
                    return Err(e);
                } else {
                    return Ok(false);
                }
            },
        };
        let edges = match node.read_links_in(0, off) {
            Ok(edges) => edges,
            Err(e) => {
                if whole {
                    assert forall|f: Seq<u8>| #[trigger] shows(f, off as int, w, whole) implies old(
                        self,
                    ).outcome(f) == Err::<Set<u64>, Error>(e) by {
                        lemma_window(f, off, w, whole, off as int);
                    }
                    return Err(e);
                } else {
                    return Ok(false);
                }
            },
        };
        let ghost links = links_of(edges@);
        proof {
            let at = 4 + 8 * u32_at(w, 0);
            lemma_links_point_back(w, at + 4, u32_at(w, at) as nat, off as int);
        }
        self.stack.pop();
        push_ids(&mut self.found, &vals);
        let mut i: usize = edges.len();
        assert(under + children_from(links, i as int) =~= under);
        while i > 0
            invariant
                i <= edges@.len(),
                links == links_of(edges@),
                self.found@.to_set() == had.to_set() + ids(vals@),
                self.stack@ == under + children_from(links, i as int),
            decreases i,
        {
            i -= 1;
            self.stack.push(edges[i].child);
            assert(links[i as int].child == edges@[i as int].child);
            assert(self.stack@ =~= under + children_from(links, i as int));
        }
        proof {
            assert forall|f: Seq<u8>| #[trigger] shows(f, off as int, w, whole) implies self.outcome(f)
                == old(self).outcome(f) by {
                lemma_window(f, off, w, whole, off as int);
                lemma_forest_children(f, off, links, 0, under);
                assert(before.last() == off);
                assert(forest(f, before) == joined(subtree(f, off), forest(f, under)));
                match (below(f, off, links, 0), forest(f, under)) {
                    (Ok(d), Ok(b)) => {
                        assert((had.to_set() + ids(vals@)) + (d + b) =~= had.to_set() + ((ids(vals@) + d)
                            + b));
                    },
                    _ => {},
                }
            }
        }
        Ok(true)
    }

    /// The identifiers found, ascending and each once, when no node is
    /// left to read.
    pub fn finish(self) -> (found: Vec<u64>)
        requires
            self.stack().len() == 0,
        ensures
            strictly_increasing(found@),
            found@.to_set() == self.found().to_set(),
            forall|f: Seq<u8>| #[trigger] self.outcome(f) == Ok::<Set<u64>, Error>(found@.to_set()),
    {
        proof {
            assert forall|f: Seq<u8>| #[trigger] self.outcome(f) == Ok::<Set<u64>, Error>(
                self.found@.to_set(),
            ) by {
                assert(self.found@.to_set() + Set::<u64>::empty() =~= self.found@.to_set());
            }
        }
        sorted_unique(self.found)
    }
}

/// A search for several tokens, token by token: the tokens, how many of
/// them are looked up, and what all of those have matched.
pub struct Search {
    toks: Vec<Vec<char>>,
    done: usize,
    matched: Vec<u64>,
}

impl Search {
    /// The normalised tokens of the query.
    pub closed spec fn tokens(&self) -> Seq<Seq<char>> {
        texts(self.toks@)
    }

    /// How many tokens are looked up; all of them once nothing is left to
    /// match.
    pub closed spec fn done(&self) -> int {
        self.done as int
    }

    /// What the tokens looked up have matched.
    pub closed spec fn matched(&self) -> Seq<u64> {
        self.matched@
    }

    /// The matches ascend and no more tokens are looked up than there are.
    pub closed spec fn wf(&self) -> bool {
        strictly_increasing(self.matched@) && self.done <= self.toks@.len()
    }

    /// What the search will have found in the index `f` when every token is
    /// looked up.
    pub open spec fn outcome(&self, f: Seq<u8>) -> Result<Set<u64>, Error> {
        search_from(f, self.tokens(), self.done(), self.matched().to_set())
    }

    /// A search for the tokens of `query`.
    pub fn start(query: &str) -> (s: Search)
        ensures
            s.wf(),
            s.tokens() == query_tokens(query@),
            s.done() == 0,
            forall|f: Seq<u8>| #[trigger] s.outcome(f) == search_result(f, query_tokens(query@)),
    {
        let s = Search { toks: tokens_of(query), done: 0, matched: Vec::new() };
        assert(s.matched@.to_set() =~= Set::<u64>::empty());
        s
    }

    /// The token to look up next, if any is left.
    pub fn token(&self) -> (t: Option<&Vec<char>>)
        requires
            self.wf(),
        ensures
            match t {
                Some(tok) => self.done() < self.tokens().len() && tok@ == self.tokens()[self.done()],
                None => self.done() == self.tokens().len(),
            },
    {
        if self.done < self.toks.len() {
            assert(texts(self.toks@)[self.done as int] == self.toks@[self.done as int]@);
            Some(&self.toks[self.done])
        } else {
            None
        }
    }

    /// Takes what the prefix lookup of the next token has found, ascending:
    /// the matches are narrowed to it, and when none is left no further
    /// token is looked up.
    pub fn take(&mut self, found: Vec<u64>)
        requires
            old(self).wf(),
            old(self).done() < old(self).tokens().len(),
            strictly_increasing(found@),
        ensures
            final(self).wf(),
            final(self).tokens() == old(self).tokens(),
            old(self).done() < final(self).done() <= final(self).tokens().len(),
            forall|f: Seq<u8>|
                #[trigger] prefix_result(f, old(self).tokens()[old(self).done()]) == Ok::<
                    Set<u64>,
                    Error,
                >(found@.to_set()) ==> final(self).outcome(f) == old(self).outcome(f),
    {
        assert(texts(self.toks@).len() == self.toks@.len());
        let total = self.toks.len();
        let next = if self.done == 0 {
            found
        } else {
            intersect(&self.matched, &found)
        };
        if next.len() == 0 {
            assert(next@.to_set() =~= Set::<u64>::empty());
            self.matched = next;
            self.done = total;
        } else {
            proof {
                assert(next@.to_set().contains(next@[0]));
            }
            self.matched = next;
            self.done = self.done + 1;
        }
    }

    /// The identifiers that every token has matched, ascending, when every
    /// token is looked up.
    pub fn finish(self) -> (found: Vec<u64>)
        requires
            self.wf(),
            self.done() == self.tokens().len(),
        ensures
            strictly_increasing(found@),
            forall|f: Seq<u8>| #[trigger] self.outcome(f) == Ok::<Set<u64>, Error>(found@.to_set()),
    {
        self.matched
    }
}

} // verus!
