//! The builder: takes keys and values in any order, stages them under the
//! normal form of the key and under each of its word-boundary suffixes, and
//! writes the index once everything is staged.

use crate::content::{
    lemma_entries_distinct, lemma_values_for_member, node_wf, stored, values_for,
};
use crate::error::Error;
use crate::layout::{node_end, root_of, DEFLAG, FLAG_PARTIAL};
use crate::node::{encode_values, lemma_values_at, lemma_values_len, MAX_KEY_CHARS};
use crate::progress::{reports, Progress};
use crate::spine::{after_all, fresh, index_of, lemma_after_all_concat};
use crate::staging::{
    arrange, blob_of, is_staged, lemma_arrange, lemma_ascending_unique, lemma_blob_at,
    lemma_key_order_total, pair_lt, pairs_ascend, Staging,
};
use crate::tree::utf8_text;
use crate::text::{
    alnum_flags, chars_of, break_points, classify_alnum, classify_space, key_lt, normal_form, normalize,
    space_flags, suffix_cuts,
};
use crate::values::{sorted_unique, strictly_increasing};
use crate::wire::{be64, get_u64, put_u64, u64_at};
use crate::writer::{
    cost, last_key, lemma_values_for_push, lemma_weight_push, lemma_weight_subset, refusal, weight,
    Writer, MAX_WEIGHT,
};
use vstd::prelude::*;
use vstd::slice::{slice_subrange, slice_to_vec};
use vstd::utf8::{decode_utf8, valid_utf8};

verus! {

/// The suffix entries of a normalised key: for each cut the rest of the
/// key from there, with the value flagged.
pub open spec fn suffix_entries(norm: Seq<char>, cuts: Seq<int>, val: u64) -> Seq<(Seq<char>, u64)> {
    Seq::new(cuts.len(), |i: int| (norm.skip(cuts[i]), val | FLAG_PARTIAL))
}

/// What one key and value stage, given the classes of the characters of
/// the key: the key itself with the value, then its suffix entries.
pub open spec fn expand_with(norm: Seq<char>, alnum: Seq<bool>, space: Seq<bool>, val: u64) -> Seq<
    (Seq<char>, u64),
> {
    seq![(norm, val)] + suffix_entries(norm, break_points(alnum, space, norm.len() as int), val)
}

/// What one normalised key and value stage.
pub open spec fn expand(norm: Seq<char>, val: u64) -> Seq<(Seq<char>, u64)> {
    expand_with(norm, alnum_flags(norm), space_flags(norm), val)
}

/// The pairs of `v` as contracts speak of them.
pub open spec fn pairs_of(v: Seq<(Vec<char>, u64)>) -> Seq<(Seq<char>, u64)> {
    Seq::new(v.len(), |i: int| (v[i].0@, v[i].1))
}

/// The values that a blob of the staging store holds, eight bytes each.
pub open spec fn decoded(blob: Seq<u8>) -> Seq<u64> {
    Seq::new((blob.len() / 8) as nat, |i: int| u64_at(blob, 8 * i))
}

/// Why a builder refuses a value under a key with the normal form `norm`,
/// if it does.
pub open spec fn add_refusal(finished: bool, norm: Seq<char>, val: u64) -> Option<Error> {
    if finished {
        Some(Error::Finished)
    } else if val >= 0x1000_0000_0000_0000 {
        Some(Error::Range)
    } else if norm.len() > MAX_KEY_CHARS {
        Some(Error::TooLarge)
    } else {
        None
    }
}

/// Whether what was staged fits an index: no key has more distinct values
/// than a node can count, and the entries do not weigh too much.
pub open spec fn fits(merges: Seq<(Seq<char>, u64)>) -> bool {
    &&& forall|k: Seq<char>| (#[trigger] values_for(merges, k)).to_set().len() <= u32::MAX
    &&& weight(arrange(merges)) <= MAX_WEIGHT
}

/// Whether every staged value is an identifier of 60 bits, with or without
/// the suffix flag.
pub open spec fn flagged(merges: Seq<(Seq<char>, u64)>) -> bool {
    forall|i: int| 0 <= i < merges.len() ==> (#[trigger] merges[i]).1 < 0x2000_0000_0000_0000
}

/// Whether `f` is a well-formed index of what was staged: the root is the
/// last node and the trailer follows it, and under every key stand the
/// values staged under it, ascending and each once.
pub open spec fn indexes(f: Seq<u8>, merges: Seq<(Seq<char>, u64)>) -> bool {
    &&& root_of(f) is Ok
    &&& node_end(f, root_of(f)->Ok_0 as int) + 8 == f.len()
    &&& node_wf(f, root_of(f)->Ok_0)
    &&& forall|k: Seq<char>|
        strictly_increasing(#[trigger] stored(f, root_of(f)->Ok_0, k)) && stored(
            f,
            root_of(f)->Ok_0,
            k,
        ).to_set() == values_for(merges, k).to_set()
}

/// Reading back the encoded values gives the values.
pub proof fn lemma_decoded(vals: Seq<u64>)
    ensures
        decoded(encode_values(vals)) == vals,
        encode_values(vals).len() == 8 * vals.len(),
{
    let blob = encode_values(vals);
    lemma_values_len(vals);
    assert(blob.subrange(0, blob.len() as int) =~= blob);
    lemma_values_at(blob, 0, vals);
    assert(decoded(blob) =~= vals);
}

/// The entries that one key and value stage, from the normal form of the
/// key and the classes of its characters.
#[verifier::rlimit(60)]
pub fn staged_entries(norm: &[char], alnum: &[bool], space: &[bool], val: u64) -> (out: Vec<
    (Vec<char>, u64),
>)
    requires
        alnum@.len() == norm@.len(),
        space@.len() == norm@.len(),
    ensures
        pairs_of(out@) == expand_with(norm@, alnum@, space@, val),
{
    let cuts = suffix_cuts(alnum, space);
    let ghost points = break_points(alnum@, space@, norm@.len() as int);
    let mut out: Vec<(Vec<char>, u64)> = Vec::new();
    out.push((slice_to_vec(norm), val));
    let mut i: usize = 0;
    while i < cuts.len()
        invariant
            i <= cuts@.len(),
            cuts@.len() == points.len(),
            forall|k: int| 0 <= k < cuts@.len() ==> cuts@[k] as int == points[k],
            forall|k: int| 0 <= k < cuts@.len() ==> 0 < #[trigger] cuts@[k] < norm@.len(),
            out@.len() == i + 1,
            out@[0].0@ == norm@,
            out@[0].1 == val,
            forall|k: int|
                0 <= k < i ==> (#[trigger] out@[k + 1]).0@ == norm@.skip(points[k]) && out@[k + 1].1
                    == val | FLAG_PARTIAL,
        decreases cuts.len() - i,
    {
        let cut = cuts[i];
        let rest = slice_to_vec(slice_subrange(norm, cut, norm.len()));
        assert(rest@ =~= norm@.skip(cut as int));
        out.push((rest, val | FLAG_PARTIAL));
        i += 1;
    }
    proof {
        let want = expand_with(norm@, alnum@, space@, val);
        let got = pairs_of(out@);
        assert(got.len() == want.len());
        assert forall|k: int| 0 <= k < got.len() implies got[k] == want[k] by {
            if k > 0 {
                assert(out@[(k - 1) + 1].0@ == norm@.skip(points[k - 1]));
                assert(want[k] == suffix_entries(norm@, points, val)[k - 1]);
            }
        }
        assert(got =~= want);
    }
    out
}

/// Decides what a builder does with a value and a key that is already in
/// normal form: it refuses them, or stages the entries returned.
pub fn plan(finished: bool, norm: &[char], val: u64) -> (r: Result<Vec<(Vec<char>, u64)>, Error>)
    ensures
        match r {
            Ok(entries) => add_refusal(finished, norm@, val) is None && pairs_of(entries@) == expand(
                norm@,
                val,
            ),
            Err(e) => add_refusal(finished, norm@, val) == Some(e),
        },
{
    if finished {
        return Err(Error::Finished);
    }
    assert(val & !0x0FFF_FFFF_FFFF_FFFFu64 != 0 <==> val >= 0x1000_0000_0000_0000) by (bit_vector);
    if val & !DEFLAG != 0 {
        return Err(Error::Range);
    }
    if norm.len() > MAX_KEY_CHARS {
        return Err(Error::TooLarge);
    }
    let alnum = classify_alnum(norm);
    let space = classify_space(norm);
    Ok(staged_entries(norm, alnum.as_slice(), space.as_slice(), val))
}

/// Reads the values that a blob of the staging store holds. The length of
/// the blob must be a multiple of eight.
pub fn decode_values(blob: &[u8]) -> (vals: Vec<u64>)
    requires
        blob@.len() % 8 == 0,
    ensures
        vals@ == decoded(blob@),
{
    let n = blob.len() / 8;
    let mut vals: Vec<u64> = Vec::new();
    let mut i: usize = 0;
    while i < n
        invariant
            i <= n,
            n == blob@.len() / 8,
            blob@.len() % 8 == 0,
            blob@.len() == blob.len(),
            vals@.len() == i,
            forall|k: int| 0 <= k < i ==> vals@[k] == u64_at(blob@, 8 * k),
        decreases n - i,
    {
        match get_u64(blob, 8 * i) {
            Some(v) => {
                vals.push(v);
            },
            None => {
                assert(false);
            },
        }
        i += 1;
    }
    assert(vals@ =~= decoded(blob@));
    vals
}

/// A list without elements has no members, and the other way round.
pub proof fn lemma_empty_set(s: Seq<u64>)
    ensures
        s.len() == 0 <==> s.to_set() =~= Set::<u64>::empty(),
{
    if s.len() > 0 {
        assert(s.to_set().contains(s[0]));
    }
}

/// The entries that pair `key` with each of `vals`.
pub open spec fn keyed(key: Seq<char>, vals: Seq<u64>) -> Seq<(Seq<char>, u64)> {
    Seq::new(vals.len(), |i: int| (key, vals[i]))
}

/// Entries followed by the values of one key hold these values behind
/// those that the key had, and for other keys what they held.
pub proof fn lemma_values_for_keyed(entries: Seq<(Seq<char>, u64)>, key: Seq<char>, vals: Seq<u64>)
    ensures
        forall|k: Seq<char>|
            #[trigger] values_for(entries + keyed(key, vals), k) == if k == key {
                values_for(entries, k) + vals
            } else {
                values_for(entries, k)
            },
        vals.len() > 0 ==> last_key(entries + keyed(key, vals)) == key,
    decreases vals.len(),
{
    if vals.len() == 0 {
        assert(entries + keyed(key, vals) =~= entries);
        assert forall|k: Seq<char>|
            #[trigger] values_for(entries + keyed(key, vals), k) == if k == key {
                values_for(entries, k) + vals
            } else {
                values_for(entries, k)
            } by {
            assert(values_for(entries, k) + vals =~= values_for(entries, k));
        }
    } else {
        let init = vals.drop_last();
        let shorter = entries + keyed(key, init);
        lemma_values_for_keyed(entries, key, init);
        lemma_values_for_push(shorter, key, vals.last());
        assert(shorter.push((key, vals.last())) =~= entries + keyed(key, vals));
        assert forall|k: Seq<char>|
            #[trigger] values_for(entries + keyed(key, vals), k) == if k == key {
                values_for(entries, k) + vals
            } else {
                values_for(entries, k)
            } by {
            if k == key {
                assert((values_for(entries, k) + init) + seq![vals.last()] =~= values_for(entries, k)
                    + vals);
            }
        }
    }
}

/// Ascending entries stay ascending when ascending values follow under a
/// key behind all of theirs.
pub proof fn lemma_keyed_ascends(entries: Seq<(Seq<char>, u64)>, key: Seq<char>, vals: Seq<u64>)
    requires
        pairs_ascend(entries),
        forall|n: int| 0 <= n < entries.len() ==> key_lt((#[trigger] entries[n]).0, key),
        strictly_increasing(vals),
    ensures
        pairs_ascend(entries + keyed(key, vals)),
{
    let all = entries + keyed(key, vals);
    assert forall|i: int, j: int| 0 <= i < j < all.len() implies pair_lt(
        #[trigger] all[i],
        #[trigger] all[j],
    ) by {
        if j < entries.len() {
            assert(pair_lt(entries[i], entries[j]));
        } else if i < entries.len() {
            assert(key_lt(entries[i].0, key));
            assert(all[j] == keyed(key, vals)[j - entries.len()]);
        } else {
            assert(all[i] == keyed(key, vals)[i - entries.len()]);
            assert(all[j] == keyed(key, vals)[j - entries.len()]);
            assert(vals[i - entries.len()] < vals[j - entries.len()]);
        }
    }
}

/// Entries followed by values under one key weigh more by the cost of the
/// key for each value.
pub proof fn lemma_weight_keyed(entries: Seq<(Seq<char>, u64)>, key: Seq<char>, vals: Seq<u64>)
    ensures
        weight(entries + keyed(key, vals)) == weight(entries) + vals.len() * cost(key),
    decreases vals.len(),
{
    if vals.len() == 0 {
        assert(entries + keyed(key, vals) =~= entries);
    } else {
        let init = vals.drop_last();
        lemma_weight_keyed(entries, key, init);
        lemma_weight_push(entries + keyed(key, init), (key, vals.last()));
        assert((entries + keyed(key, init)).push((key, vals.last())) =~= entries + keyed(key, vals));
        assert(vals.len() * cost(key) == init.len() * cost(key) + cost(key)) by (nonlinear_arith)
            requires
                vals.len() == init.len() + 1,
        ;
    }
}

/// Ascending entries hold no entry twice.
pub proof fn lemma_ascending_distinct(entries: Seq<(Seq<char>, u64)>)
    requires
        pairs_ascend(entries),
    ensures
        entries.no_duplicates(),
{
    assert forall|i: int, j: int| 0 <= i < entries.len() && 0 <= j < entries.len() && i != j implies entries[i]
        != entries[j] by {
        crate::staging::lemma_pair_order(entries[i], entries[j], entries[i]);
        if i < j {
            assert(pair_lt(entries[i], entries[j]));
        } else {
            assert(pair_lt(entries[j], entries[i]));
        }
    }
}

/// Nothing sorts before the empty key.
pub proof fn lemma_empty_key_first(key: Seq<char>)
    ensures
        !key_lt(key, Seq::empty()),
{
    crate::staging::lemma_common_prefix_sym(key, Seq::empty());
}

/// A strictly increasing list has as many elements as members.
pub proof fn lemma_count_distinct(s: Seq<u64>)
    requires
        strictly_increasing(s),
    ensures
        s.to_set().len() == s.len(),
{
    assert(s.no_duplicates());
    s.unique_seq_to_set();
}

/// How many of the entries `more`, taken in their order, a writer that
/// holds `entries` accepts before it refuses one.
pub open spec fn accepted(entries: Seq<(Seq<char>, u64)>, more: Seq<(Seq<char>, u64)>) -> nat
    decreases more.len(),
{
    if more.len() == 0 {
        0
    } else if refusal(entries, more[0].0) is Some {
        0
    } else {
        1 + accepted(entries.push(more[0]), more.drop_first())
    }
}

/// The values of a staged blob under their key are written in ascending
/// order, each once.
pub proof fn lemma_keyed_arranged(key: Seq<char>, given: Seq<u64>, vals: Seq<u64>)
    requires
        strictly_increasing(vals),
        vals.to_set() == given.to_set(),
    ensures
        keyed(key, vals) == arrange(keyed(key, given)),
{
    let a = keyed(key, vals);
    let b = arrange(keyed(key, given));
    lemma_arrange(keyed(key, given));
    lemma_keyed_ascends(Seq::empty(), key, vals);
    assert(Seq::<(Seq<char>, u64)>::empty() + a =~= a);
    assert forall|x: (Seq<char>, u64)| a.contains(x) <==> b.contains(x) by {
        assert(b.contains(x) <==> keyed(key, given).contains(x));
        if a.contains(x) {
            let i = choose|i: int| 0 <= i < a.len() && a[i] == x;
            assert(vals.to_set().contains(vals[i]));
            assert(given.contains(vals[i]));
            let j = choose|j: int| 0 <= j < given.len() && given[j] == vals[i];
            assert(keyed(key, given)[j] == x);
        }
        if keyed(key, given).contains(x) {
            let j = choose|j: int| 0 <= j < given.len() && keyed(key, given)[j] == x;
            assert(given.to_set().contains(given[j]));
            assert(vals.contains(given[j]));
            let i = choose|i: int| 0 <= i < vals.len() && vals[i] == given[j];
            assert(a[i] == x);
        }
    }
    lemma_ascending_unique(a, b);
}

/// Writes what the staging store holds under one key: decodes the key,
/// reads the values of the blob, and hands them to the writer in ascending
/// order, each once; after each value the progress is reported if it has
/// advanced. A key that is not UTF-8 is refused before anything is
/// written; the writer's refusal of a value ends the step. The length of
/// the blob must be a multiple of eight.
#[verifier::rlimit(60)]
pub fn write_staged(
    writer: &mut Writer,
    meter: &mut Progress,
    progress: &mut Vec<u64>,
    key: &[u8],
    blob: &[u8],
) -> (r: Result<(), Error>)
    requires
        old(writer).wf(),
        old(meter).wf(),
        blob@.len() % 8 == 0,
    ensures
        final(writer).wf(),
        final(writer).handed() == old(writer).handed(),
        final(meter).wf(),
        final(meter).total() == old(meter).total(),
        final(progress)@.len() >= old(progress)@.len(),
        final(progress)@.take(old(progress)@.len() as int) == old(progress)@,
        reports(final(meter).processed(), final(meter).total()) == reports(
            old(meter).processed(),
            old(meter).total(),
        ) + final(progress)@.skip(old(progress)@.len() as int),
        !valid_utf8(key@) ==> r == Err::<(), Error>(Error::Utf8) && final(writer)@ == old(writer)@
            && final(writer).entries() == old(writer).entries() && final(meter).processed() == old(
            meter,
        ).processed(),
        valid_utf8(key@) ==> ({
            let more = arrange(keyed(decode_utf8(key@), decoded(blob@)));
            let n = accepted(old(writer).entries(), more);
            &&& n <= more.len()
            &&& final(writer).entries() == old(writer).entries() + more.take(n as int)
            &&& final(writer)@ == after_all(old(writer)@, more.take(n as int))
            &&& final(meter).processed() == capped((old(meter).processed() + n) as int)
            &&& r == if n == more.len() {
                Ok::<(), Error>(())
            } else {
                Err::<(), Error>(refusal(final(writer).entries(), decode_utf8(key@))->0)
            }
        }),
{
    proof {
        meter.lemma_processed_fits();
        assert(progress@.take(progress@.len() as int) =~= progress@);
        assert(reports(meter.processed(), meter.total()) + progress@.skip(progress@.len() as int)
            =~= reports(meter.processed(), meter.total()));
    }
    let text = match utf8_text(key) {
        Some(s) => chars_of(s),
        None => {
            return Err(Error::Utf8);
        },
    };
    let vals = sorted_unique(decode_values(blob));
    let ghost k = decode_utf8(key@);
    let ghost more = arrange(keyed(k, decoded(blob@)));
    let ghost first = writer.entries();
    proof {
        lemma_keyed_arranged(k, decoded(blob@), vals@);
        assert(first + more.take(0) =~= first);
        assert(more.skip(0) =~= more);
    }
    let mut j: usize = 0;
    while j < vals.len()
        invariant
            j <= vals@.len(),
            text@ == k,
            valid_utf8(key@),
            k == decode_utf8(key@),
            writer.handed() == old(writer).handed(),
            more == arrange(keyed(k, decoded(blob@))),
            more == keyed(k, vals@),
            writer.wf(),
            meter.wf(),
            meter.total() == old(meter).total(),
            old(meter).processed() <= u64::MAX,
            meter.processed() == capped((old(meter).processed() + j) as int),
            writer.entries() == first + more.take(j as int),
            first == old(writer).entries(),
            writer@ == after_all(old(writer)@, more.take(j as int)),
            accepted(first, more) == j + accepted(writer.entries(), more.skip(j as int)),
            progress@.len() >= old(progress)@.len(),
            progress@.take(old(progress)@.len() as int) == old(progress)@,
            reports(meter.processed(), meter.total()) == reports(
                old(meter).processed(),
                old(meter).total(),
            ) + progress@.skip(old(progress)@.len() as int),
        decreases vals.len() - j,
    {
        let ghost now = writer.entries();
        let ghost rest = more.skip(j as int);
        proof {
            assert(rest[0] == more[j as int]);
            assert(more[j as int] == (k, vals@[j as int]));
            assert(rest.drop_first() =~= more.skip(j + 1));
        }
        match writer.insert(text.as_slice(), vals[j]) {
            Ok(()) => {},
            Err(e) => {
                proof {
                    assert(accepted(now, rest) == 0);
                    assert(accepted(first, more) == j);
                }
                return Err(e);
            },
        }
        proof {
            assert(accepted(now, rest) == 1 + accepted(now.push(rest[0]), rest.drop_first()));
            assert(now.push(more[j as int]) =~= first + more.take(j + 1));
            assert(more.take(j + 1).drop_last() =~= more.take(j as int));
            assert(more.take(j + 1).last() == more[j as int]);
        }
        let ghost seen = progress@;
        match meter.advance() {
            Some(p) => {
                progress.push(p);
                assert(progress@.take(old(progress)@.len() as int) =~= seen.take(
                    old(progress)@.len() as int,
                ));
                assert(progress@.skip(old(progress)@.len() as int) =~= seen.skip(
                    old(progress)@.len() as int,
                ).push(p));
                assert((reports(old(meter).processed(), old(meter).total()) + seen.skip(
                    old(progress)@.len() as int,
                )).push(p) =~= reports(old(meter).processed(), old(meter).total()) + seen.skip(
                    old(progress)@.len() as int,
                ).push(p));
            },
            None => {},
        }
        j += 1;
    }
    proof {
        assert(more.take(j as int) =~= more);
        assert(more.skip(j as int).len() == 0);
    }
    Ok(())
}

/// A builder of an index.
pub struct Builder {
    staging: Staging,
    len: u64,
    finished: bool,
    merges: Ghost<Seq<(Seq<char>, u64)>>,
}

impl Builder {
    /// Everything staged so far: the keys are normalised keys and their
    /// suffixes, the values of suffixes are flagged.
    pub closed spec fn merges(&self) -> Seq<(Seq<char>, u64)> {
        self.merges@
    }

    /// Whether the index was built.
    pub closed spec fn finished(&self) -> bool {
        self.finished
    }

    /// Whether the staging store holds, key by key, the values that were
    /// staged.
    pub closed spec fn wf(&self) -> bool {
        &&& self.staging.wf()
        &&& forall|k: Seq<char>|
            #[trigger] blob_of(self.staging@, k) == encode_values(values_for(self.merges@, k))
        &&& forall|k: Seq<char>|
            #[trigger] is_staged(self.staging@, k) <==> values_for(self.merges@, k).len() > 0
        &&& forall|k: Seq<char>| #[trigger] is_staged(self.staging@, k) ==> k.len() <= MAX_KEY_CHARS
        &&& flagged(self.merges@)
        &&& self.len as int == if self.merges@.len() <= u64::MAX {
            self.merges@.len() as int
        } else {
            u64::MAX as int
        }
    }

    /// A builder that holds nothing yet.
    pub fn new() -> (b: Builder)
        ensures
            b.wf(),
            !b.finished(),
            b.merges() == Seq::<(Seq<char>, u64)>::empty(),
            flagged(b.merges()),
    {
        let b = Builder { staging: Staging::new(), len: 0, finished: false, merges: Ghost(Seq::empty()) };
        proof {
            assert forall|k: Seq<char>|
                #[trigger] blob_of(b.staging@, k) == encode_values(values_for(b.merges@, k)) by {
                assert(!is_staged(b.staging@, k));
            }
        }
        b
    }

    /// Stages one value under one key.
    #[verifier::rlimit(60)]
    fn merge(&mut self, key: &[char], val: u64)
        requires
            old(self).wf(),
            key@.len() <= MAX_KEY_CHARS,
            val < 0x2000_0000_0000_0000,
        ensures
            final(self).wf(),
            final(self).finished == old(self).finished,
            final(self).merges@ == old(self).merges@.push((key@, val)),
    {
        let ghost before = self.merges@;
        let mut bytes: Vec<u8> = Vec::new();
        put_u64(&mut bytes, val);
        assert(bytes@ =~= be64(val));
        self.staging.merge(key, bytes.as_slice());
        if self.len < u64::MAX {
            self.len = self.len + 1;
        }
        self.merges = Ghost(before.push((key@, val)));
        proof {
            lemma_values_for_push(before, key@, val);
            assert forall|k: Seq<char>|
                #[trigger] blob_of(self.staging@, k) == encode_values(values_for(self.merges@, k)) by {
                if k == key@ {
                    let vals = values_for(before, k);
                    assert(vals + seq![val] =~= vals.push(val));
                    assert(vals.push(val).drop_last() =~= vals);
                }
            }
            assert forall|k: Seq<char>|
                #[trigger] is_staged(self.staging@, k) <==> values_for(self.merges@, k).len() > 0 by {
                assert(is_staged(old(self).staging@, k) <==> values_for(before, k).len() > 0);
            }
            assert forall|k: Seq<char>| #[trigger] is_staged(self.staging@, k) implies k.len()
                <= MAX_KEY_CHARS by {
                if k != key@ {
                    assert(is_staged(old(self).staging@, k));
                }
            }
        }
    }

    /// Stages `val` under a key that is already in normal form, and, with
    /// the suffix flag, under each of its word-boundary suffixes.
    #[verifier::rlimit(60)]
    pub fn stage(&mut self, norm: &[char], val: u64) -> (r: Result<(), Error>)
        requires
            old(self).wf(),
        ensures
            final(self).wf(),
            flagged(final(self).merges()),
            final(self).finished() == old(self).finished(),
            r == match add_refusal(old(self).finished(), norm@, val) {
                Some(e) => Err::<(), Error>(e),
                None => Ok::<(), Error>(()),
            },
            final(self).merges() == if r is Ok {
                old(self).merges() + expand(norm@, val)
            } else {
                old(self).merges()
            },
    {
        let entries = match plan(self.finished, norm, val) {
            Ok(entries) => entries,
            Err(e) => {
                return Err(e);
            },
        };
        let ghost all = expand(norm@, val);
        let ghost before = self.merges@;
        let mut i: usize = 0;
        assert(before + all.take(0) =~= before);
        while i < entries.len()
            invariant
                i <= entries@.len(),
                self.wf(),
                self.finished == old(self).finished,
                norm@.len() <= MAX_KEY_CHARS,
                val < 0x1000_0000_0000_0000,
                pairs_of(entries@) == all,
                all == expand(norm@, val),
                self.merges@ == before + all.take(i as int),
            decreases entries.len() - i,
        {
            let key = &entries[i].0;
            let v = entries[i].1;
            proof {
                let points = break_points(alnum_flags(norm@), space_flags(norm@), norm@.len() as int);
                let tail = suffix_entries(norm@, points, val);
                assert(pairs_of(entries@).len() == entries@.len());
                assert(all == seq![(norm@, val)] + tail);
                assert(all.len() == 1 + points.len());
                assert(pairs_of(entries@)[i as int] == (key@, v));
                assert(all[i as int] == (key@, v));
                if i > 0 {
                    assert(all[i as int] == tail[i - 1]);
                    lemma_break_points(alnum_flags(norm@), space_flags(norm@), norm@.len() as int, i - 1);
                }
                assert(key@.len() <= norm@.len());
                assert(val < 0x1000_0000_0000_0000 ==> val | 0x1000_0000_0000_0000u64
                    < 0x2000_0000_0000_0000) by (bit_vector);
                assert(v < 0x2000_0000_0000_0000);
                assert((before + all.take(i as int)).push(all[i as int]) =~= before + all.take(i + 1));
            }
            self.merge(key.as_slice(), v);
            i += 1;
        }
        assert(all.take(i as int) =~= all);
        Ok(())
    }

    /// Stages `val` under the normal form of `key`, and, with the suffix
    /// flag, under each of its word-boundary suffixes.
    pub fn add(&mut self, key: &str, val: u64) -> (r: Result<(), Error>)
        requires
            old(self).wf(),
        ensures
            final(self).wf(),
            flagged(final(self).merges()),
            final(self).finished() == old(self).finished(),
            r == match add_refusal(old(self).finished(), normal_form(key@), val) {
                Some(e) => Err::<(), Error>(e),
                None => Ok::<(), Error>(()),
            },
            final(self).merges() == if r is Ok {
                old(self).merges() + expand(normal_form(key@), val)
            } else {
                old(self).merges()
            },
    {
        if self.finished {
            return Err(Error::Finished);
        }
        assert(val & !0x0FFF_FFFF_FFFF_FFFFu64 != 0 <==> val >= 0x1000_0000_0000_0000) by (bit_vector);
        if val & !DEFLAG != 0 {
            return Err(Error::Range);
        }
        let norm = normalize(key);
        self.stage(norm.as_slice(), val)
    }

    /// Hands the values of one key to the writer and reports the progress.
    #[verifier::rlimit(60)]
    fn feed(
        writer: &mut Writer,
        meter: &mut Progress,
        progress: &mut Vec<u64>,
        key: &[char],
        vals: &Vec<u64>,
        Ghost(base): Ghost<Seq<u64>>,
    )
        requires
            old(writer).wf(),
            old(meter).wf(),
            1 <= vals@.len() <= u32::MAX,
            key@.len() <= MAX_KEY_CHARS,
            !key_lt(key@, last_key(old(writer).entries())),
            values_for(old(writer).entries(), key@).len() == 0,
            weight(old(writer).entries()) + vals@.len() * cost(key@) <= MAX_WEIGHT,
            old(progress)@ == base + reports(old(meter).processed(), old(meter).total()),
        ensures
            final(writer).wf(),
            final(writer).handed() == old(writer).handed(),
            final(meter).wf(),
            final(meter).total() == old(meter).total(),
            final(meter).processed() == capped((old(meter).processed() + vals@.len()) as int),
            final(writer).entries() == old(writer).entries() + keyed(key@, vals@),
            final(writer)@ == after_all(old(writer)@, keyed(key@, vals@)),
            final(progress)@ == base + reports(final(meter).processed(), final(meter).total()),
    {
        let ghost first = writer.entries();
        let mut j: usize = 0;
        assert(first + keyed(key@, vals@.take(0)) =~= first);
        proof {
            meter.lemma_processed_fits();
        }
        while j < vals.len()
            invariant
                j <= vals@.len(),
                vals@.len() <= u32::MAX,
                key@.len() <= MAX_KEY_CHARS,
                writer.wf(),
                meter.wf(),
                meter.total() == old(meter).total(),
                meter.processed() == capped((old(meter).processed() + j) as int),
                !key_lt(key@, last_key(first)),
                values_for(first, key@).len() == 0,
                writer.entries() == first + keyed(key@, vals@.take(j as int)),
                writer@ == after_all(old(writer)@, keyed(key@, vals@.take(j as int))),
                writer.handed() == old(writer).handed(),
                weight(writer.entries()) + (vals@.len() - j) * cost(key@) <= MAX_WEIGHT,
                progress@ == base + reports(meter.processed(), meter.total()),
            decreases vals.len() - j,
        {
            let ghost now = writer.entries();
            proof {
                lemma_values_for_keyed(first, key@, vals@.take(j as int));
                lemma_key_order_total(key@, key@);
                assert(values_for(first, key@) =~= Seq::<u64>::empty());
                assert(values_for(now, key@) =~= vals@.take(j as int));
                assert((vals@.len() - j) * cost(key@) == (vals@.len() - j - 1) * cost(key@) + cost(key@))
                    by (nonlinear_arith);
                assert((vals@.len() - j - 1) * cost(key@) >= 0) by (nonlinear_arith)
                    requires
                        vals@.len() - j - 1 >= 0,
                        cost(key@) >= 0,
                ;
                lemma_weight_push(now, (key@, vals@[j as int]));
                assert(refusal(now, key@) is None);
            }
            match writer.insert(key, vals[j]) {
                Ok(()) => {},
                Err(_) => {
                    assert(false);
                },
            }
            proof {
                assert(now.push((key@, vals@[j as int])) =~= first + keyed(key@, vals@.take(j + 1)));
                assert(keyed(key@, vals@.take(j + 1)).drop_last() =~= keyed(key@, vals@.take(j as int)));
                assert(keyed(key@, vals@.take(j + 1)).last() == (key@, vals@[j as int]));
            }
            let ghost seen = reports(meter.processed(), meter.total());
            match meter.advance() {
                Some(p) => {
                    progress.push(p);
                    assert(reports(meter.processed(), meter.total()) == seen.push(p));
                    assert((base + seen).push(p) =~= base + seen.push(p));
                },
                None => {},
            }
            j += 1;
        }
        assert(vals@.take(j as int) =~= vals@);
    }

    /// Writes the index of everything staged. Appends to `progress`, each
    /// time it advances, how far the build has come in thousandths of the
    /// number of values staged. The builder accepts nothing afterwards.
    #[verifier::rlimit(60)]
    pub fn build(&mut self, progress: &mut Vec<u64>) -> (r: Result<Vec<u8>, Error>)
        requires
            old(self).wf(),
        ensures
            final(self).wf(),
            final(self).finished(),
            final(self).merges() == old(self).merges(),
            r is Ok <==> fits(old(self).merges()),
            r matches Ok(file) ==> indexes(file@, old(self).merges()) && file@ == index_of(
                arrange(old(self).merges()),
            ) && file@.len() <= 16 + weight(arrange(old(self).merges())),
            r matches Err(e) ==> e == Error::TooLarge,
            flagged(final(self).merges()),
            r is Ok ==> final(progress)@ == old(progress)@ + reports(
                written_total(old(self).merges()),
                staged_total(old(self).merges()),
            ),
            exists|n: nat|
                final(progress)@ == old(progress)@ + #[trigger] reports(
                    n,
                    staged_total(old(self).merges()),
                ),
    {
        self.finished = true;
        let ghost merges = self.merges@;
        let ghost staged = self.staging@;
        let ghost base = progress@;
        let ghost total = staged_total(merges);
        let mut writer = Writer::new();
        let mut meter = Progress::new(self.len);
        let mut i: usize = 0;
        assert(progress@ =~= base + reports(0, total));
        assert forall|k: Seq<char>| #[trigger] values_for(writer.entries(), k).len() == 0 by {}
        while i < self.staging.len()
            invariant
                i <= staged.len(),
                self.wf(),
                self.finished,
                self.merges@ == merges,
                merges == old(self).merges@,
                base == old(progress)@,
                total == staged_total(merges),
                self.staging@ == staged,
                writer.wf(),
                writer.handed() == Seq::<u8>::empty(),
                writer@ == after_all(fresh(), writer.entries()),
                pairs_ascend(writer.entries()),
                forall|n: int|
                    0 <= n < writer.entries().len() ==> staged_before(
                        staged,
                        i as int,
                        (#[trigger] writer.entries()[n]).0,
                    ),
                meter.wf(),
                meter.total() == total,
                meter.processed() == capped(writer.entries().len() as int),
                progress@ == base + reports(meter.processed(), total),
                i == 0 ==> writer.entries().len() == 0,
                i > 0 ==> writer.entries().len() > 0 && last_key(writer.entries()) == staged[i - 1].0,
                forall|k: Seq<char>| strictly_increasing(#[trigger] values_for(writer.entries(), k)),
                forall|k: Seq<char>|
                    (#[trigger] values_for(writer.entries(), k)).to_set() == if staged_before(
                        staged,
                        i as int,
                        k,
                    ) {
                        values_for(merges, k).to_set()
                    } else {
                        Set::<u64>::empty()
                    },
                forall|n: int|
                    0 <= n < i ==> values_for(merges, (#[trigger] staged[n]).0).to_set().len()
                        <= u32::MAX,
            decreases staged.len() - i,
        {
            let key = self.staging.key(i);
            let blob = self.staging.blob(i);
            let ghost entries = writer.entries();
            let ghost given = values_for(merges, key@);
            proof {
                lemma_blob_at(staged, i as int);
                lemma_decoded(given);
                assert(is_staged(staged, key@));
                assert(!staged_before(staged, i as int, key@)) by {
                    if staged_before(staged, i as int, key@) {
                        let n = choose|n: int| 0 <= n < i && (#[trigger] staged[n]).0 == key@;
                        lemma_key_order_total(staged[n].0, staged[i as int].0);
                    }
                }
                lemma_empty_set(values_for(entries, key@));
                lemma_empty_set(given);
                if i > 0 {
                    lemma_key_order_total(staged[i - 1].0, key@);
                } else {
                    assert(last_key(entries) =~= Seq::<char>::empty());
                    lemma_empty_key_first(key@);
                }
            }
            let vals = sorted_unique(decode_values(blob.as_slice()));
            proof {
                lemma_count_distinct(vals@);
                lemma_empty_set(vals@);
            }
            if vals.len() > u32::MAX as usize {
                assert(progress@ == old(progress)@ + reports(
                    meter.processed(),
                    staged_total(old(self).merges()),
                ));
                return Err(Error::TooLarge);
            }
            proof {
                assert forall|n: int| 0 <= n < entries.len() implies key_lt(
                    (#[trigger] entries[n]).0,
                    key@,
                ) by {
                    let m = choose|m: int| 0 <= m < i && (#[trigger] staged[m]).0 == entries[n].0;
                    assert(key_lt(staged[m].0, staged[i as int].0));
                }
                lemma_keyed_ascends(entries, key@, vals@);
                lemma_weight_keyed(entries, key@, vals@);
                assert(key@.len() <= MAX_KEY_CHARS);
                assert(vals@.len() * cost(key@) <= 0xFFFF_FFFF * (48 + 4 * 0x3FFF_FFFF)) by (nonlinear_arith)
                    requires
                        0 <= vals@.len() <= 0xFFFF_FFFF,
                        0 <= cost(key@) <= 48 + 4 * 0x3FFF_FFFF,
                ;
            }
            let price: u128 = 48 + 4 * (key.len() as u128);
            if writer.weight() as u128 + (vals.len() as u128) * price > MAX_WEIGHT as u128 {
                proof {
                    let all = entries + keyed(key@, vals@);
                    lemma_ascending_distinct(all);
                    lemma_arrange(merges);
                    assert forall|n: int| 0 <= n < all.len() implies arrange(merges).contains(
                        #[trigger] all[n],
                    ) by {
                        let pair = all[n];
                        if n < entries.len() {
                            assert(entries.contains(pair));
                            lemma_values_for_member(entries, pair.0, pair.1);
                            assert(values_for(entries, pair.0).to_set().contains(pair.1));
                            assert(staged_before(staged, i as int, pair.0));
                            assert(values_for(merges, pair.0).to_set().contains(pair.1));
                        } else {
                            assert(pair == keyed(key@, vals@)[n - entries.len()]);
                            assert(vals@.to_set().contains(pair.1));
                            assert(given.to_set().contains(pair.1));
                        }
                        lemma_values_for_member(merges, pair.0, pair.1);
                        assert(merges.contains(pair));
                    }
                    lemma_weight_subset(all, arrange(merges));
                }
                assert(progress@ == old(progress)@ + reports(
                    meter.processed(),
                    staged_total(old(self).merges()),
                ));
                return Err(Error::TooLarge);
            }
            Self::feed(&mut writer, &mut meter, progress, key.as_slice(), &vals, Ghost(base));
            proof {
                lemma_values_for_keyed(entries, key@, vals@);
                let after = writer.entries();
                lemma_after_all_concat(fresh(), entries, keyed(key@, vals@));
                assert forall|n: int| 0 <= n < after.len() implies staged_before(
                    staged,
                    i + 1,
                    (#[trigger] after[n]).0,
                ) by {
                    if n < entries.len() {
                        let m = choose|m: int| 0 <= m < i && (#[trigger] staged[m]).0 == entries[n].0;
                        assert(staged[m].0 == after[n].0);
                    } else {
                        assert(after[n] == keyed(key@, vals@)[n - entries.len()]);
                        assert(staged[i as int].0 == after[n].0);
                    }
                }
                assert forall|k: Seq<char>| strictly_increasing(#[trigger] values_for(after, k)) by {
                    if k == key@ {
                        assert(values_for(entries, k) =~= Seq::<u64>::empty());
                        assert(values_for(after, k) =~= vals@);
                    }
                }
                assert forall|k: Seq<char>|
                    (#[trigger] values_for(after, k)).to_set() == if staged_before(staged, i + 1, k) {
                        values_for(merges, k).to_set()
                    } else {
                        Set::<u64>::empty()
                    } by {
                    if k == key@ {
                        assert(values_for(entries, k) =~= Seq::<u64>::empty());
                        assert(values_for(after, k) =~= vals@);
                        assert(staged[i as int].0 == k);
                    } else {
                        if staged_before(staged, i + 1, k) {
                            let n = choose|n: int| 0 <= n < i + 1 && (#[trigger] staged[n]).0 == k;
                            assert(n < i);
                        }
                        if staged_before(staged, i as int, k) {
                            let n = choose|n: int| 0 <= n < i && (#[trigger] staged[n]).0 == k;
                            assert(staged[n].0 == k);
                        }
                    }
                }
            }
            i += 1;
        }
        let ghost entries = writer.entries();
        proof {
            writer.lemma_weight_fits();
        }
        let ghost done = writer@;
        let file = writer.finish();
        assert(Seq::<u8>::empty() + file@ =~= file@);
        assert(file@ == crate::spine::sealed(done));
        assert(progress@ == old(progress)@ + reports(
            meter.processed(),
            staged_total(old(self).merges()),
        ));
        proof {
            lemma_entries_distinct(entries);
            entries.unique_seq_to_set();
            assert forall|pair: (Seq<char>, u64)| entries.to_set().contains(pair) <==> merges.to_set().contains(
                pair,
            ) by {
                lemma_values_for_member(entries, pair.0, pair.1);
                lemma_values_for_member(merges, pair.0, pair.1);
                if staged_before(staged, staged.len() as int, pair.0) {
                } else {
                    if is_staged(staged, pair.0) {
                        let n = choose|n: int| 0 <= n < staged.len() && (#[trigger] staged[n]).0 == pair.0;
                        assert(staged[n].0 == pair.0);
                    }
                    lemma_empty_set(values_for(merges, pair.0));
                }
                assert(values_for(entries, pair.0).to_set().contains(pair.1) <==> values_for(
                    merges,
                    pair.0,
                ).to_set().contains(pair.1));
            }
            assert(entries.to_set() =~= merges.to_set());
            lemma_arrange(merges);
            assert forall|x: (Seq<char>, u64)| entries.contains(x) <==> arrange(merges).contains(x) by {
                assert(entries.to_set().contains(x) <==> merges.to_set().contains(x));
            }
            lemma_ascending_unique(entries, arrange(merges));
        }
        proof {
            assert forall|k: Seq<char>|
                (#[trigger] values_for(merges, k)).to_set().len() <= u32::MAX && values_for(
                    entries,
                    k,
                ).to_set() == values_for(merges, k).to_set() by {
                if staged_before(staged, staged.len() as int, k) {
                    let n = choose|n: int| 0 <= n < staged.len() && (#[trigger] staged[n]).0 == k;
                    assert(staged[n].0 == k);
                } else {
                    if is_staged(staged, k) {
                        let n = choose|n: int| 0 <= n < staged.len() && (#[trigger] staged[n]).0 == k;
                        assert(staged[n].0 == k);
                    }
                    lemma_empty_set(values_for(merges, k));
                }
            }
            assert forall|k: Seq<char>|
                strictly_increasing(#[trigger] stored(file@, root_of(file@)->Ok_0, k)) && stored(
                    file@,
                    root_of(file@)->Ok_0,
                    k,
                ).to_set() == values_for(merges, k).to_set() by {
                assert(stored(file@, root_of(file@)->Ok_0, k) == values_for(entries, k));
            }
        }
        Ok(file)
    }
}

/// Every break point lies inside the key.
pub proof fn lemma_break_points(alnum: Seq<bool>, space: Seq<bool>, upto: int, k: int)
    requires
        0 <= k < break_points(alnum, space, upto).len(),
    ensures
        0 < break_points(alnum, space, upto)[k] < upto,
        break_points(alnum, space, upto)[k] < alnum.len(),
    decreases upto,
{
    if upto > 0 {
        let before = break_points(alnum, space, upto - 1);
        if k < before.len() {
            lemma_break_points(alnum, space, upto - 1, k);
        }
    }
}

/// The number of values staged, as far as the builder counts.
pub open spec fn staged_total(merges: Seq<(Seq<char>, u64)>) -> int {
    if merges.len() <= u64::MAX {
        merges.len() as int
    } else {
        u64::MAX as int
    }
}

/// A count as far as 64 bits hold it.
pub open spec fn capped(n: int) -> nat {
    if n <= u64::MAX {
        n as nat
    } else {
        u64::MAX as nat
    }
}

/// The number of entries that a build writes: the distinct pairs of what
/// was staged, as far as 64 bits count them.
pub open spec fn written_total(merges: Seq<(Seq<char>, u64)>) -> nat {
    capped(merges.to_set().len() as int)
}

/// Whether `key` is one of the first `n` staged keys.
pub open spec fn staged_before(staged: Seq<(Seq<char>, Seq<u8>)>, n: int, key: Seq<char>) -> bool {
    exists|i: int| 0 <= i < n && (#[trigger] staged[i]).0 == key
}

} // verus!
