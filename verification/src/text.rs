//! Keys as sequences of characters: normal form, character classes, order,
//! prefixes, whitespace-separated tokens and word breaks.

use vstd::prelude::*;
use vstd::std_specs::iter::IteratorSpec;

verus! {

broadcast use vstd::string::group_string_axioms;

/// The lowercase form that `str::to_lowercase` gives a text.
pub uninterp spec fn lowercase(s: Seq<char>) -> Seq<char>;

/// Whether `char::is_whitespace` holds of a character.
pub uninterp spec fn whitespace(c: char) -> bool;

/// Whether `char::is_alphanumeric` holds of a character.
pub uninterp spec fn alphanumeric(c: char) -> bool;

/// Calls `str::to_lowercase` on the text that `text` spells. The result is the
/// Unicode lowercase form of the whole text, and depends on nothing else.
#[verifier::external_body]
fn to_lowercase(text: &[char]) -> (lower: Vec<char>)
    ensures
        lower@ == lowercase(text@),
{
    let owned: String = text.iter().collect();
    owned.to_lowercase().chars().collect()
}

/// Calls `char::is_whitespace`, which tests the Unicode `White_Space` property.
#[verifier::external_body]
fn char_is_whitespace(c: char) -> (r: bool)
    ensures
        r == whitespace(c),
{
    c.is_whitespace()
}

/// Calls `char::is_alphanumeric`, which tests the Unicode `Alphabetic` property
/// and the number categories.
#[verifier::external_body]
fn char_is_alphanumeric(c: char) -> (r: bool)
    ensures
        r == alphanumeric(c),
{
    c.is_alphanumeric()
}

/// The characters of a text, one by one.
pub fn chars_of(s: &str) -> (v: Vec<char>)
    ensures
        v@ == s@,
{
    let mut v: Vec<char> = Vec::new();
    let mut it = s.chars();
    loop
        invariant_except_break
            v@ + it.remaining() == s@,
            it.decrease() is Some,
        ensures
            v@ == s@,
        decreases it.decrease()->0,
    {
        let next = it.next();
        match next {
            Some(c) => {
                v.push(c);
                assert(v@ + it.remaining() =~= s@);
            },
            None => {
                assert(v@ + it.remaining() =~= v@);
                break;
            },
        }
    }
    v
}

/// Whether every character of `text` is an ASCII character.
pub open spec fn is_ascii_text(text: Seq<char>) -> bool {
    forall|i: int| 0 <= i < text.len() ==> (#[trigger] text[i] as u32) < 0x80
}

/// The lowercase form of an ASCII character: the letters `A` to `Z` become
/// `a` to `z`, every other character stays.
pub open spec fn ascii_lower(c: char) -> char {
    if 0x41 <= c as u32 <= 0x5A {
        ((c as u32 + 0x20) as u8) as char
    } else {
        c
    }
}

/// The canonical form of a text: its lowercase form. For ASCII text that
/// is the text with its capital letters replaced; for any other text it is
/// the lowercase form that `str::to_lowercase` gives.
pub open spec fn normal_form(text: Seq<char>) -> Seq<char> {
    if is_ascii_text(text) {
        Seq::new(text.len(), |i: int| ascii_lower(text[i]))
    } else {
        lowercase(text)
    }
}

/// The lowercase form of an ASCII character is an ASCII character that
/// has no other lowercase form than itself.
pub proof fn lemma_ascii_lower(c: char)
    requires
        (c as u32) < 0x80,
    ensures
        (ascii_lower(c) as u32) < 0x80,
        ascii_lower(ascii_lower(c)) == ascii_lower(c),
        !(0x41 <= ascii_lower(c) as u32 <= 0x5A),
{
    if 0x41 <= c as u32 <= 0x5A {
        let low = (c as u32 + 0x20) as u8;
        assert(low as char as u32 == low as u32);
    }
}

/// Idempotence: the canonical form of ASCII text is its own canonical
/// form.
pub proof fn law_normal_form_is_stable(text: Seq<char>)
    requires
        is_ascii_text(text),
    ensures
        is_ascii_text(normal_form(text)),
        normal_form(normal_form(text)) == normal_form(text),
{
    let once = normal_form(text);
    assert forall|i: int| 0 <= i < once.len() implies (#[trigger] once[i] as u32) < 0x80 by {
        lemma_ascii_lower(text[i]);
    }
    assert forall|i: int| 0 <= i < once.len() implies normal_form(once)[i] == once[i] by {
        lemma_ascii_lower(text[i]);
    }
    assert(normal_form(once) =~= once);
}

/// Every prefix of the canonical form of ASCII text is in canonical form.
pub proof fn law_prefix_of_normal_form(text: Seq<char>, p: Seq<char>)
    requires
        is_ascii_text(text),
        is_prefix(p, normal_form(text)),
    ensures
        normal_form(p) == p,
{
    let whole = normal_form(text);
    assert forall|i: int| 0 <= i < p.len() implies (#[trigger] p[i] as u32) < 0x80 && ascii_lower(p[i])
        == p[i] by {
        lemma_ascii_lower(text[i]);
        assert(p[i] == whole.take(p.len() as int)[i]);
        assert(whole[i] == ascii_lower(text[i]));
    }
    assert(normal_form(p) =~= p);
}

/// Every piece of the canonical form of ASCII text is in canonical form.
pub proof fn law_piece_of_normal_form(text: Seq<char>, from: int, to: int)
    requires
        is_ascii_text(text),
        0 <= from <= to <= text.len(),
    ensures
        normal_form(normal_form(text).subrange(from, to)) == normal_form(text).subrange(from, to),
{
    let piece = normal_form(text).subrange(from, to);
    assert forall|i: int| 0 <= i < piece.len() implies (#[trigger] piece[i] as u32) < 0x80 && ascii_lower(
        piece[i],
    ) == piece[i] by {
        lemma_ascii_lower(text[from + i]);
        assert(piece[i] == ascii_lower(text[from + i]));
    }
    assert(normal_form(piece) =~= piece);
}

/// Whether `word` stands in `text` at `at` as a word: none of its
/// characters is flagged, and it starts the text or follows a flagged
/// character.
pub open spec fn word_at(text: Seq<char>, space: Seq<bool>, word: Seq<char>, at: int) -> bool {
    &&& 0 <= at
    &&& word.len() > 0
    &&& at + word.len() <= text.len()
    &&& text.subrange(at, at + word.len()) == word
    &&& !space[at]
    &&& (at == 0 || space[at - 1])
}

/// Whether `word` stands in `text` as a word at some place.
pub open spec fn stands(text: Seq<char>, space: Seq<bool>, word: Seq<char>) -> bool {
    exists|at: int| word_at(text, space, word, at)
}

/// Every word of a text stands in it as a word, and a text that ends
/// unflagged ends with its last word.
pub proof fn lemma_words_stand(text: Seq<char>, space: Seq<bool>)
    requires
        space.len() == text.len(),
    ensures
        forall|j: int|
            0 <= j < words(text, space).len() ==> stands(text, space, #[trigger] words(text, space)[j]),
        text.len() > 0 && !space.last() ==> words(text, space).len() > 0 && exists|at: int|
            word_at(text, space, words(text, space).last(), at) && at + words(text, space).last().len()
                == text.len(),
    decreases text.len(),
{
    if text.len() > 0 {
        let init = text.drop_last();
        let flags = space.drop_last();
        let before = words(init, flags);
        let now = words(text, space);
        let n = text.len() - 1;
        lemma_words_stand(init, flags);
        assert forall|j: int, at: int| 0 <= j < before.len() && word_at(init, flags, before[j], at) implies word_at(
            text,
            space,
            before[j],
            at,
        ) by {
            assert(text.subrange(at, at + before[j].len()) =~= init.subrange(at, at + before[j].len()));
        }
        if space.last() {
            assert forall|j: int| 0 <= j < now.len() implies stands(text, space, #[trigger] now[j]) by {
                assert(stands(init, flags, before[j]));
                let at = choose|at: int| word_at(init, flags, before[j], at);
                assert(word_at(text, space, before[j], at));
            }
        } else if text.len() >= 2 && !space[space.len() - 2] && before.len() > 0 {
            assert(flags.last() == space[space.len() - 2]);
            let at = choose|at: int|
                word_at(init, flags, before.last(), at) && at + before.last().len() == init.len();
            let longer = before.last().push(text.last());
            assert(text.subrange(at, at + longer.len()) =~= longer) by {
                assert(init.subrange(at, at + before.last().len()) == before.last());
            }
            assert(word_at(text, space, longer, at));
            assert(now.last() == longer);
            assert forall|j: int| 0 <= j < now.len() implies stands(text, space, #[trigger] now[j]) by {
                if j < now.len() - 1 {
                    assert(now[j] == before[j]);
                    assert(stands(init, flags, before[j]));
                    let a = choose|a: int| word_at(init, flags, before[j], a);
                    assert(word_at(text, space, before[j], a));
                } else {
                    assert(word_at(text, space, now[j], at));
                }
            }
        } else {
            let single = seq![text.last()];
            assert(text.subrange(n, n + 1) =~= single);
            if n > 0 {
                assert(flags.last() == space[n - 1]);
            }
            assert(word_at(text, space, single, n));
            assert(now.last() == single);
            assert forall|j: int| 0 <= j < now.len() implies stands(text, space, #[trigger] now[j]) by {
                if j < now.len() - 1 {
                    assert(now[j] == before[j]);
                    assert(stands(init, flags, before[j]));
                    let a = choose|a: int| word_at(init, flags, before[j], a);
                    assert(word_at(text, space, before[j], a));
                } else {
                    assert(word_at(text, space, now[j], n));
                }
            }
        }
    }
}

/// The lowercase form of an ASCII character.
fn lower_ascii_char(c: char) -> (r: char)
    requires
        (c as u32) < 0x80,
    ensures
        r == ascii_lower(c),
{
    let code = c as u32;
    if 0x41 <= code && code <= 0x5A {
        ((code + 0x20) as u8) as char
    } else {
        c
    }
}

/// Whether every character of `text` is an ASCII character.
pub fn all_ascii(text: &[char]) -> (r: bool)
    ensures
        r == is_ascii_text(text@),
{
    let mut i: usize = 0;
    while i < text.len()
        invariant
            i <= text@.len(),
            forall|k: int| 0 <= k < i ==> (#[trigger] text@[k] as u32) < 0x80,
        decreases text.len() - i,
    {
        if text[i] as u32 >= 0x80 {
            return false;
        }
        i += 1;
    }
    true
}

/// The canonical form of a text given by its characters.
pub fn normalize_chars(text: &[char]) -> (r: Vec<char>)
    ensures
        r@ == normal_form(text@),
{
    if !all_ascii(text) {
        return to_lowercase(text);
    }
    let mut out: Vec<char> = Vec::new();
    let mut i: usize = 0;
    while i < text.len()
        invariant
            i <= text@.len(),
            is_ascii_text(text@),
            out@.len() == i,
            forall|k: int| 0 <= k < i ==> out@[k] == ascii_lower(text@[k]),
        decreases text.len() - i,
    {
        out.push(lower_ascii_char(text[i]));
        i += 1;
    }
    assert(out@ =~= normal_form(text@));
    out
}

/// The canonical form under which a key is stored and looked up.
pub fn normalize(s: &str) -> (r: Vec<char>)
    ensures
        r@ == normal_form(s@),
{
    let chars = chars_of(s);
    normalize_chars(chars.as_slice())
}

/// For each character of `text`, whether it is whitespace.
pub open spec fn space_flags(text: Seq<char>) -> Seq<bool> {
    Seq::new(text.len(), |i: int| whitespace(text[i]))
}

/// For each character of `text`, whether it is alphanumeric.
pub open spec fn alnum_flags(text: Seq<char>) -> Seq<bool> {
    Seq::new(text.len(), |i: int| alphanumeric(text[i]))
}

/// Classifies every character of `text` as whitespace or not.
pub fn classify_space(text: &[char]) -> (flags: Vec<bool>)
    ensures
        flags@ == space_flags(text@),
{
    let mut flags: Vec<bool> = Vec::new();
    let mut i: usize = 0;
    while i < text.len()
        invariant
            i <= text.len(),
            flags@ == space_flags(text@.take(i as int)),
        decreases text.len() - i,
    {
        flags.push(char_is_whitespace(text[i]));
        i += 1;
        assert(flags@ =~= space_flags(text@.take(i as int)));
    }
    assert(text@.take(i as int) =~= text@);
    flags
}

/// Classifies every character of `text` as alphanumeric or not.
pub fn classify_alnum(text: &[char]) -> (flags: Vec<bool>)
    ensures
        flags@ == alnum_flags(text@),
{
    let mut flags: Vec<bool> = Vec::new();
    let mut i: usize = 0;
    while i < text.len()
        invariant
            i <= text.len(),
            flags@ == alnum_flags(text@.take(i as int)),
        decreases text.len() - i,
    {
        flags.push(char_is_alphanumeric(text[i]));
        i += 1;
        assert(flags@ =~= alnum_flags(text@.take(i as int)));
    }
    assert(text@.take(i as int) =~= text@);
    flags
}

/// Whether `p` is a prefix of `s`.
pub open spec fn is_prefix(p: Seq<char>, s: Seq<char>) -> bool {
    p.len() <= s.len() && s.take(p.len() as int) =~= p
}

/// The first index at or after `i` at which `a` and `b` differ or one of
/// them ends.
pub open spec fn mismatch(a: Seq<char>, b: Seq<char>, i: int) -> int
    decreases a.len() - i,
{
    if 0 <= i < a.len() && i < b.len() && a[i] == b[i] {
        mismatch(a, b, i + 1)
    } else {
        i
    }
}

/// The number of leading characters that `a` and `b` share.
pub open spec fn common_prefix(a: Seq<char>, b: Seq<char>) -> int {
    mismatch(a, b, 0)
}

/// Whether `a` sorts before `b`: character by character, by code point, a
/// proper prefix first.
pub open spec fn key_lt(a: Seq<char>, b: Seq<char>) -> bool {
    let c = common_prefix(a, b);
    if c < a.len() && c < b.len() {
        (a[c] as u32) < (b[c] as u32)
    } else {
        a.len() < b.len()
    }
}

/// What `mismatch` finds: the two agree from `i` up to it and not at it.
pub proof fn lemma_mismatch(a: Seq<char>, b: Seq<char>, i: int)
    requires
        0 <= i <= a.len(),
        i <= b.len(),
    ensures
        i <= mismatch(a, b, i) <= a.len(),
        mismatch(a, b, i) <= b.len(),
        forall|j: int| i <= j < mismatch(a, b, i) ==> a[j] == b[j],
        mismatch(a, b, i) < a.len() && mismatch(a, b, i) < b.len() ==> a[mismatch(a, b, i)]
            != b[mismatch(a, b, i)],
    decreases a.len() - i,
{
    if i < a.len() && i < b.len() && a[i] == b[i] {
        lemma_mismatch(a, b, i + 1);
    }
}

/// Any index up to which two keys agree and at which they differ or end is
/// their common prefix.
pub proof fn lemma_common_prefix_is(a: Seq<char>, b: Seq<char>, c: int)
    requires
        0 <= c <= a.len(),
        c <= b.len(),
        forall|j: int| 0 <= j < c ==> a[j] == b[j],
        c < a.len() && c < b.len() ==> a[c] != b[c],
    ensures
        common_prefix(a, b) == c,
{
    lemma_mismatch(a, b, 0);
    let m = mismatch(a, b, 0);
    if m < c {
        assert(a[m] == b[m]);
    } else if m > c {
        assert(a[c] == b[c]);
    }
}

/// The number of leading characters that `base` and `check` share.
pub fn diff_start(base: &[char], check: &[char]) -> (n: usize)
    ensures
        n == common_prefix(base@, check@),
        n <= base@.len(),
        n <= check@.len(),
        forall|j: int| 0 <= j < n ==> base@[j] == check@[j],
        n < base@.len() && n < check@.len() ==> base@[n as int] != check@[n as int],
{
    let mut i: usize = 0;
    while i < base.len() && i < check.len() && base[i] == check[i]
        invariant
            i <= base.len(),
            i <= check.len(),
            forall|j: int| 0 <= j < i ==> base@[j] == check@[j],
        decreases base.len() - i,
    {
        i += 1;
    }
    proof {
        lemma_common_prefix_is(base@, check@, i as int);
    }
    i
}

/// Whether the characters of `hay` from `from` on start with `needle`.
pub fn starts_with(hay: &[char], from: usize, needle: &[char]) -> (r: bool)
    requires
        from <= hay@.len(),
    ensures
        r == is_prefix(needle@, hay@.skip(from as int)),
{
    if needle.len() > hay.len() - from {
        return false;
    }
    let mut i: usize = 0;
    while i < needle.len()
        invariant
            from <= hay@.len(),
            hay@.len() == hay.len(),
            needle@.len() <= hay@.len() - from,
            i <= needle@.len(),
            forall|j: int| 0 <= j < i ==> needle@[j] == hay@[from + j],
        decreases needle.len() - i,
    {
        if needle[i] != hay[from + i] {
            assert(hay@.skip(from as int).take(needle@.len() as int)[i as int] != needle@[i as int]);
            return false;
        }
        i += 1;
    }
    assert(hay@.skip(from as int).take(needle@.len() as int) =~= needle@);
    true
}

/// The maximal runs of characters of `text` that `space` does not flag, in
/// their order. `space` holds one flag for each character.
pub open spec fn words(text: Seq<char>, space: Seq<bool>) -> Seq<Seq<char>>
    decreases text.len(),
{
    if text.len() == 0 || space.len() != text.len() {
        Seq::empty()
    } else {
        let before = words(text.drop_last(), space.drop_last());
        if space.last() {
            before
        } else if text.len() >= 2 && !space[space.len() - 2] && before.len() > 0 {
            before.drop_last().push(before.last().push(text.last()))
        } else {
            before.push(seq![text.last()])
        }
    }
}

/// The whitespace-separated tokens of `text`.
pub open spec fn tokens(text: Seq<char>) -> Seq<Seq<char>> {
    words(text, space_flags(text))
}

/// The views of the character vectors of `v`.
pub open spec fn texts(v: Seq<Vec<char>>) -> Seq<Seq<char>> {
    Seq::new(v.len(), |i: int| v[i]@)
}

/// Splits `text` into the maximal runs of characters that `space` does not
/// flag.
pub fn split_words(text: &[char], space: &[bool]) -> (out: Vec<Vec<char>>)
    requires
        space@.len() == text@.len(),
    ensures
        texts(out@) == words(text@, space@),
{
    let mut out: Vec<Vec<char>> = Vec::new();
    let mut i: usize = 0;
    while i < text.len()
        invariant
            i <= text.len(),
            space@.len() == text@.len(),
            texts(out@) == words(text@.take(i as int), space@.take(i as int)),
        decreases text.len() - i,
    {
        let ghost before = texts(out@);
        proof {
            assert(text@.take(i + 1).drop_last() =~= text@.take(i as int));
            assert(space@.take(i + 1).drop_last() =~= space@.take(i as int));
        }
        if !space[i] {
            if i > 0 && !space[i - 1] && out.len() > 0 {
                let mut word = out.pop().unwrap();
                word.push(text[i]);
                out.push(word);
                assert(texts(out@) =~= before.drop_last().push(before.last().push(text@[i as int])));
            } else {
                let mut word: Vec<char> = Vec::new();
                word.push(text[i]);
                out.push(word);
                assert(texts(out@) =~= before.push(seq![text@[i as int]]));
            }
        }
        i += 1;
    }
    assert(text@.take(i as int) =~= text@);
    assert(space@.take(i as int) =~= space@);
    out
}

/// Whether a suffix entry starts between two adjacent characters: after a
/// character that is not alphanumeric and before one that is, or after
/// whitespace and before a character that is not.
pub open spec fn is_break(prev_alnum: bool, prev_space: bool, next_alnum: bool, next_space: bool) -> bool {
    (!prev_alnum && next_alnum) || (prev_space && !next_space)
}

/// Decides whether a suffix entry starts between two adjacent characters,
/// from their classes.
pub fn word_break(prev_alnum: bool, prev_space: bool, next_alnum: bool, next_space: bool) -> (r: bool)
    ensures
        r == is_break(prev_alnum, prev_space, next_alnum, next_space),
{
    (!prev_alnum && next_alnum) || (prev_space && !next_space)
}

/// Whether a suffix entry of `key` starts at index `i`.
pub open spec fn breaks_at(alnum: Seq<bool>, space: Seq<bool>, i: int) -> bool {
    0 < i < alnum.len() && i < space.len() && is_break(alnum[i - 1], space[i - 1], alnum[i], space[i])
}

/// The indices below `upto` at which a suffix entry starts, ascending.
pub open spec fn break_points(alnum: Seq<bool>, space: Seq<bool>, upto: int) -> Seq<int>
    decreases upto,
{
    if upto <= 0 {
        Seq::empty()
    } else if breaks_at(alnum, space, upto - 1) {
        break_points(alnum, space, upto - 1).push(upto - 1)
    } else {
        break_points(alnum, space, upto - 1)
    }
}

/// The indices at which the suffix entries of a key start, from the classes
/// of its characters.
pub fn suffix_cuts(alnum: &[bool], space: &[bool]) -> (cuts: Vec<usize>)
    requires
        alnum@.len() == space@.len(),
    ensures
        cuts@.len() == break_points(alnum@, space@, alnum@.len() as int).len(),
        forall|k: int| 0 <= k < cuts@.len() ==> cuts@[k] as int == break_points(alnum@, space@, alnum@.len() as int)[k],
        forall|k: int| 0 <= k < cuts@.len() ==> 0 < #[trigger] cuts@[k] < alnum@.len(),
{
    let mut cuts: Vec<usize> = Vec::new();
    let mut i: usize = 0;
    while i < alnum.len()
        invariant
            i <= alnum@.len(),
            alnum@.len() == space@.len(),
            cuts@.len() == break_points(alnum@, space@, i as int).len(),
            forall|k: int| 0 <= k < cuts@.len() ==> cuts@[k] as int == break_points(alnum@, space@, i as int)[k],
            forall|k: int| 0 <= k < cuts@.len() ==> 0 < #[trigger] cuts@[k] < alnum@.len(),
        decreases alnum.len() - i,
    {
        if i > 0 && word_break(alnum[i - 1], space[i - 1], alnum[i], space[i]) {
            cuts.push(i);
        }
        i += 1;
    }
    cuts
}

} // verus!
