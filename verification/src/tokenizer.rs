//! Word-level tokenizer.
//!
//! A word is a maximal run of characters that are alphanumeric or an
//! apostrophe (so contractions such as "don't" stay one token); every word
//! is lowercased.  Word positions are measured in Unicode scalar values
//! (`char` indices into the string's character sequence), never in raw
//! bytes, so no operation here can split a multi-byte character.

use vstd::prelude::*;
use vstd::std_specs::iter::IteratorSpec;
use vstd::string::StrSliceExecFns;

verus! {

broadcast use vstd::string::group_string_axioms;

/// What `char::is_alphanumeric` returns; it depends on the character alone.
pub uninterp spec fn is_alphanumeric_char(c: char) -> bool;

/// What `str::to_lowercase` returns; it depends on the characters alone.
pub uninterp spec fn lower_of(s: Seq<char>) -> Seq<char>;

/// What `char::is_whitespace` returns; it depends on the character alone.
pub uninterp spec fn is_whitespace_char(c: char) -> bool;

/// Relies on char::is_alphanumeric: Unicode alphanumeric classification,
/// a function of the character alone.
#[verifier::external_body]
fn char_is_alphanumeric(c: char) -> (r: bool)
    ensures
        r == is_alphanumeric_char(c),
{
    c.is_alphanumeric()
}

/// Relies on char::is_whitespace: Unicode whitespace classification,
/// a function of the character alone.
#[verifier::external_body]
pub(crate) fn char_is_whitespace(c: char) -> (r: bool)
    ensures
        r == is_whitespace_char(c),
{
    c.is_whitespace()
}

/// Relies on str::to_lowercase: Unicode lowercasing, a function of the
/// characters alone; an empty string lowercases to an empty string.
#[verifier::external_body]
fn to_lowercase_string(s: &str) -> (r: String)
    ensures
        r@ == lower_of(s@),
        s@.len() == 0 ==> r@.len() == 0,
{
    s.to_lowercase()
}

/// A character that belongs to a word: alphanumeric, or an apostrophe.
pub open spec fn is_word_char(c: char) -> bool {
    is_alphanumeric_char(c) || c == '\''
}

fn word_char(c: char) -> (r: bool)
    ensures
        r == is_word_char(c),
{
    c == '\'' || char_is_alphanumeric(c)
}

/// First position at or after `i` that ends the run of word characters
/// beginning at `i` (i.e. the first `j >= i` with `j == s.len()` or
/// `!is_word_char(s[j])`, provided `s[i..]` starts with word characters).
pub open spec fn word_end(s: Seq<char>, i: int) -> int
    decreases s.len() - i when 0 <= i <= s.len()
{
    if i >= s.len() {
        i
    } else if is_word_char(s[i]) {
        word_end(s, i + 1)
    } else {
        i
    }
}

pub proof fn lemma_word_end_bounds(s: Seq<char>, i: int)
    requires
        0 <= i <= s.len(),
    ensures
        i <= word_end(s, i) <= s.len(),
        i < s.len() && is_word_char(s[i]) ==> i + 1 <= word_end(s, i),
    decreases s.len() - i,
{
    if i < s.len() && is_word_char(s[i]) {
        lemma_word_end_bounds(s, i + 1);
    }
}

/// The word spans of `s` at or after position `i`: each span is a pair
/// `(start, end)` of char indices delimiting a maximal run of word
/// characters, in increasing order of position.
pub open spec fn word_spans_from(s: Seq<char>, i: int) -> Seq<(int, int)>
    decreases s.len() - i
        when 0 <= i <= s.len()
        via word_spans_from_decreases
{
    if i >= s.len() {
        Seq::empty()
    } else if !is_word_char(s[i]) {
        word_spans_from(s, i + 1)
    } else {
        seq![(i, word_end(s, i))] + word_spans_from(s, word_end(s, i))
    }
}

#[via_fn]
proof fn word_spans_from_decreases(s: Seq<char>, i: int) {
    if 0 <= i <= s.len() {
        lemma_word_end_bounds(s, i);
    }
}

/// All word spans of `s`, in order.
pub open spec fn word_spans(s: Seq<char>) -> Seq<(int, int)> {
    word_spans_from(s, 0)
}

/// Every span lies within `[i, s.len())`, is non-empty, and spans appear
/// in strictly increasing, non-overlapping positional order.
pub proof fn lemma_word_spans_from_props(s: Seq<char>, i: int)
    requires
        0 <= i <= s.len(),
    ensures
        forall|k: int|
            0 <= k < word_spans_from(s, i).len() ==> i <= #[trigger] word_spans_from(s, i)[k].0
                < word_spans_from(s, i)[k].1 <= s.len(),
        forall|k: int, l: int|
            0 <= k < l < word_spans_from(s, i).len() ==> #[trigger] word_spans_from(s, i)[k].1
                <= #[trigger] word_spans_from(s, i)[l].0,
    decreases s.len() - i,
{
    if i >= s.len() {
    } else if !is_word_char(s[i]) {
        lemma_word_spans_from_props(s, i + 1);
        let sp = word_spans_from(s, i);
        let sp1 = word_spans_from(s, i + 1);
        assert(sp == sp1);
        assert forall|k: int, l: int| 0 <= k < l < sp.len() implies #[trigger] sp[k].1
            <= #[trigger] sp[l].0 by {
            assert(sp[k] == sp1[k]);
            assert(sp[l] == sp1[l]);
            assert(sp1[k].1 <= sp1[l].0);
        }
    } else {
        let e = word_end(s, i);
        lemma_word_end_bounds(s, i);
        lemma_word_spans_from_props(s, e);
        let sp = word_spans_from(s, i);
        let rest = word_spans_from(s, e);
        assert(sp == seq![(i, e)] + rest);
        assert forall|k: int| 0 <= k < sp.len() implies i <= #[trigger] sp[k].0 < sp[k].1
            <= s.len() by {
            if k == 0 {
                assert(sp[0] == (i, e));
            } else {
                assert(sp[k] == rest[k - 1]);
            }
        }
        assert forall|k: int, l: int| 0 <= k < l < sp.len() implies #[trigger] sp[k].1
            <= #[trigger] sp[l].0 by {
            assert(sp[l] == rest[l - 1]);
            if k == 0 {
                assert(sp[0] == (i, e));
                assert(e <= rest[l - 1].0);
            } else {
                assert(sp[k] == rest[k - 1]);
                assert(rest[k - 1].1 <= rest[l - 1].0);
            }
        }
    }
}

/// The tokens of `s`: each word span's characters, lowercased.
pub open spec fn tokens_of(s: Seq<char>) -> Seq<Seq<char>> {
    word_spans(s).map(|k: int, sp: (int, int)| lower_of(s.subrange(sp.0, sp.1)))
}

/// How many tokens of the sequence equal `t`: a term's frequency.
pub open spec fn count_occ(tokens: Seq<Seq<char>>, t: Seq<char>) -> int
    decreases tokens.len(),
{
    if tokens.len() == 0 {
        0
    } else {
        count_occ(tokens.drop_last(), t) + if tokens.last() == t {
            1int
        } else {
            0int
        }
    }
}

/// A term occurs at most as often as there are tokens, and never a
/// negative number of times.
pub proof fn lemma_count_occ_bounds(tokens: Seq<Seq<char>>, t: Seq<char>)
    ensures
        0 <= count_occ(tokens, t) <= tokens.len(),
    decreases tokens.len(),
{
    if tokens.len() > 0 {
        lemma_count_occ_bounds(tokens.drop_last(), t);
    }
}

/// Collects the characters of a string slice into a vector, in order.
pub(crate) fn chars_of(text: &str) -> (r: Vec<char>)
    ensures
        r@ == text@,
{
    let mut r: Vec<char> = Vec::new();
    for c in it: text.chars()
        invariant
            it.seq() == text@,
            r@ == it.seq().take(it.index() as int),
    {
        r.push(c);
    }
    assert(r@ =~= text@);
    r
}

pub(crate) open spec fn spans_ints(sp: Seq<(usize, usize)>) -> Seq<(int, int)> {
    sp.map(|k: int, p: (usize, usize)| (p.0 as int, p.1 as int))
}

/// Scans `chars` left to right and returns all word spans as char indices.
pub(crate) fn word_spans_exec(chars: &Vec<char>) -> (spans: Vec<(usize, usize)>)
    ensures
        spans_ints(spans@) == word_spans(chars@),
        forall|k: int|
            0 <= k < spans@.len() ==> #[trigger] spans@[k].0 < spans@[k].1 <= chars@.len(),
{
    let s = chars;
    let ghost sq = chars@;
    let n = s.len();
    let mut spans: Vec<(usize, usize)> = Vec::new();
    let mut i: usize = 0;
    while i < n
        invariant
            n == sq.len(),
            s@ == sq,
            0 <= i <= n,
            word_spans(sq) == spans_ints(spans@) + word_spans_from(sq, i as int),
            forall|k: int|
                0 <= k < spans@.len() ==> #[trigger] spans@[k].0 < spans@[k].1 <= n,
        decreases n - i,
    {
        if !word_char(s[i]) {
            i += 1;
        } else {
            let start = i;
            let mut j = i + 1;
            proof {
                lemma_word_end_bounds(sq, i as int);
            }
            while j < n && word_char(s[j])
                invariant
                    n == sq.len(),
                    s@ == sq,
                    start < j <= n,
                    word_end(sq, start as int) == word_end(sq, j as int),
                decreases n - j,
            {
                j += 1;
            }
            assert(word_end(sq, j as int) == j as int);
            spans.push((start, j));
            proof {
                assert(word_spans_from(sq, start as int) == seq![(start as int, j as int)]
                    + word_spans_from(sq, j as int));
                assert(spans_ints(spans@) =~= spans_ints(spans@.drop_last()) + seq![
                    (start as int, j as int),
                ]);
                assert(spans_ints(spans@) + word_spans_from(sq, j as int) =~= spans_ints(
                    spans@.drop_last(),
                ) + word_spans_from(sq, start as int));
            }
            i = j;
        }
    }
    assert(spans_ints(spans@) =~= word_spans(sq));
    spans
}

/// Splits `text` into its words (maximal runs of alphanumeric-or-apostrophe
/// characters) and lowercases each one, in order of appearance.
pub fn tokenize(text: &str) -> (tokens: Vec<String>)
    ensures
        tokens@.map_values(|t: String| t@) == tokens_of(text@),
{
    let chars = chars_of(text);
    let spans = word_spans_exec(&chars);
    let mut tokens: Vec<String> = Vec::new();
    let mut k: usize = 0;
    proof {
        lemma_word_spans_from_props(text@, 0);
    }
    while k < spans.len()
        invariant
            spans_ints(spans@) == word_spans(text@),
            forall|m: int|
                0 <= m < spans@.len() ==> #[trigger] spans@[m].0 < spans@[m].1 <= text@.len(),
            0 <= k <= spans@.len(),
            tokens@.len() == k,
            forall|m: int|
                0 <= m < k ==> #[trigger] tokens@[m]@ == tokens_of(text@)[m],
        decreases spans@.len() - k,
    {
        let sp = spans[k];
        let frag = text.substring_char(sp.0, sp.1);
        tokens.push(to_lowercase_string(frag));
        k += 1;
    }
    assert(tokens@.map_values(|t: String| t@) =~= tokens_of(text@));
    tokens
}

/// Counts the words of `text` without materializing the token strings.
pub fn token_count(text: &str) -> (n: usize)
    ensures
        n == word_spans(text@).len(),
{
    let chars = chars_of(text);
    let spans = word_spans_exec(&chars);
    spans.len()
}

} // verus!
