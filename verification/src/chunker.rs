//! Sliding-window text chunkers.
//!
//! Window positions are measured in Unicode scalar values (`char` indices),
//! never in raw bytes, so a window boundary can never fall inside the
//! encoding of a multi-byte character.  The character-window chunkers cut
//! `chunk_size`-character windows that overlap by `overlap` characters; the
//! token-window chunker cuts windows of whole words instead.

use vstd::prelude::*;
use vstd::string::StrSliceExecFns;
use rayon::iter::IndexedParallelIterator;
use rayon::iter::IntoParallelRefIterator;
use rayon::iter::ParallelIterator;
use crate::tokenizer::char_is_whitespace;
use crate::tokenizer::chars_of;
use crate::tokenizer::is_whitespace_char;
use crate::tokenizer::lemma_word_spans_from_props;
use crate::tokenizer::spans_ints;
use crate::tokenizer::word_spans;
use crate::tokenizer::word_spans_exec;

verus! {

broadcast use vstd::string::group_string_axioms;

/// How far the window start advances between adjacent chunks: normally
/// `size - overlap`, forced to 1 when `overlap >= size` so that the window
/// always moves forward.
pub open spec fn chunk_step(size: int, overlap: int) -> int {
    if overlap >= size {
        1
    } else {
        size - overlap
    }
}

/// The half-open index windows `[start, min(start + size, n))` produced by
/// advancing `start` by `step`, stopping with the first window that reaches
/// `n`.
pub open spec fn windows(n: int, size: int, step: int, start: int) -> Seq<(int, int)>
    decreases n - start when 0 <= start < n && 1 <= step <= size
{
    if start + size >= n {
        seq![(start, n)]
    } else {
        seq![(start, start + size)] + windows(n, size, step, start + step)
    }
}

/// The window offsets behind the chunkers: every window is non-empty and
/// lies within `[start, n]`, window starts strictly increase, and the last
/// window ends exactly at `n`, so no tail of the text is ever lost.
pub proof fn lemma_window_offsets(n: int, size: int, step: int, start: int)
    requires
        0 <= start < n,
        1 <= step <= size,
    ensures
        windows(n, size, step, start).len() >= 1,
        forall|k: int|
            0 <= k < windows(n, size, step, start).len() ==> start <= (#[trigger] windows(
                n,
                size,
                step,
                start,
            )[k]).0 < windows(n, size, step, start)[k].1 <= n,
        forall|k: int|
            0 <= k < windows(n, size, step, start).len() - 1 ==> (#[trigger] windows(
                n,
                size,
                step,
                start,
            )[k]).0 < windows(n, size, step, start)[k + 1].0,
        windows(n, size, step, start).last().1 == n,
    decreases n - start,
{
    let w = windows(n, size, step, start);
    if start + size >= n {
    } else {
        lemma_window_offsets(n, size, step, start + step);
        let rest = windows(n, size, step, start + step);
        assert(w == seq![(start, start + size)] + rest);
        assert forall|k: int| 0 <= k < w.len() implies start <= (#[trigger] w[k]).0 < w[k].1
            <= n by {
            if k == 0 {
                assert(w[0] == (start, start + size));
            } else {
                assert(w[k] == rest[k - 1]);
            }
        }
        assert forall|k: int| 0 <= k < w.len() - 1 implies (#[trigger] w[k]).0 < w[k + 1].0 by {
            assert(w[k + 1] == rest[k]);
            if k == 0 {
                assert(start + step <= rest[0].0);
            } else {
                assert(w[k] == rest[k - 1]);
                assert(rest[k - 1].0 < rest[k].0);
            }
        }
        assert(w.last() == rest.last());
    }
}

/// The chunks of `s` under character-window chunking: empty input or a zero
/// window size yield no chunks; a text no longer than the window is one
/// chunk; otherwise each window's characters, in window order.
pub open spec fn chunk_spec(s: Seq<char>, size: int, overlap: int) -> Seq<Seq<char>> {
    if s.len() == 0 || size <= 0 {
        Seq::empty()
    } else if s.len() <= size {
        seq![s]
    } else {
        windows(s.len() as int, size, chunk_step(size, overlap), 0).map(
            |k: int, w: (int, int)| s.subrange(w.0, w.1),
        )
    }
}

/// The concatenation of the given chunks, each first dropping its leading
/// `overlap` characters.
pub open spec fn tail_concat(chunks: Seq<Seq<char>>, overlap: int) -> Seq<char>
    decreases chunks.len(),
{
    if chunks.len() == 0 {
        Seq::empty()
    } else {
        chunks.first().skip(overlap) + tail_concat(chunks.drop_first(), overlap)
    }
}

/// Chunk 0 in full, followed by every later chunk without its first
/// `overlap` characters.
pub open spec fn reassemble(chunks: Seq<Seq<char>>, overlap: int) -> Seq<char> {
    if chunks.len() == 0 {
        Seq::empty()
    } else {
        chunks.first() + tail_concat(chunks.drop_first(), overlap)
    }
}

proof fn lemma_tail_concat_windows(s: Seq<char>, size: int, overlap: int, start: int)
    requires
        0 < overlap < size,
        0 <= start,
        start + overlap < s.len(),
    ensures
        tail_concat(
            windows(s.len() as int, size, size - overlap, start).map(
                |k: int, w: (int, int)| s.subrange(w.0, w.1),
            ),
            overlap,
        ) == s.subrange(start + overlap, s.len() as int),
    decreases s.len() - start,
{
    let n = s.len() as int;
    let step = size - overlap;
    let w = windows(n, size, step, start);
    let cs = w.map(|k: int, p: (int, int)| s.subrange(p.0, p.1));
    if start + size >= n {
        assert(w == seq![(start, n)]);
        assert(cs.first() == s.subrange(start, n));
        assert(cs.first().skip(overlap) =~= s.subrange(start + overlap, n));
        assert(cs.drop_first() =~= Seq::<Seq<char>>::empty());
        assert(tail_concat(cs.drop_first(), overlap) == Seq::<char>::empty());
        assert(tail_concat(cs, overlap) == cs.first().skip(overlap) + tail_concat(
            cs.drop_first(),
            overlap,
        ));
        assert(tail_concat(cs, overlap) =~= s.subrange(start + overlap, n));
    } else {
        lemma_tail_concat_windows(s, size, overlap, start + step);
        let rest = windows(n, size, step, start + step);
        let rest_cs = rest.map(|k: int, p: (int, int)| s.subrange(p.0, p.1));
        assert(w == seq![(start, start + size)] + rest);
        assert forall|m: int| 0 <= m < rest_cs.len() implies #[trigger] cs.drop_first()[m]
            == rest_cs[m] by {
            assert(w[m + 1] == rest[m]);
        }
        assert(cs.drop_first() =~= rest_cs);
        assert(cs.first() == s.subrange(start, start + size));
        assert(cs.first().skip(overlap) =~= s.subrange(start + overlap, start + size));
        assert(tail_concat(rest_cs, overlap) == s.subrange(start + step + overlap, n));
        assert(start + step + overlap == start + size);
        assert(tail_concat(cs, overlap) == s.subrange(start + overlap, start + size) + s.subrange(
            start + size,
            n,
        ));
        assert(s.subrange(start + overlap, start + size) + s.subrange(start + size, n)
            =~= s.subrange(start + overlap, n));
    }
}

/// Content preservation: whenever `0 < overlap < size < s.len()`, chunk 0
/// concatenated with every later chunk minus its first `overlap` characters
/// reproduces the original text exactly.
pub proof fn lemma_chunk_content_preservation(s: Seq<char>, size: int, overlap: int)
    requires
        0 < overlap < size < s.len(),
    ensures
        reassemble(chunk_spec(s, size, overlap), overlap) == s,
{
    let n = s.len() as int;
    let step = size - overlap;
    let w = windows(n, size, step, 0);
    let cs = w.map(|k: int, p: (int, int)| s.subrange(p.0, p.1));
    assert(chunk_spec(s, size, overlap) == cs);
    assert(w == seq![(0, size)] + windows(n, size, step, step));
    let rest = windows(n, size, step, step);
    let rest_cs = rest.map(|k: int, p: (int, int)| s.subrange(p.0, p.1));
    assert forall|m: int| 0 <= m < rest_cs.len() implies #[trigger] cs.drop_first()[m]
        == rest_cs[m] by {
        assert(w[m + 1] == rest[m]);
    }
    assert(cs.drop_first() =~= rest_cs);
    lemma_tail_concat_windows(s, size, overlap, step);
    assert(tail_concat(rest_cs, overlap) == s.subrange(step + overlap, n));
    assert(cs.first() == s.subrange(0, size));
    assert(reassemble(cs, overlap) == s.subrange(0, size) + s.subrange(size, n));
    assert(s.subrange(0, size) + s.subrange(size, n) =~= s);
}

/// Degenerate chunking: empty text or a zero window yields no chunks, and a
/// text no longer than the window is returned whole as a single chunk.
pub proof fn lemma_chunk_degenerate(s: Seq<char>, size: int, overlap: int)
    ensures
        s.len() == 0 ==> chunk_spec(s, size, overlap) == Seq::<Seq<char>>::empty(),
        size == 0 ==> chunk_spec(s, size, overlap) == Seq::<Seq<char>>::empty(),
        0 < s.len() <= size ==> chunk_spec(s, size, overlap) == seq![s],
{
}

/// Copies the characters of `text` at char positions `[a, b)` into a new
/// string.
pub(crate) fn copy_range(text: &str, a: usize, b: usize) -> (r: String)
    requires
        a <= b <= text@.len(),
    ensures
        r@ == text@.subrange(a as int, b as int),
{
    text.substring_char(a, b).to_owned()
}

/// Computes the window boundary pairs for a text of `n` characters.
fn window_bounds(n: usize, size: usize, step: usize) -> (bounds: Vec<(usize, usize)>)
    requires
        1 <= step <= size,
        size < n,
    ensures
        spans_ints(bounds@) == windows(n as int, size as int, step as int, 0),
        forall|k: int|
            0 <= k < bounds@.len() ==> (#[trigger] bounds@[k]).0 < bounds@[k].1 && bounds@[k].1
                <= n,
{
    let mut bounds: Vec<(usize, usize)> = Vec::new();
    let mut start: usize = 0;
    loop
        invariant_except_break
            windows(n as int, size as int, step as int, 0) == spans_ints(bounds@) + windows(
                n as int,
                size as int,
                step as int,
                start as int,
            ),
        invariant
            1 <= step <= size < n,
            start < n,
            forall|k: int|
                0 <= k < bounds@.len() ==> (#[trigger] bounds@[k]).0 < bounds@[k].1 && bounds@[k].1
                    <= n,
        ensures
            spans_ints(bounds@) == windows(n as int, size as int, step as int, 0),
            forall|k: int|
                0 <= k < bounds@.len() ==> (#[trigger] bounds@[k]).0 < bounds@[k].1 && bounds@[k].1
                    <= n,
        decreases n - start,
    {
        if size < n - start {
            let end = start + size;
            bounds.push((start, end));
            proof {
                assert(windows(n as int, size as int, step as int, start as int) == seq![
                    (start as int, end as int),
                ] + windows(n as int, size as int, step as int, start as int + step as int));
                assert(spans_ints(bounds@) =~= spans_ints(bounds@.drop_last()) + seq![
                    (start as int, end as int),
                ]);
                assert(spans_ints(bounds@) + windows(
                    n as int,
                    size as int,
                    step as int,
                    (start + step) as int,
                ) =~= spans_ints(bounds@.drop_last()) + windows(
                    n as int,
                    size as int,
                    step as int,
                    start as int,
                ));
            }
            start += step;
        } else {
            bounds.push((start, n));
            proof {
                assert(windows(n as int, size as int, step as int, start as int) == seq![
                    (start as int, n as int),
                ]);
                assert(spans_ints(bounds@) =~= spans_ints(bounds@.drop_last()) + seq![
                    (start as int, n as int),
                ]);
            }
            break ;
        }
    }
    bounds
}

/// Splits `text` into overlapping character windows of at most `chunk_size`
/// characters, adjacent windows sharing `overlap` characters.
pub fn chunk_text(text: &str, chunk_size: usize, overlap: usize) -> (chunks: Vec<String>)
    ensures
        chunks@.map_values(|c: String| c@) == chunk_spec(
            text@,
            chunk_size as int,
            overlap as int,
        ),
{
    let n = text.unicode_len();
    if n == 0 || chunk_size == 0 {
        let chunks: Vec<String> = Vec::new();
        assert(chunks@.map_values(|c: String| c@) =~= chunk_spec(
            text@,
            chunk_size as int,
            overlap as int,
        ));
        return chunks;
    }
    if n <= chunk_size {
        let mut chunks: Vec<String> = Vec::new();
        chunks.push(text.to_owned());
        assert(chunks@.map_values(|c: String| c@) =~= chunk_spec(
            text@,
            chunk_size as int,
            overlap as int,
        ));
        return chunks;
    }
    let step = if overlap >= chunk_size {
        1
    } else {
        chunk_size - overlap
    };
    let bounds = window_bounds(n, chunk_size, step);
    let mut chunks: Vec<String> = Vec::new();
    let mut k: usize = 0;
    while k < bounds.len()
        invariant
            spans_ints(bounds@) == windows(text@.len() as int, chunk_size as int, step as int, 0),
            forall|m: int|
                0 <= m < bounds@.len() ==> (#[trigger] bounds@[m]).0 < bounds@[m].1 && bounds@[m].1
                    <= text@.len(),
            0 <= k <= bounds@.len(),
            chunks@.len() == k,
            forall|m: int|
                0 <= m < k ==> #[trigger] chunks@[m]@ == text@.subrange(
                    bounds@[m].0 as int,
                    bounds@[m].1 as int,
                ),
        decreases bounds@.len() - k,
    {
        let b = bounds[k];
        chunks.push(copy_range(text, b.0, b.1));
        k += 1;
    }
    proof {
        lemma_chunks_match(text@, chunk_size as int, overlap as int, step as int, bounds@, chunks@);
    }
    chunks
}

/// From per-window contents equal to the window subranges, conclude the full
/// chunking specification.
proof fn lemma_chunks_match(
    s: Seq<char>,
    size: int,
    overlap: int,
    step: int,
    bounds: Seq<(usize, usize)>,
    chunks: Seq<String>,
)
    requires
        0 < size < s.len(),
        step == chunk_step(size, overlap),
        spans_ints(bounds) == windows(s.len() as int, size, step, 0),
        chunks.len() == bounds.len(),
        forall|m: int|
            0 <= m < chunks.len() ==> #[trigger] chunks[m]@ == s.subrange(
                bounds[m].0 as int,
                bounds[m].1 as int,
            ),
    ensures
        chunks.map_values(|c: String| c@) == chunk_spec(s, size, overlap),
{
    let w = windows(s.len() as int, size, step, 0);
    let cv = chunks.map_values(|c: String| c@);
    assert forall|m: int| 0 <= m < chunks.len() implies #[trigger] chunks[m]@ == chunk_spec(
        s,
        size,
        overlap,
    )[m] by {
        assert(spans_ints(bounds)[m] == w[m]);
        assert(bounds[m].0 as int == w[m].0 && bounds[m].1 as int == w[m].1);
    }
    assert forall|m: int| 0 <= m < cv.len() implies #[trigger] cv[m] == chunk_spec(
        s,
        size,
        overlap,
    )[m] by {
        assert(cv[m] == chunks[m]@);
    }
    assert(cv =~= chunk_spec(s, size, overlap));
}

/// Relies on rayon's `par_iter().map(..).collect_into_vec(..)`: it applies
/// the closure to every element and collects the results in the input's
/// order.
#[verifier::external_body]
fn materialize_parallel(text: &str, bounds: &Vec<(usize, usize)>) -> (r: Vec<String>)
    requires
        forall|k: int|
            0 <= k < bounds@.len() ==> (#[trigger] bounds@[k]).0 <= bounds@[k].1 && bounds@[k].1
                <= text@.len(),
    ensures
        r@.len() == bounds@.len(),
        forall|k: int|
            0 <= k < bounds@.len() ==> #[trigger] r@[k]@ == text@.subrange(
                bounds@[k].0 as int,
                bounds@[k].1 as int,
            ),
{
    let mut out: Vec<String> = Vec::new();
    bounds.par_iter().map(|p: &(usize, usize)| copy_range(text, p.0, p.1)).collect_into_vec(
        &mut out,
    );
    out
}

/// Splits `text` exactly as `chunk_text` does, but materializes the chunks
/// with parallel workers after computing the window boundaries sequentially.
pub fn chunk_text_parallel(text: &str, chunk_size: usize, overlap: usize) -> (chunks: Vec<String>)
    ensures
        chunks@.map_values(|c: String| c@) == chunk_spec(
            text@,
            chunk_size as int,
            overlap as int,
        ),
{
    let n = text.unicode_len();
    if n == 0 || chunk_size == 0 {
        let chunks: Vec<String> = Vec::new();
        assert(chunks@.map_values(|c: String| c@) =~= chunk_spec(
            text@,
            chunk_size as int,
            overlap as int,
        ));
        return chunks;
    }
    if n <= chunk_size {
        let mut chunks: Vec<String> = Vec::new();
        chunks.push(text.to_owned());
        assert(chunks@.map_values(|c: String| c@) =~= chunk_spec(
            text@,
            chunk_size as int,
            overlap as int,
        ));
        return chunks;
    }
    let step = if overlap >= chunk_size {
        1
    } else {
        chunk_size - overlap
    };
    let bounds = window_bounds(n, chunk_size, step);
    let chunks = materialize_parallel(text, &bounds);
    proof {
        lemma_chunks_match(text@, chunk_size as int, overlap as int, step as int, bounds@, chunks@);
    }
    chunks
}

/// First position at or after `i` that does not hold whitespace, or
/// `s.len()` if only whitespace remains.
pub open spec fn lead_ws(s: Seq<char>, i: int) -> int
    decreases s.len() - i when 0 <= i <= s.len()
{
    if i >= s.len() {
        i
    } else if is_whitespace_char(s[i]) {
        lead_ws(s, i + 1)
    } else {
        i
    }
}

/// Last position at or before `j` such that everything from it up to `j` is
/// whitespace; 0 if everything before `j` is whitespace.
pub open spec fn trail_ws(s: Seq<char>, j: int) -> int
    decreases j when 0 <= j <= s.len()
{
    if j <= 0 {
        0
    } else if is_whitespace_char(s[j - 1]) {
        trail_ws(s, j - 1)
    } else {
        j
    }
}

proof fn lemma_trail_ws_bounds(s: Seq<char>, j: int)
    requires
        0 <= j <= s.len(),
    ensures
        0 <= trail_ws(s, j) <= j,
    decreases j,
{
    if j > 0 && is_whitespace_char(s[j - 1]) {
        lemma_trail_ws_bounds(s, j - 1);
    }
}

/// `s` without its leading and trailing whitespace.
pub open spec fn trim_spec(s: Seq<char>) -> Seq<char> {
    let a = lead_ws(s, 0);
    let b = trail_ws(s, s.len() as int);
    if a <= b {
        s.subrange(a, b)
    } else {
        Seq::empty()
    }
}

/// Copies `text` without its leading and trailing whitespace.
fn trim_exec(text: &str, chars: &Vec<char>) -> (r: String)
    requires
        chars@ == text@,
    ensures
        r@ == trim_spec(text@),
{
    let s = chars;
    let ghost sq = text@;
    let n = s.len();
    let mut a: usize = 0;
    while a < n && char_is_whitespace(s[a])
        invariant
            n == sq.len(),
            s@ == sq,
            0 <= a <= n,
            lead_ws(sq, 0) == lead_ws(sq, a as int),
        decreases n - a,
    {
        a += 1;
    }
    assert(lead_ws(sq, 0) == a as int);
    if a == n {
        proof {
            lemma_trail_ws_bounds(sq, n as int);
        }
        let r = String::new();
        assert(r@ =~= trim_spec(sq));
        return r;
    }
    let mut b: usize = n;
    while b > a && char_is_whitespace(s[b - 1])
        invariant
            n == sq.len(),
            s@ == sq,
            a < b <= n,
            !is_whitespace_char(sq[a as int]),
            trail_ws(sq, n as int) == trail_ws(sq, b as int),
        decreases b,
    {
        b -= 1;
    }
    assert(trail_ws(sq, n as int) == b as int);
    let r = copy_range(text, a, b);
    assert(r@ =~= trim_spec(sq));
    r
}

/// The chunks of `s` under token-window chunking: no words or a zero window
/// yield no chunks; a text of at most `max_tokens` words is one chunk, the
/// whole text trimmed of surrounding whitespace; otherwise each window of
/// word spans becomes the original substring from the start of its first
/// word to the end of its last word.
pub open spec fn token_chunk_spec(s: Seq<char>, max_tokens: int, overlap_tokens: int) -> Seq<
    Seq<char>,
> {
    let spans = word_spans(s);
    if max_tokens <= 0 || spans.len() == 0 {
        Seq::empty()
    } else if spans.len() <= max_tokens {
        seq![trim_spec(s)]
    } else {
        windows(spans.len() as int, max_tokens, chunk_step(max_tokens, overlap_tokens), 0).map(
            |k: int, w: (int, int)| s.subrange(spans[w.0].0, spans[w.1 - 1].1),
        )
    }
}

/// Splits `text` into overlapping windows of at most `max_tokens` words,
/// adjacent windows sharing `overlap_tokens` words; each chunk is the
/// original substring covering its words, with interior punctuation and
/// whitespace preserved verbatim.
pub fn chunk_by_tokens(text: &str, max_tokens: usize, overlap_tokens: usize) -> (chunks: Vec<
    String,
>)
    ensures
        chunks@.map_values(|c: String| c@) == token_chunk_spec(
            text@,
            max_tokens as int,
            overlap_tokens as int,
        ),
{
    let ghost sq = text@;
    let ghost gspans = word_spans(text@);
    let chars = chars_of(text);
    let spans = word_spans_exec(&chars);
    proof {
        lemma_word_spans_from_props(sq, 0);
    }
    if max_tokens == 0 || spans.len() == 0 {
        let chunks: Vec<String> = Vec::new();
        assert(chunks@.map_values(|c: String| c@) =~= token_chunk_spec(
            sq,
            max_tokens as int,
            overlap_tokens as int,
        ));
        return chunks;
    }
    if spans.len() <= max_tokens {
        let mut chunks: Vec<String> = Vec::new();
        chunks.push(trim_exec(text, &chars));
        assert(chunks@.map_values(|c: String| c@) =~= token_chunk_spec(
            sq,
            max_tokens as int,
            overlap_tokens as int,
        ));
        return chunks;
    }
    let step = if overlap_tokens >= max_tokens {
        1
    } else {
        max_tokens - overlap_tokens
    };
    let bounds = window_bounds(spans.len(), max_tokens, step);
    let ghost w = windows(gspans.len() as int, max_tokens as int, step as int, 0);
    let mut chunks: Vec<String> = Vec::new();
    let mut k: usize = 0;
    while k < bounds.len()
        invariant
            sq == text@,
            gspans == word_spans(sq),
            w == windows(gspans.len() as int, max_tokens as int, step as int, 0),
            spans_ints(spans@) == gspans,
            spans@.len() == gspans.len(),
            forall|m: int|
                0 <= m < gspans.len() ==> 0 <= #[trigger] gspans[m].0 < gspans[m].1 <= sq.len(),
            forall|m: int, l: int|
                0 <= m < l < gspans.len() ==> #[trigger] gspans[m].1 <= #[trigger] gspans[l].0,
            spans_ints(bounds@) == w,
            bounds@.len() == w.len(),
            forall|m: int|
                0 <= m < bounds@.len() ==> (#[trigger] bounds@[m]).0 < bounds@[m].1 && bounds@[m].1
                    <= spans@.len(),
            0 <= k <= bounds@.len(),
            chunks@.len() == k,
            forall|m: int|
                0 <= m < k ==> #[trigger] chunks@[m]@ == sq.subrange(
                    gspans[w[m].0].0,
                    gspans[w[m].1 - 1].1,
                ),
        decreases bounds@.len() - k,
    {
        let b = bounds[k];
        proof {
            assert(spans_ints(bounds@)[k as int] == w[k as int]);
            assert(spans_ints(spans@)[b.0 as int] == gspans[b.0 as int]);
            assert(spans_ints(spans@)[b.1 - 1 as int] == gspans[b.1 - 1 as int]);
        }
        let lo = spans[b.0].0;
        let hi = spans[b.1 - 1].1;
        assert(lo <= hi <= sq.len());
        chunks.push(copy_range(text, lo, hi));
        k += 1;
    }
    proof {
        let cv = chunks@.map_values(|c: String| c@);
        let tc = token_chunk_spec(sq, max_tokens as int, overlap_tokens as int);
        assert forall|m: int| 0 <= m < cv.len() implies #[trigger] cv[m] == tc[m] by {
            assert(cv[m] == chunks@[m]@);
            assert(tc[m] == sq.subrange(gspans[w[m].0].0, gspans[w[m].1 - 1].1));
        }
        assert(cv =~= tc);
    }
    chunks
}

} // verus!

