//! BM25 keyword ranking index.
//!
//! The index is built once from a fixed collection of document strings and
//! answers ranked keyword queries.  Per-document term frequencies and the
//! corpus document frequencies are kept in association lists with distinct
//! keys, and all scoring is exact fixed-point integer arithmetic (see the
//! scoring module): scores carry a 2^32 scale, and the tuning constants
//! `k1` and `b` are supplied in thousandths (1200 stands for k1 = 1.2).

use vstd::prelude::*;
use crate::score::contribution;
use crate::score::contribution_fixed;
use crate::tokenizer::count_occ;
use crate::tokenizer::lemma_count_occ_bounds;
use crate::tokenizer::tokenize;
use crate::tokenizer::tokens_of;
use crate::tokenizer::word_spans;

verus! {

/// The count stored for term `t`: the value of the first entry whose key
/// reads `t`, or 0 when there is none.
pub open spec fn lookup(m: Seq<(String, usize)>, t: Seq<char>) -> int
    decreases m.len(),
{
    if m.len() == 0 {
        0
    } else if m.first().0@ == t {
        m.first().1 as int
    } else {
        lookup(m.drop_first(), t)
    }
}

/// Whether some entry's key reads `t`.
pub open spec fn has_key(m: Seq<(String, usize)>, t: Seq<char>) -> bool {
    exists|k: int| 0 <= k < m.len() && (#[trigger] m[k]).0@ == t
}

/// No two entries share a key.
pub open spec fn distinct_keys(m: Seq<(String, usize)>) -> bool {
    forall|k: int, l: int| 0 <= k < l < m.len() ==> (#[trigger] m[k]).0@ != (#[trigger] m[l]).0@
}

proof fn lemma_lookup_first(m: Seq<(String, usize)>, t: Seq<char>, k: int)
    requires
        0 <= k < m.len(),
        forall|j: int| 0 <= j < k ==> (#[trigger] m[j]).0@ != t,
        m[k].0@ == t,
    ensures
        lookup(m, t) == m[k].1,
    decreases m.len(),
{
    if k == 0 {
    } else {
        let m1 = m.drop_first();
        assert forall|j: int| 0 <= j < k - 1 implies (#[trigger] m1[j]).0@ != t by {
            assert(m1[j] == m[j + 1]);
        }
        assert(m1[k - 1] == m[k]);
        lemma_lookup_first(m1, t, k - 1);
    }
}

proof fn lemma_lookup_absent(m: Seq<(String, usize)>, t: Seq<char>)
    requires
        forall|j: int| 0 <= j < m.len() ==> (#[trigger] m[j]).0@ != t,
    ensures
        lookup(m, t) == 0,
        !has_key(m, t),
    decreases m.len(),
{
    if m.len() > 0 {
        let m1 = m.drop_first();
        assert forall|j: int| 0 <= j < m1.len() implies (#[trigger] m1[j]).0@ != t by {
            assert(m1[j] == m[j + 1]);
        }
        assert(m[0].0@ != t);
        lemma_lookup_absent(m1, t);
    }
}

/// When every stored count is at least 1, a term's lookup is positive
/// exactly when the term has an entry, and lookups are never negative.
proof fn lemma_lookup_positive(m: Seq<(String, usize)>, t: Seq<char>)
    requires
        forall|k: int| 0 <= k < m.len() ==> (#[trigger] m[k]).1 >= 1,
    ensures
        lookup(m, t) > 0 <==> has_key(m, t),
        lookup(m, t) >= 0,
    decreases m.len(),
{
    if m.len() > 0 {
        let m1 = m.drop_first();
        assert forall|k: int| 0 <= k < m1.len() implies (#[trigger] m1[k]).1 >= 1 by {
            assert(m1[k] == m[k + 1]);
        }
        lemma_lookup_positive(m1, t);
        if m.first().0@ == t {
            assert(m[0].1 >= 1);
            assert(has_key(m, t));
        } else {
            if has_key(m1, t) {
                let k = choose|k: int| 0 <= k < m1.len() && (#[trigger] m1[k]).0@ == t;
                assert(m[k + 1] == m1[k]);
                assert(has_key(m, t));
            }
            if has_key(m, t) {
                let k = choose|k: int| 0 <= k < m.len() && (#[trigger] m[k]).0@ == t;
                assert(k >= 1);
                assert(m1[k - 1] == m[k]);
                assert(has_key(m1, t));
            }
        }
    }
}

/// With distinct keys, every entry's stored count is its own key's lookup.
proof fn lemma_entry_lookup(m: Seq<(String, usize)>, k: int)
    requires
        distinct_keys(m),
        0 <= k < m.len(),
    ensures
        lookup(m, m[k].0@) == m[k].1,
{
    assert forall|j: int| 0 <= j < k implies (#[trigger] m[j]).0@ != m[k].0@ by {}
    lemma_lookup_first(m, m[k].0@, k);
}

proof fn lemma_lookup_push_other(m: Seq<(String, usize)>, p: (String, usize), x: Seq<char>)
    requires
        p.0@ != x,
    ensures
        lookup(m.push(p), x) == lookup(m, x),
    decreases m.len(),
{
    if m.len() == 0 {
        assert(m.push(p).len() == 1);
        assert(m.push(p).first() == p);
        assert(m.push(p).drop_first() =~= Seq::<(String, usize)>::empty());
        assert(lookup(m.push(p), x) == lookup(m.push(p).drop_first(), x));
        assert(lookup(m.push(p), x) == 0);
    } else {
        assert(m.push(p).first() == m.first());
        assert(m.push(p).drop_first() =~= m.drop_first().push(p));
        lemma_lookup_push_other(m.drop_first(), p, x);
        if m.first().0@ != x {
            assert(lookup(m.push(p), x) == lookup(m.push(p).drop_first(), x));
            assert(lookup(m, x) == lookup(m.drop_first(), x));
        }
    }
}

proof fn lemma_lookup_update_other(
    m: Seq<(String, usize)>,
    k: int,
    p: (String, usize),
    x: Seq<char>,
)
    requires
        0 <= k < m.len(),
        p.0@ == m[k].0@,
        x != m[k].0@,
    ensures
        lookup(m.update(k, p), x) == lookup(m, x),
    decreases m.len(),
{
    let mu = m.update(k, p);
    if k == 0 {
        assert(mu.first().0@ == m.first().0@);
        assert(mu.first().0@ != x);
        assert(m.first().0@ != x);
        assert(mu.drop_first() =~= m.drop_first());
    } else {
        assert(mu.first() == m.first());
        if m.first().0@ == x {
        } else {
            assert(mu.drop_first() =~= m.drop_first().update(k - 1, p));
            assert(m.drop_first()[k - 1] == m[k]);
            lemma_lookup_update_other(m.drop_first(), k - 1, p, x);
        }
    }
}

/// Looks `t` up in the association list: the first matching entry's count,
/// or 0 when none matches.
fn get_count(m: &Vec<(String, usize)>, t: &String) -> (r: usize)
    ensures
        r as int == lookup(m@, t@),
{
    let mut k: usize = 0;
    while k < m.len()
        invariant
            0 <= k <= m@.len(),
            forall|j: int| 0 <= j < k ==> (#[trigger] m@[j]).0@ != t@,
        decreases m@.len() - k,
    {
        if m[k].0 == *t {
            proof {
                lemma_lookup_first(m@, t@, k as int);
            }
            return m[k].1;
        }
        k += 1;
    }
    proof {
        lemma_lookup_absent(m@, t@);
    }
    0
}

/// Adds 1 to `t`'s count, creating the entry at count 1 when absent.
fn incr(m: &mut Vec<(String, usize)>, t: &String)
    requires
        distinct_keys(old(m)@),
        lookup(old(m)@, t@) < usize::MAX as int,
    ensures
        distinct_keys(final(m)@),
        final(m)@.len() <= old(m)@.len() + 1,
        forall|x: Seq<char>|
            #[trigger] lookup(final(m)@, x) == lookup(old(m)@, x) + if x == t@ {
                1int
            } else {
                0int
            },
        forall|x: Seq<char>| #[trigger] has_key(final(m)@, x) <==> has_key(old(m)@, x) || x == t@,
    decreases old(m)@.len(),
{
    let ghost m0 = m@;
    let mut k: usize = 0;
    while k < m.len()
        invariant
            m@ == m0,
            m0 == old(m)@,
            distinct_keys(m0),
            lookup(m0, t@) < usize::MAX as int,
            0 <= k <= m0.len(),
            forall|j: int| 0 <= j < k ==> (#[trigger] m0[j]).0@ != t@,
        decreases m0.len() - k,
    {
        if m[k].0 == *t {
            proof {
                lemma_lookup_first(m0, t@, k as int);
            }
            let key = m[k].0.clone();
            let c = m[k].1;
            m[k] = (key, c + 1);
            proof {
                let mu = m@;
                assert(mu =~= m0.update(k as int, mu[k as int]));
                assert(mu[k as int].0@ == t@);
                assert(mu[k as int].1 == c + 1);
                assert forall|a: int, b: int| 0 <= a < b < mu.len() implies (#[trigger] mu[a]).0@
                    != (#[trigger] mu[b]).0@ by {
                    assert(mu[a].0@ == m0[a].0@);
                    assert(mu[b].0@ == m0[b].0@);
                }
                assert forall|x: Seq<char>|
                    #[trigger] lookup(mu, x) == lookup(m0, x) + if x == t@ {
                        1int
                    } else {
                        0int
                    } by {
                    if x == t@ {
                        assert forall|j: int| 0 <= j < k implies (#[trigger] mu[j]).0@ != t@ by {
                            assert(mu[j].0@ == m0[j].0@);
                        }
                        lemma_lookup_first(mu, t@, k as int);
                    } else {
                        lemma_lookup_update_other(m0, k as int, mu[k as int], x);
                    }
                }
                assert forall|x: Seq<char>| #[trigger] has_key(mu, x) <==> has_key(m0, x) || x
                    == t@ by {
                    if has_key(mu, x) {
                        let j = choose|j: int| 0 <= j < mu.len() && (#[trigger] mu[j]).0@ == x;
                        assert(m0[j].0@ == mu[j].0@);
                        assert(has_key(m0, x));
                    }
                    if has_key(m0, x) {
                        let j = choose|j: int| 0 <= j < m0.len() && (#[trigger] m0[j]).0@ == x;
                        assert(mu[j].0@ == m0[j].0@);
                        assert(has_key(mu, x));
                    }
                    if x == t@ {
                        assert(mu[k as int].0@ == x);
                        assert(has_key(mu, x));
                    }
                }
            }
            return ;
        }
        k += 1;
    }
    proof {
        lemma_lookup_absent(m0, t@);
    }
    m.push((t.clone(), 1));
    proof {
        let mu = m@;
        assert(mu =~= m0.push(mu.last()));
        assert(mu[m0.len() as int].0@ == t@);
        assert(mu[m0.len() as int].1 == 1);
        assert forall|a: int, b: int| 0 <= a < b < mu.len() implies (#[trigger] mu[a]).0@
            != (#[trigger] mu[b]).0@ by {
            if b < m0.len() {
                assert(mu[a] == m0[a]);
                assert(mu[b] == m0[b]);
            } else {
                assert(mu[a] == m0[a]);
                assert(mu[b].0@ == t@);
            }
        }
        assert forall|x: Seq<char>|
            #[trigger] lookup(mu, x) == lookup(m0, x) + if x == t@ {
                1int
            } else {
                0int
            } by {
            if x == t@ {
                assert forall|j: int| 0 <= j < m0.len() implies (#[trigger] mu[j]).0@ != t@ by {
                    assert(mu[j] == m0[j]);
                }
                lemma_lookup_first(mu, t@, m0.len() as int);
            } else {
                lemma_lookup_push_other(m0, mu.last(), x);
            }
        }
        assert forall|x: Seq<char>| #[trigger] has_key(mu, x) <==> has_key(m0, x) || x == t@ by {
            if has_key(mu, x) && x != t@ {
                let j = choose|j: int| 0 <= j < mu.len() && (#[trigger] mu[j]).0@ == x;
                assert(j < m0.len());
                assert(has_key(m0, x));
            }
            if has_key(m0, x) {
                let j = choose|j: int| 0 <= j < m0.len() && (#[trigger] m0[j]).0@ == x;
                assert(mu[j].0@ == m0[j].0@);
                assert(has_key(mu, x));
            }
            if x == t@ {
                assert(has_key(mu, x));
            }
        }
    }
}

/// How many of the first `i` documents contain term `t` at least once.
pub open spec fn df_count(docs: Seq<String>, t: Seq<char>, i: int) -> int
    decreases i,
{
    if i <= 0 {
        0
    } else {
        df_count(docs, t, i - 1) + if count_occ(tokens_of(docs[i - 1]@), t) > 0 {
            1int
        } else {
            0int
        }
    }
}

pub proof fn lemma_df_count_bounds(docs: Seq<String>, t: Seq<char>, i: int)
    ensures
        0 <= df_count(docs, t, i) <= if i >= 0 {
            i
        } else {
            0
        },
    decreases i,
{
    if i > 0 {
        lemma_df_count_bounds(docs, t, i - 1);
    }
}

/// The total token count of the first `i` documents.
pub open spec fn total_len(docs: Seq<String>, i: int) -> int
    decreases i,
{
    if i <= 0 {
        0
    } else {
        total_len(docs, i - 1) + word_spans(docs[i - 1]@).len()
    }
}

/// A BM25 search index over a fixed collection of documents.
pub struct BM25Index {
    /// Per-document term frequencies, keyed by term.
    tf: Vec<Vec<(String, usize)>>,
    /// Number of documents containing each term.
    df: Vec<(String, usize)>,
    /// Token count of each document.
    doc_lengths: Vec<usize>,
    /// Total token count over all documents.
    sum_len: u128,
    /// Number of documents.
    n_docs: usize,
    /// Term-frequency saturation constant, in thousandths.
    k1_milli: u64,
    /// Length-normalization constant, in thousandths.
    b_milli: u64,
}

impl BM25Index {
    /// How many documents the index was built from.
    pub closed spec fn doc_count_spec(&self) -> int {
        self.n_docs as int
    }

    /// The recorded token count of document `d`.
    pub closed spec fn doc_len_of(&self, d: int) -> int {
        self.doc_lengths@[d] as int
    }

    /// The recorded frequency of term `t` in document `d`.
    pub closed spec fn tf_of(&self, d: int, t: Seq<char>) -> int {
        lookup(self.tf@[d]@, t)
    }

    /// The recorded number of documents containing term `t`.
    pub closed spec fn df_of(&self, t: Seq<char>) -> int {
        lookup(self.df@, t)
    }

    /// The recorded total token count.
    pub closed spec fn sum_len_spec(&self) -> int {
        self.sum_len as int
    }

    /// The stored `k1` constant, in thousandths.
    pub closed spec fn k1_spec(&self) -> int {
        self.k1_milli as int
    }

    /// The stored `b` constant, in thousandths.
    pub closed spec fn b_spec(&self) -> int {
        self.b_milli as int
    }

    #[verifier::type_invariant]
    spec fn wf(&self) -> bool {
        &&& self.tf@.len() == self.n_docs
        &&& self.doc_lengths@.len() == self.n_docs
        &&& forall|d: int| 0 <= d < self.n_docs ==> distinct_keys((#[trigger] self.tf@[d])@)
        &&& forall|d: int, k: int|
            0 <= d < self.n_docs && 0 <= k < self.tf@[d]@.len() ==> 1 <= (#[trigger] self.tf@[d]@[k]).1
                <= self.doc_lengths@[d]
        &&& distinct_keys(self.df@)
        &&& forall|k: int| 0 <= k < self.df@.len() ==> 1 <= (#[trigger] self.df@[k]).1 <= self.n_docs
        &&& forall|d: int|
            0 <= d < self.n_docs ==> (#[trigger] self.doc_lengths@[d]) as int <= self.sum_len as int
        &&& self.k1_milli <= 1000000
        &&& self.b_milli <= 1000
    }

    /// The fixed-point BM25 score of document `d` for the given query
    /// tokens: the sum over the tokens of their `contribution_fixed`.
    pub open spec fn score_of(&self, tokens: Seq<Seq<char>>, d: int) -> int
        decreases tokens.len(),
    {
        if tokens.len() == 0 {
            0
        } else {
            self.score_of(tokens.drop_last(), d) + contribution_fixed(
                self.tf_of(d, tokens.last()),
                self.df_of(tokens.last()),
                self.doc_len_of(d),
                self.doc_count_spec(),
                self.sum_len_spec(),
                self.k1_spec(),
                self.b_spec(),
            )
        }
    }

    /// How many of the first `i` documents have a positive score.
    pub open spec fn pos_count(&self, tokens: Seq<Seq<char>>, i: int) -> int
        decreases i,
    {
        if i <= 0 {
            0
        } else {
            self.pos_count(tokens, i - 1) + if self.score_of(tokens, i - 1) > 0 {
                1int
            } else {
                0int
            }
        }
    }

    /// Builds the index: tokenizes every document once, recording each
    /// document's term frequencies and token count, each term's document
    /// frequency, and the total token count.  The constants are given in
    /// thousandths (1200 and 750 stand for the defaults k1 = 1.2 and
    /// b = 0.75).
    pub fn new(documents: Vec<String>, k1_milli: u64, b_milli: u64) -> (index: BM25Index)
        requires
            k1_milli <= 1000000,
            b_milli <= 1000,
        ensures
            index.doc_count_spec() == documents@.len(),
            forall|d: int|
                0 <= d < documents@.len() ==> #[trigger] index.doc_len_of(d) == word_spans(
                    documents@[d]@,
                ).len(),
            forall|d: int, t: Seq<char>|
                0 <= d < documents@.len() ==> #[trigger] index.tf_of(d, t) == count_occ(
                    tokens_of(documents@[d]@),
                    t,
                ),
            forall|t: Seq<char>|
                #[trigger] index.df_of(t) == df_count(documents@, t, documents@.len() as int),
            index.sum_len_spec() == total_len(documents@, documents@.len() as int),
            index.k1_spec() == k1_milli as int,
            index.b_spec() == b_milli as int,
    {
        let ghost docs = documents@;
        let n_docs = documents.len();
        let mut tf: Vec<Vec<(String, usize)>> = Vec::new();
        let mut df: Vec<(String, usize)> = Vec::new();
        let mut doc_lengths: Vec<usize> = Vec::new();
        let mut sum_len: u128 = 0;
        let mut d: usize = 0;
        while d < n_docs
            invariant
                docs == documents@,
                n_docs == docs.len(),
                tf@.len() == d,
                doc_lengths@.len() == d,
                0 <= d <= n_docs,
                forall|dd: int|
                    0 <= dd < d ==> (#[trigger] doc_lengths@[dd]) as int == word_spans(
                        docs[dd]@,
                    ).len(),
                forall|dd: int, t: Seq<char>|
                    0 <= dd < d ==> #[trigger] lookup(tf@[dd]@, t) == count_occ(
                        tokens_of(docs[dd]@),
                        t,
                    ),
                forall|dd: int| 0 <= dd < d ==> distinct_keys((#[trigger] tf@[dd])@),
                forall|dd: int, k: int|
                    0 <= dd < d && 0 <= k < tf@[dd]@.len() ==> 1 <= (#[trigger] tf@[dd]@[k]).1
                        <= doc_lengths@[dd],
                distinct_keys(df@),
                forall|k: int| 0 <= k < df@.len() ==> 1 <= (#[trigger] df@[k]).1 <= d,
                forall|t: Seq<char>| #[trigger] lookup(df@, t) == df_count(docs, t, d as int),
                sum_len as int == total_len(docs, d as int),
                sum_len as int <= (d as int) * 0x10000000000000000,
                forall|dd: int|
                    0 <= dd < d ==> (#[trigger] doc_lengths@[dd]) as int <= sum_len as int,
            decreases n_docs - d,
        {
            let tokens = tokenize(documents[d].as_str());
            let ghost toks = tokens_of(docs[d as int]@);
            assert(tokens@.map_values(|t: String| t@) == toks);
            let len_d = tokens.len();
            proof {
                assert(toks.len() == word_spans(docs[d as int]@).len());
                assert(tokens@.map_values(|t: String| t@).len() == tokens@.len());
            }
            assert(len_d as int == word_spans(docs[d as int]@).len());
            doc_lengths.push(len_d);
            proof {
                assert(sum_len as int + len_d as int <= 0xffffffffffffffffffffffffffffffff)
                    by (nonlinear_arith)
                    requires
                        sum_len as int <= (d as int) * 0x10000000000000000,
                        d as int <= 0xffffffffffffffff,
                        0 <= len_d as int <= 0xffffffffffffffff,
                ;
                assert(sum_len as int + len_d as int <= ((d + 1) as int) * 0x10000000000000000)
                    by (nonlinear_arith)
                    requires
                        sum_len as int <= (d as int) * 0x10000000000000000,
                        0 <= len_d as int <= 0xffffffffffffffff,
                ;
            }
            sum_len = sum_len + (len_d as u128);
            let mut term_freq: Vec<(String, usize)> = Vec::new();
            let mut j: usize = 0;
            while j < tokens.len()
                invariant
                    tokens@.map_values(|t: String| t@) == toks,
                    0 <= j <= tokens@.len(),
                    distinct_keys(term_freq@),
                    forall|x: Seq<char>|
                        #[trigger] lookup(term_freq@, x) == count_occ(toks.take(j as int), x),
                    forall|k: int| 0 <= k < term_freq@.len() ==> (#[trigger] term_freq@[k]).1 >= 1,
                decreases tokens@.len() - j,
            {
                let ghost pre = term_freq@;
                let ghost x0 = tokens@[j as int]@;
                assert(x0 == toks[j as int]);
                proof {
                    lemma_count_occ_bounds(toks.take(j as int), x0);
                }
                incr(&mut term_freq, &tokens[j]);
                proof {
                    let post = term_freq@;
                    assert forall|x: Seq<char>| #[trigger] lookup(post, x) == count_occ(
                        toks.take(j + 1),
                        x,
                    ) by {
                        assert(toks.take(j + 1).drop_last() =~= toks.take(j as int));
                        assert(toks.take(j + 1).last() == toks[j as int]);
                        assert(lookup(post, x) == lookup(pre, x) + if x == x0 {
                            1int
                        } else {
                            0int
                        });
                    }
                    assert forall|k: int| 0 <= k < post.len() implies (#[trigger] post[k]).1
                        >= 1 by {
                        lemma_entry_lookup(post, k);
                        let key = post[k].0@;
                        assert(has_key(post, key));
                        if key == x0 {
                            lemma_count_occ_bounds(toks.take(j as int), key);
                        } else {
                            assert(has_key(pre, key));
                            lemma_lookup_positive(pre, key);
                        }
                        assert(lookup(post, key) >= 1);
                    }
                }
                j += 1;
            }
            assert(toks.take(tokens@.len() as int) =~= toks);
            assert(forall|x: Seq<char>| #[trigger] lookup(term_freq@, x) == count_occ(toks, x));
            assert forall|k: int| 0 <= k < term_freq@.len() implies 1 <= (
            #[trigger] term_freq@[k]).1 <= len_d by {
                lemma_entry_lookup(term_freq@, k);
                lemma_count_occ_bounds(toks, term_freq@[k].0@);
            }
            let ghost df_pre = df@;
            let mut k2: usize = 0;
            while k2 < term_freq.len()
                invariant
                    docs == documents@,
                    d < docs.len(),
                    docs.len() <= usize::MAX,
                    toks == tokens_of(docs[d as int]@),
                    distinct_keys(term_freq@),
                    forall|x: Seq<char>| #[trigger] lookup(term_freq@, x) == count_occ(toks, x),
                    forall|k: int| 0 <= k < term_freq@.len() ==> (#[trigger] term_freq@[k]).1 >= 1,
                    0 <= k2 <= term_freq@.len(),
                    distinct_keys(df@),
                    forall|k: int| 0 <= k < df@.len() ==> 1 <= (#[trigger] df@[k]).1 <= d + 1,
                    forall|x: Seq<char>|
                        #[trigger] lookup(df@, x) == df_count(docs, x, d as int) + if has_key(
                            term_freq@.take(k2 as int),
                            x,
                        ) {
                            1int
                        } else {
                            0int
                        },
                decreases term_freq@.len() - k2,
            {
                let ghost dfp = df@;
                let ghost key = term_freq@[k2 as int].0@;
                proof {
                    lemma_df_count_bounds(docs, key, d as int);
                    assert(!has_key(term_freq@.take(k2 as int), key)) by {
                        if has_key(term_freq@.take(k2 as int), key) {
                            let w = choose|w: int|
                                0 <= w < k2 && (#[trigger] term_freq@.take(k2 as int)[w]).0@
                                    == key;
                            assert(term_freq@[w].0@ == key);
                        }
                    }
                    assert(lookup(df@, key) <= d as int);
                    assert((d as int) < (usize::MAX as int));
                }
                incr(&mut df, &term_freq[k2].0);
                proof {
                    let dfn = df@;
                    assert forall|x: Seq<char>| #[trigger] lookup(dfn, x) == df_count(
                        docs,
                        x,
                        d as int,
                    ) + if has_key(term_freq@.take(k2 + 1), x) {
                        1int
                    } else {
                        0int
                    } by {
                        assert(lookup(dfn, x) == lookup(dfp, x) + if x == key {
                            1int
                        } else {
                            0int
                        });
                        if has_key(term_freq@.take(k2 + 1), x) {
                            let w = choose|w: int|
                                0 <= w < k2 + 1 && (#[trigger] term_freq@.take(k2 + 1)[w]).0@
                                    == x;
                            if w < k2 {
                                assert(term_freq@.take(k2 as int)[w].0@ == x);
                                assert(has_key(term_freq@.take(k2 as int), x));
                            } else {
                                assert(x == key);
                            }
                        }
                        if has_key(term_freq@.take(k2 as int), x) {
                            let w = choose|w: int|
                                0 <= w < k2 && (#[trigger] term_freq@.take(k2 as int)[w]).0@
                                    == x;
                            assert(term_freq@.take(k2 + 1)[w].0@ == x);
                            assert(has_key(term_freq@.take(k2 + 1), x));
                        }
                        if x == key {
                            assert(term_freq@.take(k2 + 1)[k2 as int].0@ == x);
                            assert(has_key(term_freq@.take(k2 + 1), x));
                        }
                    }
                    assert forall|k: int| 0 <= k < dfn.len() implies 1 <= (#[trigger] dfn[k]).1
                        <= d + 1 by {
                        lemma_entry_lookup(dfn, k);
                        let kk = dfn[k].0@;
                        assert(has_key(dfn, kk));
                        if kk == key {
                            lemma_df_count_bounds(docs, kk, d as int);
                        } else {
                            assert(has_key(dfp, kk));
                            lemma_lookup_positive(dfp, kk);
                            lemma_df_count_bounds(docs, kk, d as int);
                        }
                        assert(lookup(dfn, kk) == dfn[k].1);
                    }
                }
                k2 += 1;
            }
            proof {
                assert(term_freq@.take(term_freq@.len() as int) =~= term_freq@);
                assert forall|x: Seq<char>| #[trigger] lookup(df@, x) == df_count(
                    docs,
                    x,
                    d + 1,
                ) by {
                    lemma_lookup_positive(term_freq@, x);
                    assert(has_key(term_freq@, x) <==> count_occ(toks, x) > 0);
                    assert(df_count(docs, x, d + 1) == df_count(docs, x, d as int) + if count_occ(
                        tokens_of(docs[d as int]@),
                        x,
                    ) > 0 {
                        1int
                    } else {
                        0int
                    });
                }
            }
            tf.push(term_freq);
            d += 1;
        }
        let index = BM25Index {
            tf,
            df,
            doc_lengths,
            sum_len,
            n_docs,
            k1_milli,
            b_milli,
        };
        index
    }

    /// How many documents the index holds.
    pub fn size(&self) -> (n: usize)
        ensures
            n as int == self.doc_count_spec(),
    {
        self.n_docs
    }

    /// The recorded token count of document `d`.
    pub fn doc_length(&self, d: usize) -> (len: usize)
        requires
            (d as int) < self.doc_count_spec(),
        ensures
            len as int == self.doc_len_of(d as int),
    {
        proof {
            use_type_invariant(&*self);
        }
        self.doc_lengths[d]
    }

    /// How many distinct terms the index knows.
    pub closed spec fn vocab_spec(&self) -> int {
        self.df@.len() as int
    }

    /// The average document token length, rounded down; 0 for an empty
    /// index.
    pub open spec fn avg_len_spec(&self) -> int {
        if self.doc_count_spec() == 0 {
            0
        } else {
            self.sum_len_spec() / self.doc_count_spec()
        }
    }

    /// A human-readable description of the index: document count,
    /// vocabulary size, average document length in tokens, and the two
    /// tuning constants in thousandths.
    pub fn summary(&self) -> (r: String)
        ensures
            r@ == "BM25Index(docs="@ + digits_of(self.doc_count_spec()) + ", vocab="@ + digits_of(
                self.vocab_spec(),
            ) + ", avg_len="@ + digits_of(self.avg_len_spec()) + ", k1_milli="@ + digits_of(
                self.k1_spec(),
            ) + ", b_milli="@ + digits_of(self.b_spec()) + ")"@,
    {
        proof {
            use_type_invariant(&*self);
        }
        let mut r = String::new();
        r.append("BM25Index(docs=");
        push_decimal(&mut r, self.n_docs as u128);
        r.append(", vocab=");
        push_decimal(&mut r, self.df.len() as u128);
        r.append(", avg_len=");
        let avg: u128 = if self.n_docs == 0 {
            0
        } else {
            self.sum_len / (self.n_docs as u128)
        };
        push_decimal(&mut r, avg);
        r.append(", k1_milli=");
        push_decimal(&mut r, self.k1_milli as u128);
        r.append(", b_milli=");
        push_decimal(&mut r, self.b_milli as u128);
        r.append(")");
        assert(r@ =~= "BM25Index(docs="@ + digits_of(self.doc_count_spec()) + ", vocab="@
            + digits_of(self.vocab_spec()) + ", avg_len="@ + digits_of(self.avg_len_spec())
            + ", k1_milli="@ + digits_of(self.k1_spec()) + ", b_milli="@ + digits_of(self.b_spec())
            + ")"@);
        r
    }

    /// The fixed-point BM25 score of document `d` for the given query
    /// tokens.
    fn score_doc(&self, qtokens: &Vec<String>, d: usize) -> (s: u128)
        requires
            (d as int) < self.doc_count_spec(),
        ensures
            s as int == self.score_of(qtokens@.map_values(|t: String| t@), d as int),
            s as int <= qtokens@.len() * 0x2000000000000,
    {
        proof {
            use_type_invariant(&*self);
        }
        let ghost toks = qtokens@.map_values(|t: String| t@);
        let mut acc: u128 = 0;
        let mut j: usize = 0;
        while j < qtokens.len()
            invariant
                self.wf(),
                toks == qtokens@.map_values(|t: String| t@),
                (d as int) < self.doc_count_spec(),
                0 <= j <= qtokens@.len(),
                acc as int == self.score_of(toks.take(j as int), d as int),
                acc as int <= (j as int) * 0x2000000000000,
            decreases qtokens@.len() - j,
        {
            let tok = &qtokens[j];
            assert(tok@ == toks[j as int]);
            let f = get_count(&self.tf[d], tok);
            assert(f as int == self.tf_of(d as int, tok@));
            let ghost term_gain = contribution_fixed(
                self.tf_of(d as int, tok@),
                self.df_of(tok@),
                self.doc_len_of(d as int),
                self.doc_count_spec(),
                self.sum_len_spec(),
                self.k1_spec(),
                self.b_spec(),
            );
            if f > 0 {
                let dfv = get_count(&self.df, tok);
                proof {
                    let m = self.tf@[d as int]@;
                    lemma_lookup_positive(m, tok@);
                    assert(has_key(m, tok@));
                    let w = choose|w: int| 0 <= w < m.len() && (#[trigger] m[w]).0@ == tok@;
                    lemma_entry_lookup(m, w);
                    assert(f as int == m[w].1);
                    assert(f <= self.doc_lengths@[d as int]);
                    lemma_lookup_positive(self.df@, tok@);
                    if has_key(self.df@, tok@) {
                        let w2 = choose|w2: int|
                            0 <= w2 < self.df@.len() && (#[trigger] self.df@[w2]).0@ == tok@;
                        lemma_entry_lookup(self.df@, w2);
                        assert(dfv as int == self.df@[w2].1);
                        assert(dfv <= self.n_docs);
                    } else {
                        assert(dfv as int == 0);
                    }
                }
                let c = contribution(
                    f,
                    dfv,
                    self.doc_lengths[d],
                    self.n_docs,
                    self.sum_len,
                    self.k1_milli,
                    self.b_milli,
                );
                assert(c as int == term_gain);
                proof {
                    assert(acc as int + c as int <= ((j + 1) as int) * 0x2000000000000)
                        by (nonlinear_arith)
                        requires
                            acc as int <= (j as int) * 0x2000000000000,
                            c as int <= 0x2000000000000,
                            0 <= j,
                    ;
                }
                acc = acc + c;
            } else {
                assert(term_gain == 0);
                proof {
                    assert(acc as int <= ((j + 1) as int) * 0x2000000000000) by (nonlinear_arith)
                        requires
                            acc as int <= (j as int) * 0x2000000000000,
                            0 <= j,
                    ;
                }
            }
            proof {
                assert(toks.take(j + 1).drop_last() =~= toks.take(j as int));
                assert(toks.take(j + 1).last() == toks[j as int]);
                assert(self.score_of(toks.take(j + 1), d as int) == self.score_of(
                    toks.take(j as int),
                    d as int,
                ) + term_gain);
            }
            j += 1;
        }
        assert(toks.take(qtokens@.len() as int) =~= toks);
        acc
    }

    /// Scores every document against the query and returns the `top_k`
    /// best matches as `(document index, fixed-point score)` pairs, sorted
    /// by score descending.  Exactly the documents with a positive score
    /// are candidates; a document missing from a result shorter than
    /// `top_k` scored zero, and one missing from a full result scores no
    /// more than the last returned entry.
    pub fn search(&self, query: &str, top_k: usize) -> (results: Vec<(usize, u128)>)
        ensures
            ({
                let toks = tokens_of(query@);
                let n = self.doc_count_spec();
                &&& results@.len() <= top_k
                &&& results@.len() == if top_k as int <= self.pos_count(toks, n) {
                    top_k as int
                } else {
                    self.pos_count(toks, n)
                }
                &&& forall|i: int|
                    0 <= i < results@.len() ==> ((#[trigger] results@[i]).0 as int) < n
                &&& forall|i: int|
                    0 <= i < results@.len() ==> (#[trigger] results@[i]).1 as int == self.score_of(
                        toks,
                        results@[i].0 as int,
                    ) && results@[i].1 > 0
                &&& forall|i: int, j: int|
                    0 <= i < j < results@.len() ==> (#[trigger] results@[i]).1
                        >= (#[trigger] results@[j]).1
                &&& forall|i: int, j: int|
                    0 <= i < j < results@.len() ==> (#[trigger] results@[i]).0
                        != (#[trigger] results@[j]).0
                &&& forall|dd: int|
                    0 <= dd < n && #[trigger] self.score_of(toks, dd) > 0 ==> (exists|i: int|
                        0 <= i < results@.len() && ((#[trigger] results@[i]).0 as int) == dd) || (
                    results@.len() == top_k && (top_k == 0 || self.score_of(toks, dd)
                        <= results@[top_k - 1].1 as int))
            }),
    {
        broadcast use vstd::seq_lib::group_to_multiset_ensures;
        broadcast use vstd::multiset::group_multiset_axioms;

        proof {
            use_type_invariant(&*self);
        }
        let qtokens = tokenize(query);
        let ghost toks = tokens_of(query@);
        assert(qtokens@.map_values(|t: String| t@) == toks);
        let n = self.n_docs;
        let mut scored: Vec<(usize, u128)> = Vec::new();
        let mut d: usize = 0;
        while d < n
            invariant
                self.wf(),
                n == self.n_docs,
                toks == qtokens@.map_values(|t: String| t@),
                0 <= d <= n,
                scored@.len() == self.pos_count(toks, d as int),
                forall|i: int|
                    0 <= i < scored@.len() ==> ((#[trigger] scored@[i]).0 as int) < d as int
                        && scored@[i].1 as int == self.score_of(toks, scored@[i].0 as int)
                        && scored@[i].1 > 0,
                forall|i: int, j: int|
                    0 <= i < j < scored@.len() ==> (#[trigger] scored@[i]).0
                        < (#[trigger] scored@[j]).0,
                forall|dd: int|
                    0 <= dd < d && #[trigger] self.score_of(toks, dd) > 0 ==> exists|i: int|
                        0 <= i < scored@.len() && ((#[trigger] scored@[i]).0 as int) == dd,
            decreases n - d,
        {
            let ghost pre = scored@;
            let s = self.score_doc(&qtokens, d);
            if s > 0 {
                scored.push((d, s));
            }
            proof {
                assert(self.pos_count(toks, d + 1) == self.pos_count(toks, d as int)
                    + if self.score_of(toks, d as int) > 0 {
                    1int
                } else {
                    0int
                });
                assert forall|dd: int| 0 <= dd < d + 1 && #[trigger] self.score_of(toks, dd)
                    > 0 implies exists|i: int|
                    0 <= i < scored@.len() && ((#[trigger] scored@[i]).0 as int) == dd by {
                    if dd < d {
                        let w = choose|w: int|
                            0 <= w < pre.len() && ((#[trigger] pre[w]).0 as int) == dd;
                        assert(scored@[w].0 == pre[w].0);
                    } else {
                        assert(scored@[pre.len() as int].0 == d);
                    }
                }
            }
            d += 1;
        }
        let ghost sc = scored@;
        let sorted_pairs = sort_desc(scored);
        let ghost so = sorted_pairs@;
        proof {
            assert forall|i: int| 0 <= i < so.len() implies ((#[trigger] so[i]).0 as int)
                < n as int && so[i].1 as int == self.score_of(toks, so[i].0 as int) && so[i].1
                > 0 by {
                so.lemma_index_contains(i);
                assert(so.to_multiset().count(so[i]) > 0);
                assert(sc.to_multiset().count(so[i]) > 0);
                assert(sc.contains(so[i]));
                let w = choose|w: int| 0 <= w < sc.len() && sc[w] == so[i];
                assert(sc[w].1 as int == self.score_of(toks, sc[w].0 as int));
            }
            assert forall|i: int, j: int|
                0 <= i < sc.len() && 0 <= j < sc.len() && i != j implies sc[i] != sc[j] by {
                if i < j {
                    assert(sc[i].0 < sc[j].0);
                } else {
                    assert(sc[j].0 < sc[i].0);
                }
            }
            sc.lemma_multiset_has_no_duplicates();
            assert forall|x: (usize, u128)| so.to_multiset().contains(x) implies so.to_multiset().count(
                x,
            ) == 1 by {
                assert(sc.to_multiset().count(x) > 0);
                assert(sc.to_multiset().contains(x));
            }
            so.lemma_multiset_has_no_duplicates_conv();
            assert forall|i: int, j: int| 0 <= i < j < so.len() implies (#[trigger] so[i]).0
                != (#[trigger] so[j]).0 by {
                if so[i].0 == so[j].0 {
                    assert(so[i].1 as int == self.score_of(toks, so[i].0 as int));
                    assert(so[j].1 as int == self.score_of(toks, so[j].0 as int));
                    assert(so[i] == so[j]);
                    assert(false);
                }
            }
        }
        let mut results = sorted_pairs;
        results.truncate(top_k);
        proof {
            let rv = results@;
            if top_k <= so.len() {
                assert(rv == so.subrange(0, top_k as int));
            } else {
                assert(rv == so);
            }
            assert forall|dd: int| 0 <= dd < n as int && #[trigger] self.score_of(toks, dd)
                > 0 implies (exists|i: int|
                0 <= i < rv.len() && ((#[trigger] rv[i]).0 as int) == dd) || (rv.len() == top_k && (
            top_k == 0 || self.score_of(toks, dd) <= rv[top_k - 1].1 as int)) by {
                let w = choose|w: int| 0 <= w < sc.len() && ((#[trigger] sc[w]).0 as int) == dd;
                let x = sc[w];
                sc.lemma_index_contains(w);
                assert(sc.to_multiset().count(x) > 0);
                assert(so.to_multiset().count(x) > 0);
                assert(so.contains(x));
                let j = choose|j: int| 0 <= j < so.len() && so[j] == x;
                assert(x.1 as int == self.score_of(toks, dd));
                if j < rv.len() {
                    assert(rv[j] == so[j]);
                    assert((rv[j].0 as int) == dd);
                } else {
                    assert(rv.len() < so.len());
                    assert(rv.len() == top_k);
                    if top_k >= 1 {
                        assert(so[top_k - 1].1 >= so[j].1);
                        assert(rv[top_k - 1] == so[top_k - 1]);
                    }
                }
            }
        }
        results
    }
}

/// Empty corpus: an index over no documents counts no positively scoring
/// document for any query, so by `search`'s contract every search over it
/// returns an empty result.
pub proof fn lemma_empty_corpus(index: &BM25Index, tokens: Seq<Seq<char>>)
    requires
        index.doc_count_spec() == 0,
    ensures
        index.pos_count(tokens, index.doc_count_spec()) == 0,
{
}

/// The decimal digit characters of `n`, most significant first.
pub open spec fn digits_of(n: int) -> Seq<char>
    decreases n,
{
    if n <= 9 {
        seq![digit_char(n)]
    } else {
        digits_of(n / 10) + seq![digit_char(n % 10)]
    }
}

/// The character for one decimal digit.
pub open spec fn digit_char(d: int) -> char {
    if d == 0 {
        '0'
    } else if d == 1 {
        '1'
    } else if d == 2 {
        '2'
    } else if d == 3 {
        '3'
    } else if d == 4 {
        '4'
    } else if d == 5 {
        '5'
    } else if d == 6 {
        '6'
    } else if d == 7 {
        '7'
    } else if d == 8 {
        '8'
    } else {
        '9'
    }
}

fn digit_str(d: u128) -> (r: &'static str)
    requires
        d <= 9,
    ensures
        r@ == seq![digit_char(d as int)],
{
    proof {
        reveal_strlit("0");
        reveal_strlit("1");
        reveal_strlit("2");
        reveal_strlit("3");
        reveal_strlit("4");
        reveal_strlit("5");
        reveal_strlit("6");
        reveal_strlit("7");
        reveal_strlit("8");
        reveal_strlit("9");
    }
    let r = if d == 0 {
        "0"
    } else if d == 1 {
        "1"
    } else if d == 2 {
        "2"
    } else if d == 3 {
        "3"
    } else if d == 4 {
        "4"
    } else if d == 5 {
        "5"
    } else if d == 6 {
        "6"
    } else if d == 7 {
        "7"
    } else if d == 8 {
        "8"
    } else {
        "9"
    };
    assert(r@ =~= seq![digit_char(d as int)]);
    r
}

/// Appends the decimal digits of `n` to `out`.
fn push_decimal(out: &mut String, n: u128)
    ensures
        final(out)@ == old(out)@ + digits_of(n as int),
    decreases n,
{
    if n <= 9 {
        out.append(digit_str(n));
        assert(out@ =~= old(out)@ + digits_of(n as int));
    } else {
        push_decimal(out, n / 10);
        out.append(digit_str(n % 10));
        assert(out@ =~= old(out)@ + digits_of(n as int));
    }
}

/// Sorts the scored pairs by score, highest first, keeping exactly the same
/// collection of pairs.
fn sort_desc(v: Vec<(usize, u128)>) -> (r: Vec<(usize, u128)>)
    ensures
        r@.len() == v@.len(),
        r@.to_multiset() == v@.to_multiset(),
        forall|i: int, j: int|
            0 <= i < j < r@.len() ==> (#[trigger] r@[i]).1 >= (#[trigger] r@[j]).1,
{
    broadcast use vstd::seq_lib::group_to_multiset_ensures;
    broadcast use vstd::multiset::group_multiset_axioms;

    let mut r: Vec<(usize, u128)> = Vec::new();
    let mut i: usize = 0;
    assert(r@ =~= v@.take(0));
    while i < v.len()
        invariant
            0 <= i <= v@.len(),
            r@.len() == i,
            r@.to_multiset() == v@.take(i as int).to_multiset(),
            forall|a: int, b: int|
                0 <= a < b < r@.len() ==> (#[trigger] r@[a]).1 >= (#[trigger] r@[b]).1,
        decreases v@.len() - i,
    {
        broadcast use vstd::seq_lib::group_to_multiset_ensures;
        broadcast use vstd::multiset::group_multiset_axioms;

        let x = v[i];
        let ghost r0 = r@;
        let mut p: usize = 0;
        while p < r.len() && r[p].1 >= x.1
            invariant
                r@ == r0,
                0 <= p <= r0.len(),
                forall|q: int| 0 <= q < p ==> (#[trigger] r0[q]).1 >= x.1,
            decreases r0.len() - p,
        {
            p += 1;
        }
        r.insert(p, x);
        proof {
            let rn = r@;
            assert(rn == r0.insert(p as int, x));
            assert(rn[p as int] == x);
            assert forall|a: int, b: int| 0 <= a < b < rn.len() implies (#[trigger] rn[a]).1
                >= (#[trigger] rn[b]).1 by {
                if a < p {
                    assert(rn[a] == r0[a]);
                } else if a == p {
                    assert(rn[a] == x);
                } else {
                    assert(rn[a] == r0[a - 1]);
                }
                if b < p {
                    assert(rn[b] == r0[b]);
                } else if b == p {
                    assert(rn[b] == x);
                } else {
                    assert(rn[b] == r0[b - 1]);
                }
                if b > p && (p as int) < r0.len() {
                    assert(r0[p as int].1 < x.1);
                    assert(r0[b - 1].1 <= r0[p as int].1);
                }
            }
            assert(rn.remove(p as int) =~= r0);
            assert(rn.remove(p as int).to_multiset() =~= rn.to_multiset().remove(x));
            assert(rn.contains(x));
            assert(rn.to_multiset().count(x) > 0);
            assert(rn.to_multiset() =~= r0.to_multiset().insert(x));
            assert(v@.take(i + 1) =~= v@.take(i as int).push(v@[i as int]));
            assert(v@.take(i + 1).to_multiset() =~= v@.take(i as int).to_multiset().insert(
                v@[i as int],
            ));
        }
        i += 1;
    }
    assert(v@.take(v@.len() as int) =~= v@);
    r
}

} // verus!
