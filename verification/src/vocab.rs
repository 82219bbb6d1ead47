//! The global vocabulary and its aggregation from per-author records.
//!
//! Aggregation is a pure reduction: every `(word, count)` pair of every
//! record adds its count to the word's accumulator, unless the word is a
//! stopword.  The contracts below pin the result down pointwise — each
//! word's aggregate count equals its summed count over the whole corpus —
//! and `lemma_aggregation_order_independent` shows that the result does not
//! depend on record order.

use vstd::prelude::*;

use crate::corpus::{
    bytes_eq, corpus_count_of, corpus_has_key, corpus_nonstop_total, count_of, entries_view,
    has_key, keys_unique, lookup_count, nonstop_total_of, records_view, total_of, CountEntry,
    FrequencyRecord,
};

verus! {

/// The process-wide stopword list: a set of word byte strings.
///
/// Membership is over the bytes of a word key; the caller encodes each
/// stopword into the same byte form that word keys use.
pub struct StopwordSet {
    pub words: Vec<Vec<u8>>,
}

impl StopwordSet {
    /// The set of byte strings this list holds.
    pub open spec fn spec_set(&self) -> Set<Seq<u8>> {
        Set::new(|w: Seq<u8>| exists|i: int| 0 <= i < self.words@.len() && self.words@[i]@ == w)
    }

    /// Wraps a list of stopword byte strings.
    pub fn from_words(words: Vec<Vec<u8>>) -> (s: Self)
        ensures
            s.words == words,
    {
        StopwordSet { words }
    }

    /// An empty stopword list.
    pub fn new() -> (s: Self)
        ensures
            s.spec_set() =~= Set::<Seq<u8>>::empty(),
    {
        let s = StopwordSet { words: Vec::new() };
        proof {
            assert(forall|w: Seq<u8>| !s.spec_set().contains(w));
        }
        s
    }

    /// Whether `w` is a stopword.
    pub fn is_stopword(&self, w: &Vec<u8>) -> (r: bool)
        ensures
            r == self.spec_set().contains(w@),
    {
        let mut i: usize = 0;
        while i < self.words.len()
            invariant
                i <= self.words@.len(),
                forall|k: int| 0 <= k < i ==> self.words@[k]@ != w@,
            decreases self.words@.len() - i,
        {
            if bytes_eq(&self.words[i], w) {
                return true;
            }
            i += 1;
        }
        false
    }
}

/// The global word-to-count mapping, keys unique.
pub struct Vocabulary {
    pub entries: Vec<CountEntry>,
}

impl Vocabulary {
    /// The mathematical mapping this vocabulary holds.
    pub open spec fn model(&self) -> Seq<(Seq<u8>, u64)> {
        entries_view(self.entries@)
    }

    /// Well-formedness: no word occurs twice.
    pub open spec fn wf(&self) -> bool {
        keys_unique(self.model())
    }

    /// The aggregate count for `w` (0 if absent).
    pub open spec fn spec_count(&self, w: Seq<u8>) -> int {
        count_of(self.model(), w)
    }

    /// Whether `w` has an entry.
    pub open spec fn spec_has(&self, w: Seq<u8>) -> bool {
        has_key(self.model(), w)
    }

    /// The sum of all aggregate counts.
    pub open spec fn spec_total(&self) -> int {
        total_of(self.model())
    }

    /// An empty vocabulary.
    pub fn new() -> (v: Self)
        ensures
            v.wf(),
            v.model().len() == 0,
    {
        Vocabulary { entries: Vec::new() }
    }

    /// Number of distinct words held.
    pub fn len(&self) -> (n: usize)
        ensures
            n == self.model().len(),
    {
        self.entries.len()
    }

    /// The aggregate count for `w`, by lookup.
    pub fn count(&self, w: &Vec<u8>) -> (c: u64)
        requires
            self.wf(),
        ensures
            c == self.spec_count(w@),
    {
        proof {
            lemma_count_nonneg(self.model(), w@);
        }
        match lookup_count(&self.entries, w) {
            Some(c) => c,
            None => 0,
        }
    }

    /// Adds `c` to the accumulator for `word`, creating the entry if absent.
    fn add_word(&mut self, word: &Vec<u8>, c: u64)
        requires
            old(self).wf(),
            old(self).spec_count(word@) + c <= u64::MAX,
        ensures
            final(self).wf(),
            final(self).spec_count(word@) == old(self).spec_count(word@) + c,
            forall|w: Seq<u8>| w != word@ ==> final(self).spec_count(w) == old(self).spec_count(w),
            forall|w: Seq<u8>|
                final(self).spec_has(w) == (old(self).spec_has(w) || w == word@),
            final(self).spec_total() == old(self).spec_total() + c,
    {
        let ghost s = self.model();
        let mut i: usize = 0;
        while i < self.entries.len()
            invariant
                i <= self.entries@.len(),
                s == self.model(),
                s == old(self).model(),
                s.len() == self.entries@.len(),
                keys_unique(s),
                count_of(s, word@) + c <= u64::MAX,
                forall|k: int| 0 <= k < i ==> s[k].0 != word@,
            decreases self.entries@.len() - i,
        {
            if bytes_eq(&self.entries[i].key, word) {
                proof {
                    crate::corpus::lemma_count_at_unique_key(s, word@, i as int);
                }
                let newc = self.entries[i].count + c;
                self.entries[i].count = newc;
                proof {
                    let s2 = self.model();
                    assert(s2 =~= s.update(i as int, (s[i as int].0, newc)));
                    lemma_count_update(s, i as int, newc, word@);
                    lemma_total_update(s, i as int, newc);
                    assert(forall|k: int| 0 <= k < s2.len() ==> s2[k].0 == s[k].0);
                    assert forall|w: Seq<u8>| w != word@ implies count_of(s2, w) == count_of(
                        s,
                        w,
                    ) by {
                        lemma_count_update(s, i as int, newc, w);
                    }
                    assert(forall|w: Seq<u8>| has_key(s2, w) == has_key(s, w));
                }
                return ;
            }
            i += 1;
        }
        let key = copy_bytes(word);
        self.entries.push(CountEntry { key, count: c });
        proof {
            let s2 = self.model();
            assert(s2 =~= s.push((word@, c)));
            crate::corpus::lemma_count_missing(s, word@);
            assert forall|w: Seq<u8>| #![auto] true implies count_of(s2, w) == count_of(s, w) + (
            if w == word@ {
                c as int
            } else {
                0
            }) by {
                lemma_count_snoc(s, (word@, c), w);
            }
            lemma_total_snoc(s, (word@, c));
            assert forall|w: Seq<u8>| has_key(s2, w) == (has_key(s, w) || w == word@) by {
                if has_key(s2, w) {
                    let k = choose|k: int| 0 <= k < s2.len() && s2[k].0 == w;
                    if k < s.len() {
                        assert(has_key(s, w));
                    }
                }
                if has_key(s, w) {
                    let k = choose|k: int| 0 <= k < s.len() && s[k].0 == w;
                    assert(s2[k].0 == w);
                }
                if w == word@ {
                    assert(s2[s.len() as int].0 == w);
                }
            }
            assert(keys_unique(s2));
        }
    }

    /// Merges one record's words into the vocabulary, skipping stopwords.
    fn absorb_record(&mut self, words: &Vec<CountEntry>, stop: &StopwordSet)
        requires
            old(self).wf(),
            forall|w: Seq<u8>|
                old(self).spec_count(w) + count_of(entries_view(words@), w) <= u64::MAX,
        ensures
            final(self).wf(),
            forall|w: Seq<u8>|
                final(self).spec_count(w) == old(self).spec_count(w) + (
                if stop.spec_set().contains(w) {
                    0
                } else {
                    count_of(entries_view(words@), w)
                }),
            forall|w: Seq<u8>|
                final(self).spec_has(w) == (old(self).spec_has(w) || (!stop.spec_set().contains(w)
                    && has_key(entries_view(words@), w))),
            final(self).spec_total() == old(self).spec_total() + nonstop_total_of(
                entries_view(words@),
                stop.spec_set(),
            ),
    {
        let ghost ws = entries_view(words@);
        let ghost st = stop.spec_set();
        let ghost v0 = *self;
        proof {
            assert(ws.skip(0) =~= ws);
        }
        let mut j: usize = 0;
        while j < words.len()
            invariant
                j <= words@.len(),
                ws == entries_view(words@),
                ws.len() == words@.len(),
                st == stop.spec_set(),
                self.wf(),
                forall|w: Seq<u8>|
                    self.spec_count(w) == v0.spec_count(w) + (if st.contains(w) {
                        0
                    } else {
                        count_of(ws.take(j as int), w)
                    }),
                forall|w: Seq<u8>|
                    self.spec_has(w) == (v0.spec_has(w) || (!st.contains(w) && has_key(
                        ws.take(j as int),
                        w,
                    ))),
                self.spec_total() == v0.spec_total() + nonstop_total_of(ws.take(j as int), st),
                forall|w: Seq<u8>| self.spec_count(w) + count_of(ws.skip(j as int), w) <= u64::MAX,
            decreases words@.len() - j,
        {
            let word = &words[j].key;
            let c = words[j].count;
            proof {
                assert(ws.skip(j as int)[0] == ws[j as int]);
                assert(ws.skip(j as int).skip(1) =~= ws.skip(j as int + 1));
                assert(ws.take(j as int + 1) =~= ws.take(j as int).push(ws[j as int]));
                lemma_count_nonneg(ws.skip(j as int + 1), word@);
            }
            if !stop.is_stopword(word) {
                self.add_word(word, c);
            }
            proof {
                assert forall|w: Seq<u8>| #![auto] count_of(ws.take(j as int + 1), w) == count_of(
                    ws.take(j as int),
                    w,
                ) + (if w == word@ {
                    c as int
                } else {
                    0
                }) by {
                    lemma_count_snoc(ws.take(j as int), ws[j as int], w);
                }
                lemma_nonstop_snoc(ws.take(j as int), ws[j as int], st);
                assert forall|w: Seq<u8>| #![auto] has_key(ws.take(j as int + 1), w) == (has_key(
                    ws.take(j as int),
                    w,
                ) || w == word@) by {
                    lemma_has_key_snoc(ws.take(j as int), ws[j as int], w);
                }
                assert forall|w: Seq<u8>|
                    self.spec_count(w) + count_of(ws.skip(j as int + 1), w)
                        <= u64::MAX by {
                    lemma_count_nonneg(ws.skip(j as int + 1), w);
                    assert(count_of(ws.skip(j as int), w) == (if ws[j as int].0 == w {
                        ws[j as int].1 as int
                    } else {
                        0
                    }) + count_of(ws.skip(j as int + 1), w));
                }
            }
            j += 1;
        }
        proof {
            assert(ws.take(ws.len() as int) =~= ws);
        }
    }
}

/// Copies a byte string.
pub(crate) fn copy_bytes(v: &Vec<u8>) -> (r: Vec<u8>)
    ensures
        r@ == v@,
{
    let mut r: Vec<u8> = Vec::new();
    let mut i: usize = 0;
    while i < v.len()
        invariant
            i <= v@.len(),
            r@ == v@.take(i as int),
        decreases v@.len() - i,
    {
        r.push(v[i]);
        proof {
            assert(v@.take(i as int + 1) =~= v@.take(i as int).push(v@[i as int]));
        }
        i += 1;
    }
    proof {
        assert(v@.take(v@.len() as int) =~= v@);
    }
    r
}

/// Merges every record of the corpus into one global vocabulary,
/// excluding stopwords.
///
/// The result is characterized pointwise: each word's aggregate count is
/// its summed count over the whole corpus (0 for stopwords), and the sum of
/// all aggregate counts is the corpus's non-stopword total.
pub fn aggregate(records: &Vec<FrequencyRecord>, stop: &StopwordSet) -> (v: Vocabulary)
    requires
        forall|w: Seq<u8>| corpus_count_of(records_view(records@), w) <= u64::MAX,
    ensures
        v.wf(),
        forall|w: Seq<u8>|
            v.spec_count(w) == (if stop.spec_set().contains(w) {
                0
            } else {
                corpus_count_of(records_view(records@), w)
            }),
        forall|w: Seq<u8>|
            v.spec_has(w) == (!stop.spec_set().contains(w) && corpus_has_key(
                records_view(records@),
                w,
            )),
        v.spec_total() == corpus_nonstop_total(records_view(records@), stop.spec_set()),
{
    let ghost rv = records_view(records@);
    let ghost st = stop.spec_set();
    let mut v = Vocabulary::new();
    proof {
        assert(rv.skip(0) =~= rv);
        assert(forall|w: Seq<u8>| !has_key(v.model(), w));
        assert(forall|w: Seq<u8>| count_of(v.model(), w) == 0);
    }
    let mut i: usize = 0;
    while i < records.len()
        invariant
            i <= records@.len(),
            rv == records_view(records@),
            rv.len() == records@.len(),
            st == stop.spec_set(),
            v.wf(),
            forall|w: Seq<u8>|
                v.spec_count(w) == (if st.contains(w) {
                    0
                } else {
                    corpus_count_of(rv.take(i as int), w)
                }),
            forall|w: Seq<u8>|
                v.spec_has(w) == (!st.contains(w) && corpus_has_key(rv.take(i as int), w)),
            v.spec_total() == corpus_nonstop_total(rv.take(i as int), st),
            forall|w: Seq<u8>|
                (if st.contains(w) {
                    0
                } else {
                    corpus_count_of(rv.take(i as int), w)
                }) + corpus_count_of(rv.skip(i as int), w) <= u64::MAX,
        decreases records@.len() - i,
    {
        proof {
            assert(rv.skip(i as int)[0] == rv[i as int]);
            assert(rv.skip(i as int).skip(1) =~= rv.skip(i as int + 1));
            assert(rv.take(i as int + 1) =~= rv.take(i as int).push(rv[i as int]));
            assert(rv[i as int].1 == entries_view(records@[i as int].words@));
            assert forall|w: Seq<u8>|
                v.spec_count(w) + count_of(entries_view(records@[i as int].words@), w)
                    <= u64::MAX by {
                lemma_corpus_count_nonneg(rv.skip(i as int + 1), w);
                lemma_count_nonneg(rv[i as int].1, w);
                if st.contains(w) {
                    lemma_corpus_count_nonneg(rv.take(i as int), w);
                    lemma_corpus_count_take_full(rv, i as int, w);
                } else {
                    lemma_corpus_count_take_full(rv, i as int, w);
                }
            }
        }
        v.absorb_record(&records[i].words, stop);
        proof {
            assert forall|w: Seq<u8>| #![auto] corpus_count_of(rv.take(i as int + 1), w)
                == corpus_count_of(rv.take(i as int), w) + count_of(rv[i as int].1, w) by {
                lemma_corpus_count_snoc(rv.take(i as int), rv[i as int], w);
            }
            lemma_corpus_nonstop_snoc(rv.take(i as int), rv[i as int], st);
            lemma_corpus_has_snoc(rv.take(i as int), rv[i as int]);
            assert forall|w: Seq<u8>|
                (if st.contains(w) {
                    0int
                } else {
                    corpus_count_of(rv.take(i as int + 1), w)
                }) + corpus_count_of(rv.skip(i as int + 1), w) <= u64::MAX by {
                lemma_corpus_count_nonneg(rv.skip(i as int + 1), w);
                lemma_count_nonneg(rv[i as int].1, w);
            }
        }
        i += 1;
    }
    proof {
        assert(rv.take(rv.len() as int) =~= rv);
    }
    v
}

/// The aggregate count of any word is never negative.
pub proof fn lemma_count_nonneg(s: Seq<(Seq<u8>, u64)>, w: Seq<u8>)
    ensures
        count_of(s, w) >= 0,
    decreases s.len(),
{
    if s.len() > 0 {
        lemma_count_nonneg(s.skip(1), w);
    }
}

/// The corpus-wide count of any word is never negative.
pub proof fn lemma_corpus_count_nonneg(rs: Seq<(Seq<u8>, Seq<(Seq<u8>, u64)>)>, w: Seq<u8>)
    ensures
        corpus_count_of(rs, w) >= 0,
    decreases rs.len(),
{
    if rs.len() > 0 {
        lemma_count_nonneg(rs[0].1, w);
        lemma_corpus_count_nonneg(rs.skip(1), w);
    }
}

/// Splitting a corpus at `i` splits its count sum.
proof fn lemma_corpus_count_take_full(rs: Seq<(Seq<u8>, Seq<(Seq<u8>, u64)>)>, i: int, w: Seq<u8>)
    requires
        0 <= i <= rs.len(),
    ensures
        corpus_count_of(rs, w) == corpus_count_of(rs.take(i), w) + corpus_count_of(rs.skip(i), w),
    decreases i,
{
    if i == 0 {
        assert(rs.take(0).len() == 0);
        assert(rs.skip(0) =~= rs);
    } else {
        assert(rs.take(i)[0] == rs[0]);
        assert(rs.take(i).skip(1) =~= rs.skip(1).take(i - 1));
        assert(rs.skip(i) =~= rs.skip(1).skip(i - 1));
        lemma_corpus_count_take_full(rs.skip(1), i - 1, w);
    }
}

proof fn lemma_count_snoc(s: Seq<(Seq<u8>, u64)>, p: (Seq<u8>, u64), w: Seq<u8>)
    ensures
        count_of(s.push(p), w) == count_of(s, w) + (if p.0 == w {
            p.1 as int
        } else {
            0
        }),
    decreases s.len(),
{
    if s.len() == 0 {
        assert(s.push(p)[0] == p);
        assert(s.push(p).skip(1).len() == 0);
        assert(count_of(s.push(p).skip(1), w) == 0);
    } else {
        assert(s.push(p)[0] == s[0]);
        assert(s.push(p).skip(1) =~= s.skip(1).push(p));
        lemma_count_snoc(s.skip(1), p, w);
    }
}

proof fn lemma_total_snoc(s: Seq<(Seq<u8>, u64)>, p: (Seq<u8>, u64))
    ensures
        total_of(s.push(p)) == total_of(s) + p.1,
    decreases s.len(),
{
    if s.len() == 0 {
        assert(s.push(p)[0] == p);
        assert(s.push(p).skip(1).len() == 0);
        assert(total_of(s.push(p).skip(1)) == 0);
    } else {
        assert(s.push(p)[0] == s[0]);
        assert(s.push(p).skip(1) =~= s.skip(1).push(p));
        lemma_total_snoc(s.skip(1), p);
    }
}

proof fn lemma_nonstop_snoc(s: Seq<(Seq<u8>, u64)>, p: (Seq<u8>, u64), st: Set<Seq<u8>>)
    ensures
        nonstop_total_of(s.push(p), st) == nonstop_total_of(s, st) + (if st.contains(p.0) {
            0
        } else {
            p.1 as int
        }),
    decreases s.len(),
{
    if s.len() == 0 {
        assert(s.push(p)[0] == p);
        assert(s.push(p).skip(1).len() == 0);
        assert(nonstop_total_of(s.push(p).skip(1), st) == 0);
    } else {
        assert(s.push(p)[0] == s[0]);
        assert(s.push(p).skip(1) =~= s.skip(1).push(p));
        lemma_nonstop_snoc(s.skip(1), p, st);
    }
}

proof fn lemma_has_key_snoc(s: Seq<(Seq<u8>, u64)>, p: (Seq<u8>, u64), w: Seq<u8>)
    ensures
        has_key(s.push(p), w) == (has_key(s, w) || p.0 == w),
{
    if has_key(s.push(p), w) {
        let k = choose|k: int| 0 <= k < s.push(p).len() && s.push(p)[k].0 == w;
        if k < s.len() {
            assert(s[k].0 == w);
        }
    }
    if has_key(s, w) {
        let k = choose|k: int| 0 <= k < s.len() && s[k].0 == w;
        assert(s.push(p)[k].0 == w);
    }
    if p.0 == w {
        assert(s.push(p)[s.len() as int].0 == w);
    }
}

proof fn lemma_count_update(s: Seq<(Seq<u8>, u64)>, i: int, n: u64, w: Seq<u8>)
    requires
        0 <= i < s.len(),
    ensures
        count_of(s.update(i, (s[i].0, n)), w) == count_of(s, w) + (if s[i].0 == w {
            n - s[i].1
        } else {
            0
        }),
    decreases i,
{
    let s2 = s.update(i, (s[i].0, n));
    if i == 0 {
        assert(s2[0] == (s[0].0, n));
        assert(s2.skip(1) =~= s.skip(1));
    } else {
        assert(s2[0] == s[0]);
        assert(s2.skip(1) =~= s.skip(1).update(i - 1, (s[i].0, n)));
        assert(s.skip(1)[i - 1] == s[i]);
        lemma_count_update(s.skip(1), i - 1, n, w);
    }
}

proof fn lemma_total_update(s: Seq<(Seq<u8>, u64)>, i: int, n: u64)
    requires
        0 <= i < s.len(),
    ensures
        total_of(s.update(i, (s[i].0, n))) == total_of(s) + n - s[i].1,
    decreases i,
{
    let s2 = s.update(i, (s[i].0, n));
    if i == 0 {
        assert(s2[0] == (s[0].0, n));
        assert(s2.skip(1) =~= s.skip(1));
    } else {
        assert(s2[0] == s[0]);
        assert(s2.skip(1) =~= s.skip(1).update(i - 1, (s[i].0, n)));
        assert(s.skip(1)[i - 1] == s[i]);
        lemma_total_update(s.skip(1), i - 1, n);
    }
}

proof fn lemma_corpus_count_snoc(
    rs: Seq<(Seq<u8>, Seq<(Seq<u8>, u64)>)>,
    r: (Seq<u8>, Seq<(Seq<u8>, u64)>),
    w: Seq<u8>,
)
    ensures
        corpus_count_of(rs.push(r), w) == corpus_count_of(rs, w) + count_of(r.1, w),
    decreases rs.len(),
{
    if rs.len() == 0 {
        assert(rs.push(r)[0] == r);
        assert(rs.push(r).skip(1).len() == 0);
        assert(corpus_count_of(rs.push(r).skip(1), w) == 0);
    } else {
        assert(rs.push(r)[0] == rs[0]);
        assert(rs.push(r).skip(1) =~= rs.skip(1).push(r));
        lemma_corpus_count_snoc(rs.skip(1), r, w);
    }
}

proof fn lemma_corpus_nonstop_snoc(
    rs: Seq<(Seq<u8>, Seq<(Seq<u8>, u64)>)>,
    r: (Seq<u8>, Seq<(Seq<u8>, u64)>),
    st: Set<Seq<u8>>,
)
    ensures
        corpus_nonstop_total(rs.push(r), st) == corpus_nonstop_total(rs, st) + nonstop_total_of(
            r.1,
            st,
        ),
    decreases rs.len(),
{
    if rs.len() == 0 {
        assert(rs.push(r)[0] == r);
        assert(rs.push(r).skip(1).len() == 0);
        assert(corpus_nonstop_total(rs.push(r).skip(1), st) == 0);
    } else {
        assert(rs.push(r)[0] == rs[0]);
        assert(rs.push(r).skip(1) =~= rs.skip(1).push(r));
        lemma_corpus_nonstop_snoc(rs.skip(1), r, st);
    }
}

proof fn lemma_corpus_has_snoc(
    rs: Seq<(Seq<u8>, Seq<(Seq<u8>, u64)>)>,
    r: (Seq<u8>, Seq<(Seq<u8>, u64)>),
)
    ensures
        forall|w: Seq<u8>|
            #![auto]
            corpus_has_key(rs.push(r), w) == (corpus_has_key(rs, w) || has_key(r.1, w)),
{
    assert forall|w: Seq<u8>| #![auto] corpus_has_key(rs.push(r), w) == (corpus_has_key(rs, w)
        || has_key(r.1, w)) by {
        if corpus_has_key(rs.push(r), w) {
            let k = choose|k: int| 0 <= k < rs.push(r).len() && has_key(rs.push(r)[k].1, w);
            if k < rs.len() {
                assert(has_key(rs[k].1, w));
            } else {
                assert(has_key(r.1, w));
            }
        }
        if corpus_has_key(rs, w) {
            let k = choose|k: int| 0 <= k < rs.len() && has_key(rs[k].1, w);
            assert(has_key(rs.push(r)[k].1, w));
        }
        if has_key(r.1, w) {
            assert(has_key(rs.push(r)[rs.len() as int].1, w));
        }
    }
}

/// Splitting off one record splits the corpus count sum.
proof fn lemma_corpus_count_remove(rs: Seq<(Seq<u8>, Seq<(Seq<u8>, u64)>)>, j: int, w: Seq<u8>)
    requires
        0 <= j < rs.len(),
    ensures
        corpus_count_of(rs, w) == count_of(rs[j].1, w) + corpus_count_of(rs.remove(j), w),
    decreases j,
{
    if j == 0 {
        assert(rs.remove(0) =~= rs.skip(1));
    } else {
        assert(rs.remove(j)[0] == rs[0]);
        assert(rs.remove(j).skip(1) =~= rs.skip(1).remove(j - 1));
        assert(rs.skip(1)[j - 1] == rs[j]);
        lemma_corpus_count_remove(rs.skip(1), j - 1, w);
    }
}

proof fn lemma_corpus_nonstop_remove(
    rs: Seq<(Seq<u8>, Seq<(Seq<u8>, u64)>)>,
    j: int,
    st: Set<Seq<u8>>,
)
    requires
        0 <= j < rs.len(),
    ensures
        corpus_nonstop_total(rs, st) == nonstop_total_of(rs[j].1, st) + corpus_nonstop_total(
            rs.remove(j),
            st,
        ),
    decreases j,
{
    if j == 0 {
        assert(rs.remove(0) =~= rs.skip(1));
    } else {
        assert(rs.remove(j)[0] == rs[0]);
        assert(rs.remove(j).skip(1) =~= rs.skip(1).remove(j - 1));
        assert(rs.skip(1)[j - 1] == rs[j]);
        lemma_corpus_nonstop_remove(rs.skip(1), j - 1, st);
    }
}

/// Aggregation is order-independent: two corpora that hold the same records
/// (as a multiset, i.e. up to shuffling) have the same per-word counts, the
/// same occurring words, and the same non-stopword total — so the global
/// vocabulary built from them is the same mapping.
pub proof fn lemma_aggregation_order_independent(
    r1: Seq<(Seq<u8>, Seq<(Seq<u8>, u64)>)>,
    r2: Seq<(Seq<u8>, Seq<(Seq<u8>, u64)>)>,
    st: Set<Seq<u8>>,
    w: Seq<u8>,
)
    requires
        r1.to_multiset() == r2.to_multiset(),
    ensures
        corpus_count_of(r1, w) == corpus_count_of(r2, w),
        corpus_has_key(r1, w) == corpus_has_key(r2, w),
        corpus_nonstop_total(r1, st) == corpus_nonstop_total(r2, st),
    decreases r1.len(),
{
    r1.to_multiset_ensures();
    r2.to_multiset_ensures();
    if r1.len() == 0 {
        assert(r2.len() == 0);
        lemma_corpus_has_eq(r1, r2, w);
    } else {
        let x = r1[0];
        assert(r1.contains(x));
        assert(r1.to_multiset().count(x) > 0);
        assert(r2.contains(x));
        let j = choose|j: int| 0 <= j < r2.len() && r2[j] == x;
        assert(r1.remove(0).to_multiset() == r1.to_multiset().remove(x));
        assert(r2.remove(j).to_multiset() == r2.to_multiset().remove(x));
        lemma_aggregation_order_independent(r1.remove(0), r2.remove(j), st, w);
        assert(r1.remove(0) =~= r1.skip(1));
        lemma_corpus_count_remove(r2, j, w);
        lemma_corpus_nonstop_remove(r2, j, st);
        lemma_corpus_has_eq(r1, r2, w);
    }
}

/// Two corpora with the same record multiset carry the same words.
proof fn lemma_corpus_has_eq(
    r1: Seq<(Seq<u8>, Seq<(Seq<u8>, u64)>)>,
    r2: Seq<(Seq<u8>, Seq<(Seq<u8>, u64)>)>,
    w: Seq<u8>,
)
    requires
        r1.to_multiset() == r2.to_multiset(),
    ensures
        corpus_has_key(r1, w) == corpus_has_key(r2, w),
{
    r1.to_multiset_ensures();
    r2.to_multiset_ensures();
    if corpus_has_key(r1, w) {
        let i = choose|i: int| 0 <= i < r1.len() && has_key(r1[i].1, w);
        assert(r1.contains(r1[i]));
        assert(r1.to_multiset().count(r1[i]) > 0);
        assert(r2.to_multiset().count(r1[i]) > 0);
        assert(r2.contains(r1[i]));
        let j = choose|j: int| 0 <= j < r2.len() && r2[j] == r1[i];
        assert(has_key(r2[j].1, w));
    }
    if corpus_has_key(r2, w) {
        let i = choose|i: int| 0 <= i < r2.len() && has_key(r2[i].1, w);
        assert(r2.contains(r2[i]));
        assert(r2.to_multiset().count(r2[i]) > 0);
        assert(r1.to_multiset().count(r2[i]) > 0);
        assert(r1.contains(r2[i]));
        let j = choose|j: int| 0 <= j < r1.len() && r1[j] == r2[i];
        assert(has_key(r1[j].1, w));
    }
}

} // verus!
