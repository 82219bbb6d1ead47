//! The in-memory corpus: per-author frequency records and the spec-level
//! model shared by every stage.
//!
//! A word-to-count mapping is held as a vector of [`CountEntry`] pairs; its
//! mathematical model is a sequence of `(Seq<u8>, u64)` pairs, looked up and
//! summed by the spec functions below.

use vstd::prelude::*;

verus! {

/// One key (a word, or an author identifier) together with a count.
#[derive(Clone, Debug)]
pub struct CountEntry {
    pub key: Vec<u8>,
    pub count: u64,
}

impl View for CountEntry {
    type V = (Seq<u8>, u64);

    open spec fn view(&self) -> (Seq<u8>, u64) {
        (self.key@, self.count)
    }
}

/// One decoded record: an author identifier and that author's
/// word-to-count mapping (keys are unique after a successful decode).
#[derive(Clone, Debug)]
pub struct FrequencyRecord {
    pub author: Vec<u8>,
    pub words: Vec<CountEntry>,
}

impl View for FrequencyRecord {
    type V = (Seq<u8>, Seq<(Seq<u8>, u64)>);

    open spec fn view(&self) -> (Seq<u8>, Seq<(Seq<u8>, u64)>) {
        (self.author@, entries_view(self.words@))
    }
}

/// The model of a `Vec<CountEntry>`: each entry replaced by its view.
pub open spec fn entries_view(v: Seq<CountEntry>) -> Seq<(Seq<u8>, u64)> {
    Seq::new(v.len(), |i: int| v[i]@)
}

/// The model of a `Vec<FrequencyRecord>`.
pub open spec fn records_view(v: Seq<FrequencyRecord>) -> Seq<(Seq<u8>, Seq<(Seq<u8>, u64)>)> {
    Seq::new(v.len(), |i: int| v[i]@)
}

/// No two pairs share a key.
pub open spec fn keys_unique(s: Seq<(Seq<u8>, u64)>) -> bool {
    forall|i: int, j: int| 0 <= i < j < s.len() ==> s[i].0 != s[j].0
}

/// Some pair carries this key.
pub open spec fn has_key(s: Seq<(Seq<u8>, u64)>, w: Seq<u8>) -> bool {
    exists|i: int| 0 <= i < s.len() && s[i].0 == w
}

/// Sum of the counts of every pair carrying this key (0 if absent).
pub open spec fn count_of(s: Seq<(Seq<u8>, u64)>, w: Seq<u8>) -> int
    decreases s.len(),
{
    if s.len() == 0 {
        0
    } else {
        (if s[0].0 == w { s[0].1 as int } else { 0 }) + count_of(s.skip(1), w)
    }
}

/// Sum of all counts in the mapping.
pub open spec fn total_of(s: Seq<(Seq<u8>, u64)>) -> int
    decreases s.len(),
{
    if s.len() == 0 {
        0
    } else {
        s[0].1 + total_of(s.skip(1))
    }
}

/// Sum of the counts of the pairs whose key is not a stopword.
pub open spec fn nonstop_total_of(s: Seq<(Seq<u8>, u64)>, stop: Set<Seq<u8>>) -> int
    decreases s.len(),
{
    if s.len() == 0 {
        0
    } else {
        (if stop.contains(s[0].0) { 0 } else { s[0].1 as int }) + nonstop_total_of(s.skip(1), stop)
    }
}

/// Sum, over every record of the corpus, of that record's count for `w`.
pub open spec fn corpus_count_of(
    rs: Seq<(Seq<u8>, Seq<(Seq<u8>, u64)>)>,
    w: Seq<u8>,
) -> int
    decreases rs.len(),
{
    if rs.len() == 0 {
        0
    } else {
        count_of(rs[0].1, w) + corpus_count_of(rs.skip(1), w)
    }
}

/// Some record of the corpus carries this key.
pub open spec fn corpus_has_key(rs: Seq<(Seq<u8>, Seq<(Seq<u8>, u64)>)>, w: Seq<u8>) -> bool {
    exists|i: int| 0 <= i < rs.len() && has_key(rs[i].1, w)
}

/// Sum, over every record, of its non-stopword counts.
pub open spec fn corpus_nonstop_total(
    rs: Seq<(Seq<u8>, Seq<(Seq<u8>, u64)>)>,
    stop: Set<Seq<u8>>,
) -> int
    decreases rs.len(),
{
    if rs.len() == 0 {
        0
    } else {
        nonstop_total_of(rs[0].1, stop) + corpus_nonstop_total(rs.skip(1), stop)
    }
}

/// Byte-wise equality of two keys.
pub fn bytes_eq(a: &Vec<u8>, b: &Vec<u8>) -> (r: bool)
    ensures
        r == (a@ == b@),
{
    if a.len() != b.len() {
        assert(a@ != b@);
        return false;
    }
    let mut i: usize = 0;
    while i < a.len()
        invariant
            i <= a.len(),
            a@.len() == b@.len(),
            forall|k: int| 0 <= k < i ==> a@[k] == b@[k],
        decreases a.len() - i,
    {
        if a[i] != b[i] {
            assert(a@ != b@);
            return false;
        }
        i += 1;
    }
    assert(a@ =~= b@);
    true
}

/// The count a mapping holds for `w`, by linear scan.
///
/// On a mapping with unique keys the sum `count_of` degenerates to the
/// single matching pair, which is what the scan returns.
pub fn lookup_count(entries: &Vec<CountEntry>, w: &Vec<u8>) -> (r: Option<u64>)
    requires
        keys_unique(entries_view(entries@)),
    ensures
        r matches Some(c) ==> has_key(entries_view(entries@), w@) && c == count_of(
            entries_view(entries@),
            w@,
        ),
        r is None ==> !has_key(entries_view(entries@), w@) && count_of(
            entries_view(entries@),
            w@,
        ) == 0,
{
    let ghost s = entries_view(entries@);
    proof {
        assert(s.skip(0) =~= s);
    }
    let mut i: usize = 0;
    while i < entries.len()
        invariant
            i <= entries.len(),
            s == entries_view(entries@),
            s.len() == entries@.len(),
            keys_unique(s),
            forall|k: int| 0 <= k < i ==> s[k].0 != w@,
            count_of(s.skip(i as int), w@) == count_of(s, w@),
        decreases entries.len() - i,
    {
        proof {
            assert(s.skip(i as int).len() > 0);
            assert(s.skip(i as int)[0] == s[i as int]);
            assert(s.skip(i as int).skip(1) =~= s.skip(i as int + 1));
        }
        if bytes_eq(&entries[i].key, w) {
            proof {
                lemma_count_at_unique_key(s, w@, i as int);
            }
            return Some(entries[i].count);
        }
        i += 1;
    }
    proof {
        assert(s.skip(entries@.len() as int).len() == 0);
    }
    None
}

/// On a mapping with unique keys, the sum for a key present at position
/// `i` is exactly the count stored there.
pub proof fn lemma_count_at_unique_key(s: Seq<(Seq<u8>, u64)>, w: Seq<u8>, i: int)
    requires
        0 <= i < s.len(),
        keys_unique(s),
        s[i].0 == w,
    ensures
        count_of(s, w) == s[i].1 as int,
    decreases i,
{
    assert(s.skip(1) =~= s.subrange(1, s.len() as int));
    if i == 0 {
        lemma_count_missing(s.skip(1), w);
        assert(forall|k: int| 0 <= k < s.skip(1).len() ==> s.skip(1)[k] == s[k + 1]);
    } else {
        assert(s[0].0 != w);
        assert(keys_unique(s.skip(1))) by {
            assert(forall|a: int, b: int|
                0 <= a < b < s.skip(1).len() ==> s.skip(1)[a] == s[a + 1] && s.skip(1)[b] == s[b
                    + 1]);
        }
        assert(s.skip(1)[i - 1] == s[i]);
        lemma_count_at_unique_key(s.skip(1), w, i - 1);
    }
}

/// A key that no pair carries sums to zero.
pub proof fn lemma_count_missing(s: Seq<(Seq<u8>, u64)>, w: Seq<u8>)
    requires
        !has_key(s, w),
    ensures
        count_of(s, w) == 0,
    decreases s.len(),
{
    if s.len() > 0 {
        assert(s[0].0 != w);
        assert(forall|k: int| 0 <= k < s.skip(1).len() ==> s.skip(1)[k] == s[k + 1]);
        assert(!has_key(s.skip(1), w));
        lemma_count_missing(s.skip(1), w);
    }
}

} // verus!
