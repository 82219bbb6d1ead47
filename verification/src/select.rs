//! The fingerprint selector: the top entries of the vocabulary by count.
//!
//! Entries are ordered by descending count; ties are broken by the
//! lexicographic order on the key bytes, so the output is reproducible
//! whatever order the vocabulary was built in.

use vstd::prelude::*;
use vstd::multiset::Multiset;
use vstd::seq_lib::lemma_multiset_commutative;

use crate::corpus::{entries_view, keys_unique, CountEntry};
use crate::vocab::Vocabulary;
use crate::FINGERPRINT_LEN;

verus! {

/// Lexicographic order on byte strings (a prefix comes first).
pub open spec fn lex_le(a: Seq<u8>, b: Seq<u8>) -> bool
    decreases a.len(),
{
    if a.len() == 0 {
        true
    } else if b.len() == 0 {
        false
    } else if a[0] < b[0] {
        true
    } else if a[0] > b[0] {
        false
    } else {
        lex_le(a.skip(1), b.skip(1))
    }
}

/// The selection order: larger counts first, ties by ascending key bytes.
pub open spec fn entry_le(a: (Seq<u8>, u64), b: (Seq<u8>, u64)) -> bool {
    a.1 > b.1 || (a.1 == b.1 && lex_le(a.0, b.0))
}

/// Sorted for the selection order.
pub open spec fn sorted_entries(s: Seq<(Seq<u8>, u64)>) -> bool {
    forall|i: int, j: int| 0 <= i < j < s.len() ==> entry_le(s[i], s[j])
}

pub proof fn lemma_lex_le_total(a: Seq<u8>, b: Seq<u8>)
    ensures
        lex_le(a, b) || lex_le(b, a),
    decreases a.len(),
{
    if a.len() > 0 && b.len() > 0 && a[0] == b[0] {
        lemma_lex_le_total(a.skip(1), b.skip(1));
    }
}

pub proof fn lemma_lex_le_trans(a: Seq<u8>, b: Seq<u8>, c: Seq<u8>)
    requires
        lex_le(a, b),
        lex_le(b, c),
    ensures
        lex_le(a, c),
    decreases a.len(),
{
    if a.len() > 0 && b.len() > 0 && c.len() > 0 && a[0] == b[0] && b[0] == c[0] {
        lemma_lex_le_trans(a.skip(1), b.skip(1), c.skip(1));
    }
}

pub proof fn lemma_entry_le_total(a: (Seq<u8>, u64), b: (Seq<u8>, u64))
    ensures
        entry_le(a, b) || entry_le(b, a),
{
    if a.1 == b.1 {
        lemma_lex_le_total(a.0, b.0);
    }
}

pub proof fn lemma_entry_le_trans(a: (Seq<u8>, u64), b: (Seq<u8>, u64), c: (Seq<u8>, u64))
    requires
        entry_le(a, b),
        entry_le(b, c),
    ensures
        entry_le(a, c),
{
    if a.1 == b.1 && b.1 == c.1 {
        lemma_lex_le_trans(a.0, b.0, c.0);
    }
}

/// Lexicographic comparison of two keys.
fn lex_le_exec(a: &Vec<u8>, b: &Vec<u8>) -> (r: bool)
    ensures
        r == lex_le(a@, b@),
{
    let mut i: usize = 0;
    proof {
        assert(a@.skip(0) =~= a@);
        assert(b@.skip(0) =~= b@);
    }
    while i < a.len() && i < b.len()
        invariant
            i <= a@.len(),
            i <= b@.len(),
            lex_le(a@, b@) == lex_le(a@.skip(i as int), b@.skip(i as int)),
            lex_le(b@, a@) == lex_le(b@.skip(i as int), a@.skip(i as int)),
        decreases a@.len() - i,
    {
        proof {
            assert(a@.skip(i as int)[0] == a@[i as int]);
            assert(b@.skip(i as int)[0] == b@[i as int]);
            assert(a@.skip(i as int).skip(1) =~= a@.skip(i as int + 1));
            assert(b@.skip(i as int).skip(1) =~= b@.skip(i as int + 1));
        }
        if a[i] < b[i] {
            return true;
        }
        if a[i] > b[i] {
            return false;
        }
        i += 1;
    }
    if i >= a.len() {
        assert(a@.skip(i as int).len() == 0);
        true
    } else {
        assert(b@.skip(i as int).len() == 0);
        assert(a@.skip(i as int).len() > 0);
        false
    }
}

/// Comparison of two entries in the selection order.
fn entry_le_exec(a: &CountEntry, b: &CountEntry) -> (r: bool)
    ensures
        r == entry_le(a@, b@),
{
    if a.count > b.count {
        true
    } else if a.count < b.count {
        false
    } else {
        lex_le_exec(&a.key, &b.key)
    }
}

/// Inserting an element anywhere adds exactly it to the multiset.
proof fn lemma_insert_multiset(s: Seq<(Seq<u8>, u64)>, p: int, e: (Seq<u8>, u64))
    requires
        0 <= p <= s.len(),
    ensures
        s.insert(p, e).to_multiset() == s.to_multiset().insert(e),
{
    let a = s.take(p);
    let b = s.skip(p);
    assert(s =~= a + b);
    assert(s.insert(p, e) =~= a + (seq![e] + b));
    lemma_multiset_commutative(a, b);
    lemma_multiset_commutative(a, seq![e] + b);
    lemma_multiset_commutative(seq![e], b);
    assert(seq![e] =~= Seq::<(Seq<u8>, u64)>::empty().push(e));
    Seq::<(Seq<u8>, u64)>::empty().to_multiset_ensures();
    assert(Seq::<(Seq<u8>, u64)>::empty().to_multiset() =~= Multiset::<(Seq<u8>, u64)>::empty());
    assert(seq![e].to_multiset() =~= Multiset::<(Seq<u8>, u64)>::empty().insert(e));
    assert(s.insert(p, e).to_multiset() =~= s.to_multiset().insert(e));
}

/// Sorts entries in the selection order, keeping the same multiset.
pub fn sort_entries(v: &mut Vec<CountEntry>)
    ensures
        entries_view(final(v)@).to_multiset() == entries_view(old(v)@).to_multiset(),
        sorted_entries(entries_view(final(v)@)),
{
    let ghost orig = entries_view(v@);
    if v.len() <= 1 {
        return ;
    }
    let mut i: usize = 1;
    while i < v.len()
        invariant
            1 <= i <= v@.len(),
            entries_view(v@).to_multiset() == orig.to_multiset(),
            forall|a: int, b: int|
                0 <= a < b < i ==> entry_le(entries_view(v@)[a], entries_view(v@)[b]),
        decreases v@.len() - i,
    {
        let ghost s = entries_view(v@);
        let mut p: usize = 0;
        while p < i
            invariant
                p <= i < v@.len(),
                s == entries_view(v@),
                s.len() == v@.len(),
                forall|k: int| 0 <= k < p ==> entry_le(s[k], s[i as int]),
            ensures
                p <= i,
                s == entries_view(v@),
                forall|k: int| 0 <= k < p ==> entry_le(s[k], s[i as int]),
                p < i ==> !entry_le(s[p as int], s[i as int]),
            decreases i - p,
        {
            if !entry_le_exec(&v[p], &v[i]) {
                break ;
            }
            p += 1;
        }
        if p < i {
            let e = v.remove(i);
            v.insert(p, e);
            proof {
                let s1 = s.remove(i as int);
                let s2 = entries_view(v@);
                assert(s2 =~= s1.insert(p as int, s[i as int]));
                s.to_multiset_ensures();
                lemma_insert_multiset(s1, p as int, s[i as int]);
                assert(s.to_multiset().contains(s[i as int])) by {
                    assert(s.contains(s[i as int]));
                }
                assert(s2.to_multiset() =~= s.to_multiset());
                assert(entry_le(s[i as int], s[p as int])) by {
                    lemma_entry_le_total(s[p as int], s[i as int]);
                }
                assert forall|a: int, b: int|
                    0 <= a < b < i + 1 implies entry_le(s2[a], s2[b]) by {
                    if b < p {
                    } else if b == p {
                    } else if a < p {
                        if b <= i {
                            assert(s2[b] == s[b - 1]);
                        }
                    } else if a == p {
                        assert(s2[a] == s[i as int]);
                        assert(s2[b] == s[b - 1]);
                        if b - 1 == p {
                            assert(entry_le(s[i as int], s[p as int]));
                        } else {
                            assert(entry_le(s[p as int], s[b - 1]));
                            lemma_entry_le_trans(s[i as int], s[p as int], s[b - 1]);
                        }
                    } else {
                        assert(s2[a] == s[a - 1]);
                        assert(s2[b] == s[b - 1]);
                    }
                }
            }
        } else {
            proof {
                assert forall|a: int, b: int|
                    0 <= a < b < i + 1 implies entry_le(
                    entries_view(v@)[a],
                    entries_view(v@)[b],
                ) by {
                    if b == i {
                        assert(entry_le(s[a], s[i as int]));
                    }
                }
            }
        }
        i += 1;
    }
}

/// A multiset permutation of a mapping with unique keys has unique keys.
pub proof fn lemma_keys_unique_permutation(s: Seq<(Seq<u8>, u64)>, t: Seq<(Seq<u8>, u64)>)
    requires
        s.to_multiset() == t.to_multiset(),
        keys_unique(t),
    ensures
        keys_unique(s),
{
    s.to_multiset_ensures();
    t.to_multiset_ensures();
    assert(t.no_duplicates()) by {
        assert(forall|i: int, j: int|
            0 <= i < t.len() && 0 <= j < t.len() && i != j ==> t[i].0 != t[j].0 || t[i].0
                != t[j].0);
        assert forall|i: int, j: int|
            0 <= i < t.len() && 0 <= j < t.len() && i != j implies t[i] != t[j] by {
            if i < j {
                assert(t[i].0 != t[j].0);
            } else {
                assert(t[j].0 != t[i].0);
            }
        }
    }
    t.lemma_multiset_has_no_duplicates();
    s.lemma_multiset_has_no_duplicates_conv();
    assert forall|i: int, j: int| 0 <= i < j < s.len() implies s[i].0 != s[j].0 by {
        if s[i].0 == s[j].0 {
            if s[i] == s[j] {
                assert(false);
            } else {
                assert(s.contains(s[i]) && s.contains(s[j]));
                assert(t.to_multiset().count(s[i]) > 0);
                assert(t.to_multiset().count(s[j]) > 0);
                assert(t.contains(s[i]) && t.contains(s[j]));
                let a = choose|a: int| 0 <= a < t.len() && t[a] == s[i];
                let b = choose|b: int| 0 <= b < t.len() && t[b] == s[j];
                assert(t[a].0 == t[b].0 && a != b);
                assert(false);
            }
        }
    }
}

/// The fixed-size fingerprint: the top entries of the vocabulary, in the
/// selection order.
pub struct FingerprintVector {
    pub entries: Vec<CountEntry>,
}

impl FingerprintVector {
    /// The mathematical mapping this fingerprint holds, in order.
    pub open spec fn model(&self) -> Seq<(Seq<u8>, u64)> {
        entries_view(self.entries@)
    }

    /// Well-formedness: bounded length, selection-sorted, keys unique.
    pub open spec fn wf(&self) -> bool {
        &&& self.model().len() <= FINGERPRINT_LEN
        &&& sorted_entries(self.model())
        &&& keys_unique(self.model())
    }

    /// Number of entries held.
    pub fn len(&self) -> (n: usize)
        ensures
            n == self.model().len(),
    {
        self.entries.len()
    }
}

/// Copies a list of entries.
fn copy_entries(v: &Vec<CountEntry>) -> (r: Vec<CountEntry>)
    ensures
        entries_view(r@) == entries_view(v@),
{
    let mut r: Vec<CountEntry> = Vec::new();
    let mut i: usize = 0;
    while i < v.len()
        invariant
            i <= v@.len(),
            r@.len() == i,
            forall|k: int| 0 <= k < i ==> r@[k]@ == v@[k]@,
        decreases v@.len() - i,
    {
        let key = crate::vocab::copy_bytes(&v[i].key);
        r.push(CountEntry { key, count: v[i].count });
        i += 1;
    }
    proof {
        assert(entries_view(r@) =~= entries_view(v@));
    }
    r
}

/// Selects the fingerprint: the top `FINGERPRINT_LEN` entries of the
/// vocabulary by count (all of them if the vocabulary is smaller), sorted
/// by descending count with ties broken by ascending key bytes.
///
/// The result is pinned down as a prefix of a selection-sorted permutation
/// of the whole vocabulary: every entry kept is at least as large, in the
/// selection order, as every entry left out.
pub fn select_fingerprint(vocab: &Vocabulary) -> (fp: FingerprintVector)
    requires
        vocab.wf(),
    ensures
        fp.wf(),
        vocab.model().len() <= FINGERPRINT_LEN ==> fp.model().len() == vocab.model().len(),
        vocab.model().len() > FINGERPRINT_LEN ==> fp.model().len() == FINGERPRINT_LEN,
        exists|s: Seq<(Seq<u8>, u64)>|
            #![auto]
            s.to_multiset() == vocab.model().to_multiset() && sorted_entries(s) && fp.model()
                == s.take(fp.model().len() as int),
{
    let mut work = copy_entries(&vocab.entries);
    sort_entries(&mut work);
    let ghost sorted = entries_view(work@);
    proof {
        lemma_keys_unique_permutation(sorted, vocab.model());
        sorted.to_multiset_ensures();
        vocab.model().to_multiset_ensures();
    }
    if work.len() > FINGERPRINT_LEN {
        work.truncate(FINGERPRINT_LEN);
    }
    let fp = FingerprintVector { entries: work };
    proof {
        let n = fp.model().len() as int;
        assert(fp.model() =~= sorted.take(n));
        assert(sorted_entries(fp.model()));
        assert(keys_unique(fp.model()));
        assert(fp.model() == sorted.take(n));
    }
    fp
}

/// Sum of a magnitude sequence.
pub open spec fn mag_total(s: Seq<u32>) -> int
    decreases s.len(),
{
    if s.len() == 0 {
        0
    } else {
        s[0] + mag_total(s.skip(1))
    }
}

/// Sum of the squares of a magnitude sequence.
pub open spec fn mag_sq_total(s: Seq<u32>) -> int
    decreases s.len(),
{
    if s.len() == 0 {
        0
    } else {
        s[0] * s[0] + mag_sq_total(s.skip(1))
    }
}

proof fn lemma_mag_total_snoc(s: Seq<u32>, m: u32)
    ensures
        mag_total(s.push(m)) == mag_total(s) + m,
        mag_sq_total(s.push(m)) == mag_sq_total(s) + m * m,
    decreases s.len(),
{
    if s.len() == 0 {
        assert(s.push(m)[0] == m);
        assert(s.push(m).skip(1).len() == 0);
        assert(mag_total(s.push(m).skip(1)) == 0);
        assert(mag_sq_total(s.push(m).skip(1)) == 0);
    } else {
        assert(s.push(m)[0] == s[0]);
        assert(s.push(m).skip(1) =~= s.skip(1).push(m));
        lemma_mag_total_snoc(s.skip(1), m);
    }
}

/// The magnitudes of a fingerprint: each count reduced to 32 bits
/// (mod 2^32), in fingerprint order.
pub open spec fn mags_of(fpm: Seq<(Seq<u8>, u64)>) -> Seq<u32> {
    Seq::new(fpm.len(), |i: int| fpm[i].1 as u32)
}

/// The numeric magnitude of each fingerprint entry, in fingerprint order.
///
/// Counts are reduced to 32 bits (mod 2^32) for the numeric stages, which
/// operate on 32-bit magnitudes.
pub fn fingerprint_magnitudes(fp: &FingerprintVector) -> (m: Vec<u32>)
    ensures
        m@ == mags_of(fp.model()),
        m@.len() == fp.model().len(),
        forall|i: int| 0 <= i < m@.len() ==> m@[i] == fp.model()[i].1 as u32,
{
    let mut m: Vec<u32> = Vec::new();
    let mut i: usize = 0;
    while i < fp.entries.len()
        invariant
            i <= fp.entries@.len(),
            m@.len() == i,
            forall|k: int| 0 <= k < i ==> m@[k] == fp.model()[k].1 as u32,
        decreases fp.entries@.len() - i,
    {
        let c = fp.entries[i].count;
        m.push(#[verifier::truncate] (c as u32));
        i += 1;
    }
    proof {
        assert(m@ =~= mags_of(fp.model()));
    }
    m
}

/// Exact summary statistics of a magnitude vector: the element count, the
/// sum, and the sum of squares.  Mean, deviation and the suggested display
/// range derive from these outside the verified core, where real-valued
/// arithmetic is available.
pub struct FingerprintStats {
    pub count: usize,
    pub total: u64,
    pub sum_squares: u128,
}

/// Computes the exact sums behind the diagnostic statistics.
pub fn compute_stats(mags: &Vec<u32>) -> (st: FingerprintStats)
    requires
        mags@.len() <= FINGERPRINT_LEN,
    ensures
        st.count == mags@.len(),
        st.total == mag_total(mags@),
        st.sum_squares == mag_sq_total(mags@),
{
    let mut total: u64 = 0;
    let mut sum_squares: u128 = 0;
    let mut i: usize = 0;
    proof {
        assert(mags@.take(0).len() == 0);
    }
    while i < mags.len()
        invariant
            i <= mags@.len(),
            mags@.len() <= FINGERPRINT_LEN,
            total == mag_total(mags@.take(i as int)),
            sum_squares == mag_sq_total(mags@.take(i as int)),
            total <= i * 0xffff_ffff,
            sum_squares <= i * 0xffff_fffe_0000_0001,
        decreases mags@.len() - i,
    {
        let m = mags[i];
        let wide = m as u64;
        proof {
            assert(mags@.take(i as int + 1) =~= mags@.take(i as int).push(mags@[i as int]));
            lemma_mag_total_snoc(mags@.take(i as int), mags@[i as int]);
            assert(wide * wide <= 0xffff_fffe_0000_0001) by (nonlinear_arith)
                requires
                    wide <= 0xffff_ffff,
            ;
        }
        let sq = wide * wide;
        total = total + wide;
        sum_squares = sum_squares + (sq as u128);
        i += 1;
    }
    proof {
        assert(mags@.take(mags@.len() as int) =~= mags@);
    }
    FingerprintStats { count: mags.len(), total, sum_squares }
}

} // verus!
