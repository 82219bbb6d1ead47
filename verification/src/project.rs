//! The per-author projector.
//!
//! The most prolific authors — most distinct words, ties broken by
//! ascending author identifier bytes — each get a projection of their own
//! frequencies onto the fingerprint's fixed key order: position `i` holds
//! the author's count for the fingerprint's `i`-th word, 0 where the author
//! never used it.  An author whose projection has fewer non-zero positions
//! than the coverage threshold is skipped; one at or above it is rendered.

use vstd::prelude::*;

use crate::corpus::{
    count_of, entries_view, has_key, keys_unique, lookup_count, records_view, CountEntry,
    FrequencyRecord,
};
use crate::render::{max_of, norm_level, shade, Gradient, Rgb};
use crate::select::{sort_entries, sorted_entries, FingerprintVector};
use crate::spectral::{padded_im, padded_re, spectral_transform, spectrum_of};
use crate::{COVERAGE_THRESHOLD, FINGERPRINT_LEN, IMAGE_SIDE, TOP_AUTHORS};

verus! {

/// A record's ranking entry: its author identifier, keyed by how many
/// distinct words the record holds.
pub open spec fn author_entries(rs: Seq<(Seq<u8>, Seq<(Seq<u8>, u64)>)>) -> Seq<(Seq<u8>, u64)> {
    Seq::new(rs.len(), |i: int| (rs[i].0, rs[i].1.len() as u64))
}

/// Ranks the corpus's authors by descending distinct-word count, ties
/// broken by ascending author identifier bytes.  The top of the ranking is
/// the prefix the projector fans out over.
pub fn rank_authors(records: &Vec<FrequencyRecord>) -> (ranked: Vec<CountEntry>)
    ensures
        ranked@.len() == records@.len(),
        sorted_entries(entries_view(ranked@)),
        entries_view(ranked@).to_multiset() == author_entries(records_view(records@)).to_multiset(),
{
    let ghost rv = records_view(records@);
    let mut entries: Vec<CountEntry> = Vec::new();
    let mut i: usize = 0;
    while i < records.len()
        invariant
            i <= records@.len(),
            rv == records_view(records@),
            rv.len() == records@.len(),
            entries@.len() == i,
            forall|k: int| 0 <= k < i ==> entries@[k]@ == author_entries(rv)[k],
        decreases records@.len() - i,
    {
        let key = crate::vocab::copy_bytes(&records[i].author);
        let count = records[i].words.len() as u64;
        entries.push(CountEntry { key, count });
        i += 1;
    }
    proof {
        assert(entries_view(entries@) =~= author_entries(rv));
    }
    sort_entries(&mut entries);
    proof {
        let before = author_entries(rv);
        let after = entries_view(entries@);
        before.to_multiset_ensures();
        after.to_multiset_ensures();
        assert(after.len() == before.len());
    }
    entries
}

/// Selects the authors the projector fans out over: the `TOP_AUTHORS`
/// highest-ranked entries (all of them if the corpus has fewer), as a
/// prefix of a ranking-sorted permutation of the corpus's author entries.
pub fn top_authors(records: &Vec<FrequencyRecord>) -> (top: Vec<CountEntry>)
    ensures
        records@.len() <= TOP_AUTHORS ==> top@.len() == records@.len(),
        records@.len() > TOP_AUTHORS ==> top@.len() == TOP_AUTHORS,
        sorted_entries(entries_view(top@)),
        exists|s: Seq<(Seq<u8>, u64)>|
            #![auto]
            s.to_multiset() == author_entries(records_view(records@)).to_multiset()
                && sorted_entries(s) && entries_view(top@) == s.take(top@.len() as int),
{
    let mut ranked = rank_authors(records);
    let ghost sorted = entries_view(ranked@);
    if ranked.len() > TOP_AUTHORS {
        ranked.truncate(TOP_AUTHORS);
    }
    proof {
        assert(entries_view(ranked@) =~= sorted.take(ranked@.len() as int));
    }
    ranked
}

/// The projection of a record's words onto the fingerprint's key order.
pub open spec fn projection_of(
    fpm: Seq<(Seq<u8>, u64)>,
    words: Seq<(Seq<u8>, u64)>,
) -> Seq<u64> {
    Seq::new(
        fpm.len(),
        |i: int|
            if has_key(words, fpm[i].0) {
                count_of(words, fpm[i].0) as u64
            } else {
                0
            },
    )
}

/// How many positions of a projection are non-zero.
pub open spec fn nonzero_count_of(s: Seq<u64>) -> int
    decreases s.len(),
{
    if s.len() == 0 {
        0
    } else {
        (if s[0] > 0 {
            1int
        } else {
            0int
        }) + nonzero_count_of(s.skip(1))
    }
}

proof fn lemma_nonzero_snoc(s: Seq<u64>, m: u64)
    ensures
        nonzero_count_of(s.push(m)) == nonzero_count_of(s) + (if m > 0 {
            1int
        } else {
            0int
        }),
    decreases s.len(),
{
    if s.len() == 0 {
        assert(s.push(m)[0] == m);
        assert(s.push(m).skip(1).len() == 0);
        assert(nonzero_count_of(s.push(m).skip(1)) == 0);
    } else {
        assert(s.push(m)[0] == s[0]);
        assert(s.push(m).skip(1) =~= s.skip(1).push(m));
        lemma_nonzero_snoc(s.skip(1), m);
    }
}

/// Builds a record's projection onto the fingerprint's key order: position
/// `i` holds the record's count for the fingerprint's `i`-th word, 0 where
/// the record does not hold that word.
pub fn project_author(fp: &FingerprintVector, record: &FrequencyRecord) -> (proj: Vec<u64>)
    requires
        keys_unique(entries_view(record.words@)),
    ensures
        proj@ == projection_of(fp.model(), entries_view(record.words@)),
        proj@.len() == fp.model().len(),
{
    let ghost fpm = fp.model();
    let ghost ws = entries_view(record.words@);
    let mut proj: Vec<u64> = Vec::new();
    let mut i: usize = 0;
    while i < fp.entries.len()
        invariant
            i <= fp.entries@.len(),
            fpm == fp.model(),
            ws == entries_view(record.words@),
            fpm.len() == fp.entries@.len(),
            keys_unique(ws),
            proj@.len() == i,
            forall|k: int| 0 <= k < i ==> proj@[k] == projection_of(fpm, ws)[k],
        decreases fp.entries@.len() - i,
    {
        proof {
            crate::vocab::lemma_count_nonneg(ws, fpm[i as int].0);
        }
        let c = match lookup_count(&record.words, &fp.entries[i].key) {
            Some(c) => c,
            None => 0,
        };
        proj.push(c);
        i += 1;
    }
    proof {
        assert(proj@ =~= projection_of(fpm, ws));
    }
    proj
}

/// Counts the non-zero positions of a projection.
pub fn nonzero_count(proj: &Vec<u64>) -> (n: usize)
    ensures
        n == nonzero_count_of(proj@),
{
    let mut n: usize = 0;
    let mut i: usize = 0;
    proof {
        assert(proj@.take(0).len() == 0);
    }
    while i < proj.len()
        invariant
            i <= proj@.len(),
            n == nonzero_count_of(proj@.take(i as int)),
            n <= i,
        decreases proj@.len() - i,
    {
        proof {
            assert(proj@.take(i as int + 1) =~= proj@.take(i as int).push(proj@[i as int]));
            lemma_nonzero_snoc(proj@.take(i as int), proj@[i as int]);
        }
        if proj[i] > 0 {
            n += 1;
        }
        i += 1;
    }
    proof {
        assert(proj@.take(proj@.len() as int) =~= proj@);
    }
    n
}

/// One author's rendered fingerprint, or nothing if the author is skipped.
pub struct AuthorImage {
    pub author: Vec<u8>,
    pub grid: Vec<Vec<Rgb>>,
}

/// Projects one record onto the fingerprint's key order and renders it,
/// unless its coverage — the number of non-zero projected words — is below
/// the threshold, in which case the author is skipped and nothing is
/// rendered (`None`): the sparsity filter, not an error.
pub fn author_fingerprint(
    fp: &FingerprintVector,
    record: &FrequencyRecord,
    g: &Gradient,
) -> (r: Option<AuthorImage>)
    requires
        keys_unique(entries_view(record.words@)),
        fp.wf(),
    ensures
        (r is Some) == (nonzero_count_of(
            projection_of(fp.model(), entries_view(record.words@)),
        ) >= COVERAGE_THRESHOLD),
        r matches Some(img) ==> {
            let mags = projection_mags(projection_of(fp.model(), entries_view(record.words@)));
            let spectrum = spectrum_of(padded_re(mags), padded_im(mags));
            &&& img.author@ == record.author@
            &&& img.grid@.len() == IMAGE_SIDE
            &&& (forall|y: int| 0 <= y < IMAGE_SIDE ==> img.grid@[y]@.len() == IMAGE_SIDE)
            &&& (forall|y: int, x: int|
                0 <= y < IMAGE_SIDE && 0 <= x < IMAGE_SIDE ==> img.grid@[y]@[x] == shade(
                    *g,
                    norm_level(spectrum[y * IMAGE_SIDE + x], max_of(spectrum)),
                ))
        },
{
    let proj = project_author(fp, record);
    let cover = nonzero_count(&proj);
    if cover < COVERAGE_THRESHOLD {
        return None;
    }
    let mags = projection_mags_exec(&proj);
    let spectrum = spectral_transform(&mags);
    proof {
        crate::lemma_image_side_squares();
    }
    let grid = crate::render::render_grid(&spectrum, g);
    let author = crate::vocab::copy_bytes(&record.author);
    Some(AuthorImage { author, grid })
}

/// A projection reduced to 32-bit magnitudes (mod 2^32), as the numeric
/// stages take it.
pub open spec fn projection_mags(proj: Seq<u64>) -> Seq<u32> {
    Seq::new(proj.len(), |i: int| proj[i] as u32)
}

/// Reduces a projection to its 32-bit magnitudes.
fn projection_mags_exec(proj: &Vec<u64>) -> (m: Vec<u32>)
    ensures
        m@ == projection_mags(proj@),
{
    let mut m: Vec<u32> = Vec::new();
    let mut i: usize = 0;
    while i < proj.len()
        invariant
            i <= proj@.len(),
            m@.len() == i,
            forall|k: int| 0 <= k < i ==> m@[k] == proj@[k] as u32,
        decreases proj@.len() - i,
    {
        let c = proj[i];
        m.push(#[verifier::truncate] (c as u32));
        i += 1;
    }
    proof {
        assert(m@ =~= projection_mags(proj@));
    }
    m
}

} // verus!
