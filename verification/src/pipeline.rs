//! The per-file pipeline: decompress, decode, aggregate, select,
//! transform, render.
//!
//! A failure while decoding is file-scoped: the pipeline returns
//! `MalformedInput` and hands back nothing at all — no partial vocabulary,
//! no image.

use vstd::prelude::*;

use crate::corpus::{corpus_count_of, corpus_nonstop_total, count_of, records_view,
    FrequencyRecord};
use crate::decode::{decode_corpus, spec_decode, spec_decode_record, spec_decode_records,
    spec_decode_words, ProgressSink};
use crate::errors::PipelineError;
use crate::render::{max_of, norm_level, render_grid, shade, Gradient, Rgb};
use crate::select::{compute_stats, fingerprint_magnitudes, mag_sq_total, mag_total, mags_of,
    select_fingerprint, sorted_entries, FingerprintStats, FingerprintVector};
use crate::spectral::{padded_im, padded_re, spectral_transform, spectrum_of};
use crate::vocab::{aggregate, StopwordSet, Vocabulary};
use crate::{FINGERPRINT_LEN, IMAGE_SIDE};

verus! {

/// Largest supported decompressed corpus: 4 GiB.  The bound keeps every
/// aggregate count within a 64-bit accumulator, since each of at most
/// `len / 7` word entries carries a 32-bit count.
pub const MAX_CORPUS_BYTES: u64 = 0x1_0000_0000;

/// What zstd decompression yields for a byte stream: the decompressed
/// bytes, or nothing for an invalid stream.
pub uninterp spec fn zstd_inflate(compressed: Seq<u8>) -> Option<Seq<u8>>;

/// Relies on zstd::stream::decode_all: decompressing an in-memory buffer
/// is deterministic in the bytes alone, and an invalid stream is an error.
#[verifier::external_body]
fn zstd_decompress(compressed: &Vec<u8>) -> (r: Option<Vec<u8>>)
    ensures
        r matches Some(v) ==> zstd_inflate(compressed@) == Some(v@),
        r is None ==> zstd_inflate(compressed@) is None,
{
    match zstd::stream::decode_all(compressed.as_slice()) {
        Ok(v) => Some(v),
        Err(_) => None,
    }
}

/// Everything the pipeline derives from one decompressed buffer.
pub struct Analysis {
    pub records: Vec<FrequencyRecord>,
    pub vocabulary: Vocabulary,
    pub fingerprint: FingerprintVector,
    pub stats: FingerprintStats,
    pub spectrum: Vec<u32>,
    pub image: Vec<Vec<Rgb>>,
}

/// What a correct analysis of `bytes` holds, stage by stage.
pub open spec fn analysis_matches(
    a: Analysis,
    bytes: Seq<u8>,
    stop: Set<Seq<u8>>,
    g: Gradient,
) -> bool {
    let rv = records_view(a.records@);
    let fpm = a.fingerprint.model();
    let mags = mags_of(fpm);
    let spectrum = spectrum_of(padded_re(mags), padded_im(mags));
    &&& spec_decode(bytes) == Some(rv)
    &&& a.vocabulary.wf()
    &&& (forall|w: Seq<u8>|
        a.vocabulary.spec_count(w) == (if stop.contains(w) {
            0
        } else {
            corpus_count_of(rv, w)
        }))
    &&& a.vocabulary.spec_total() == corpus_nonstop_total(rv, stop)
    &&& a.fingerprint.wf()
    &&& (a.vocabulary.model().len() <= FINGERPRINT_LEN ==> fpm.len()
        == a.vocabulary.model().len())
    &&& (a.vocabulary.model().len() > FINGERPRINT_LEN ==> fpm.len() == FINGERPRINT_LEN)
    &&& (exists|s: Seq<(Seq<u8>, u64)>|
        #![auto]
        s.to_multiset() == a.vocabulary.model().to_multiset() && sorted_entries(s) && fpm
            == s.take(fpm.len() as int))
    &&& a.stats.count == fpm.len()
    &&& a.stats.total == mag_total(mags)
    &&& a.stats.sum_squares == mag_sq_total(mags)
    &&& a.spectrum@ == spectrum
    &&& a.image@.len() == IMAGE_SIDE
    &&& (forall|y: int| 0 <= y < IMAGE_SIDE ==> a.image@[y]@.len() == IMAGE_SIDE)
    &&& (forall|y: int, x: int|
        0 <= y < IMAGE_SIDE && 0 <= x < IMAGE_SIDE ==> a.image@[y]@[x] == shade(
            g,
            norm_level(spectrum[y * IMAGE_SIDE + x], max_of(spectrum)),
        ))
}

/// A successful word parse consumes at least 7 bytes per entry, yields
/// exactly `n` entries, and every count fits 32 bits.
proof fn lemma_words_size(s: Seq<u8>, n: nat)
    requires
        spec_decode_words(s, n) is Some,
    ensures
        ({
            let (pairs, rest) = spec_decode_words(s, n).unwrap();
            &&& pairs.len() == n
            &&& 7 * n + rest.len() <= s.len()
            &&& forall|i: int| 0 <= i < pairs.len() ==> pairs[i].1 < 0x1_0000_0000
        }),
    decreases n,
{
    if n > 0 {
        let l = le16_of(s);
        let tail = s.skip(2 + l + 4);
        lemma_words_size(tail, (n - 1) as nat);
        let (more, rest) = spec_decode_words(tail, (n - 1) as nat).unwrap();
        let word = s.subrange(2, 2 + l);
        let c = crate::decode::le32(s.skip(2 + l)) as u64;
        let cons = seq![(word, c)] + more;
        assert(cons[0] == (word, c));
        assert(forall|i: int| 1 <= i < cons.len() ==> cons[i] == more[i - 1]);
        assert(crate::decode::le32(s.skip(2 + l)) < 0x1_0000_0000);
    }
}

/// The word length at the head of a word entry.
spec fn le16_of(s: Seq<u8>) -> int {
    crate::decode::le16(s)
}

/// A count sum over `m` entries, each below 2^32, is at most `m * (2^32-1)`.
proof fn lemma_count_small(pairs: Seq<(Seq<u8>, u64)>, w: Seq<u8>)
    requires
        forall|i: int| 0 <= i < pairs.len() ==> pairs[i].1 < 0x1_0000_0000,
    ensures
        count_of(pairs, w) <= pairs.len() * 0xffff_ffff,
    decreases pairs.len(),
{
    if pairs.len() == 0 {
    } else {
        assert(forall|i: int| 0 <= i < pairs.skip(1).len() ==> pairs.skip(1)[i] == pairs[i + 1]);
        lemma_count_small(pairs.skip(1), w);
        assert((pairs.len() - 1) * 0xffff_ffff + 0xffff_ffff == pairs.len() * 0xffff_ffff)
            by (nonlinear_arith);
    }
}

/// Over a successfully parsed record sequence, seven times any word's
/// corpus count is bounded by the consumed byte count times `2^32-1`.
proof fn lemma_records_count_bound(s: Seq<u8>, n: nat, w: Seq<u8>)
    requires
        spec_decode_records(s, n) is Some,
    ensures
        ({
            let (recs, rest) = spec_decode_records(s, n).unwrap();
            &&& rest.len() <= s.len()
            &&& 7 * corpus_count_of(recs, w) <= 0xffff_ffff * (s.len() - rest.len())
        }),
    decreases n,
{
    if n == 0 {
    } else {
        let (rec, rest1) = spec_decode_record(s).unwrap();
        let nw = crate::decode::le32(s.skip(crate::AUTHOR_ID_LEN as int)) as nat;
        lemma_words_size(s.skip(crate::AUTHOR_ID_LEN + 4), nw);
        let (pairs, wrest) = spec_decode_words(s.skip(crate::AUTHOR_ID_LEN + 4), nw).unwrap();
        assert(rec.1 == pairs && rest1 == wrest);
        lemma_count_small(pairs, w);
        assert(7 * count_of(pairs, w) <= 7 * (pairs.len() * 0xffff_ffff)) by (nonlinear_arith)
            requires
                count_of(pairs, w) <= pairs.len() * 0xffff_ffff,
        ;
        assert(7 * (pairs.len() * 0xffff_ffff) == (7 * pairs.len()) * 0xffff_ffff)
            by (nonlinear_arith);
        assert((7 * pairs.len()) * 0xffff_ffff <= (s.len() - rest1.len()) * 0xffff_ffff)
            by (nonlinear_arith)
            requires
                7 * pairs.len() <= s.len() - rest1.len(),
        ;
        lemma_records_count_bound(rest1, (n - 1) as nat, w);
        let (recs1, rest2) = spec_decode_records(rest1, (n - 1) as nat).unwrap();
        assert(spec_decode_records(s, n) == Some((seq![rec] + recs1, rest2)));
        assert((seq![rec] + recs1)[0] == rec);
        assert((seq![rec] + recs1).skip(1) =~= recs1);
        assert(corpus_count_of(seq![rec] + recs1, w) == count_of(rec.1, w) + corpus_count_of(
            recs1,
            w,
        ));
        assert(0xffff_ffff * (rest1.len() - rest2.len()) + 0xffff_ffff * (s.len() - rest1.len())
            == 0xffff_ffff * (s.len() - rest2.len())) by (nonlinear_arith);
    }
}

/// On a buffer within the supported size, every word's corpus count fits a
/// 64-bit accumulator.
pub proof fn lemma_decode_count_bound(bytes: Seq<u8>, w: Seq<u8>)
    requires
        spec_decode(bytes) is Some,
        bytes.len() <= MAX_CORPUS_BYTES,
    ensures
        corpus_count_of(spec_decode(bytes).unwrap(), w) <= u64::MAX,
{
    let n = crate::decode::le32(bytes) as nat;
    lemma_records_count_bound(bytes.skip(4), n, w);
    let (recs, rest) = spec_decode_records(bytes.skip(4), n).unwrap();
    assert(rest.len() == 0);
    assert(7 * corpus_count_of(recs, w) <= 0xffff_ffff * bytes.skip(4).len());
    assert(0xffff_ffff * bytes.skip(4).len() <= 0xffff_ffff * 0x1_0000_0000) by (nonlinear_arith)
        requires
            bytes.skip(4).len() <= 0x1_0000_0000,
    ;
    crate::vocab::lemma_corpus_count_nonneg(recs, w);
}

/// Runs the pipeline over one decompressed buffer: decode the records,
/// aggregate the vocabulary, select the fingerprint, compute its
/// statistics, transform it, and render the global image.
///
/// Fails exactly when the buffer is malformed, with `MalformedInput` and
/// no other output.
pub fn analyze_corpus<S: ProgressSink>(
    buf: &Vec<u8>,
    stopwords: &StopwordSet,
    gradient: &Gradient,
    sink: &mut S,
) -> (r: Result<Analysis, PipelineError>)
    requires
        buf@.len() <= MAX_CORPUS_BYTES,
    ensures
        (r is Err) == (spec_decode(buf@) is None),
        r is Err ==> r == Err::<Analysis, PipelineError>(PipelineError::MalformedInput),
        r matches Ok(a) ==> analysis_matches(a, buf@, stopwords.spec_set(), *gradient),
{
    let records = match decode_corpus(buf, sink) {
        Ok(r) => r,
        Err(_) => {
            return Err(PipelineError::MalformedInput);
        },
    };
    proof {
        assert forall|w: Seq<u8>|
            corpus_count_of(records_view(records@), w) <= u64::MAX by {
            lemma_decode_count_bound(buf@, w);
        }
    }
    let vocabulary = aggregate(&records, stopwords);
    let fingerprint = select_fingerprint(&vocabulary);
    let mags = fingerprint_magnitudes(&fingerprint);
    let stats = compute_stats(&mags);
    let spectrum = spectral_transform(&mags);
    proof {
        crate::lemma_image_side_squares();
    }
    let image = render_grid(&spectrum, gradient);
    Ok(Analysis { records, vocabulary, fingerprint, stats, spectrum, image })
}

/// Runs the pipeline over one compressed input: decompress, then analyze.
///
/// An invalid compressed stream, a decompressed buffer over the supported
/// size, and a malformed decompressed buffer all fail with
/// `MalformedInput`; anything else succeeds as `analyze_corpus` states.
pub fn analyze_compressed<S: ProgressSink>(
    compressed: &Vec<u8>,
    stopwords: &StopwordSet,
    gradient: &Gradient,
    sink: &mut S,
) -> (r: Result<Analysis, PipelineError>)
    ensures
        r is Err ==> r == Err::<Analysis, PipelineError>(PipelineError::MalformedInput),
        zstd_inflate(compressed@) is None ==> r is Err,
        zstd_inflate(compressed@) matches Some(bytes) ==> {
            &&& bytes.len() > MAX_CORPUS_BYTES ==> r is Err
            &&& (bytes.len() <= MAX_CORPUS_BYTES ==> ((r is Err) == (spec_decode(bytes) is None))
                && (r matches Ok(a) ==> analysis_matches(
                a,
                bytes,
                stopwords.spec_set(),
                *gradient,
            )))
        },
{
    let buf = match zstd_decompress(compressed) {
        Some(v) => v,
        None => {
            return Err(PipelineError::MalformedInput);
        },
    };
    if (buf.len() as u64) > MAX_CORPUS_BYTES {
        return Err(PipelineError::MalformedInput);
    }
    analyze_corpus(&buf, stopwords, gradient, sink)
}

} // verus!
