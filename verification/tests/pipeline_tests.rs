use freqprint::corpus::{CountEntry, FrequencyRecord};
use freqprint::decode::{decode_corpus, DecodeEvent, EventLog, SilentSink};
use freqprint::errors::PipelineError;
use freqprint::pipeline::{analyze_compressed, analyze_corpus};
use freqprint::project::{author_fingerprint, nonzero_count, project_author, rank_authors, top_authors};
use freqprint::render::{max_magnitude, norm_level_exec, pixel_color, render_grid, Gradient, Rgb};
use freqprint::select::{compute_stats, fingerprint_magnitudes, select_fingerprint, sort_entries};
use freqprint::spectral::spectral_transform;
use freqprint::vocab::{aggregate, StopwordSet, Vocabulary};
use freqprint::{AUTHOR_ID_LEN, COVERAGE_THRESHOLD, FINGERPRINT_LEN, IMAGE_SIDE};

fn put_u16(out: &mut Vec<u8>, v: u16) {
    out.extend_from_slice(&v.to_le_bytes());
}

fn put_u32(out: &mut Vec<u8>, v: u32) {
    out.extend_from_slice(&v.to_le_bytes());
}

fn put_author(out: &mut Vec<u8>, name: &[u8]) {
    let mut id = name.to_vec();
    id.resize(AUTHOR_ID_LEN, 0);
    out.extend_from_slice(&id);
}

fn put_record(out: &mut Vec<u8>, author: &[u8], words: &[(&[u8], u32)]) {
    put_author(out, author);
    put_u32(out, words.len() as u32);
    for (w, c) in words {
        put_u16(out, w.len() as u16);
        out.extend_from_slice(w);
        put_u32(out, *c);
    }
}

fn corpus_two_authors() -> Vec<u8> {
    let mut buf = Vec::new();
    put_u32(&mut buf, 2);
    put_record(&mut buf, b"authorA", &[(b"the", 50), (b"cat", 10), (b"dog", 5)]);
    put_record(&mut buf, b"authorB", &[(b"cat", 3), (b"fish", 7)]);
    buf
}

fn stop_the() -> StopwordSet {
    StopwordSet::from_words(vec![b"the".to_vec()])
}

fn gradient_pink() -> Gradient {
    Gradient {
        from: Rgb { r: 255, g: 20, b: 147 },
        to: Rgb { r: 255, g: 0, b: 255 },
    }
}

fn decode_ok(buf: &Vec<u8>) -> Vec<FrequencyRecord> {
    let mut sink = SilentSink {};
    decode_corpus(buf, &mut sink).expect("valid buffer")
}

#[test]
fn decode_two_records() {
    let buf = corpus_two_authors();
    let recs = decode_ok(&buf);
    assert_eq!(recs.len(), 2);
    let mut a0 = b"authorA".to_vec();
    a0.resize(AUTHOR_ID_LEN, 0);
    assert_eq!(recs[0].author, a0);
    assert_eq!(recs[0].words.len(), 3);
    assert_eq!(recs[0].words[0].key, b"the".to_vec());
    assert_eq!(recs[0].words[0].count, 50);
    assert_eq!(recs[1].words[1].key, b"fish".to_vec());
    assert_eq!(recs[1].words[1].count, 7);
}

#[test]
fn decode_empty_corpus() {
    let mut buf = Vec::new();
    put_u32(&mut buf, 0);
    let recs = decode_ok(&buf);
    assert_eq!(recs.len(), 0);
}

#[test]
fn decode_reports_progress() {
    let buf = corpus_two_authors();
    let mut log = EventLog::new();
    decode_corpus(&buf, &mut log).expect("valid buffer");
    assert_eq!(log.events.len(), 3);
    assert_eq!(log.events[0], DecodeEvent::Started { records: 2 });
    assert_eq!(log.events[1], DecodeEvent::RecordDecoded { index: 0, words: 3 });
    assert_eq!(log.events[2], DecodeEvent::RecordDecoded { index: 1, words: 2 });
}

#[test]
fn decode_result_ignores_the_sink() {
    let buf = corpus_two_authors();
    let mut silent = SilentSink {};
    let mut log = EventLog::new();
    let a = decode_corpus(&buf, &mut silent).expect("valid buffer");
    let b = decode_corpus(&buf, &mut log).expect("valid buffer");
    assert_eq!(a.len(), b.len());
    for (ra, rb) in a.iter().zip(b.iter()) {
        assert_eq!(ra.author, rb.author);
        assert_eq!(ra.words.len(), rb.words.len());
        for (wa, wb) in ra.words.iter().zip(rb.words.iter()) {
            assert_eq!(wa.key, wb.key);
            assert_eq!(wa.count, wb.count);
        }
    }
}

#[test]
fn decode_truncated_is_malformed() {
    let mut buf = corpus_two_authors();
    buf.truncate(buf.len() - 3);
    let mut sink = SilentSink {};
    assert_eq!(decode_corpus(&buf, &mut sink).err(), Some(PipelineError::MalformedInput));
}

#[test]
fn decode_trailing_bytes_are_malformed() {
    let mut buf = corpus_two_authors();
    buf.push(0);
    let mut sink = SilentSink {};
    assert_eq!(decode_corpus(&buf, &mut sink).err(), Some(PipelineError::MalformedInput));
}

#[test]
fn decode_zero_word_length_is_malformed() {
    let mut buf = Vec::new();
    put_u32(&mut buf, 1);
    put_author(&mut buf, b"authorA");
    put_u32(&mut buf, 1);
    put_u16(&mut buf, 0);
    put_u32(&mut buf, 9);
    let mut sink = SilentSink {};
    assert_eq!(decode_corpus(&buf, &mut sink).err(), Some(PipelineError::MalformedInput));
}

#[test]
fn decode_oversized_word_is_malformed() {
    let mut buf = Vec::new();
    put_u32(&mut buf, 1);
    put_author(&mut buf, b"authorA");
    put_u32(&mut buf, 1);
    let word = [b'x'; 65];
    put_u16(&mut buf, 65);
    buf.extend_from_slice(&word);
    put_u32(&mut buf, 9);
    let mut sink = SilentSink {};
    assert_eq!(decode_corpus(&buf, &mut sink).err(), Some(PipelineError::MalformedInput));
}

#[test]
fn decode_duplicate_word_is_malformed() {
    let mut buf = Vec::new();
    put_u32(&mut buf, 1);
    put_record(&mut buf, b"authorA", &[(b"cat", 1), (b"cat", 2)]);
    let mut sink = SilentSink {};
    assert_eq!(decode_corpus(&buf, &mut sink).err(), Some(PipelineError::MalformedInput));
}

#[test]
fn aggregate_excludes_stopwords() {
    let buf = corpus_two_authors();
    let recs = decode_ok(&buf);
    let vocab = aggregate(&recs, &stop_the());
    assert_eq!(vocab.len(), 3);
    assert_eq!(vocab.count(&b"the".to_vec()), 0);
    assert_eq!(vocab.count(&b"cat".to_vec()), 13);
    assert_eq!(vocab.count(&b"dog".to_vec()), 5);
    assert_eq!(vocab.count(&b"fish".to_vec()), 7);
}

#[test]
fn aggregate_total_matches_sum() {
    let buf = corpus_two_authors();
    let recs = decode_ok(&buf);
    let vocab = aggregate(&recs, &stop_the());
    let total: u64 = vocab.entries.iter().map(|e| e.count).sum();
    assert_eq!(total, 10 + 5 + 3 + 7);
}

#[test]
fn aggregate_is_order_independent() {
    let buf = corpus_two_authors();
    let mut recs = decode_ok(&buf);
    let vocab1 = aggregate(&recs, &stop_the());
    recs.reverse();
    let vocab2 = aggregate(&recs, &stop_the());
    for word in [&b"the"[..], b"cat", b"dog", b"fish"] {
        assert_eq!(vocab1.count(&word.to_vec()), vocab2.count(&word.to_vec()));
    }
    assert_eq!(vocab1.len(), vocab2.len());
}

#[test]
fn fingerprint_top_three_sorted() {
    let buf = corpus_two_authors();
    let recs = decode_ok(&buf);
    let vocab = aggregate(&recs, &stop_the());
    let fp = select_fingerprint(&vocab);
    assert_eq!(fp.entries.len(), 3);
    assert_eq!(fp.entries[0].key, b"cat".to_vec());
    assert_eq!(fp.entries[0].count, 13);
    assert_eq!(fp.entries[1].key, b"fish".to_vec());
    assert_eq!(fp.entries[1].count, 7);
    assert_eq!(fp.entries[2].key, b"dog".to_vec());
    assert_eq!(fp.entries[2].count, 5);
    let mags = fingerprint_magnitudes(&fp);
    assert_eq!(mags, vec![13u32, 7, 5]);
}

#[test]
fn fingerprint_ties_break_by_key_bytes() {
    let mut entries = vec![
        CountEntry { key: b"beta".to_vec(), count: 4 },
        CountEntry { key: b"alpha".to_vec(), count: 4 },
        CountEntry { key: b"gamma".to_vec(), count: 9 },
    ];
    sort_entries(&mut entries);
    assert_eq!(entries[0].key, b"gamma".to_vec());
    assert_eq!(entries[1].key, b"alpha".to_vec());
    assert_eq!(entries[2].key, b"beta".to_vec());
}

#[test]
fn fingerprint_caps_at_full_length() {
    let mut entries = Vec::new();
    for i in 0..(FINGERPRINT_LEN + 10) {
        entries.push(CountEntry { key: format!("w{:05}", i).into_bytes(), count: 1 + i as u64 });
    }
    let vocab = Vocabulary { entries };
    let fp = select_fingerprint(&vocab);
    assert_eq!(fp.entries.len(), FINGERPRINT_LEN);
    assert_eq!(fp.entries[0].count, (FINGERPRINT_LEN + 10) as u64);
}

#[test]
fn stats_exact_values() {
    let mags = vec![3u32, 4, 5];
    let st = compute_stats(&mags);
    assert_eq!(st.count, 3);
    assert_eq!(st.total, 12);
    assert_eq!(st.sum_squares, 9 + 16 + 25);
}

#[test]
fn spectrum_of_empty_fingerprint_is_all_zero() {
    let mags: Vec<u32> = Vec::new();
    let spectrum = spectral_transform(&mags);
    assert_eq!(spectrum.len(), FINGERPRINT_LEN);
    assert!(spectrum.iter().all(|&m| m == 0));
}

#[test]
fn spectrum_of_single_sample_spreads_everywhere() {
    let mags = vec![5u32];
    let spectrum = spectral_transform(&mags);
    assert_eq!(spectrum.len(), FINGERPRINT_LEN);
    // The transform of one non-zero sample (with its unit imaginary seed)
    // puts magnitude sqrt(26) in every bin; a pass-through would leave
    // zeros everywhere past the first bin.
    for &m in spectrum.iter() {
        assert_eq!(m, 5);
    }
}

#[test]
fn zero_level_renders_black_for_any_gradient() {
    for g in [
        gradient_pink(),
        Gradient { from: Rgb { r: 1, g: 2, b: 3 }, to: Rgb { r: 200, g: 100, b: 50 } },
    ] {
        let c = pixel_color(&g, 0);
        assert_eq!(c, Rgb { r: 0, g: 0, b: 0 });
    }
}

#[test]
fn nonzero_level_interpolates_gradient() {
    let g = Gradient { from: Rgb { r: 0, g: 0, b: 0 }, to: Rgb { r: 255, g: 255, b: 255 } };
    let c = pixel_color(&g, 255);
    assert_eq!(c, Rgb { r: 255, g: 255, b: 255 });
    let mid = pixel_color(&g, 128);
    // (0 * 127 + 255 * 128) / 255 == 128
    assert_eq!(mid, Rgb { r: 128, g: 128, b: 128 });
}

#[test]
fn norm_level_scales_to_maximum() {
    assert_eq!(norm_level_exec(0, 100), 0);
    assert_eq!(norm_level_exec(100, 100), 255);
    assert_eq!(norm_level_exec(50, 100), 127);
    assert_eq!(norm_level_exec(0, 0), 0);
    assert_eq!(norm_level_exec(200, 100), 255);
}

#[test]
fn render_grid_dimensions_and_black_zeroes() {
    let spectrum = vec![0u32; FINGERPRINT_LEN];
    let grid = render_grid(&spectrum, &gradient_pink());
    assert_eq!(grid.len(), IMAGE_SIDE);
    for row in &grid {
        assert_eq!(row.len(), IMAGE_SIDE);
        for px in row {
            assert_eq!(*px, Rgb { r: 0, g: 0, b: 0 });
        }
    }
}

#[test]
fn max_magnitude_finds_largest() {
    assert_eq!(max_magnitude(&vec![3u32, 9, 1]), 9);
    assert_eq!(max_magnitude(&Vec::new()), 0);
}

fn wide_corpus() -> Vec<u8> {
    // One author uses enough distinct words to pass the coverage
    // threshold, another falls one short.
    let mut buf = Vec::new();
    put_u32(&mut buf, 2);
    let all: Vec<Vec<u8>> = (0..COVERAGE_THRESHOLD + 8)
        .map(|i| format!("word{:04}", i).into_bytes())
        .collect();
    let rich: Vec<(&[u8], u32)> =
        all[..COVERAGE_THRESHOLD].iter().map(|w| (&w[..], 2u32)).collect();
    let poor: Vec<(&[u8], u32)> =
        all[..COVERAGE_THRESHOLD - 1].iter().map(|w| (&w[..], 3u32)).collect();
    put_record(&mut buf, b"rich", &rich);
    put_record(&mut buf, b"poor", &poor);
    buf
}

#[test]
fn projector_threshold_decides_rendering() {
    let recs = decode_ok(&wide_corpus());
    let vocab = aggregate(&recs, &StopwordSet::new());
    let fp = select_fingerprint(&vocab);
    let g = gradient_pink();
    let rendered = author_fingerprint(&fp, &recs[0], &g);
    assert!(rendered.is_some());
    let img = rendered.unwrap();
    assert_eq!(img.grid.len(), IMAGE_SIDE);
    let skipped = author_fingerprint(&fp, &recs[1], &g);
    assert!(skipped.is_none());
}

#[test]
fn projection_aligns_to_fingerprint_order() {
    let recs = decode_ok(&corpus_two_authors());
    let vocab = aggregate(&recs, &stop_the());
    let fp = select_fingerprint(&vocab);
    // Author B holds cat:3 and fish:7; fingerprint order is cat, fish, dog.
    let proj = project_author(&fp, &recs[1]);
    assert_eq!(proj, vec![3, 7, 0]);
    assert_eq!(nonzero_count(&proj), 2);
}

#[test]
fn rank_authors_by_distinct_words() {
    let recs = decode_ok(&corpus_two_authors());
    let ranked = rank_authors(&recs);
    assert_eq!(ranked.len(), 2);
    let mut a0 = b"authorA".to_vec();
    a0.resize(AUTHOR_ID_LEN, 0);
    assert_eq!(ranked[0].key, a0);
    assert_eq!(ranked[0].count, 3);
    assert_eq!(ranked[1].count, 2);
}

#[test]
fn rank_authors_ties_break_by_author_bytes() {
    let mk = |name: &[u8], words: &[&[u8]]| {
        let mut author = name.to_vec();
        author.resize(AUTHOR_ID_LEN, 0);
        FrequencyRecord {
            author,
            words: words
                .iter()
                .map(|w| CountEntry { key: w.to_vec(), count: 1 })
                .collect(),
        }
    };
    let recs = vec![mk(b"zeta", &[b"a", b"b"]), mk(b"alpha", &[b"c", b"d"])];
    let ranked = rank_authors(&recs);
    let mut first = b"alpha".to_vec();
    first.resize(AUTHOR_ID_LEN, 0);
    assert_eq!(ranked[0].key, first);
}

#[test]
fn top_authors_caps_at_limit() {
    let mut recs = Vec::new();
    for i in 0..(freqprint::TOP_AUTHORS + 5) {
        let mut author = format!("a{:03}", i).into_bytes();
        author.resize(AUTHOR_ID_LEN, 0);
        let words = (0..(i % 7) + 1)
            .map(|k| CountEntry { key: format!("w{}", k).into_bytes(), count: 1 })
            .collect();
        recs.push(FrequencyRecord { author, words });
    }
    let top = top_authors(&recs);
    assert_eq!(top.len(), freqprint::TOP_AUTHORS);
    for pair in top.windows(2) {
        assert!(pair[0].count >= pair[1].count);
        if pair[0].count == pair[1].count {
            assert!(pair[0].key <= pair[1].key);
        }
    }
}

#[test]
fn end_to_end_two_author_scenario() {
    let buf = corpus_two_authors();
    let mut sink = SilentSink {};
    let analysis = analyze_corpus(&buf, &stop_the(), &gradient_pink(), &mut sink)
        .expect("well-formed corpus");
    assert_eq!(analysis.vocabulary.len(), 3);
    assert_eq!(analysis.vocabulary.count(&b"cat".to_vec()), 13);
    assert_eq!(analysis.vocabulary.count(&b"dog".to_vec()), 5);
    assert_eq!(analysis.vocabulary.count(&b"fish".to_vec()), 7);
    let keys: Vec<Vec<u8>> = analysis.fingerprint.entries.iter().map(|e| e.key.clone()).collect();
    assert_eq!(keys, vec![b"cat".to_vec(), b"fish".to_vec(), b"dog".to_vec()]);
    assert_eq!(analysis.stats.count, 3);
    assert_eq!(analysis.stats.total, 13 + 7 + 5);
    assert_eq!(analysis.spectrum.len(), FINGERPRINT_LEN);
    assert_eq!(analysis.image.len(), IMAGE_SIDE);
}

#[test]
fn malformed_input_yields_no_output() {
    let mut buf = corpus_two_authors();
    buf.truncate(buf.len() - 1);
    let mut sink = SilentSink {};
    let r = analyze_corpus(&buf, &stop_the(), &gradient_pink(), &mut sink);
    assert_eq!(r.err(), Some(PipelineError::MalformedInput));
}

#[test]
fn compressed_corpus_round_trips() {
    let buf = corpus_two_authors();
    let compressed = zstd::encode_all(&buf[..], 0).expect("compresses");
    let mut sink = SilentSink {};
    let analysis = analyze_compressed(&compressed, &stop_the(), &gradient_pink(), &mut sink)
        .expect("valid compressed corpus");
    assert_eq!(analysis.vocabulary.count(&b"cat".to_vec()), 13);
}

#[test]
fn invalid_compressed_stream_is_malformed() {
    let garbage = vec![1u8, 2, 3, 4, 5];
    let mut sink = SilentSink {};
    let r = analyze_compressed(&garbage, &stop_the(), &gradient_pink(), &mut sink);
    assert_eq!(r.err(), Some(PipelineError::MalformedInput));
}
