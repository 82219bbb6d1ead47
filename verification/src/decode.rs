//! The decoder: a decompressed byte buffer becomes the ordered sequence of
//! per-author frequency records, or fails as malformed.
//!
//! Wire format, little-endian throughout:
//! - a 4-byte record count;
//! - each record: `AUTHOR_ID_LEN` author identifier bytes (right-padded
//!   with zeros), a 4-byte word count, then per word a 2-byte length `l`
//!   (`1..=MAX_WORD_LEN`), `l` word bytes, and a 4-byte count;
//! - no trailing bytes.
//!
//! A buffer is malformed exactly when it is truncated anywhere, a word
//! length is out of range, a word repeats within one record, or bytes are
//! left over.  The spec functions below state the format mathematically;
//! the decoder is proved to return precisely what they describe.

use vstd::prelude::*;

use crate::corpus::{entries_view, has_key, keys_unique, records_view, CountEntry, FrequencyRecord};
use crate::errors::PipelineError;
use crate::{AUTHOR_ID_LEN, MAX_WORD_LEN};

verus! {

/// One progress notification of the decoder.
#[derive(Clone, Copy, Debug, PartialEq, Eq, Structural)]
pub enum DecodeEvent {
    /// The record count was read.
    Started { records: usize },
    /// One record finished decoding.
    RecordDecoded { index: usize, words: usize },
}

/// Where the decoder's progress notifications go.  The sink is a side
/// channel only: the decode result is a function of the input bytes alone,
/// as the decoder's contract states, whatever a sink does.
pub trait ProgressSink {
    fn report(&mut self, event: DecodeEvent);
}

/// A sink that keeps every event it receives.
pub struct EventLog {
    pub events: Vec<DecodeEvent>,
}

impl EventLog {
    /// An empty log.
    pub fn new() -> (log: EventLog)
        ensures
            log.events@.len() == 0,
    {
        EventLog { events: Vec::new() }
    }
}

impl ProgressSink for EventLog {
    fn report(&mut self, event: DecodeEvent) {
        self.events.push(event);
    }
}

/// A sink that discards every event.
pub struct SilentSink {
}

impl ProgressSink for SilentSink {
    fn report(&mut self, event: DecodeEvent) {
    }
}

/// The 16-bit little-endian value at the head of a byte suffix.
pub open spec fn le16(s: Seq<u8>) -> int
    recommends
        s.len() >= 2,
{
    s[0] + 256 * s[1]
}

/// The 32-bit little-endian value at the head of a byte suffix.
pub open spec fn le32(s: Seq<u8>) -> int
    recommends
        s.len() >= 4,
{
    s[0] + 256 * s[1] + 65536 * s[2] + 16777216 * s[3]
}

/// No key of `a` occurs in `b`.
pub open spec fn keys_disjoint(a: Seq<(Seq<u8>, u64)>, b: Seq<(Seq<u8>, u64)>) -> bool {
    forall|i: int| 0 <= i < a.len() ==> !has_key(b, a[i].0)
}

/// Decodes `n` word entries from the head of `s`: the word-count pairs and
/// the remaining suffix, or nothing if the bytes do not conform (bad
/// length, truncation, or a repeated word).
pub open spec fn spec_decode_words(s: Seq<u8>, n: nat) -> Option<
    (Seq<(Seq<u8>, u64)>, Seq<u8>),
>
    decreases n,
{
    if n == 0 {
        Some((Seq::empty(), s))
    } else if s.len() < 2 {
        None
    } else {
        let l = le16(s);
        if l < 1 || l > MAX_WORD_LEN {
            None
        } else if s.len() < 2 + l + 4 {
            None
        } else {
            let word = s.subrange(2, 2 + l);
            let c = le32(s.skip(2 + l)) as u64;
            match spec_decode_words(s.skip(2 + l + 4), (n - 1) as nat) {
                None => None,
                Some((more, rest)) => if has_key(more, word) {
                    None
                } else {
                    Some((seq![(word, c)] + more, rest))
                },
            }
        }
    }
}

/// Decodes one record from the head of `s`.
pub open spec fn spec_decode_record(s: Seq<u8>) -> Option<
    ((Seq<u8>, Seq<(Seq<u8>, u64)>), Seq<u8>),
> {
    if s.len() < AUTHOR_ID_LEN + 4 {
        None
    } else {
        let author = s.take(AUTHOR_ID_LEN as int);
        let w = le32(s.skip(AUTHOR_ID_LEN as int));
        match spec_decode_words(s.skip(AUTHOR_ID_LEN + 4), w as nat) {
            None => None,
            Some((pairs, rest)) => Some(((author, pairs), rest)),
        }
    }
}

/// Decodes `n` records from the head of `s`.
pub open spec fn spec_decode_records(s: Seq<u8>, n: nat) -> Option<
    (Seq<(Seq<u8>, Seq<(Seq<u8>, u64)>)>, Seq<u8>),
>
    decreases n,
{
    if n == 0 {
        Some((Seq::empty(), s))
    } else {
        match spec_decode_record(s) {
            None => None,
            Some((rec, rest)) => match spec_decode_records(rest, (n - 1) as nat) {
                None => None,
                Some((recs, rest2)) => Some((seq![rec] + recs, rest2)),
            },
        }
    }
}

/// What a whole buffer decodes to: the record sequence, or nothing if the
/// buffer is malformed (including trailing bytes after the last record).
pub open spec fn spec_decode(s: Seq<u8>) -> Option<Seq<(Seq<u8>, Seq<(Seq<u8>, u64)>)>> {
    if s.len() < 4 {
        None
    } else {
        let n = le32(s);
        match spec_decode_records(s.skip(4), n as nat) {
            None => None,
            Some((recs, rest)) => if rest.len() == 0 {
                Some(recs)
            } else {
                None
            },
        }
    }
}

/// Reads the 16-bit little-endian value at `pos`.
fn read_u16(buf: &Vec<u8>, pos: usize) -> (r: Option<u16>)
    requires
        pos <= buf@.len(),
    ensures
        r matches Some(v) ==> buf@.len() - pos >= 2 && v as int == le16(buf@.skip(pos as int)),
        (r is None) == (buf@.len() - pos < 2),
{
    if buf.len() - pos < 2 {
        return None;
    }
    let v: u16 = buf[pos] as u16 + 256 * (buf[pos + 1] as u16);
    proof {
        let s = buf@.skip(pos as int);
        assert(s[0] == buf@[pos as int]);
        assert(s[1] == buf@[pos as int + 1]);
    }
    Some(v)
}

/// Reads the 32-bit little-endian value at `pos`.
fn read_u32(buf: &Vec<u8>, pos: usize) -> (r: Option<u32>)
    requires
        pos <= buf@.len(),
    ensures
        r matches Some(v) ==> buf@.len() - pos >= 4 && v as int == le32(buf@.skip(pos as int)),
        (r is None) == (buf@.len() - pos < 4),
{
    if buf.len() - pos < 4 {
        return None;
    }
    let v: u32 = buf[pos] as u32 + 256 * (buf[pos + 1] as u32) + 65536 * (buf[pos + 2] as u32)
        + 16777216 * (buf[pos + 3] as u32);
    proof {
        let s = buf@.skip(pos as int);
        assert(s[0] == buf@[pos as int]);
        assert(s[1] == buf@[pos as int + 1]);
        assert(s[2] == buf@[pos as int + 2]);
        assert(s[3] == buf@[pos as int + 3]);
    }
    Some(v)
}

/// Copies `n` bytes starting at `pos`.
fn read_bytes(buf: &Vec<u8>, pos: usize, n: usize) -> (r: Option<Vec<u8>>)
    requires
        pos <= buf@.len(),
    ensures
        r matches Some(v) ==> buf@.len() - pos >= n && v@ == buf@.skip(pos as int).subrange(
            0,
            n as int,
        ),
        (r is None) == (buf@.len() - pos < n),
{
    if buf.len() - pos < n {
        return None;
    }
    let blen = buf.len();
    let mut v: Vec<u8> = Vec::new();
    let mut i: usize = 0;
    while i < n
        invariant
            i <= n,
            pos + n <= blen,
            blen == buf@.len(),
            v@.len() == i,
            forall|k: int| 0 <= k < i ==> v@[k] == buf@[pos + k],
        decreases n - i,
    {
        v.push(buf[pos + i]);
        i += 1;
    }
    proof {
        assert(v@ =~= buf@.skip(pos as int).subrange(0, n as int));
    }
    Some(v)
}

/// Decodes one record starting at `pos`; returns it with the position just
/// past it.
fn decode_record(buf: &Vec<u8>, pos: usize) -> (r: Result<(FrequencyRecord, usize), PipelineError>)
    requires
        pos <= buf@.len(),
    ensures
        r matches Ok(p) ==> {
            &&& spec_decode_record(buf@.skip(pos as int)) == Some(
                (p.0@, buf@.skip(p.1 as int)),
            )
            &&& pos < p.1 <= buf@.len()
            &&& keys_unique(entries_view(p.0.words@))
        },
        r is Err ==> r == Err::<(FrequencyRecord, usize), PipelineError>(
            PipelineError::MalformedInput,
        ) && spec_decode_record(buf@.skip(pos as int)) is None,
{
    let ghost s0 = buf@.skip(pos as int);
    let blen = buf.len();
    let author = match read_bytes(buf, pos, AUTHOR_ID_LEN) {
        Some(a) => a,
        None => {
            return Err(PipelineError::MalformedInput);
        },
    };
    let w = match read_u32(buf, pos + AUTHOR_ID_LEN) {
        Some(w) => w,
        None => {
            proof {
                assert(buf@.skip(pos + AUTHOR_ID_LEN as int) =~= s0.skip(AUTHOR_ID_LEN as int));
            }
            return Err(PipelineError::MalformedInput);
        },
    };
    proof {
        assert(buf@.skip(pos + AUTHOR_ID_LEN as int) =~= s0.skip(AUTHOR_ID_LEN as int));
        assert(author@ =~= s0.take(AUTHOR_ID_LEN as int));
        assert(s0.len() >= AUTHOR_ID_LEN + 4);
    }
    let ghost sw = s0.skip(AUTHOR_ID_LEN + 4);
    let mut pos2: usize = pos + AUTHOR_ID_LEN + 4;
    proof {
        assert(buf@.skip(pos2 as int) =~= sw);
    }
    let mut words: Vec<CountEntry> = Vec::new();
    let mut j: u32 = 0;
    while j < w
        invariant
            pos2 <= buf@.len(),
            blen == buf@.len(),
            j <= w,
            sw == s0.skip(AUTHOR_ID_LEN + 4),
            s0 == buf@.skip(pos as int),
            s0.len() >= AUTHOR_ID_LEN + 4,
            w as int == le32(s0.skip(AUTHOR_ID_LEN as int)),
            pos < pos2,
            keys_unique(entries_view(words@)),
            spec_decode_words(sw, w as nat) == (match spec_decode_words(
                buf@.skip(pos2 as int),
                (w - j) as nat,
            ) {
                None => None,
                Some((more, rest)) => if keys_disjoint(entries_view(words@), more) {
                    Some((entries_view(words@) + more, rest))
                } else {
                    None
                },
            }),
        decreases w - j,
    {
        let ghost cur = buf@.skip(pos2 as int);
        let ghost pv = entries_view(words@);
        let l = match read_u16(buf, pos2) {
            Some(l) => l,
            None => {
                proof {
                    assert(spec_decode_words(cur, (w - j) as nat) is None);
                    assert(spec_decode_words(sw, w as nat) is None);
                    assert(spec_decode_record(s0) is None);
                }
                return Err(PipelineError::MalformedInput);
            },
        };
        if l < 1 || l as usize > MAX_WORD_LEN {
            proof {
                assert(spec_decode_words(cur, (w - j) as nat) is None);
                assert(spec_decode_words(sw, w as nat) is None);
                assert(spec_decode_record(s0) is None);
            }
            return Err(PipelineError::MalformedInput);
        }
        let word = match read_bytes(buf, pos2 + 2, l as usize) {
            Some(v) => v,
            None => {
                proof {
                    assert(cur.len() < 2 + (l as int) + 4);
                    assert(spec_decode_words(cur, (w - j) as nat) is None);
                    assert(spec_decode_words(sw, w as nat) is None);
                    assert(spec_decode_record(s0) is None);
                }
                return Err(PipelineError::MalformedInput);
            },
        };
        let c = match read_u32(buf, pos2 + 2 + l as usize) {
            Some(c) => c,
            None => {
                proof {
                    assert(cur.len() < 2 + (l as int) + 4);
                    assert(spec_decode_words(cur, (w - j) as nat) is None);
                    assert(spec_decode_words(sw, w as nat) is None);
                    assert(spec_decode_record(s0) is None);
                }
                return Err(PipelineError::MalformedInput);
            },
        };
        proof {
            assert(cur.len() >= 2 + (l as int) + 4);
            assert(word@ =~= cur.subrange(2, 2 + l as int));
            assert(buf@.skip((pos2 + 2 + l as usize) as int) =~= cur.skip(2 + l as int));
            assert(le32(cur.skip(2 + l as int)) == c as int);
        }
        // A word repeated within one record is a framing violation.
        let dup = match crate::corpus::lookup_count(&words, &word) {
            Some(_) => true,
            None => false,
        };
        let ghost next = buf@.skip((pos2 + 2 + l as usize + 4) as int);
        proof {
            assert(next =~= cur.skip(2 + l as int + 4));
            let x = spec_decode_words(next, (w - j - 1) as nat);
            if dup {
                assert(has_key(pv, word@));
                match x {
                    None => {
                        assert(spec_decode_words(cur, (w - j) as nat) is None);
                    },
                    Some((mp, rest)) => {
                        if has_key(mp, word@) {
                            assert(spec_decode_words(cur, (w - j) as nat) is None);
                        } else {
                            let cons = seq![(word@, c as u64)] + mp;
                            assert(spec_decode_words(cur, (w - j) as nat) == Some((cons, rest)));
                            let i = choose|i: int| 0 <= i < pv.len() && pv[i].0 == word@;
                            assert(cons[0].0 == word@);
                            assert(has_key(cons, pv[i].0));
                            assert(!keys_disjoint(pv, cons));
                        }
                    },
                }
                assert(spec_decode_words(sw, w as nat) is None);
                assert(spec_decode_record(s0) is None);
            }
        }
        if dup {
            return Err(PipelineError::MalformedInput);
        }
        words.push(CountEntry { key: word, count: c as u64 });
        proof {
            let pv2 = entries_view(words@);
            assert(pv2 =~= pv.push((word@, c as u64)));
            let x = spec_decode_words(next, (w - j - 1) as nat);
            match x {
                None => {
                    assert(spec_decode_words(cur, (w - j) as nat) is None);
                },
                Some((mp, rest)) => {
                    let cons = seq![(word@, c as u64)] + mp;
                    assert forall|k: Seq<u8>| has_key(cons, k) == (word@ == k || has_key(
                        mp,
                        k,
                    )) by {
                        if has_key(cons, k) {
                            let i = choose|i: int| 0 <= i < cons.len() && cons[i].0 == k;
                            if i > 0 {
                                assert(cons[i] == mp[i - 1]);
                                assert(has_key(mp, k));
                            }
                        }
                        if has_key(mp, k) {
                            let i = choose|i: int| 0 <= i < mp.len() && mp[i].0 == k;
                            assert(cons[i + 1].0 == k);
                        }
                        if word@ == k {
                            assert(cons[0].0 == k);
                        }
                    }
                    if has_key(mp, word@) {
                        assert(spec_decode_words(cur, (w - j) as nat) is None);
                        assert(!keys_disjoint(pv2, mp)) by {
                            assert(pv2[pv.len() as int].0 == word@);
                        }
                    } else {
                        assert(spec_decode_words(cur, (w - j) as nat) == Some((cons, rest)));
                        assert(!has_key(pv, word@));
                        assert(keys_disjoint(pv, cons) == keys_disjoint(pv2, mp)) by {
                            if keys_disjoint(pv, cons) {
                                assert forall|i: int| 0 <= i < pv2.len() implies !has_key(
                                    mp,
                                    pv2[i].0,
                                ) by {
                                    if i < pv.len() {
                                        assert(!has_key(cons, pv[i].0));
                                    } else {
                                        assert(pv2[i].0 == word@);
                                    }
                                }
                            }
                            if keys_disjoint(pv2, mp) {
                                assert forall|i: int| 0 <= i < pv.len() implies !has_key(
                                    cons,
                                    pv[i].0,
                                ) by {
                                    assert(!has_key(mp, pv2[i as int].0));
                                    assert(pv[i].0 != word@);
                                }
                            }
                        }
                        assert(pv + cons =~= pv2 + mp);
                    }
                    assert(keys_unique(pv2)) by {
                        assert(forall|i: int| 0 <= i < pv.len() ==> pv2[i] == pv[i]);
                        assert(pv2[pv.len() as int].0 == word@);
                    }
                },
            }
        }
        pos2 = pos2 + 2 + l as usize + 4;
        j += 1;
    }
    proof {
        let fin = buf@.skip(pos2 as int);
        assert(spec_decode_words(fin, 0) == Some((Seq::<(Seq<u8>, u64)>::empty(), fin)));
        let pv = entries_view(words@);
        assert(keys_disjoint(pv, Seq::<(Seq<u8>, u64)>::empty()));
        assert(pv + Seq::<(Seq<u8>, u64)>::empty() =~= pv);
        assert(spec_decode_words(sw, w as nat) == Some((pv, fin)));
        assert(spec_decode_record(s0) == Some(((author@, pv), fin)));
    }
    let rec = FrequencyRecord { author, words };
    Ok((rec, pos2))
}

/// Decodes a whole buffer into its ordered record sequence, reporting
/// progress through the sink.
///
/// Succeeds exactly when the buffer conforms to the wire format; a
/// malformed buffer yields `MalformedInput` and nothing else.  The result
/// is a function of the bytes alone — the sink receives notifications but
/// cannot affect what is returned.
pub fn decode_corpus<S: ProgressSink>(buf: &Vec<u8>, sink: &mut S) -> (r: Result<
    Vec<FrequencyRecord>,
    PipelineError,
>)
    ensures
        r matches Ok(recs) ==> spec_decode(buf@) == Some(records_view(recs@)) && forall|i: int|
            0 <= i < recs@.len() ==> keys_unique(records_view(recs@)[i].1),
        r is Err ==> r == Err::<Vec<FrequencyRecord>, PipelineError>(PipelineError::MalformedInput)
            && spec_decode(buf@) is None,
{
    let n = match read_u32(buf, 0) {
        Some(n) => n,
        None => {
            proof {
                assert(buf@.skip(0) =~= buf@);
            }
            return Err(PipelineError::MalformedInput);
        },
    };
    proof {
        assert(buf@.skip(0) =~= buf@);
        assert(le32(buf@) == n as int);
    }
    sink.report(DecodeEvent::Started { records: n as usize });
    let mut recs: Vec<FrequencyRecord> = Vec::new();
    let mut pos: usize = 4;
    let mut k: u32 = 0;
    while k < n
        invariant
            4 <= pos <= buf@.len(),
            k <= n,
            buf@.len() >= 4,
            n as int == le32(buf@),
            recs@.len() == k,
            forall|i: int| 0 <= i < recs@.len() ==> keys_unique(records_view(recs@)[i].1),
            spec_decode_records(buf@.skip(4), n as nat) == (match spec_decode_records(
                buf@.skip(pos as int),
                (n - k) as nat,
            ) {
                None => None,
                Some((more, rest)) => Some((records_view(recs@) + more, rest)),
            }),
        decreases n - k,
    {
        let ghost cur = buf@.skip(pos as int);
        let ghost rv = records_view(recs@);
        let (rec, newpos) = match decode_record(buf, pos) {
            Ok(p) => p,
            Err(e) => {
                return Err(PipelineError::MalformedInput);
            },
        };
        let word_count = rec.words.len();
        proof {
            let next = buf@.skip(newpos as int);
            let x = spec_decode_records(next, (n - k - 1) as nat);
            assert(spec_decode_record(cur) == Some((rec@, next)));
            match x {
                None => {
                    assert(spec_decode_records(cur, (n - k) as nat) is None);
                },
                Some((more, rest)) => {
                    assert(spec_decode_records(cur, (n - k) as nat) == Some(
                        (seq![rec@] + more, rest),
                    ));
                },
            }
        }
        recs.push(rec);
        proof {
            let rv2 = records_view(recs@);
            assert(rv2 =~= rv.push(recs@[recs@.len() - 1]@));
            let next = buf@.skip(newpos as int);
            match spec_decode_records(next, (n - k - 1) as nat) {
                None => {},
                Some((more, rest)) => {
                    assert(rv + (seq![rv2[rv.len() as int]] + more) =~= rv2 + more);
                },
            }
        }
        pos = newpos;
        sink.report(DecodeEvent::RecordDecoded { index: k as usize, words: word_count });
        k += 1;
    }
    if pos != buf.len() {
        proof {
            assert(spec_decode_records(buf@.skip(pos as int), 0) == Some(
                (Seq::<(Seq<u8>, Seq<(Seq<u8>, u64)>)>::empty(), buf@.skip(pos as int)),
            ));
            assert(records_view(recs@) + Seq::<(Seq<u8>, Seq<(Seq<u8>, u64)>)>::empty()
                =~= records_view(recs@));
            assert(buf@.skip(pos as int).len() > 0);
        }
        return Err(PipelineError::MalformedInput);
    }
    proof {
        assert(spec_decode_records(buf@.skip(pos as int), 0) == Some(
            (Seq::<(Seq<u8>, Seq<(Seq<u8>, u64)>)>::empty(), buf@.skip(pos as int)),
        ));
        assert(records_view(recs@) + Seq::<(Seq<u8>, Seq<(Seq<u8>, u64)>)>::empty()
            =~= records_view(recs@));
        assert(buf@.skip(pos as int).len() == 0);
        assert(spec_decode(buf@) == Some(records_view(recs@)));
    }
    Ok(recs)
}

} // verus!
