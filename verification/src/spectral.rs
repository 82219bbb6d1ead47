//! The spectral transform stage.
//!
//! The magnitude vector is zero-padded to the fixed transform length and
//! turned into complex samples: the real part of sample `i` is the `i`-th
//! magnitude, and the imaginary part is a fixed non-zero seed (1) wherever
//! a magnitude is present and 0 in the padding.  The uniform seed is a
//! deliberate part of the visual signature and is kept as is.  A forward
//! transform then yields the magnitude spectrum.

use vstd::prelude::*;

use crate::FINGERPRINT_LEN;

verus! {

/// The magnitude spectrum the forward transform returns for the given
/// complex samples (real and imaginary parts, element-wise).
pub uninterp spec fn spectrum_of(re: Seq<u32>, im: Seq<u32>) -> Seq<u32>;

/// Relies on rustfft (`FftPlanner::plan_fft_forward`, `Fft::process`): the
/// transform is an unnormalized forward DFT computed in place, so the
/// output has the input's length, it depends on the samples alone, and an
/// exactly-zero input (every product and sum of zeros is zero) transforms
/// to an exactly-zero spectrum.
#[verifier::external_body]
fn fft_magnitudes(re: &Vec<u32>, im: &Vec<u32>) -> (r: Vec<u32>)
    requires
        re@.len() == im@.len(),
        re@.len() >= 1,
    ensures
        r@.len() == re@.len(),
        r@ == spectrum_of(re@, im@),
        (forall|i: int| 0 <= i < re@.len() ==> re@[i] == 0 && im@[i] == 0) ==> (forall|i: int|
            0 <= i < r@.len() ==> r@[i] == 0),
{
    let mut planner = rustfft::FftPlanner::new();
    let fft = planner.plan_fft_forward(re.len());
    let mut buffer: Vec<rustfft::num_complex::Complex32> = re
        .iter()
        .zip(im.iter())
        .map(|(a, b)| rustfft::num_complex::Complex32 { re: *a as _, im: *b as _ })
        .collect();
    fft.process(&mut buffer);
    buffer.iter().map(|c| c.norm() as u32).collect()
}

/// The padded real parts: the magnitudes, zero-extended to the transform
/// length.
pub open spec fn padded_re(mags: Seq<u32>) -> Seq<u32> {
    Seq::new(
        FINGERPRINT_LEN as nat,
        |i: int|
            if i < mags.len() {
                mags[i]
            } else {
                0
            },
    )
}

/// The seeded imaginary parts: the fixed seed 1 wherever a magnitude is
/// present, 0 in the padding.
pub open spec fn padded_im(mags: Seq<u32>) -> Seq<u32> {
    Seq::new(
        FINGERPRINT_LEN as nat,
        |i: int|
            if i < mags.len() {
                1u32
            } else {
                0
            },
    )
}

/// Builds the real and imaginary sample buffers for the transform.
fn build_buffers(mags: &Vec<u32>) -> (b: (Vec<u32>, Vec<u32>))
    requires
        mags@.len() <= FINGERPRINT_LEN,
    ensures
        b.0@ == padded_re(mags@),
        b.1@ == padded_im(mags@),
{
    let mut re: Vec<u32> = Vec::new();
    let mut im: Vec<u32> = Vec::new();
    let mut i: usize = 0;
    while i < FINGERPRINT_LEN
        invariant
            i <= FINGERPRINT_LEN,
            mags@.len() <= FINGERPRINT_LEN,
            re@.len() == i,
            im@.len() == i,
            forall|k: int| 0 <= k < i ==> re@[k] == padded_re(mags@)[k],
            forall|k: int| 0 <= k < i ==> im@[k] == padded_im(mags@)[k],
        decreases FINGERPRINT_LEN - i,
    {
        if i < mags.len() {
            re.push(mags[i]);
            im.push(1);
        } else {
            re.push(0);
            im.push(0);
        }
        i += 1;
    }
    proof {
        assert(re@ =~= padded_re(mags@));
        assert(im@ =~= padded_im(mags@));
    }
    (re, im)
}

/// Transforms a magnitude vector of at most the transform length into its
/// length-`FINGERPRINT_LEN` magnitude spectrum.
///
/// An empty input — padding alone, with no seeded samples — yields an
/// all-zero spectrum: the padding contributes no energy of its own.
pub fn spectral_transform(mags: &Vec<u32>) -> (r: Vec<u32>)
    requires
        mags@.len() <= FINGERPRINT_LEN,
    ensures
        r@.len() == FINGERPRINT_LEN,
        r@ == spectrum_of(padded_re(mags@), padded_im(mags@)),
        mags@.len() == 0 ==> forall|i: int| 0 <= i < r@.len() ==> r@[i] == 0,
{
    let (re, im) = build_buffers(mags);
    let r = fft_magnitudes(&re, &im);
    proof {
        if mags@.len() == 0 {
            assert(forall|i: int| 0 <= i < re@.len() ==> re@[i] == 0 && im@[i] == 0);
        }
    }
    r
}

} // verus!
