//! The renderer: a magnitude spectrum becomes a square RGB pixel grid.
//!
//! Each magnitude is normalized against the spectrum's maximum to a level
//! in `0..=255`; the level picks a color on a two-color linear gradient,
//! except that level 0 — no data — is always pure black, whatever the
//! gradient holds.  Pixel `(x, y)` of the grid shows the spectrum element
//! at linear index `y * IMAGE_SIDE + x`.

use vstd::prelude::*;

use crate::IMAGE_SIDE;

verus! {

/// One RGB pixel.
#[derive(Clone, Copy, Debug, PartialEq, Eq, Structural)]
pub struct Rgb {
    pub r: u8,
    pub g: u8,
    pub b: u8,
}

/// A two-color linear gradient between `from` and `to`.
#[derive(Clone, Copy, Debug, PartialEq, Eq, Structural)]
pub struct Gradient {
    pub from: Rgb,
    pub to: Rgb,
}

/// Pure black: the color of a zero level.
pub open spec fn black() -> Rgb {
    Rgb { r: 0, g: 0, b: 0 }
}

/// Linear interpolation of one channel at position `t / 255`.
pub open spec fn lerp_channel(c1: u8, c2: u8, t: u8) -> u8 {
    (((c1 as int) * (255 - t as int) + (c2 as int) * (t as int)) / 255) as u8
}

/// The color of a normalized level: black at 0, otherwise the gradient
/// interpolated at `t / 255`.
pub open spec fn shade(g: Gradient, t: u8) -> Rgb {
    if t == 0 {
        black()
    } else {
        Rgb {
            r: lerp_channel(g.from.r, g.to.r, t),
            g: lerp_channel(g.from.g, g.to.g, t),
            b: lerp_channel(g.from.b, g.to.b, t),
        }
    }
}

/// The largest magnitude of a spectrum (0 if empty).
pub open spec fn max_of(s: Seq<u32>) -> u32
    decreases s.len(),
{
    if s.len() == 0 {
        0
    } else if s[0] >= max_of(s.skip(1)) {
        s[0]
    } else {
        max_of(s.skip(1))
    }
}

/// The normalized level of magnitude `v` against maximum `m`, in `0..=255`.
pub open spec fn norm_level(v: u32, m: u32) -> u8 {
    let scaled = (v as int) * 255 / (if m == 0 {
        1
    } else {
        m as int
    });
    (if scaled > 255 {
        255
    } else {
        scaled
    }) as u8
}

/// A zero level renders as pure black whatever the gradient holds.
pub proof fn lemma_zero_renders_black(g: Gradient)
    ensures
        shade(g, 0) == black(),
{
}

/// One channel of the interpolated color.
fn lerp_channel_exec(c1: u8, c2: u8, t: u8) -> (c: u8)
    ensures
        c == lerp_channel(c1, c2, t),
{
    proof {
        assert((c1 as int) * (255 - t as int) <= 255 * 255 && (c2 as int) * (t as int) <= 255
            * 255) by (nonlinear_arith)
            requires
                c1 <= 255,
                c2 <= 255,
                t <= 255,
        ;
    }
    let v: u32 = (c1 as u32) * (255 - t as u32) + (c2 as u32) * (t as u32);
    (v / 255) as u8
}

/// The color of a normalized level under a gradient.
pub fn pixel_color(g: &Gradient, t: u8) -> (c: Rgb)
    ensures
        c == shade(*g, t),
{
    if t == 0 {
        Rgb { r: 0, g: 0, b: 0 }
    } else {
        Rgb {
            r: lerp_channel_exec(g.from.r, g.to.r, t),
            g: lerp_channel_exec(g.from.g, g.to.g, t),
            b: lerp_channel_exec(g.from.b, g.to.b, t),
        }
    }
}

/// The largest magnitude of a spectrum.
pub fn max_magnitude(s: &Vec<u32>) -> (m: u32)
    ensures
        m == max_of(s@),
{
    let ghost sv = s@;
    proof {
        assert(sv.skip(0) =~= sv);
    }
    let mut m: u32 = 0;
    let mut i: usize = s.len();
    while i > 0
        invariant
            i <= sv.len(),
            sv == s@,
            m == max_of(sv.skip(i as int)),
        decreases i,
    {
        i -= 1;
        proof {
            assert(sv.skip(i as int)[0] == sv[i as int]);
            assert(sv.skip(i as int).skip(1) =~= sv.skip(i as int + 1));
        }
        if s[i] >= m {
            m = s[i];
        }
    }
    m
}

/// The normalized level of `v` against maximum `m`.
pub fn norm_level_exec(v: u32, m: u32) -> (t: u8)
    ensures
        t == norm_level(v, m),
{
    let d: u64 = if m == 0 {
        1
    } else {
        m as u64
    };
    let scaled: u64 = (v as u64) * 255 / d;
    if scaled > 255 {
        255
    } else {
        scaled as u8
    }
}

/// Renders a full-length spectrum onto a square pixel grid: row `y`,
/// column `x` shows the spectrum element at `y * IMAGE_SIDE + x`,
/// normalized against the spectrum's maximum and shaded by the gradient.
pub fn render_grid(spectrum: &Vec<u32>, g: &Gradient) -> (grid: Vec<Vec<Rgb>>)
    requires
        spectrum@.len() == IMAGE_SIDE * IMAGE_SIDE,
    ensures
        grid@.len() == IMAGE_SIDE,
        forall|y: int| 0 <= y < IMAGE_SIDE ==> grid@[y]@.len() == IMAGE_SIDE,
        forall|y: int, x: int|
            0 <= y < IMAGE_SIDE && 0 <= x < IMAGE_SIDE ==> grid@[y]@[x] == shade(
                *g,
                norm_level(spectrum@[y * IMAGE_SIDE + x], max_of(spectrum@)),
            ),
{
    let m = max_magnitude(spectrum);
    let mut grid: Vec<Vec<Rgb>> = Vec::new();
    let mut y: usize = 0;
    while y < IMAGE_SIDE
        invariant
            y <= IMAGE_SIDE,
            spectrum@.len() == IMAGE_SIDE * IMAGE_SIDE,
            m == max_of(spectrum@),
            grid@.len() == y,
            forall|yy: int| 0 <= yy < y ==> grid@[yy]@.len() == IMAGE_SIDE,
            forall|yy: int, x: int|
                0 <= yy < y && 0 <= x < IMAGE_SIDE ==> grid@[yy]@[x] == shade(
                    *g,
                    norm_level(spectrum@[yy * IMAGE_SIDE + x], max_of(spectrum@)),
                ),
        decreases IMAGE_SIDE - y,
    {
        let mut row: Vec<Rgb> = Vec::new();
        let mut x: usize = 0;
        while x < IMAGE_SIDE
            invariant
                x <= IMAGE_SIDE,
                y < IMAGE_SIDE,
                spectrum@.len() == IMAGE_SIDE * IMAGE_SIDE,
                m == max_of(spectrum@),
                row@.len() == x,
                forall|xx: int|
                    0 <= xx < x ==> row@[xx] == shade(
                        *g,
                        norm_level(spectrum@[y * IMAGE_SIDE + xx], max_of(spectrum@)),
                    ),
            decreases IMAGE_SIDE - x,
        {
            proof {
                assert(y * IMAGE_SIDE + x < IMAGE_SIDE * IMAGE_SIDE) by (nonlinear_arith)
                    requires
                        y < IMAGE_SIDE,
                        x < IMAGE_SIDE,
                ;
            }
            let t = norm_level_exec(spectrum[y * IMAGE_SIDE + x], m);
            row.push(pixel_color(g, t));
            x += 1;
        }
        grid.push(row);
        y += 1;
    }
    grid
}

} // verus!
