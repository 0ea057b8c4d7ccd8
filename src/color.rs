use vstd::prelude::*;

use crate::raster::RgbImage;

verus! {

/// A pixel with red, green, blue and alpha channels.
#[derive(Clone, Copy, Debug, PartialEq, Eq, Structural)]
pub struct Rgba {
    pub r: u8,
    pub g: u8,
    pub b: u8,
    pub a: u8,
}

/// The mean color of `count` pixels, kept exactly as the three channel sums:
/// the mean of a channel is its sum divided by `count`.
#[derive(Clone, Copy, Debug, PartialEq, Eq, Structural)]
pub struct MeanColor {
    pub r: u64,
    pub g: u64,
    pub b: u64,
    pub count: u64,
}

/// Sum of channel `c` over the first `n` pixels of a 3-byte-per-pixel buffer.
pub open spec fn channel_sum(data: Seq<u8>, c: int, n: nat) -> int
    decreases n,
{
    if n == 0 {
        0
    } else {
        channel_sum(data, c, (n - 1) as nat) + data[(n - 1) * 3 + c]
    }
}

/// The mean color of a whole image.
pub open spec fn mean_of(img: RgbImage) -> MeanColor {
    let n = img.npixels() as nat;
    MeanColor {
        r: channel_sum(img.data@, 0, n) as u64,
        g: channel_sum(img.data@, 1, n) as u64,
        b: channel_sum(img.data@, 2, n) as u64,
        count: n as u64,
    }
}

/// Every pixel of `img` is `(r, g, b)`.
pub open spec fn is_uniform(img: RgbImage, r: u8, g: u8, b: u8) -> bool {
    forall|p: int|
        0 <= p < img.npixels() ==> {
            &&& #[trigger] img.data@[p * 3] == r
            &&& img.data@[p * 3 + 1] == g
            &&& img.data@[p * 3 + 2] == b
        }
}

proof fn lemma_channel_sum_uniform(data: Seq<u8>, c: int, n: nat, v: u8)
    requires
        0 <= c < 3,
        data.len() >= n * 3,
        forall|p: int| 0 <= p < n ==> #[trigger] data[p * 3 + c] == v,
    ensures
        channel_sum(data, c, n) == n * v,
    decreases n,
{
    if n > 0 {
        lemma_channel_sum_uniform(data, c, (n - 1) as nat, v);
        assert(data[(n - 1) * 3 + c] == v);
        assert(channel_sum(data, c, n) == channel_sum(data, c, (n - 1) as nat) + data[(n - 1)
            * 3 + c]);
        let m = (n - 1) as nat;
        assert(channel_sum(data, c, m) == m * v);
        assert(n * v == m * v + v) by (nonlinear_arith)
            requires n == m + 1;
        assert(channel_sum(data, c, n) == n * v);
    } else {
        assert(channel_sum(data, c, n) == 0);
        assert(n * v == 0);
    }
}

/// A tile filled with one color has exactly that color as its mean: each
/// channel sum is the pixel count times the channel value.
pub proof fn lemma_uniform_mean(img: RgbImage, r: u8, g: u8, b: u8)
    requires
        img.wf(),
        img.npixels() <= u32::MAX,
        is_uniform(img, r, g, b),
    ensures
        mean_of(img).count == img.npixels(),
        mean_of(img).r == img.npixels() * r,
        mean_of(img).g == img.npixels() * g,
        mean_of(img).b == img.npixels() * b,
{
    let n = img.npixels() as nat;
    assert forall|p: int| 0 <= p < n implies #[trigger] img.data@[p * 3 + 0] == r by {
        assert(img.data@[p * 3] == r);
    }
    assert forall|p: int| 0 <= p < n implies #[trigger] img.data@[p * 3 + 1] == g by {
        assert(img.data@[p * 3] == r);
    }
    assert forall|p: int| 0 <= p < n implies #[trigger] img.data@[p * 3 + 2] == b by {
        assert(img.data@[p * 3] == r);
    }
    lemma_channel_sum_uniform(img.data@, 0, n, r);
    lemma_channel_sum_uniform(img.data@, 1, n, g);
    lemma_channel_sum_uniform(img.data@, 2, n, b);
    assert(n * r <= 255 * n) by (nonlinear_arith) requires r <= 255;
    assert(n * g <= 255 * n) by (nonlinear_arith) requires g <= 255;
    assert(n * b <= 255 * n) by (nonlinear_arith) requires b <= 255;
}

/// The arithmetic mean of each channel over all pixels of `src`, as exact
/// channel sums over the pixel count.
pub fn mean_color(src: &RgbImage) -> (r: MeanColor)
    requires
        src.wf(),
        src.npixels() <= u32::MAX,
    ensures
        r == mean_of(*src),
        r.r == channel_sum(src.data@, 0, src.npixels() as nat),
        r.g == channel_sum(src.data@, 1, src.npixels() as nat),
        r.b == channel_sum(src.data@, 2, src.npixels() as nat),
        r.count == src.npixels(),
        r.r <= 255 * r.count,
        r.g <= 255 * r.count,
        r.b <= 255 * r.count,
{
    let len: usize = src.data.len();
    let n: usize = (src.width as usize) * (src.height as usize);
    let mut sr: u64 = 0;
    let mut sg: u64 = 0;
    let mut sb: u64 = 0;
    let mut p: usize = 0;
    while p < n
        invariant
            n == src.npixels(),
            n <= u32::MAX,
            len == n * 3,
            len == src.data@.len(),
            src.wf(),
            p <= n,
            sr == channel_sum(src.data@, 0, p as nat),
            sg == channel_sum(src.data@, 1, p as nat),
            sb == channel_sum(src.data@, 2, p as nat),
            sr <= 255 * p,
            sg <= 255 * p,
            sb <= 255 * p,
        decreases n - p,
    {
        assert(255 * p + 255 <= 255 * (u32::MAX as int));
        let i: usize = p * 3;
        let vr: u64 = src.data[i] as u64;
        let vg: u64 = src.data[i + 1] as u64;
        let vb: u64 = src.data[i + 2] as u64;
        sr = sr + vr;
        sg = sg + vg;
        sb = sb + vb;
        p = p + 1;
    }
    MeanColor { r: sr, g: sg, b: sb, count: n as u64 }
}

/// Channel `c` of the blend of source channel `s` and tile channel `t` under
/// opacity `o` out of 255: with `po = o/255` and `so = 1 - po`, the value
/// `(t/255)*po + (s/255)*so*(1 - po)` scaled to 0..255 and truncated.
pub open spec fn blend_channel(s: int, t: int, o: int) -> int {
    (t * o * 255 + s * (255 - o) * (255 - o)) / 65025
}

/// Alpha of a blend under opacity `o`: `1 - (1 - po)*(1 - so)` scaled to
/// 0..255 and truncated.
pub open spec fn blend_alpha(o: int) -> int {
    (65025 - (255 - o) * o) / 255
}

proof fn lemma_blend_channel_bounds(s: int, t: int, o: int)
    requires
        0 <= s <= 255,
        0 <= t <= 255,
        0 <= o <= 255,
    ensures
        0 <= t * o * 255 + s * (255 - o) * (255 - o) <= 255 * 65025,
        0 <= blend_channel(s, t, o) <= 255,
{
    assert(0 <= t * o * 255 <= 255 * o * 255) by (nonlinear_arith)
        requires 0 <= t <= 255, 0 <= o;
    assert(0 <= s * (255 - o) * (255 - o) <= 255 * (255 - o) * 255) by (nonlinear_arith)
        requires 0 <= s <= 255, 0 <= o <= 255;
    assert(255 * o * 255 + 255 * (255 - o) * 255 == 255 * 65025) by (nonlinear_arith);
}

fn blend_one(s: u8, t: u8, o: u8) -> (r: u8)
    ensures
        r == blend_channel(s as int, t as int, o as int),
{
    proof {
        lemma_blend_channel_bounds(s as int, t as int, o as int);
    }
    let inv: u32 = 255 - o as u32;
    assert((t as u32) * (o as u32) <= 65025) by (nonlinear_arith) requires t <= 255, o <= 255;
    assert(((t as u32) * (o as u32)) * 255 <= 65025 * 255) by (nonlinear_arith)
        requires (t as u32) * (o as u32) <= 65025;
    assert((s as u32) * inv <= 65025) by (nonlinear_arith) requires s <= 255, inv <= 255;
    assert(((s as u32) * inv) * inv <= 65025 * 255) by (nonlinear_arith)
        requires (s as u32) * inv <= 65025, inv <= 255;
    let num: u32 = (t as u32) * (o as u32) * 255 + (s as u32) * inv * inv;
    (num / 65025) as u8
}

/// Composites tile pixel `pxl` over source pixel `src_pxl` with opacity
/// `opacity` out of 255, channel by channel as `blend_channel`, with alpha
/// `blend_alpha`.
pub fn blend(src_pxl: Rgba, pxl: Rgba, opacity: u8) -> (r: Rgba)
    ensures
        r.r == blend_channel(src_pxl.r as int, pxl.r as int, opacity as int),
        r.g == blend_channel(src_pxl.g as int, pxl.g as int, opacity as int),
        r.b == blend_channel(src_pxl.b as int, pxl.b as int, opacity as int),
        r.a == blend_alpha(opacity as int),
{
    let o: u32 = opacity as u32;
    assert(0 <= (255 - o) * o <= 65025) by (nonlinear_arith) requires 0 <= o <= 255;
    let a: u32 = (65025 - (255 - o) * o) / 255;
    Rgba {
        r: blend_one(src_pxl.r, pxl.r, opacity),
        g: blend_one(src_pxl.g, pxl.g, opacity),
        b: blend_one(src_pxl.b, pxl.b, opacity),
        a: a as u8,
    }
}

} // verus!
