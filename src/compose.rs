use vstd::prelude::*;

use crate::color::{blend, blend_alpha, blend_channel, Rgba};
use crate::error::MosaicError;
use crate::color::mean_of;
use vstd::arithmetic::div_mod::lemma_fundamental_div_mod_converse;
use crate::index::{
    is_nearest, lemma_nearest_exists, lemma_nearest_of_own_mean, lemma_nearest_unique, nearest_of,
    tile_means, tiles_fit, uniform_mean, ColorIndex,
};
use crate::raster::{nearest_resample, resize_nearest, RgbImage, RgbaImage};

verus! {

/// `a / k` rounded to the nearest integer, halves to the even neighbour
/// (so `1 / 2` rounds to 0 and `3 / 2` to 2).
pub open spec fn round_div(a: int, k: int) -> int {
    let q = a / k;
    let r = a % k;
    if 2 * r < k || (2 * r == k && q % 2 == 0) {
        q
    } else {
        q + 1
    }
}

/// The query for grid cell `cell` of a sampled RGB buffer: the color of that
/// cell's pixel, as the mean of `count` pixels of that color.
pub open spec fn cell_query(sampled: Seq<u8>, cell: int, count: u64) -> crate::color::MeanColor {
    uniform_mean(sampled[cell * 3], sampled[cell * 3 + 1], sampled[cell * 3 + 2], count)
}

/// The tile chosen for each of the first `ncells` cells of a sampled buffer:
/// the lowest-indexed tile whose mean color is nearest to the cell's color.
pub open spec fn choice_seq(tiles: Seq<RgbImage>, sampled: Seq<u8>, ncells: int, count: u64) -> Seq<usize> {
    Seq::new(ncells as nat, |cell: int| nearest_of(tile_means(tiles), cell_query(sampled, cell, count)) as usize)
}

/// Whether canvas pixel `(x, y)` lies in a cell of a `gw` x `gh` grid of
/// `kw` x `kh` blocks.
pub open spec fn covered(x: int, y: int, kw: int, kh: int, gw: int, gh: int) -> bool {
    x / kw < gw && y / kh < gh
}

/// The byte that the covering tile puts at channel `c` of canvas pixel
/// `(x, y)`: the tile chosen for the pixel's cell, at the pixel's offset
/// within the block.
pub open spec fn tile_byte(
    tiles: Seq<RgbImage>,
    choices: Seq<usize>,
    kw: int,
    kh: int,
    gw: int,
    x: int,
    y: int,
    c: int,
) -> u8 {
    let t = choices[(y / kh) * gw + x / kw] as int;
    tiles[t].data@[((y % kh) * kw + x % kw) * 3 + c]
}

/// Byte `i` of an RGB canvas `width` pixels wide onto which the tiles of a
/// `gw` x `gh` grid were pasted, block by block, over a zero fill.
pub open spec fn overwrite_byte(
    tiles: Seq<RgbImage>,
    choices: Seq<usize>,
    width: int,
    kw: int,
    kh: int,
    gw: int,
    gh: int,
    i: int,
) -> u8 {
    let p = i / 3;
    let x = p % width;
    let y = p / width;
    if covered(x, y, kw, kh, gw, gh) {
        tile_byte(tiles, choices, kw, kh, gw, x, y, i % 3)
    } else {
        0
    }
}

/// Byte `i` of the RGBA canvas made by blending the tiles of a `gw` x `gh`
/// grid into an RGB source `width` pixels wide with opacity `o`; pixels
/// outside the grid keep their color and are opaque.
pub open spec fn blend_byte(
    source: Seq<u8>,
    tiles: Seq<RgbImage>,
    choices: Seq<usize>,
    width: int,
    kw: int,
    kh: int,
    gw: int,
    gh: int,
    o: int,
    i: int,
) -> u8 {
    let p = i / 4;
    let c = i % 4;
    let x = p % width;
    let y = p / width;
    if covered(x, y, kw, kh, gw, gh) {
        if c == 3 {
            blend_alpha(o) as u8
        } else {
            blend_channel(source[p * 3 + c] as int, tile_byte(tiles, choices, kw, kh, gw, x, y, c) as int, o) as u8
        }
    } else {
        if c == 3 {
            255
        } else {
            source[p * 3 + c]
        }
    }
}

/// `img` is the canvas of an overwrite composition of the given grid.
pub open spec fn is_overwrite_canvas(
    img: RgbImage,
    tiles: Seq<RgbImage>,
    choices: Seq<usize>,
    width: u32,
    height: u32,
    kw: int,
    kh: int,
    gw: int,
    gh: int,
) -> bool {
    &&& img.wf()
    &&& img.width == width
    &&& img.height == height
    &&& forall|i: int|
        0 <= i < img.data@.len() ==> #[trigger] img.data@[i] == overwrite_byte(
            tiles,
            choices,
            width as int,
            kw,
            kh,
            gw,
            gh,
            i,
        )
}

/// `img` is the canvas of a blended composition of the given grid into `source`.
pub open spec fn is_blend_canvas(
    img: RgbaImage,
    source: RgbImage,
    tiles: Seq<RgbImage>,
    choices: Seq<usize>,
    kw: int,
    kh: int,
    gw: int,
    gh: int,
    o: int,
) -> bool {
    &&& img.wf()
    &&& img.width == source.width
    &&& img.height == source.height
    &&& forall|i: int|
        0 <= i < img.data@.len() ==> #[trigger] img.data@[i] == blend_byte(
            source.data@,
            tiles,
            choices,
            source.width as int,
            kw,
            kh,
            gw,
            gh,
            o,
            i,
        )
}

proof fn lemma_cell_index(a: int, b: int, w: int, h: int)
    requires
        0 <= a < h,
        0 <= b < w,
    ensures
        0 <= a * w + b < h * w,
{
    assert(0 <= a * w + b < h * w) by (nonlinear_arith)
        requires 0 <= a < h, 0 <= b < w;
}

proof fn lemma_round_div_le(a: int, k: int)
    requires
        0 <= a,
        0 < k,
    ensures
        0 <= round_div(a, k) <= a,
{
    let q = a / k;
    let r = a % k;
    vstd::arithmetic::div_mod::lemma_fundamental_div_mod(a, k);
    vstd::arithmetic::div_mod::lemma_div_pos_is_pos(a, k);
    vstd::arithmetic::div_mod::lemma_mod_bound(a, k);
    assert(q <= q * k) by (nonlinear_arith) requires 0 <= q, 1 <= k;
    if !(2 * r < k || (2 * r == k && q % 2 == 0)) {
        assert(r >= 1);
    }
}

proof fn lemma_mul_le(a: int, b: int, c: int, d: int)
    requires
        0 <= a <= c,
        0 <= b <= d,
    ensures
        a * b <= c * d,
{
    assert(a * b <= c * d) by (nonlinear_arith) requires 0 <= a <= c, 0 <= b <= d;
}

/// Number of grid cells along an axis of `n` pixels with blocks of `k`.
fn grid_len(n: u32, k: u32) -> (r: u32)
    requires
        k > 0,
    ensures
        r == round_div(n as int, k as int),
        r <= n,
{
    proof {
        lemma_round_div_le(n as int, k as int);
    }
    let q: u32 = n / k;
    let r: u32 = n % k;
    if (r as u64) * 2 < k as u64 || ((r as u64) * 2 == k as u64 && q % 2 == 0) {
        q
    } else {
        q + 1
    }
}

/// The chosen tile of each cell of `sampled`, in row-major order.
fn grid_choices(index: &ColorIndex, tiles: &Vec<RgbImage>, kernel_size: (u32, u32), sampled: &RgbImage) -> (r: Vec<usize>)
    requires
        index.wf(),
        index.entries() == tile_means(tiles@),
        index.pixel_count() == (kernel_size.0 as int) * (kernel_size.1 as int),
        tiles@.len() > 0,
        tiles_fit(tiles@, kernel_size),
        sampled.wf(),
    ensures
        r@ == choice_seq(tiles@, sampled.data@, sampled.npixels(), (kernel_size.0 * kernel_size.1) as u64),
        forall|cell: int| 0 <= cell < r@.len() ==> (#[trigger] r@[cell]) < tiles@.len(),
{
    let ghost means = tile_means(tiles@);
    let count: u64 = (kernel_size.0 as u64) * (kernel_size.1 as u64);
    let len: usize = sampled.data.len();
    let n: usize = (sampled.width as usize) * (sampled.height as usize);
    let mut out: Vec<usize> = Vec::new();
    let mut cell: usize = 0;
    while cell < n
        invariant
            index.wf(),
            index.entries() == means,
            means == tile_means(tiles@),
            means.len() == tiles@.len(),
            tiles@.len() > 0,
            index.pixel_count() == count,
            count == (kernel_size.0 * kernel_size.1) as u64,
            count <= u32::MAX,
            sampled.wf(),
            n == sampled.npixels(),
            len == n * 3,
            len == sampled.data@.len(),
            cell <= n,
            out@.len() == cell,
            forall|j: int| 0 <= j < cell ==> #[trigger] out@[j] == nearest_of(means, cell_query(sampled.data@, j, count)) as usize,
            forall|j: int| 0 <= j < cell ==> (#[trigger] out@[j]) < tiles@.len(),
        decreases n - cell,
    {
        let r = sampled.data[cell * 3];
        let g = sampled.data[cell * 3 + 1];
        let b = sampled.data[cell * 3 + 2];
        assert((r as int) * (count as int) <= 255 * count) by (nonlinear_arith) requires r <= 255, count >= 0;
        assert((g as int) * (count as int) <= 255 * count) by (nonlinear_arith) requires g <= 255, count >= 0;
        assert((b as int) * (count as int) <= 255 * count) by (nonlinear_arith) requires b <= 255, count >= 0;
        let q = crate::color::MeanColor {
            r: (r as u64) * count,
            g: (g as u64) * count,
            b: (b as u64) * count,
            count,
        };
        assert(q == cell_query(sampled.data@, cell as int, count));
        let t: usize = match index.nearest(&q) {
            Ok(t) => t,
            Err(_) => 0,
        };
        proof {
            assert(is_nearest(means, q, t as int));
            let c = nearest_of(means, q);
            assert(is_nearest(means, q, c));
            lemma_nearest_unique(means, q, c, t as int);
        }
        out.push(t);
        cell = cell + 1;
    }
    assert(out@ =~= choice_seq(tiles@, sampled.data@, sampled.npixels(), count));
    out
}

/// Copies the tiles chosen for a `gw` x `gh` grid of `kw` x `kh` blocks
/// onto a zero-filled RGB canvas of `width` x `height`, clipping each block
/// to the canvas.
fn paste_overwrite(
    tiles: &Vec<RgbImage>,
    choices: &Vec<usize>,
    width: u32,
    height: u32,
    kernel_size: (u32, u32),
    gw: u32,
    gh: u32,
) -> (r: RgbImage)
    requires
        kernel_size.0 > 0,
        kernel_size.1 > 0,
        tiles_fit(tiles@, kernel_size),
        choices@.len() == (gw as int) * (gh as int),
        forall|cell: int| 0 <= cell < choices@.len() ==> (#[trigger] choices@[cell]) < tiles@.len(),
        (width as int) * (height as int) * 3 <= usize::MAX,
    ensures
        is_overwrite_canvas(
            r,
            tiles@,
            choices@,
            width,
            height,
            kernel_size.0 as int,
            kernel_size.1 as int,
            gw as int,
            gh as int,
        ),
{
    let kw: usize = kernel_size.0 as usize;
    let kh: usize = kernel_size.1 as usize;
    let w: usize = width as usize;
    let n: usize = w * (height as usize);
    let nc: usize = choices.len();
    let mut data: Vec<u8> = Vec::new();
    let mut p: usize = 0;
    while p < n
        invariant
            nc == choices@.len(),
            kw == kernel_size.0,
            kh == kernel_size.1,
            kw > 0,
            kh > 0,
            w == width,
            n == (width as int) * (height as int),
            n * 3 <= usize::MAX,
            tiles_fit(tiles@, kernel_size),
            choices@.len() == (gw as int) * (gh as int),
            forall|cell: int| 0 <= cell < choices@.len() ==> (#[trigger] choices@[cell]) < tiles@.len(),
            p <= n,
            data@.len() == p * 3,
            forall|i: int|
                0 <= i < p * 3 ==> #[trigger] data@[i] == overwrite_byte(
                    tiles@,
                    choices@,
                    width as int,
                    kw as int,
                    kh as int,
                    gw as int,
                    gh as int,
                    i,
                ),
        decreases n - p,
    {
        let x: usize = p % w;
        let y: usize = p / w;
        let gx: usize = x / kw;
        let gy: usize = y / kh;
        if gx < gw as usize && gy < gh as usize {
            proof {
                lemma_cell_index(gy as int, gx as int, gw as int, gh as int);
                assert((gh as int) * (gw as int) == (gw as int) * (gh as int)) by (nonlinear_arith);
                lemma_cell_index((y % kh) as int, (x % kw) as int, kw as int, kh as int);
            }
            let t: usize = choices[gy * (gw as usize) + gx];
            let tile = &tiles[t];
            assert(tile.wf());
            assert((kh as int) * (kw as int) == (kw as int) * (kh as int)) by (nonlinear_arith);
            assert(tile.data@.len() == (kw as int) * (kh as int) * 3);
            let tl: usize = tile.data.len();
            assert(((y % kh) * kw + x % kw) * 3 + 2 < tl);
            let off: usize = ((y % kh) * kw + x % kw) * 3;
            data.push(tile.data[off]);
            data.push(tile.data[off + 1]);
            data.push(tile.data[off + 2]);
        } else {
            data.push(0);
            data.push(0);
            data.push(0);
        }
        proof {
            assert forall|i: int| 0 <= i < (p + 1) * 3 implies #[trigger] data@[i] == overwrite_byte(
                tiles@,
                choices@,
                width as int,
                kw as int,
                kh as int,
                gw as int,
                gh as int,
                i,
            ) by {
                if i >= p * 3 {
                    assert(i / 3 == p);
                    assert(i % 3 == i - p * 3);
                }
            }
        }
        p = p + 1;
    }
    RgbImage { width, height, data }
}

/// Blends the tiles chosen for a `gw` x `gh` grid of `kw` x `kh` blocks into
/// `source` with opacity `opacity`, clipping each block to the source; the
/// result is an RGBA copy of the source with the blocks blended in.
fn paste_blend(
    source: &RgbImage,
    tiles: &Vec<RgbImage>,
    choices: &Vec<usize>,
    kernel_size: (u32, u32),
    gw: u32,
    gh: u32,
    opacity: u8,
) -> (r: RgbaImage)
    requires
        source.wf(),
        source.npixels() * 4 <= usize::MAX,
        kernel_size.0 > 0,
        kernel_size.1 > 0,
        tiles_fit(tiles@, kernel_size),
        choices@.len() == (gw as int) * (gh as int),
        forall|cell: int| 0 <= cell < choices@.len() ==> (#[trigger] choices@[cell]) < tiles@.len(),
    ensures
        is_blend_canvas(
            r,
            *source,
            tiles@,
            choices@,
            kernel_size.0 as int,
            kernel_size.1 as int,
            gw as int,
            gh as int,
            opacity as int,
        ),
{
    let kw: usize = kernel_size.0 as usize;
    let kh: usize = kernel_size.1 as usize;
    let w: usize = source.width as usize;
    let len: usize = source.data.len();
    let n: usize = w * (source.height as usize);
    let nc: usize = choices.len();
    let mut data: Vec<u8> = Vec::new();
    let mut p: usize = 0;
    while p < n
        invariant
            nc == choices@.len(),
            kw == kernel_size.0,
            kh == kernel_size.1,
            kw > 0,
            kh > 0,
            w == source.width,
            source.wf(),
            n == source.npixels(),
            len == source.data@.len(),
            len == n * 3,
            n * 4 <= usize::MAX,
            tiles_fit(tiles@, kernel_size),
            choices@.len() == (gw as int) * (gh as int),
            forall|cell: int| 0 <= cell < choices@.len() ==> (#[trigger] choices@[cell]) < tiles@.len(),
            p <= n,
            data@.len() == p * 4,
            forall|i: int|
                0 <= i < p * 4 ==> #[trigger] data@[i] == blend_byte(
                    source.data@,
                    tiles@,
                    choices@,
                    w as int,
                    kw as int,
                    kh as int,
                    gw as int,
                    gh as int,
                    opacity as int,
                    i,
                ),
        decreases n - p,
    {
        let x: usize = p % w;
        let y: usize = p / w;
        let gx: usize = x / kw;
        let gy: usize = y / kh;
        let s = Rgba { r: source.data[p * 3], g: source.data[p * 3 + 1], b: source.data[p * 3 + 2], a: 255 };
        if gx < gw as usize && gy < gh as usize {
            proof {
                lemma_cell_index(gy as int, gx as int, gw as int, gh as int);
                assert((gh as int) * (gw as int) == (gw as int) * (gh as int)) by (nonlinear_arith);
                lemma_cell_index((y % kh) as int, (x % kw) as int, kw as int, kh as int);
            }
            let t: usize = choices[gy * (gw as usize) + gx];
            let tile = &tiles[t];
            assert(tile.wf());
            assert((kh as int) * (kw as int) == (kw as int) * (kh as int)) by (nonlinear_arith);
            assert(tile.data@.len() == (kw as int) * (kh as int) * 3);
            let tl: usize = tile.data.len();
            assert(((y % kh) * kw + x % kw) * 3 + 2 < tl);
            let off: usize = ((y % kh) * kw + x % kw) * 3;
            let tp = Rgba { r: tile.data[off], g: tile.data[off + 1], b: tile.data[off + 2], a: 255 };
            let out = blend(s, tp, opacity);
            data.push(out.r);
            data.push(out.g);
            data.push(out.b);
            data.push(out.a);
        } else {
            data.push(s.r);
            data.push(s.g);
            data.push(s.b);
            data.push(255);
        }
        proof {
            assert forall|i: int| 0 <= i < (p + 1) * 4 implies #[trigger] data@[i] == blend_byte(
                source.data@,
                tiles@,
                choices@,
                w as int,
                kw as int,
                kh as int,
                gw as int,
                gh as int,
                opacity as int,
                i,
            ) by {
                if i >= p * 4 {
                    assert(i / 4 == p);
                    assert(i % 4 == i - p * 4);
                }
            }
        }
        p = p + 1;
    }
    RgbaImage { width: source.width, height: source.height, data }
}

/// Grid cells across the width of `source` when sampled down by `kernel_size`.
pub open spec fn grid_w(source: RgbImage, kernel_size: (u32, u32)) -> int {
    round_div(source.width as int, kernel_size.0 as int)
}

/// Grid cells down the height of `source` when sampled down by `kernel_size`.
pub open spec fn grid_h(source: RgbImage, kernel_size: (u32, u32)) -> int {
    round_div(source.height as int, kernel_size.1 as int)
}

/// Pixel count of a tile of footprint `kernel_size`.
pub open spec fn tile_pixels(kernel_size: (u32, u32)) -> u64 {
    ((kernel_size.0 as int) * (kernel_size.1 as int)) as u64
}

/// The tile chosen for each cell of the grid over `source` sampled down
/// by `kernel_size`.
pub open spec fn sampled_choices(tiles: Seq<RgbImage>, source: RgbImage, kernel_size: (u32, u32)) -> Seq<usize> {
    let gw = grid_w(source, kernel_size);
    let gh = grid_h(source, kernel_size);
    choice_seq(
        tiles,
        nearest_resample(source.width as nat, source.height as nat, source.data@, gw as nat, gh as nat),
        gw * gh,
        tile_pixels(kernel_size),
    )
}

/// Requirements shared by the compositions that sample the source down.
pub open spec fn sampling_inputs_ok(source: RgbImage, tiles: Seq<RgbImage>, kernel_size: (u32, u32)) -> bool {
    &&& source.wf()
    &&& kernel_size.0 > 0
    &&& kernel_size.1 > 0
    &&& tiles_fit(tiles, kernel_size)
    // the resampler works on four 32-bit floats per pixel
    &&& source.npixels() * 16 <= isize::MAX
}

/// `source` sampled down to one pixel per `kernel_size` block; without
/// pixels when the grid has no cell.
fn sample_grid(source: &RgbImage, kernel_size: (u32, u32)) -> (r: RgbImage)
    requires
        source.wf(),
        kernel_size.0 > 0,
        kernel_size.1 > 0,
        source.npixels() * 16 <= isize::MAX,
    ensures
        r.wf(),
        r.width == grid_w(*source, kernel_size),
        r.height == grid_h(*source, kernel_size),
        r.npixels() > 0 ==> r.data@ == nearest_resample(
            source.width as nat,
            source.height as nat,
            source.data@,
            r.width as nat,
            r.height as nat,
        ),
{
    let gw = grid_len(source.width, kernel_size.0);
    let gh = grid_len(source.height, kernel_size.1);
    if gw > 0 && gh > 0 {
        proof {
            lemma_mul_le(gw as int, gh as int, source.width as int, source.height as int);
            lemma_mul_le(source.width as int, gh as int, source.width as int, source.height as int);
        }
        resize_nearest(source, gw, gh)
    } else {
        proof {
            assert((gw as int) * (gh as int) == 0) by (nonlinear_arith) requires gw == 0 || gh == 0;
        }
        RgbImage { width: gw, height: gh, data: Vec::new() }
    }
}

proof fn lemma_sampled_choices(sampled: RgbImage, source: RgbImage, tiles: Seq<RgbImage>, kernel_size: (u32, u32))
    requires
        sampled.wf(),
        sampled.width == grid_w(source, kernel_size),
        sampled.height == grid_h(source, kernel_size),
        sampled.npixels() > 0 ==> sampled.data@ == nearest_resample(
            source.width as nat,
            source.height as nat,
            source.data@,
            sampled.width as nat,
            sampled.height as nat,
        ),
    ensures
        choice_seq(tiles, sampled.data@, sampled.npixels(), tile_pixels(kernel_size))
            == sampled_choices(tiles, source, kernel_size),
{
    assert(choice_seq(tiles, sampled.data@, sampled.npixels(), tile_pixels(kernel_size))
        =~= sampled_choices(tiles, source, kernel_size));
}

/// Pastes onto a zero-filled `width` x `height` canvas, for each pixel of
/// the grid sample `sampled` (one pixel per `kernel_size` block), the tile
/// whose mean color is nearest to that pixel's color. Fails with
/// `EmptyTileSet` exactly when there are no tiles.
pub fn mosaic_from_grid(
    sampled: &RgbImage,
    tiles: &Vec<RgbImage>,
    kernel_size: (u32, u32),
    width: u32,
    height: u32,
) -> (r: Result<RgbImage, MosaicError>)
    requires
        sampled.wf(),
        kernel_size.0 > 0,
        kernel_size.1 > 0,
        tiles_fit(tiles@, kernel_size),
        (width as int) * (height as int) * 3 <= usize::MAX,
    ensures
        match r {
            Ok(img) => tiles@.len() > 0 && is_overwrite_canvas(
                img,
                tiles@,
                choice_seq(tiles@, sampled.data@, sampled.npixels(), tile_pixels(kernel_size)),
                width,
                height,
                kernel_size.0 as int,
                kernel_size.1 as int,
                sampled.width as int,
                sampled.height as int,
            ),
            Err(e) => tiles@.len() == 0 && e == MosaicError::EmptyTileSet,
        },
{
    if tiles.len() == 0 {
        return Err(MosaicError::EmptyTileSet);
    }
    let index = ColorIndex::build(tiles, kernel_size);
    let choices = grid_choices(&index, tiles, kernel_size, sampled);
    Ok(paste_overwrite(tiles, &choices, width, height, kernel_size, sampled.width, sampled.height))
}

/// Blends into an RGBA copy of `source`, with opacity `opacity` out of 255,
/// for each pixel of the grid sample `sampled` (one pixel per `kernel_size`
/// block), the tile whose mean color is nearest to that pixel's color.
/// Fails with `EmptyTileSet` exactly when there are no tiles.
pub fn blend_from_grid(
    source: &RgbImage,
    sampled: &RgbImage,
    tiles: &Vec<RgbImage>,
    kernel_size: (u32, u32),
    opacity: u8,
) -> (r: Result<RgbaImage, MosaicError>)
    requires
        source.wf(),
        source.npixels() * 4 <= usize::MAX,
        sampled.wf(),
        kernel_size.0 > 0,
        kernel_size.1 > 0,
        tiles_fit(tiles@, kernel_size),
    ensures
        match r {
            Ok(img) => tiles@.len() > 0 && is_blend_canvas(
                img,
                *source,
                tiles@,
                choice_seq(tiles@, sampled.data@, sampled.npixels(), tile_pixels(kernel_size)),
                kernel_size.0 as int,
                kernel_size.1 as int,
                sampled.width as int,
                sampled.height as int,
                opacity as int,
            ),
            Err(e) => tiles@.len() == 0 && e == MosaicError::EmptyTileSet,
        },
{
    if tiles.len() == 0 {
        return Err(MosaicError::EmptyTileSet);
    }
    let index = ColorIndex::build(tiles, kernel_size);
    let choices = grid_choices(&index, tiles, kernel_size, sampled);
    Ok(paste_blend(source, tiles, &choices, kernel_size, sampled.width, sampled.height, opacity))
}

/// A grid cell whose sampled color is exactly the mean color of tile `i`
/// gets a tile with that same mean color.
pub proof fn lemma_exact_color_cell(
    tiles: Seq<RgbImage>,
    kernel_size: (u32, u32),
    sampled: Seq<u8>,
    cell: int,
    i: int,
)
    requires
        tiles_fit(tiles, kernel_size),
        0 <= i < tiles.len(),
        cell_query(sampled, cell, tile_pixels(kernel_size)) == mean_of(tiles[i]),
    ensures
        ({
            let c = nearest_of(tile_means(tiles), cell_query(sampled, cell, tile_pixels(kernel_size)));
            0 <= c < tiles.len() && mean_of(tiles[c]) == mean_of(tiles[i])
        }),
{
    let means = tile_means(tiles);
    let q = mean_of(tiles[i]);
    assert(means[i] == q);
    lemma_nearest_exists(means, q);
    let c = nearest_of(means, q);
    assert forall|j: int| 0 <= j < means.len() implies (#[trigger] means[j]).count == means[i].count by {
        assert(tiles[j].wf());
        assert(tiles[i].wf());
    }
    lemma_nearest_of_own_mean(means, i, c);
}

/// Exact-size overwrite: samples `source` down to one pixel per
/// `kernel_size` block (rounded to the nearest count), picks for each cell
/// the tile whose mean color is nearest, and pastes it onto a zero-filled
/// canvas of the source's size. Canvas margins that no cell reaches stay
/// zero. Fails with `EmptyTileSet` exactly when there are no tiles.
pub fn build_mosaic(source: &RgbImage, tiles: &Vec<RgbImage>, kernel_size: (u32, u32)) -> (r: Result<RgbImage, MosaicError>)
    requires
        sampling_inputs_ok(*source, tiles@, kernel_size),
    ensures
        match r {
            Ok(img) => tiles@.len() > 0 && is_overwrite_canvas(
                img,
                tiles@,
                sampled_choices(tiles@, *source, kernel_size),
                source.width,
                source.height,
                kernel_size.0 as int,
                kernel_size.1 as int,
                grid_w(*source, kernel_size),
                grid_h(*source, kernel_size),
            ),
            Err(e) => tiles@.len() == 0 && e == MosaicError::EmptyTileSet,
        },
{
    let sampled = sample_grid(source, kernel_size);
    proof {
        lemma_sampled_choices(sampled, *source, tiles@, kernel_size);
    }
    mosaic_from_grid(&sampled, tiles, kernel_size, source.width, source.height)
}

/// Resolution-expanding overwrite: one cell per source pixel, each replaced
/// by the tile whose mean color is nearest to that pixel, on a canvas of
/// `(width * kernel width, height * kernel height)`. Fails with
/// `EmptyTileSet` exactly when there are no tiles.
pub fn build_mosaic_without_compression(source: &RgbImage, tiles: &Vec<RgbImage>, kernel_size: (u32, u32)) -> (r: Result<RgbImage, MosaicError>)
    requires
        source.wf(),
        kernel_size.0 > 0,
        kernel_size.1 > 0,
        tiles_fit(tiles@, kernel_size),
        (source.width as int) * (kernel_size.0 as int) <= u32::MAX,
        (source.height as int) * (kernel_size.1 as int) <= u32::MAX,
        ((source.width as int) * (kernel_size.0 as int)) * ((source.height as int) * (kernel_size.1 as int)) * 3 <= usize::MAX,
    ensures
        match r {
            Ok(img) => tiles@.len() > 0 && is_overwrite_canvas(
                img,
                tiles@,
                choice_seq(tiles@, source.data@, source.npixels(), tile_pixels(kernel_size)),
                (source.width * kernel_size.0) as u32,
                (source.height * kernel_size.1) as u32,
                kernel_size.0 as int,
                kernel_size.1 as int,
                source.width as int,
                source.height as int,
            ),
            Err(e) => tiles@.len() == 0 && e == MosaicError::EmptyTileSet,
        },
{
    let width: u32 = source.width * kernel_size.0;
    let height: u32 = source.height * kernel_size.1;
    mosaic_from_grid(source, tiles, kernel_size, width, height)
}

/// Alpha-blended overlay: cells chosen as in `build_mosaic`, but each tile
/// is blended (see `blend`) into an RGBA copy of the source itself, with
/// opacity `opacity` out of 255; pixels no cell reaches keep their color
/// and are opaque. Fails with `EmptyTileSet` exactly when there are no tiles.
pub fn build_mosaic_blend(source: &RgbImage, tiles: &Vec<RgbImage>, kernel_size: (u32, u32), opacity: u8) -> (r: Result<RgbaImage, MosaicError>)
    requires
        sampling_inputs_ok(*source, tiles@, kernel_size),
    ensures
        match r {
            Ok(img) => tiles@.len() > 0 && is_blend_canvas(
                img,
                *source,
                tiles@,
                sampled_choices(tiles@, *source, kernel_size),
                kernel_size.0 as int,
                kernel_size.1 as int,
                grid_w(*source, kernel_size),
                grid_h(*source, kernel_size),
                opacity as int,
            ),
            Err(e) => tiles@.len() == 0 && e == MosaicError::EmptyTileSet,
        },
{
    let sampled = sample_grid(source, kernel_size);
    proof {
        lemma_sampled_choices(sampled, *source, tiles@, kernel_size);
    }
    blend_from_grid(source, &sampled, tiles, kernel_size, opacity)
}

/// An overwrite composition is determined by its inputs: two canvases
/// built from the same tiles, choices and sizes are byte for byte the same.
pub proof fn lemma_overwrite_deterministic(
    a: RgbImage,
    b: RgbImage,
    tiles: Seq<RgbImage>,
    choices: Seq<usize>,
    width: u32,
    height: u32,
    kw: int,
    kh: int,
    gw: int,
    gh: int,
)
    requires
        is_overwrite_canvas(a, tiles, choices, width, height, kw, kh, gw, gh),
        is_overwrite_canvas(b, tiles, choices, width, height, kw, kh, gw, gh),
    ensures
        a.width == b.width,
        a.height == b.height,
        a.data@ == b.data@,
{
    assert(a.data@ =~= b.data@);
}

/// A blended composition is determined by its inputs: two canvases built
/// from the same source, tiles, choices, sizes and opacity are byte for
/// byte the same.
pub proof fn lemma_blend_deterministic(
    a: RgbaImage,
    b: RgbaImage,
    source: RgbImage,
    tiles: Seq<RgbImage>,
    choices: Seq<usize>,
    kw: int,
    kh: int,
    gw: int,
    gh: int,
    o: int,
)
    requires
        is_blend_canvas(a, source, tiles, choices, kw, kh, gw, gh, o),
        is_blend_canvas(b, source, tiles, choices, kw, kh, gw, gh, o),
    ensures
        a.width == b.width,
        a.height == b.height,
        a.data@ == b.data@,
{
    assert(a.data@ =~= b.data@);
}

/// The three ways of composing a mosaic.
#[derive(Clone, Copy, Debug, PartialEq, Eq, Structural)]
pub enum Strategy {
    /// `build_mosaic`: tiles pasted over a canvas of the source's size.
    ExactSize,
    /// `build_mosaic_without_compression`: one tile per source pixel.
    Expanding,
    /// `build_mosaic_blend` with the given opacity.
    Blended(u8),
}

/// Picks the composition for the run's options: expanding when `resize`
/// is set; otherwise blended when an opacity is given that is neither 0 nor
/// 255; otherwise exact-size.
pub fn choose_strategy(resize: bool, opacity: Option<u8>) -> (r: Strategy)
    ensures
        resize ==> r == Strategy::Expanding,
        !resize ==> match opacity {
            Some(o) => if o != 0 && o != 255 {
                r == Strategy::Blended(o)
            } else {
                r == Strategy::ExactSize
            },
            None => r == Strategy::ExactSize,
        },
{
    if resize {
        Strategy::Expanding
    } else {
        match opacity {
            Some(o) => if o != 0 && o != 255 {
                Strategy::Blended(o)
            } else {
                Strategy::ExactSize
            },
            None => Strategy::ExactSize,
        }
    }
}

/// Blocks are clipped, never wrapped: where block `(gx, gy)` meets the
/// canvas, pixel `(dx, dy)` of the block holds pixel `(dx, dy)` of the tile
/// chosen for that cell, so a block cut by the canvas edge shows the
/// top-left part of its tile.
pub proof fn lemma_overwrite_block_pixel(
    img: RgbImage,
    tiles: Seq<RgbImage>,
    choices: Seq<usize>,
    kernel_size: (u32, u32),
    gw: int,
    gh: int,
    gx: int,
    gy: int,
    dx: int,
    dy: int,
    c: int,
)
    requires
        kernel_size.0 > 0,
        kernel_size.1 > 0,
        is_overwrite_canvas(
            img,
            tiles,
            choices,
            img.width,
            img.height,
            kernel_size.0 as int,
            kernel_size.1 as int,
            gw,
            gh,
        ),
        0 <= gx < gw,
        0 <= gy < gh,
        0 <= dx < kernel_size.0,
        0 <= dy < kernel_size.1,
        gx * kernel_size.0 + dx < img.width,
        gy * kernel_size.1 + dy < img.height,
        0 <= c < 3,
    ensures
        img.data@[((gy * kernel_size.1 + dy) * img.width + gx * kernel_size.0 + dx) * 3 + c]
            == tiles[choices[gy * gw + gx] as int].data@[(dy * kernel_size.0 + dx) * 3 + c],
{
    let kw = kernel_size.0 as int;
    let kh = kernel_size.1 as int;
    let w = img.width as int;
    let x = gx * kw + dx;
    let y = gy * kh + dy;
    let p = y * w + x;
    let i = p * 3 + c;
    lemma_fundamental_div_mod_converse(i, 3, p, c);
    lemma_fundamental_div_mod_converse(p, w, y, x);
    lemma_fundamental_div_mod_converse(x, kw, gx, dx);
    lemma_fundamental_div_mod_converse(y, kh, gy, dy);
    assert(0 <= y * w) by (nonlinear_arith) requires 0 <= y, 0 <= w;
    assert(p < (img.height as int) * w) by (nonlinear_arith)
        requires 0 <= x < w, 0 <= y < img.height, p == y * w + x;
    assert(0 <= i < img.data@.len());
    assert(img.data@[i] == overwrite_byte(tiles, choices, w, kw, kh, gw, gh, i));
}

} // verus!
