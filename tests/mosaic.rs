use image_mosaic::color::{blend, mean_color, MeanColor, Rgba};
use image_mosaic::compose::{
    blend_from_grid, build_mosaic, build_mosaic_blend, build_mosaic_without_compression,
    choose_strategy, mosaic_from_grid, Strategy,
};
use image_mosaic::error::MosaicError;
use image_mosaic::index::ColorIndex;
use image_mosaic::raster::{prepare_tiles, RgbImage};

fn uniform(width: u32, height: u32, rgb: [u8; 3]) -> RgbImage {
    let mut data = Vec::new();
    for _ in 0..(width * height) {
        data.extend_from_slice(&rgb);
    }
    RgbImage { width, height, data }
}

fn numbered(width: u32, height: u32) -> RgbImage {
    let mut data = Vec::new();
    for p in 0..(width * height) {
        let v = (p * 10) as u8;
        data.extend_from_slice(&[v, v + 1, v + 2]);
    }
    RgbImage { width, height, data }
}

fn pixel(img: &RgbImage, x: u32, y: u32) -> [u8; 3] {
    let i = ((y * img.width + x) * 3) as usize;
    [img.data[i], img.data[i + 1], img.data[i + 2]]
}

#[test]
fn prepare_tiles_resizes_every_image_to_the_kernel() {
    let images = vec![numbered(4, 6), uniform(1, 1, [9, 8, 7]), numbered(2, 2)];
    let tiles = prepare_tiles(&images, (2, 3));
    assert_eq!(tiles.len(), 3);
    for t in &tiles {
        assert_eq!((t.width, t.height), (2, 3));
        assert_eq!(t.data.len(), 18);
    }
    assert_eq!(pixel(&tiles[1], 1, 2), [9, 8, 7]);
}

#[test]
fn prepare_tiles_of_nothing_is_empty() {
    assert!(prepare_tiles(&Vec::new(), (5, 5)).is_empty());
}

#[test]
fn prepare_tiles_keeps_same_size_images() {
    let img = numbered(2, 2);
    let tiles = prepare_tiles(&vec![img.clone()], (2, 2));
    assert_eq!(tiles[0].data, img.data);
}

#[test]
fn mean_color_of_uniform_tile_is_its_color() {
    let m = mean_color(&uniform(3, 2, [10, 200, 33]));
    assert_eq!(m, MeanColor { r: 60, g: 1200, b: 198, count: 6 });
    assert_eq!((m.r / m.count, m.g / m.count, m.b / m.count), (10, 200, 33));
}

#[test]
fn mean_color_sums_channels() {
    let img = RgbImage { width: 2, height: 1, data: vec![0, 10, 255, 3, 20, 1] };
    assert_eq!(mean_color(&img), MeanColor { r: 3, g: 30, b: 256, count: 2 });
}

#[test]
fn nearest_with_a_tiles_own_mean_finds_that_mean() {
    let tiles = vec![uniform(2, 2, [0, 0, 0]), numbered(2, 2), uniform(2, 2, [255, 255, 255])];
    let index = ColorIndex::build(&tiles, (2, 2));
    assert_eq!(index.len(), 3);
    for (k, t) in tiles.iter().enumerate() {
        let q = mean_color(t);
        let i = index.nearest(&q).unwrap();
        assert_eq!(i, k);
        assert_eq!(mean_color(&tiles[i]), q);
    }
}

#[test]
fn nearest_prefers_lowest_index_among_ties() {
    let tiles = vec![uniform(1, 1, [5, 5, 5]), uniform(1, 1, [100, 0, 0]), uniform(1, 1, [100, 0, 0])];
    let index = ColorIndex::build(&tiles, (1, 1));
    let q = MeanColor { r: 90, g: 0, b: 0, count: 1 };
    assert_eq!(index.nearest(&q), Ok(1));
}

#[test]
fn nearest_on_empty_index_fails() {
    let index = ColorIndex::build(&Vec::new(), (2, 2));
    let q = MeanColor { r: 0, g: 0, b: 0, count: 4 };
    assert_eq!(index.nearest(&q), Err(MosaicError::Index));
}

#[test]
fn blend_follows_the_formula() {
    let s = Rgba { r: 100, g: 100, b: 100, a: 255 };
    let t = Rgba { r: 200, g: 50, b: 0, a: 255 };
    assert_eq!(blend(s, t, 128), Rgba { r: 125, g: 49, b: 24, a: 191 });
    assert_eq!(blend(s, t, 255), Rgba { r: 200, g: 50, b: 0, a: 255 });
    assert_eq!(blend(s, t, 0), Rgba { r: 100, g: 100, b: 100, a: 255 });
}

#[test]
fn overwrite_keeps_source_size() {
    let tiles = vec![uniform(3, 2, [0, 0, 0]), uniform(3, 2, [250, 250, 250])];
    for (w, h) in [(1, 1), (7, 5), (6, 4), (10, 3)] {
        let source = uniform(w, h, [240, 240, 240]);
        let out = build_mosaic(&source, &tiles, (3, 2)).unwrap();
        assert_eq!((out.width, out.height), (w, h));
        assert_eq!(out.data.len(), (w * h * 3) as usize);
    }
}

#[test]
fn overwrite_picks_nearest_tile_and_leaves_margin() {
    let tiles = vec![uniform(2, 2, [0, 0, 0]), uniform(2, 2, [200, 10, 10])];
    let mut source = uniform(5, 4, [190, 0, 0]);
    source.data[0] = 0;
    let out = build_mosaic(&source, &tiles, (2, 2)).unwrap();
    // round(5/2) = 2 cells across: column 4 is margin
    assert_eq!(pixel(&out, 3, 3), [200, 10, 10]);
    assert_eq!(pixel(&out, 4, 3), [0, 0, 0]);
    let source = uniform(4, 4, [190, 0, 0]);
    let tiles3 = vec![uniform(3, 3, [200, 10, 10])];
    let out = build_mosaic(&source, &tiles3, (3, 3)).unwrap();
    // round(4/3) = 1 cell: column and row 3 stay at the zero fill
    assert_eq!(pixel(&out, 2, 2), [200, 10, 10]);
    assert_eq!(pixel(&out, 3, 0), [0, 0, 0]);
    assert_eq!(pixel(&out, 0, 3), [0, 0, 0]);
}

#[test]
fn overwrite_with_no_tiles_fails() {
    let source = uniform(4, 4, [1, 2, 3]);
    assert_eq!(build_mosaic(&source, &Vec::new(), (2, 2)).unwrap_err(), MosaicError::EmptyTileSet);
    assert_eq!(
        build_mosaic_without_compression(&source, &Vec::new(), (2, 2)).unwrap_err(),
        MosaicError::EmptyTileSet
    );
    assert_eq!(build_mosaic_blend(&source, &Vec::new(), (2, 2), 9).unwrap_err(), MosaicError::EmptyTileSet);
}

#[test]
fn one_pixel_source_with_larger_kernel_stays_blank() {
    let tiles = vec![uniform(2, 2, [255, 255, 255])];
    let source = uniform(1, 1, [255, 255, 255]);
    let out = build_mosaic(&source, &tiles, (2, 2)).unwrap();
    assert_eq!((out.width, out.height), (1, 1));
    assert_eq!(out.data, vec![0, 0, 0]);
}

#[test]
fn trailing_cells_are_clipped_to_the_canvas() {
    let tile = numbered(3, 3);
    let tiles = vec![tile.clone()];
    let source = uniform(5, 5, [7, 7, 7]);
    let out = build_mosaic(&source, &tiles, (3, 3)).unwrap();
    // round(5/3) = 2 cells each way; the last one keeps the top-left 2x2 of the tile
    for y in 0..5 {
        for x in 0..5 {
            assert_eq!(pixel(&out, x, y), pixel(&tile, x % 3, y % 3));
        }
    }
    let source = uniform(3, 5, [7, 7, 7]);
    let out = build_mosaic(&source, &tiles, (3, 3)).unwrap();
    assert_eq!(pixel(&out, 2, 4), pixel(&tile, 2, 1));
    assert_eq!(pixel(&out, 0, 3), pixel(&tile, 0, 0));
}

#[test]
fn expanding_overwrite_multiplies_size() {
    let tiles = vec![uniform(3, 2, [0, 0, 0]), uniform(3, 2, [255, 255, 255])];
    let mut source = uniform(2, 2, [0, 0, 0]);
    source.data[9] = 250;
    source.data[10] = 250;
    source.data[11] = 250;
    let out = build_mosaic_without_compression(&source, &tiles, (3, 2)).unwrap();
    assert_eq!((out.width, out.height), (6, 4));
    assert_eq!(pixel(&out, 0, 0), [0, 0, 0]);
    assert_eq!(pixel(&out, 5, 3), [255, 255, 255]);
    assert_eq!(pixel(&out, 3, 2), [255, 255, 255]);
    assert_eq!(pixel(&out, 2, 3), [0, 0, 0]);
}

#[test]
fn blended_overlay_keeps_size_and_adds_alpha() {
    let tiles = vec![uniform(2, 2, [200, 50, 0])];
    let source = uniform(5, 3, [100, 100, 100]);
    let out = build_mosaic_blend(&source, &tiles, (2, 2), 128).unwrap();
    assert_eq!((out.width, out.height), (5, 3));
    assert_eq!(out.data.len(), 5 * 3 * 4);
    assert_eq!(&out.data[0..4], &[125, 49, 24, 191]);
    // round(3/2) = 2 rows of cells cover every row; round(5/2) = 2 leave column 4 as it was
    assert_eq!(&out.data[52..56], &[125, 49, 24, 191]);
    assert_eq!(&out.data[56..60], &[100, 100, 100, 255]);
    let source = uniform(3, 3, [100, 100, 100]);
    let out = build_mosaic_blend(&source, &tiles, (2, 2), 128).unwrap();
    // round(3/2) = 2 cells each way cover the whole 3x3 source
    assert_eq!(&out.data[32..36], &[125, 49, 24, 191]);
    let source = uniform(1, 1, [100, 100, 100]);
    let out = build_mosaic_blend(&source, &tiles, (2, 2), 128).unwrap();
    assert_eq!(out.data, vec![100, 100, 100, 255]);
}

#[test]
fn compositions_are_deterministic() {
    let tiles = vec![numbered(2, 2), uniform(2, 2, [30, 60, 90]), uniform(2, 2, [250, 0, 3])];
    let source = numbered(5, 5);
    assert_eq!(build_mosaic(&source, &tiles, (2, 2)).unwrap().data, build_mosaic(&source, &tiles, (2, 2)).unwrap().data);
    assert_eq!(
        build_mosaic_without_compression(&source, &tiles, (2, 2)).unwrap().data,
        build_mosaic_without_compression(&source, &tiles, (2, 2)).unwrap().data
    );
    assert_eq!(
        build_mosaic_blend(&source, &tiles, (2, 2), 77).unwrap().data,
        build_mosaic_blend(&source, &tiles, (2, 2), 77).unwrap().data
    );
}

#[test]
fn strategy_follows_resize_and_opacity() {
    assert_eq!(choose_strategy(true, Some(100)), Strategy::Expanding);
    assert_eq!(choose_strategy(true, None), Strategy::Expanding);
    assert_eq!(choose_strategy(false, Some(100)), Strategy::Blended(100));
    assert_eq!(choose_strategy(false, Some(0)), Strategy::ExactSize);
    assert_eq!(choose_strategy(false, Some(255)), Strategy::ExactSize);
    assert_eq!(choose_strategy(false, None), Strategy::ExactSize);
}

#[test]
fn nearest_agrees_with_exhaustive_search() {
    let mut seed: u32 = 12345;
    let mut next = move || {
        seed = seed.wrapping_mul(1103515245).wrapping_add(12345);
        (seed >> 16) as u8
    };
    let mut tiles = Vec::new();
    for _ in 0..300 {
        tiles.push(uniform(2, 1, [next() / 4 * 4, next(), next() / 8 * 8]));
    }
    let index = ColorIndex::build(&tiles, (2, 1));
    let means: Vec<MeanColor> = tiles.iter().map(mean_color).collect();
    let d = |a: &MeanColor, b: &MeanColor| {
        let f = |x: u64, y: u64| (x as i128 - y as i128) * (x as i128 - y as i128);
        f(a.r, b.r) + f(a.g, b.g) + f(a.b, b.b)
    };
    for _ in 0..500 {
        let q = MeanColor { r: next() as u64 * 2, g: next() as u64 * 2, b: next() as u64 * 2, count: 2 };
        let mut best = 0;
        for (i, m) in means.iter().enumerate() {
            if d(&q, m) < d(&q, &means[best]) {
                best = i;
            }
        }
        assert_eq!(index.nearest(&q), Ok(best));
    }
}

#[test]
fn prepare_tiles_turns_an_empty_image_into_a_black_tile() {
    let empty = RgbImage { width: 0, height: 0, data: Vec::new() };
    let tiles = prepare_tiles(&vec![empty, uniform(1, 1, [4, 5, 6])], (2, 3));
    assert_eq!(tiles.len(), 2);
    assert_eq!((tiles[0].width, tiles[0].height), (2, 3));
    assert_eq!(tiles[0].data, vec![0; 18]);
    assert_eq!(pixel(&tiles[1], 0, 0), [4, 5, 6]);
}

#[test]
fn mosaic_from_grid_pastes_nearest_tile_per_sampled_pixel() {
    let tiles = vec![uniform(2, 2, [0, 0, 0]), uniform(2, 2, [200, 10, 10])];
    let sampled = RgbImage { width: 2, height: 1, data: vec![190, 0, 0, 20, 20, 20] };
    let out = mosaic_from_grid(&sampled, &tiles, (2, 2), 5, 3).unwrap();
    assert_eq!((out.width, out.height), (5, 3));
    assert_eq!(pixel(&out, 0, 0), [200, 10, 10]);
    assert_eq!(pixel(&out, 1, 1), [200, 10, 10]);
    assert_eq!(pixel(&out, 2, 0), [0, 0, 0]);
    assert_eq!(pixel(&out, 4, 0), [0, 0, 0]);
    assert_eq!(pixel(&out, 0, 2), [0, 0, 0]);
    let out = mosaic_from_grid(&sampled, &vec![uniform(2, 2, [9, 9, 9])], (2, 2), 3, 2).unwrap();
    assert_eq!(pixel(&out, 2, 1), [9, 9, 9]);
    assert_eq!(mosaic_from_grid(&sampled, &Vec::new(), (2, 2), 3, 2).unwrap_err(), MosaicError::EmptyTileSet);
}

#[test]
fn blend_from_grid_blends_per_sampled_pixel() {
    let tiles = vec![uniform(2, 2, [200, 50, 0]), uniform(2, 2, [0, 0, 0])];
    let source = uniform(3, 2, [100, 100, 100]);
    let sampled = RgbImage { width: 1, height: 1, data: vec![210, 40, 0] };
    let out = blend_from_grid(&source, &sampled, &tiles, (2, 2), 128).unwrap();
    assert_eq!((out.width, out.height), (3, 2));
    assert_eq!(&out.data[0..4], &[125, 49, 24, 191]);
    assert_eq!(&out.data[16..20], &[125, 49, 24, 191]);
    assert_eq!(&out.data[20..24], &[100, 100, 100, 255]);
    assert_eq!(&out.data[8..12], &[100, 100, 100, 255]);
}
