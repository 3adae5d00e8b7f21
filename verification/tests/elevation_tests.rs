use geoprint3d_backend::elevation::{
    batch_ranges, decode_terrain_png, open_elevation_step, pick_zoom, stitch_tiles, terrain_codes_from_rgb,
    terrain_rgb_code, ElevationStep, TileDecodeError, TileSpan, BATCH_SIZE, MAX_RETRIES, MAX_TILES, MAX_ZOOM,
    TILE_PX,
};
use std::io::Cursor;

fn elevation_of(r: u8, g: u8, b: u8) -> f32 {
    -10000.0 + terrain_rgb_code(r, g, b) as f32 * 0.1
}

#[test]
fn decode_matches_mapbox_formula() {
    // Mapbox reference: RGB(1,134,160) decodes to exactly 0 m (sea level).
    let zero = elevation_of(1, 134, 160);
    assert!(zero.abs() < 0.001, "got {zero}");
    // RGB(1,138,136) → -10000 + (65536+35328+136)*0.1 = 100.0 m
    let hundred = elevation_of(1, 138, 136);
    assert!((hundred - 100.0).abs() < 0.001, "got {hundred}");
    // Minimum encodable value RGB(0,0,0) → -10000 m.
    let floor = elevation_of(0, 0, 0);
    assert!((floor + 10000.0).abs() < 0.001, "got {floor}");
}

fn lon_to_tile_x(lon: f64, z: u32) -> f64 {
    (lon + 180.0) / 360.0 * 2f64.powi(z as i32)
}

fn lat_to_tile_y(lat: f64, z: u32) -> f64 {
    let r = lat.to_radians();
    (1.0 - (r.tan() + 1.0 / r.cos()).ln() / std::f64::consts::PI) / 2.0 * 2f64.powi(z as i32)
}

fn span(min_lat: f64, min_lon: f64, max_lat: f64, max_lon: f64, z: u32) -> TileSpan {
    let n = 2f64.powi(z as i32);
    TileSpan {
        x0: lon_to_tile_x(min_lon, z).floor().clamp(0.0, n - 1.0) as u32,
        x1: lon_to_tile_x(max_lon, z).floor().clamp(0.0, n - 1.0) as u32,
        y0: lat_to_tile_y(max_lat, z).floor().clamp(0.0, n - 1.0) as u32,
        y1: lat_to_tile_y(min_lat, z).floor().clamp(0.0, n - 1.0) as u32,
    }
}

#[test]
fn zoom_stays_within_tile_budget() {
    let (min_lat, min_lon, max_lat, max_lon) = (44.46, 11.00, 44.47, 11.02);
    let spans: Vec<TileSpan> = (0..=MAX_ZOOM).map(|z| span(min_lat, min_lon, max_lat, max_lon, z)).collect();
    let z = pick_zoom(&spans);
    let s = spans[z as usize];
    assert!(((s.x1 - s.x0 + 1) * (s.y1 - s.y0 + 1)) as u64 <= MAX_TILES);
    assert!(z <= MAX_ZOOM);
}

#[test]
fn zoom_is_the_highest_that_fits() {
    let mut spans: Vec<TileSpan> = (0..=MAX_ZOOM).map(|z| TileSpan { x0: 0, y0: 0, x1: z, y1: z }).collect();
    // zoom z covers (z+1)² tiles: 4 → 25 > 24, 3 → 16 ≤ 24
    assert_eq!(pick_zoom(&spans), 3);
    spans[10] = TileSpan { x0: 5, y0: 5, x1: 10, y1: 8 }; // 6 × 4 = 24 tiles: exactly the budget
    assert_eq!(pick_zoom(&spans), 10);
    assert_eq!(spans[10].tile_count(), 24);
}

#[test]
fn zoom_falls_back_to_one() {
    let spans: Vec<TileSpan> = (0..=MAX_ZOOM).map(|_| TileSpan { x0: 0, y0: 0, x1: 9, y1: 9 }).collect();
    assert_eq!(pick_zoom(&spans), 1);
}

#[test]
fn batches_cover_the_grid_in_order() {
    assert_eq!(batch_ranges(20000, BATCH_SIZE), vec![(0, 8000), (8000, 16000), (16000, 20000)]);
    assert_eq!(batch_ranges(8000, BATCH_SIZE), vec![(0, 8000)]);
    assert_eq!(batch_ranges(8001, BATCH_SIZE), vec![(0, 8000), (8000, 8001)]);
    assert!(batch_ranges(0, BATCH_SIZE).is_empty());
    assert_eq!(batch_ranges(5, 2), vec![(0, 2), (2, 4), (4, 5)]);
}

#[test]
fn elevation_retries_then_gives_up() {
    assert_eq!(open_elevation_step(1, Some(200)), ElevationStep::Parse);
    assert_eq!(open_elevation_step(3, Some(204)), ElevationStep::Parse);
    assert_eq!(open_elevation_step(1, Some(429)), ElevationStep::Retry { delay_secs: 2 });
    assert_eq!(open_elevation_step(2, Some(503)), ElevationStep::Retry { delay_secs: 4 });
    assert_eq!(open_elevation_step(MAX_RETRIES, Some(500)), ElevationStep::GiveUpThrottled);
    assert_eq!(open_elevation_step(MAX_RETRIES, Some(429)), ElevationStep::GiveUpThrottled);
    assert_eq!(open_elevation_step(1, Some(404)), ElevationStep::Rejected);
    assert_eq!(open_elevation_step(1, Some(413)), ElevationStep::Rejected);
    assert_eq!(open_elevation_step(1, None), ElevationStep::Retry { delay_secs: 2 });
    assert_eq!(open_elevation_step(2, None), ElevationStep::Retry { delay_secs: 4 });
    assert_eq!(open_elevation_step(MAX_RETRIES, None), ElevationStep::GiveUpConnection);
}

fn png_of(w: u32, h: u32, rgb: [u8; 3]) -> Vec<u8> {
    let img = image::RgbImage::from_pixel(w, h, image::Rgb(rgb));
    let mut bytes = Cursor::new(Vec::new());
    img.write_to(&mut bytes, image::ImageFormat::Png).unwrap();
    bytes.into_inner()
}

#[test]
fn terrain_tile_decodes_to_codes() {
    let mut img = image::RgbImage::from_pixel(TILE_PX as u32, TILE_PX as u32, image::Rgb([1, 134, 160]));
    img.put_pixel(1, 0, image::Rgb([1, 138, 136]));
    let mut bytes = Cursor::new(Vec::new());
    img.write_to(&mut bytes, image::ImageFormat::Png).unwrap();
    let codes = decode_terrain_png(&bytes.into_inner()).unwrap();
    assert_eq!(codes.len(), TILE_PX * TILE_PX);
    assert_eq!(codes[0], 100000);
    assert_eq!(codes[1], 101000);
    assert_eq!(codes[TILE_PX * TILE_PX - 1], 100000);
}

#[test]
fn wrong_tile_size_is_refused() {
    assert_eq!(
        decode_terrain_png(&png_of(2, 3, [0, 0, 0])),
        Err(TileDecodeError::UnexpectedSize { width: 2, height: 3 })
    );
}

#[test]
fn garbage_is_not_a_png() {
    assert_eq!(decode_terrain_png(&[1, 2, 3, 4]), Err(TileDecodeError::NotPng));
    assert_eq!(decode_terrain_png(&[]), Err(TileDecodeError::NotPng));
}

#[test]
fn short_pixel_buffer_is_truncated() {
    assert_eq!(terrain_codes_from_rgb(512, 512, &vec![0u8; 10]), Err(TileDecodeError::Truncated));
    assert_eq!(
        terrain_codes_from_rgb(256, 512, &vec![0u8; 10]),
        Err(TileDecodeError::UnexpectedSize { width: 256, height: 512 })
    );
    let raw: Vec<u8> = (0..3 * TILE_PX * TILE_PX).map(|i| (i % 3) as u8).collect();
    let codes = terrain_codes_from_rgb(512, 512, &raw).unwrap();
    assert_eq!(codes[7], 0 * 65536 + 1 * 256 + 2);
}

#[test]
fn rgb_code_formula() {
    assert_eq!(terrain_rgb_code(0, 0, 0), 0);
    assert_eq!(terrain_rgb_code(1, 134, 160), 100000);
    assert_eq!(terrain_rgb_code(255, 255, 255), 16777215);
}

#[test]
fn tiles_stitch_row_major() {
    // 2 × 2 tiles of 2 × 2 pixels, each pixel labelled tile*10 + pixel.
    let tiles: Vec<Vec<u32>> = (0..4).map(|t| (0..4).map(|p| t * 10 + p).collect()).collect();
    let raster = stitch_tiles(&tiles, 2, 2, 2);
    assert_eq!(
        raster,
        vec![0, 1, 10, 11, 2, 3, 12, 13, 20, 21, 30, 31, 22, 23, 32, 33]
    );
    // a single row of three 1-pixel tiles
    let row = stitch_tiles(&vec![vec![7u8], vec![8], vec![9]], 3, 1, 1);
    assert_eq!(row, vec![7, 8, 9]);
}
