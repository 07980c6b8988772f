//! Loader bookkeeping, image decoding, and per-frame orchestration tests.

use cplace_map::cache::{CachedTile, TileCache};
use cplace_map::loader::{
    decode_raster, raster_memory_size, tile_memory_size, TileLoadResult, TileLoader,
};
use cplace_map::system::{collect_resident, request_missing, tiles_in_rect};
use cplace_map::grid::{GridCoord, PixelGrid};
use cplace_map::tile::TileId;

#[test]
fn test_loader_request_dedup() {
    // Two requests before any completion: one dispatch, one pending key.
    let mut loader = TileLoader::new("test-agent");
    let k = TileId::new(873, 396, 10);
    let url = loader.request(k);
    assert_eq!(url.as_deref(), Some("https://tile.openstreetmap.org/10/873/396.png"));
    assert_eq!(loader.request(k), None);
    assert_eq!(loader.pending_count(), 1);
    assert!(loader.is_loading(&k));
}

#[test]
fn test_loader_poll_terminal() {
    // After poll returns a terminal result for a key, the key is no
    // longer loading and a fresh request for it is accepted.
    let mut loader = TileLoader::new("test-agent");
    let k = TileId::new(1, 2, 3);
    assert!(loader.request(k).is_some());
    let polled = loader.poll(Some(TileLoadResult::Success(k, vec![1, 2, 3])));
    match polled {
        Some(TileLoadResult::Success(id, bytes)) => {
            assert_eq!(id, k);
            assert_eq!(bytes, vec![1, 2, 3]);
        }
        other => panic!("unexpected poll result: {:?}", other),
    }
    assert!(!loader.is_loading(&k));
    assert_eq!(loader.pending_count(), 0);
    assert!(loader.request(k).is_some());
}

#[test]
fn test_loader_poll_failure_and_none() {
    let mut loader = TileLoader::new("test-agent");
    let k = TileId::new(4, 5, 6);
    assert!(loader.request(k).is_some());
    assert!(loader.poll(None).is_none());
    assert!(loader.is_loading(&k));
    let polled = loader.poll(Some(TileLoadResult::Failed(k, String::from("HTTP 404"))));
    match polled {
        Some(TileLoadResult::Failed(id, reason)) => {
            assert_eq!(id, k);
            assert_eq!(reason, "HTTP 404");
        }
        other => panic!("unexpected poll result: {:?}", other),
    }
    assert!(!loader.is_loading(&k));
}

#[test]
fn test_loader_clear_pending() {
    // Clearing forgets bookkeeping only: a late completion still
    // surfaces, and the key may be requested anew.
    let mut loader = TileLoader::new("test-agent");
    let k = TileId::new(7, 8, 9);
    assert!(loader.request(k).is_some());
    loader.clear_pending();
    assert_eq!(loader.pending_count(), 0);
    assert!(!loader.is_loading(&k));
    let late = loader.poll(Some(TileLoadResult::Success(k, vec![9])));
    assert!(late.is_some());
    assert!(loader.request(k).is_some());
}

#[test]
fn test_loader_default_user_agent() {
    let loader = TileLoader::default();
    assert_eq!(loader.user_agent, "CPlace/0.1 (https://github.com/antegral/cplace)");
}

#[test]
fn test_tile_memory_size() {
    assert_eq!(tile_memory_size(256, 256), 262144);
    assert_eq!(tile_memory_size(2, 3), 24);
    assert_eq!(tile_memory_size(0, 1024), 0);
}

#[test]
fn test_decode_raster_round_trip() {
    // Encode a small RGBA image to PNG, then decode it through the
    // library: dimensions and pixel bytes must come back unchanged.
    let pixels: Vec<u8> = (0..24).map(|i| (i * 10) as u8).collect();
    let img = image::RgbaImage::from_raw(2, 3, pixels.clone()).unwrap();
    let mut png: Vec<u8> = Vec::new();
    image::DynamicImage::ImageRgba8(img)
        .write_to(&mut std::io::Cursor::new(&mut png), image::ImageFormat::Png)
        .unwrap();
    let raster = decode_raster(&png).unwrap();
    assert_eq!(raster.width, 2);
    assert_eq!(raster.height, 3);
    assert_eq!(raster.pixels, pixels);
    assert_eq!(raster_memory_size(&raster), 24);
}

#[test]
fn test_decode_raster_rejects_garbage() {
    let garbage = vec![0u8, 1, 2, 3, 4, 5];
    assert!(decode_raster(&garbage).is_err());
}

#[test]
fn test_collect_resident() {
    let mut cache: TileCache<u32> = TileCache::new(8, 1000);
    let a = TileId::new(1, 1, 4);
    let b = TileId::new(2, 1, 4);
    let c = TileId::new(3, 1, 4);
    cache.insert(a, CachedTile { resource: 0, memory_size: 1, created_at: 0 });
    cache.insert(c, CachedTile { resource: 0, memory_size: 1, created_at: 0 });
    let visible = vec![a, b, c];
    assert_eq!(collect_resident(&visible, &cache), vec![a, c]);
}

#[test]
fn test_request_missing() {
    // Resident and already-pending keys are skipped; a repeated visible
    // key is dispatched once.
    let mut cache: TileCache<u32> = TileCache::new(8, 1000);
    let mut loader = TileLoader::new("test-agent");
    let a = TileId::new(1, 1, 4);
    let b = TileId::new(2, 1, 4);
    let c = TileId::new(3, 1, 4);
    cache.insert(a, CachedTile { resource: 0, memory_size: 1, created_at: 0 });
    assert!(loader.request(b).is_some());
    let visible = vec![a, b, c, c];
    let dispatched = request_missing(&visible, &cache, &mut loader);
    assert_eq!(dispatched.len(), 1);
    assert_eq!(dispatched[0].0, c);
    assert_eq!(dispatched[0].1, "https://tile.openstreetmap.org/4/3/1.png");
    assert_eq!(loader.pending_count(), 2);
    assert!(loader.is_loading(&b));
    assert!(loader.is_loading(&c));
}

#[test]
fn test_tiles_in_rect() {
    // Rows outside the world are skipped; columns wrap.
    let tiles = tiles_in_rect(-1, 1, -1, 2, 1);
    let expect = vec![
        TileId::new(1, 0, 1),
        TileId::new(0, 0, 1),
        TileId::new(1, 0, 1),
        TileId::new(1, 1, 1),
        TileId::new(0, 1, 1),
        TileId::new(1, 1, 1),
    ];
    assert_eq!(tiles, expect);
    // A rectangle no wider than the world has no repeated key.
    let narrow = tiles_in_rect(0, 1, 0, 1, 1);
    for i in 0..narrow.len() {
        for j in (i + 1)..narrow.len() {
            assert_ne!(narrow[i], narrow[j]);
        }
    }
    assert_eq!(narrow.len(), 4);
}

#[test]
fn test_grid_pixels() {
    let mut grid: PixelGrid<[u8; 4]> = PixelGrid::new();
    assert!(!grid.is_dirty());
    let c1 = GridCoord::new(10, -3);
    let c2 = GridCoord::new(0, 0);
    grid.set_pixel(c1, [1, 2, 3, 4]);
    grid.set_pixel(c2, [5, 6, 7, 8]);
    assert!(grid.is_dirty());
    assert_eq!(grid.pixel_count(), 2);
    assert_eq!(grid.get_pixel(&c1), Some(&[1, 2, 3, 4]));
    grid.set_pixel(c1, [9, 9, 9, 9]);
    assert_eq!(grid.pixel_count(), 2);
    assert_eq!(grid.get_pixel(&c1), Some(&[9, 9, 9, 9]));
    grid.mark_clean();
    assert!(!grid.is_dirty());
    assert_eq!(grid.remove_pixel(&c2), Some([5, 6, 7, 8]));
    assert!(grid.is_dirty());
    assert_eq!(grid.get_pixel(&c2), None);
    grid.clear();
    assert_eq!(grid.pixel_count(), 0);
}
