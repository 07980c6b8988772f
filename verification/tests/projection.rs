//! Projection and tile-arithmetic tests, on the fixed-point coordinate
//! grid (1e-8 degree units; Mercator fractions in units of 2^-32).

use cplace_map::tile::{
    calculate_sub_region, clamp_latitude, is_valid_tile_y, normalize_longitude, tile_x_from_lon,
    tile_x_to_lon, tile_y_from_mercator, tile_y_to_mercator, u64_to_dec, wrap_tile_x, SubRegion,
    TileId, LAT_LIMIT,
};

#[test]
fn test_wrap_tile_x() {
    // At zoom 2, max tiles = 4 (0-3)
    assert_eq!(wrap_tile_x(4, 2), 0); // Wrap around
    assert_eq!(wrap_tile_x(-1, 2), 3); // Wrap negative
    assert_eq!(wrap_tile_x(2, 2), 2); // Normal
}

#[test]
fn test_normalize_longitude() {
    // 190 degrees wraps to -170; -190 degrees wraps to 170.
    assert_eq!(normalize_longitude(19_000_000_000), -17_000_000_000);
    assert_eq!(normalize_longitude(-19_000_000_000), 17_000_000_000);
}

#[test]
fn test_normalize_longitude_fixed_point() {
    // A longitude already in range is untouched.
    assert_eq!(normalize_longitude(12_697_800_000), 12_697_800_000);
    assert_eq!(normalize_longitude(0), 0);
    assert_eq!(normalize_longitude(-18_000_000_000), -18_000_000_000);
    assert_eq!(normalize_longitude(18_000_000_000), 18_000_000_000);
    // Several turns away.
    assert_eq!(normalize_longitude(36_000_000_000 * 3 + 100), 100);
}

#[test]
fn test_clamp_latitude() {
    assert_eq!(clamp_latitude(9_000_000_000), LAT_LIMIT);
    assert_eq!(clamp_latitude(-9_000_000_000), -LAT_LIMIT);
    assert_eq!(clamp_latitude(3_756_650_000), 3_756_650_000);
    // Idempotent on an already-clamped value.
    assert_eq!(clamp_latitude(clamp_latitude(9_000_000_000)), LAT_LIMIT);
    assert_eq!(
        clamp_latitude(clamp_latitude(-123_456_789)),
        clamp_latitude(-123_456_789)
    );
}

#[test]
fn test_seoul_tile_indices() {
    // Seoul (126.9780 E, 37.5665 N) at zoom 10, by the Web-Mercator tile
    // formula: column 873, row 396.
    let x = tile_x_from_lon(12_697_800_000, 10);
    assert_eq!(x, 873);
    let lat_rad = 37.5665_f64.to_radians();
    let merc = (1.0 - lat_rad.tan().asinh() / std::f64::consts::PI) / 2.0;
    let m = (merc * 4_294_967_296.0) as u64;
    let y = tile_y_from_mercator(m, 10);
    assert_eq!(y, 396);
}

#[test]
fn test_tile_round_trip() {
    // Top-left corner of a tile maps back to the same tile.
    for &(x, y, z) in &[(0u32, 0u32, 0u8), (873, 396, 10), (1, 3, 2), (524287, 0, 19)] {
        let lon = tile_x_to_lon(x, z);
        assert_eq!(tile_x_from_lon(lon, z), x);
        let m = tile_y_to_mercator(y, z);
        assert_eq!(tile_y_from_mercator(m, z), y);
    }
}

#[test]
fn test_tile_x_edges() {
    // The antimeridian on either side lands on the first and last column.
    assert_eq!(tile_x_from_lon(-18_000_000_000, 4), 0);
    assert_eq!(tile_x_from_lon(18_000_000_000, 4), 15);
    assert_eq!(tile_x_from_lon(0, 1), 1);
}

#[test]
fn test_tile_y_edges() {
    assert_eq!(tile_y_from_mercator(0, 4), 0);
    assert_eq!(tile_y_from_mercator(4_294_967_296, 4), 15);
    assert_eq!(tile_y_from_mercator(2_147_483_648, 1), 1);
}

#[test]
fn test_is_valid_tile_y() {
    assert!(is_valid_tile_y(0, 2));
    assert!(is_valid_tile_y(3, 2));
    assert!(!is_valid_tile_y(4, 2));
    assert!(!is_valid_tile_y(-1, 2));
}

#[test]
fn test_max_tile_coord() {
    assert_eq!(TileId::new(0, 0, 0).max_tile_coord(), 1);
    assert_eq!(TileId::new(0, 0, 10).max_tile_coord(), 1024);
    assert_eq!(TileId::new(0, 0, 19).max_tile_coord(), 524288);
}

#[test]
fn test_parent_at_zoom() {
    let t = TileId::new(873, 396, 10);
    assert_eq!(t.parent_at_zoom(8), Some(TileId::new(218, 99, 8)));
    assert_eq!(t.parent_at_zoom(10), None);
    assert_eq!(t.parent_at_zoom(11), None);
    assert_eq!(t.parent_at_zoom(0), Some(TileId::new(0, 0, 0)));
}

#[test]
fn test_to_osm_url() {
    let t = TileId::new(873, 396, 10);
    assert_eq!(t.to_osm_url(), "https://tile.openstreetmap.org/10/873/396.png");
    let t0 = TileId::new(0, 0, 0);
    assert_eq!(t0.to_osm_url(), "https://tile.openstreetmap.org/0/0/0.png");
}

#[test]
fn test_u64_to_dec() {
    assert_eq!(u64_to_dec(0), "0");
    assert_eq!(u64_to_dec(7), "7");
    assert_eq!(u64_to_dec(524288), "524288");
    assert_eq!(u64_to_dec(18_446_744_073_709_551_615), "18446744073709551615");
}

#[test]
fn test_calculate_sub_region() {
    let target = TileId::new(5, 7, 3);
    let parent = TileId::new(1, 1, 1);
    let r = calculate_sub_region(&target, &parent);
    assert_eq!(
        r,
        SubRegion { cell_x: 1, cell_y: 3, subdivisions: 4 }
    );
    // An ancestor at the same or deeper zoom yields the whole image.
    let same = calculate_sub_region(&target, &TileId::new(5, 7, 3));
    assert_eq!(same, SubRegion { cell_x: 0, cell_y: 0, subdivisions: 1 });
    let deeper = calculate_sub_region(&target, &TileId::new(20, 28, 5));
    assert_eq!(deeper, SubRegion { cell_x: 0, cell_y: 0, subdivisions: 1 });
}
