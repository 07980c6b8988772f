//! Tile coordinate system and Web-Mercator conversions on a fixed-point
//! grid, compatible with the usual OSM tile scheme.
//!
//! Longitudes and latitudes are integers in units of 1e-8 degree, so that
//! the Mercator latitude bound 85.05112878 degrees is exactly representable.
//! The vertical Mercator coordinate is a fraction of the world height in
//! units of 2^-32, so that tile rows at every zoom level up to `MAX_ZOOM`
//! are exact.

use vstd::prelude::*;
use vstd::arithmetic::power2::pow2;
use vstd::arithmetic::power2::lemma_pow2_adds;
use vstd::arithmetic::power2::lemma2_to64;
use vstd::arithmetic::power2::lemma_pow2_strictly_increases;
use vstd::arithmetic::div_mod::lemma_fundamental_div_mod;
use vstd::arithmetic::div_mod::lemma_fundamental_div_mod_converse_div;
use vstd::arithmetic::div_mod::lemma_fundamental_div_mod_converse_mod;
use vstd::arithmetic::div_mod::lemma_mod_multiples_vanish;
use vstd::bits::lemma_u64_shl_is_mul;
use vstd::bits::lemma_u64_pow2_no_overflow;

verus! {

/// One degree, in coordinate units.
pub const COORD_SCALE: i64 = 100_000_000;

/// 180 degrees, in coordinate units: the longitude bound.
pub const LON_LIMIT: i64 = 18_000_000_000;

/// 360 degrees, in coordinate units: one full trip around the world.
pub const LON_SPAN: i64 = 36_000_000_000;

/// 85.05112878 degrees, in coordinate units: the Mercator latitude bound.
pub const LAT_LIMIT: i64 = 8_505_112_878;

/// The deepest zoom level the camera may reach.
pub const MAX_ZOOM: u8 = 19;

/// The whole world height in Mercator units (2^32).
pub const MERC_ONE: u64 = 4_294_967_296;

pub open spec fn valid_zoom(z: u8) -> bool {
    z <= MAX_ZOOM
}

pub open spec fn valid_lon(lon: i64) -> bool {
    -LON_LIMIT <= lon <= LON_LIMIT
}

pub open spec fn valid_lat(lat: i64) -> bool {
    -LAT_LIMIT <= lat <= LAT_LIMIT
}

/// Unique identifier for a map tile.
#[derive(Clone, Copy, Debug, Hash, PartialEq, Eq, Structural)]
pub struct TileId {
    pub x: u32,
    pub y: u32,
    pub z: u8,
}

/// 2^z for a zoom level, as a 64-bit number.
pub fn pow2_u64(z: u8) -> (r: u64)
    requires
        z < 64,
    ensures
        r as int == pow2(z as nat),
        r >= 1,
{
    proof {
        lemma_u64_pow2_no_overflow(z as nat);
        lemma_u64_shl_is_mul(1u64, z as u64);
    }
    1u64 << (z as u64)
}

impl TileId {
    pub fn new(x: u32, y: u32, z: u8) -> (r: Self)
        ensures
            r == (TileId { x, y, z }),
    {
        Self { x, y, z }
    }

    /// The number of tile rows (and columns) at this tile's zoom level.
    pub fn max_tile_coord(&self) -> (r: u32)
        requires
            valid_zoom(self.z),
        ensures
            r as int == pow2(self.z as nat),
    {
        let r: u64 = pow2_u64(self.z);
        proof {
            lemma2_to64();
            lemma_pow2_strictly_increases(self.z as nat, 20);
        }
        r as u32
    }

    /// The ancestor of this tile at a strictly coarser zoom level, if any.
    pub fn parent_at_zoom(&self, target_z: u8) -> (r: Option<TileId>)
        requires
            valid_zoom(self.z),
        ensures
            target_z >= self.z ==> r is None,
            target_z < self.z ==> {
                &&& r matches Some(p)
                &&& p.x as int == self.x as int / (pow2((self.z - target_z) as nat) as int)
                &&& p.y as int == self.y as int / (pow2((self.z - target_z) as nat) as int)
                &&& p.z == target_z
            },
    {
        if target_z >= self.z {
            return None;
        }
        let diff: u8 = self.z - target_z;
        proof {
            vstd::bits::lemma_u32_shr_is_div(self.x, diff as u32);
            vstd::bits::lemma_u32_shr_is_div(self.y, diff as u32);
        }
        Some(TileId { x: self.x >> (diff as u32), y: self.y >> (diff as u32), z: target_z })
    }
}

/// Horizontal tile index of a longitude: floor((lon + 180) / 360 * 2^z),
/// kept inside the valid column range.
pub open spec fn spec_tile_x(lon: i64, z: u8) -> int {
    let raw = (lon + LON_LIMIT) * (pow2(z as nat) as int) / (LON_SPAN as int);
    if raw < pow2(z as nat) - 1 {
        raw
    } else {
        pow2(z as nat) - 1
    }
}

/// Convert a longitude to the tile column that contains it.
pub fn tile_x_from_lon(lon: i64, zoom: u8) -> (x: u32)
    requires
        valid_zoom(zoom),
        valid_lon(lon),
    ensures
        x as int == spec_tile_x(lon, zoom),
{
    let n: u64 = pow2_u64(zoom);
    proof {
        lemma2_to64();
        lemma_pow2_strictly_increases(zoom as nat, 20);
        assert((lon + LON_LIMIT) as int * n as int <= 36_000_000_000int * 1_048_576)
            by (nonlinear_arith)
            requires
                0 <= (lon + LON_LIMIT) as int <= 36_000_000_000int,
                0 <= n as int <= 1_048_576,
        ;
    }
    let num: u64 = ((lon + LON_LIMIT) as u64) * n;
    let raw: u64 = num / (LON_SPAN as u64);
    let cap: u64 = n - 1;
    if raw < cap {
        raw as u32
    } else {
        cap as u32
    }
}

/// Longitude of the western (left) edge of a tile column, rounded toward
/// the inside of the column so that the edge maps back to the same column.
pub open spec fn spec_tile_lon(x: u32, z: u8) -> int {
    let n = pow2(z as nat) as int;
    (x * (LON_SPAN as int) + n - 1) / n - LON_LIMIT
}

/// Convert a tile column back to the longitude of its western edge.
pub fn tile_x_to_lon(x: u32, zoom: u8) -> (lon: i64)
    requires
        valid_zoom(zoom),
        (x as int) < pow2(zoom as nat),
    ensures
        lon as int == spec_tile_lon(x, zoom),
        valid_lon(lon),
{
    let n: u64 = pow2_u64(zoom);
    proof {
        lemma2_to64();
        lemma_pow2_strictly_increases(zoom as nat, 20);
        assert(x as int * 36_000_000_000int <= 1_048_575int * 36_000_000_000)
            by (nonlinear_arith)
            requires
                0 <= x as int <= 1_048_575int,
        ;
        // The ceiling division stays within one world span.
        assert(x as int * 36_000_000_000int + n as int - 1 < n as int * 36_000_000_000int)
            by (nonlinear_arith)
            requires
                0 <= x as int <= n as int - 1,
                1 <= n as int,
        ;
    }
    let num: u64 = (x as u64) * (LON_SPAN as u64) + (n - 1);
    let q: u64 = num / n;
    proof {
        lemma_div_le_times(num as int, n as int, LON_SPAN as int);
    }
    (q as i64) - LON_LIMIT
}

/// Helper: if a < d * b and 0 < d then a / d < b (so a / d <= b - 1).
proof fn lemma_div_le_times(a: int, d: int, b: int)
    requires
        0 <= a,
        0 < d,
        a < d * b,
    ensures
        a / d < b,
{
    lemma_fundamental_div_mod(a, d);
    assert(d * (a / d) <= a);
    assert((a / d) < b) by (nonlinear_arith)
        requires
            d * (a / d) <= a,
            a < d * b,
            0 < d,
            0 <= a,
    ;
}

/// Vertical tile index of a Mercator fraction m in [0, 1]:
/// floor(m * 2^z), kept inside the valid row range.
pub open spec fn spec_tile_y(m: u64, z: u8) -> int {
    let raw = (m as int) * (pow2(z as nat) as int) / (MERC_ONE as int);
    if raw < pow2(z as nat) - 1 {
        raw
    } else {
        pow2(z as nat) - 1
    }
}

/// Convert a Mercator fraction (0 at the north limit, 2^32 at the south
/// limit) to the tile row that contains it.
pub fn tile_y_from_mercator(m: u64, zoom: u8) -> (y: u32)
    requires
        valid_zoom(zoom),
        m <= MERC_ONE,
    ensures
        y as int == spec_tile_y(m, zoom),
{
    let n: u64 = pow2_u64(zoom);
    proof {
        lemma2_to64();
        lemma_pow2_strictly_increases(zoom as nat, 20);
        assert(m as int * n as int <= 4_294_967_296int * 1_048_576)
            by (nonlinear_arith)
            requires
                0 <= m as int <= 4_294_967_296int,
                0 <= n as int <= 1_048_576,
        ;
    }
    let num: u64 = m * n;
    let raw: u64 = num / MERC_ONE;
    let cap: u64 = n - 1;
    if raw < cap {
        raw as u32
    } else {
        cap as u32
    }
}

/// Mercator fraction of the northern (top) edge of a tile row; exact.
pub open spec fn spec_tile_merc(y: u32, z: u8) -> int {
    (y as int) * (MERC_ONE as int) / (pow2(z as nat) as int)
}

/// Convert a tile row back to the Mercator fraction of its northern edge.
pub fn tile_y_to_mercator(y: u32, zoom: u8) -> (m: u64)
    requires
        valid_zoom(zoom),
        (y as int) < pow2(zoom as nat),
    ensures
        m as int == spec_tile_merc(y, zoom),
        m as int * pow2(zoom as nat) == y as int * MERC_ONE as int,
        m <= MERC_ONE,
{
    let shift: u8 = 32 - zoom;
    proof {
        lemma2_to64();
        lemma_u64_pow2_no_overflow(shift as nat);
        lemma_pow2_adds(shift as nat, zoom as nat);
        let step = pow2(shift as nat) as int;
        let n = pow2(zoom as nat) as int;
        assert(step * n == MERC_ONE as int);
        // The shifted row stays at or below the world height.
        assert(y as int * step <= MERC_ONE as int - step) by (nonlinear_arith)
            requires
                0 <= y as int <= n - 1,
                0 < step,
                step * n == MERC_ONE as int,
        ;
        lemma_u64_shl_is_mul(y as u64, shift as u64);
        // m * 2^z == y * 2^32, so m == (y * 2^32) / 2^z exactly.
        assert(y as int * MERC_ONE as int == (y as int * step) * n + 0) by (nonlinear_arith)
            requires
                step * n == MERC_ONE as int,
        ;
        lemma_fundamental_div_mod_converse_div(
            y as int * MERC_ONE as int,
            n,
            y as int * step,
            0,
        );
        assert((y as int * step) * n == (y as int * step) * pow2(zoom as nat));
    }
    (y as u64) << (shift as u64)
}

/// Round trip of a tile column through the longitude of its western edge.
///
/// For every valid zoom z and column x below 2^z, converting x to a
/// longitude and back returns exactly x.
pub proof fn lemma_tile_x_round_trip(x: u32, z: u8)
    requires
        valid_zoom(z),
        (x as int) < pow2(z as nat),
    ensures
        spec_tile_x(spec_tile_lon(x, z) as i64, z) == x as int,
        valid_lon(spec_tile_lon(x, z) as i64),
{
    let n = pow2(z as nat) as int;
    let b = LON_SPAN as int;
    lemma2_to64();
    lemma_pow2_strictly_increases(z as nat, 20);
    let q = (x * b + n - 1) / n;
    lemma_fundamental_div_mod(x * b + n - 1, n);
    let r = (x * b + n - 1) % n;
    // q * n lands in [x * b, x * b + n - 1].
    assert(q * n == x * b + (n - 1 - r)) by (nonlinear_arith)
        requires
            x * b + n - 1 == n * q + r,
    ;
    let s = n - 1 - r;
    assert(0 <= s < n);
    assert(n <= b);
    // Dividing q * n by b recovers x, because the slack s is below b.
    lemma_fundamental_div_mod_converse_div(x * b + s, b, x as int, s);
    assert(q * n / b == x as int);
    // The recovered longitude is in range.
    assert(x * b + n - 1 < n * b) by (nonlinear_arith)
        requires
            0 <= x as int <= n - 1,
            1 <= n,
            n <= b,
    ;
    lemma_div_le_times(x * b + n - 1, n, b);
    assert(q <= b);
    assert(q >= 0) by {
        vstd::arithmetic::div_mod::lemma_div_pos_is_pos(x * b + n - 1, n);
    }
    assert(spec_tile_lon(x, z) == q - LON_LIMIT);
    assert(valid_lon((q - LON_LIMIT) as i64));
    // Unfold the forward map at the recovered longitude.
    assert(spec_tile_x((q - LON_LIMIT) as i64, z) == x as int);
}

/// Round trip of a tile row through the Mercator fraction of its top edge.
///
/// For every valid zoom z and row y below 2^z, converting y to a Mercator
/// fraction and back returns exactly y.
pub proof fn lemma_tile_y_round_trip(y: u32, z: u8)
    requires
        valid_zoom(z),
        (y as int) < pow2(z as nat),
    ensures
        spec_tile_y((y as int * MERC_ONE as int / pow2(z as nat) as int) as u64, z) == y as int,
{
    let n = pow2(z as nat) as int;
    let one = MERC_ONE as int;
    lemma2_to64();
    lemma_pow2_strictly_increases(z as nat, 20);
    lemma_pow2_adds((32 - z) as nat, z as nat);
    let step = pow2((32 - z) as nat) as int;
    assert(step * n == one);
    // The top edge is an exact multiple of the per-row step.
    assert(y * one == (y * step) * n) by (nonlinear_arith)
        requires
            step * n == one,
    ;
    lemma_fundamental_div_mod_converse_div(y * one, n, y * step, 0);
    let m = y * one / n;
    assert(m == y * step);
    assert(m * n == y * one) by (nonlinear_arith)
        requires
            m == y * step,
            step * n == one,
    ;
    lemma_fundamental_div_mod_converse_div(m * n, one, y as int, 0);
    assert(m * n / one == y as int);
    // m fits in the Mercator range, so the u64 cast is lossless.
    assert(y * step <= one - step) by (nonlinear_arith)
        requires
            0 <= y as int <= n - 1,
            0 < step,
            step * n == one,
    ;
    assert(m <= one - step);
}

/// Wrap a signed tile column into [0, 2^z): the eastward and westward
/// continuations of the world map reuse the same columns.
pub fn wrap_tile_x(x: i32, zoom: u8) -> (r: u32)
    requires
        valid_zoom(zoom),
    ensures
        r as int == (x as int) % (pow2(zoom as nat) as int),
{
    let m: u64 = pow2_u64(zoom);
    proof {
        lemma2_to64();
        lemma_pow2_strictly_increases(zoom as nat, 20);
    }
    if x >= 0 {
        (((x as u64) % m) as u32)
    } else {
        let p: u64 = (-(x as i64)) as u64;
        let k: u64 = p % m;
        proof {
            lemma_fundamental_div_mod(p as int, m as int);
            let q = p as int / m as int;
            if k == 0 {
                // x is an exact multiple of the row count.
                assert(x as int == (-q) * m as int + 0) by (nonlinear_arith)
                    requires
                        p as int == m as int * q + 0,
                        x as int == -(p as int),
                ;
                lemma_fundamental_div_mod_converse_mod(x as int, m as int, -q, 0);
            } else {
                // x == (-p/m - 1) * m + (m - k), and 0 < m - k < m.
                assert(x as int == (-q - 1) * m as int + (m as int - k as int))
                    by (nonlinear_arith)
                    requires
                        p as int == m as int * q + k as int,
                        x as int == -(p as int),
                ;
                lemma_fundamental_div_mod_converse_mod(
                    x as int,
                    m as int,
                    -q - 1,
                    m as int - k as int,
                );
            }
        }
        if k == 0 {
            0
        } else {
            (m - k) as u32
        }
    }
}

/// Whether a signed tile row exists at a zoom level: rows do not wrap,
/// because Mercator is undefined past the poles.
pub fn is_valid_tile_y(y: i32, zoom: u8) -> (r: bool)
    requires
        valid_zoom(zoom),
    ensures
        r == (0 <= y as int && (y as int) < pow2(zoom as nat)),
{
    if y < 0 {
        return false;
    }
    let m: u64 = pow2_u64(zoom);
    (y as u64) < m
}

/// Normalize a longitude into [-180, 180] degrees by whole turns.
pub fn normalize_longitude(lon: i64) -> (r: i64)
    ensures
        valid_lon(r),
        (r as int - lon as int) % (LON_SPAN as int) == 0,
        valid_lon(lon) ==> r == lon,
        lon < -LON_LIMIT ==> r < LON_LIMIT,
        lon > LON_LIMIT ==> r > -LON_LIMIT,
{
    let mut l: i64 = lon;
    while l < -LON_LIMIT
        invariant
            (l as int - lon as int) % (LON_SPAN as int) == 0,
            lon >= -LON_LIMIT ==> l == lon,
            l >= -LON_LIMIT ==> l == lon || l < LON_LIMIT,
        decreases LON_LIMIT as int - l as int,
    {
        proof {
            lemma_mod_multiples_vanish(1, l as int - lon as int, LON_SPAN as int);
        }
        l = l + LON_SPAN;
    }
    while l > LON_LIMIT
        invariant
            (l as int - lon as int) % (LON_SPAN as int) == 0,
            l >= -LON_LIMIT,
            -LON_LIMIT <= lon && lon <= LON_LIMIT ==> l == lon,
            lon < -LON_LIMIT ==> l < LON_LIMIT,
            lon > LON_LIMIT ==> l == lon || l > -LON_LIMIT,
        decreases l as int + LON_LIMIT as int,
    {
        proof {
            lemma_mod_multiples_vanish(-1, l as int - lon as int, LON_SPAN as int);
        }
        l = l - LON_SPAN;
    }
    l
}

/// Clamp of a latitude to the Mercator-projectable range.
pub open spec fn spec_clamp_lat(lat: i64) -> i64 {
    if lat < -LAT_LIMIT {
        (-LAT_LIMIT) as i64
    } else if lat > LAT_LIMIT {
        LAT_LIMIT
    } else {
        lat
    }
}

/// Clamp a latitude to the Mercator-projectable range.
pub fn clamp_latitude(lat: i64) -> (r: i64)
    ensures
        r == spec_clamp_lat(lat),
        valid_lat(r),
{
    if lat < -LAT_LIMIT {
        -LAT_LIMIT
    } else if lat > LAT_LIMIT {
        LAT_LIMIT
    } else {
        lat
    }
}

/// Clamping a latitude twice gives the same value as clamping it once,
/// and the result is always within the Mercator-projectable range.
pub proof fn lemma_clamp_latitude_idempotent(lat: i64)
    ensures
        spec_clamp_lat(spec_clamp_lat(lat)) == spec_clamp_lat(lat),
        valid_lat(spec_clamp_lat(lat)),
{
}

/// The cell of an ancestor tile's image that a finer tile covers.
///
/// The normalized UV rectangle of the finer tile within the ancestor's
/// image is (cell_x / subdivisions, cell_y / subdivisions) to
/// ((cell_x + 1) / subdivisions, (cell_y + 1) / subdivisions).
#[derive(Clone, Copy, Debug, PartialEq, Eq, Structural)]
pub struct SubRegion {
    pub cell_x: u32,
    pub cell_y: u32,
    pub subdivisions: u32,
}

/// Locate a tile within the image of an ancestor tile at a coarser zoom,
/// for drawing the ancestor as a stand-in while the tile itself loads.
/// An ancestor at the same or a deeper zoom yields the whole image.
pub fn calculate_sub_region(target: &TileId, parent: &TileId) -> (r: SubRegion)
    requires
        valid_zoom(target.z),
    ensures
        parent.z >= target.z ==> r == (SubRegion { cell_x: 0, cell_y: 0, subdivisions: 1 }),
        parent.z < target.z ==> {
            &&& r.subdivisions as int == pow2((target.z - parent.z) as nat)
            &&& r.cell_x as int == (target.x as int) % (r.subdivisions as int)
            &&& r.cell_y as int == (target.y as int) % (r.subdivisions as int)
        },
        r.subdivisions >= 1,
        r.cell_x < r.subdivisions,
        r.cell_y < r.subdivisions,
{
    if parent.z >= target.z {
        return SubRegion { cell_x: 0, cell_y: 0, subdivisions: 1 };
    }
    let diff: u8 = target.z - parent.z;
    let sub64: u64 = pow2_u64(diff);
    proof {
        lemma2_to64();
        lemma_pow2_strictly_increases(diff as nat, 20);
    }
    let subdivisions: u32 = sub64 as u32;
    SubRegion {
        cell_x: target.x % subdivisions,
        cell_y: target.y % subdivisions,
        subdivisions,
    }
}

/// The decimal digit character for a value below ten.
pub open spec fn dec_digit(d: int) -> char {
    if d == 0 {
        '0'
    } else if d == 1 {
        '1'
    } else if d == 2 {
        '2'
    } else if d == 3 {
        '3'
    } else if d == 4 {
        '4'
    } else if d == 5 {
        '5'
    } else if d == 6 {
        '6'
    } else if d == 7 {
        '7'
    } else if d == 8 {
        '8'
    } else {
        '9'
    }
}

/// The decimal digits of a non-negative number, most significant first.
pub open spec fn dec_chars(n: int) -> Seq<char>
    decreases n,
{
    if n < 10 {
        seq![dec_digit(n)]
    } else {
        dec_chars(n / 10).push(dec_digit(n % 10))
    }
}

fn dec_digit_str(d: u64) -> (r: &'static str)
    requires
        d < 10,
    ensures
        r@ == seq![dec_digit(d as int)],
{
    proof {
        reveal_strlit("0");
        reveal_strlit("1");
        reveal_strlit("2");
        reveal_strlit("3");
        reveal_strlit("4");
        reveal_strlit("5");
        reveal_strlit("6");
        reveal_strlit("7");
        reveal_strlit("8");
        reveal_strlit("9");
    }
    let r: &'static str = if d == 0 {
        "0"
    } else if d == 1 {
        "1"
    } else if d == 2 {
        "2"
    } else if d == 3 {
        "3"
    } else if d == 4 {
        "4"
    } else if d == 5 {
        "5"
    } else if d == 6 {
        "6"
    } else if d == 7 {
        "7"
    } else if d == 8 {
        "8"
    } else {
        "9"
    };
    proof {
        assert(r@ =~= seq![dec_digit(d as int)]);
    }
    r
}

/// Render a number in decimal.
pub fn u64_to_dec(n: u64) -> (s: String)
    ensures
        s@ == dec_chars(n as int),
    decreases n,
{
    if n < 10 {
        let s: String = String::from_str(dec_digit_str(n));
        proof {
            assert(s@ =~= dec_chars(n as int));
        }
        s
    } else {
        let mut s: String = u64_to_dec(n / 10);
        let d: &'static str = dec_digit_str(n % 10);
        s.append(d);
        proof {
            assert(s@ =~= dec_chars(n as int));
        }
        s
    }
}

/// The OSM tile URL for a tile: https://tile.openstreetmap.org/z/x/y.png.
pub open spec fn spec_osm_url(z: int, x: int, y: int) -> Seq<char> {
    "https://tile.openstreetmap.org/"@ + dec_chars(z) + "/"@ + dec_chars(x) + "/"@ + dec_chars(
        y,
    ) + ".png"@
}

impl TileId {
    /// Build the OSM tile URL for this tile.
    pub fn to_osm_url(&self) -> (r: String)
        ensures
            r@ == spec_osm_url(self.z as int, self.x as int, self.y as int),
    {
        let mut s: String = String::from_str("https://tile.openstreetmap.org/");
        let zs: String = u64_to_dec(self.z as u64);
        s.append(zs.as_str());
        s.append("/");
        let xs: String = u64_to_dec(self.x as u64);
        s.append(xs.as_str());
        s.append("/");
        let ys: String = u64_to_dec(self.y as u64);
        s.append(ys.as_str());
        s.append(".png");
        proof {
            assert(s@ =~= spec_osm_url(self.z as int, self.x as int, self.y as int));
        }
        s
    }
}

} // verus!
