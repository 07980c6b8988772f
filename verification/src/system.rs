//! Per-frame orchestration rules of the map system.
//!
//! Each frame the host asks the camera for the visible tiles, has the
//! loader request the ones that are neither resident nor already being
//! fetched, drains the loader's completions into the cache, and draws
//! the visible tiles that are resident.  The decisions live here; the
//! camera math, the network and the drawing are the host's.

use vstd::prelude::*;
use crate::cache::CachedTile;
use crate::cache::TileCache;
use crate::cache::has_key;
use crate::loader::TileLoader;
use crate::tile::TileId;
use crate::tile::spec_osm_url;
use vstd::arithmetic::power2::pow2;

verus! {

/// The visible keys that are cache-resident, in visible order.
pub open spec fn spec_resident<R>(
    cache: Seq<(TileId, CachedTile<R>)>,
    visible: Seq<TileId>,
) -> Seq<TileId>
    decreases visible.len(),
{
    if visible.len() == 0 {
        Seq::empty()
    } else if has_key(cache, visible[0]) {
        seq![visible[0]] + spec_resident(cache, visible.drop_first())
    } else {
        spec_resident(cache, visible.drop_first())
    }
}

proof fn lemma_spec_resident_push<R>(
    cache: Seq<(TileId, CachedTile<R>)>,
    visible: Seq<TileId>,
    k: TileId,
)
    ensures
        has_key(cache, k) ==> spec_resident(cache, visible.push(k)) =~= spec_resident(
            cache,
            visible,
        ).push(k),
        !has_key(cache, k) ==> spec_resident(cache, visible.push(k)) =~= spec_resident(
            cache,
            visible,
        ),
    decreases visible.len(),
{
    let vp = visible.push(k);
    if visible.len() == 0 {
        assert(vp[0] == k);
        assert(vp.drop_first() =~= Seq::<TileId>::empty());
        assert(spec_resident(cache, vp.drop_first()) =~= Seq::<TileId>::empty());
        assert(spec_resident(cache, visible) =~= Seq::<TileId>::empty());
        if has_key(cache, k) {
            assert(spec_resident(cache, vp) == seq![k] + spec_resident(cache, vp.drop_first()));
            assert(seq![k] + spec_resident(cache, vp.drop_first()) =~= spec_resident(
                cache,
                visible,
            ).push(k));
        }
    } else {
        assert(vp[0] == visible[0]);
        assert(vp.drop_first() =~= visible.drop_first().push(k));
        lemma_spec_resident_push(cache, visible.drop_first(), k);
        assert(spec_resident(cache, vp.drop_first()) == spec_resident(
            cache,
            visible.drop_first().push(k),
        ));
        if has_key(cache, visible[0]) {
            assert(spec_resident(cache, vp) == seq![visible[0]] + spec_resident(
                cache,
                vp.drop_first(),
            ));
            assert(spec_resident(cache, visible) == seq![visible[0]] + spec_resident(
                cache,
                visible.drop_first(),
            ));
            if has_key(cache, k) {
                assert(seq![visible[0]] + spec_resident(cache, visible.drop_first()).push(k)
                    =~= (seq![visible[0]] + spec_resident(cache, visible.drop_first())).push(k));
            }
        } else {
            assert(spec_resident(cache, vp) == spec_resident(cache, vp.drop_first()));
            assert(spec_resident(cache, visible) == spec_resident(cache, visible.drop_first()));
        }
    }
}

/// Choose the visible tiles that the cache holds, in visible order:
/// these are the frame's drawable tiles.
pub fn collect_resident<R>(visible: &Vec<TileId>, cache: &TileCache<R>) -> (r: Vec<TileId>)
    ensures
        r@ =~= spec_resident(cache@, visible@),
{
    let mut out: Vec<TileId> = Vec::new();
    let mut i: usize = 0;
    while i < visible.len()
        invariant
            i <= visible.len(),
            out@ =~= spec_resident(cache@, visible@.take(i as int)),
        decreases visible.len() - i,
    {
        let k: TileId = visible[i];
        proof {
            assert(visible@.take(i as int).push(k) =~= visible@.take(i as int + 1));
            lemma_spec_resident_push(cache@, visible@.take(i as int), k);
        }
        if cache.contains(&k) {
            out.push(k);
        }
        i = i + 1;
    }
    proof {
        assert(visible@.take(visible@.len() as int) =~= visible@);
    }
    out
}

/// One row of the visible rectangle: the columns from min_x to max_x,
/// each wrapped into the world, at the given row and zoom.
pub open spec fn spec_tile_row(min_x: int, max_x: int, y: u32, z: u8) -> Seq<TileId> {
    Seq::new(
        if max_x < min_x {
            0
        } else {
            (max_x - min_x + 1) as nat
        },
        |j: int|
            TileId {
                x: ((min_x + j) % (pow2(z as nat) as int)) as u32,
                y,
                z,
            },
    )
}

/// The visible rectangle, row-major: the rows from min_y to max_y that
/// exist at the zoom level, each enumerated left to right with wrapped
/// columns.
pub open spec fn spec_tile_rect(min_x: int, max_x: int, min_y: int, max_y: int, z: u8) -> Seq<
    TileId,
>
    decreases max_y - min_y + 1,
{
    if min_y > max_y {
        Seq::empty()
    } else if 0 <= min_y < pow2(z as nat) {
        spec_tile_row(min_x, max_x, min_y as u32, z) + spec_tile_rect(
            min_x,
            max_x,
            min_y + 1,
            max_y,
            z,
        )
    } else {
        spec_tile_rect(min_x, max_x, min_y + 1, max_y, z)
    }
}

proof fn lemma_tile_rect_append(min_x: int, max_x: int, min_y: int, max_y: int, z: u8)
    requires
        min_y <= max_y + 1,
    ensures
        0 <= max_y + 1 < pow2(z as nat) ==> spec_tile_rect(min_x, max_x, min_y, max_y + 1, z)
            =~= spec_tile_rect(min_x, max_x, min_y, max_y, z) + spec_tile_row(
            min_x,
            max_x,
            (max_y + 1) as u32,
            z,
        ),
        !(0 <= max_y + 1 < pow2(z as nat)) ==> spec_tile_rect(min_x, max_x, min_y, max_y + 1, z)
            =~= spec_tile_rect(min_x, max_x, min_y, max_y, z),
    decreases max_y + 1 - min_y,
{
    if min_y > max_y {
        assert(spec_tile_rect(min_x, max_x, min_y + 1, max_y + 1, z) =~= Seq::<TileId>::empty());
        assert(spec_tile_rect(min_x, max_x, min_y, max_y, z) =~= Seq::<TileId>::empty());
        if 0 <= min_y < pow2(z as nat) {
            assert(spec_tile_rect(min_x, max_x, min_y, max_y + 1, z) == spec_tile_row(
                min_x,
                max_x,
                min_y as u32,
                z,
            ) + spec_tile_rect(min_x, max_x, min_y + 1, max_y + 1, z));
        }
    } else {
        lemma_tile_rect_append(min_x, max_x, min_y + 1, max_y, z);
        if 0 <= min_y < pow2(z as nat) {
            let row = spec_tile_row(min_x, max_x, min_y as u32, z);
            if 0 <= max_y + 1 < pow2(z as nat) {
                assert(row + (spec_tile_rect(min_x, max_x, min_y + 1, max_y, z) + spec_tile_row(
                    min_x,
                    max_x,
                    (max_y + 1) as u32,
                    z,
                )) =~= (row + spec_tile_rect(min_x, max_x, min_y + 1, max_y, z)) + spec_tile_row(
                    min_x,
                    max_x,
                    (max_y + 1) as u32,
                    z,
                ));
            }
        }
    }
}

proof fn lemma_tile_row_unique(min_x: int, max_x: int, y: u32, z: u8)
    requires
        crate::tile::valid_zoom(z),
        max_x - min_x < pow2(z as nat),
    ensures
        ({
            let row = spec_tile_row(min_x, max_x, y, z);
            forall|a: int, b: int| 0 <= a < b < row.len() ==> row[a] != row[b]
        }),
{
    let row = spec_tile_row(min_x, max_x, y, z);
    let n = pow2(z as nat) as int;
    vstd::arithmetic::power2::lemma_pow2_pos(z as nat);
    vstd::arithmetic::power2::lemma2_to64();
    vstd::arithmetic::power2::lemma_pow2_strictly_increases(z as nat, 32);
    assert forall|a: int, b: int| 0 <= a < b < row.len() implies row[a] != row[b] by {
        let ra = (min_x + a) % n;
        let rb = (min_x + b) % n;
        assert(row[a].x as int == ra && row[b].x as int == rb);
        if ra == rb {
            vstd::arithmetic::div_mod::lemma_fundamental_div_mod(min_x + a, n);
            vstd::arithmetic::div_mod::lemma_fundamental_div_mod(min_x + b, n);
            let qa = (min_x + a) / n;
            let qb = (min_x + b) / n;
            assert(b - a == n * (qb - qa)) by (nonlinear_arith)
                requires
                    min_x + a == n * qa + ra,
                    min_x + b == n * qb + rb,
                    ra == rb,
            ;
            assert(false) by (nonlinear_arith)
                requires
                    b - a == n * (qb - qa),
                    0 < b - a < n,
            ;
        }
    }
}

/// The visible-tile list never repeats a key: wrapped columns stay
/// distinct as long as the rectangle is no wider than the world, and the
/// row filter keeps every row distinct.
pub proof fn lemma_tile_rect_unique(min_x: int, max_x: int, min_y: int, max_y: int, z: u8)
    requires
        crate::tile::valid_zoom(z),
        max_x - min_x < pow2(z as nat),
    ensures
        ({
            let rect = spec_tile_rect(min_x, max_x, min_y, max_y, z);
            forall|a: int, b: int| 0 <= a < b < rect.len() ==> rect[a] != rect[b]
        }),
    decreases max_y - min_y + 1,
{
    let rect = spec_tile_rect(min_x, max_x, min_y, max_y, z);
    if min_y > max_y {
    } else {
        lemma_tile_rect_unique(min_x, max_x, min_y + 1, max_y, z);
        lemma_tile_rect_row_floor(min_x, max_x, min_y + 1, max_y, z);
        let rest = spec_tile_rect(min_x, max_x, min_y + 1, max_y, z);
        if 0 <= min_y < pow2(z as nat) {
            lemma_tile_row_unique(min_x, max_x, min_y as u32, z);
            let row = spec_tile_row(min_x, max_x, min_y as u32, z);
            assert(rect == row + rest);
            assert forall|a: int, b: int| 0 <= a < b < rect.len() implies rect[a] != rect[b] by {
                if a < row.len() && b >= row.len() {
                    assert(rect[a] == row[a] && rect[b] == rest[b - row.len()]);
                    assert(rect[a].y == min_y as u32);
                    assert(rest[b - row.len()].y as int > min_y);
                }
            }
        }
    }
}

/// Every key in the rectangle below a floor row sits at or below that
/// floor, and within the world's rows.
proof fn lemma_tile_rect_row_floor(min_x: int, max_x: int, min_y: int, max_y: int, z: u8)
    requires
        crate::tile::valid_zoom(z),
    ensures
        ({
            let rect = spec_tile_rect(min_x, max_x, min_y, max_y, z);
            forall|i: int|
                0 <= i < rect.len() ==> min_y <= (#[trigger] rect[i]).y as int
                    && ((rect[i].y as int) < pow2(z as nat))
        }),
    decreases max_y - min_y + 1,
{
    let rect = spec_tile_rect(min_x, max_x, min_y, max_y, z);
    vstd::arithmetic::power2::lemma2_to64();
    vstd::arithmetic::power2::lemma_pow2_strictly_increases(z as nat, 32);
    if min_y > max_y {
    } else {
        lemma_tile_rect_row_floor(min_x, max_x, min_y + 1, max_y, z);
        let rest = spec_tile_rect(min_x, max_x, min_y + 1, max_y, z);
        if 0 <= min_y < pow2(z as nat) {
            let row = spec_tile_row(min_x, max_x, min_y as u32, z);
            assert(rect == row + rest);
            assert forall|i: int|
                0 <= i < rect.len() implies min_y <= (#[trigger] rect[i]).y as int && ((
            rect[i].y as int) < pow2(z as nat)) by {
                if i < row.len() {
                    assert(rect[i] == row[i]);
                } else {
                    assert(rect[i] == rest[i - row.len()]);
                }
            }
        } else {
            assert forall|i: int|
                0 <= i < rect.len() implies min_y <= (#[trigger] rect[i]).y as int && ((
            rect[i].y as int) < pow2(z as nat)) by {
                assert(rect[i] == rest[i]);
            }
        }
    }
}

/// Enumerate the tiles of a camera rectangle, row-major: rows that fall
/// off the top or bottom of the world are skipped, and columns wrap
/// around the antimeridian.
pub fn tiles_in_rect(min_x: i32, max_x: i32, min_y: i32, max_y: i32, zoom: u8) -> (r: Vec<TileId>)
    requires
        crate::tile::valid_zoom(zoom),
    ensures
        r@ =~= spec_tile_rect(min_x as int, max_x as int, min_y as int, max_y as int, zoom),
{
    let mut out: Vec<TileId> = Vec::new();
    let mut ty: i64 = min_y as i64;
    proof {
        assert(spec_tile_rect(min_x as int, max_x as int, min_y as int, min_y as int - 1, zoom)
            =~= Seq::<TileId>::empty());
    }
    while ty <= max_y as i64
        invariant
            crate::tile::valid_zoom(zoom),
            min_y as i64 <= ty,
            ty <= max_y as i64 + 1 || ty == min_y as i64,
            out@ =~= spec_tile_rect(min_x as int, max_x as int, min_y as int, ty - 1, zoom),
        decreases max_y as i64 - ty + 1,
    {
        proof {
            lemma_tile_rect_append(min_x as int, max_x as int, min_y as int, ty - 1, zoom);
        }
        if crate::tile::is_valid_tile_y(ty as i32, zoom) {
            let y: u32 = ty as u32;
            let ghost row = spec_tile_row(min_x as int, max_x as int, y, zoom);
            let ghost before = out@;
            let mut tx: i64 = min_x as i64;
            while tx <= max_x as i64
                invariant
                    crate::tile::valid_zoom(zoom),
                    min_x as i64 <= tx,
                    tx <= max_x as i64 + 1 || tx == min_x as i64,
                    row == spec_tile_row(min_x as int, max_x as int, y, zoom),
                    out@ =~= before + row.take(tx - min_x as int),
                decreases max_x as i64 - tx + 1,
            {
                let wrapped: u32 = crate::tile::wrap_tile_x(tx as i32, zoom);
                out.push(TileId { x: wrapped, y, z: zoom });
                proof {
                    assert(row[tx - min_x as int] == (TileId { x: wrapped, y, z: zoom }));
                    assert(before + row.take(tx - min_x as int + 1) =~= (before + row.take(
                        tx - min_x as int,
                    )).push(row[tx - min_x as int]));
                }
                tx = tx + 1;
            }
            proof {
                assert(row.take(if (max_x as int) < min_x as int {
                    0int
                } else {
                    max_x as int - min_x as int + 1
                }) =~= row);
            }
        }
        ty = ty + 1;
    }
    out
}

/// What requesting a run of visible keys does to the loader: every key
/// that is neither resident nor pending becomes pending and is
/// dispatched once; the rest are left alone.  The first component is
/// the final pending set, the second the dispatched keys in order.
pub open spec fn spec_request_missing<R>(
    cache: Seq<(TileId, CachedTile<R>)>,
    pending: Seq<TileId>,
    visible: Seq<TileId>,
) -> (Seq<TileId>, Seq<TileId>)
    decreases visible.len(),
{
    if visible.len() == 0 {
        (pending, Seq::empty())
    } else {
        let k = visible[0];
        if has_key(cache, k) || pending.contains(k) {
            spec_request_missing(cache, pending, visible.drop_first())
        } else {
            let rec = spec_request_missing(cache, pending.push(k), visible.drop_first());
            (rec.0, seq![k] + rec.1)
        }
    }
}

proof fn lemma_request_missing_push<R>(
    cache: Seq<(TileId, CachedTile<R>)>,
    pending: Seq<TileId>,
    visible: Seq<TileId>,
    k: TileId,
)
    ensures
        ({
            let cur = spec_request_missing(cache, pending, visible);
            let nxt = spec_request_missing(cache, pending, visible.push(k));
            if has_key(cache, k) || cur.0.contains(k) {
                nxt.0 =~= cur.0 && nxt.1 =~= cur.1
            } else {
                nxt.0 =~= cur.0.push(k) && nxt.1 =~= cur.1.push(k)
            }
        }),
    decreases visible.len(),
{
    let cur = spec_request_missing(cache, pending, visible);
    let vp = visible.push(k);
    let nxt = spec_request_missing(cache, pending, vp);
    if visible.len() == 0 {
        assert(cur == (pending, Seq::<TileId>::empty()));
        assert(vp[0] == k);
        assert(vp.drop_first() =~= Seq::<TileId>::empty());
        if has_key(cache, k) || pending.contains(k) {
            assert(nxt == spec_request_missing(cache, pending, vp.drop_first()));
            assert(spec_request_missing(cache, pending, vp.drop_first()) == (
                pending,
                Seq::<TileId>::empty(),
            ));
        } else {
            let rec = spec_request_missing(cache, pending.push(k), vp.drop_first());
            assert(rec == (pending.push(k), Seq::<TileId>::empty()));
            assert(nxt == (rec.0, seq![k] + rec.1));
            assert(seq![k] + rec.1 =~= seq![k]);
            assert(cur.1.push(k) =~= seq![k]);
        }
    } else {
        let v0 = visible[0];
        assert(vp[0] == v0);
        assert(vp.drop_first() =~= visible.drop_first().push(k));
        if has_key(cache, v0) || pending.contains(v0) {
            lemma_request_missing_push(cache, pending, visible.drop_first(), k);
            assert(cur == spec_request_missing(cache, pending, visible.drop_first()));
            assert(nxt == spec_request_missing(cache, pending, vp.drop_first()));
            assert(spec_request_missing(cache, pending, vp.drop_first())
                == spec_request_missing(cache, pending, visible.drop_first().push(k)));
        } else {
            let rec = spec_request_missing(cache, pending.push(v0), visible.drop_first());
            lemma_request_missing_push(cache, pending.push(v0), visible.drop_first(), k);
            let recn = spec_request_missing(
                cache,
                pending.push(v0),
                visible.drop_first().push(k),
            );
            assert(cur == (rec.0, seq![v0] + rec.1));
            assert(spec_request_missing(cache, pending, vp) == (
                spec_request_missing(cache, pending.push(v0), vp.drop_first()).0,
                seq![v0] + spec_request_missing(cache, pending.push(v0), vp.drop_first()).1,
            ));
            assert(spec_request_missing(cache, pending.push(v0), vp.drop_first()) == recn);
            if !(has_key(cache, k) || rec.0.contains(k)) {
                assert(recn.0 =~= rec.0.push(k));
                assert(recn.1 =~= rec.1.push(k));
                assert(seq![v0] + rec.1.push(k) =~= (seq![v0] + rec.1).push(k));
            } else {
                assert(recn.0 =~= rec.0);
                assert(recn.1 =~= rec.1);
            }
        }
    }
}

/// Request every visible tile that is neither cache-resident nor already
/// being fetched.  Hands back, in order, each newly dispatched key with
/// the URL the host must fetch for it.
pub fn request_missing<R>(
    visible: &Vec<TileId>,
    cache: &TileCache<R>,
    loader: &mut TileLoader,
) -> (r: Vec<(TileId, String)>)
    requires
        old(loader).wf(),
    ensures
        final(loader).wf(),
        final(loader).spec_user_agent() == old(loader).spec_user_agent(),
        final(loader)@ =~= spec_request_missing(cache@, old(loader)@, visible@).0,
        r@.map_values(|p: (TileId, String)| p.0) =~= spec_request_missing(
            cache@,
            old(loader)@,
            visible@,
        ).1,
        forall|i: int|
            0 <= i < r@.len() ==> (#[trigger] r@[i]).1@ == spec_osm_url(
                r@[i].0.z as int,
                r@[i].0.x as int,
                r@[i].0.y as int,
            ),
{
    let mut out: Vec<(TileId, String)> = Vec::new();
    let mut i: usize = 0;
    while i < visible.len()
        invariant
            i <= visible.len(),
            loader.wf(),
            loader.spec_user_agent() == old(loader).spec_user_agent(),
            loader@ =~= spec_request_missing(cache@, old(loader)@, visible@.take(i as int)).0,
            out@.map_values(|p: (TileId, String)| p.0) =~= spec_request_missing(
                cache@,
                old(loader)@,
                visible@.take(i as int),
            ).1,
            forall|j: int|
                0 <= j < out@.len() ==> (#[trigger] out@[j]).1@ == spec_osm_url(
                    out@[j].0.z as int,
                    out@[j].0.x as int,
                    out@[j].0.y as int,
                ),
        decreases visible.len() - i,
    {
        let k: TileId = visible[i];
        proof {
            assert(visible@.take(i as int).push(k) =~= visible@.take(i as int + 1));
            lemma_request_missing_push(cache@, old(loader)@, visible@.take(i as int), k);
        }
        if !cache.contains(&k) {
            let ghost before = out@;
            match loader.request(k) {
                Some(url) => {
                    out.push((k, url));
                    proof {
                        assert(out@.map_values(|p: (TileId, String)| p.0) =~= before.map_values(
                            |p: (TileId, String)| p.0,
                        ).push(k));
                    }
                },
                None => {},
            }
        }
        i = i + 1;
    }
    proof {
        assert(visible@.take(visible@.len() as int) =~= visible@);
    }
    out
}

} // verus!
