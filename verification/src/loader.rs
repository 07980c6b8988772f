//! Tile loader bookkeeping and tile image decoding.
//!
//! The loader issues at most one outstanding fetch per tile key.  The
//! network work itself is the host's: `request` hands back the URL to
//! fetch when a key is newly pending, and `poll` is fed whatever result
//! the host's fetch context has delivered, striking the key off the
//! pending set exactly when its terminal result is observed.

use vstd::prelude::*;
use crate::tile::TileId;
use crate::tile::spec_osm_url;

verus! {

/// Result of a tile load operation: the raw body bytes on success, or a
/// human-readable reason on failure.
#[derive(Debug)]
pub enum TileLoadResult {
    Success(TileId, Vec<u8>),
    Failed(TileId, String),
}

/// The tile a load result is about.
pub open spec fn result_key(r: TileLoadResult) -> TileId {
    match r {
        TileLoadResult::Success(id, _) => id,
        TileLoadResult::Failed(id, _) => id,
    }
}

/// A request transition: an already-pending key changes nothing and
/// dispatches nothing; a new key becomes pending and is dispatched.
pub open spec fn spec_request(pending: Seq<TileId>, k: TileId) -> (Seq<TileId>, bool) {
    if pending.contains(k) {
        (pending, false)
    } else {
        (pending.push(k), true)
    }
}

/// The pending set after a terminal result for a key is observed.
pub open spec fn remove_id(s: Seq<TileId>, k: TileId) -> Seq<TileId>
    decreases s.len(),
{
    if s.len() == 0 {
        Seq::empty()
    } else if s[0] == k {
        remove_id(s.drop_first(), k)
    } else {
        seq![s[0]] + remove_id(s.drop_first(), k)
    }
}

proof fn lemma_remove_id_absent(s: Seq<TileId>, k: TileId)
    requires
        !s.contains(k),
    ensures
        remove_id(s, k) =~= s,
    decreases s.len(),
{
    if s.len() > 0 {
        assert(s[0] != k);
        assert(!s.drop_first().contains(k)) by {
            assert(forall|i: int|
                0 <= i < s.drop_first().len() ==> #[trigger] s.drop_first()[i] == s[i + 1]);
        }
        lemma_remove_id_absent(s.drop_first(), k);
        assert(seq![s[0]] + s.drop_first() =~= s);
    }
}

proof fn lemma_remove_id_no_key(s: Seq<TileId>, k: TileId)
    ensures
        !remove_id(s, k).contains(k),
        remove_id(s, k).len() <= s.len(),
    decreases s.len(),
{
    if s.len() > 0 {
        lemma_remove_id_no_key(s.drop_first(), k);
        if s[0] != k {
            let r = seq![s[0]] + remove_id(s.drop_first(), k);
            assert(forall|i: int|
                1 <= i < r.len() ==> r[i] == remove_id(s.drop_first(), k)[i - 1]);
        }
    }
}

proof fn lemma_remove_id_at(s: Seq<TileId>, i: int)
    requires
        forall|a: int, b: int| 0 <= a < b < s.len() ==> s[a] != s[b],
        0 <= i < s.len(),
    ensures
        s.remove(i) =~= remove_id(s, s[i]),
    decreases s.len(),
{
    let k = s[i];
    if i == 0 {
        assert(s.remove(0) =~= s.drop_first());
        assert(!s.drop_first().contains(k)) by {
            assert(forall|j: int|
                0 <= j < s.drop_first().len() ==> #[trigger] s.drop_first()[j] == s[j + 1]);
        }
        lemma_remove_id_absent(s.drop_first(), k);
    } else {
        assert(s[0] != k);
        assert(forall|a: int, b: int|
            0 <= a < b < s.drop_first().len() ==> #[trigger] s.drop_first()[a] != #[trigger] s.drop_first()[b])
            by {
            assert(forall|j: int|
                0 <= j < s.drop_first().len() ==> #[trigger] s.drop_first()[j] == s[j + 1]);
        }
        assert(s.drop_first()[i - 1] == s[i]);
        lemma_remove_id_at(s.drop_first(), i - 1);
        assert(s.remove(i) =~= seq![s[0]] + s.drop_first().remove(i - 1));
    }
}

proof fn lemma_remove_id_unique(s: Seq<TileId>, k: TileId)
    requires
        forall|a: int, b: int| 0 <= a < b < s.len() ==> s[a] != s[b],
    ensures
        forall|a: int, b: int|
            0 <= a < b < remove_id(s, k).len() ==> remove_id(s, k)[a] != remove_id(s, k)[b],
        forall|j: int|
            0 <= j < remove_id(s, k).len() ==> s.contains(#[trigger] remove_id(s, k)[j]),
    decreases s.len(),
{
    if s.len() > 0 {
        assert(forall|j: int|
            0 <= j < s.drop_first().len() ==> #[trigger] s.drop_first()[j] == s[j + 1]);
        lemma_remove_id_unique(s.drop_first(), k);
        if s[0] != k {
            let rest = remove_id(s.drop_first(), k);
            let r = seq![s[0]] + rest;
            assert(forall|i: int| 1 <= i < r.len() ==> r[i] == rest[i - 1]);
            assert forall|a: int, b: int| 0 <= a < b < r.len() implies r[a] != r[b] by {
                if a == 0 {
                    assert(s.drop_first().contains(r[b]));
                    let v = choose|v: int|
                        0 <= v < s.drop_first().len() && s.drop_first()[v] == r[b];
                    assert(s[v + 1] == r[b]);
                }
            }
            assert forall|j: int| 0 <= j < r.len() implies s.contains(r[j]) by {
                if j == 0 {
                    assert(s[0] == r[0]);
                } else {
                    assert(s.drop_first().contains(r[j]));
                    let v = choose|v: int|
                        0 <= v < s.drop_first().len() && s.drop_first()[v] == r[j];
                    assert(s[v + 1] == r[j]);
                }
            }
        } else {
            let rest = remove_id(s.drop_first(), k);
            assert(remove_id(s, k) == rest);
            assert forall|a: int, b: int|
                0 <= a < b < remove_id(s, k).len() implies remove_id(s, k)[a] != remove_id(
                s,
                k,
            )[b] by {
                assert(rest[a] != rest[b]);
            }
            assert forall|j: int| 0 <= j < remove_id(s, k).len() implies s.contains(
                #[trigger] remove_id(s, k)[j],
            ) by {
                let t = rest[j];
                assert(s.drop_first().contains(t));
                let v = choose|v: int|
                    0 <= v < s.drop_first().len() && s.drop_first()[v] == t;
                assert(s[v + 1] == t);
            }
        }
    }
}

/// Tile loader bookkeeping: the set of keys with an outstanding fetch,
/// and the client identifier the host should send with each fetch.
pub struct TileLoader {
    pending: Vec<TileId>,
    pub user_agent: String,
}

impl View for TileLoader {
    type V = Seq<TileId>;

    closed spec fn view(&self) -> Seq<TileId> {
        self.pending@
    }
}

impl TileLoader {
    /// The client identifier the host sends with each fetch.
    pub closed spec fn spec_user_agent(&self) -> Seq<char> {
        self.user_agent@
    }

    /// No key is pending twice.
    pub closed spec fn wf(&self) -> bool {
        forall|a: int, b: int| 0 <= a < b < self.pending@.len() ==> self.pending@[a]
            != self.pending@[b]
    }

    /// Create a loader that identifies itself with the given client string.
    pub fn new(user_agent: &str) -> (r: Self)
        ensures
            r.wf(),
            r@ =~= Seq::<TileId>::empty(),
            r.spec_user_agent() == user_agent@,
    {
        Self { pending: Vec::new(), user_agent: String::from_str(user_agent) }
    }

    fn pending_index(&self, tile_id: &TileId) -> (r: Option<usize>)
        ensures
            r matches Some(i) ==> i < self@.len() && self@[i as int] == *tile_id,
            r is None ==> !self@.contains(*tile_id),
    {
        let mut i: usize = 0;
        while i < self.pending.len()
            invariant
                i <= self.pending.len(),
                forall|j: int| 0 <= j < i ==> self.pending@[j] != *tile_id,
            decreases self.pending.len() - i,
        {
            if self.pending[i] == *tile_id {
                return Some(i);
            }
            i = i + 1;
        }
        None
    }

    /// Ask for a tile.  A key already pending is left alone and nothing
    /// is dispatched; otherwise the key becomes pending at once and the
    /// URL to fetch is handed back for the host to dispatch.
    pub fn request(&mut self, tile_id: TileId) -> (r: Option<String>)
        requires
            old(self).wf(),
        ensures
            final(self).wf(),
            final(self).spec_user_agent() == old(self).spec_user_agent(),
            final(self)@ =~= spec_request(old(self)@, tile_id).0,
            r is Some <==> spec_request(old(self)@, tile_id).1,
            r matches Some(u) ==> u@ == spec_osm_url(
                tile_id.z as int,
                tile_id.x as int,
                tile_id.y as int,
            ),
    {
        match self.pending_index(&tile_id) {
            Some(_) => None,
            None => {
                self.pending.push(tile_id);
                Some(tile_id.to_osm_url())
            },
        }
    }

    /// Observe at most one completed fetch.  Fed a terminal result, the
    /// result's key stops being pending — whether or not it was — and
    /// the result is passed through; fed nothing, nothing changes.
    pub fn poll(&mut self, arrival: Option<TileLoadResult>) -> (r: Option<TileLoadResult>)
        requires
            old(self).wf(),
        ensures
            final(self).wf(),
            final(self).spec_user_agent() == old(self).spec_user_agent(),
            arrival is None ==> final(self)@ == old(self)@ && r is None,
            arrival matches Some(res) ==> final(self)@ =~= remove_id(
                old(self)@,
                result_key(res),
            ) && r == arrival,
    {
        match arrival {
            None => None,
            Some(res) => {
                let id: TileId = match &res {
                    TileLoadResult::Success(id, _) => *id,
                    TileLoadResult::Failed(id, _) => *id,
                };
                match self.pending_index(&id) {
                    Some(i) => {
                        proof {
                            lemma_remove_id_at(self@, i as int);
                            lemma_remove_id_unique(self@, id);
                        }
                        self.pending.remove(i);
                    },
                    None => {
                        proof {
                            lemma_remove_id_absent(self@, id);
                        }
                    },
                }
                Some(res)
            },
        }
    }

    /// Whether a key has an outstanding fetch.
    pub fn is_loading(&self, tile_id: &TileId) -> (r: bool)
        ensures
            r == self@.contains(*tile_id),
    {
        match self.pending_index(tile_id) {
            Some(_) => true,
            None => false,
        }
    }

    /// How many keys have an outstanding fetch.
    pub fn pending_count(&self) -> (r: usize)
        ensures
            r == self@.len(),
    {
        self.pending.len()
    }

    /// Forget all pending bookkeeping.  Fetches already in flight still
    /// complete and still surface through `poll`; they are only no
    /// longer counted, and their keys may be requested anew.
    pub fn clear_pending(&mut self)
        ensures
            final(self).wf(),
            final(self)@ =~= Seq::<TileId>::empty(),
            final(self).spec_user_agent() == old(self).spec_user_agent(),
    {
        self.pending.clear();
    }
}

impl Default for TileLoader {
    /// A loader with the project's default client identifier.
    fn default() -> (r: Self)
        ensures
            r.wf(),
            r@ =~= Seq::<TileId>::empty(),
            r.spec_user_agent() == "CPlace/0.1 (https://github.com/antegral/cplace)"@,
    {
        Self::new("CPlace/0.1 (https://github.com/antegral/cplace)")
    }
}

#[verifier::external_type_specification]
#[verifier::external_body]
pub struct ExImageError(image::ImageError);

/// What the image codec makes of a byte string: the width, height and
/// raw RGBA8 pixel buffer of the decoded raster, or nothing when the
/// bytes are not a decodable image.  Decoding depends on the bytes alone.
pub uninterp spec fn rgba_decode_of(data: Seq<u8>) -> Option<(u32, u32, Seq<u8>)>;

/// Relies on image::load_from_memory and DynamicImage::to_rgba8:
/// decoding is a pure function of the bytes, and an RGBA8 buffer holds
/// exactly width * height * 4 bytes.
#[verifier::external_body]
pub fn decode_tile_image(data: &[u8]) -> (r: Result<(u32, u32, Vec<u8>), image::ImageError>)
    ensures
        r is Ok <==> rgba_decode_of(data@) is Some,
        r matches Ok(t) ==> rgba_decode_of(data@) == Some((t.0, t.1, t.2@)) && t.2@.len() == 4
            * (t.0 as nat) * (t.1 as nat),
{
    let img = image::load_from_memory(data)?;
    let rgba = img.to_rgba8();
    let (w, h) = rgba.dimensions();
    Ok((w, h, rgba.into_raw()))
}

/// Relies on ImageError's Display implementation for a human-readable
/// failure reason.
#[verifier::external_body]
fn image_error_message(e: &image::ImageError) -> (r: String) {
    e.to_string()
}

/// A decoded tile image: raw RGBA8 pixels, four bytes per pixel.
pub struct TileRaster {
    pub width: u32,
    pub height: u32,
    pub pixels: Vec<u8>,
}

impl TileRaster {
    /// The pixel buffer holds exactly four bytes for every pixel.
    pub open spec fn wf(&self) -> bool {
        self.pixels@.len() == 4 * (self.width as nat) * (self.height as nat)
    }
}

/// Decode fetched tile bytes into an RGBA8 raster.  Succeeds exactly
/// when the bytes decode, and hands back the codec's reason otherwise.
pub fn decode_raster(data: &Vec<u8>) -> (r: Result<TileRaster, String>)
    ensures
        r is Ok <==> rgba_decode_of(data@) is Some,
        r matches Ok(t) ==> rgba_decode_of(data@) == Some((t.width, t.height, t.pixels@))
            && t.wf(),
{
    match decode_tile_image(data.as_slice()) {
        Ok(t) => Ok(TileRaster { width: t.0, height: t.1, pixels: t.2 }),
        Err(e) => Err(image_error_message(&e)),
    }
}

/// Memory footprint of a tile texture: four bytes (RGBA8) per pixel.
pub fn tile_memory_size(width: u32, height: u32) -> (r: usize)
    requires
        4 * (width as int) * (height as int) <= usize::MAX as int,
    ensures
        r as int == 4 * (width as int) * (height as int),
{
    proof {
        assert((width as int) * (height as int) <= 4 * (width as int) * (height as int))
            by (nonlinear_arith)
            requires
                0 <= width as int,
                0 <= height as int,
        ;
        assert((width as int) * (height as int) * 4 == 4 * (width as int) * (height as int))
            by (nonlinear_arith);
    }
    (width as usize) * (height as usize) * 4
}

/// Memory footprint of a decoded raster; its buffer already fits memory,
/// so no overflow check is needed.
pub fn raster_memory_size(t: &TileRaster) -> (r: usize)
    requires
        t.wf(),
    ensures
        r as int == 4 * (t.width as int) * (t.height as int),
{
    t.pixels.len()
}

/// Requesting a key that a request just made pending dispatches nothing
/// and changes nothing: at most one fetch per key is ever outstanding.
pub proof fn lemma_request_dedup(pending: Seq<TileId>, k: TileId)
    ensures
        spec_request(spec_request(pending, k).0, k).0 == spec_request(pending, k).0,
        !spec_request(spec_request(pending, k).0, k).1,
{
    let p1 = spec_request(pending, k).0;
    if pending.contains(k) {
        assert(p1.contains(k));
    } else {
        assert(p1[p1.len() - 1] == k);
        assert(p1.contains(k));
    }
}

/// After a terminal result for a key is observed, the key is no longer
/// loading, and a fresh request for it is accepted, not deduplicated.
pub proof fn lemma_poll_then_request(pending: Seq<TileId>, k: TileId)
    ensures
        !remove_id(pending, k).contains(k),
        spec_request(remove_id(pending, k), k).1,
{
    lemma_remove_id_no_key(pending, k);
}

} // verus!
