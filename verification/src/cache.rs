//! LRU tile cache, bounded both by entry count and by total memory.
//!
//! The cache owns its entries.  Each entry couples a tile key with an
//! opaque resource (for a GPU host, a texture handle), a byte-size
//! estimate, and a creation timestamp supplied by the host.  Entries are
//! kept oldest-first; a recency-updating read or an insert moves the
//! touched key to the newest end, and eviction always removes the oldest.

use vstd::prelude::*;
use crate::tile::TileId;

verus! {

/// A cache-resident tile: an opaque resource handle, the estimated size
/// of that resource in bytes, and a creation time in milliseconds as the
/// host counts it.
pub struct CachedTile<R> {
    pub resource: R,
    pub memory_size: usize,
    pub created_at: u64,
}

/// The keys of a run of entries, in order.
pub open spec fn keys_of<R>(s: Seq<(TileId, CachedTile<R>)>) -> Seq<TileId> {
    s.map_values(|p: (TileId, CachedTile<R>)| p.0)
}

/// Whether some entry of a run carries the key.
pub open spec fn has_key<R>(s: Seq<(TileId, CachedTile<R>)>, k: TileId) -> bool {
    exists|i: int| 0 <= i < s.len() && s[i].0 == k
}

/// The position of the entry carrying a key.
pub open spec fn key_index<R>(s: Seq<(TileId, CachedTile<R>)>, k: TileId) -> int {
    choose|i: int| 0 <= i < s.len() && s[i].0 == k
}

/// The entry stored under a key.
pub open spec fn entry_of<R>(s: Seq<(TileId, CachedTile<R>)>, k: TileId) -> CachedTile<R> {
    s[key_index(s, k)].1
}

/// Total memory of a run of entries.
pub open spec fn mem_of<R>(s: Seq<(TileId, CachedTile<R>)>) -> int
    decreases s.len(),
{
    if s.len() == 0 {
        0
    } else {
        s[0].1.memory_size + mem_of(s.drop_first())
    }
}

/// No key occurs twice.
pub open spec fn unique_keys<R>(s: Seq<(TileId, CachedTile<R>)>) -> bool {
    forall|i: int, j: int| 0 <= i < j < s.len() ==> s[i].0 != s[j].0
}

/// The run left after dropping every entry carrying a key.
pub open spec fn remove_key<R>(s: Seq<(TileId, CachedTile<R>)>, k: TileId) -> Seq<
    (TileId, CachedTile<R>),
>
    decreases s.len(),
{
    if s.len() == 0 {
        Seq::empty()
    } else if s[0].0 == k {
        remove_key(s.drop_first(), k)
    } else {
        seq![s[0]] + remove_key(s.drop_first(), k)
    }
}

/// Oldest-first eviction until an entry of the given size fits within
/// both budgets, or nothing is left to evict.
pub open spec fn evict_for<R>(
    s: Seq<(TileId, CachedTile<R>)>,
    size: int,
    max_tiles: int,
    max_memory: int,
) -> Seq<(TileId, CachedTile<R>)>
    decreases s.len(),
{
    if s.len() > 0 && (s.len() >= max_tiles || mem_of(s) + size > max_memory) {
        evict_for(s.drop_first(), size, max_tiles, max_memory)
    } else {
        s
    }
}

/// What the cache holds after inserting an entry: evict until the entry
/// fits, drop any entry already under the key, append as newest.
pub open spec fn spec_insert<R>(
    s: Seq<(TileId, CachedTile<R>)>,
    k: TileId,
    e: CachedTile<R>,
    max_tiles: int,
    max_memory: int,
) -> Seq<(TileId, CachedTile<R>)> {
    remove_key(evict_for(s, e.memory_size as int, max_tiles, max_memory), k).push((k, e))
}

proof fn lemma_mem_of_nonneg<R>(s: Seq<(TileId, CachedTile<R>)>)
    ensures
        mem_of(s) >= 0,
    decreases s.len(),
{
    if s.len() > 0 {
        lemma_mem_of_nonneg(s.drop_first());
    }
}

proof fn lemma_mem_of_push<R>(s: Seq<(TileId, CachedTile<R>)>, p: (TileId, CachedTile<R>))
    ensures
        mem_of(s.push(p)) == mem_of(s) + p.1.memory_size,
    decreases s.len(),
{
    assert(s.push(p)[s.len() as int] == p);
    if s.len() == 0 {
        assert(s.push(p).drop_first() =~= Seq::<(TileId, CachedTile<R>)>::empty());
        assert(mem_of(s.push(p).drop_first()) == 0);
        assert(mem_of(s.push(p)) == s.push(p)[0].1.memory_size + mem_of(s.push(p).drop_first()));
    } else {
        assert(s.push(p).drop_first() =~= s.drop_first().push(p));
        lemma_mem_of_push(s.drop_first(), p);
        assert(s.push(p)[0] == s[0]);
    }
}

proof fn lemma_mem_of_remove<R>(s: Seq<(TileId, CachedTile<R>)>, i: int)
    requires
        0 <= i < s.len(),
    ensures
        mem_of(s.remove(i)) == mem_of(s) - s[i].1.memory_size,
    decreases s.len(),
{
    if i == 0 {
        assert(s.remove(0) =~= s.drop_first());
    } else {
        assert(s.remove(i).drop_first() =~= s.drop_first().remove(i - 1));
        lemma_mem_of_remove(s.drop_first(), i - 1);
    }
}

proof fn lemma_remove_key_absent<R>(s: Seq<(TileId, CachedTile<R>)>, k: TileId)
    requires
        !has_key(s, k),
    ensures
        remove_key(s, k) =~= s,
    decreases s.len(),
{
    if s.len() > 0 {
        assert(s[0].0 != k);
        assert(!has_key(s.drop_first(), k)) by {
            assert(forall|i: int|
                0 <= i < s.drop_first().len() ==> s.drop_first()[i] == s[i + 1]);
        }
        lemma_remove_key_absent(s.drop_first(), k);
        assert(remove_key(s, k) =~= seq![s[0]] + s.drop_first());
        assert(seq![s[0]] + s.drop_first() =~= s);
    }
}

proof fn lemma_remove_at_key<R>(s: Seq<(TileId, CachedTile<R>)>, i: int)
    requires
        unique_keys(s),
        0 <= i < s.len(),
    ensures
        s.remove(i) =~= remove_key(s, s[i].0),
    decreases s.len(),
{
    let k = s[i].0;
    if i == 0 {
        assert(s.remove(0) =~= s.drop_first());
        assert(!has_key(s.drop_first(), k)) by {
            assert(forall|j: int|
                0 <= j < s.drop_first().len() ==> s.drop_first()[j] == s[j + 1]);
        }
        lemma_remove_key_absent(s.drop_first(), k);
    } else {
        assert(s[0].0 != k);
        assert(unique_keys(s.drop_first())) by {
            assert(forall|a: int, b: int|
                0 <= a < b < s.drop_first().len() ==> s.drop_first()[a] == s[a + 1]
                    && s.drop_first()[b] == s[b + 1]);
        }
        assert(s.drop_first()[i - 1] == s[i]);
        lemma_remove_at_key(s.drop_first(), i - 1);
        assert(s.remove(i) =~= seq![s[0]] + s.drop_first().remove(i - 1));
    }
}

proof fn lemma_remove_key_no_key<R>(s: Seq<(TileId, CachedTile<R>)>, k: TileId)
    ensures
        !has_key(remove_key(s, k), k),
        remove_key(s, k).len() <= s.len(),
    decreases s.len(),
{
    if s.len() > 0 {
        lemma_remove_key_no_key(s.drop_first(), k);
        if s[0].0 != k {
            let r = seq![s[0]] + remove_key(s.drop_first(), k);
            assert(forall|i: int|
                1 <= i < r.len() ==> r[i] == remove_key(s.drop_first(), k)[i - 1]);
        }
    }
}

proof fn lemma_remove_key_unique<R>(s: Seq<(TileId, CachedTile<R>)>, k: TileId)
    requires
        unique_keys(s),
    ensures
        unique_keys(remove_key(s, k)),
        forall|j: int|
            0 <= j < remove_key(s, k).len() ==> has_key(s, #[trigger] remove_key(s, k)[j].0),
    decreases s.len(),
{
    if s.len() > 0 {
        assert(unique_keys(s.drop_first())) by {
            assert(forall|a: int, b: int|
                0 <= a < b < s.drop_first().len() ==> s.drop_first()[a] == s[a + 1]
                    && s.drop_first()[b] == s[b + 1]);
        }
        lemma_remove_key_unique(s.drop_first(), k);
        assert(forall|j: int|
            0 <= j < s.drop_first().len() ==> #[trigger] s.drop_first()[j] == s[j + 1]);
        if s[0].0 != k {
            let rest = remove_key(s.drop_first(), k);
            let r = seq![s[0]] + rest;
            assert(forall|i: int| 1 <= i < r.len() ==> r[i] == rest[i - 1]);
            assert forall|a: int, b: int| 0 <= a < b < r.len() implies r[a].0 != r[b].0 by {
                if a == 0 {
                    assert(has_key(s, r[b].0));
                    let w = key_index(s, r[b].0);
                    if s[0].0 == r[b].0 {
                        let rb = r[b];
                        assert(has_key(s.drop_first(), rb.0)) by {
                            assert(rest[b - 1] == rb);
                        }
                        let v = key_index(s.drop_first(), rb.0);
                        assert(s[v + 1].0 == rb.0);
                        assert(false);
                    }
                }
            }
            assert forall|j: int| 0 <= j < r.len() implies has_key(s, r[j].0) by {
                if j >= 1 {
                    let t = rest[j - 1];
                    assert(has_key(s.drop_first(), t.0));
                    let v = key_index(s.drop_first(), t.0);
                    assert(s[v + 1].0 == t.0);
                }
            }
        } else {
            assert forall|j: int| 0 <= j < remove_key(s, k).len() implies has_key(
                s,
                remove_key(s, k)[j].0,
            ) by {
                let t = remove_key(s.drop_first(), k)[j];
                assert(has_key(s.drop_first(), t.0));
                let v = key_index(s.drop_first(), t.0);
                assert(s[v + 1].0 == t.0);
            }
        }
    }
}

/// After eviction, either nothing is left, or what is left fits the new
/// entry within both budgets; and nothing new appeared.
proof fn lemma_evict_for_fits<R>(
    s: Seq<(TileId, CachedTile<R>)>,
    size: int,
    max_tiles: int,
    max_memory: int,
)
    ensures
        ({
            let r = evict_for(s, size, max_tiles, max_memory);
            r.len() == 0 || (r.len() < max_tiles && mem_of(r) + size <= max_memory)
        }),
    decreases s.len(),
{
    if s.len() > 0 && (s.len() >= max_tiles || mem_of(s) + size > max_memory) {
        lemma_evict_for_fits(s.drop_first(), size, max_tiles, max_memory);
    }
}

/// The LRU tile cache: a key-to-entry store, oldest key first.
pub struct TileCache<R> {
    entries: Vec<(TileId, CachedTile<R>)>,
    max_tiles: usize,
    max_memory: usize,
    current_memory: usize,
}

impl<R> View for TileCache<R> {
    type V = Seq<(TileId, CachedTile<R>)>;

    closed spec fn view(&self) -> Seq<(TileId, CachedTile<R>)> {
        self.entries@
    }
}

impl<R> TileCache<R> {
    /// The cache is a well-formed store: keys are unique and the running
    /// memory total equals the sum of the resident entries' sizes.
    pub closed spec fn wf(&self) -> bool {
        &&& unique_keys(self.entries@)
        &&& self.current_memory as int == mem_of(self.entries@)
    }

    /// The most entries the cache will keep resident.
    pub closed spec fn spec_max_tiles(&self) -> int {
        self.max_tiles as int
    }

    /// The most bytes the cache will aim to keep resident.
    pub closed spec fn spec_max_memory(&self) -> int {
        self.max_memory as int
    }

    /// Create a cache bounded by an entry count and a byte budget.
    pub fn new(max_tiles: usize, max_memory: usize) -> (r: Self)
        ensures
            r.wf(),
            r@ =~= Seq::<(TileId, CachedTile<R>)>::empty(),
            r.spec_max_tiles() == max_tiles as int,
            r.spec_max_memory() == max_memory as int,
    {
        Self { entries: Vec::new(), max_tiles, max_memory, current_memory: 0 }
    }

    fn index_of(&self, tile_id: &TileId) -> (r: Option<usize>)
        ensures
            r matches Some(i) ==> i < self@.len() && self@[i as int].0 == *tile_id,
            r is None ==> !has_key(self@, *tile_id),
    {
        let mut i: usize = 0;
        while i < self.entries.len()
            invariant
                i <= self.entries.len(),
                forall|j: int| 0 <= j < i ==> self.entries@[j].0 != *tile_id,
            decreases self.entries.len() - i,
        {
            if self.entries[i].0 == *tile_id {
                return Some(i);
            }
            i = i + 1;
        }
        None
    }

    /// Whether the key is resident.
    pub fn contains(&self, tile_id: &TileId) -> (r: bool)
        ensures
            r == has_key(self@, *tile_id),
    {
        match self.index_of(tile_id) {
            Some(_) => true,
            None => false,
        }
    }

    /// Read an entry without touching the recency order.
    pub fn peek(&self, tile_id: &TileId) -> (r: Option<&CachedTile<R>>)
        requires
            self.wf(),
        ensures
            r matches Some(e) ==> has_key(self@, *tile_id) && *e == entry_of(self@, *tile_id),
            r is None ==> !has_key(self@, *tile_id),
    {
        match self.index_of(tile_id) {
            Some(i) => {
                proof {
                    let w = key_index(self@, *tile_id);
                    assert(self@[w].0 == *tile_id);
                }
                Some(&self.entries[i].1)
            },
            None => None,
        }
    }

    /// Read an entry and mark its key as the most recently used.
    pub fn get(&mut self, tile_id: &TileId) -> (r: Option<&CachedTile<R>>)
        requires
            old(self).wf(),
        ensures
            final(self).wf(),
            final(self).spec_max_tiles() == old(self).spec_max_tiles(),
            final(self).spec_max_memory() == old(self).spec_max_memory(),
            !has_key(old(self)@, *tile_id) ==> final(self)@ == old(self)@ && r is None,
            has_key(old(self)@, *tile_id) ==> {
                &&& final(self)@ =~= remove_key(old(self)@, *tile_id).push(
                    (*tile_id, entry_of(old(self)@, *tile_id)),
                )
                &&& r matches Some(e) && *e == entry_of(old(self)@, *tile_id)
            },
    {
        match self.index_of(tile_id) {
            Some(i) => {
                proof {
                    let w = key_index(self@, *tile_id);
                    assert(self@[w].0 == *tile_id);
                    assert(w == i as int);
                    lemma_remove_at_key(self@, i as int);
                    lemma_mem_of_remove(self@, i as int);
                    lemma_remove_key_no_key(self@, *tile_id);
                    lemma_remove_key_unique(self@, *tile_id);
                }
                let pair = self.entries.remove(i);
                proof {
                    lemma_mem_of_push(self.entries@, pair);
                }
                self.entries.push(pair);
                let last: usize = self.entries.len() - 1;
                Some(&self.entries[last].1)
            },
            None => None,
        }
    }

    fn should_evict(&self, new_tile_memory: usize) -> (r: bool)
        requires
            self.wf(),
        ensures
            r == (self@.len() > 0 && (self@.len() >= self.spec_max_tiles() || mem_of(self@)
                + new_tile_memory as int > self.spec_max_memory())),
    {
        !self.entries.is_empty() && (self.entries.len() >= self.max_tiles || (
        self.current_memory as u128 + new_tile_memory as u128 > self.max_memory as u128))
    }

    fn evict_oldest(&mut self)
        requires
            old(self).wf(),
            old(self)@.len() > 0,
        ensures
            final(self).wf(),
            final(self)@ =~= old(self)@.drop_first(),
            final(self).spec_max_tiles() == old(self).spec_max_tiles(),
            final(self).spec_max_memory() == old(self).spec_max_memory(),
    {
        proof {
            assert(self@.remove(0) =~= self@.drop_first());
            lemma_mem_of_remove(self@, 0);
            lemma_mem_of_nonneg(self@.drop_first());
            assert(unique_keys(self@.drop_first())) by {
                assert(forall|j: int|
                    0 <= j < self@.drop_first().len() ==> self@.drop_first()[j] == self@[j + 1]);
            }
        }
        let pair = self.entries.remove(0);
        self.current_memory = self.current_memory - pair.1.memory_size;
    }

    /// Insert an entry, evicting least-recently-used entries first while
    /// the cache is over either budget.  An entry too large for the byte
    /// budget alone is still accepted into an emptied cache.  An entry
    /// already stored under the key is replaced, and the key becomes the
    /// most recently used.
    pub fn insert(&mut self, tile_id: TileId, tile: CachedTile<R>)
        requires
            old(self).wf(),
        ensures
            final(self).wf(),
            final(self)@ =~= spec_insert(
                old(self)@,
                tile_id,
                tile,
                old(self).spec_max_tiles(),
                old(self).spec_max_memory(),
            ),
            final(self).spec_max_tiles() == old(self).spec_max_tiles(),
            final(self).spec_max_memory() == old(self).spec_max_memory(),
    {
        let memory_size: usize = tile.memory_size;
        let ghost size = memory_size as int;
        let ghost mt = self.spec_max_tiles();
        let ghost mm = self.spec_max_memory();
        while self.should_evict(memory_size)
            invariant
                size == memory_size as int,
                self.wf(),
                self.spec_max_tiles() == mt,
                self.spec_max_memory() == mm,
                evict_for(old(self)@, size, mt, mm) =~= evict_for(self@, size, mt, mm),
            decreases self@.len(),
        {
            let ghost prev = self@;
            self.evict_oldest();
            proof {
                assert(evict_for(prev, size, mt, mm) == evict_for(
                    prev.drop_first(),
                    size,
                    mt,
                    mm,
                ));
                assert(evict_for(prev, size, mt, mm) =~= evict_for(self@, size, mt, mm));
            }
        }
        proof {
            assert(evict_for(self@, size, mt, mm) =~= self@);
        }
        match self.index_of(&tile_id) {
            Some(i) => {
                proof {
                    lemma_remove_at_key(self@, i as int);
                    lemma_mem_of_remove(self@, i as int);
                    lemma_remove_key_no_key(self@, tile_id);
                    lemma_remove_key_unique(self@, tile_id);
                    lemma_mem_of_nonneg(self@.remove(i as int));
                }
                let pair = self.entries.remove(i);
                self.current_memory = self.current_memory - pair.1.memory_size;
            },
            None => {
                proof {
                    lemma_remove_key_absent(self@, tile_id);
                }
            },
        }
        proof {
            lemma_mem_of_push(self.entries@, (tile_id, tile));
            lemma_mem_of_nonneg(self.entries@);
            lemma_evict_for_fits(old(self)@, size, mt, mm);
        }
        self.current_memory = self.current_memory + memory_size;
        self.entries.push((tile_id, tile));
    }

    /// Remove an entry by key and hand it back.
    pub fn remove(&mut self, tile_id: &TileId) -> (r: Option<CachedTile<R>>)
        requires
            old(self).wf(),
        ensures
            final(self).wf(),
            final(self).spec_max_tiles() == old(self).spec_max_tiles(),
            final(self).spec_max_memory() == old(self).spec_max_memory(),
            !has_key(old(self)@, *tile_id) ==> final(self)@ == old(self)@ && r is None,
            has_key(old(self)@, *tile_id) ==> {
                &&& final(self)@ =~= remove_key(old(self)@, *tile_id)
                &&& r matches Some(e) && e == entry_of(old(self)@, *tile_id)
            },
    {
        match self.index_of(tile_id) {
            Some(i) => {
                proof {
                    let w = key_index(self@, *tile_id);
                    assert(self@[w].0 == *tile_id);
                    assert(w == i as int);
                    lemma_remove_at_key(self@, i as int);
                    lemma_mem_of_remove(self@, i as int);
                    lemma_remove_key_no_key(self@, *tile_id);
                    lemma_remove_key_unique(self@, *tile_id);
                    lemma_mem_of_nonneg(self@.remove(i as int));
                }
                let pair = self.entries.remove(i);
                self.current_memory = self.current_memory - pair.1.memory_size;
                Some(pair.1)
            },
            None => None,
        }
    }

    /// Drop every entry and zero the memory total.
    pub fn clear(&mut self)
        ensures
            final(self).wf(),
            final(self)@ =~= Seq::<(TileId, CachedTile<R>)>::empty(),
            final(self).spec_max_tiles() == old(self).spec_max_tiles(),
            final(self).spec_max_memory() == old(self).spec_max_memory(),
    {
        self.entries.clear();
        self.current_memory = 0;
    }

    /// The number of resident entries.
    pub fn len(&self) -> (r: usize)
        ensures
            r == self@.len(),
    {
        self.entries.len()
    }

    /// Whether nothing is resident.
    pub fn is_empty(&self) -> (r: bool)
        ensures
            r == (self@.len() == 0),
    {
        self.entries.is_empty()
    }

    /// The resident keys, oldest first.
    pub fn tile_ids(&self) -> (r: Vec<TileId>)
        ensures
            r@ =~= keys_of(self@),
    {
        let mut r: Vec<TileId> = Vec::new();
        let mut i: usize = 0;
        while i < self.entries.len()
            invariant
                i <= self.entries.len(),
                r@ =~= keys_of(self@).subrange(0, i as int),
            decreases self.entries.len() - i,
        {
            r.push(self.entries[i].0);
            proof {
                assert(r@ =~= keys_of(self@).subrange(0, i as int + 1));
            }
            i = i + 1;
        }
        proof {
            assert(keys_of(self@).subrange(0, self@.len() as int) =~= keys_of(self@));
        }
        r
    }

    /// A snapshot of occupancy against the two budgets.
    pub fn stats(&self) -> (r: CacheStats)
        requires
            self.wf(),
        ensures
            r.tile_count == self@.len(),
            r.max_tiles as int == self.spec_max_tiles(),
            r.memory_used as int == mem_of(self@),
            r.max_memory as int == self.spec_max_memory(),
    {
        CacheStats {
            tile_count: self.entries.len(),
            max_tiles: self.max_tiles,
            memory_used: self.current_memory,
            max_memory: self.max_memory,
        }
    }
}

impl<R> Default for TileCache<R> {
    /// A cache bounded at 256 tiles and 64 MiB.
    fn default() -> (r: Self)
        ensures
            r.wf(),
            r@ =~= Seq::<(TileId, CachedTile<R>)>::empty(),
            r.spec_max_tiles() == 256,
            r.spec_max_memory() == 67_108_864,
    {
        Self::new(256, 67_108_864)
    }
}

/// Cache statistics for diagnostics.
#[derive(Debug, Clone, Copy)]
pub struct CacheStats {
    pub tile_count: usize,
    pub max_tiles: usize,
    pub memory_used: usize,
    pub max_memory: usize,
}

impl CacheStats {
    /// Memory in use as a whole percentage of the budget; zero when no
    /// budget is set, and capped only by the size of the result.
    pub fn memory_usage_percent(&self) -> (r: u64)
        ensures
            self.max_memory == 0 ==> r == 0,
            self.max_memory != 0 ==> r as int == if self.memory_used * 100
                / (self.max_memory as int) < u64::MAX as int {
                self.memory_used * 100 / (self.max_memory as int)
            } else {
                u64::MAX as int
            },
    {
        if self.max_memory == 0 {
            0
        } else {
            let p: u128 = self.memory_used as u128 * 100 / (self.max_memory as u128);
            if p > u64::MAX as u128 {
                u64::MAX
            } else {
                p as u64
            }
        }
    }

    /// Resident entries as a whole percentage of the entry budget.
    pub fn tile_usage_percent(&self) -> (r: u64)
        ensures
            self.max_tiles == 0 ==> r == 0,
            self.max_tiles != 0 ==> r as int == if self.tile_count * 100 / (self.max_tiles as int)
                < u64::MAX as int {
                self.tile_count * 100 / (self.max_tiles as int)
            } else {
                u64::MAX as int
            },
    {
        if self.max_tiles == 0 {
            0
        } else {
            let p: u128 = self.tile_count as u128 * 100 / (self.max_tiles as u128);
            if p > u64::MAX as u128 {
                u64::MAX
            } else {
                p as u64
            }
        }
    }
}

/// Eviction removes entries from the oldest end only: what survives it
/// is a suffix of the recency order, so the most recently touched keys
/// are the ones kept.
pub proof fn lemma_evict_for_is_suffix<R>(
    s: Seq<(TileId, CachedTile<R>)>,
    size: int,
    max_tiles: int,
    max_memory: int,
)
    ensures
        exists|k: int|
            0 <= k <= s.len() && evict_for(s, size, max_tiles, max_memory) =~= s.skip(k),
    decreases s.len(),
{
    if s.len() > 0 && (s.len() >= max_tiles || mem_of(s) + size > max_memory) {
        lemma_evict_for_is_suffix(s.drop_first(), size, max_tiles, max_memory);
        let k = choose|k: int|
            0 <= k <= s.drop_first().len() && evict_for(s.drop_first(), size, max_tiles, max_memory)
                =~= s.drop_first().skip(k);
        assert(s.drop_first().skip(k) =~= s.skip(k + 1));
        assert(evict_for(s, size, max_tiles, max_memory) =~= s.skip(k + 1));
    } else {
        assert(evict_for(s, size, max_tiles, max_memory) =~= s.skip(0));
    }
}

/// Inserting never leaves more entries resident than the entry budget
/// allows, whenever that budget admits at least one entry.
pub proof fn lemma_insert_count_bound<R>(
    s: Seq<(TileId, CachedTile<R>)>,
    k: TileId,
    e: CachedTile<R>,
    max_tiles: int,
    max_memory: int,
)
    requires
        max_tiles >= 1,
    ensures
        spec_insert(s, k, e, max_tiles, max_memory).len() <= max_tiles,
{
    lemma_evict_for_fits(s, e.memory_size as int, max_tiles, max_memory);
    let r = evict_for(s, e.memory_size as int, max_tiles, max_memory);
    lemma_remove_key_no_key(r, k);
}

/// Inserting an entry larger than the whole byte budget empties the
/// cache first and leaves exactly that entry resident.
pub proof fn lemma_insert_oversized<R>(
    s: Seq<(TileId, CachedTile<R>)>,
    k: TileId,
    e: CachedTile<R>,
    max_tiles: int,
    max_memory: int,
)
    requires
        e.memory_size as int > max_memory,
    ensures
        spec_insert(s, k, e, max_tiles, max_memory) =~= seq![(k, e)],
{
    lemma_evict_for_fits(s, e.memory_size as int, max_tiles, max_memory);
    let r = evict_for(s, e.memory_size as int, max_tiles, max_memory);
    if r.len() != 0 {
        lemma_mem_of_nonneg(r);
        assert(false);
    }
}

/// Inserting an entry that fits the byte budget leaves the cache within
/// that budget.
pub proof fn lemma_insert_memory_bound<R>(
    s: Seq<(TileId, CachedTile<R>)>,
    k: TileId,
    e: CachedTile<R>,
    max_tiles: int,
    max_memory: int,
)
    requires
        e.memory_size as int <= max_memory,
    ensures
        mem_of(spec_insert(s, k, e, max_tiles, max_memory)) <= max_memory,
{
    lemma_evict_for_fits(s, e.memory_size as int, max_tiles, max_memory);
    let r = evict_for(s, e.memory_size as int, max_tiles, max_memory);
    lemma_mem_of_remove_key_le(r, k);
    lemma_mem_of_push(remove_key(r, k), (k, e));
}

proof fn lemma_mem_of_remove_key_le<R>(s: Seq<(TileId, CachedTile<R>)>, k: TileId)
    ensures
        mem_of(remove_key(s, k)) <= mem_of(s),
        mem_of(remove_key(s, k)) >= 0,
    decreases s.len(),
{
    lemma_mem_of_nonneg(s);
    if s.len() > 0 {
        lemma_mem_of_remove_key_le(s.drop_first(), k);
        if s[0].0 != k {
            let r = seq![s[0]] + remove_key(s.drop_first(), k);
            assert(r.drop_first() =~= remove_key(s.drop_first(), k));
        }
    }
}

} // verus!
