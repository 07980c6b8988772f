//! LRU tile cache tests: recency order, the two budgets, and statistics.

use cplace_map::cache::{CacheStats, CachedTile, TileCache};
use cplace_map::tile::TileId;

fn entry(size: usize) -> CachedTile<u32> {
    CachedTile { resource: 0, memory_size: size, created_at: 0 }
}

#[test]
fn test_cache_lru_eviction() {
    // With room for two tiles, the two most-recently-touched keys stay.
    let mut cache: TileCache<u32> = TileCache::new(2, 1 << 30);
    let a = TileId::new(1, 1, 5);
    let b = TileId::new(2, 2, 5);
    let c = TileId::new(3, 3, 5);
    cache.insert(a, entry(10));
    cache.insert(b, entry(10));
    assert!(cache.get(&a).is_some()); // touch A: B is now oldest
    cache.insert(c, entry(10));
    assert!(cache.contains(&a));
    assert!(!cache.contains(&b));
    assert!(cache.contains(&c));
    assert_eq!(cache.len(), 2);
}

#[test]
fn test_cache_peek_preserves_order() {
    // peek must not refresh recency: A stays oldest and is evicted.
    let mut cache: TileCache<u32> = TileCache::new(2, 1 << 30);
    let a = TileId::new(1, 1, 5);
    let b = TileId::new(2, 2, 5);
    let c = TileId::new(3, 3, 5);
    cache.insert(a, entry(10));
    cache.insert(b, entry(10));
    assert!(cache.peek(&a).is_some());
    cache.insert(c, entry(10));
    assert!(!cache.contains(&a));
    assert!(cache.contains(&b));
    assert!(cache.contains(&c));
}

#[test]
fn test_cache_memory_budget_oversized() {
    // A tile larger than the whole byte budget is still accepted into an
    // empty cache; a second one evicts the first.
    let mut cache: TileCache<u32> = TileCache::new(16, 100);
    let a = TileId::new(1, 0, 3);
    let b = TileId::new(2, 0, 3);
    cache.insert(a, entry(150));
    assert!(cache.contains(&a));
    assert_eq!(cache.len(), 1);
    assert_eq!(cache.stats().memory_used, 150);
    cache.insert(b, entry(160));
    assert!(!cache.contains(&a));
    assert!(cache.contains(&b));
    assert_eq!(cache.len(), 1);
    assert_eq!(cache.stats().memory_used, 160);
}

#[test]
fn test_cache_memory_budget_eviction() {
    // Eviction runs until the new entry fits the byte budget.
    let mut cache: TileCache<u32> = TileCache::new(16, 100);
    let a = TileId::new(1, 0, 3);
    let b = TileId::new(2, 0, 3);
    let c = TileId::new(3, 0, 3);
    cache.insert(a, entry(40));
    cache.insert(b, entry(40));
    cache.insert(c, entry(40));
    assert!(!cache.contains(&a));
    assert!(cache.contains(&b));
    assert!(cache.contains(&c));
    assert_eq!(cache.stats().memory_used, 80);
}

#[test]
fn test_cache_insert_replaces() {
    let mut cache: TileCache<u32> = TileCache::new(4, 1000);
    let a = TileId::new(1, 0, 3);
    cache.insert(a, entry(40));
    cache.insert(a, entry(70));
    assert_eq!(cache.len(), 1);
    assert_eq!(cache.stats().memory_used, 70);
    assert_eq!(cache.peek(&a).unwrap().memory_size, 70);
}

#[test]
fn test_cache_remove_and_clear() {
    let mut cache: TileCache<u32> = TileCache::new(4, 1000);
    let a = TileId::new(1, 0, 3);
    let b = TileId::new(2, 0, 3);
    cache.insert(a, entry(40));
    cache.insert(b, entry(50));
    let removed = cache.remove(&a).unwrap();
    assert_eq!(removed.memory_size, 40);
    assert!(cache.remove(&a).is_none());
    assert_eq!(cache.stats().memory_used, 50);
    cache.clear();
    assert!(cache.is_empty());
    assert_eq!(cache.len(), 0);
    assert_eq!(cache.stats().memory_used, 0);
}

#[test]
fn test_cache_tile_ids_order() {
    let mut cache: TileCache<u32> = TileCache::new(4, 1000);
    let a = TileId::new(1, 0, 3);
    let b = TileId::new(2, 0, 3);
    cache.insert(a, entry(1));
    cache.insert(b, entry(1));
    assert_eq!(cache.tile_ids(), vec![a, b]);
    cache.get(&a); // A becomes newest
    assert_eq!(cache.tile_ids(), vec![b, a]);
}

#[test]
fn test_cache_default_budgets() {
    let cache: TileCache<u32> = TileCache::default();
    let stats = cache.stats();
    assert_eq!(stats.max_tiles, 256);
    assert_eq!(stats.max_memory, 64 * 1024 * 1024);
    assert_eq!(stats.tile_count, 0);
}

#[test]
fn test_cache_stats_percentages() {
    let stats = CacheStats { tile_count: 3, max_tiles: 4, memory_used: 50, max_memory: 200 };
    assert_eq!(stats.tile_usage_percent(), 75);
    assert_eq!(stats.memory_usage_percent(), 25);
    let empty = CacheStats { tile_count: 0, max_tiles: 0, memory_used: 0, max_memory: 0 };
    assert_eq!(empty.tile_usage_percent(), 0);
    assert_eq!(empty.memory_usage_percent(), 0);
    let over = CacheStats { tile_count: 3, max_tiles: 2, memory_used: 300, max_memory: 200 };
    assert_eq!(over.tile_usage_percent(), 150);
    assert_eq!(over.memory_usage_percent(), 150);
}
