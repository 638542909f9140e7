use ibre::cache::{TileCache, TILE_CACHE_CAPACITY};
use ibre::tile::{tile_window, Coord, DEFAULT_ZOOM};

fn at(x: u32, y: u32) -> Coord {
    Coord { x, y, z: DEFAULT_ZOOM }
}

#[test]
fn window_walks_columns_then_rows() {
    let w = tile_window(at(5, 7));
    assert_eq!(
        w,
        vec![at(4, 6), at(4, 7), at(4, 8), at(5, 6), at(5, 7), at(5, 8), at(6, 6), at(6, 7), at(6, 8)]
    );
}

#[test]
fn empty_cache_fetches_whole_window() {
    let mut cache = TileCache::new();
    assert_eq!(cache.len(), 0);
    assert_eq!(cache.tiles_to_fetch(at(5, 7)), tile_window(at(5, 7)));
    assert!(cache.tiles_to_parse(at(5, 7)).is_empty());
}

#[test]
fn stored_tiles_are_parsed_in_window_order() {
    let mut cache = TileCache::new();
    let fetched = vec![(at(6, 8), Some(vec![1u8])), (at(4, 6), Some(vec![2u8])), (at(5, 7), None)];
    cache.store_fetched(fetched);
    assert_eq!(cache.len(), 2);
    assert_eq!(cache.tiles_to_parse(at(5, 7)), vec![(at(4, 6), vec![2u8]), (at(6, 8), vec![1u8])]);
    let missing = cache.tiles_to_fetch(at(5, 7));
    assert_eq!(missing.len(), 7);
    assert!(!missing.contains(&at(4, 6)));
    assert!(missing.contains(&at(5, 7)));
}

#[test]
fn storing_again_replaces_bytes() {
    let mut cache = TileCache::new();
    cache.insert(at(5, 7), vec![1]);
    cache.insert(at(5, 7), vec![9]);
    assert_eq!(cache.len(), 1);
    assert_eq!(cache.tiles_to_parse(at(5, 7)), vec![(at(5, 7), vec![9u8])]);
}

#[test]
fn cache_never_exceeds_capacity() {
    let mut cache = TileCache::new();
    for x in 1..40u32 {
        cache.insert(at(x, 1), vec![x as u8]);
        assert!(cache.len() <= TILE_CACHE_CAPACITY);
    }
    assert_eq!(cache.len(), 27);
    // the least recently used ones went first
    assert_eq!(cache.tiles_to_fetch(at(2, 2)).len(), 9);
    assert_eq!(cache.tiles_to_parse(at(38, 2)).len(), 3);
}

#[test]
fn lookups_protect_tiles_from_eviction() {
    let mut cache = TileCache::new();
    for x in 1..=27u32 {
        cache.insert(at(x, 1), vec![]);
    }
    // touches (1,0..2) and (2,0..2), of which (1,1) and (2,1) are held
    let _ = cache.tiles_to_fetch(at(1, 1));
    cache.insert(at(100, 1), vec![]);
    cache.insert(at(101, 1), vec![]);
    let held = cache.tiles_to_parse(at(2, 1));
    let coords: Vec<Coord> = held.into_iter().map(|(c, _)| c).collect();
    // (3,1) and (4,1) were the least recently used and made room
    assert_eq!(coords, vec![at(1, 1), at(2, 1)]);
    assert_eq!(cache.tiles_to_parse(at(4, 1)).len(), 1);
}
