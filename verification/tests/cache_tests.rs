use qrust_code::cache::{BackgroundCache, CachedBackground};
use qrust_code::canvas::RgbaCanvas;

fn entry(path: &str, width: u32) -> CachedBackground {
    CachedBackground {
        path: path.to_string(),
        modified: Some((true, 1_700_000_000, 5)),
        width,
        height: width,
        image: RgbaCanvas::filled(width, width, [width as u8, 0, 0, 255]),
    }
}

#[test]
fn an_empty_cache_finds_nothing() {
    let cache = BackgroundCache::new();
    assert_eq!(cache.len(), 0);
    assert!(cache.find(&"a.png".to_string(), None, 4, 4).is_none());
}

#[test]
fn a_stored_picture_is_found_again() {
    let mut cache = BackgroundCache::new();
    let decoded = RgbaCanvas::filled(3, 2, [10, 20, 30, 255]);
    let path = "fond.png".to_string();
    let resized = cache.store(&path, Some((true, 42, 0)), 6, 4, &decoded);
    assert_eq!((resized.width, resized.height), (6, 4));
    assert_eq!(resized.pixels.len(), 24);
    // A uniform picture stays uniform once resized.
    assert!(resized.pixels.iter().all(|p| *p == [10, 20, 30, 255]));
    let found = cache.find(&path, Some((true, 42, 0)), 6, 4).unwrap();
    assert_eq!(found.pixels, resized.pixels);
    // Another size, another time or another path is another request.
    assert!(cache.find(&path, Some((true, 42, 0)), 6, 5).is_none());
    assert!(cache.find(&path, Some((true, 43, 0)), 6, 4).is_none());
    assert!(cache.find(&path, None, 6, 4).is_none());
    assert!(cache.find(&"autre.png".to_string(), Some((true, 42, 0)), 6, 4).is_none());
}

#[test]
fn the_oldest_picture_leaves_first() {
    let mut cache = BackgroundCache::new();
    cache.insert(entry("a", 1));
    cache.insert(entry("b", 2));
    cache.insert(entry("c", 3));
    assert_eq!(cache.len(), 3);
    cache.insert(entry("d", 4));
    assert_eq!(cache.len(), 3);
    let t = Some((true, 1_700_000_000, 5));
    assert!(cache.find(&"a".to_string(), t, 1, 1).is_none());
    assert_eq!(cache.find(&"b".to_string(), t, 2, 2).unwrap().pixels[0], [2, 0, 0, 255]);
    assert_eq!(cache.find(&"d".to_string(), t, 4, 4).unwrap().pixels[0], [4, 0, 0, 255]);
}

#[test]
fn the_first_matching_entry_answers() {
    let mut cache = BackgroundCache::new();
    let mut first = entry("a", 2);
    first.image = RgbaCanvas::filled(2, 2, [7, 7, 7, 7]);
    cache.insert(first);
    cache.insert(entry("a", 2));
    let t = Some((true, 1_700_000_000, 5));
    assert_eq!(cache.find(&"a".to_string(), t, 2, 2).unwrap().pixels[0], [7, 7, 7, 7]);
}

#[test]
fn an_empty_picture_resizes_to_transparent_black() {
    let mut cache = BackgroundCache::new();
    let empty = RgbaCanvas { width: 0, height: 0, pixels: Vec::new() };
    let resized = cache.store(&"vide.png".to_string(), None, 2, 3, &empty);
    assert_eq!((resized.width, resized.height), (2, 3));
    assert_eq!(resized.pixels, vec![[0, 0, 0, 0]; 6]);
}
