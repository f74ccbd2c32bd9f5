use creamui::shaping::{LayoutCache, ShapeCache, DEFAULT_CAPACITY, EVICT_EVERY_FRAMES, EVICT_UNUSED_FOR_FRAMES};
use std::cell::Cell;
use std::rc::Rc;

const FAMILY: &str = "Sans";

/// Looks `text` up at `size` px, counting how often a run had to be made.
fn shape(cache: &mut ShapeCache<Rc<String>>, text: &str, size: f32, made: &Cell<u32>) -> Rc<String> {
    cache.shape(text, size.to_bits(), 1000.0f32.to_bits(), FAMILY, false, || {
        made.set(made.get() + 1);
        Rc::new(text.to_string())
    })
}

#[test]
fn shaping_the_same_text_twice_hits_the_cache() {
    let mut cache = ShapeCache::new();
    let made = Cell::new(0);
    let a = shape(&mut cache, "hello", 16.0, &made);
    let b = shape(&mut cache, "hello", 16.0, &made);
    assert!(Rc::ptr_eq(&a, &b));
    assert_eq!(cache.len(), 1);
    assert_eq!(made.get(), 1);
}

#[test]
fn shaping_different_text_misses_the_cache() {
    let mut cache = ShapeCache::new();
    let made = Cell::new(0);
    let a = shape(&mut cache, "hello", 16.0, &made);
    let b = shape(&mut cache, "world", 16.0, &made);
    assert!(!Rc::ptr_eq(&a, &b));
    assert_eq!(cache.len(), 2);
}

#[test]
fn different_font_size_is_a_distinct_cache_entry() {
    let mut cache = ShapeCache::new();
    let made = Cell::new(0);
    let a = shape(&mut cache, "hello", 16.0, &made);
    let b = shape(&mut cache, "hello", 20.0, &made);
    assert!(!Rc::ptr_eq(&a, &b));
}

#[test]
fn eviction_drops_the_least_recently_used_entry() {
    let mut cache = ShapeCache::with_capacity(2);
    let made = Cell::new(0);
    shape(&mut cache, "a", 16.0, &made);
    shape(&mut cache, "b", 16.0, &made);
    shape(&mut cache, "c", 16.0, &made);
    assert_eq!(cache.len(), 2);
    assert_eq!(made.get(), 3);

    // "c" and "b" are still cached: looking them up makes nothing.
    shape(&mut cache, "c", 16.0, &made);
    shape(&mut cache, "b", 16.0, &made);
    assert_eq!(made.get(), 3);
    // "a" was evicted: it has to be made again.
    shape(&mut cache, "a", 16.0, &made);
    assert_eq!(made.get(), 4);
}

#[test]
fn touching_an_entry_protects_it_from_eviction() {
    let mut cache = ShapeCache::with_capacity(2);
    let made = Cell::new(0);
    shape(&mut cache, "a", 16.0, &made);
    shape(&mut cache, "b", 16.0, &made);
    shape(&mut cache, "a", 16.0, &made);
    shape(&mut cache, "c", 16.0, &made);
    assert_eq!(made.get(), 3);

    shape(&mut cache, "a", 16.0, &made);
    assert_eq!(made.get(), 3);
    shape(&mut cache, "b", 16.0, &made);
    assert_eq!(made.get(), 4);
}

#[test]
fn capacity_is_at_least_one_entry() {
    let mut cache = ShapeCache::with_capacity(0);
    let made = Cell::new(0);
    assert!(cache.is_empty());
    shape(&mut cache, "a", 16.0, &made);
    shape(&mut cache, "b", 16.0, &made);
    assert_eq!(cache.len(), 1);
    shape(&mut cache, "b", 16.0, &made);
    assert_eq!(made.get(), 2);
}

#[test]
fn the_default_cache_holds_many_runs() {
    let mut cache = ShapeCache::new();
    let made = Cell::new(0);
    for i in 0..DEFAULT_CAPACITY + 3 {
        shape(&mut cache, &i.to_string(), 16.0, &made);
    }
    assert_eq!(cache.len(), DEFAULT_CAPACITY);
    assert_eq!(DEFAULT_CAPACITY, 512);
}

#[test]
fn family_and_weight_are_part_of_the_key() {
    let mut cache: ShapeCache<Rc<String>> = ShapeCache::new();
    let made = Cell::new(0);
    let size = 16.0f32.to_bits();
    let width = 1000.0f32.to_bits();
    let count = || {
        made.set(made.get() + 1);
        Rc::new(String::new())
    };
    cache.shape("x", size, width, "Sans", false, count);
    cache.shape("x", size, width, "Serif", false, count);
    cache.shape("x", size, width, "Sans", true, count);
    cache.shape("x", size, 10.0f32.to_bits(), "Sans", false, count);
    assert_eq!(made.get(), 4);
    assert_eq!(cache.len(), 4);
}

#[test]
fn identical_layout_requests_share_one_layout() {
    let mut cache: LayoutCache<Rc<String>> = LayoutCache::new();
    let made = Cell::new(0u32);
    let mut request = |cache: &mut LayoutCache<Rc<String>>, face: u64, text: &str| {
        cache.layout(face, text, 14.0f32.to_bits(), 200.0f32.to_bits(), 0, || {
            made.set(made.get() + 1);
            Rc::new(text.to_string())
        })
    };
    let a = request(&mut cache, 1, "Hello");
    let b = request(&mut cache, 1, "Hello");
    assert!(Rc::ptr_eq(&a, &b));
    let c = request(&mut cache, 2, "Hello");
    assert!(!Rc::ptr_eq(&a, &c));
    assert_eq!(made.get(), 2);
    assert_eq!(cache.len(), 2);
}

#[test]
fn unused_layouts_are_evicted() {
    let mut cache: LayoutCache<u32> = LayoutCache::new();
    cache.layout(0, "gone", 1, 2, 0, || 7);
    for _ in 0..EVICT_UNUSED_FOR_FRAMES + EVICT_EVERY_FRAMES {
        cache.end_frame();
    }
    assert_eq!(cache.len(), 0);
}

#[test]
fn layouts_used_recently_survive_an_eviction() {
    let mut cache: LayoutCache<u32> = LayoutCache::new();
    cache.layout(0, "kept", 1, 2, 0, || 7);
    for _ in 0..EVICT_EVERY_FRAMES {
        cache.end_frame();
    }
    assert_eq!(cache.len(), 1);
}
