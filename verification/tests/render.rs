use creamui::render::{
    image_batches, needs_full_repaint, common_ends, copy_rows, halve, layer_within, mul, pair, panic_payload_message, premultiply, CloseBehavior, GlyphAtlas, PairStep,
    AtlasBook, AtlasRoom, GlyphKey, RenderBackend, ShelfAllocator, SlotStore, ATLAS_RESET_COOLDOWN_FRAMES,
    ATLAS_SHRINK_EVERY_FRAMES, INITIAL_ATLAS_SIZE,
};
use creamui::theme::Color;

#[test]
fn halving_averages_two_by_two_blocks() {
    let pixels = [
        [0, 0, 0, 0],
        [100, 100, 100, 100],
        [50, 50, 50, 50],
        [200, 200, 200, 200],
        [20, 20, 20, 20],
        [40, 40, 40, 40],
    ]
    .concat();
    let (w, h, out) = halve(3, 2, &pixels);
    assert_eq!((w, h), (1, 1));
    assert_eq!(out, vec![80, 80, 80, 80]);
    let (w, h, out) = halve(1, 2, &[[10; 4], [30; 4]].concat());
    assert_eq!((w, h), (1, 1));
    assert_eq!(out, vec![20, 20, 20, 20]);
}

#[test]
fn halving_keeps_channels_apart_and_rounds() {
    let pixels: Vec<u8> = (0..4 * 4 * 4).map(|i| i as u8).collect();
    let (w, h, out) = halve(4, 4, &pixels);
    assert_eq!((w, h), (2, 2));
    assert_eq!(out.len(), 16);
    // Top-left block: pixels 0, 1, 4, 5; red channel 0 + 4 + 16 + 20 = 40.
    assert_eq!(out[0], 10);
    assert_eq!(out[3], (3 + 7 + 19 + 23 + 2) / 4);
}

#[test]
fn shelf_allocation_packs_and_rejects() {
    let mut atlas = ShelfAllocator::new(33);
    assert_eq!(atlas.allocate(10, 10), Some([0, 0]));
    assert_eq!(atlas.allocate(10, 10), Some([11, 0]));
    assert_eq!(atlas.allocate(10, 20), Some([0, 11]));
    assert_eq!(atlas.allocate(40, 1), None);
    assert_eq!(atlas.allocate(10, 10), Some([22, 0]));
    assert_eq!(atlas.allocate(10, 10), None);
}

#[test]
fn atlas_places_distinct_glyphs_without_overlap() {
    let mut atlas = GlyphAtlas::new(64);
    let a = atlas.place(1, 10, 12).expect("fits");
    let b = atlas.place(2, 10, 12).expect("fits");
    assert_ne!(a, b);
    assert!(a.x + a.width <= b.x || b.x + b.width <= a.x || a.y + a.height <= b.y);
}

#[test]
fn placing_the_same_key_twice_returns_the_same_rect() {
    let mut atlas = GlyphAtlas::new(64);
    let a = atlas.place(1, 10, 12).expect("fits");
    let b = atlas.place(1, 10, 12).expect("fits");
    assert_eq!(a, b);
}

#[test]
fn atlas_reports_full_instead_of_overlapping_placements() {
    let mut atlas = GlyphAtlas::new(16);
    for i in 0..20u64 {
        atlas.place(i, 15, 15);
    }
    assert!(atlas.place(100, 15, 15).is_none());
}

#[test]
fn growing_the_atlas_doubles_its_size_and_forgets_placements() {
    let mut atlas = GlyphAtlas::new(16);
    atlas.place(1, 15, 15);
    atlas.grow();
    assert_eq!(atlas.size(), 32);
    assert!(atlas.rect_for(1).is_none());
    assert!(atlas.place(1, 15, 15).is_some());
}

/// Stand-in for GPU instance data: a position and a colour.
#[derive(Clone, Copy, Debug, PartialEq)]
struct Instance {
    position: [f32; 2],
    color: [f32; 4],
}

const ZEROED: Instance = Instance { position: [0.0; 2], color: [0.0; 4] };

fn fill(x: f32, shade: f32) -> Instance {
    Instance { position: [x, 0.0], color: [shade, shade, shade, 1.0] }
}

#[test]
fn insert_returns_distinct_ids_and_marks_dirty() {
    let mut store = SlotStore::new();
    let a = store.insert(ZEROED);
    let b = store.insert(ZEROED);
    assert_ne!(a, b);
    assert_eq!(store.take_dirty_range(), Some((0, 1)));
}

#[test]
fn get_returns_the_last_inserted_or_updated_value() {
    let mut store = SlotStore::new();
    let instance = fill(0.0, 1.0);
    let id = store.insert(instance);
    assert_eq!(*store.get(id), instance);

    let updated = fill(5.0, 1.0);
    store.update(id, updated);
    assert_eq!(*store.get(id), updated);
}

#[test]
fn update_with_unchanged_instance_does_not_mark_dirty() {
    let mut store = SlotStore::new();
    let instance = fill(0.0, 3.0);
    let id = store.insert(instance);
    store.take_dirty_range();

    store.update(id, instance);
    assert_eq!(store.take_dirty_range(), None);
}

#[test]
fn update_with_changed_instance_marks_only_that_slot_dirty() {
    let mut store = SlotStore::new();
    let a = store.insert(ZEROED);
    let _b = store.insert(ZEROED);
    store.take_dirty_range();

    store.update(a, fill(0.0, 9.0));
    assert_eq!(store.take_dirty_range(), Some((0, 0)));
}

#[test]
fn remove_reuses_the_freed_slot_on_next_insert() {
    let mut store = SlotStore::new();
    let a = store.insert(ZEROED);
    let _b = store.insert(ZEROED);
    store.remove(a, ZEROED);

    let c = store.insert(fill(0.0, 1.0));
    assert_eq!(c, a);
    assert_eq!(store.instances().len(), 2);
}

#[test]
fn dirty_range_spans_the_lowest_and_highest_touched_index() {
    let mut store = SlotStore::new();
    let a = store.insert(ZEROED);
    let _b = store.insert(ZEROED);
    let c = store.insert(ZEROED);
    store.take_dirty_range();

    store.update(c, fill(0.0, 1.0));
    store.update(a, fill(0.0, 2.0));
    assert_eq!(store.take_dirty_range(), Some((0, 2)));
}

#[test]
fn glyph_store_insert_marks_dirty_and_returns_distinct_ids() {
    let mut store = SlotStore::new();
    let a = store.insert(ZEROED);
    let b = store.insert(ZEROED);
    assert_ne!(a, b);
    assert_eq!(store.take_dirty_range(), Some((0, 1)));
}

#[test]
fn glyph_store_update_with_unchanged_instance_does_not_mark_dirty() {
    let mut store = SlotStore::new();
    let instance = Instance { position: [1.0, 2.0], color: [1.0; 4] };
    let id = store.insert(instance);
    store.take_dirty_range();

    store.update(id, instance);
    assert_eq!(store.take_dirty_range(), None);
}

#[test]
fn glyph_store_remove_reuses_the_freed_slot_on_next_insert() {
    let mut store = SlotStore::new();
    let a = store.insert(ZEROED);
    let _b = store.insert(ZEROED);
    store.remove(a, ZEROED);

    let c = store.insert(ZEROED);
    assert_eq!(c, a);
    assert_eq!(store.instances().len(), 2);
}

#[test]
fn glyph_store_get_returns_the_last_inserted_or_updated_value() {
    let mut store = SlotStore::new();
    let instance = Instance { position: [1.0, 2.0], color: [1.0; 4] };
    let id = store.insert(instance);
    assert_eq!(*store.get(id), instance);

    let moved = Instance { position: [4.0, 0.0], ..instance };
    store.update(id, moved);
    assert_eq!(*store.get(id), moved);
}

#[test]
fn backend_override_is_trimmed_and_case_insensitive() {
    assert_eq!(RenderBackend::from_env_str(" CPU\n"), Some(RenderBackend::Cpu));
    assert_eq!(RenderBackend::from_env_str("gpu"), Some(RenderBackend::Gpu));
    assert_eq!(RenderBackend::from_env_str("vulkan"), None);
    assert_eq!(RenderBackend::resolve(RenderBackend::Gpu, Some("cpu")), RenderBackend::Cpu);
    assert_eq!(RenderBackend::resolve(RenderBackend::Cpu, Some("metal")), RenderBackend::Cpu);
    assert_eq!(RenderBackend::resolve(RenderBackend::Cpu, None), RenderBackend::Cpu);
    assert_eq!(RenderBackend::default(), RenderBackend::Gpu);
}

#[test]
fn premultiplying_scales_by_alpha_with_rounding() {
    assert_eq!(mul(255, 128), 128);
    assert_eq!(mul(100, 255), 100);
    assert_eq!(mul(1, 128), 1);
    assert_eq!(mul(1, 127), 0);
    assert_eq!(premultiply(Color::rgba(255, 128, 0, 128)), [128, 64, 0, 128]);
}

#[test]
fn rows_copy_to_scratch_and_back() {
    let mut frame: Vec<u8> = (0..3 * 3 * 4).map(|i| i as u8).collect();
    let mut scratch = vec![0u8; 2 * 2 * 4];
    copy_rows(&mut frame, 3, &mut scratch, 2, 1, 1, 2, true);
    assert_eq!(scratch, vec![16, 17, 18, 19, 20, 21, 22, 23, 28, 29, 30, 31, 32, 33, 34, 35]);
    let copy = scratch.clone();
    for byte in frame.iter_mut() {
        *byte = 0;
    }
    copy_rows(&mut frame, 3, &mut scratch, 2, 1, 1, 2, false);
    assert_eq!(&frame[16..24], &copy[0..8]);
    assert_eq!(&frame[28..36], &copy[8..16]);
    assert!(frame[..16].iter().all(|b| *b == 0));
}

#[test]
fn panic_messages_come_from_string_payloads() {
    assert_eq!(panic_payload_message(Some("boom")), "boom");
    assert_eq!(panic_payload_message(None), "non-string panic payload");
    assert_eq!(CloseBehavior::default(), CloseBehavior::Close);
}

#[test]
fn pairing_skips_items_only_one_side_has() {
    let old = [1u64, 2, 3, 4, 5, 6];
    let new = [2u64, 3, 30, 5, 6, 7, 8];
    let (mut removed, mut added, mut changed) = (Vec::new(), Vec::new(), Vec::new());
    for step in pair(&old, &new) {
        match step {
            PairStep::Removed(i) => removed.push(old[i]),
            PairStep::Added(j) => added.push(new[j]),
            PairStep::Changed(i, j) => changed.push((old[i], new[j])),
        }
    }
    assert_eq!(removed, vec![1]);
    assert_eq!(changed, vec![(4, 30)]);
    assert_eq!(added, vec![7, 8]);
}

#[test]
fn pairing_gives_up_beyond_the_lookahead() {
    let old: Vec<u64> = (0..12).collect();
    let new: Vec<u64> = vec![11];
    assert_eq!(pair(&old, &new), vec![
        PairStep::Changed(0, 0),
        PairStep::Removed(1), PairStep::Removed(2), PairStep::Removed(3), PairStep::Removed(4),
        PairStep::Removed(5), PairStep::Removed(6), PairStep::Removed(7), PairStep::Removed(8),
        PairStep::Removed(9), PairStep::Removed(10), PairStep::Removed(11),
    ]);
    assert_eq!(pair(&[], &[5, 6]), vec![PairStep::Added(0), PairStep::Added(1)]);
}

#[test]
fn common_ends_bound_the_items_that_need_pairing() {
    assert_eq!(common_ends(&[1, 2, 3, 4], &[1, 2, 3, 4]), (4, 0));
    assert_eq!(common_ends(&[1, 2, 9, 4, 5], &[1, 2, 7, 8, 4, 5]), (2, 2));
    assert_eq!(common_ends(&[1, 1], &[1, 1, 1]), (2, 0));
    assert_eq!(common_ends(&[], &[3]), (0, 0));
    assert_eq!(common_ends(&[5, 6], &[7, 6]), (0, 1));
}

#[test]
fn layers_nest_along_their_parent_chain() {
    // Layer 1 is in the frame, layer 2 in layer 1, layer 3 in the frame.
    let parents = [0, 1, 0];
    assert!(layer_within(&parents, 2, 1));
    assert!(layer_within(&parents, 2, 0));
    assert!(layer_within(&parents, 2, 2));
    assert!(!layer_within(&parents, 3, 1));
    assert!(!layer_within(&parents, 1, 2));
    assert!(layer_within(&parents, 0, 0));
    assert!(!layer_within(&parents, 0, 3));
}

fn glyph(glyph: u16) -> GlyphKey {
    GlyphKey { face: 0, glyph, px: 0 }
}

#[test]
fn a_full_atlas_is_reset_when_it_holds_stale_glyphs_and_grown_otherwise() {
    let max = 8192;
    let mut atlas = AtlasBook::new(INITIAL_ATLAS_SIZE, 0);
    assert!(atlas.place(glyph(1), 16, 16, 0).is_some());

    let frame = ATLAS_RESET_COOLDOWN_FRAMES;
    assert!(atlas.place(glyph(2), 16, 16, frame).is_some());
    assert_eq!(atlas.room_after_overflow(frame, max), AtlasRoom::Reset);
    atlas = AtlasBook::new(atlas.size(), frame);
    assert_eq!(atlas.size(), INITIAL_ATLAS_SIZE);
    assert!(!atlas.has_stale_entries(frame));

    assert!(atlas.place(glyph(3), 16, 16, frame).is_some());
    assert_eq!(atlas.room_after_overflow(frame, max), AtlasRoom::Grow(INITIAL_ATLAS_SIZE * 2));
}

#[test]
fn a_full_atlas_at_the_device_limit_cannot_make_room() {
    let mut atlas = AtlasBook::new(2048, 0);
    atlas.place(glyph(1), 8, 8, 5);
    assert_eq!(atlas.room_after_overflow(5, 2048), AtlasRoom::Full);
    assert_eq!(atlas.room_after_overflow(5, 3000), AtlasRoom::Grow(3000));
}

#[test]
fn a_mostly_unused_atlas_shrinks() {
    let atlas = AtlasBook::new(INITIAL_ATLAS_SIZE * 4, 0);
    assert_eq!(atlas.shrink_to(ATLAS_SHRINK_EVERY_FRAMES), Some(INITIAL_ATLAS_SIZE * 2));
    assert_eq!(atlas.shrink_to(ATLAS_SHRINK_EVERY_FRAMES + 1), None);
    assert_eq!(AtlasBook::new(INITIAL_ATLAS_SIZE, 0).shrink_to(ATLAS_SHRINK_EVERY_FRAMES), None);
}

#[test]
fn a_busy_atlas_keeps_its_size() {
    let mut atlas = AtlasBook::new(2048, 0);
    // Glyphs of 511 x 511 texels (512 x 512 padded) fill a quarter of the
    // 1024-texel half each.
    for g in 0..2 {
        assert!(atlas.place(glyph(g), 511, 511, 650).is_some());
    }
    assert_eq!(atlas.live_area(600), 2 * 512 * 512);
    assert_eq!(atlas.shrink_to(1200), None);
    assert_eq!(atlas.live_area(651), 0);
}

#[test]
fn placed_glyphs_keep_their_rect_and_refresh_their_use() {
    let mut atlas = AtlasBook::new(64, 0);
    let (rect, fresh) = atlas.place(glyph(7), 10, 12, 1).unwrap();
    assert!(fresh);
    assert_eq!(rect, [0, 0, 10, 12]);
    assert_eq!(atlas.place(glyph(7), 10, 12, 9), Some((rect, false)));
    assert!(!atlas.has_stale_entries(9));
    assert_eq!(atlas.place(glyph(8), 10, 10, 9), Some(([11, 0, 10, 10], true)));
    assert_eq!(atlas.place(glyph(9), 80, 10, 9), None);
    assert!(atlas.has_stale_entries(10));
}

#[test]
fn batches_split_only_where_the_image_changes() {
    let items = [(None, 3), (None, 2), (Some(7), 1), (Some(7), 1), (None, 4)];
    assert_eq!(image_batches(&items), vec![(None, 0, 5), (Some(7), 5, 7), (None, 7, 11)]);
    assert_eq!(image_batches(&[]), vec![]);
    assert_eq!(image_batches(&[(Some(1), 0), (None, 0)]), vec![]);
}

#[test]
fn an_item_that_draws_nothing_still_starts_a_batch_boundary() {
    let items = [(Some(1), 2), (Some(2), 0), (Some(1), 3)];
    assert_eq!(image_batches(&items), vec![(Some(1), 0, 2), (Some(1), 2, 5)]);
}

#[test]
fn a_frame_is_repainted_whole_without_a_matching_previous_one() {
    let black = Color::rgb(0, 0, 0);
    let white = Color::rgb(255, 255, 255);
    assert!(needs_full_repaint(None, 10, 10, black));
    assert!(needs_full_repaint(Some((10, 11, black)), 10, 10, black));
    assert!(needs_full_repaint(Some((10, 10, white)), 10, 10, black));
    assert!(!needs_full_repaint(Some((10, 10, black)), 10, 10, black));
}

#[test]
fn pairing_a_list_with_itself_reports_nothing() {
    assert!(pair(&[1, 2, 3, 4], &[1, 2, 3, 4]).is_empty());
}

#[test]
fn placed_glyph_rects_never_overlap() {
    let mut atlas = GlyphAtlas::new(32);
    let mut rects = Vec::new();
    for key in 0..40u64 {
        if let Some(r) = atlas.place(key, 3 + (key % 4) as u32, 2 + (key % 3) as u32) {
            rects.push(r);
        }
    }
    assert!(rects.len() > 10);
    for (i, a) in rects.iter().enumerate() {
        assert!(a.x + a.width <= 32 && a.y + a.height <= 32);
        for b in &rects[i + 1..] {
            let apart = a.x + a.width <= b.x || b.x + b.width <= a.x || a.y + a.height <= b.y || b.y + b.height <= a.y;
            assert!(apart, "{:?} overlaps {:?}", a, b);
        }
    }
}

#[test]
fn reassigned_instances_reuse_the_node_slots_in_order() {
    let mut store: SlotStore<u32> = SlotStore::new();
    assert_eq!((store.insert(10), store.insert(20), store.insert(30)), (0, 1, 2));
    store.remove(1, 0);
    let ids = store.reassign(&vec![0, 2], vec![11, 22, 33], 0);
    assert_eq!(ids, vec![0, 2, 1]);
    assert_eq!(store.instances(), &vec![11, 33, 22]);
    let ids = store.reassign(&vec![0, 2, 1], vec![5], 0);
    assert_eq!(ids, vec![0]);
    assert_eq!(store.instances(), &vec![5, 0, 0]);
    assert_eq!(store.insert(7), 1);
    assert_eq!(store.insert(8), 2);
    assert_eq!(store.insert(9), 3);
}

#[test]
fn new_glyphs_go_where_the_shelf_allocator_puts_them() {
    let key = |glyph: u16| GlyphKey { face: 0, glyph, px: 0 };
    let mut book = AtlasBook::new(33, 0);
    assert_eq!(book.place(key(1), 10, 10, 0), Some(([0, 0, 10, 10], true)));
    assert_eq!(book.place(key(2), 10, 10, 0), Some(([11, 0, 10, 10], true)));
    assert_eq!(book.place(key(3), 10, 20, 0), Some(([0, 11, 10, 20], true)));
    assert_eq!(book.place(key(4), 40, 1, 0), None);
    assert_eq!(book.place(key(5), 10, 10, 0), Some(([22, 0, 10, 10], true)));
    assert_eq!(book.place(key(6), 10, 10, 0), None);
    assert_eq!(book.place(key(2), 10, 10, 1), Some(([11, 0, 10, 10], false)));
}
