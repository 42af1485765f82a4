use leftright::engine::{EngineState, SortEngine};
use leftright::loader::LoaderPool;
use leftright::setup::parse_categories;
use leftright::texture::TextureCache;

fn strings(names: &[&str]) -> Vec<String> {
    names.iter().map(|n| n.to_string()).collect()
}

fn active(e: &SortEngine) -> Vec<String> {
    (0..e.image_count()).map(|i| e.image_at(i)).collect()
}

/// Sets up the two-category engine of the walkthrough and loads both
/// textures.
fn setup_keep_discard() -> SortEngine {
    let mut e = SortEngine::new();
    assert_eq!(e.state(), EngineState::Setup);
    let cats = parse_categories(&"keep, discard".to_string()).unwrap();
    e.set_categories(cats);
    let to_load = e.rescan(&strings(&["a.jpg", "b.png", "c.txt"]));
    assert_eq!(to_load.len(), 2);
    assert_eq!(e.state(), EngineState::Loading);
    e.complete_load(&"a.jpg".to_string(), 1);
    e.complete_load(&"b.png".to_string(), 2);
    assert_eq!(e.state(), EngineState::Ready);
    e.set_layout(400, 300, 200);
    e
}

#[test]
fn scan_sets_up_active_list_and_empty_buckets() {
    let e = setup_keep_discard();
    assert_eq!(active(&e), strings(&["a.jpg", "b.png"]));
    assert_eq!(e.current_index(), Some(0));
    assert_eq!(e.category_count(), 2);
    assert_eq!(e.category_at(0), "keep".to_string());
    assert_eq!(e.category_at(1), "discard".to_string());
    assert_eq!(e.bucket_file_count(0), 0);
    assert_eq!(e.bucket_file_count(1), 0);
}

#[test]
fn move_then_finish_animation_rekeys_texture_into_bucket() {
    let mut e = setup_keep_discard();
    let action = e.move_current(0, 1000, 400, 300).unwrap();
    assert_eq!(action.from, "a.jpg".to_string());
    assert_eq!(action.to, "keep/a.jpg".to_string());
    assert_eq!(active(&e), strings(&["b.png"]));
    assert_eq!(e.moves_count(), 1);
    let rec = e.move_at(0);
    assert_eq!(rec.0, "a.jpg".to_string());
    assert_eq!(rec.1, "keep/a.jpg".to_string());
    assert_eq!(rec.2, 1000);
    assert_eq!(e.animation_count(), 1);
    assert_eq!(e.pending_count(), 1);
    // While the animation runs, the texture stays under the source key.
    e.tick(1250);
    assert_eq!(e.texture_of(&"a.jpg".to_string()), Some(1));
    assert_eq!(e.pending_count(), 1);
    // Once the duration has elapsed the move is durable.
    e.tick(1500);
    assert_eq!(e.animation_count(), 0);
    assert_eq!(e.pending_count(), 0);
    assert_eq!(e.texture_of(&"a.jpg".to_string()), None);
    assert_eq!(e.texture_of(&"keep/a.jpg".to_string()), Some(1));
    assert_eq!(e.bucket_file_count(0), 1);
    assert_eq!(e.bucket_file_at(0, 0), "keep/a.jpg".to_string());
    let visible = e.bucket_visible(0);
    assert_eq!(visible.len(), 1);
    assert_eq!(visible[0], ("keep/a.jpg".to_string(), 0));
}

#[test]
fn undo_before_animation_finishes_reverts_cleanly() {
    let mut e = setup_keep_discard();
    let action = e.move_current(0, 1000, 400, 300).unwrap();
    assert_eq!(action.to, "keep/a.jpg".to_string());
    // Undo before the animation is over: the reverse rename is returned
    // and the image returns to its original index.
    let back = e.undo().unwrap();
    assert_eq!(back.from, "keep/a.jpg".to_string());
    assert_eq!(back.to, "a.jpg".to_string());
    assert_eq!(active(&e), strings(&["a.jpg", "b.png"]));
    assert_eq!(e.current_index(), Some(0));
    assert_eq!(e.moves_count(), 0);
    assert_eq!(e.pending_count(), 0);
    // The in-flight animation may still render, and finishing it must not
    // disturb the reverted state.
    assert_eq!(e.animation_count(), 1);
    e.tick(2000);
    assert_eq!(e.animation_count(), 0);
    assert_eq!(e.texture_of(&"a.jpg".to_string()), Some(1));
    assert_eq!(e.texture_of(&"keep/a.jpg".to_string()), None);
    assert_eq!(e.bucket_file_count(0), 0);
}

#[test]
fn moves_then_undos_restore_everything() {
    let mut e = setup_keep_discard();
    let before_active = active(&e);
    e.move_current(0, 1000, 400, 300).unwrap();
    e.move_current(1, 1100, 400, 300).unwrap();
    assert_eq!(active(&e), Vec::<String>::new());
    assert_eq!(e.state(), EngineState::Empty);
    e.undo().unwrap();
    e.undo().unwrap();
    assert_eq!(active(&e), before_active);
    assert_eq!(e.moves_count(), 0);
    assert_eq!(e.pending_count(), 0);
    assert_eq!(e.texture_of(&"a.jpg".to_string()), Some(1));
    assert_eq!(e.texture_of(&"b.png".to_string()), Some(2));
    assert_eq!(e.texture_of(&"keep/a.jpg".to_string()), None);
    assert_eq!(e.texture_of(&"discard/b.png".to_string()), None);
}

#[test]
fn move_with_no_current_image_changes_nothing() {
    let mut e = SortEngine::new();
    e.set_categories(strings(&["keep"]));
    assert!(e.move_current(0, 1000, 0, 0).is_none());
    assert_eq!(e.image_count(), 0);
    assert_eq!(e.moves_count(), 0);
    // A direction beyond the configured categories is a no-op too.
    let mut e = setup_keep_discard();
    assert!(e.move_current(2, 1000, 400, 300).is_none());
    assert_eq!(active(&e), strings(&["a.jpg", "b.png"]));
    assert_eq!(e.moves_count(), 0);
}

#[test]
fn undo_on_empty_history_changes_nothing() {
    let mut e = setup_keep_discard();
    assert!(e.undo().is_none());
    assert_eq!(active(&e), strings(&["a.jpg", "b.png"]));
    assert_eq!(e.current_index(), Some(0));
    assert_eq!(e.moves_count(), 0);
    assert_eq!(e.pending_count(), 0);
    assert_eq!(e.texture_of(&"a.jpg".to_string()), Some(1));
}

#[test]
fn duplicate_requests_produce_no_duplicate_work() {
    let mut pool = LoaderPool::new();
    let mut cache = TextureCache::new();
    let p = "a.jpg".to_string();
    assert!(pool.request(&cache, &p));
    // Already pending: no second work item.
    assert!(!pool.request(&cache, &p));
    assert_eq!(pool.pending_count(), 1);
    pool.complete(&p);
    cache.insert(p.clone(), 7);
    // Already cached: no work item either.
    assert!(!pool.request(&cache, &p));
    assert_eq!(pool.pending_count(), 0);
}

#[test]
fn rescanning_requests_only_missing_textures() {
    let mut e = SortEngine::new();
    e.set_categories(strings(&["keep"]));
    let first = e.rescan(&strings(&["a.jpg", "b.png"]));
    assert_eq!(first.len(), 2);
    e.complete_load(&"a.jpg".to_string(), 1);
    // A rescan asks for nothing already cached (a.jpg) nor still in
    // flight (b.png).
    let second = e.rescan(&strings(&["a.jpg", "b.png"]));
    assert_eq!(second, Vec::<String>::new());
    let (loaded, total) = e.progress();
    assert_eq!((loaded, total), (1, 2));
    // Once b.png's decode lands, only a genuinely new file is requested.
    e.complete_load(&"b.png".to_string(), 2);
    let third = e.rescan(&strings(&["a.jpg", "b.png", "c.gif"]));
    assert_eq!(third, vec!["c.gif".to_string()]);
}

#[test]
fn window_preloads_current_and_next_two() {
    let mut e = SortEngine::new();
    e.set_categories(strings(&["keep"]));
    let all = e.rescan(&strings(&["a.jpg", "b.jpg", "c.jpg", "d.jpg"]));
    assert_eq!(all.len(), 4);
    for (i, p) in all.iter().enumerate() {
        e.complete_load(p, i as u64);
    }
    // Everything is cached, so the look-ahead needs nothing.
    assert_eq!(e.ensure_window_loaded().len(), 0);
}

#[test]
fn bucket_listing_refresh_replaces_files() {
    let mut e = setup_keep_discard();
    e.set_bucket_files(0, strings(&["keep/x.jpg", "keep/y.png"]));
    assert_eq!(e.bucket_file_count(0), 2);
    assert_eq!(e.bucket_file_at(0, 1), "keep/y.png".to_string());
    assert_eq!(e.bucket_file_count(1), 0);
}

#[test]
fn texture_cache_rekey_keeps_the_handle() {
    let mut cache = TextureCache::new();
    cache.insert("a.jpg".to_string(), 5);
    assert_eq!(cache.len(), 1);
    cache.rekey(&"a.jpg".to_string(), "keep/a.jpg".to_string());
    assert_eq!(cache.get(&"a.jpg".to_string()), None);
    assert_eq!(cache.get(&"keep/a.jpg".to_string()), Some(5));
    assert_eq!(cache.len(), 1);
    assert_eq!(cache.remove(&"keep/a.jpg".to_string()), Some(5));
    assert_eq!(cache.len(), 0);
}

#[test]
fn move_without_cached_texture_skips_the_animation_only() {
    let mut e = SortEngine::new();
    e.set_categories(strings(&["keep"]));
    e.rescan(&strings(&["a.jpg"]));
    // The decode has not arrived: the move is still recorded and the
    // rename still happens, but no animation or pending move is made.
    let action = e.move_current(0, 1000, 400, 300).unwrap();
    assert_eq!(action.to, "keep/a.jpg".to_string());
    assert_eq!(e.moves_count(), 1);
    assert_eq!(e.animation_count(), 0);
    assert_eq!(e.pending_count(), 0);
    assert_eq!(e.image_count(), 0);
}

#[test]
fn undo_after_animation_finished_rekeys_back_and_clears_bucket() {
    let mut e = setup_keep_discard();
    e.move_current(0, 1000, 400, 300).unwrap();
    e.tick(1500);
    assert_eq!(e.bucket_file_count(0), 1);
    assert_eq!(e.texture_of(&"keep/a.jpg".to_string()), Some(1));
    let back = e.undo().unwrap();
    assert_eq!(back.from, "keep/a.jpg".to_string());
    assert_eq!(back.to, "a.jpg".to_string());
    assert_eq!(active(&e), strings(&["a.jpg", "b.png"]));
    assert_eq!(e.texture_of(&"a.jpg".to_string()), Some(1));
    assert_eq!(e.texture_of(&"keep/a.jpg".to_string()), None);
    assert_eq!(e.bucket_file_count(0), 0);
}
