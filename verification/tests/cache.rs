use live_watch::files::{File, FileCache, PathSteps};
use live_watch::live_watch::settings::TextMode;

fn cache_path(steps: &[&str]) -> PathSteps {
    let v: Vec<String> = steps.iter().map(|s| (*s).to_string()).collect();
    PathSteps::new(v)
}

fn loaded(steps: &[&str], text: &str) -> File {
    File::load_file(&cache_path(steps), text.as_bytes().to_vec()).unwrap()
}

fn seeded() -> FileCache {
    FileCache::new(
        cache_path(&["r", "dir"]),
        cache_path(&["dir", "a.txt"]),
        vec![
            (cache_path(&["dir"]), None),
            (cache_path(&["dir", "a.txt"]), Some(loaded(&["r", "dir", "a.txt"], "alpha"))),
            (cache_path(&["dir", "b.txt"]), Some(loaded(&["r", "dir", "b.txt"], "beta"))),
        ],
    )
}

fn key_names(cache: &FileCache) -> Vec<Vec<String>> {
    cache.keys().iter().map(|k| k.steps_ref().clone()).collect()
}

fn standard_of(cache: &FileCache) -> Option<String> {
    cache.full_file().and_then(|form| {
        form.get_file_text(&TextMode::Standard).map(|v| v.join(""))
    })
}

#[test]
fn current_returns_selected_content() {
    let cache = seeded();
    assert_eq!(standard_of(&cache), Some("alpha".to_string()));
}

#[test]
fn selecting_a_directory_returns_nothing() {
    let mut cache = seeded();
    cache.current_file_set(cache_path(&["dir"]));
    assert!(cache.full_file().is_none());
}

#[test]
fn selecting_an_unknown_key_returns_nothing() {
    let mut cache = seeded();
    cache.current_file_set(cache_path(&["dir", "missing.txt"]));
    assert!(cache.full_file().is_none());
}

#[test]
fn content_update_replaces_tracked_entry() {
    let mut cache = seeded();
    let updated = cache.apply_content_update(
        &cache_path(&["dir", "a.txt"]),
        loaded(&["r", "dir", "a.txt"], "fresh"),
    );
    assert!(updated);
    assert_eq!(standard_of(&cache), Some("fresh".to_string()));
}

#[test]
fn content_update_for_untracked_key_is_a_no_op() {
    let mut cache = seeded();
    let before = key_names(&cache);
    let updated = cache.apply_content_update(
        &cache_path(&["dir", "new.txt"]),
        loaded(&["r", "dir", "new.txt"], "nope"),
    );
    assert!(!updated);
    assert_eq!(key_names(&cache), before);
    assert_eq!(standard_of(&cache), Some("alpha".to_string()));
    cache.current_file_set(cache_path(&["dir", "b.txt"]));
    assert_eq!(standard_of(&cache), Some("beta".to_string()));
}

#[test]
fn rename_moves_the_entry_and_its_content() {
    let mut cache = seeded();
    let renamed = cache.apply_rename(&cache_path(&["dir", "a.txt"]), &cache_path(&["dir", "c.txt"]));
    assert!(renamed);
    cache.current_file_set(cache_path(&["dir", "a.txt"]));
    assert!(cache.full_file().is_none());
    cache.current_file_set(cache_path(&["dir", "c.txt"]));
    assert_eq!(standard_of(&cache), Some("alpha".to_string()));
}

#[test]
fn rename_of_absent_key_changes_nothing() {
    let mut cache = seeded();
    let before = key_names(&cache);
    let renamed = cache.apply_rename(&cache_path(&["dir", "zz"]), &cache_path(&["dir", "c.txt"]));
    assert!(!renamed);
    assert_eq!(key_names(&cache), before);
    cache.current_file_set(cache_path(&["dir", "c.txt"]));
    assert!(cache.full_file().is_none());
}

#[test]
fn remove_entry_forgets_the_key() {
    let mut cache = seeded();
    let removed = cache.remove_entry(&cache_path(&["dir", "a.txt"]));
    assert!(removed);
    assert!(cache.full_file().is_none());
    assert!(!cache.remove_entry(&cache_path(&["dir", "a.txt"])));
}

#[test]
fn later_snapshot_pair_overrides_earlier() {
    let cache = FileCache::new(
        cache_path(&["r"]),
        cache_path(&["k"]),
        vec![
            (cache_path(&["k"]), Some(loaded(&["r", "k"], "old"))),
            (cache_path(&["k"]), Some(loaded(&["r", "k"], "new"))),
        ],
    );
    assert_eq!(standard_of(&cache), Some("new".to_string()));
    assert_eq!(cache.keys().len(), 1);
}
