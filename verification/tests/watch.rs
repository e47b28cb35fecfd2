use live_watch::eframe_tools::ModalMachine;
use live_watch::files::{File, PathSteps, WatchList};
use live_watch::live_watch::settings::TextMode;
use live_watch::live_watch::watcher_keep::{
    classify_event, EventAction, EventKind, ModifyKind, RenameEvent, RenameMode, WatcherUpdate,
};

fn watch_path(steps: &[&str]) -> PathSteps {
    let v: Vec<String> = steps.iter().map(|s| (*s).to_string()).collect();
    PathSteps::new(v)
}

fn snapshot() -> Vec<(PathSteps, Option<Vec<u8>>)> {
    vec![
        (watch_path(&["r1", "dir"]), None),
        (watch_path(&["r1", "dir", "a.txt"]), Some(b"line1\nline2".to_vec())),
    ]
}

fn fresh_watch_list() -> (
    WatchList,
    tokio::sync::mpsc::Sender<WatcherUpdate>,
    PathSteps,
) {
    let (tx, rx) = tokio::sync::mpsc::channel::<WatcherUpdate>(8);
    let root = watch_path(&["r1", "dir"]);
    let (wl, logs) = WatchList::new(&root, "Watch List".to_string(), snapshot(), rx);
    assert_eq!(logs.len(), 0);
    (wl, tx, root)
}

fn selected_text(wl: &WatchList, mode: &TextMode) -> Option<Vec<String>> {
    wl.file_cache_ref().full_file().and_then(|form| form.get_file_text(mode).cloned())
}

#[test]
fn snapshot_seeds_cache_and_selection() {
    let (wl, _tx, _root) = fresh_watch_list();
    let keep_all = selected_text(&wl, &TextMode::AllNewline).unwrap();
    assert_eq!(keep_all, vec!["line1\n".to_string(), "line2".to_string()]);
    let skip_blank = selected_text(&wl, &TextMode::Newline).unwrap();
    assert_eq!(skip_blank, keep_all);
    let mm = wl.modal_machine_ref();
    assert_eq!(mm.options_len(), 2);
    assert!(mm.option_at(0).same_path(&watch_path(&["dir"])));
    assert!(mm.option_at(1).same_path(&watch_path(&["dir", "a.txt"])));
    assert!(mm.get_selected_option().same_path(&watch_path(&["dir", "a.txt"])));
}

#[test]
fn data_modify_event_reloads_content() {
    let (mut wl, tx, root) = fresh_watch_list();
    let abs = watch_path(&["r1", "dir", "a.txt"]);
    let action = classify_event(&EventKind::Modify(ModifyKind::Data), vec![abs.duplicate()]);
    match action {
        EventAction::Reload(paths) => {
            for p in &paths {
                let file = File::load_file(p, b"x".to_vec()).unwrap();
                tx.try_send(WatcherUpdate::new_content(file)).unwrap();
            }
        },
        _ => panic!("a data modification must ask for a reload"),
    }
    let logs = wl.handle_updates(&root);
    assert_eq!(logs.len(), 0);
    assert_eq!(selected_text(&wl, &TextMode::AllNewline).unwrap(), vec!["x".to_string()]);
    assert_eq!(selected_text(&wl, &TextMode::Standard).unwrap(), vec!["x".to_string()]);
}

#[test]
fn paired_rename_event_moves_the_key() {
    let (mut wl, tx, root) = fresh_watch_list();
    let from = watch_path(&["r1", "dir", "a.txt"]);
    let to = watch_path(&["r1", "dir", "b.txt"]);
    let action = classify_event(
        &EventKind::Modify(ModifyKind::Name(RenameMode::Both)),
        vec![from, to],
    );
    match action {
        EventAction::Rename(f, t) => {
            tx.try_send(WatcherUpdate::new_rename(f, t)).unwrap();
        },
        _ => panic!("a paired rename must become a rename record"),
    }
    let logs = wl.handle_updates(&root);
    assert_eq!(logs.len(), 0);
    // the old key is gone, the new key carries the prior content
    wl.file_cache_mut().current_file_set(watch_path(&["dir", "b.txt"]));
    assert_eq!(
        selected_text(&wl, &TextMode::AllNewline).unwrap(),
        vec!["line1\n".to_string(), "line2".to_string()]
    );
    wl.file_cache_mut().current_file_set(watch_path(&["dir", "a.txt"]));
    assert!(wl.file_cache_ref().full_file().is_none());
    // the selection list was rebuilt, ordered
    let mm = wl.modal_machine_ref();
    assert_eq!(mm.options_len(), 2);
    assert!(mm.option_at(0).same_path(&watch_path(&["dir"])));
    assert!(mm.option_at(1).same_path(&watch_path(&["dir", "b.txt"])));
}

#[test]
fn late_update_for_replaced_root_is_dropped() {
    let (mut wl, _tx, _old_root) = fresh_watch_list();
    let new_root = watch_path(&["r2", "dir"]);
    let keys_before: Vec<Vec<String>> =
        wl.file_cache_ref().keys().iter().map(|k| k.steps_ref().clone()).collect();
    let late_file = File::load_file(&watch_path(&["r1", "dir", "a.txt"]), b"stale".to_vec()).unwrap();
    let dropped = wl.apply_update(WatcherUpdate::new_content(late_file), &new_root);
    assert!(dropped.is_some());
    let keys_after: Vec<Vec<String>> =
        wl.file_cache_ref().keys().iter().map(|k| k.steps_ref().clone()).collect();
    assert_eq!(keys_before, keys_after);
    assert_eq!(
        selected_text(&wl, &TextMode::AllNewline).unwrap(),
        vec!["line1\n".to_string(), "line2".to_string()]
    );
}

#[test]
fn delete_update_forgets_the_key() {
    let (mut wl, tx, root) = fresh_watch_list();
    tx.try_send(WatcherUpdate::new_delete(watch_path(&["r1", "dir", "a.txt"]))).unwrap();
    let logs = wl.handle_updates(&root);
    assert_eq!(logs.len(), 0);
    assert!(wl.file_cache_ref().full_file().is_none());
    let mm = wl.modal_machine_ref();
    assert_eq!(mm.options_len(), 1);
    assert!(mm.option_at(0).same_path(&watch_path(&["dir"])));
}

#[test]
fn other_event_kinds_are_ignored() {
    let paths = || vec![watch_path(&["r1", "dir", "a.txt"])];
    assert!(matches!(classify_event(&EventKind::Create, paths()), EventAction::Ignore));
    assert!(matches!(classify_event(&EventKind::Access, paths()), EventAction::Ignore));
    assert!(matches!(classify_event(&EventKind::Remove, paths()), EventAction::Ignore));
    assert!(matches!(classify_event(&EventKind::Any, paths()), EventAction::Ignore));
    assert!(matches!(classify_event(&EventKind::Other, paths()), EventAction::Ignore));
    assert!(matches!(
        classify_event(&EventKind::Modify(ModifyKind::Metadata), paths()),
        EventAction::Ignore
    ));
}

#[test]
fn half_renames_are_ignored() {
    let paths = || vec![watch_path(&["r1", "dir", "a.txt"])];
    assert!(matches!(
        classify_event(&EventKind::Modify(ModifyKind::Name(RenameMode::From)), paths()),
        EventAction::Ignore
    ));
    assert!(matches!(
        classify_event(&EventKind::Modify(ModifyKind::Name(RenameMode::To)), paths()),
        EventAction::Ignore
    ));
    // a paired rename missing an endpoint is also ignored
    assert!(matches!(
        classify_event(&EventKind::Modify(ModifyKind::Name(RenameMode::Both)), paths()),
        EventAction::Ignore
    ));
}

#[test]
fn rename_event_exposes_both_endpoints() {
    let ev = RenameEvent::new(watch_path(&["a"]), watch_path(&["b"]));
    let (from, to) = ev.from_and_to_ref();
    assert!(from.same_path(&watch_path(&["a"])));
    assert!(to.same_path(&watch_path(&["b"])));
}

#[test]
fn modal_machine_event_cycle() {
    let mut mm = ModalMachine::new(
        watch_path(&["start"]),
        vec![watch_path(&["start"]), watch_path(&["next"])],
        "list".to_string(),
    );
    assert!(mm.use_event().is_none());
    mm.select_option(watch_path(&["next"]));
    let picked = mm.use_event().unwrap();
    assert!(picked.same_path(&watch_path(&["next"])));
    assert!(mm.use_event().is_none());
    mm.select_option(watch_path(&["start"]));
    mm.empty_event();
    assert!(mm.use_event().is_none());
    assert!(mm.get_selected_option().same_path(&watch_path(&["start"])));
}

#[test]
fn modal_machine_default_is_empty() {
    let mm = ModalMachine::default();
    assert_eq!(mm.options_len(), 0);
    assert_eq!(mm.get_selected_option().len(), 0);
}

#[test]
fn snapshot_with_unrelated_path_reports_it() {
    let (tx, rx) = tokio::sync::mpsc::channel::<WatcherUpdate>(2);
    drop(tx);
    let root = watch_path(&["r1", "dir"]);
    let list = vec![
        (watch_path(&["elsewhere", "x"]), Some(b"zz".to_vec())),
        (watch_path(&["r1", "dir", "ok.txt"]), Some(b"fine".to_vec())),
    ];
    let (wl, logs) = WatchList::new(&root, "w".to_string(), list, rx);
    assert_eq!(logs.len(), 1);
    assert_eq!(wl.modal_machine_ref().options_len(), 1);
}

#[test]
fn snapshot_keeps_non_utf8_file_without_content() {
    let (_tx, rx) = tokio::sync::mpsc::channel::<WatcherUpdate>(2);
    let root = watch_path(&["r1", "dir"]);
    let list = vec![(watch_path(&["r1", "dir", "bin"]), Some(vec![0xff, 0x00]))];
    let (mut wl, logs) = WatchList::new(&root, "w".to_string(), list, rx);
    assert_eq!(logs.len(), 1);
    assert_eq!(wl.modal_machine_ref().options_len(), 1);
    wl.file_cache_mut().current_file_set(watch_path(&["dir", "bin"]));
    assert!(wl.file_cache_ref().full_file().is_none());
}

#[test]
fn closed_channel_is_reported_not_fatal() {
    let (mut wl, tx, root) = fresh_watch_list();
    drop(tx);
    let logs = wl.handle_updates(&root);
    assert_eq!(logs.len(), 1);
}
