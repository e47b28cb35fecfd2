pub mod settings;
pub mod watcher_keep;
