use vstd::prelude::*;

use crate::files::{File, PathSteps};

verus! {

/// A rename the watcher observed, both endpoints as absolute paths.
pub struct RenameEvent {
    from: PathSteps,
    to: PathSteps,
}

impl RenameEvent {
    pub closed spec fn from_spec(&self) -> Seq<Seq<char>> {
        self.from@
    }

    pub closed spec fn to_spec(&self) -> Seq<Seq<char>> {
        self.to@
    }

    pub fn new(from: PathSteps, to: PathSteps) -> (r: RenameEvent)
        ensures
            r.from_spec() == from@,
            r.to_spec() == to@,
    {
        RenameEvent { from, to }
    }

    pub fn from_and_to_ref(&self) -> (r: (&PathSteps, &PathSteps))
        ensures
            r.0@ == self.from_spec(),
            r.1@ == self.to_spec(),
    {
        (&self.from, &self.to)
    }
}

/// One message from the watch pipeline to the reconciler.
pub enum WatcherUpdate {
    /// A file's content was reloaded; the payload carries its absolute
    /// path and the fresh views.
    FileContent(File),
    /// A file moved from one absolute path to another.
    FileRename(RenameEvent),
    /// A file at an absolute path is gone.
    FileDelete(PathSteps),
}

impl WatcherUpdate {
    pub fn new_content(file: File) -> (r: WatcherUpdate)
        ensures
            r == WatcherUpdate::FileContent(file),
    {
        WatcherUpdate::FileContent(file)
    }

    pub fn new_rename(from: PathSteps, to: PathSteps) -> (r: WatcherUpdate)
        ensures
            r matches WatcherUpdate::FileRename(ev) && ev.from_spec() == from@ && ev.to_spec()
                == to@,
    {
        WatcherUpdate::FileRename(RenameEvent::new(from, to))
    }

    pub fn new_delete(deleted_path: PathSteps) -> (r: WatcherUpdate)
        ensures
            r == WatcherUpdate::FileDelete(deleted_path),
    {
        WatcherUpdate::FileDelete(deleted_path)
    }
}

/// Which half of a rename a notification reports.
#[derive(Debug, PartialEq, Eq, Structural, Clone, Copy)]
pub enum RenameMode {
    Any,
    To,
    From,
    /// Both endpoints in one notification, ordered from then to.
    Both,
    Other,
}

/// What about a watched entry changed.
#[derive(Debug, PartialEq, Eq, Structural, Clone, Copy)]
pub enum ModifyKind {
    Any,
    /// The entry's data changed.
    Data,
    /// Only metadata changed.
    Metadata,
    /// The entry was renamed.
    Name(RenameMode),
    Other,
}

/// The kind of one raw watch notification.
#[derive(Debug, PartialEq, Eq, Structural, Clone, Copy)]
pub enum EventKind {
    Any,
    Access,
    Create,
    Modify(ModifyKind),
    Remove,
    Other,
}

/// What the pipeline does with one raw notification.
pub enum EventAction {
    /// Reload the content of each path, in order.
    Reload(Vec<PathSteps>),
    /// Record that the first path moved to the second.
    Rename(PathSteps, PathSteps),
    /// Log only: no cache effect.
    Ignore,
}

/// Classifies one raw notification. Only data modifications and paired
/// renames act on the cache: a data change reloads every affected path;
/// a paired rename with its two endpoints becomes a rename record; every
/// other kind, a half rename, and a paired rename missing an endpoint
/// are ignored.
pub fn classify_event(kind: &EventKind, effected_paths: Vec<PathSteps>) -> (r: EventAction)
    ensures
        match *kind {
            EventKind::Modify(ModifyKind::Data) => r matches EventAction::Reload(v) && v
                == effected_paths,
            EventKind::Modify(ModifyKind::Name(RenameMode::Both)) => {
                if effected_paths@.len() >= 2 {
                    r matches EventAction::Rename(f, t) && f == effected_paths@[0] && t
                        == effected_paths@[1]
                } else {
                    r matches EventAction::Ignore
                }
            },
            _ => r matches EventAction::Ignore,
        },
{
    match kind {
        EventKind::Modify(ModifyKind::Data) => EventAction::Reload(effected_paths),
        EventKind::Modify(ModifyKind::Name(RenameMode::Both)) => {
            if effected_paths.len() >= 2 {
                let mut effected_paths = effected_paths;
                let ghost orig_paths = effected_paths@;
                let from = effected_paths.remove(0);
                let to = effected_paths.remove(0);
                proof {
                    orig_paths.remove_ensures(0);
                    assert(orig_paths.remove(0)[0] == orig_paths[1]);
                }
                EventAction::Rename(from, to)
            } else {
                EventAction::Ignore
            }
        },
        _ => EventAction::Ignore,
    }
}


#[verifier::external_type_specification]
#[verifier::external_body]
#[verifier::reject_recursive_types(T)]
pub struct ExSender<T>(tokio::sync::mpsc::Sender<T>);

#[verifier::external_type_specification]
#[verifier::external_body]
#[verifier::reject_recursive_types(T)]
pub struct ExReceiver<T>(tokio::sync::mpsc::Receiver<T>);

/// What one non-blocking poll of the update channel yielded.
pub enum RecvOutcome {
    /// A message was waiting.
    Update(WatcherUpdate),
    /// Nothing is queued right now.
    Empty,
    /// The sending side is gone.
    Closed,
}

/// Relies on tokio::sync::mpsc::Receiver::try_recv: hands out a queued
/// message without blocking, or reports the channel empty or closed.
#[verifier::external_body]
pub(crate) fn try_recv_update(rx: &mut tokio::sync::mpsc::Receiver<WatcherUpdate>) -> (r:
    RecvOutcome) {
    match rx.try_recv() {
        Ok(u) => RecvOutcome::Update(u),
        Err(tokio::sync::mpsc::error::TryRecvError::Empty) => RecvOutcome::Empty,
        Err(tokio::sync::mpsc::error::TryRecvError::Disconnected) => RecvOutcome::Closed,
    }
}

} // verus!
