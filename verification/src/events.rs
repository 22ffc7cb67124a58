//! From a change on disk to what is to be done about it.

use vstd::prelude::*;
use crate::context::Removal;
use crate::context::under;
use crate::context::WatcherContext;
use crate::path::artifact_path;
use crate::path::is_artifact;
use crate::path::is_artifact_path;
use crate::path::is_source;
use crate::path::is_source_path;
use crate::path::normalized;
use crate::path::NormalizePath;
use crate::path::sibling_artifact;

verus! {

/// A change that the file system reports, with the path it is about.
#[derive(Debug)]
pub enum VfsEvent {
    Create(String),
    Write(String),
    Remove(String),
    Other,
}

/// What the file system shows at a path right now.
#[derive(Clone, Copy, Debug, PartialEq, Eq, Structural)]
pub enum PathState {
    File,
    Directory,
    Missing,
}

/// The kinds of answer to a change.
#[derive(Debug)]
pub enum Route {
    Ignore,
    Compile,
    ReloadConfig,
    ConfigRemoved,
    Rescan,
    Delete,
    Prune,
}

/// What the caller is to do after a change was handled.
#[derive(Debug)]
pub enum Action {
    /// Nothing.
    Ignore,
    /// Compile this source file, then those that derive from it.
    Compile(String),
    /// Read the configuration file at this path and hand its aliases over.
    ReloadConfig(String),
    /// Nothing: the configuration is gone and its aliases are out of force.
    ConfigRemoved,
    /// Walk this directory as if it had just been found.
    Rescan(String),
    /// Take the artifacts of this vanished source file off the disk.
    Delete(String, Removal),
    /// Nothing: what lay at or under this path has left the graphs.
    Prune(String),
}

/// The path that an event is about, in normal form. Events of other kinds
/// than creation, writing and removal are about none.
pub open spec fn event_path(event: VfsEvent) -> Option<Seq<char>> {
    match event {
        VfsEvent::Create(p) => Some(normalized(p@)),
        VfsEvent::Write(p) => Some(normalized(p@)),
        VfsEvent::Remove(p) => Some(normalized(p@)),
        VfsEvent::Other => None,
    }
}

/// How a change at `path` is answered, given the path of the bound
/// configuration and what the file system shows at `path`. The kind of the
/// event plays no part: a removal may be reported for a file that is there.
pub open spec fn route(path: Seq<char>, config: Option<Seq<char>>, state: PathState) -> Route {
    if is_artifact_path(path) {
        Route::Ignore
    } else if config == Some(path) && state == PathState::File {
        Route::ReloadConfig
    } else if config == Some(path) && state == PathState::Missing {
        Route::ConfigRemoved
    } else {
        match state {
            PathState::File => if is_source_path(path) {
                Route::Compile
            } else {
                Route::Ignore
            },
            PathState::Directory => Route::Rescan,
            PathState::Missing => if is_source_path(path) {
                Route::Delete
            } else {
                Route::Prune
            },
        }
    }
}

/// The roots and the bound configuration's path are the same.
pub open spec fn same_frame(was: WatcherContext, now: WatcherContext) -> bool {
    &&& now.input_dir == was.input_dir
    &&& now.output_dir == was.output_dir
    &&& now.config_path() == was.config_path()
}

/// `now` is `was` made ready for compiling `p`: what `p` derived from is
/// forgotten.
pub open spec fn compiling(was: WatcherContext, now: WatcherContext, p: Seq<char>) -> bool {
    &&& same_frame(was, now)
    &&& now.luaurc == was.luaurc
    &&& now.dependencies.model() == was.dependencies.model().without_rights(set![p])
}

/// `now` is `was` without the aliases of its configuration.
pub open spec fn config_cleared(was: WatcherContext, now: WatcherContext) -> bool {
    &&& same_frame(was, now)
    &&& now.dependencies == was.dependencies
    &&& now.alias_graph() == was.alias_graph()
    &&& now.alias_table() == Map::<Seq<char>, Seq<char>>::empty()
}

/// `now` is `was` after the source file `p` is gone.
pub open spec fn deleted(was: WatcherContext, now: WatcherContext, p: Seq<char>) -> bool {
    &&& same_frame(was, now)
    &&& now.alias_table() == was.alias_table()
    &&& now.dependencies.model() == was.dependencies.model().without_lefts(set![p])
    &&& now.alias_graph() == was.alias_graph().without_rights(set![p])
}

/// `now` is `was` after all at or under `p` is gone.
pub open spec fn pruned(was: WatcherContext, now: WatcherContext, p: Seq<char>) -> bool {
    &&& same_frame(was, now)
    &&& now.alias_table() == was.alias_table()
    &&& now.dependencies.model() == was.dependencies.model().without_lefts(under(p)).without_rights(
        under(p),
    )
    &&& now.alias_graph() == was.alias_graph().without_rights(under(p))
}

/// The files to remove for the vanished source `p` are the artifact built
/// from it and the one that may stand beside it.
pub open spec fn removes(was: WatcherContext, p: Seq<char>, removal: Removal) -> bool {
    &&& match removal.artifact {
        Some(a) => Some(a@) == artifact_path(was.input_dir@, was.output_dir@, p),
        None => artifact_path(was.input_dir@, was.output_dir@, p) is None,
    }
    &&& removal.legacy@ == sibling_artifact(p)
}

/// `action` with the step from `was` to `now` answers `event`.
pub open spec fn handled(
    was: WatcherContext,
    now: WatcherContext,
    event: VfsEvent,
    state: PathState,
    action: Action,
) -> bool {
    match event_path(event) {
        None => action is Ignore && now == was,
        Some(p) => match route(p, was.config_path(), state) {
            Route::Ignore => action is Ignore && now == was,
            Route::Compile => action matches Action::Compile(f) && f@ == p && compiling(was, now, p),
            Route::ReloadConfig => action matches Action::ReloadConfig(f) && f@ == p && now == was,
            Route::ConfigRemoved => action is ConfigRemoved && config_cleared(was, now),
            Route::Rescan => action matches Action::Rescan(f) && f@ == p && now == was,
            Route::Delete => action matches Action::Delete(f, removal) && f@ == p && deleted(
                was,
                now,
                p,
            ) && removes(was, p, removal),
            Route::Prune => action matches Action::Prune(f) && f@ == p && pruned(was, now, p),
        },
    }
}

impl WatcherContext {
    /// Answers a change on disk. `state` is what the file system shows at
    /// the normal form of the event's path; the event's kind is not trusted.
    /// The graphs are brought in step at once; what remains to be done
    /// outside is the result.
    pub fn handle_vfs_event(&mut self, event: &VfsEvent, state: PathState) -> (action: Action)
        requires
            old(self).wf(),
        ensures
            final(self).wf(),
            handled(*old(self), *final(self), *event, state, action),
    {
        let path = match event {
            VfsEvent::Create(p) => p.normalize(),
            VfsEvent::Write(p) => p.normalize(),
            VfsEvent::Remove(p) => p.normalize(),
            VfsEvent::Other => {
                return Action::Ignore;
            },
        };
        if is_artifact(path.as_str()) {
            return Action::Ignore;
        }
        let is_config = match &self.luaurc {
            Some(bound) => bound.0 == path,
            None => false,
        };
        let source = is_source(path.as_str());
        match state {
            PathState::File => {
                if is_config {
                    Action::ReloadConfig(path)
                } else if source {
                    self.begin_compile(&path);
                    Action::Compile(path)
                } else {
                    Action::Ignore
                }
            },
            PathState::Directory => Action::Rescan(path),
            PathState::Missing => {
                if is_config {
                    self.luaurc_removed();
                    Action::ConfigRemoved
                } else if source {
                    let removal = self.delete_file(&path);
                    Action::Delete(path, removal)
                } else {
                    self.prune_dependencies(&path);
                    Action::Prune(path)
                }
            },
        }
    }
}

/// What reaches the watch loop.
#[derive(Clone, Copy, Debug, PartialEq, Eq, Structural)]
pub enum Signal {
    /// The file system reported a change.
    Change,
    /// The channel of changes failed.
    ReceiveError,
    /// The owner asked the loop to end.
    Shutdown,
}

/// What the watch loop does with what reached it.
#[derive(Clone, Copy, Debug, PartialEq, Eq, Structural)]
pub enum LoopStep {
    /// Hand the change to `handle_vfs_event` and go on.
    Handle,
    /// Drop the change and go on.
    Discard,
    /// Leave the loop.
    Stop,
}

/// The time after the start of the watch during which changes are dropped,
/// in nanoseconds: the writes of the first build are still arriving.
pub const SETTLE_NANOS: u128 = 200_000_000;

/// Whether the watch has run for longer than the settle time.
pub fn settled(elapsed_nanos: u128) -> (r: bool)
    ensures
        r == (elapsed_nanos > 200_000_000),
{
    elapsed_nanos > SETTLE_NANOS
}

/// What the watch loop does next. A change is handled once the settle time
/// is over and dropped before; a failed channel and a shutdown end the loop.
pub fn watch_step(signal: Signal, elapsed_nanos: u128) -> (step: LoopStep)
    ensures
        step == match signal {
            Signal::Change => if elapsed_nanos > 200_000_000 {
                LoopStep::Handle
            } else {
                LoopStep::Discard
            },
            Signal::ReceiveError => LoopStep::Stop,
            Signal::Shutdown => LoopStep::Stop,
        },
{
    match signal {
        Signal::Change => if settled(elapsed_nanos) {
            LoopStep::Handle
        } else {
            LoopStep::Discard
        },
        Signal::ReceiveError => LoopStep::Stop,
        Signal::Shutdown => LoopStep::Stop,
    }
}

} // verus!
