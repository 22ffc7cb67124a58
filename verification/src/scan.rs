//! Walking a directory tree: which roots to walk and in which order, what
//! to do with each entry met, and when a generated artifact is stale.

use vstd::prelude::*;
use crate::context::WatcherContext;
use crate::events::PathState;
use crate::path::chars_of;
use crate::path::ends_with;
use crate::path::has_suffix;
use crate::path::is_artifact;
use crate::path::is_artifact_path;
use crate::path::is_source;
use crate::path::is_source_path;
use crate::path::join_chars;
use crate::path::joined_paths;
use crate::path::normalize_chars;
use crate::path::normalized;
use crate::path::relative_path;
use crate::path::relative_to;
use crate::path::source_suffix;

verus! {

/// What a walk is for.
#[derive(Clone, Copy, Debug, PartialEq, Eq, Structural)]
pub enum ScanMode {
    /// Compile sources and look for stale artifacts in one walk.
    CreateAndClean,
    /// Compile sources.
    Create,
    /// Look for stale artifacts.
    Clean,
}

/// What to do with one entry of a directory.
#[derive(Clone, Copy, Debug, PartialEq, Eq, Structural)]
pub enum ScanStep {
    /// Walk the directory that the entry is.
    Descend,
    /// Compile the source file, without going on to those that derive from
    /// it: the walk reaches them by itself.
    Compile,
    /// Read the artifact's identity and remove the artifact if it is stale.
    Inspect,
    /// Nothing.
    Skip,
}

/// One walk over the tree below `root`.
#[derive(Debug)]
pub struct ScanPass {
    pub root: String,
    pub mode: ScanMode,
}

/// What a walk in `mode` does with the entry at `path`, of which the file
/// system shows `state`.
pub open spec fn scan_step(mode: ScanMode, path: Seq<char>, state: PathState) -> ScanStep {
    match state {
        PathState::Directory => ScanStep::Descend,
        PathState::File => if mode != ScanMode::Clean && is_source_path(path) {
            ScanStep::Compile
        } else if mode != ScanMode::Create && is_artifact_path(path) {
            ScanStep::Inspect
        } else {
            ScanStep::Skip
        },
        PathState::Missing => ScanStep::Skip,
    }
}

/// What a walk in `mode` does with the entry at `path`.
pub fn scan_entry(mode: ScanMode, path: &str, state: PathState) -> (step: ScanStep)
    ensures
        step == scan_step(mode, path@, state),
{
    match state {
        PathState::Directory => ScanStep::Descend,
        PathState::File => {
            if mode != ScanMode::Clean && is_source(path) {
                ScanStep::Compile
            } else if mode != ScanMode::Create && is_artifact(path) {
                ScanStep::Inspect
            } else {
                ScanStep::Skip
            }
        },
        PathState::Missing => ScanStep::Skip,
    }
}

/// The identity that a generated artifact carries: the path of its source,
/// relative to the input root.
#[derive(Debug)]
pub struct ModelJsonId {
    pub id: String,
}

/// Whether the artifact says that it was built from a source file.
pub fn model_json_is_rsml(model: &ModelJsonId) -> (r: bool)
    ensures
        r == ends_with(model.id@, source_suffix()),
{
    let suffix = vec!['.', 'r', 's', 'm', 'l'];
    proof {
        assert(suffix@ =~= source_suffix());
    }
    has_suffix(&chars_of(model.id.as_str()), &suffix)
}

/// Whether an artifact is to be removed: it says that it was built from a
/// source file, and that file is no longer there. An artifact of any other
/// origin stays, and so does one whose source exists.
pub fn artifact_is_stale(model: &ModelJsonId, source_exists: bool) -> (r: bool)
    ensures
        r == (ends_with(model.id@, source_suffix()) && !source_exists),
{
    !source_exists && model_json_is_rsml(model)
}

impl WatcherContext {
    /// The identity that the artifact of the source `path` carries: the
    /// normal form of `path` relative to the input root. A file outside the
    /// input root has none.
    pub fn source_id(&self, path: &str) -> (r: Option<ModelJsonId>)
        ensures
            match r {
                Some(model) => Some(model.id@) == relative_path(normalized(path@), self.input_dir@),
                None => relative_path(normalized(path@), self.input_dir@) is None,
            },
    {
        let normal = normalize_chars(&chars_of(path));
        match relative_to(normal.as_str(), self.input_dir.as_str()) {
            Some(id) => Some(ModelJsonId { id }),
            None => None,
        }
    }

    /// The source file that an artifact's identity points at.
    pub fn source_of(&self, model: &ModelJsonId) -> (r: String)
        ensures
            r@ == normalized(joined_paths(self.input_dir@, model.id@)),
    {
        normalize_chars(
            &join_chars(&chars_of(self.input_dir.as_str()), &chars_of(model.id.as_str())),
        )
    }

    /// The walks that bring the part of the tree at `offset_dir` up to
    /// date, in the order in which to make them. With one root for sources
    /// and artifacts a single walk does both jobs. With two, stale artifacts
    /// go first, so that none is left over from a source that is gone, and
    /// the sources are compiled after.
    pub fn recursive_scan(&self, offset_dir: &str) -> (passes: Vec<ScanPass>)
        ensures
            self.input_dir@ == self.output_dir@ ==> {
                &&& passes@.len() == 1
                &&& passes@[0].mode == ScanMode::CreateAndClean
                &&& passes@[0].root@ == normalized(joined_paths(self.input_dir@, offset_dir@))
            },
            self.input_dir@ != self.output_dir@ ==> {
                &&& passes@.len() == 2
                &&& passes@[0].mode == ScanMode::Clean
                &&& passes@[0].root@ == normalized(joined_paths(self.output_dir@, offset_dir@))
                &&& passes@[1].mode == ScanMode::Create
                &&& passes@[1].root@ == normalized(joined_paths(self.input_dir@, offset_dir@))
            },
    {
        let offset = chars_of(offset_dir);
        let in_root = normalize_chars(&join_chars(&chars_of(self.input_dir.as_str()), &offset));
        let mut passes: Vec<ScanPass> = Vec::new();
        if self.input_dir == self.output_dir {
            passes.push(ScanPass { root: in_root, mode: ScanMode::CreateAndClean });
        } else {
            let out_root = normalize_chars(
                &join_chars(&chars_of(self.output_dir.as_str()), &offset),
            );
            passes.push(ScanPass { root: out_root, mode: ScanMode::Clean });
            passes.push(ScanPass { root: in_root, mode: ScanMode::Create });
        }
        passes
    }

    /// The walks that bring the whole tree up to date at startup.
    pub fn initialize(&self) -> (passes: Vec<ScanPass>)
        ensures
            self.input_dir@ == self.output_dir@ ==> {
                &&& passes@.len() == 1
                &&& passes@[0].mode == ScanMode::CreateAndClean
                &&& passes@[0].root@ == normalized(joined_paths(self.input_dir@, Seq::empty()))
            },
            self.input_dir@ != self.output_dir@ ==> {
                &&& passes@.len() == 2
                &&& passes@[0].mode == ScanMode::Clean
                &&& passes@[0].root@ == normalized(joined_paths(self.output_dir@, Seq::empty()))
                &&& passes@[1].mode == ScanMode::Create
                &&& passes@[1].root@ == normalized(joined_paths(self.input_dir@, Seq::empty()))
            },
    {
        let nowhere = String::new();
        self.recursive_scan(nowhere.as_str())
    }
}

} // verus!
