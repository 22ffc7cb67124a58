//! Carrying a recompilation on to the files that derive from the one just
//! compiled.

use vstd::prelude::*;
use crate::context::WatcherContext;
use crate::side::texts;

verus! {

/// Whether the compilation of a file is carried on to its dependants,
/// and if so, on whose behalf the file itself is compiled.
#[derive(Debug)]
pub enum CreateFileDependencies {
    /// Carried on; the file named here, if any, led to this compilation.
    True(Option<String>),
    /// Not carried on.
    False,
}

/// One compilation to make.
#[derive(Debug)]
pub struct Job {
    pub path: String,
    pub create_dependencies: CreateFileDependencies,
}

/// The paths of the jobs, in order.
pub open spec fn job_paths(jobs: Seq<Job>) -> Seq<Seq<char>> {
    jobs.map_values(|j: Job| j.path@)
}

/// The files that the compilation of `path` is carried on to: those that
/// derive from `path`, but for the file that led to this compilation. The
/// exception keeps two files that derive from each other from compiling
/// each other for ever.
pub open spec fn followers(
    ctx: WatcherContext,
    path: Seq<char>,
    create_dependencies: CreateFileDependencies,
) -> Set<Seq<char>> {
    match create_dependencies {
        CreateFileDependencies::True(Some(referent)) => ctx.dependencies.rights_of(path).remove(
            referent@,
        ),
        CreateFileDependencies::True(None) => ctx.dependencies.rights_of(path),
        CreateFileDependencies::False => Set::empty(),
    }
}

/// The compilation is carried on and was led to by `path`.
pub open spec fn names(create_dependencies: CreateFileDependencies, path: Seq<char>) -> bool {
    match create_dependencies {
        CreateFileDependencies::True(Some(r)) => r@ == path,
        _ => false,
    }
}

/// Each job is carried on and names `path` as the file that led to it.
pub open spec fn led_by(jobs: Seq<Job>, path: Seq<char>) -> bool {
    forall|i: int| 0 <= i < jobs.len() ==> names((#[trigger] jobs[i]).create_dependencies, path)
}

impl WatcherContext {
    /// The compilations that follow the compilation of `path`: one for each
    /// file that the compilation is carried on to, each once.
    pub fn create_file(&self, path: &String, create_dependencies: &CreateFileDependencies) -> (jobs:
        Vec<Job>)
        requires
            self.wf(),
        ensures
            job_paths(jobs@).no_duplicates(),
            job_paths(jobs@).to_set() == followers(*self, path@, *create_dependencies),
            led_by(jobs@, path@),
    {
        let mut jobs: Vec<Job> = Vec::new();
        proof {
            assert(job_paths(jobs@) =~= Seq::<Seq<char>>::empty());
            assert(job_paths(jobs@).to_set() =~= Set::<Seq<char>>::empty());
        }
        let files = match create_dependencies {
            CreateFileDependencies::True(Some(referent)) => self.dependants_to_rebuild(
                path,
                Some(referent),
            ),
            CreateFileDependencies::True(None) => self.dependants_to_rebuild(path, None),
            CreateFileDependencies::False => {
                return jobs;
            },
        };
        let mut i: usize = 0;
        while i < files.len()
            invariant
                0 <= i <= files.len(),
                job_paths(jobs@) == texts(files@).take(i as int),
                led_by(jobs@, path@),
            decreases files.len() - i,
        {
            let ghost before = jobs@;
            let job = Job {
                path: files[i].clone(),
                create_dependencies: CreateFileDependencies::True(Some(path.clone())),
            };
            jobs.push(job);
            proof {
                assert(job_paths(jobs@) =~= job_paths(before).push(files@[i as int]@));
                assert(texts(files@).take(i + 1) =~= texts(files@).take(i as int).push(
                    files@[i as int]@,
                ));
                assert forall|k: int| 0 <= k < jobs@.len() implies names(
                    (#[trigger] jobs@[k]).create_dependencies,
                    path@,
                ) by {
                    if k < before.len() {
                        assert(jobs@[k] == before[k]);
                    }
                }
            }
            i += 1;
        }
        proof {
            assert(texts(files@).take(files@.len() as int) =~= texts(files@));
        }
        jobs
    }
}

/// The compilations that one change has set off and that are still to be
/// made. The last one is next.
#[derive(Debug)]
pub struct Propagation {
    pub pending: Vec<Job>,
}

impl Propagation {
    /// The compilations set off by a change to `path`: at first, that of
    /// `path` itself, on nobody's behalf.
    pub fn start(path: String) -> (p: Self)
        ensures
            p.pending@.len() == 1,
            p.pending@[0].path == path,
            p.pending@[0].create_dependencies == CreateFileDependencies::True(None),
    {
        let mut pending: Vec<Job> = Vec::new();
        pending.push(Job { path, create_dependencies: CreateFileDependencies::True(None) });
        Propagation { pending }
    }

    /// Hands out the next compilation to make and forgets what its file
    /// derived from, for the compilation to record it anew. With none left
    /// nothing changes.
    pub fn next(&mut self, ctx: &mut WatcherContext) -> (job: Option<Job>)
        requires
            old(ctx).wf(),
        ensures
            final(ctx).wf(),
            final(ctx).input_dir == old(ctx).input_dir,
            final(ctx).output_dir == old(ctx).output_dir,
            final(ctx).luaurc == old(ctx).luaurc,
            match job {
                Some(j) => {
                    &&& old(self).pending@.len() > 0
                    &&& j == old(self).pending@.last()
                    &&& final(self).pending@ == old(self).pending@.drop_last()
                    &&& final(ctx).dependencies.model() == old(
                        ctx,
                    ).dependencies.model().without_rights(set![j.path@])
                },
                None => {
                    &&& old(self).pending@.len() == 0
                    &&& final(self).pending@.len() == 0
                    &&& final(ctx).dependencies == old(ctx).dependencies
                },
            },
    {
        match self.pending.pop() {
            Some(j) => {
                ctx.begin_compile(&j.path);
                Some(j)
            },
            None => None,
        }
    }

    /// Takes note that `job` was made: the compilations that follow it wait
    /// on top of those that waited before.
    pub fn compiled(&mut self, ctx: &WatcherContext, job: &Job)
        requires
            ctx.wf(),
        ensures
            final(self).pending@.len() >= old(self).pending@.len(),
            final(self).pending@.take(old(self).pending@.len() as int) == old(self).pending@,
            ({
                let added = final(self).pending@.skip(old(self).pending@.len() as int);
                &&& job_paths(added).no_duplicates()
                &&& job_paths(added).to_set() == followers(*ctx, job.path@, job.create_dependencies)
                &&& led_by(added, job.path@)
            }),
    {
        let ghost before = self.pending@;
        let mut more = ctx.create_file(&job.path, &job.create_dependencies);
        let ghost added = more@;
        self.pending.append(&mut more);
        proof {
            assert(self.pending@.take(before.len() as int) =~= before);
            assert(self.pending@.skip(before.len() as int) =~= added);
        }
    }
}

} // verus!
