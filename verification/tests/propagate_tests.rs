use rsml_cli::context::WatcherContext;
use rsml_cli::propagate::CreateFileDependencies;
use rsml_cli::propagate::Job;
use rsml_cli::propagate::Propagation;

fn s(text: &str) -> String {
    text.to_string()
}

/// Compiles as the caller of the library would: every job is taken, the
/// edges of its file are recorded anew from `derives`, and the jobs that
/// follow are queued. Gives the files in the order of their compilation.
fn run(ctx: &mut WatcherContext, start: &str, derives: &[(&str, &str)], limit: usize) -> Vec<String> {
    let mut compiled = Vec::new();
    let mut work = Propagation::start(s(start));
    while let Some(job) = work.next(ctx) {
        for (file, antecedent) in derives.iter() {
            if *file == job.path {
                ctx.record_derive(s(antecedent), s(file));
            }
        }
        compiled.push(job.path.clone());
        assert!(compiled.len() <= limit, "too many compilations");
        work.compiled(ctx, &job);
    }
    compiled
}

#[test]
fn editing_a_base_recompiles_its_dependant() {
    let derives = [("/in/dep.src", "/in/base.src")];
    let mut ctx = WatcherContext::new(s("/in"), s("/out"), None);
    ctx.record_derive(s("/in/base.src"), s("/in/dep.src"));
    ctx.record_derive(s("/in/x.src"), s("/in/y.src"));
    assert_eq!(run(&mut ctx, "/in/base.src", &derives, 10), vec![s("/in/base.src"), s("/in/dep.src")]);
}

#[test]
fn editing_an_unrelated_file_leaves_the_dependant_alone() {
    let derives = [("/in/dep.src", "/in/base.src")];
    let mut ctx = WatcherContext::new(s("/in"), s("/out"), None);
    ctx.record_derive(s("/in/base.src"), s("/in/dep.src"));
    assert_eq!(run(&mut ctx, "/in/other.src", &derives, 10), vec![s("/in/other.src")]);
    assert_eq!(ctx.dependencies.get_by_left(&s("/in/base.src")).unwrap(), &vec![s("/in/dep.src")]);
}

#[test]
fn propagation_goes_on_through_a_chain() {
    let derives = [("/in/b.src", "/in/a.src"), ("/in/c.src", "/in/b.src")];
    let mut ctx = WatcherContext::new(s("/in"), s("/out"), None);
    ctx.record_derive(s("/in/a.src"), s("/in/b.src"));
    ctx.record_derive(s("/in/b.src"), s("/in/c.src"));
    assert_eq!(
        run(&mut ctx, "/in/a.src", &derives, 10),
        vec![s("/in/a.src"), s("/in/b.src"), s("/in/c.src")]
    );
}

#[test]
fn two_files_that_derive_from_each_other_compile_once_each() {
    let derives = [("/in/a.src", "/in/b.src"), ("/in/b.src", "/in/a.src")];
    let mut ctx = WatcherContext::new(s("/in"), s("/out"), None);
    ctx.record_derive(s("/in/b.src"), s("/in/a.src"));
    ctx.record_derive(s("/in/a.src"), s("/in/b.src"));
    assert_eq!(run(&mut ctx, "/in/a.src", &derives, 10), vec![s("/in/a.src"), s("/in/b.src")]);
}

#[test]
fn create_file_names_the_jobs_that_follow() {
    let mut ctx = WatcherContext::new(s("/in"), s("/out"), None);
    ctx.record_derive(s("/in/a.src"), s("/in/b.src"));
    ctx.record_derive(s("/in/a.src"), s("/in/c.src"));
    let jobs = ctx.create_file(&s("/in/a.src"), &CreateFileDependencies::True(None));
    let mut paths: Vec<String> = jobs.iter().map(|j| j.path.clone()).collect();
    paths.sort();
    assert_eq!(paths, vec![s("/in/b.src"), s("/in/c.src")]);
    for j in jobs.iter() {
        assert!(matches!(&j.create_dependencies, CreateFileDependencies::True(Some(r)) if r == "/in/a.src"));
    }
    let jobs = ctx.create_file(&s("/in/a.src"), &CreateFileDependencies::True(Some(s("/in/b.src"))));
    assert_eq!(jobs.len(), 1);
    assert_eq!(jobs[0].path, "/in/c.src");
    let jobs = ctx.create_file(&s("/in/a.src"), &CreateFileDependencies::False);
    assert!(jobs.is_empty());
}

#[test]
fn a_job_that_is_not_carried_on_has_no_followers() {
    let mut ctx = WatcherContext::new(s("/in"), s("/out"), None);
    ctx.record_derive(s("/in/a.src"), s("/in/b.src"));
    let mut work = Propagation { pending: Vec::new() };
    assert!(work.next(&mut ctx).is_none());
    let job = Job { path: s("/in/a.src"), create_dependencies: CreateFileDependencies::False };
    work.compiled(&ctx, &job);
    assert!(work.pending.is_empty());
}

#[test]
fn taking_a_job_forgets_what_its_file_derived_from() {
    let mut ctx = WatcherContext::new(s("/in"), s("/out"), None);
    ctx.record_derive(s("/in/base.src"), s("/in/dep.src"));
    let mut work = Propagation::start(s("/in/dep.src"));
    let job = work.next(&mut ctx).unwrap();
    assert_eq!(job.path, "/in/dep.src");
    assert!(ctx.dependencies.get_by_left(&s("/in/base.src")).is_none());
    assert!(ctx.dependencies.get_by_right(&s("/in/dep.src")).is_none());
}
