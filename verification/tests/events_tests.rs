use rsml_cli::context::WatcherContext;
use rsml_cli::events::settled;
use rsml_cli::events::watch_step;
use rsml_cli::events::Action;
use rsml_cli::events::LoopStep;
use rsml_cli::events::PathState;
use rsml_cli::events::Signal;
use rsml_cli::events::VfsEvent;
use rsml_cli::events::SETTLE_NANOS;
use rsml_cli::luaurc::Luaurc;

fn s(text: &str) -> String {
    text.to_string()
}

fn sorted(v: &Vec<String>) -> Vec<String> {
    let mut out = v.clone();
    out.sort();
    out
}

fn context() -> WatcherContext {
    let luaurc = Luaurc::new(vec![(s("ui"), s("/libs/ui"))]);
    let mut ctx = WatcherContext::new(s("/in"), s("/out"), Some((s("/in/.luaurc"), luaurc)));
    ctx.record_derive(s("/in/base.rsml"), s("/in/dep.rsml"));
    ctx.record_derive(s("/in/dep.rsml"), s("/in/leaf.rsml"));
    ctx.record_derive(s("/in/dir/x.rsml"), s("/in/dep.rsml"));
    ctx.record_alias(s("ui"), s("/in/dep.rsml"));
    ctx
}

fn edge_count(ctx: &WatcherContext) -> usize {
    ctx.dependencies.left_to_right.iter().map(|e| e.members.len()).sum()
}

#[test]
fn other_events_are_ignored() {
    let mut ctx = context();
    assert!(matches!(ctx.handle_vfs_event(&VfsEvent::Other, PathState::File), Action::Ignore));
    assert_eq!(edge_count(&ctx), 3);
}

#[test]
fn events_on_artifacts_are_ignored() {
    let mut ctx = context();
    for state in [PathState::File, PathState::Directory, PathState::Missing].iter() {
        let action = ctx.handle_vfs_event(&VfsEvent::Write(s("/out/dep.model.json")), *state);
        assert!(matches!(action, Action::Ignore));
    }
    assert_eq!(edge_count(&ctx), 3);
}

#[test]
fn a_written_source_file_is_compiled() {
    let mut ctx = context();
    let action = ctx.handle_vfs_event(&VfsEvent::Write(s("/in/x/../dep.rsml")), PathState::File);
    match action {
        Action::Compile(path) => assert_eq!(path, "/in/dep.rsml"),
        _ => panic!("expected a compilation"),
    }
    assert!(ctx.dependencies.get_by_right(&s("/in/dep.rsml")).is_none());
    assert!(ctx.dependencies.get_by_left(&s("/in/base.rsml")).is_none());
    assert_eq!(ctx.dependencies.get_by_left(&s("/in/dep.rsml")).unwrap(), &vec![s("/in/leaf.rsml")]);
}

#[test]
fn the_kind_of_the_event_is_not_trusted() {
    let mut ctx = context();
    let action = ctx.handle_vfs_event(&VfsEvent::Remove(s("/in/dep.rsml")), PathState::File);
    assert!(matches!(action, Action::Compile(_)));
    let mut ctx = context();
    let action = ctx.handle_vfs_event(&VfsEvent::Create(s("/in/dep.rsml")), PathState::Missing);
    assert!(matches!(action, Action::Delete(_, _)));
}

#[test]
fn another_written_file_is_ignored() {
    let mut ctx = context();
    let action = ctx.handle_vfs_event(&VfsEvent::Write(s("/in/readme.txt")), PathState::File);
    assert!(matches!(action, Action::Ignore));
    assert_eq!(edge_count(&ctx), 3);
}

#[test]
fn the_written_configuration_is_reloaded() {
    let mut ctx = context();
    let action = ctx.handle_vfs_event(&VfsEvent::Write(s("/in/./.luaurc")), PathState::File);
    match action {
        Action::ReloadConfig(path) => assert_eq!(path, "/in/.luaurc"),
        _ => panic!("expected a reload"),
    }
    assert_eq!(edge_count(&ctx), 3);
}

#[test]
fn the_removed_configuration_empties_the_alias_table() {
    let mut ctx = context();
    let action = ctx.handle_vfs_event(&VfsEvent::Remove(s("/in/.luaurc")), PathState::Missing);
    assert!(matches!(action, Action::ConfigRemoved));
    let (_, luaurc) = ctx.luaurc.as_ref().unwrap();
    assert!(luaurc.aliases.0.is_empty());
    assert_eq!(luaurc.dependants.0.get_by_left(&s("ui")).unwrap(), &vec![s("/in/dep.rsml")]);
    assert_eq!(edge_count(&ctx), 3);
}

#[test]
fn a_directory_is_rescanned() {
    let mut ctx = context();
    let action = ctx.handle_vfs_event(&VfsEvent::Create(s("/in/dir/")), PathState::Directory);
    match action {
        Action::Rescan(path) => assert_eq!(path, "/in/dir"),
        _ => panic!("expected a rescan"),
    }
    assert_eq!(edge_count(&ctx), 3);
}

#[test]
fn a_vanished_source_file_is_deleted() {
    let mut ctx = context();
    let action = ctx.handle_vfs_event(&VfsEvent::Remove(s("/in/dep.rsml")), PathState::Missing);
    match action {
        Action::Delete(path, removal) => {
            assert_eq!(path, "/in/dep.rsml");
            assert_eq!(removal.artifact, Some(s("/out/dep.model.json")));
            assert_eq!(removal.legacy, "/in/dep.model.json");
        }
        _ => panic!("expected a deletion"),
    }
    assert!(ctx.dependencies.get_by_left(&s("/in/dep.rsml")).is_none());
    assert!(ctx.dependencies.get_by_right(&s("/in/leaf.rsml")).is_none());
    assert_eq!(
        sorted(ctx.dependencies.get_by_right(&s("/in/dep.rsml")).unwrap()),
        vec![s("/in/base.rsml"), s("/in/dir/x.rsml")]
    );
    let (_, luaurc) = ctx.luaurc.as_ref().unwrap();
    assert!(luaurc.dependants.0.get_by_left(&s("ui")).is_none());
    assert!(luaurc.dependants.0.get_by_right(&s("/in/dep.rsml")).is_none());
}

#[test]
fn a_vanished_path_of_unknown_kind_is_pruned() {
    let mut ctx = context();
    let action = ctx.handle_vfs_event(&VfsEvent::Remove(s("/in/dir")), PathState::Missing);
    match action {
        Action::Prune(path) => assert_eq!(path, "/in/dir"),
        _ => panic!("expected pruning"),
    }
    assert!(ctx.dependencies.get_by_left(&s("/in/dir/x.rsml")).is_none());
    assert_eq!(ctx.dependencies.get_by_right(&s("/in/dep.rsml")).unwrap(), &vec![s("/in/base.rsml")]);
    assert_eq!(edge_count(&ctx), 2);
}

#[test]
fn changes_within_the_settle_time_are_dropped() {
    assert_eq!(SETTLE_NANOS, 200_000_000);
    assert!(!settled(0));
    assert!(!settled(150_000_000));
    assert!(!settled(200_000_000));
    assert!(settled(200_000_001));
    assert!(watch_step(Signal::Change, 0) == LoopStep::Discard);
    assert!(watch_step(Signal::Change, 199_999_999) == LoopStep::Discard);
    assert!(watch_step(Signal::Change, 200_000_000) == LoopStep::Discard);
    assert!(watch_step(Signal::Change, 200_000_001) == LoopStep::Handle);
    assert!(watch_step(Signal::Change, u128::MAX) == LoopStep::Handle);
}

#[test]
fn a_shutdown_or_a_failed_channel_ends_the_loop() {
    assert!(watch_step(Signal::Shutdown, 0) == LoopStep::Stop);
    assert!(watch_step(Signal::Shutdown, 1_000_000_000) == LoopStep::Stop);
    assert!(watch_step(Signal::ReceiveError, 0) == LoopStep::Stop);
    assert!(watch_step(Signal::ReceiveError, 1_000_000_000) == LoopStep::Stop);
}
