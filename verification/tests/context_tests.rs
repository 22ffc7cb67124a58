use rsml_cli::context::WatcherContext;
use rsml_cli::luaurc::Aliases;
use rsml_cli::luaurc::Luaurc;

fn s(text: &str) -> String {
    text.to_string()
}

fn sorted(v: &Vec<String>) -> Vec<String> {
    let mut out = v.clone();
    out.sort();
    out
}

fn plain() -> WatcherContext {
    WatcherContext::new(s("/in"), s("/out"), None)
}

fn bound(pairs: &[(&str, &str)]) -> WatcherContext {
    let luaurc = Luaurc::new(pairs.iter().map(|(k, v)| (s(k), s(v))).collect());
    WatcherContext::new(s("/in"), s("/out"), Some((s("/in/.luaurc"), luaurc)))
}

fn rights(ctx: &WatcherContext, left: &str) -> Vec<String> {
    match ctx.dependencies.get_by_left(&s(left)) {
        Some(v) => sorted(v),
        None => Vec::new(),
    }
}

fn lefts(ctx: &WatcherContext, right: &str) -> Vec<String> {
    match ctx.dependencies.get_by_right(&s(right)) {
        Some(v) => sorted(v),
        None => Vec::new(),
    }
}

fn alias_users(ctx: &WatcherContext, alias: &str) -> Vec<String> {
    match &ctx.luaurc {
        Some((_, l)) => match l.dependants.0.get_by_left(&s(alias)) {
            Some(v) => sorted(v),
            None => Vec::new(),
        },
        None => Vec::new(),
    }
}

#[test]
fn new_context_has_an_empty_graph() {
    let ctx = plain();
    assert_eq!(ctx.input_dir, "/in");
    assert_eq!(ctx.output_dir, "/out");
    assert!(ctx.luaurc.is_none());
    assert!(ctx.dependencies.left_to_right.is_empty());
    assert!(ctx.dependencies.right_to_left.is_empty());
}

#[test]
fn output_for_maps_into_the_output_root() {
    let ctx = plain();
    assert_eq!(ctx.output_for("/in/ui/a.rsml"), Some(s("/out/ui/a.model.json")));
    assert_eq!(ctx.output_for("/elsewhere/a.rsml"), None);
}

#[test]
fn record_derive_adds_an_edge() {
    let mut ctx = plain();
    ctx.record_derive(s("/in/base.rsml"), s("/in/dep.rsml"));
    assert_eq!(rights(&ctx, "/in/base.rsml"), vec![s("/in/dep.rsml")]);
    assert_eq!(lefts(&ctx, "/in/dep.rsml"), vec![s("/in/base.rsml")]);
}

#[test]
fn begin_compile_forgets_what_the_file_derived_from() {
    let mut ctx = plain();
    ctx.record_derive(s("/in/base.rsml"), s("/in/dep.rsml"));
    ctx.record_derive(s("/in/other.rsml"), s("/in/dep.rsml"));
    ctx.record_derive(s("/in/base.rsml"), s("/in/dep2.rsml"));
    ctx.record_derive(s("/in/dep.rsml"), s("/in/leaf.rsml"));
    ctx.begin_compile(&s("/in/dep.rsml"));
    assert_eq!(rights(&ctx, "/in/base.rsml"), vec![s("/in/dep2.rsml")]);
    assert!(ctx.dependencies.get_by_left(&s("/in/other.rsml")).is_none());
    assert!(ctx.dependencies.get_by_right(&s("/in/dep.rsml")).is_none());
    assert_eq!(rights(&ctx, "/in/dep.rsml"), vec![s("/in/leaf.rsml")]);
}

#[test]
fn record_alias_without_a_configuration_records_nothing() {
    let mut ctx = plain();
    ctx.record_alias(s("ui"), s("/in/panel.rsml"));
    assert!(ctx.luaurc.is_none());
}

#[test]
fn record_alias_with_a_configuration() {
    let mut ctx = bound(&[("ui", "/libs/ui")]);
    ctx.record_alias(s("ui"), s("/in/panel.rsml"));
    ctx.record_alias(s("ui"), s("/in/list.rsml"));
    assert_eq!(alias_users(&ctx, "ui"), vec![s("/in/list.rsml"), s("/in/panel.rsml")]);
}

#[test]
fn dependants_to_rebuild_leaves_the_referent_out() {
    let mut ctx = plain();
    ctx.record_derive(s("/in/a.rsml"), s("/in/b.rsml"));
    ctx.record_derive(s("/in/a.rsml"), s("/in/c.rsml"));
    assert_eq!(
        sorted(&ctx.dependants_to_rebuild(&s("/in/a.rsml"), None)),
        vec![s("/in/b.rsml"), s("/in/c.rsml")]
    );
    assert_eq!(
        ctx.dependants_to_rebuild(&s("/in/a.rsml"), Some(&s("/in/b.rsml"))),
        vec![s("/in/c.rsml")]
    );
    assert_eq!(ctx.dependants_to_rebuild(&s("/in/zz.rsml"), None), Vec::<String>::new());
}

#[test]
fn changing_an_alias_recompiles_its_users_only() {
    let mut ctx = bound(&[("ui", "/libs/ui"), ("core", "/libs/core")]);
    ctx.record_alias(s("ui"), s("/in/panel.rsml"));
    ctx.record_alias(s("core"), s("/in/engine.rsml"));
    let files = ctx.luaurc_update(Aliases::new(vec![
        (s("ui"), s("/libs/ui2")),
        (s("core"), s("/libs/core")),
    ]));
    assert_eq!(files, vec![s("/in/panel.rsml")]);
    let (path, luaurc) = ctx.luaurc.as_ref().unwrap();
    assert_eq!(path, "/in/.luaurc");
    assert_eq!(luaurc.aliases.get(&s("ui")), Some(&s("/libs/ui2")));
    assert_eq!(alias_users(&ctx, "ui"), vec![s("/in/panel.rsml")]);
    assert_eq!(alias_users(&ctx, "core"), vec![s("/in/engine.rsml")]);
}

#[test]
fn an_unrelated_alias_change_recompiles_nothing() {
    let mut ctx = bound(&[("ui", "/libs/ui")]);
    ctx.record_alias(s("ui"), s("/in/panel.rsml"));
    let files = ctx.luaurc_update(Aliases::new(vec![
        (s("ui"), s("/libs/ui")),
        (s("other"), s("/libs/other")),
    ]));
    assert_eq!(files, Vec::<String>::new());
}

#[test]
fn a_file_using_two_changed_aliases_is_named_once() {
    let mut ctx = bound(&[("a", "1"), ("b", "2")]);
    ctx.record_alias(s("a"), s("/in/x.rsml"));
    ctx.record_alias(s("b"), s("/in/x.rsml"));
    ctx.record_alias(s("b"), s("/in/y.rsml"));
    let files = ctx.luaurc_update(Aliases::empty());
    assert_eq!(sorted(&files), vec![s("/in/x.rsml"), s("/in/y.rsml")]);
    assert_eq!(files.len(), 2);
}

#[test]
fn luaurc_update_without_a_configuration() {
    let mut ctx = plain();
    let files = ctx.luaurc_update(Aliases::new(vec![(s("ui"), s("/libs/ui"))]));
    assert_eq!(files, Vec::<String>::new());
    assert!(ctx.luaurc.is_none());
}

#[test]
fn luaurc_removed_empties_the_table_and_keeps_the_users() {
    let mut ctx = bound(&[("ui", "/libs/ui")]);
    ctx.record_alias(s("ui"), s("/in/panel.rsml"));
    ctx.luaurc_removed();
    let (_, luaurc) = ctx.luaurc.as_ref().unwrap();
    assert!(luaurc.aliases.0.is_empty());
    assert_eq!(alias_users(&ctx, "ui"), vec![s("/in/panel.rsml")]);
}

#[test]
fn delete_file_removes_its_edges_and_names_the_artifacts() {
    let mut ctx = bound(&[("ui", "/libs/ui")]);
    ctx.record_derive(s("/in/p.rsml"), s("/in/dep.rsml"));
    ctx.record_derive(s("/in/q.rsml"), s("/in/dep.rsml"));
    ctx.record_alias(s("ui"), s("/in/p.rsml"));
    ctx.record_alias(s("ui"), s("/in/other.rsml"));
    let removal = ctx.delete_file(&s("/in/p.rsml"));
    assert_eq!(removal.artifact, Some(s("/out/p.model.json")));
    assert_eq!(removal.legacy, "/in/p.model.json");
    assert!(ctx.dependencies.get_by_left(&s("/in/p.rsml")).is_none());
    assert_eq!(lefts(&ctx, "/in/dep.rsml"), vec![s("/in/q.rsml")]);
    assert_eq!(alias_users(&ctx, "ui"), vec![s("/in/other.rsml")]);
    for e in ctx.dependencies.left_to_right.iter().chain(ctx.dependencies.right_to_left.iter()) {
        assert_ne!(e.key, "/in/p.rsml");
        assert!(!e.members.contains(&s("/in/p.rsml")));
    }
    let (_, luaurc) = ctx.luaurc.as_ref().unwrap();
    for e in luaurc.dependants.0.left_to_right.iter().chain(luaurc.dependants.0.right_to_left.iter()) {
        assert_ne!(e.key, "/in/p.rsml");
        assert!(!e.members.contains(&s("/in/p.rsml")));
    }
}

#[test]
fn delete_file_outside_the_input_root_has_no_artifact() {
    let mut ctx = plain();
    let removal = ctx.delete_file(&s("/elsewhere/p.rsml"));
    assert_eq!(removal.artifact, None);
    assert_eq!(removal.legacy, "/elsewhere/p.model.json");
}

#[test]
fn prune_removes_keys_under_the_path_on_both_sides() {
    let mut ctx = bound(&[("ui", "/libs/ui")]);
    ctx.record_derive(s("/in/dir/a.rsml"), s("/in/keep.rsml"));
    ctx.record_derive(s("/in/base.rsml"), s("/in/dir/b.rsml"));
    ctx.record_derive(s("/in/base.rsml"), s("/in/keep.rsml"));
    ctx.record_derive(s("/in/dirx/c.rsml"), s("/in/keep.rsml"));
    ctx.record_alias(s("ui"), s("/in/dir/a.rsml"));
    ctx.record_alias(s("ui"), s("/in/keep.rsml"));
    ctx.prune_dependencies(&s("/in/dir"));
    assert!(ctx.dependencies.get_by_left(&s("/in/dir/a.rsml")).is_none());
    assert!(ctx.dependencies.get_by_right(&s("/in/dir/b.rsml")).is_none());
    assert_eq!(rights(&ctx, "/in/base.rsml"), vec![s("/in/keep.rsml")]);
    assert_eq!(rights(&ctx, "/in/dirx/c.rsml"), vec![s("/in/keep.rsml")]);
    assert_eq!(lefts(&ctx, "/in/keep.rsml"), vec![s("/in/base.rsml"), s("/in/dirx/c.rsml")]);
    assert_eq!(alias_users(&ctx, "ui"), vec![s("/in/keep.rsml")]);
}

#[test]
fn prune_of_an_unknown_path_changes_nothing() {
    let mut ctx = plain();
    ctx.record_derive(s("/in/a.rsml"), s("/in/b.rsml"));
    ctx.prune_dependencies(&s("/in/nothing"));
    assert_eq!(rights(&ctx, "/in/a.rsml"), vec![s("/in/b.rsml")]);
}

#[test]
fn record_derives_adds_an_edge_for_each_antecedent() {
    let mut ctx = plain();
    ctx.record_derives(&vec![s("/in/a.rsml"), s("/in/b.rsml")], &s("/in/dep.rsml"));
    assert_eq!(lefts(&ctx, "/in/dep.rsml"), vec![s("/in/a.rsml"), s("/in/b.rsml")]);
    ctx.record_derives(&Vec::new(), &s("/in/other.rsml"));
    assert!(ctx.dependencies.get_by_right(&s("/in/other.rsml")).is_none());
}

#[test]
fn compiling_an_unchanged_file_anew_leaves_the_graph_as_it_was() {
    let mut ctx = plain();
    ctx.record_derive(s("/in/x.rsml"), s("/in/y.rsml"));
    let antecedents = vec![s("/in/a.rsml"), s("/in/b.rsml")];
    ctx.begin_compile(&s("/in/dep.rsml"));
    ctx.record_derives(&antecedents, &s("/in/dep.rsml"));
    let once: Vec<(String, Vec<String>)> = ctx
        .dependencies
        .left_to_right
        .iter()
        .map(|e| (e.key.clone(), sorted(&e.members)))
        .collect();
    ctx.begin_compile(&s("/in/dep.rsml"));
    ctx.record_derives(&antecedents, &s("/in/dep.rsml"));
    let mut twice: Vec<(String, Vec<String>)> = ctx
        .dependencies
        .left_to_right
        .iter()
        .map(|e| (e.key.clone(), sorted(&e.members)))
        .collect();
    let mut once = once;
    once.sort();
    twice.sort();
    assert_eq!(once, twice);
    assert_eq!(lefts(&ctx, "/in/dep.rsml"), vec![s("/in/a.rsml"), s("/in/b.rsml")]);
}
