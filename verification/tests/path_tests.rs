use rsml_cli::path::derive_to_path_buf;
use rsml_cli::path::file_stem;
use rsml_cli::path::is_artifact;
use rsml_cli::path::is_source;
use rsml_cli::path::join;
use rsml_cli::path::output_path;
use rsml_cli::path::relative_to;
use rsml_cli::path::starts_with;
use rsml_cli::path::NormalizePath;

fn s(text: &str) -> String {
    text.to_string()
}

#[test]
fn normalize_resolves_parent_components() {
    assert_eq!("/a/b/../c".normalize(), "/a/c");
    assert_eq!("/a/b/../../c".normalize(), "/c");
    assert_eq!("a/b/../c".normalize(), "a/c");
}

#[test]
fn normalize_drops_current_dir_and_empty_components() {
    assert_eq!("/a/./b".normalize(), "/a/b");
    assert_eq!("./a".normalize(), "a");
    assert_eq!("a//b".normalize(), "a/b");
    assert_eq!("/a/b/".normalize(), "/a/b");
    assert_eq!("//a".normalize(), "/a");
}

#[test]
fn normalize_at_the_root_drops_parent() {
    assert_eq!("/..".normalize(), "/");
    assert_eq!("/../a".normalize(), "/a");
    assert_eq!("/a/../..".normalize(), "/");
    assert_eq!("/".normalize(), "/");
}

#[test]
fn normalize_keeps_leading_parents_of_a_relative_path() {
    assert_eq!("..".normalize(), "..");
    assert_eq!("../..".normalize(), "../..");
    assert_eq!("a/../..".normalize(), "..");
    assert_eq!("../a/..".normalize(), "..");
    assert_eq!("../a".normalize(), "../a");
}

#[test]
fn normalize_to_nothing() {
    assert_eq!("".normalize(), "");
    assert_eq!(".".normalize(), "");
    assert_eq!("a/..".normalize(), "");
}

#[test]
fn normalize_is_idempotent_on_examples() {
    for p in ["/a/b/../c", "a/./b//c/..", "../../x", "/", "", "/x/../../y"].iter() {
        let once = p.normalize();
        assert_eq!(once.normalize(), once);
    }
}

#[test]
fn normalize_of_a_string() {
    assert_eq!(s("/in/x/../a.rsml").normalize(), "/in/a.rsml");
}

#[test]
fn normalize_keeps_other_characters() {
    assert_eq!("/é/日本/../ü.rsml".normalize(), "/é/ü.rsml");
    assert_eq!("/a b/.c/..d".normalize(), "/a b/.c/..d");
}

#[test]
fn source_paths() {
    assert!(is_source("/in/a.rsml"));
    assert!(is_source("a.rsml"));
    assert!(is_source("/in/a.b.rsml"));
    assert!(is_source("/in/..rsml"));
    assert!(!is_source("/in/.rsml"));
    assert!(!is_source("/in/a.rsml.txt"));
    assert!(!is_source("/in/arsml"));
    assert!(!is_source("/in/a.RSML"));
    assert!(!is_source("/in/a.rsml/.."));
    assert!(!is_source("/"));
    assert!(!is_source(""));
}

#[test]
fn artifact_paths() {
    assert!(is_artifact("/out/a.model.json"));
    assert!(is_artifact("/out/.model.json"));
    assert!(is_artifact("a.b.model.json"));
    assert!(!is_artifact("/out/a.json"));
    assert!(!is_artifact("/out/a.model.json.bak"));
    assert!(!is_artifact("/out/a.model.json/x"));
    assert!(!is_artifact(""));
}

#[test]
fn starts_with_goes_by_whole_components() {
    assert!(starts_with("/in/a/b.rsml", "/in/a"));
    assert!(starts_with("/in/a", "/in/a"));
    assert!(starts_with("/in/a", "/"));
    assert!(!starts_with("/in/ab", "/in/a"));
    assert!(!starts_with("/in", "/in/a"));
    assert!(!starts_with("in/a", "/in"));
    assert!(!starts_with("/in/a", "in"));
    assert!(starts_with("in/a", "in"));
    assert!(starts_with("in/a", ""));
}

#[test]
fn output_path_reroots_and_replaces_the_extension() {
    assert_eq!(output_path("/in", "/out", "/in/ui/button.rsml"), Some(s("/out/ui/button.model.json")));
    assert_eq!(output_path("/in", "/in", "/in/a.rsml"), Some(s("/in/a.model.json")));
    assert_eq!(output_path("/in", "/out/deep", "/in/a.b.rsml"), Some(s("/out/deep/a.b.model.json")));
    assert_eq!(output_path("/in", "out", "/in/a.rsml"), Some(s("out/a.model.json")));
    assert_eq!(output_path("/in", "/out", "/in/noext"), Some(s("/out/noext.model.json")));
    assert_eq!(output_path("/in", "/out", "/in/.hidden"), Some(s("/out/.hidden.model.json")));
}

#[test]
fn output_path_of_a_file_outside_the_input_root() {
    assert_eq!(output_path("/in", "/out", "/elsewhere/a.rsml"), None);
    assert_eq!(output_path("/in", "/out", "/inside/a.rsml"), None);
    assert_eq!(output_path("/in", "/out", "in/a.rsml"), None);
}

#[test]
fn relative_to_strips_the_base() {
    assert_eq!(relative_to("/in/ui/button.rsml", "/in"), Some(s("ui/button.rsml")));
    assert_eq!(relative_to("/in", "/in"), Some(s("")));
    assert_eq!(relative_to("/other/a", "/in"), None);
}

#[test]
fn join_appends_or_replaces() {
    assert_eq!(join("/in", "a.rsml"), "/in/a.rsml");
    assert_eq!(join("/in/", "a.rsml"), "/in/a.rsml");
    assert_eq!(join("/in", "/abs/a.rsml"), "/abs/a.rsml");
    assert_eq!(join("", "a"), "a");
    assert_eq!(join("/in", ""), "/in/");
    assert_eq!(join("/in", "../x"), "/in/../x");
}

#[test]
fn derive_paths_get_the_suffix_and_are_normalized() {
    assert_eq!(derive_to_path_buf("../base", "/in/dep.rsml"), "/in/base.rsml");
    assert_eq!(derive_to_path_buf("../base.rsml", "/in/dep.rsml"), "/in/base.rsml");
    assert_eq!(derive_to_path_buf("base", "/in"), "/in/base.rsml");
    assert_eq!(derive_to_path_buf("/libs/ui/theme", "/in/dep.rsml"), "/libs/ui/theme.rsml");
    assert_eq!(derive_to_path_buf("./x/../y", "/in"), "/in/y.rsml");
}

#[test]
fn file_stems() {
    assert_eq!(file_stem("/in/button.rsml"), Some(s("button")));
    assert_eq!(file_stem("/in/a.b.rsml"), Some(s("a.b")));
    assert_eq!(file_stem("/in/noext"), Some(s("noext")));
    assert_eq!(file_stem("/in/.hidden"), Some(s(".hidden")));
    assert_eq!(file_stem("/in/.."), None);
    assert_eq!(file_stem("/"), None);
}

#[test]
fn a_relative_path_seen_from_its_base_is_the_path_again() {
    let cases = [("/in", "/in/ui/a.rsml"), ("/", "/a/b"), ("/in/", "/in/x"), ("in", "in/x/y"), ("", "x/y")];
    for (base, path) in cases.iter() {
        let rel = relative_to(path, base).unwrap();
        assert_eq!(join(base, &rel).normalize(), path.normalize());
    }
}
