use rsml_cli::startup::canonicalize_input;
use rsml_cli::startup::is_luaurc_name;
use rsml_cli::startup::resolve_luaurc_path;
use rsml_cli::startup::startup_message;
use rsml_cli::startup::ExplicitLuaurc;
use rsml_cli::startup::InputState;
use rsml_cli::startup::LuaurcStatus;

fn s(text: &str) -> String {
    text.to_string()
}

#[test]
fn as_option_gives_the_path() {
    assert_eq!(LuaurcStatus::Given(s("/in/.luaurc")).as_option(), Some(&s("/in/.luaurc")));
    assert_eq!(LuaurcStatus::AutoSome(s("/in/.luaurc")).as_option(), Some(&s("/in/.luaurc")));
    assert_eq!(LuaurcStatus::AutoNone.as_option(), None);
}

#[test]
fn message_without_a_configuration() {
    assert_eq!(
        startup_message("RSML CLI is now watching", &s("/in"), None, &LuaurcStatus::AutoNone),
        "No Luaurc was specified or automatically found.\nRSML CLI is now watching \"/in\"."
    );
}

#[test]
fn message_with_a_named_configuration_and_an_output() {
    assert_eq!(
        startup_message(
            "RSML CLI successfully built",
            &s("/in"),
            Some(&s("/out")),
            &LuaurcStatus::Given(s("/in/.luaurc"))
        ),
        "Using Luaurc at \"/in/.luaurc\".\nRSML CLI successfully built \"/in\" to \"/out\"."
    );
}

#[test]
fn message_with_a_found_configuration() {
    assert_eq!(
        startup_message("Building", &s("/in"), None, &LuaurcStatus::AutoSome(s("/.luaurc"))),
        "Using Luaurc automatically found at \"/.luaurc\".\nBuilding \"/in\"."
    );
}

#[test]
fn message_quotes_and_escapes_paths() {
    assert_eq!(
        startup_message("P", &s("/a \"b\"\\c"), None, &LuaurcStatus::AutoNone),
        "No Luaurc was specified or automatically found.\nP \"/a \\\"b\\\"\\\\c\"."
    );
}

#[test]
fn a_named_configuration_file_is_used() {
    let r = resolve_luaurc_path(ExplicitLuaurc::File(s("/x/.luaurc")), Some(s("/in/.luaurc")), None);
    assert!(matches!(r, Ok(LuaurcStatus::Given(p)) if p == "/x/.luaurc"));
}

#[test]
fn a_named_configuration_that_cannot_be_resolved_is_an_error() {
    let r = resolve_luaurc_path(
        ExplicitLuaurc::Unresolved(s("/x/../nope/.luaurc")),
        Some(s("/in/.luaurc")),
        None,
    );
    match r {
        Err(msg) => assert_eq!(msg, "ERROR: Could not find Luaurc at \"/nope/.luaurc\""),
        Ok(_) => panic!("expected an error"),
    }
}

#[test]
fn a_named_configuration_that_is_no_file_falls_back_to_the_search() {
    let r = resolve_luaurc_path(ExplicitLuaurc::NotAFile, Some(s("/in/.luaurc")), Some(s("/.luaurc")));
    assert!(matches!(r, Ok(LuaurcStatus::AutoSome(p)) if p == "/in/.luaurc"));
    let r = resolve_luaurc_path(ExplicitLuaurc::NotAFile, None, None);
    assert!(matches!(r, Ok(LuaurcStatus::AutoNone)));
}

#[test]
fn the_search_prefers_the_input_directory_to_its_parent() {
    let r = resolve_luaurc_path(ExplicitLuaurc::NotGiven, Some(s("/in/.luaurc")), Some(s("/.luaurc")));
    assert!(matches!(r, Ok(LuaurcStatus::AutoSome(p)) if p == "/in/.luaurc"));
    let r = resolve_luaurc_path(ExplicitLuaurc::NotGiven, None, Some(s("/.luaurc")));
    assert!(matches!(r, Ok(LuaurcStatus::AutoSome(p)) if p == "/.luaurc"));
    let r = resolve_luaurc_path(ExplicitLuaurc::NotGiven, None, None);
    assert!(matches!(r, Ok(LuaurcStatus::AutoNone)));
}

#[test]
fn an_input_directory_is_accepted() {
    assert_eq!(canonicalize_input(InputState::Directory(s("/in"))), Ok(s("/in")));
}

#[test]
fn an_input_that_is_no_directory_is_an_error() {
    assert_eq!(
        canonicalize_input(InputState::NotDirectory(s("/in/a.rsml"))),
        Err(s("ERROR: The specified input \"/in/a.rsml\" is not a directory!"))
    );
}

#[test]
fn an_input_that_does_not_exist_is_an_error() {
    assert_eq!(
        canonicalize_input(InputState::Unresolved(s("./nope/../gone"))),
        Err(s("ERROR: The specified input directory \"gone\" doesn't exist!"))
    );
}

#[test]
fn names_of_configuration_files() {
    assert!(is_luaurc_name("/in/.luaurc"));
    assert!(is_luaurc_name("/in/luaurc"));
    assert!(is_luaurc_name("/in/luaurc.json"));
    assert!(is_luaurc_name("/in/.luaurc.json"));
    assert!(is_luaurc_name("/in/project.luaurc"));
    assert!(is_luaurc_name("/in/a.b.luaurc"));
    assert!(!is_luaurc_name("/in/luaurcx"));
    assert!(!is_luaurc_name("/in/x.luaurc.bak"));
    assert!(!is_luaurc_name("/in/..luaurc.x"));
    assert!(!is_luaurc_name("/in/config.json"));
    assert!(!is_luaurc_name("/"));
    assert!(!is_luaurc_name(""));
}
