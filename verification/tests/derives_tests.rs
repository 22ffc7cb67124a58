use rsml_cli::derives::derives_of;
use rsml_cli::derives::resolve_derives;
use rsml_cli::derives::DeriveWalk;

fn s(text: &str) -> String {
    text.to_string()
}

#[test]
fn a_text_without_references_derives_from_nothing() {
    assert_eq!(derives_of("Frame { Size = 1 }", "/in/a.rsml"), Vec::<String>::new());
    assert_eq!(derives_of("", "/in/a.rsml"), Vec::<String>::new());
}

#[test]
fn references_are_found_and_resolved() {
    let files = derives_of("@derive \"../base\";\n@derive \"../ui/theme.rsml\";", "/in/dep.rsml");
    assert_eq!(files, vec![s("/in/base.rsml"), s("/in/ui/theme.rsml")]);
}

#[test]
fn a_repeated_reference_is_found_once() {
    let files = derives_of("@derive \"../base\";\n@derive \"../base\";", "/in/dep.rsml");
    assert_eq!(files, vec![s("/in/base.rsml")]);
}

#[test]
fn resolve_keeps_the_order_of_the_references() {
    let files = resolve_derives(&vec![s("../b"), s("../a.rsml"), s("/abs/c")], "/in/dep.rsml");
    assert_eq!(files, vec![s("/in/b.rsml"), s("/in/a.rsml"), s("/abs/c.rsml")]);
    assert_eq!(resolve_derives(&Vec::new(), "/in/dep.rsml"), Vec::<String>::new());
}

#[test]
fn a_walk_hands_out_each_file_once_first_reference_first() {
    let mut walk = DeriveWalk::start(
        s("/in/dep.rsml"),
        "@derive \"../a\";\n@derive \"../b\";",
    );
    assert_eq!(walk.next(), Some(s("/in/a.rsml")));
    walk.feed("@derive \"../c\";\n@derive \"../b\";");
    assert_eq!(walk.next(), Some(s("/in/c.rsml")));
    walk.feed("");
    assert_eq!(walk.next(), Some(s("/in/b.rsml")));
    walk.feed("@derive \"../a\";");
    assert_eq!(walk.next(), None);
    assert_eq!(walk.visited, vec![s("/in/a.rsml"), s("/in/c.rsml"), s("/in/b.rsml")]);
    assert!(walk.pending.is_empty());
}

#[test]
fn a_walk_over_files_that_derive_from_each_other_ends() {
    let mut walk = DeriveWalk::start(s("/in/a.rsml"), "@derive \"../b\";");
    let mut handed_out = Vec::new();
    while let Some(file) = walk.next() {
        handed_out.push(file);
        assert!(handed_out.len() < 10);
        walk.feed("@derive \"../a\";\n@derive \"../b\";");
    }
    assert_eq!(handed_out, vec![s("/in/b.rsml"), s("/in/a.rsml")]);
}

#[test]
fn feed_derives_takes_references_as_they_are() {
    let mut walk = DeriveWalk::start(s("/in/dep.rsml"), "");
    assert_eq!(walk.next(), None);
    walk.feed_derives(&vec![s("../x"), s("../y")]);
    assert_eq!(walk.pending, vec![s("/in/y.rsml"), s("/in/x.rsml")]);
    assert_eq!(walk.next(), Some(s("/in/x.rsml")));
    assert_eq!(walk.next(), Some(s("/in/y.rsml")));
    assert_eq!(walk.next(), None);
}

#[test]
fn a_group_of_references() {
    let files = derives_of("@derive (\"../a\", \"../b\");", "/in/x.rsml");
    assert_eq!(files, vec![s("/in/a.rsml"), s("/in/b.rsml")]);
}

#[test]
fn references_in_comments_are_passed_over() {
    let files = derives_of("-- @derive \"../no\"\n@derive \"../yes\";", "/in/x.rsml");
    assert_eq!(files, vec![s("/in/yes.rsml")]);
}

#[test]
fn other_characters_in_a_text() {
    let files = derives_of("@derive \"../é\";\nFrame { Name = \"日本\" }", "/in/x.rsml");
    assert_eq!(files, vec![s("/in/é.rsml")]);
}
