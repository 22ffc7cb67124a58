use rsml_cli::luaurc::Aliases;
use rsml_cli::luaurc::Dependants;
use rsml_cli::luaurc::Luaurc;

fn s(text: &str) -> String {
    text.to_string()
}

fn table(pairs: &[(&str, &str)]) -> Aliases {
    Aliases::new(pairs.iter().map(|(k, v)| (s(k), s(v))).collect())
}

#[test]
fn new_table_is_sorted_by_key() {
    let t = table(&[("ui", "/libs/ui"), ("core", "/libs/core"), ("zeta", "/z")]);
    assert_eq!(
        t.0,
        vec![(s("core"), s("/libs/core")), (s("ui"), s("/libs/ui")), (s("zeta"), s("/z"))]
    );
}

#[test]
fn new_table_lets_the_later_pair_win() {
    let t = table(&[("ui", "/old"), ("core", "/c"), ("ui", "/new")]);
    assert_eq!(t.0, vec![(s("core"), s("/c")), (s("ui"), s("/new"))]);
}

#[test]
fn empty_table_has_no_entries() {
    assert!(Aliases::empty().0.is_empty());
    assert!(Aliases::new(Vec::new()).0.is_empty());
}

#[test]
fn insert_and_get() {
    let mut t = Aliases::empty();
    t.insert(s("b"), s("2"));
    t.insert(s("a"), s("1"));
    t.insert(s("c"), s("3"));
    t.insert(s("b"), s("two"));
    assert_eq!(t.get(&s("a")), Some(&s("1")));
    assert_eq!(t.get(&s("b")), Some(&s("two")));
    assert_eq!(t.get(&s("c")), Some(&s("3")));
    assert_eq!(t.get(&s("d")), None);
    assert_eq!(t.0.len(), 3);
}

#[test]
fn keys_sort_by_bytes() {
    let t = table(&[("b", "1"), ("B", "2"), ("a", "3"), ("ab", "4"), ("", "5"), ("é", "6")]);
    let keys: Vec<String> = t.0.iter().map(|p| p.0.clone()).collect();
    assert_eq!(keys, vec![s(""), s("B"), s("a"), s("ab"), s("b"), s("é")]);
}

#[test]
fn diff_of_equal_tables_is_empty() {
    let a = table(&[("core", "/c"), ("ui", "/u")]);
    let b = table(&[("ui", "/u"), ("core", "/c")]);
    assert_eq!(a.diff(&b), Vec::<String>::new());
    assert_eq!(a.diff(&a), Vec::<String>::new());
    assert_eq!(Aliases::empty().diff(&Aliases::empty()), Vec::<String>::new());
}

#[test]
fn diff_names_added_removed_and_changed_keys() {
    let a = table(&[("core", "/c"), ("gone", "/g"), ("same", "/s"), ("ui", "/libs/ui")]);
    let b = table(&[("core", "/c"), ("new", "/n"), ("same", "/s"), ("ui", "/libs/ui2")]);
    assert_eq!(a.diff(&b), vec![s("gone"), s("new"), s("ui")]);
    assert_eq!(b.diff(&a), vec![s("gone"), s("new"), s("ui")]);
}

#[test]
fn diff_against_the_empty_table_names_every_key() {
    let a = table(&[("b", "2"), ("a", "1"), ("c", "3")]);
    assert_eq!(a.diff(&Aliases::empty()), vec![s("a"), s("b"), s("c")]);
    assert_eq!(Aliases::empty().diff(&a), vec![s("a"), s("b"), s("c")]);
}

#[test]
fn diff_with_interleaved_keys_is_ascending_without_duplicates() {
    let a = table(&[("a", "1"), ("c", "1"), ("e", "1"), ("g", "1")]);
    let b = table(&[("b", "1"), ("c", "2"), ("d", "1"), ("g", "1"), ("h", "1")]);
    let d = a.diff(&b);
    assert_eq!(d, vec![s("a"), s("b"), s("c"), s("d"), s("e"), s("h")]);
    for w in d.windows(2) {
        assert!(w[0] < w[1]);
    }
}

#[test]
fn dependants_start_empty() {
    let d = Dependants::new();
    assert!(d.0.left_to_right.is_empty());
    assert!(d.0.right_to_left.is_empty());
}

#[test]
fn luaurc_new_reads_pairs() {
    let c = Luaurc::new(vec![(s("ui"), s("/libs/ui"))]);
    assert_eq!(c.aliases.get(&s("ui")), Some(&s("/libs/ui")));
    assert!(c.dependants.0.left_to_right.is_empty());
}

#[test]
fn a_configuration_that_could_not_be_read_gives_the_empty_table() {
    assert!(Aliases::from_parsed(None).0.is_empty());
    let t = Aliases::from_parsed(Some(vec![(s("ui"), s("/libs/ui"))]));
    assert_eq!(t.get(&s("ui")), Some(&s("/libs/ui")));
}

#[test]
fn defaults_are_empty() {
    assert!(Aliases::default().0.is_empty());
    assert!(Dependants::default().0.left_to_right.is_empty());
    let c = Luaurc::default();
    assert!(c.aliases.0.is_empty());
    assert!(c.dependants.0.right_to_left.is_empty());
}
