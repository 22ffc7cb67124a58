use rsml_cli::multibimap::MultiBiMap;

fn s(text: &str) -> String {
    text.to_string()
}

fn sorted(v: &Vec<String>) -> Vec<String> {
    let mut out = v.clone();
    out.sort();
    out
}

fn lefts_of(m: &MultiBiMap, right: &str) -> Vec<String> {
    match m.get_by_right(&s(right)) {
        Some(v) => sorted(v),
        None => Vec::new(),
    }
}

fn rights_of(m: &MultiBiMap, left: &str) -> Vec<String> {
    match m.get_by_left(&s(left)) {
        Some(v) => sorted(v),
        None => Vec::new(),
    }
}

fn directions_agree(m: &MultiBiMap) -> bool {
    for e in m.left_to_right.iter() {
        for r in e.members.iter() {
            match m.get_by_right(r) {
                Some(ls) => {
                    if !ls.contains(&e.key) {
                        return false;
                    }
                }
                None => return false,
            }
        }
    }
    for e in m.right_to_left.iter() {
        for l in e.members.iter() {
            match m.get_by_left(l) {
                Some(rs) => {
                    if !rs.contains(&e.key) {
                        return false;
                    }
                }
                None => return false,
            }
        }
    }
    true
}

fn no_empty_set(m: &MultiBiMap) -> bool {
    m.left_to_right.iter().all(|e| !e.members.is_empty())
        && m.right_to_left.iter().all(|e| !e.members.is_empty())
}

#[test]
fn new_map_is_empty() {
    let m = MultiBiMap::new();
    assert!(m.left_to_right.is_empty());
    assert!(m.right_to_left.is_empty());
    assert!(m.get_by_left(&s("a")).is_none());
    assert!(m.get_by_right(&s("a")).is_none());
}

#[test]
fn insert_relates_both_directions() {
    let mut m = MultiBiMap::new();
    m.insert(s("a"), s("x"));
    m.insert(s("a"), s("y"));
    m.insert(s("b"), s("x"));
    assert_eq!(rights_of(&m, "a"), vec![s("x"), s("y")]);
    assert_eq!(rights_of(&m, "b"), vec![s("x")]);
    assert_eq!(lefts_of(&m, "x"), vec![s("a"), s("b")]);
    assert_eq!(lefts_of(&m, "y"), vec![s("a")]);
    assert!(m.get_by_left(&s("c")).is_none());
    assert!(m.get_by_right(&s("a")).is_none());
}

#[test]
fn insert_returns_the_resulting_sets() {
    let mut m = MultiBiMap::new();
    m.insert(s("a"), s("x"));
    let (lefts, rights) = m.insert(s("b"), s("x"));
    assert_eq!(sorted(lefts), vec![s("a"), s("b")]);
    assert_eq!(sorted(rights), vec![s("x")]);
}

#[test]
fn insert_is_idempotent() {
    let mut m = MultiBiMap::new();
    m.insert(s("a"), s("x"));
    let (lefts, rights) = m.insert(s("a"), s("x"));
    assert_eq!(lefts, &vec![s("a")]);
    assert_eq!(rights, &vec![s("x")]);
    assert_eq!(m.left_to_right.len(), 1);
    assert_eq!(m.right_to_left.len(), 1);
    assert_eq!(m.left_to_right[0].members.len(), 1);
    assert_eq!(m.right_to_left[0].members.len(), 1);
}

#[test]
fn insert_by_left_registers_a_key_without_edges() {
    let mut m = MultiBiMap::new();
    let rights = m.insert_by_left(s("a"));
    assert!(rights.is_empty());
    assert_eq!(m.get_by_left(&s("a")).unwrap(), &Vec::<String>::new());
    assert!(m.right_to_left.is_empty());
    m.insert(s("a"), s("x"));
    let rights = m.insert_by_left(s("a"));
    assert_eq!(rights, &vec![s("x")]);
    assert_eq!(m.left_to_right.len(), 1);
}

#[test]
fn insert_by_right_registers_a_key_without_edges() {
    let mut m = MultiBiMap::new();
    let lefts = m.insert_by_right(s("x"));
    assert!(lefts.is_empty());
    assert_eq!(m.get_by_right(&s("x")).unwrap(), &Vec::<String>::new());
    assert!(m.left_to_right.is_empty());
}

#[test]
fn remove_by_left_cascades() {
    let mut m = MultiBiMap::new();
    m.insert(s("a"), s("x"));
    m.insert(s("a"), s("y"));
    m.insert(s("b"), s("x"));
    m.remove_by_left(s("a"));
    assert!(m.get_by_left(&s("a")).is_none());
    assert!(m.get_by_right(&s("y")).is_none());
    assert_eq!(lefts_of(&m, "x"), vec![s("b")]);
    assert_eq!(rights_of(&m, "b"), vec![s("x")]);
}

#[test]
fn remove_by_right_cascades() {
    let mut m = MultiBiMap::new();
    m.insert(s("a"), s("x"));
    m.insert(s("b"), s("x"));
    m.insert(s("b"), s("y"));
    m.remove_by_right(s("x"));
    assert!(m.get_by_right(&s("x")).is_none());
    assert!(m.get_by_left(&s("a")).is_none());
    assert_eq!(rights_of(&m, "b"), vec![s("y")]);
    assert_eq!(lefts_of(&m, "y"), vec![s("b")]);
}

#[test]
fn remove_of_a_missing_key_changes_nothing() {
    let mut m = MultiBiMap::new();
    m.insert(s("a"), s("x"));
    m.remove_by_left(s("zz"));
    m.remove_by_right(s("zz"));
    assert_eq!(rights_of(&m, "a"), vec![s("x")]);
    assert_eq!(lefts_of(&m, "x"), vec![s("a")]);
}

#[test]
fn remove_by_left_keeps_a_right_key_registered_alone() {
    let mut m = MultiBiMap::new();
    m.insert_by_right(s("lonely"));
    m.insert(s("a"), s("x"));
    m.remove_by_left(s("a"));
    assert!(m.get_by_right(&s("x")).is_none());
    assert_eq!(m.get_by_right(&s("lonely")).unwrap(), &Vec::<String>::new());
}

#[test]
fn directions_stay_inverse_over_a_sequence_of_operations() {
    let mut m = MultiBiMap::new();
    let pairs = [("a", "x"), ("a", "y"), ("b", "x"), ("c", "z"), ("b", "z"), ("d", "y")];
    for (l, r) in pairs.iter() {
        m.insert(s(l), s(r));
        assert!(directions_agree(&m));
        assert!(no_empty_set(&m));
    }
    m.remove_by_left(s("a"));
    assert!(directions_agree(&m));
    assert!(no_empty_set(&m));
    m.remove_by_right(s("z"));
    assert!(directions_agree(&m));
    assert!(no_empty_set(&m));
    m.insert(s("a"), s("z"));
    m.remove_by_right(s("x"));
    assert!(directions_agree(&m));
    assert!(no_empty_set(&m));
    assert_eq!(rights_of(&m, "a"), vec![s("z")]);
    assert_eq!(rights_of(&m, "d"), vec![s("y")]);
    assert!(m.get_by_left(&s("b")).is_none());
    assert!(m.get_by_left(&s("c")).is_none());
}

#[test]
fn remove_lefts_removes_each_key() {
    let mut m = MultiBiMap::new();
    m.insert(s("a"), s("x"));
    m.insert(s("b"), s("x"));
    m.insert(s("c"), s("x"));
    m.insert(s("c"), s("y"));
    m.remove_lefts(&vec![s("a"), s("b"), s("nope")]);
    assert_eq!(lefts_of(&m, "x"), vec![s("c")]);
    assert_eq!(rights_of(&m, "c"), vec![s("x"), s("y")]);
    m.remove_rights(&vec![s("x"), s("y")]);
    assert!(m.left_to_right.is_empty());
    assert!(m.right_to_left.is_empty());
}

#[test]
fn get_mut_by_left_hands_out_the_list() {
    let mut m = MultiBiMap::new();
    m.insert(s("a"), s("x"));
    assert!(m.get_mut_by_left(&s("b")).is_none());
    let list = m.get_mut_by_left(&s("a")).unwrap();
    assert_eq!(list, &mut vec![s("x")]);
    list.push(s("y"));
    assert_eq!(rights_of(&m, "a"), vec![s("x"), s("y")]);
    assert!(m.get_by_right(&s("y")).is_none());
}

#[test]
fn get_mut_by_right_hands_out_the_list() {
    let mut m = MultiBiMap::new();
    m.insert(s("a"), s("x"));
    assert!(m.get_mut_by_right(&s("a")).is_none());
    let list = m.get_mut_by_right(&s("x")).unwrap();
    assert_eq!(list, &mut vec![s("a")]);
}

#[test]
fn entry_by_left_creates_the_key() {
    let mut m = MultiBiMap::new();
    assert!(m.entry_by_left(s("a")).is_empty());
    assert_eq!(m.left_to_right.len(), 1);
    m.insert(s("a"), s("x"));
    assert_eq!(m.entry_by_left(s("a")), &mut vec![s("x")]);
    assert_eq!(m.left_to_right.len(), 1);
}

#[test]
fn entry_by_right_creates_the_key() {
    let mut m = MultiBiMap::new();
    assert!(m.entry_by_right(s("x")).is_empty());
    assert_eq!(m.right_to_left.len(), 1);
    m.insert(s("a"), s("x"));
    assert_eq!(m.entry_by_right(s("x")), &mut vec![s("a")]);
}

#[test]
fn default_map_is_empty() {
    let m = MultiBiMap::default();
    assert!(m.left_to_right.is_empty());
    assert!(m.right_to_left.is_empty());
}
