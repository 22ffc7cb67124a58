//! One direction of a two-way relation: a list of entries, one per key,
//! each with the keys of the other direction that it is related to.

use vstd::prelude::*;

verus! {

/// One key of one direction together with the keys of the other direction
/// that it is related to.
#[derive(Debug)]
pub struct Entry {
    pub key: String,
    pub members: Vec<String>,
}

/// The texts that a list of strings holds, in order.
pub open spec fn texts(v: Seq<String>) -> Seq<Seq<char>> {
    v.map_values(|s: String| s@)
}

impl Entry {
    pub open spec fn member_texts(&self) -> Seq<Seq<char>> {
        texts(self.members@)
    }
}

/// The keys of one direction, in storage order.
pub open spec fn side_keys(s: Seq<Entry>) -> Seq<Seq<char>> {
    s.map_values(|e: Entry| e.key@)
}

/// No key occurs twice, and no entry lists a member twice.
pub open spec fn side_wf(s: Seq<Entry>) -> bool {
    &&& side_keys(s).no_duplicates()
    &&& forall|i: int| 0 <= i < s.len() ==> (#[trigger] s[i]).member_texts().no_duplicates()
}

pub open spec fn side_has(s: Seq<Entry>, k: Seq<char>) -> bool {
    side_keys(s).contains(k)
}

/// The members listed under `k`; empty where `k` is no key.
pub open spec fn side_set(s: Seq<Entry>, k: Seq<char>) -> Set<Seq<char>> {
    if side_has(s, k) {
        s[side_keys(s).index_of(k)].member_texts().to_set()
    } else {
        Set::empty()
    }
}

pub proof fn lemma_side_at(s: Seq<Entry>, i: int)
    requires
        side_keys(s).no_duplicates(),
        0 <= i < s.len(),
    ensures
        side_has(s, s[i].key@),
        side_keys(s).index_of(s[i].key@) == i,
        side_set(s, s[i].key@) == s[i].member_texts().to_set(),
{
    let keys = side_keys(s);
    assert(keys[i] == s[i].key@);
    let j = keys.index_of(s[i].key@);
    assert(0 <= j < keys.len() && keys[j] == s[i].key@);
}

pub proof fn lemma_side_absent(s: Seq<Entry>, k: Seq<char>)
    requires
        forall|i: int| 0 <= i < s.len() ==> (#[trigger] s[i]).key@ != k,
    ensures
        !side_has(s, k),
        side_set(s, k) == Set::<Seq<char>>::empty(),
{
    let keys = side_keys(s);
    if keys.contains(k) {
        let j = choose|j: int| 0 <= j < keys.len() && keys[j] == k;
        assert(s[j].key@ == k);
    }
}

/// The position of `k` in `v`, if it is there.
pub fn position(v: &Vec<String>, k: &String) -> (r: Option<usize>)
    ensures
        match r {
            Some(i) => i < v.len() && v[i as int]@ == k@,
            None => !texts(v@).contains(k@),
        },
{
    let mut i: usize = 0;
    while i < v.len()
        invariant
            0 <= i <= v.len(),
            forall|j: int| 0 <= j < i ==> (#[trigger] v[j])@ != k@,
        decreases v.len() - i,
    {
        if v[i] == *k {
            return Some(i);
        }
        i += 1;
    }
    proof {
        let t = texts(v@);
        if t.contains(k@) {
            let j = choose|j: int| 0 <= j < t.len() && t[j] == k@;
            assert(v[j]@ == k@);
        }
    }
    None
}

/// The position of the entry whose key is `k`, if there is one.
pub fn find_entry(s: &Vec<Entry>, k: &String) -> (r: Option<usize>)
    ensures
        match r {
            Some(i) => i < s.len() && s[i as int].key@ == k@,
            None => !side_has(s@, k@),
        },
        r is Some <==> side_has(s@, k@),
{
    let mut i: usize = 0;
    while i < s.len()
        invariant
            0 <= i <= s.len(),
            forall|j: int| 0 <= j < i ==> (#[trigger] s[j]).key@ != k@,
        decreases s.len() - i,
    {
        if s[i].key == *k {
            proof {
                assert(side_keys(s@)[i as int] == k@);
            }
            return Some(i);
        }
        i += 1;
    }
    proof {
        lemma_side_absent(s@, k@);
    }
    None
}

/// Appending an entry under a new key adds that key and changes no other.
pub proof fn lemma_side_push(s: Seq<Entry>, e: Entry)
    requires
        side_wf(s),
        !side_has(s, e.key@),
        e.member_texts().no_duplicates(),
    ensures
        side_wf(s.push(e)),
        forall|k: Seq<char>| #[trigger]
            side_has(s.push(e), k) == (side_has(s, k) || k == e.key@),
        forall|k: Seq<char>| #[trigger]
            side_set(s.push(e), k) == (if k == e.key@ {
                e.member_texts().to_set()
            } else {
                side_set(s, k)
            }),
{
    let t = s.push(e);
    assert(side_keys(t) =~= side_keys(s).push(e.key@));
    assert forall|i: int, j: int|
        0 <= i < t.len() && 0 <= j < t.len() && i != j implies side_keys(t)[i] != side_keys(t)[j] by {
        if i < s.len() {
            assert(side_keys(s)[i] == side_keys(t)[i]);
        }
        if j < s.len() {
            assert(side_keys(s)[j] == side_keys(t)[j]);
        }
    }
    assert forall|i: int| 0 <= i < t.len() implies (#[trigger] t[i]).member_texts().no_duplicates() by {
        if i < s.len() {
            assert(t[i] == s[i]);
        }
    }
    assert forall|k: Seq<char>| #[trigger]
        side_has(t, k) == (side_has(s, k) || k == e.key@) by {
        if side_has(s, k) {
            let j = choose|j: int| 0 <= j < s.len() && side_keys(s)[j] == k;
            assert(side_keys(t)[j] == k);
        }
        if k == e.key@ {
            assert(side_keys(t)[s.len() as int] == k);
        }
    }
    assert forall|k: Seq<char>| #[trigger]
        side_set(t, k) == (if k == e.key@ {
            e.member_texts().to_set()
        } else {
            side_set(s, k)
        }) by {
        if k == e.key@ {
            lemma_side_at(t, s.len() as int);
        } else if side_has(s, k) {
            let j = side_keys(s).index_of(k);
            lemma_side_at(s, j);
            lemma_side_at(t, j);
        }
    }
}

/// Replacing an entry by one with the same key changes that key's members
/// and nothing else.
pub proof fn lemma_side_update(s: Seq<Entry>, i: int, e: Entry)
    requires
        side_wf(s),
        0 <= i < s.len(),
        e.key@ == s[i].key@,
        e.member_texts().no_duplicates(),
    ensures
        side_wf(s.update(i, e)),
        forall|k: Seq<char>| #[trigger] side_has(s.update(i, e), k) == side_has(s, k),
        forall|k: Seq<char>| #[trigger]
            side_set(s.update(i, e), k) == (if k == e.key@ {
                e.member_texts().to_set()
            } else {
                side_set(s, k)
            }),
{
    let t = s.update(i, e);
    assert(side_keys(t) =~= side_keys(s));
    assert forall|j: int| 0 <= j < t.len() implies (#[trigger] t[j]).member_texts().no_duplicates() by {
        if j != i {
            assert(t[j] == s[j]);
        }
    }
    assert forall|k: Seq<char>| #[trigger]
        side_set(t, k) == (if k == e.key@ {
            e.member_texts().to_set()
        } else {
            side_set(s, k)
        }) by {
        if k == e.key@ {
            lemma_side_at(t, i);
        } else if side_has(s, k) {
            let j = side_keys(s).index_of(k);
            lemma_side_at(s, j);
            lemma_side_at(t, j);
        }
    }
}

/// Taking an entry out removes its key and changes no other.
pub proof fn lemma_side_remove(s: Seq<Entry>, i: int)
    requires
        side_wf(s),
        0 <= i < s.len(),
    ensures
        side_wf(s.remove(i)),
        forall|k: Seq<char>| #[trigger]
            side_has(s.remove(i), k) == (side_has(s, k) && k != s[i].key@),
        forall|k: Seq<char>| #[trigger]
            side_set(s.remove(i), k) == (if k == s[i].key@ {
                Set::empty()
            } else {
                side_set(s, k)
            }),
{
    let t = s.remove(i);
    assert(side_keys(t) =~= side_keys(s).remove(i));
    assert forall|a: int| 0 <= a < t.len() implies #[trigger] t[a] == s[if a < i { a } else { a + 1 }] by {}
    assert forall|a: int, b: int|
        0 <= a < t.len() && 0 <= b < t.len() && a != b implies side_keys(t)[a] != side_keys(t)[b] by {
        let a2 = if a < i { a } else { a + 1 };
        let b2 = if b < i { b } else { b + 1 };
        assert(side_keys(t)[a] == side_keys(s)[a2]);
        assert(side_keys(t)[b] == side_keys(s)[b2]);
    }
    assert forall|a: int| 0 <= a < t.len() implies (#[trigger] t[a]).member_texts().no_duplicates() by {
        assert(t[a] == s[if a < i { a } else { a + 1 }]);
    }
    assert forall|k: Seq<char>| #[trigger]
        side_has(t, k) == (side_has(s, k) && k != s[i].key@) by {
        if side_has(t, k) {
            let a = choose|a: int| 0 <= a < t.len() && side_keys(t)[a] == k;
            let a2 = if a < i { a } else { a + 1 };
            assert(side_keys(s)[a2] == k);
            assert(side_keys(s)[i] == s[i].key@);
        }
        if side_has(s, k) && k != s[i].key@ {
            let a = choose|a: int| 0 <= a < s.len() && side_keys(s)[a] == k;
            let a2 = if a < i { a } else { a - 1 };
            assert(side_keys(t)[a2] == k);
        }
    }
    assert forall|k: Seq<char>| #[trigger]
        side_set(t, k) == (if k == s[i].key@ {
            Set::empty()
        } else {
            side_set(s, k)
        }) by {
        if side_has(t, k) {
            let a = side_keys(t).index_of(k);
            let a2 = if a < i { a } else { a + 1 };
            assert(side_keys(t)[a] == k);
            lemma_side_at(t, a);
            lemma_side_at(s, a2);
        }
    }
}

pub proof fn lemma_texts_push(v: Seq<String>, x: String)
    ensures
        texts(v.push(x)) == texts(v).push(x@),
        texts(v.push(x)).to_set() == texts(v).to_set().insert(x@),
        texts(v).no_duplicates() && !texts(v).contains(x@) ==> texts(v.push(x)).no_duplicates(),
{
    let t = texts(v);
    let u = texts(v.push(x));
    assert(u =~= t.push(x@));
    assert forall|m: Seq<char>| u.to_set().contains(m) == t.to_set().insert(x@).contains(m) by {
        if u.contains(m) {
            let j = choose|j: int| 0 <= j < u.len() && u[j] == m;
            if j < t.len() {
                assert(t[j] == m);
            }
        }
        if t.contains(m) {
            let j = choose|j: int| 0 <= j < t.len() && t[j] == m;
            assert(u[j] == m);
        }
        if m == x@ {
            assert(u[t.len() as int] == m);
        }
    }
    assert(u.to_set() =~= t.to_set().insert(x@));
}

/// Lists `member` under `key`, creating the key where it is new.
pub fn side_add(s: &mut Vec<Entry>, key: &String, member: &String) -> (at: usize)
    requires
        side_wf(old(s)@),
    ensures
        side_wf(final(s)@),
        at < final(s)@.len(),
        final(s)@[at as int].key@ == key@,
        forall|k: Seq<char>| #[trigger]
            side_has(final(s)@, k) == (side_has(old(s)@, k) || k == key@),
        forall|k: Seq<char>| #[trigger]
            side_set(final(s)@, k) == (if k == key@ {
                side_set(old(s)@, k).insert(member@)
            } else {
                side_set(old(s)@, k)
            }),
{
    match find_entry(s, key) {
        Some(i) => {
            proof {
                lemma_side_at(s@, i as int);
            }
            let found = position(&s[i].members, member);
            if found.is_none() {
                let ghost before = s@;
                s[i].members.push(member.clone());
                proof {
                    lemma_texts_push(before[i as int].members@, *member);
                    assert(s@ =~= before.update(i as int, s@[i as int]));
                    lemma_side_update(before, i as int, s@[i as int]);
                }
            } else {
                proof {
                    let m = found.unwrap() as int;
                    assert(s@[i as int].member_texts()[m] == member@);
                    assert(side_set(s@, key@).insert(member@) =~= side_set(s@, key@));
                }
            }
            i
        },
        None => {
            let ghost before = s@;
            let mut members: Vec<String> = Vec::new();
            members.push(member.clone());
            let e = Entry { key: key.clone(), members };
            proof {
                lemma_texts_push(Seq::<String>::empty(), *member);
                assert(texts(Seq::<String>::empty()) =~= Seq::<Seq<char>>::empty());
                assert(e.member_texts().to_set() =~= Set::<Seq<char>>::empty().insert(member@));
                lemma_side_push(before, e);
            }
            s.push(e);
            s.len() - 1
        },
    }
}

pub proof fn lemma_texts_remove(v: Seq<String>, m: int)
    requires
        0 <= m < v.len(),
        texts(v).no_duplicates(),
    ensures
        texts(v.remove(m)) == texts(v).remove(m),
        texts(v.remove(m)).no_duplicates(),
        texts(v.remove(m)).to_set() == texts(v).to_set().remove(v[m]@),
{
    let t = texts(v);
    let u = texts(v.remove(m));
    assert(u =~= t.remove(m));
    assert forall|a: int| 0 <= a < u.len() implies #[trigger] u[a] == t[if a < m { a } else { a + 1 }] by {}
    assert forall|a: int, b: int| 0 <= a < u.len() && 0 <= b < u.len() && a != b implies u[a] != u[b] by {
        assert(u[a] == t[if a < m { a } else { a + 1 }]);
        assert(u[b] == t[if b < m { b } else { b + 1 }]);
    }
    assert forall|x: Seq<char>| u.to_set().contains(x) == t.to_set().remove(v[m]@).contains(x) by {
        assert(t[m] == v[m]@);
        if u.contains(x) {
            let a = choose|a: int| 0 <= a < u.len() && u[a] == x;
            let a2 = if a < m { a } else { a + 1 };
            assert(t[a2] == x);
        }
        if t.contains(x) && x != v[m]@ {
            let a = choose|a: int| 0 <= a < t.len() && t[a] == x;
            let a2 = if a < m { a } else { a - 1 };
            assert(u[a2] == x);
        }
    }
    assert(u.to_set() =~= t.to_set().remove(v[m]@));
}

/// A duplicate-free list has exactly one member just when it has length one.
pub proof fn lemma_texts_sole(v: Seq<String>, m: int)
    requires
        0 <= m < v.len(),
        texts(v).no_duplicates(),
    ensures
        (v.len() == 1) == (texts(v).to_set() == set![v[m]@]),
{
    let t = texts(v);
    assert(t[m] == v[m]@);
    if v.len() == 1 {
        assert forall|x: Seq<char>| t.to_set().contains(x) == set![v[m]@].contains(x) by {
            if t.contains(x) {
                let a = choose|a: int| 0 <= a < t.len() && t[a] == x;
            }
        }
        assert(t.to_set() =~= set![v[m]@]);
    } else {
        let other = if m == 0 { 1int } else { 0int };
        assert(t.contains(t[other]));
        assert(t[other] != t[m]);
        assert(!set![v[m]@].contains(t[other]));
    }
}

/// Makes `key` a key, with no members where it is new.
pub fn side_ensure(s: &mut Vec<Entry>, key: &String) -> (at: usize)
    requires
        side_wf(old(s)@),
    ensures
        side_wf(final(s)@),
        at < final(s)@.len(),
        final(s)@[at as int].key@ == key@,
        forall|k: Seq<char>| #[trigger]
            side_has(final(s)@, k) == (side_has(old(s)@, k) || k == key@),
        forall|k: Seq<char>| #[trigger] side_set(final(s)@, k) == side_set(old(s)@, k),
{
    match find_entry(s, key) {
        Some(i) => i,
        None => {
            let ghost before = s@;
            let e = Entry { key: key.clone(), members: Vec::new() };
            proof {
                assert(e.member_texts() =~= Seq::<Seq<char>>::empty());
                assert(e.member_texts().to_set() =~= Set::<Seq<char>>::empty());
                lemma_side_push(before, e);
            }
            s.push(e);
            s.len() - 1
        },
    }
}

/// Takes the entry of `key` out and hands it back.
pub fn side_take(s: &mut Vec<Entry>, key: &String) -> (r: Option<Entry>)
    requires
        side_wf(old(s)@),
    ensures
        side_wf(final(s)@),
        r is Some == side_has(old(s)@, key@),
        r matches Some(e) ==> {
            &&& e.key@ == key@
            &&& e.member_texts().no_duplicates()
            &&& e.member_texts().to_set() == side_set(old(s)@, key@)
        },
        forall|k: Seq<char>| #[trigger]
            side_has(final(s)@, k) == (side_has(old(s)@, k) && k != key@),
        forall|k: Seq<char>| #[trigger]
            side_set(final(s)@, k) == (if k == key@ {
                Set::empty()
            } else {
                side_set(old(s)@, k)
            }),
{
    match find_entry(s, key) {
        Some(i) => {
            proof {
                lemma_side_at(s@, i as int);
                lemma_side_remove(s@, i as int);
            }
            let e = s.remove(i);
            Some(e)
        },
        None => {
            proof {
                assert forall|k: Seq<char>| #[trigger]
                    side_has(s@, k) == (side_has(s@, k) && k != key@) by {}
            }
            None
        },
    }
}

/// Strikes `member` from the members of `key`; a key whose only member it
/// was goes with it.
pub fn side_drop(s: &mut Vec<Entry>, key: &String, member: &String)
    requires
        side_wf(old(s)@),
    ensures
        side_wf(final(s)@),
        forall|k: Seq<char>| #[trigger]
            side_has(final(s)@, k) == (side_has(old(s)@, k) && !(k == key@ && side_set(
                old(s)@,
                key@,
            ) == set![member@])),
        forall|k: Seq<char>| #[trigger]
            side_set(final(s)@, k) == (if k == key@ {
                side_set(old(s)@, k).remove(member@)
            } else {
                side_set(old(s)@, k)
            }),
{
    let ghost before = s@;
    match find_entry(s, key) {
        Some(i) => {
            proof {
                lemma_side_at(before, i as int);
            }
            match position(&s[i].members, member) {
                Some(m) => {
                    proof {
                        lemma_texts_sole(before[i as int].members@, m as int);
                        lemma_texts_remove(before[i as int].members@, m as int);
                    }
                    if s[i].members.len() == 1 {
                        proof {
                            lemma_side_remove(before, i as int);
                            assert(set![member@].remove(member@) =~= Set::<Seq<char>>::empty());
                        }
                        let _ = s.remove(i);
                    } else {
                        let _ = s[i].members.remove(m);
                        proof {
                            assert(s@ =~= before.update(i as int, s@[i as int]));
                            lemma_side_update(before, i as int, s@[i as int]);
                        }
                    }
                },
                None => {
                    proof {
                        assert(!side_set(before, key@).contains(member@));
                        assert(set![member@].contains(member@));
                        assert(side_set(before, key@).remove(member@) =~= side_set(before, key@));
                    }
                },
            }
        },
        None => {
            proof {
                assert(set![member@].contains(member@));
                assert(side_set(before, key@).remove(member@) =~= side_set(before, key@));
            }
        },
    }
}

/// One of the first `n` strings of `v` holds the text `r`.
pub open spec fn listed(v: Seq<String>, n: int, r: Seq<char>) -> bool {
    exists|j: int| 0 <= j < n && j < v.len() && (#[trigger] v[j])@ == r
}

/// Strikes `member` from the members of each key that `keys` lists; a key
/// whose only member it was goes with it.
pub fn side_strip(s: &mut Vec<Entry>, keys: &Vec<String>, member: &String)
    requires
        side_wf(old(s)@),
    ensures
        side_wf(final(s)@),
        forall|k: Seq<char>| #[trigger]
            side_has(final(s)@, k) == (side_has(old(s)@, k) && !(texts(keys@).contains(k)
                && side_set(old(s)@, k) == set![member@])),
        forall|k: Seq<char>| #[trigger]
            side_set(final(s)@, k) == (if texts(keys@).contains(k) {
                side_set(old(s)@, k).remove(member@)
            } else {
                side_set(old(s)@, k)
            }),
{
    let ghost start = s@;
    let mut n: usize = 0;
    while n < keys.len()
        invariant
            0 <= n <= keys.len(),
            side_wf(s@),
            side_wf(start),
            forall|k: Seq<char>| #[trigger]
                side_has(s@, k) == (side_has(start, k) && !(listed(keys@, n as int, k) && side_set(
                    start,
                    k,
                ) == set![member@])),
            forall|k: Seq<char>| #[trigger]
                side_set(s@, k) == (if listed(keys@, n as int, k) {
                    side_set(start, k).remove(member@)
                } else {
                    side_set(start, k)
                }),
        decreases keys.len() - n,
    {
        let ghost cur = s@;
        side_drop(s, &keys[n], member);
        proof {
            let m = keys@[n as int]@;
            assert(set![member@].contains(member@));
            assert forall|k: Seq<char>| listed(keys@, n + 1, k) == (listed(keys@, n as int, k) || k
                == m) by {
                if listed(keys@, n + 1, k) {
                    let j = choose|j: int| 0 <= j < n + 1 && j < keys@.len() && (#[trigger] keys@[j])@ == k;
                    if j < n {
                        assert(listed(keys@, n as int, k));
                    }
                }
                if listed(keys@, n as int, k) {
                    let j = choose|j: int| 0 <= j < n && j < keys@.len() && (#[trigger] keys@[j])@ == k;
                    assert(keys@[j]@ == k);
                }
                if k == m {
                    assert(keys@[n as int]@ == k);
                }
            }
            assert forall|k: Seq<char>| #[trigger]
                side_has(s@, k) == (side_has(start, k) && !(listed(keys@, n + 1, k) && side_set(
                    start,
                    k,
                ) == set![member@])) by {
                assert(side_has(s@, k) == (side_has(cur, k) && !(k == m && side_set(cur, m)
                    == set![member@])));
                assert(side_has(cur, k) == (side_has(start, k) && !(listed(keys@, n as int, k)
                    && side_set(start, k) == set![member@])));
                if k == m && listed(keys@, n as int, k) {
                    assert(!side_set(cur, m).contains(member@));
                }
            }
            assert forall|k: Seq<char>| #[trigger]
                side_set(s@, k) == (if listed(keys@, n + 1, k) {
                    side_set(start, k).remove(member@)
                } else {
                    side_set(start, k)
                }) by {
                if k == m && listed(keys@, n as int, k) {
                    assert(side_set(start, k).remove(member@).remove(member@) =~= side_set(
                        start,
                        k,
                    ).remove(member@));
                }
            }
        }
        n += 1;
    }
    proof {
        lemma_listed_all(keys@);
        assert forall|k: Seq<char>| listed(keys@, keys@.len() as int, k) == texts(keys@).contains(
            k,
        ) by {
            assert(listed_set(keys@, keys@.len() as int).contains(k) == texts(keys@).to_set().contains(k));
        }
    }
}

/// A set that is neither empty nor `{x}` keeps a member when `x` leaves it.
pub proof fn lemma_more_than(s: Set<Seq<char>>, x: Seq<char>)
    requires
        s != Set::<Seq<char>>::empty(),
        s != set![x],
    ensures
        s.remove(x) != Set::<Seq<char>>::empty(),
{
    if s.remove(x) == Set::<Seq<char>>::empty() {
        assert forall|y: Seq<char>| s.contains(y) implies y == x by {
            if y != x {
                assert(s.remove(x).contains(y));
            }
        }
        if s.contains(x) {
            assert(s =~= set![x]);
        } else {
            assert(s =~= Set::<Seq<char>>::empty());
        }
    }
}

/// The texts among the first `n` strings of `v`.
pub open spec fn listed_set(v: Seq<String>, n: int) -> Set<Seq<char>> {
    Set::new(|k: Seq<char>| listed(v, n, k))
}

pub proof fn lemma_listed_grows(v: Seq<String>, n: int)
    requires
        0 <= n < v.len(),
    ensures
        listed_set(v, n + 1) == listed_set(v, n).insert(v[n]@),
{
    assert forall|k: Seq<char>| listed(v, n + 1, k) == (listed(v, n, k) || k == v[n]@) by {
        if listed(v, n + 1, k) {
            let j = choose|j: int| 0 <= j < n + 1 && j < v.len() && (#[trigger] v[j])@ == k;
            if j < n {
                assert(listed(v, n, k));
            }
        }
        if listed(v, n, k) {
            let j = choose|j: int| 0 <= j < n && j < v.len() && (#[trigger] v[j])@ == k;
            assert(v[j]@ == k);
        }
        if k == v[n]@ {
            assert(v[n]@ == k);
        }
    }
    assert(listed_set(v, n + 1) =~= listed_set(v, n).insert(v[n]@));
}

pub proof fn lemma_listed_all(v: Seq<String>)
    ensures
        listed_set(v, v.len() as int) == texts(v).to_set(),
{
    let t = texts(v);
    assert forall|k: Seq<char>| listed(v, v.len() as int, k) == t.contains(k) by {
        if listed(v, v.len() as int, k) {
            let j = choose|j: int| 0 <= j < v.len() && j < v.len() && (#[trigger] v[j])@ == k;
            assert(t[j] == k);
        }
        if t.contains(k) {
            let j = choose|j: int| 0 <= j < t.len() && t[j] == k;
            assert(v[j]@ == k);
        }
    }
    assert(listed_set(v, v.len() as int) =~= t.to_set());
}

/// A list with one more item holds what it held, and that item.
pub proof fn lemma_seq_push_contains(s: Seq<Seq<char>>, x: Seq<char>, k: Seq<char>)
    ensures
        s.push(x).contains(k) <==> s.contains(k) || k == x,
{
    let o = s.push(x);
    if o.contains(k) {
        let c = choose|c: int| 0 <= c < o.len() && o[c] == k;
        if c < s.len() {
            assert(s[c] == k);
        }
    }
    if s.contains(k) {
        let c = choose|c: int| 0 <= c < s.len() && s[c] == k;
        assert(o[c] == k);
    }
    if k == x {
        assert(o[s.len() as int] == k);
    }
}

} // verus!
