//! A two-way multi-valued relation between left keys and right keys.
//!
//! Each direction is kept as a list of entries, one per key, and the two
//! directions are exact inverses of one another.

use vstd::prelude::*;
use crate::relation::lemma_without_lefts_step;
use crate::relation::lemma_without_none;
use crate::relation::lemma_without_rights_step;
use crate::relation::Op;
use crate::relation::Relation;
use crate::side::Entry;
use crate::side::find_entry;
use crate::side::lemma_listed_all;
use crate::side::lemma_listed_grows;
use crate::side::lemma_more_than;
use crate::side::lemma_side_at;
use crate::side::lemma_side_push;
use crate::side::listed_set;
use crate::side::side_add;
use crate::side::side_ensure;
use crate::side::side_has;
use crate::side::side_keys;
use crate::side::side_set;
use crate::side::side_strip;
use crate::side::side_take;
use crate::side::side_wf;
use crate::side::texts;

verus! {

/// A relation between left keys and right keys, indexed in both directions.
#[derive(Debug)]
pub struct MultiBiMap {
    pub left_to_right: Vec<Entry>,
    pub right_to_left: Vec<Entry>,
}

impl MultiBiMap {
    pub open spec fn has_left(&self, l: Seq<char>) -> bool {
        side_has(self.left_to_right@, l)
    }

    pub open spec fn has_right(&self, r: Seq<char>) -> bool {
        side_has(self.right_to_left@, r)
    }

    /// The right keys recorded under the left key `l`.
    pub open spec fn rights_of(&self, l: Seq<char>) -> Set<Seq<char>> {
        side_set(self.left_to_right@, l)
    }

    /// The left keys recorded under the right key `r`.
    pub open spec fn lefts_of(&self, r: Seq<char>) -> Set<Seq<char>> {
        side_set(self.right_to_left@, r)
    }

    pub open spec fn left_keys(&self) -> Set<Seq<char>> {
        Set::new(|l: Seq<char>| self.has_left(l))
    }

    pub open spec fn right_keys(&self) -> Set<Seq<char>> {
        Set::new(|r: Seq<char>| self.has_right(r))
    }

    /// The pairs `(l, r)` that the left-to-right direction records.
    pub open spec fn edges(&self) -> Set<(Seq<char>, Seq<char>)> {
        Set::new(|p: (Seq<char>, Seq<char>)| self.rights_of(p.0).contains(p.1))
    }

    /// What the relation holds.
    pub open spec fn model(&self) -> Relation {
        Relation { lefts: self.left_keys(), rights: self.right_keys(), edges: self.edges() }
    }

    /// Both directions are duplicate-free and record the same pairs.
    pub open spec fn wf(&self) -> bool {
        &&& side_wf(self.left_to_right@)
        &&& side_wf(self.right_to_left@)
        &&& forall|l: Seq<char>, r: Seq<char>|
            #![trigger self.rights_of(l).contains(r)]
            #![trigger self.lefts_of(r).contains(l)]
            self.rights_of(l).contains(r) == self.lefts_of(r).contains(l)
    }

    /// Every key of either direction is related to at least one key.
    pub open spec fn populated(&self) -> bool {
        &&& forall|l: Seq<char>| #[trigger] self.has_left(l) ==> self.rights_of(l) != Set::<Seq<char>>::empty()
        &&& forall|r: Seq<char>| #[trigger] self.has_right(r) ==> self.lefts_of(r) != Set::<Seq<char>>::empty()
    }

    pub fn new() -> (m: Self)
        ensures
            m.wf(),
            m.populated(),
            m.left_keys() == Set::<Seq<char>>::empty(),
            m.right_keys() == Set::<Seq<char>>::empty(),
            m.edges() == Set::<(Seq<char>, Seq<char>)>::empty(),
            m.model() == Relation::empty(),
    {
        let m = MultiBiMap { left_to_right: Vec::new(), right_to_left: Vec::new() };
        proof {
            assert(side_keys(m.left_to_right@) =~= Seq::<Seq<char>>::empty());
            assert(side_keys(m.right_to_left@) =~= Seq::<Seq<char>>::empty());
            assert(m.left_keys() =~= Set::<Seq<char>>::empty());
            assert(m.right_keys() =~= Set::<Seq<char>>::empty());
            assert(m.edges() =~= Set::<(Seq<char>, Seq<char>)>::empty());
        }
        m
    }

    /// Relates `left` and `right`, in both directions.
    pub fn insert(&mut self, left: String, right: String) -> (sets: (&Vec<String>, &Vec<String>))
        requires
            old(self).wf(),
        ensures
            final(self).wf(),
            texts(sets.0@).no_duplicates(),
            texts(sets.0@).to_set() == final(self).lefts_of(right@),
            texts(sets.1@).no_duplicates(),
            texts(sets.1@).to_set() == final(self).rights_of(left@),
            final(self).edges() == old(self).edges().insert((left@, right@)),
            final(self).left_keys() == old(self).left_keys().insert(left@),
            final(self).right_keys() == old(self).right_keys().insert(right@),
            final(self).model() == old(self).model().applied(Op::Insert(left@, right@)),
            old(self).populated() ==> final(self).populated(),
    {
        let i = side_add(&mut self.left_to_right, &left, &right);
        let j = side_add(&mut self.right_to_left, &right, &left);
        proof {
            lemma_side_at(self.left_to_right@, i as int);
            lemma_side_at(self.right_to_left@, j as int);
            assert forall|l: Seq<char>, r: Seq<char>|
                self.rights_of(l).contains(r) == self.lefts_of(r).contains(l) by {
                assert(old(self).rights_of(l).contains(r) == old(self).lefts_of(r).contains(l));
                assert(self.rights_of(l).contains(r) == (old(self).rights_of(l).contains(r) || (l
                    == left@ && r == right@)));
                assert(self.lefts_of(r).contains(l) == (old(self).lefts_of(r).contains(l) || (l
                    == left@ && r == right@)));
            }
            assert(final(self).edges() =~= old(self).edges().insert((left@, right@)));
            assert(final(self).left_keys() =~= old(self).left_keys().insert(left@));
            assert(final(self).right_keys() =~= old(self).right_keys().insert(right@));
            if old(self).populated() {
                assert forall|l: Seq<char>| #[trigger] self.has_left(l) implies self.rights_of(l)
                    != Set::<Seq<char>>::empty() by {
                    if l == left@ {
                        assert(self.rights_of(l).contains(right@));
                    } else {
                        assert(old(self).has_left(l));
                    }
                }
                assert forall|r: Seq<char>| #[trigger] self.has_right(r) implies self.lefts_of(r)
                    != Set::<Seq<char>>::empty() by {
                    if r == right@ {
                        assert(self.lefts_of(r).contains(left@));
                    } else {
                        assert(old(self).has_right(r));
                    }
                }
            }
        }
        (&self.right_to_left[j].members, &self.left_to_right[i].members)
    }

    /// Makes `left` a left key without relating it to anything.
    pub fn insert_by_left(&mut self, left: String) -> (rights: &Vec<String>)
        requires
            old(self).wf(),
        ensures
            final(self).wf(),
            final(self).left_keys() == old(self).left_keys().insert(left@),
            final(self).right_keys() == old(self).right_keys(),
            final(self).edges() == old(self).edges(),
            texts(rights@).no_duplicates(),
            texts(rights@).to_set() == old(self).rights_of(left@),
    {
        let i = side_ensure(&mut self.left_to_right, &left);
        proof {
            lemma_side_at(self.left_to_right@, i as int);
            assert forall|l: Seq<char>, r: Seq<char>|
                self.rights_of(l).contains(r) == self.lefts_of(r).contains(l) by {
                assert(old(self).rights_of(l).contains(r) == old(self).lefts_of(r).contains(l));
            }
            assert(final(self).left_keys() =~= old(self).left_keys().insert(left@));
            assert(final(self).right_keys() =~= old(self).right_keys());
            assert(final(self).edges() =~= old(self).edges());
        }
        &self.left_to_right[i].members
    }

    /// Makes `right` a right key without relating it to anything.
    pub fn insert_by_right(&mut self, right: String) -> (lefts: &Vec<String>)
        requires
            old(self).wf(),
        ensures
            final(self).wf(),
            final(self).right_keys() == old(self).right_keys().insert(right@),
            final(self).left_keys() == old(self).left_keys(),
            final(self).edges() == old(self).edges(),
            texts(lefts@).no_duplicates(),
            texts(lefts@).to_set() == old(self).lefts_of(right@),
    {
        let i = side_ensure(&mut self.right_to_left, &right);
        proof {
            lemma_side_at(self.right_to_left@, i as int);
            assert forall|l: Seq<char>, r: Seq<char>|
                self.rights_of(l).contains(r) == self.lefts_of(r).contains(l) by {
                assert(old(self).rights_of(l).contains(r) == old(self).lefts_of(r).contains(l));
            }
            assert(final(self).right_keys() =~= old(self).right_keys().insert(right@));
            assert(final(self).left_keys() =~= old(self).left_keys());
            assert(final(self).edges() =~= old(self).edges());
        }
        &self.right_to_left[i].members
    }

    /// The right keys related to `left`, where `left` is a left key.
    pub fn get_by_left(&self, left: &String) -> (rights: Option<&Vec<String>>)
        requires
            self.wf(),
        ensures
            rights is Some == self.has_left(left@),
            rights matches Some(v) ==> texts(v@).no_duplicates() && texts(v@).to_set()
                == self.rights_of(left@),
    {
        match find_entry(&self.left_to_right, left) {
            Some(i) => {
                proof {
                    lemma_side_at(self.left_to_right@, i as int);
                }
                Some(&self.left_to_right[i].members)
            },
            None => None,
        }
    }

    /// The left keys related to `right`, where `right` is a right key.
    pub fn get_by_right(&self, right: &String) -> (lefts: Option<&Vec<String>>)
        requires
            self.wf(),
        ensures
            lefts is Some == self.has_right(right@),
            lefts matches Some(v) ==> texts(v@).no_duplicates() && texts(v@).to_set()
                == self.lefts_of(right@),
    {
        match find_entry(&self.right_to_left, right) {
            Some(i) => {
                proof {
                    lemma_side_at(self.right_to_left@, i as int);
                }
                Some(&self.right_to_left[i].members)
            },
            None => None,
        }
    }

    /// Removes the left key `left` with every pair that holds it. A right key
    /// that was related to `left` alone is removed too.
    pub fn remove_by_left(&mut self, left: String)
        requires
            old(self).wf(),
        ensures
            final(self).wf(),
            final(self).left_keys() == old(self).left_keys().remove(left@),
            final(self).edges() == old(self).edges().filter(
                |p: (Seq<char>, Seq<char>)| p.0 != left@,
            ),
            final(self).right_keys() == old(self).right_keys().filter(
                |r: Seq<char>| old(self).lefts_of(r) != set![left@],
            ),
            final(self).model() == old(self).model().without_lefts(set![left@]),
            old(self).populated() ==> final(self).populated(),
    {
        let taken = side_take(&mut self.left_to_right, &left);
        match taken {
            Some(e) => {
                side_strip(&mut self.right_to_left, &e.members, &left);
            },
            None => {},
        }
        proof {
            let was = *old(self);
            let now = *final(self);
            assert(set![left@].contains(left@));
            assert forall|r: Seq<char>| #[trigger] now.lefts_of(r) == was.lefts_of(r).remove(left@) by {
                assert(was.rights_of(left@).contains(r) == was.lefts_of(r).contains(left@));
                if !was.rights_of(left@).contains(r) {
                    assert(was.lefts_of(r).remove(left@) =~= was.lefts_of(r));
                }
            }
            assert forall|r: Seq<char>| #[trigger] now.has_right(r) == (was.has_right(r) && was.lefts_of(r) != set![
                left@,
            ]) by {
                assert(was.rights_of(left@).contains(r) == was.lefts_of(r).contains(left@));
            }
            assert forall|l: Seq<char>, r: Seq<char>|
                now.rights_of(l).contains(r) == now.lefts_of(r).contains(l) by {
                assert(was.rights_of(l).contains(r) == was.lefts_of(r).contains(l));
                assert(now.lefts_of(r) == was.lefts_of(r).remove(left@));
            }
            assert(now.left_keys() =~= was.left_keys().remove(left@));
            assert(now.edges() =~= was.edges().filter(|p: (Seq<char>, Seq<char>)| p.0 != left@));
            assert(now.right_keys() =~= was.right_keys().filter(
                |r: Seq<char>| was.lefts_of(r) != set![left@],
            ));
            let goal = was.model().without_lefts(set![left@]);
            assert(now.left_keys() =~= goal.lefts);
            assert(now.edges() =~= goal.edges);
            assert forall|r: Seq<char>| now.right_keys().contains(r) == goal.rights.contains(r) by {
                lemma_lone_left(was, r, left@);
            }
            assert(now.right_keys() =~= goal.rights);
            if was.populated() {
                assert forall|l: Seq<char>| #[trigger] now.has_left(l) implies now.rights_of(l)
                    != Set::<Seq<char>>::empty() by {
                    assert(was.has_left(l));
                }
                assert forall|r: Seq<char>| #[trigger] now.has_right(r) implies now.lefts_of(r)
                    != Set::<Seq<char>>::empty() by {
                    assert(was.has_right(r));
                    lemma_more_than(was.lefts_of(r), left@);
                }
            }
        }
    }

    /// Removes the right key `right` with every pair that holds it. A left
    /// key that was related to `right` alone is removed too.
    pub fn remove_by_right(&mut self, right: String)
        requires
            old(self).wf(),
        ensures
            final(self).wf(),
            final(self).right_keys() == old(self).right_keys().remove(right@),
            final(self).edges() == old(self).edges().filter(
                |p: (Seq<char>, Seq<char>)| p.1 != right@,
            ),
            final(self).left_keys() == old(self).left_keys().filter(
                |l: Seq<char>| old(self).rights_of(l) != set![right@],
            ),
            final(self).model() == old(self).model().without_rights(set![right@]),
            old(self).populated() ==> final(self).populated(),
    {
        let taken = side_take(&mut self.right_to_left, &right);
        match taken {
            Some(e) => {
                side_strip(&mut self.left_to_right, &e.members, &right);
            },
            None => {},
        }
        proof {
            let was = *old(self);
            let now = *final(self);
            assert(set![right@].contains(right@));
            assert forall|l: Seq<char>| #[trigger] now.rights_of(l) == was.rights_of(l).remove(right@) by {
                assert(was.rights_of(l).contains(right@) == was.lefts_of(right@).contains(l));
                if !was.lefts_of(right@).contains(l) {
                    assert(was.rights_of(l).remove(right@) =~= was.rights_of(l));
                }
            }
            assert forall|l: Seq<char>| #[trigger] now.has_left(l) == (was.has_left(l) && was.rights_of(l) != set![
                right@,
            ]) by {
                assert(was.rights_of(l).contains(right@) == was.lefts_of(right@).contains(l));
            }
            assert forall|l: Seq<char>, r: Seq<char>|
                now.rights_of(l).contains(r) == now.lefts_of(r).contains(l) by {
                assert(was.rights_of(l).contains(r) == was.lefts_of(r).contains(l));
                assert(now.rights_of(l) == was.rights_of(l).remove(right@));
            }
            assert(now.right_keys() =~= was.right_keys().remove(right@));
            assert(now.edges() =~= was.edges().filter(|p: (Seq<char>, Seq<char>)| p.1 != right@));
            assert(now.left_keys() =~= was.left_keys().filter(
                |l: Seq<char>| was.rights_of(l) != set![right@],
            ));
            let goal = was.model().without_rights(set![right@]);
            assert(now.right_keys() =~= goal.rights);
            assert(now.edges() =~= goal.edges);
            assert forall|l: Seq<char>| now.left_keys().contains(l) == goal.lefts.contains(l) by {
                lemma_lone_right(was, l, right@);
            }
            assert(now.left_keys() =~= goal.lefts);
            if was.populated() {
                assert forall|r: Seq<char>| #[trigger] now.has_right(r) implies now.lefts_of(r)
                    != Set::<Seq<char>>::empty() by {
                    assert(was.has_right(r));
                }
                assert forall|l: Seq<char>| #[trigger] now.has_left(l) implies now.rights_of(l)
                    != Set::<Seq<char>>::empty() by {
                    assert(was.has_left(l));
                    lemma_more_than(was.rights_of(l), right@);
                }
            }
        }
    }

    /// Removes each of the left keys in `keys`, as `remove_by_left` does.
    pub fn remove_lefts(&mut self, keys: &Vec<String>)
        requires
            old(self).wf(),
        ensures
            final(self).wf(),
            final(self).model() == old(self).model().without_lefts(texts(keys@).to_set()),
            old(self).populated() ==> final(self).populated(),
    {
        let mut n: usize = 0;
        proof {
            lemma_without_none(self.model());
            assert(listed_set(keys@, 0) =~= Set::<Seq<char>>::empty());
        }
        while n < keys.len()
            invariant
                0 <= n <= keys.len(),
                self.wf(),
                self.model() == old(self).model().without_lefts(listed_set(keys@, n as int)),
                old(self).populated() ==> self.populated(),
            decreases keys.len() - n,
        {
            proof {
                lemma_without_lefts_step(
                    old(self).model(),
                    listed_set(keys@, n as int),
                    keys@[n as int]@,
                );
                lemma_listed_grows(keys@, n as int);
            }
            self.remove_by_left(keys[n].clone());
            n += 1;
        }
        proof {
            lemma_listed_all(keys@);
        }
    }

    /// Removes each of the right keys in `keys`, as `remove_by_right` does.
    pub fn remove_rights(&mut self, keys: &Vec<String>)
        requires
            old(self).wf(),
        ensures
            final(self).wf(),
            final(self).model() == old(self).model().without_rights(texts(keys@).to_set()),
            old(self).populated() ==> final(self).populated(),
    {
        let mut n: usize = 0;
        proof {
            lemma_without_none(self.model());
            assert(listed_set(keys@, 0) =~= Set::<Seq<char>>::empty());
        }
        while n < keys.len()
            invariant
                0 <= n <= keys.len(),
                self.wf(),
                self.model() == old(self).model().without_rights(listed_set(keys@, n as int)),
                old(self).populated() ==> self.populated(),
            decreases keys.len() - n,
        {
            proof {
                lemma_without_rights_step(
                    old(self).model(),
                    listed_set(keys@, n as int),
                    keys@[n as int]@,
                );
                lemma_listed_grows(keys@, n as int);
            }
            self.remove_by_right(keys[n].clone());
            n += 1;
        }
        proof {
            lemma_listed_all(keys@);
        }
    }

    /// The list of right keys under `left`, open to change. The other
    /// direction is not touched: whoever changes the list answers for
    /// `wf`.
    pub fn get_mut_by_left(&mut self, left: &String) -> (rights: Option<&mut Vec<String>>)
        ensures
            rights is Some == side_has(old(self).left_to_right@, left@),
            final(self).right_to_left == old(self).right_to_left,
            match rights {
                Some(v) => exists|i: int|
                    {
                        &&& 0 <= i < old(self).left_to_right@.len()
                        &&& (#[trigger] old(self).left_to_right@[i]).key@ == left@
                        &&& *v == old(self).left_to_right@[i].members
                        &&& final(self).left_to_right@ == old(self).left_to_right@.update(
                            i,
                            Entry { key: old(self).left_to_right@[i].key, members: *final(v) },
                        )
                    },
                None => final(self).left_to_right == old(self).left_to_right,
            },
    {
        match find_entry(&self.left_to_right, left) {
            Some(i) => Some(&mut self.left_to_right[i].members),
            None => None,
        }
    }

    /// The list of left keys under `right`, open to change. The other
    /// direction is not touched: whoever changes the list answers for
    /// `wf`.
    pub fn get_mut_by_right(&mut self, right: &String) -> (lefts: Option<&mut Vec<String>>)
        ensures
            lefts is Some == side_has(old(self).right_to_left@, right@),
            final(self).left_to_right == old(self).left_to_right,
            match lefts {
                Some(v) => exists|i: int|
                    {
                        &&& 0 <= i < old(self).right_to_left@.len()
                        &&& (#[trigger] old(self).right_to_left@[i]).key@ == right@
                        &&& *v == old(self).right_to_left@[i].members
                        &&& final(self).right_to_left@ == old(self).right_to_left@.update(
                            i,
                            Entry { key: old(self).right_to_left@[i].key, members: *final(v) },
                        )
                    },
                None => final(self).right_to_left == old(self).right_to_left,
            },
    {
        match find_entry(&self.right_to_left, right) {
            Some(i) => Some(&mut self.right_to_left[i].members),
            None => None,
        }
    }

    /// The list of right keys under `left`, open to change, with `left`
    /// made a left key where it was none. The other direction is not
    /// touched: whoever changes the list answers for `wf`.
    pub fn entry_by_left(&mut self, left: String) -> (rights: &mut Vec<String>)
        requires
            side_wf(old(self).left_to_right@),
        ensures
            final(self).right_to_left == old(self).right_to_left,
            texts(rights@).to_set() == side_set(old(self).left_to_right@, left@),
            texts(rights@).no_duplicates(),
            exists|i: int, was: Seq<Entry>|
                {
                    &&& was == (if side_has(old(self).left_to_right@, left@) {
                        old(self).left_to_right@
                    } else {
                        old(self).left_to_right@.push(Entry { key: left, members: *rights })
                    })
                    &&& 0 <= i < was.len()
                    &&& (#[trigger] was[i]).key@ == left@
                    &&& *rights == was[i].members
                    &&& final(self).left_to_right@ == was.update(
                        i,
                        Entry { key: was[i].key, members: *final(rights) },
                    )
                },
    {
        let ghost before = self.left_to_right@;
        let i = match find_entry(&self.left_to_right, &left) {
            Some(i) => i,
            None => {
                let e = Entry { key: left, members: Vec::new() };
                proof {
                    assert(e.member_texts() =~= Seq::<Seq<char>>::empty());
                    lemma_side_push(before, e);
                }
                self.left_to_right.push(e);
                self.left_to_right.len() - 1
            },
        };
        proof {
            lemma_side_at(self.left_to_right@, i as int);
        }
        &mut self.left_to_right[i].members
    }

    /// The list of left keys under `right`, open to change, with `right`
    /// made a right key where it was none. The other direction is not
    /// touched: whoever changes the list answers for `wf`.
    pub fn entry_by_right(&mut self, right: String) -> (lefts: &mut Vec<String>)
        requires
            side_wf(old(self).right_to_left@),
        ensures
            final(self).left_to_right == old(self).left_to_right,
            texts(lefts@).to_set() == side_set(old(self).right_to_left@, right@),
            texts(lefts@).no_duplicates(),
            exists|i: int, was: Seq<Entry>|
                {
                    &&& was == (if side_has(old(self).right_to_left@, right@) {
                        old(self).right_to_left@
                    } else {
                        old(self).right_to_left@.push(Entry { key: right, members: *lefts })
                    })
                    &&& 0 <= i < was.len()
                    &&& (#[trigger] was[i]).key@ == right@
                    &&& *lefts == was[i].members
                    &&& final(self).right_to_left@ == was.update(
                        i,
                        Entry { key: was[i].key, members: *final(lefts) },
                    )
                },
    {
        let ghost before = self.right_to_left@;
        let i = match find_entry(&self.right_to_left, &right) {
            Some(i) => i,
            None => {
                let e = Entry { key: right, members: Vec::new() };
                proof {
                    assert(e.member_texts() =~= Seq::<Seq<char>>::empty());
                    lemma_side_push(before, e);
                }
                self.right_to_left.push(e);
                self.right_to_left.len() - 1
            },
        };
        proof {
            lemma_side_at(self.right_to_left@, i as int);
        }
        &mut self.right_to_left[i].members
    }
}

impl Default for MultiBiMap {
    fn default() -> (m: Self)
        ensures
            m.wf(),
            m.populated(),
            m.model() == Relation::empty(),
    {
        MultiBiMap::new()
    }
}

/// The two directions are inverses: `r` is among the right keys of `l`
/// exactly when `l` is among the left keys of `r`; and a key with a member is
/// a key of its direction.
pub proof fn lemma_directions_inverse(m: MultiBiMap, l: Seq<char>, r: Seq<char>)
    requires
        m.wf(),
    ensures
        m.rights_of(l).contains(r) <==> m.lefts_of(r).contains(l),
        m.edges().contains((l, r)) <==> m.lefts_of(r).contains(l),
        m.rights_of(l).contains(r) ==> m.has_left(l) && m.has_right(r),
{
    assert(m.rights_of(l).contains(r) == m.lefts_of(r).contains(l));
}

/// Where every key is related to something, each left key has a partner on
/// the right that points back at it, and each right key one on the left.
pub proof fn lemma_keys_have_partners(m: MultiBiMap, k: Seq<char>)
    requires
        m.wf(),
        m.populated(),
    ensures
        m.has_left(k) ==> exists|r: Seq<char>| m.rights_of(k).contains(r) && m.lefts_of(r).contains(k),
        m.has_right(k) ==> exists|l: Seq<char>| m.lefts_of(k).contains(l) && m.rights_of(l).contains(k),
{
    if m.has_left(k) {
        let s = m.rights_of(k);
        if forall|r: Seq<char>| !s.contains(r) {
            assert(s =~= Set::<Seq<char>>::empty());
        }
        let r = choose|r: Seq<char>| s.contains(r);
        assert(m.rights_of(k).contains(r) == m.lefts_of(r).contains(k));
    }
    if m.has_right(k) {
        let s = m.lefts_of(k);
        if forall|l: Seq<char>| !s.contains(l) {
            assert(s =~= Set::<Seq<char>>::empty());
        }
        let l = choose|l: Seq<char>| s.contains(l);
        assert(m.rights_of(l).contains(k) == m.lefts_of(k).contains(l));
    }
}

/// The left keys of `r` are other than `x` alone exactly when `r` has no
/// left key at all or has one besides `x`.
pub proof fn lemma_lone_left(m: MultiBiMap, r: Seq<char>, x: Seq<char>)
    requires
        m.wf(),
    ensures
        (m.lefts_of(r) != set![x]) == (!m.model().has_left_outside(r, Set::empty())
            || m.model().has_left_outside(r, set![x])),
{
    let s = m.lefts_of(r);
    let none = Set::<Seq<char>>::empty();
    assert forall|l: Seq<char>| m.model().edges.contains((l, r)) == s.contains(l) by {
        assert(m.rights_of(l).contains(r) == m.lefts_of(r).contains(l));
    }
    if s == set![x] {
        assert(set![x].contains(x));
        assert(m.model().edges.contains((x, r)) && !none.contains(x));
        if m.model().has_left_outside(r, set![x]) {
            let l = choose|l: Seq<char>| #[trigger] m.model().edges.contains((l, r)) && !set![x].contains(l);
            assert(s.contains(l));
        }
    } else if m.model().has_left_outside(r, none) {
        let l = choose|l: Seq<char>| #[trigger] m.model().edges.contains((l, r)) && !none.contains(l);
        assert(s.contains(l));
        assert(s != none);
        lemma_more_than(s, x);
        let rest = s.remove(x);
        if forall|y: Seq<char>| !rest.contains(y) {
            assert(rest =~= none);
        }
        let y = choose|y: Seq<char>| rest.contains(y);
        assert(m.model().edges.contains((y, r)) && !set![x].contains(y));
    }
}

/// The right keys of `l` are other than `x` alone exactly when `l` has no
/// right key at all or has one besides `x`.
pub proof fn lemma_lone_right(m: MultiBiMap, l: Seq<char>, x: Seq<char>)
    requires
        m.wf(),
    ensures
        (m.rights_of(l) != set![x]) == (!m.model().has_right_outside(l, Set::empty())
            || m.model().has_right_outside(l, set![x])),
{
    let s = m.rights_of(l);
    let none = Set::<Seq<char>>::empty();
    if s == set![x] {
        assert(set![x].contains(x));
        assert(m.model().edges.contains((l, x)) && !none.contains(x));
        if m.model().has_right_outside(l, set![x]) {
            let r = choose|r: Seq<char>| #[trigger] m.model().edges.contains((l, r)) && !set![x].contains(r);
            assert(s.contains(r));
        }
    } else if m.model().has_right_outside(l, none) {
        let r = choose|r: Seq<char>| #[trigger] m.model().edges.contains((l, r)) && !none.contains(r);
        assert(s.contains(r));
        assert(s != none);
        lemma_more_than(s, x);
        let rest = s.remove(x);
        if forall|y: Seq<char>| !rest.contains(y) {
            assert(rest =~= none);
        }
        let y = choose|y: Seq<char>| rest.contains(y);
        assert(m.model().edges.contains((l, y)) && !set![x].contains(y));
    }
}

/// Which left keys go depends only on which of the relation's own left
/// keys are named.
pub proof fn lemma_without_lefts_of_keys(m: MultiBiMap, x: Set<Seq<char>>, y: Set<Seq<char>>)
    requires
        forall|l: Seq<char>| #[trigger] m.has_left(l) ==> (x.contains(l) == y.contains(l)),
    ensures
        m.model().without_lefts(x) == m.model().without_lefts(y),
{
    let r = m.model();
    let a = r.without_lefts(x);
    let b = r.without_lefts(y);
    assert forall|l: Seq<char>, k: Seq<char>| r.edges.contains((l, k)) implies m.has_left(l) by {
        assert(m.rights_of(l).contains(k));
    }
    assert forall|l: Seq<char>| a.lefts.contains(l) == b.lefts.contains(l) by {
        if r.lefts.contains(l) {
            assert(m.has_left(l));
        }
    }
    assert(a.lefts =~= b.lefts);
    assert forall|p: (Seq<char>, Seq<char>)| a.edges.contains(p) == b.edges.contains(p) by {
        if r.edges.contains(p) {
            assert(r.edges.contains((p.0, p.1)));
            assert(m.has_left(p.0));
        }
    }
    assert(a.edges =~= b.edges);
    assert forall|k: Seq<char>| r.has_left_outside(k, x) == r.has_left_outside(k, y) by {
        if r.has_left_outside(k, x) {
            let l = choose|l: Seq<char>| #[trigger] r.edges.contains((l, k)) && !x.contains(l);
            assert(m.has_left(l));
            assert(r.edges.contains((l, k)) && !y.contains(l));
        }
        if r.has_left_outside(k, y) {
            let l = choose|l: Seq<char>| #[trigger] r.edges.contains((l, k)) && !y.contains(l);
            assert(m.has_left(l));
            assert(r.edges.contains((l, k)) && !x.contains(l));
        }
    }
    assert(a.rights =~= b.rights);
}

/// Which right keys go depends only on which of the relation's own right
/// keys are named.
pub proof fn lemma_without_rights_of_keys(m: MultiBiMap, x: Set<Seq<char>>, y: Set<Seq<char>>)
    requires
        m.wf(),
        forall|r: Seq<char>| #[trigger] m.has_right(r) ==> (x.contains(r) == y.contains(r)),
    ensures
        m.model().without_rights(x) == m.model().without_rights(y),
{
    let r = m.model();
    let a = r.without_rights(x);
    let b = r.without_rights(y);
    assert forall|l: Seq<char>, k: Seq<char>| r.edges.contains((l, k)) implies m.has_right(k) by {
        assert(m.rights_of(l).contains(k) == m.lefts_of(k).contains(l));
    }
    assert forall|k: Seq<char>| a.rights.contains(k) == b.rights.contains(k) by {
        if r.rights.contains(k) {
            assert(m.has_right(k));
        }
    }
    assert(a.rights =~= b.rights);
    assert forall|p: (Seq<char>, Seq<char>)| a.edges.contains(p) == b.edges.contains(p) by {
        if r.edges.contains(p) {
            assert(r.edges.contains((p.0, p.1)));
            assert(m.has_right(p.1));
        }
    }
    assert(a.edges =~= b.edges);
    assert forall|l: Seq<char>| r.has_right_outside(l, x) == r.has_right_outside(l, y) by {
        if r.has_right_outside(l, x) {
            let k = choose|k: Seq<char>| #[trigger] r.edges.contains((l, k)) && !x.contains(k);
            assert(m.has_right(k));
            assert(r.edges.contains((l, k)) && !y.contains(k));
        }
        if r.has_right_outside(l, y) {
            let k = choose|k: Seq<char>| #[trigger] r.edges.contains((l, k)) && !y.contains(k);
            assert(m.has_right(k));
            assert(r.edges.contains((l, k)) && !x.contains(k));
        }
    }
    assert(a.lefts =~= b.lefts);
}

/// A stored relation in which every key is related to something holds a
/// tight relation, and the other way round.
pub proof fn lemma_populated_is_tight(m: MultiBiMap)
    requires
        m.wf(),
    ensures
        m.populated() <==> m.model().tight(),
{
    let r = m.model();
    let none = Set::<Seq<char>>::empty();
    assert forall|l: Seq<char>| r.has_right_outside(l, none) <==> m.rights_of(l) != none by {
        if r.has_right_outside(l, none) {
            let k = choose|k: Seq<char>| #[trigger] r.edges.contains((l, k)) && !none.contains(k);
            assert(m.rights_of(l).contains(k));
        }
        if m.rights_of(l) != none {
            if forall|k: Seq<char>| !m.rights_of(l).contains(k) {
                assert(m.rights_of(l) =~= none);
            }
            let k = choose|k: Seq<char>| m.rights_of(l).contains(k);
            assert(r.edges.contains((l, k)) && !none.contains(k));
        }
    }
    assert forall|k: Seq<char>| r.has_left_outside(k, none) <==> m.lefts_of(k) != none by {
        if r.has_left_outside(k, none) {
            let l = choose|l: Seq<char>| #[trigger] r.edges.contains((l, k)) && !none.contains(l);
            assert(m.rights_of(l).contains(k) == m.lefts_of(k).contains(l));
        }
        if m.lefts_of(k) != none {
            if forall|l: Seq<char>| !m.lefts_of(k).contains(l) {
                assert(m.lefts_of(k) =~= none);
            }
            let l = choose|l: Seq<char>| m.lefts_of(k).contains(l);
            assert(m.rights_of(l).contains(k) == m.lefts_of(k).contains(l));
            assert(r.edges.contains((l, k)) && !none.contains(l));
        }
    }
    if m.populated() {
        assert forall|l: Seq<char>| #[trigger] r.lefts.contains(l) <==> r.has_right_outside(l, none) by {
            assert(r.lefts.contains(l) == m.has_left(l));
        }
        assert forall|k: Seq<char>| #[trigger] r.rights.contains(k) <==> r.has_left_outside(k, none) by {
            assert(r.rights.contains(k) == m.has_right(k));
        }
    }
    if r.tight() {
        assert forall|l: Seq<char>| #[trigger] m.has_left(l) implies m.rights_of(l) != none by {
            assert(r.lefts.contains(l));
        }
        assert forall|k: Seq<char>| #[trigger] m.has_right(k) implies m.lefts_of(k) != none by {
            assert(r.rights.contains(k));
        }
    }
}

} // verus!
