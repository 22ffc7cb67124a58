//! What a two-way relation holds, apart from how it is stored, and what
//! inserting and removing make of it.

use vstd::prelude::*;

verus! {

/// What a relation holds, apart from how it is stored: its left keys, its
/// right keys and its pairs.
pub struct Relation {
    pub lefts: Set<Seq<char>>,
    pub rights: Set<Seq<char>>,
    pub edges: Set<(Seq<char>, Seq<char>)>,
}

/// One change to a relation.
pub enum Op {
    Insert(Seq<char>, Seq<char>),
    RemoveByLeft(Seq<char>),
    RemoveByRight(Seq<char>),
}

impl Relation {
    /// `r` is paired with a left key outside `x`.
    pub open spec fn has_left_outside(self, r: Seq<char>, x: Set<Seq<char>>) -> bool {
        exists|l: Seq<char>| #[trigger] self.edges.contains((l, r)) && !x.contains(l)
    }

    /// `l` is paired with a right key outside `y`.
    pub open spec fn has_right_outside(self, l: Seq<char>, y: Set<Seq<char>>) -> bool {
        exists|r: Seq<char>| #[trigger] self.edges.contains((l, r)) && !y.contains(r)
    }

    /// The relation after the left keys in `x` are removed one by one: they
    /// go with their pairs, and so does each right key that was paired with
    /// left keys in `x` alone.
    pub open spec fn without_lefts(self, x: Set<Seq<char>>) -> Relation {
        Relation {
            lefts: self.lefts.difference(x),
            rights: self.rights.filter(
                |r: Seq<char>|
                    !self.has_left_outside(r, Set::empty()) || self.has_left_outside(r, x),
            ),
            edges: self.edges.filter(|p: (Seq<char>, Seq<char>)| !x.contains(p.0)),
        }
    }

    /// The relation after the right keys in `y` are removed one by one.
    pub open spec fn without_rights(self, y: Set<Seq<char>>) -> Relation {
        Relation {
            lefts: self.lefts.filter(
                |l: Seq<char>|
                    !self.has_right_outside(l, Set::empty()) || self.has_right_outside(l, y),
            ),
            rights: self.rights.difference(y),
            edges: self.edges.filter(|p: (Seq<char>, Seq<char>)| !y.contains(p.1)),
        }
    }

    /// A relation without keys.
    pub open spec fn empty() -> Relation {
        Relation { lefts: Set::empty(), rights: Set::empty(), edges: Set::empty() }
    }

    /// The relation after one change.
    pub open spec fn applied(self, op: Op) -> Relation {
        match op {
            Op::Insert(l, r) => Relation {
                lefts: self.lefts.insert(l),
                rights: self.rights.insert(r),
                edges: self.edges.insert((l, r)),
            },
            Op::RemoveByLeft(l) => self.without_lefts(set![l]),
            Op::RemoveByRight(r) => self.without_rights(set![r]),
        }
    }

    /// The keys of each side are exactly the ends of the pairs: no key
    /// stands alone, and no pair holds something that is no key.
    pub open spec fn tight(self) -> bool {
        &&& forall|l: Seq<char>| #[trigger]
            self.lefts.contains(l) <==> self.has_right_outside(l, Set::empty())
        &&& forall|r: Seq<char>| #[trigger]
            self.rights.contains(r) <==> self.has_left_outside(r, Set::empty())
    }

    /// The relation after `dependant` is paired with the first `n` of
    /// `antecedents`, as their right key.
    pub open spec fn with_derives(self, dependant: Seq<char>, antecedents: Seq<Seq<char>>, n: int) -> Relation
        decreases n,
    {
        if n <= 0 {
            self
        } else {
            self.with_derives(dependant, antecedents, n - 1).applied(
                Op::Insert(antecedents[n - 1], dependant),
            )
        }
    }

    /// The relation after `dependant` is compiled anew: the pairs that hold
    /// it as right key go, then one pair comes in for each of `antecedents`.
    pub open spec fn recompiled(self, dependant: Seq<char>, antecedents: Seq<Seq<char>>) -> Relation {
        self.without_rights(set![dependant]).with_derives(
            dependant,
            antecedents,
            antecedents.len() as int,
        )
    }
}

/// The relation that the first `n` of `ops` make of the empty one.
pub open spec fn reached(ops: Seq<Op>, n: int) -> Relation
    decreases n,
{
    if n <= 0 {
        Relation::empty()
    } else {
        reached(ops, n - 1).applied(ops[n - 1])
    }
}

/// One of the first `n` texts is `k`.
pub open spec fn among(t: Seq<Seq<char>>, n: int, k: Seq<char>) -> bool {
    exists|i: int| 0 <= i < n && i < t.len() && #[trigger] t[i] == k
}

/// Removing the left keys of `x` and then `k` is removing those of `x`
/// with `k`.
pub proof fn lemma_without_lefts_step(m: Relation, x: Set<Seq<char>>, k: Seq<char>)
    ensures
        m.without_lefts(x).without_lefts(set![k]) == m.without_lefts(x.insert(k)),
{
    let a = m.without_lefts(x);
    let b = a.without_lefts(set![k]);
    let c = m.without_lefts(x.insert(k));
    let none = Set::<Seq<char>>::empty();
    assert(b.lefts =~= c.lefts);
    assert(b.edges =~= c.edges);
    assert forall|r: Seq<char>| b.rights.contains(r) == c.rights.contains(r) by {
        if m.has_left_outside(r, x.insert(k)) {
            let l = choose|l: Seq<char>| #[trigger] m.edges.contains((l, r)) && !x.insert(k).contains(l);
            assert(m.edges.contains((l, r)) && !x.contains(l));
            assert(a.edges.contains((l, r)) && !set![k].contains(l));
        }
        if a.has_left_outside(r, set![k]) {
            let l = choose|l: Seq<char>| #[trigger] a.edges.contains((l, r)) && !set![k].contains(l);
            assert(m.edges.contains((l, r)) && !x.insert(k).contains(l));
            assert(m.edges.contains((l, r)) && !x.contains(l));
        }
        if a.has_left_outside(r, none) {
            let l = choose|l: Seq<char>| #[trigger] a.edges.contains((l, r)) && !none.contains(l);
            assert(m.edges.contains((l, r)) && !none.contains(l));
            assert(m.edges.contains((l, r)) && !x.contains(l));
        }
        if m.has_left_outside(r, x) {
            let l = choose|l: Seq<char>| #[trigger] m.edges.contains((l, r)) && !x.contains(l);
            assert(a.edges.contains((l, r)) && !none.contains(l));
            assert(m.edges.contains((l, r)) && !none.contains(l));
        }
        if m.has_left_outside(r, none) && !m.has_left_outside(r, x) {
            assert(!a.rights.contains(r));
        }
    }
    assert(b.rights =~= c.rights);
}

/// Removing the right keys of `y` and then `k` is removing those of `y`
/// with `k`.
pub proof fn lemma_without_rights_step(m: Relation, y: Set<Seq<char>>, k: Seq<char>)
    ensures
        m.without_rights(y).without_rights(set![k]) == m.without_rights(y.insert(k)),
{
    let a = m.without_rights(y);
    let b = a.without_rights(set![k]);
    let c = m.without_rights(y.insert(k));
    let none = Set::<Seq<char>>::empty();
    assert(b.rights =~= c.rights);
    assert(b.edges =~= c.edges);
    assert forall|l: Seq<char>| b.lefts.contains(l) == c.lefts.contains(l) by {
        if m.has_right_outside(l, y.insert(k)) {
            let r = choose|r: Seq<char>| #[trigger] m.edges.contains((l, r)) && !y.insert(k).contains(r);
            assert(m.edges.contains((l, r)) && !y.contains(r));
            assert(a.edges.contains((l, r)) && !set![k].contains(r));
        }
        if a.has_right_outside(l, set![k]) {
            let r = choose|r: Seq<char>| #[trigger] a.edges.contains((l, r)) && !set![k].contains(r);
            assert(m.edges.contains((l, r)) && !y.insert(k).contains(r));
            assert(m.edges.contains((l, r)) && !y.contains(r));
        }
        if a.has_right_outside(l, none) {
            let r = choose|r: Seq<char>| #[trigger] a.edges.contains((l, r)) && !none.contains(r);
            assert(m.edges.contains((l, r)) && !none.contains(r));
            assert(m.edges.contains((l, r)) && !y.contains(r));
        }
        if m.has_right_outside(l, y) {
            let r = choose|r: Seq<char>| #[trigger] m.edges.contains((l, r)) && !y.contains(r);
            assert(a.edges.contains((l, r)) && !none.contains(r));
            assert(m.edges.contains((l, r)) && !none.contains(r));
        }
        if m.has_right_outside(l, none) && !m.has_right_outside(l, y) {
            assert(!a.lefts.contains(l));
        }
    }
    assert(b.lefts =~= c.lefts);
}

/// Removing no key changes nothing.
pub proof fn lemma_without_none(m: Relation)
    ensures
        m.without_lefts(Set::empty()) == m,
        m.without_rights(Set::empty()) == m,
{
    let none = Set::<Seq<char>>::empty();
    assert(m.without_lefts(none).lefts =~= m.lefts);
    assert(m.without_lefts(none).rights =~= m.rights);
    assert(m.without_lefts(none).edges =~= m.edges);
    assert(m.without_rights(none).lefts =~= m.lefts);
    assert(m.without_rights(none).rights =~= m.rights);
    assert(m.without_rights(none).edges =~= m.edges);
}

/// One change keeps a relation tight.
pub proof fn lemma_applied_is_tight(m: Relation, op: Op)
    requires
        m.tight(),
    ensures
        m.applied(op).tight(),
{
    let none = Set::<Seq<char>>::empty();
    let a = m.applied(op);
    match op {
        Op::Insert(x, y) => {
            assert forall|l: Seq<char>| #[trigger]
                a.lefts.contains(l) <==> a.has_right_outside(l, none) by {
                if a.has_right_outside(l, none) {
                    let r = choose|r: Seq<char>| #[trigger] a.edges.contains((l, r)) && !none.contains(r);
                    if l != x {
                        assert(m.edges.contains((l, r)) && !none.contains(r));
                        assert(m.has_right_outside(l, none));
                    }
                }
                if m.lefts.contains(l) {
                    assert(m.has_right_outside(l, none));
                    let r = choose|r: Seq<char>| #[trigger] m.edges.contains((l, r)) && !none.contains(r);
                    assert(a.edges.contains((l, r)) && !none.contains(r));
                }
                if l == x {
                    assert(a.edges.contains((l, y)) && !none.contains(y));
                }
            }
            assert forall|r: Seq<char>| #[trigger]
                a.rights.contains(r) <==> a.has_left_outside(r, none) by {
                if a.has_left_outside(r, none) {
                    let l = choose|l: Seq<char>| #[trigger] a.edges.contains((l, r)) && !none.contains(l);
                    if r != y {
                        assert(m.edges.contains((l, r)) && !none.contains(l));
                        assert(m.has_left_outside(r, none));
                    }
                }
                if m.rights.contains(r) {
                    assert(m.has_left_outside(r, none));
                    let l = choose|l: Seq<char>| #[trigger] m.edges.contains((l, r)) && !none.contains(l);
                    assert(a.edges.contains((l, r)) && !none.contains(l));
                }
                if r == y {
                    assert(a.edges.contains((x, r)) && !none.contains(x));
                }
            }
        },
        Op::RemoveByLeft(x) => {
            assert(set![x].contains(x));
            assert forall|l: Seq<char>| #[trigger]
                a.lefts.contains(l) <==> a.has_right_outside(l, none) by {
                if a.has_right_outside(l, none) {
                    let r = choose|r: Seq<char>| #[trigger] a.edges.contains((l, r)) && !none.contains(r);
                    assert(m.edges.contains((l, r)) && !none.contains(r));
                    assert(m.has_right_outside(l, none));
                }
                if a.lefts.contains(l) {
                    assert(m.has_right_outside(l, none));
                    let r = choose|r: Seq<char>| #[trigger] m.edges.contains((l, r)) && !none.contains(r);
                    assert(a.edges.contains((l, r)) && !none.contains(r));
                }
            }
            assert forall|r: Seq<char>| #[trigger]
                a.rights.contains(r) <==> a.has_left_outside(r, none) by {
                if a.has_left_outside(r, none) {
                    let l = choose|l: Seq<char>| #[trigger] a.edges.contains((l, r)) && !none.contains(l);
                    assert(m.edges.contains((l, r)) && !none.contains(l));
                    assert(m.edges.contains((l, r)) && !set![x].contains(l));
                    assert(m.has_left_outside(r, none));
                }
                if a.rights.contains(r) {
                    assert(m.has_left_outside(r, none));
                    assert(m.has_left_outside(r, set![x]));
                    let l = choose|l: Seq<char>| #[trigger] m.edges.contains((l, r)) && !set![x].contains(l);
                    assert(a.edges.contains((l, r)) && !none.contains(l));
                }
            }
        },
        Op::RemoveByRight(y) => {
            assert(set![y].contains(y));
            assert forall|r: Seq<char>| #[trigger]
                a.rights.contains(r) <==> a.has_left_outside(r, none) by {
                if a.has_left_outside(r, none) {
                    let l = choose|l: Seq<char>| #[trigger] a.edges.contains((l, r)) && !none.contains(l);
                    assert(m.edges.contains((l, r)) && !none.contains(l));
                    assert(m.has_left_outside(r, none));
                }
                if a.rights.contains(r) {
                    assert(m.has_left_outside(r, none));
                    let l = choose|l: Seq<char>| #[trigger] m.edges.contains((l, r)) && !none.contains(l);
                    assert(a.edges.contains((l, r)) && !none.contains(l));
                }
            }
            assert forall|l: Seq<char>| #[trigger]
                a.lefts.contains(l) <==> a.has_right_outside(l, none) by {
                if a.has_right_outside(l, none) {
                    let r = choose|r: Seq<char>| #[trigger] a.edges.contains((l, r)) && !none.contains(r);
                    assert(m.edges.contains((l, r)) && !none.contains(r));
                    assert(m.edges.contains((l, r)) && !set![y].contains(r));
                    assert(m.has_right_outside(l, none));
                }
                if a.lefts.contains(l) {
                    assert(m.has_right_outside(l, none));
                    assert(m.has_right_outside(l, set![y]));
                    let r = choose|r: Seq<char>| #[trigger] m.edges.contains((l, r)) && !set![y].contains(r);
                    assert(a.edges.contains((l, r)) && !none.contains(r));
                }
            }
        },
    }
}

/// Whatever inserts and removals are made, in whatever order, no key of
/// the relation they lead to stands without a partner.
pub proof fn lemma_reached_is_tight(ops: Seq<Op>, n: int)
    ensures
        reached(ops, n).tight(),
    decreases n,
{
    if n <= 0 {
        let e = Relation::empty();
        let none = Set::<Seq<char>>::empty();
        assert forall|l: Seq<char>| #[trigger] e.lefts.contains(l) <==> e.has_right_outside(l, none) by {
            if e.has_right_outside(l, none) {
                let r = choose|r: Seq<char>| #[trigger] e.edges.contains((l, r)) && !none.contains(r);
            }
        }
        assert forall|r: Seq<char>| #[trigger] e.rights.contains(r) <==> e.has_left_outside(r, none) by {
            if e.has_left_outside(r, none) {
                let l = choose|l: Seq<char>| #[trigger] e.edges.contains((l, r)) && !none.contains(l);
            }
        }
    } else {
        lemma_reached_is_tight(ops, n - 1);
        lemma_applied_is_tight(reached(ops, n - 1), ops[n - 1]);
    }
}

/// What pairing a right key with some left keys comes to.
pub proof fn lemma_with_derives(m: Relation, p: Seq<char>, d: Seq<Seq<char>>, n: int)
    requires
        0 <= n <= d.len(),
    ensures
        forall|l: Seq<char>| #[trigger]
            m.with_derives(p, d, n).lefts.contains(l) <==> m.lefts.contains(l) || among(d, n, l),
        forall|r: Seq<char>| #[trigger]
            m.with_derives(p, d, n).rights.contains(r) <==> m.rights.contains(r) || (n > 0 && r == p),
        forall|l: Seq<char>, r: Seq<char>| #[trigger]
            m.with_derives(p, d, n).edges.contains((l, r)) <==> m.edges.contains((l, r)) || (r == p
                && among(d, n, l)),
    decreases n,
{
    if n > 0 {
        lemma_with_derives(m, p, d, n - 1);
        let before = m.with_derives(p, d, n - 1);
        let after = m.with_derives(p, d, n);
        assert forall|l: Seq<char>| among(d, n, l) <==> among(d, n - 1, l) || l == d[n - 1] by {
            if among(d, n, l) {
                let i = choose|i: int| 0 <= i < n && i < d.len() && #[trigger] d[i] == l;
                if i < n - 1 {
                    assert(among(d, n - 1, l));
                }
            }
            if among(d, n - 1, l) {
                let i = choose|i: int| 0 <= i < n - 1 && i < d.len() && #[trigger] d[i] == l;
                assert(d[i] == l);
            }
            if l == d[n - 1] {
                assert(d[n - 1] == l);
            }
        }
        assert forall|l: Seq<char>| #[trigger]
            after.lefts.contains(l) <==> m.lefts.contains(l) || among(d, n, l) by {
            assert(before.lefts.contains(l) <==> m.lefts.contains(l) || among(d, n - 1, l));
        }
        assert forall|r: Seq<char>| #[trigger]
            after.rights.contains(r) <==> m.rights.contains(r) || (n > 0 && r == p) by {
            assert(before.rights.contains(r) <==> m.rights.contains(r) || (n - 1 > 0 && r == p));
        }
        assert forall|l: Seq<char>, r: Seq<char>| #[trigger]
            after.edges.contains((l, r)) <==> m.edges.contains((l, r)) || (r == p && among(d, n, l)) by {
            assert(before.edges.contains((l, r)) <==> m.edges.contains((l, r)) || (r == p && among(
                d,
                n - 1,
                l,
            )));
        }
    } else {
        assert forall|l: Seq<char>| !among(d, n, l) by {}
    }
}

/// Compiling a file anew whose references have not changed leaves the
/// relation as the compilation before left it.
pub proof fn lemma_recompile_idempotent(m: Relation, p: Seq<char>, d: Seq<Seq<char>>)
    ensures
        m.recompiled(p, d).recompiled(p, d) == m.recompiled(p, d),
{
    let n = d.len() as int;
    let none = Set::<Seq<char>>::empty();
    let r0 = m.without_rights(set![p]);
    let r1 = m.recompiled(p, d);
    let s0 = r1.without_rights(set![p]);
    let r2 = r1.recompiled(p, d);
    lemma_with_derives(r0, p, d, n);
    lemma_with_derives(s0, p, d, n);
    assert(set![p].contains(p));
    assert forall|l: Seq<char>, r: Seq<char>| r2.edges.contains((l, r)) == r1.edges.contains((l, r)) by {
        assert(s0.edges.contains((l, r)) == (r1.edges.contains((l, r)) && !set![p].contains(r)));
        assert(r0.edges.contains((l, r)) == (m.edges.contains((l, r)) && !set![p].contains(r)));
    }
    assert forall|e: (Seq<char>, Seq<char>)| r2.edges.contains(e) == r1.edges.contains(e) by {
        assert(r2.edges.contains((e.0, e.1)) == r1.edges.contains((e.0, e.1)));
    }
    assert(r2.edges =~= r1.edges);
    assert forall|r: Seq<char>| r2.rights.contains(r) == r1.rights.contains(r) by {
        assert(s0.rights.contains(r) == (r1.rights.contains(r) && !set![p].contains(r)));
        assert(r0.rights.contains(r) == (m.rights.contains(r) && !set![p].contains(r)));
    }
    assert(r2.rights =~= r1.rights);
    assert forall|l: Seq<char>| r2.lefts.contains(l) == r1.lefts.contains(l) by {
        if r1.lefts.contains(l) && !among(d, n, l) {
            assert(r0.lefts.contains(l));
            assert(m.lefts.contains(l));
            if m.has_right_outside(l, set![p]) {
                let r = choose|r: Seq<char>| #[trigger] m.edges.contains((l, r)) && !set![p].contains(r);
                assert(r0.edges.contains((l, r)));
                assert(r1.edges.contains((l, r)) && !set![p].contains(r));
                assert(r1.has_right_outside(l, set![p]));
            } else {
                assert(!m.has_right_outside(l, none));
                if r1.has_right_outside(l, none) {
                    let r = choose|r: Seq<char>| #[trigger] r1.edges.contains((l, r)) && !none.contains(r);
                    assert(r0.edges.contains((l, r)));
                    assert(m.edges.contains((l, r)) && !none.contains(r));
                }
            }
            assert(s0.lefts.contains(l));
        }
        if s0.lefts.contains(l) {
            assert(r1.lefts.contains(l));
        }
    }
    assert(r2.lefts =~= r1.lefts);
}

} // verus!
